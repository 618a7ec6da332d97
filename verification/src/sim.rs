//! An in-memory metadata source: the mutable cluster double the allocator is
//! exercised against. It plays the metadata authority's part — it hands out
//! snapshot reads and applies topology changes — while keeping the snapshot's
//! node counters consistent with the replica placement it records.

use vstd::prelude::*;

use crate::allocator::ReallocateShard;
use crate::apply::{
    add_shard, apply_shard, find_group, first_group_index, lemma_first_group_index,
    move_first_replica, repoint_first_replica,
};
use crate::desc::{views_of_groups, GroupDesc, GroupView, NodeCapacity, NodeDesc, ReplicaDesc};
use crate::model::{count_on_node, replicas_on_node};

verus! {

/// Every group with its first replica of the given id repointed to the
/// target node.
pub open spec fn repoint_in_all_groups(gs: Seq<GroupView>, rid: u64, target: u64) -> Seq<
    GroupView,
> {
    gs.map_values(|g: GroupView| move_first_replica(g, rid, target))
}

/// The node list with every replica counter recomputed from the placement
/// the groups record; ids, addresses and the other counters are kept.
pub open spec fn nodes_with_recounted_replicas(
    ns: Seq<NodeDesc>,
    gs: Seq<GroupView>,
    ns2: Seq<NodeDesc>,
) -> bool {
    &&& ns2.len() == ns.len()
    &&& forall|i: int|
        0 <= i < ns.len() ==> (#[trigger] ns2[i]).id == ns[i].id && ns2[i].addr@ == ns[i].addr@
            && ns2[i].capacity.cpu_nums == ns[i].capacity.cpu_nums
            && ns2[i].capacity.leader_count == ns[i].capacity.leader_count
            && ns2[i].capacity.replica_count == replicas_on_node(gs, ns[i].id)
}

/// A mutable in-memory cluster. `nodes` and `groups` are the snapshot the
/// allocator reads; `shard_id_gen` feeds fresh shard ids.
pub struct MockInfoProvider {
    pub nodes: Vec<NodeDesc>,
    pub groups: Vec<GroupDesc>,
    pub shard_id_gen: u64,
}

impl MockInfoProvider {
    /// An empty cluster; shard ids start at one.
    pub fn new() -> (r: MockInfoProvider)
        ensures
            r.nodes@.len() == 0,
            r.groups@.len() == 0,
            r.shard_id_gen == 1,
    {
        MockInfoProvider { nodes: Vec::new(), groups: Vec::new(), shard_id_gen: 1 }
    }

    /// An in-memory source always has a fresh snapshot at hand.
    pub fn refresh_all(&self) -> (r: Result<(), crate::allocator::AllocError>)
        ensures
            r is Ok,
    {
        Ok(())
    }

    /// The snapshot's node list.
    pub fn nodes(&self) -> (r: Vec<NodeDesc>)
        ensures
            r@ == self.nodes@,
    {
        let mut out: Vec<NodeDesc> = Vec::new();
        let mut i: usize = 0;
        while i < self.nodes.len()
            invariant
                i <= self.nodes@.len(),
                out@ =~= self.nodes@.take(i as int),
            decreases self.nodes@.len() - i,
        {
            out.push(self.nodes[i].clone());
            i = i + 1;
        }
        proof {
            assert(out@ =~= self.nodes@);
        }
        out
    }

    /// The snapshot's group list.
    pub fn groups(&self) -> (r: Vec<GroupDesc>)
        ensures
            views_of_groups(r@) == views_of_groups(self.groups@),
    {
        let mut out: Vec<GroupDesc> = Vec::new();
        let mut i: usize = 0;
        while i < self.groups.len()
            invariant
                i <= self.groups@.len(),
                views_of_groups(out@) =~= views_of_groups(self.groups@).take(i as int),
            decreases self.groups@.len() - i,
        {
            let ghost prev = out@;
            let x = self.groups[i].clone();
            let ghost xv = x@;
            out.push(x);
            proof {
                assert(views_of_groups(prev).len() == i);
                assert(prev.len() == views_of_groups(prev).len());
                assert(out@ == prev.push(x));
                assert(out@.len() == i + 1);
                assert forall|j: int| 0 <= j < i + 1 implies views_of_groups(out@)[j]
                    == views_of_groups(self.groups@).take(i as int + 1)[j] by {
                    if j < i {
                        assert(out@[j] == prev[j]);
                        assert(views_of_groups(prev)[j] == views_of_groups(self.groups@).take(
                            i as int,
                        )[j]);
                    } else {
                        assert(out@[j] == x);
                        assert(xv == self.groups@[i as int]@);
                    }
                }
                assert(views_of_groups(out@) =~= views_of_groups(self.groups@).take(i as int + 1));
            }
            i = i + 1;
        }
        proof {
            assert(views_of_groups(out@) =~= views_of_groups(self.groups@));
        }
        out
    }

    /// The replicas the given node hosts, each with its owning group's id,
    /// in group order.
    pub fn node_replicas(&self, node_id: u64) -> (r: Vec<(ReplicaDesc, u64)>)
        ensures
            r@.len() == replicas_on_node(views_of_groups(self.groups@), node_id),
            forall|p: int|
                0 <= p < r@.len() ==> (#[trigger] r@[p]).0.node_id == node_id && exists|k: int,
                    i: int|
                    0 <= k < self.groups@.len() && 0 <= i < self.groups@[k].replicas@.len() && (
                    #[trigger] self.groups@[k].replicas@[i]) == r@[p].0 && self.groups@[k].id
                        == r@[p].1,
            forall|k: int, i: int|
                0 <= k < self.groups@.len() && 0 <= i < self.groups@[k].replicas@.len() && (
                #[trigger] self.groups@[k].replicas@[i]).node_id == node_id ==> r@.contains(
                    (self.groups@[k].replicas@[i], self.groups@[k].id),
                ),
    {
        let ghost gv = views_of_groups(self.groups@);
        let mut out: Vec<(ReplicaDesc, u64)> = Vec::new();
        let mut k: usize = 0;
        while k < self.groups.len()
            invariant
                gv == views_of_groups(self.groups@),
                k <= self.groups@.len(),
                out@.len() == replicas_on_node(gv.take(k as int), node_id),
                forall|p: int|
                    0 <= p < out@.len() ==> (#[trigger] out@[p]).0.node_id == node_id && exists|
                        k2: int,
                        i: int,
                    |
                        0 <= k2 < self.groups@.len() && 0 <= i < self.groups@[k2].replicas@.len()
                            && (#[trigger] self.groups@[k2].replicas@[i]) == out@[p].0
                            && self.groups@[k2].id == out@[p].1,
                forall|k2: int, i: int|
                    0 <= k2 < k && 0 <= i < self.groups@[k2].replicas@.len() && (
                    #[trigger] self.groups@[k2].replicas@[i]).node_id == node_id ==> out@.contains(
                        (self.groups@[k2].replicas@[i], self.groups@[k2].id),
                    ),
            decreases self.groups@.len() - k,
        {
            let gid = self.groups[k].id;
            let ghost rs = self.groups@[k as int].replicas@;
            let mut i: usize = 0;
            while i < self.groups[k].replicas.len()
                invariant
                    gv == views_of_groups(self.groups@),
                    k < self.groups@.len(),
                    gid == self.groups@[k as int].id,
                    rs == self.groups@[k as int].replicas@,
                    i <= rs.len(),
                    out@.len() == replicas_on_node(gv.take(k as int), node_id) + count_on_node(
                        rs.take(i as int),
                        node_id,
                    ),
                    forall|p: int|
                        0 <= p < out@.len() ==> (#[trigger] out@[p]).0.node_id == node_id && exists|
                            k2: int,
                            i2: int,
                        |
                            0 <= k2 < self.groups@.len() && 0 <= i2
                                < self.groups@[k2].replicas@.len() && (
                            #[trigger] self.groups@[k2].replicas@[i2]) == out@[p].0
                                && self.groups@[k2].id == out@[p].1,
                    forall|k2: int, i2: int|
                        0 <= k2 < k && 0 <= i2 < self.groups@[k2].replicas@.len() && (
                        #[trigger] self.groups@[k2].replicas@[i2]).node_id == node_id
                            ==> out@.contains(
                            (self.groups@[k2].replicas@[i2], self.groups@[k2].id),
                        ),
                    forall|i2: int|
                        0 <= i2 < i && (#[trigger] rs[i2]).node_id == node_id ==> out@.contains(
                            (rs[i2], gid),
                        ),
                decreases rs.len() - i,
            {
                let ghost out0 = out@;
                if self.groups[k].replicas[i].node_id == node_id {
                    let rep = self.groups[k].replicas[i].clone();
                    out.push((rep, gid));
                    proof {
                        assert(out@[out@.len() - 1] == (rs[i as int], gid));
                        assert(out@.contains((rs[i as int], gid)));
                    }
                }
                proof {
                    assert(rs.take(i as int + 1).drop_last() =~= rs.take(i as int));
                    assert(rs.take(i as int + 1).last() == rs[i as int]);
                    assert forall|y: (ReplicaDesc, u64)| out0.contains(y) implies out@.contains(
                        y,
                    ) by {
                        let p = choose|p: int| 0 <= p < out0.len() && out0[p] == y;
                        assert(out@[p] == y);
                    }
                }
                i = i + 1;
            }
            proof {
                assert(rs.take(rs.len() as int) =~= rs);
                assert(gv.take(k as int + 1).drop_last() =~= gv.take(k as int));
                assert(gv.take(k as int + 1).last() == gv[k as int]);
                assert(gv[k as int].replicas == rs);
            }
            k = k + 1;
        }
        proof {
            assert(gv.take(gv.len() as int) =~= gv);
        }
        out
    }

    /// Replace the snapshot's node list.
    pub fn set_nodes(&mut self, ns: Vec<NodeDesc>)
        ensures
            final(self).nodes == ns,
            final(self).groups == old(self).groups,
            final(self).shard_id_gen == old(self).shard_id_gen,
    {
        self.nodes = ns;
    }

    /// Replace the snapshot's group list, and recompute every node's replica
    /// counter from the placement the new groups record.
    pub fn set_groups(&mut self, gs: Vec<GroupDesc>)
        requires
            forall|i: int|
                0 <= i < old(self).nodes@.len() ==> replicas_on_node(
                    views_of_groups(gs@),
                    (#[trigger] old(self).nodes@[i]).id,
                ) <= u64::MAX,
        ensures
            final(self).groups == gs,
            final(self).shard_id_gen == old(self).shard_id_gen,
            nodes_with_recounted_replicas(
                old(self).nodes@,
                views_of_groups(gs@),
                final(self).nodes@,
            ),
    {
        self.groups = gs;
        self.recount_nodes();
    }

    /// Recompute every node's replica counter from the current groups.
    fn recount_nodes(&mut self)
        requires
            forall|i: int|
                0 <= i < old(self).nodes@.len() ==> replicas_on_node(
                    views_of_groups(old(self).groups@),
                    (#[trigger] old(self).nodes@[i]).id,
                ) <= u64::MAX,
        ensures
            final(self).groups == old(self).groups,
            final(self).shard_id_gen == old(self).shard_id_gen,
            nodes_with_recounted_replicas(
                old(self).nodes@,
                views_of_groups(old(self).groups@),
                final(self).nodes@,
            ),
    {
        let ghost gv = views_of_groups(self.groups@);
        let mut new_nodes: Vec<NodeDesc> = Vec::new();
        let mut i: usize = 0;
        while i < self.nodes.len()
            invariant
                gv == views_of_groups(self.groups@),
                self.nodes == old(self).nodes,
                i <= self.nodes@.len(),
                forall|j: int|
                    0 <= j < self.nodes@.len() ==> replicas_on_node(
                        gv,
                        (#[trigger] self.nodes@[j]).id,
                    ) <= u64::MAX,
                new_nodes@.len() == i,
                forall|j: int|
                    0 <= j < i ==> (#[trigger] new_nodes@[j]).id == self.nodes@[j].id
                        && new_nodes@[j].addr@ == self.nodes@[j].addr@
                        && new_nodes@[j].capacity.cpu_nums == self.nodes@[j].capacity.cpu_nums
                        && new_nodes@[j].capacity.leader_count
                        == self.nodes@[j].capacity.leader_count
                        && new_nodes@[j].capacity.replica_count == replicas_on_node(
                        gv,
                        self.nodes@[j].id,
                    ),
            decreases self.nodes@.len() - i,
        {
            let nid = self.nodes[i].id;
            let c = count_replicas_for(&self.groups, nid);
            let n = &self.nodes[i];
            new_nodes.push(
                NodeDesc {
                    id: n.id,
                    addr: n.addr.clone(),
                    capacity: NodeCapacity {
                        cpu_nums: n.capacity.cpu_nums,
                        replica_count: c,
                        leader_count: n.capacity.leader_count,
                    },
                },
            );
            i = i + 1;
        }
        self.nodes = new_nodes;
    }

    /// Repoint, in every group, the first replica with the given id to the
    /// target node, and recompute the node counters.
    pub fn move_replica(&mut self, replica_id: u64, node: u64)
        requires
            forall|i: int|
                0 <= i < old(self).nodes@.len() ==> replicas_on_node(
                    repoint_in_all_groups(
                        views_of_groups(old(self).groups@),
                        replica_id,
                        node,
                    ),
                    (#[trigger] old(self).nodes@[i]).id,
                ) <= u64::MAX,
        ensures
            views_of_groups(final(self).groups@) == repoint_in_all_groups(
                views_of_groups(old(self).groups@),
                replica_id,
                node,
            ),
            final(self).shard_id_gen == old(self).shard_id_gen,
            nodes_with_recounted_replicas(
                old(self).nodes@,
                views_of_groups(final(self).groups@),
                final(self).nodes@,
            ),
    {
        let ghost gv0 = views_of_groups(self.groups@);
        let ghost target = repoint_in_all_groups(gv0, replica_id, node);
        let mut k: usize = 0;
        while k < self.groups.len()
            invariant
                self.groups@.len() == gv0.len(),
                target == repoint_in_all_groups(gv0, replica_id, node),
                target.len() == gv0.len(),
                k <= gv0.len(),
                forall|j: int| 0 <= j < k ==> (#[trigger] self.groups@[j])@ == target[j],
                forall|j: int| k <= j < gv0.len() ==> (#[trigger] self.groups@[j])@ == gv0[j],
                self.nodes == old(self).nodes,
                self.shard_id_gen == old(self).shard_id_gen,
            decreases gv0.len() - k,
        {
            let mut g = self.groups.remove(k);
            proof {
                assert(g@ == gv0[k as int]);
            }
            repoint_first_replica(&mut g, replica_id, node);
            self.groups.insert(k, g);
            proof {
                assert(self.groups@[k as int]@ == move_first_replica(
                    gv0[k as int],
                    replica_id,
                    node,
                ));
                assert(target[k as int] == move_first_replica(gv0[k as int], replica_id, node));
            }
            k = k + 1;
        }
        proof {
            assert forall|j: int| 0 <= j < gv0.len() implies views_of_groups(self.groups@)[j]
                == target[j] by {
                assert(self.groups@[j]@ == target[j]);
            }
            assert(views_of_groups(self.groups@) =~= target);
        }
        self.recount_nodes();
    }

    /// Move one shard between two groups: the first shard with the given id
    /// leaves the source group and is appended to the target group. The node
    /// counters are untouched — a shard migration changes no replica
    /// placement.
    pub fn move_shards(&mut self, sgroup: u64, tgroup: u64, shard: u64)
        ensures
            views_of_groups(final(self).groups@) == apply_shard(
                views_of_groups(old(self).groups@),
                ReallocateShard { shard, source_group: sgroup, target_group: tgroup },
            ),
            final(self).nodes == old(self).nodes,
            final(self).shard_id_gen == old(self).shard_id_gen,
    {
        let m = ReallocateShard { shard, source_group: sgroup, target_group: tgroup };
        crate::apply::apply_shard_migration(&mut self.groups, &m);
    }

    /// Give the group with the given id one freshly numbered shard.
    pub fn assign_shard(&mut self, group_id: u64)
        requires
            old(self).shard_id_gen < u64::MAX,
        ensures
            ({
                let gv = views_of_groups(old(self).groups@);
                let k = first_group_index(gv, group_id);
                if k < gv.len() {
                    views_of_groups(final(self).groups@) == gv.update(
                        k,
                        add_shard(gv[k], old(self).shard_id_gen),
                    ) && final(self).shard_id_gen == old(self).shard_id_gen + 1
                } else {
                    views_of_groups(final(self).groups@) == gv && final(self).shard_id_gen == old(
                        self,
                    ).shard_id_gen
                }
            }),
            final(self).nodes == old(self).nodes,
    {
        let ghost gv = views_of_groups(self.groups@);
        proof {
            lemma_first_group_index(gv, group_id);
        }
        let k_opt = find_group(&self.groups, group_id);
        let k: usize;
        match k_opt {
            Some(i) => {
                k = i;
            },
            None => {
                return ;
            },
        }
        let mut g = self.groups.remove(k);
        proof {
            assert(g@ == gv[k as int]);
        }
        g.shards.push(crate::desc::ShardDesc { id: self.shard_id_gen });
        self.shard_id_gen = self.shard_id_gen + 1;
        proof {
            assert(g@ == add_shard(gv[k as int], old(self).shard_id_gen));
        }
        self.groups.insert(k, g);
        proof {
            assert(views_of_groups(self.groups@) =~= gv.update(
                k as int,
                add_shard(gv[k as int], old(self).shard_id_gen),
            ));
        }
    }
}

/// How many replicas of the listed groups the given node hosts.
fn count_replicas_for(groups: &Vec<GroupDesc>, node_id: u64) -> (r: u64)
    requires
        replicas_on_node(views_of_groups(groups@), node_id) <= u64::MAX,
    ensures
        r == replicas_on_node(views_of_groups(groups@), node_id),
{
    let ghost gv = views_of_groups(groups@);
    let mut total: u64 = 0;
    let mut k: usize = 0;
    while k < groups.len()
        invariant
            gv == views_of_groups(groups@),
            k <= gv.len(),
            total == replicas_on_node(gv.take(k as int), node_id),
            replicas_on_node(gv, node_id) <= u64::MAX,
        decreases gv.len() - k,
    {
        let ghost rs = groups@[k as int].replicas@;
        proof {
            lemma_replicas_on_node_prefix(gv, k as int, node_id);
        }
        let mut i: usize = 0;
        while i < groups[k].replicas.len()
            invariant
                gv == views_of_groups(groups@),
                k < gv.len(),
                rs == groups@[k as int].replicas@,
                i <= rs.len(),
                total == replicas_on_node(gv.take(k as int), node_id) + count_on_node(
                    rs.take(i as int),
                    node_id,
                ),
                replicas_on_node(gv.take(k as int), node_id) + count_on_node(rs, node_id)
                    <= u64::MAX,
                count_on_node(rs.take(i as int), node_id) <= count_on_node(rs, node_id),
            decreases rs.len() - i,
        {
            proof {
                assert(rs.take(i as int + 1).drop_last() =~= rs.take(i as int));
                assert(rs.take(i as int + 1).last() == rs[i as int]);
                lemma_count_on_node_prefix(rs, i as int + 1, node_id);
            }
            if groups[k].replicas[i].node_id == node_id {
                total = total + 1;
            }
            i = i + 1;
        }
        proof {
            assert(rs.take(rs.len() as int) =~= rs);
            assert(gv.take(k as int + 1).drop_last() =~= gv.take(k as int));
            assert(gv.take(k as int + 1).last() == gv[k as int]);
            assert(gv[k as int].replicas == rs);
        }
        k = k + 1;
    }
    proof {
        assert(gv.take(gv.len() as int) =~= gv);
    }
    total
}

/// A prefix of the groups accounts for no more replicas than all of them.
proof fn lemma_replicas_on_node_prefix(gs: Seq<GroupView>, k: int, node_id: u64)
    requires
        0 <= k <= gs.len(),
    ensures
        replicas_on_node(gs.take(k), node_id) + count_on_node_suffix(gs, k, node_id)
            == replicas_on_node(gs, node_id),
    decreases gs.len() - k,
{
    if k == gs.len() {
        assert(gs.take(k) =~= gs);
    } else {
        lemma_replicas_on_node_prefix(gs, k + 1, node_id);
        assert(gs.take(k + 1).drop_last() =~= gs.take(k));
        assert(gs.take(k + 1).last() == gs[k]);
    }
}

/// The replicas the node hosts in the groups from position `k` on.
spec fn count_on_node_suffix(gs: Seq<GroupView>, k: int, node_id: u64) -> nat
    decreases gs.len() - k,
{
    if k < 0 || k >= gs.len() {
        0
    } else {
        crate::model::replicas_in_group_on(gs[k], node_id) + count_on_node_suffix(
            gs,
            k + 1,
            node_id,
        )
    }
}

/// A prefix of the replica list accounts for no more replicas than all of it.
proof fn lemma_count_on_node_prefix(rs: Seq<ReplicaDesc>, i: int, node_id: u64)
    requires
        0 <= i <= rs.len(),
    ensures
        count_on_node(rs.take(i), node_id) <= count_on_node(rs, node_id),
    decreases rs.len() - i,
{
    if i == rs.len() {
        assert(rs.take(i) =~= rs);
    } else {
        lemma_count_on_node_prefix(rs, i + 1, node_id);
        assert(rs.take(i + 1).drop_last() =~= rs.take(i));
        assert(rs.take(i + 1).last() == rs[i]);
    }
}

} // verus!
