//! The allocator's decision procedures and the actions they propose.

use vstd::prelude::*;

use crate::desc::{views_of_groups, GroupDesc, GroupView, NodeDesc};
use crate::model::{
    is_replica_source, is_replica_target, is_shard_source, is_shard_target, load_of,
    migration_candidate, placement_known, replica_balanced, shard_balanced, shards_of,
};
use crate::select::{
    first_replica_on, group_leq, groups_sorted, hosts_node, max_load_index, max_shards_index,
    min_load_index, min_shard_index, min_shards_index, node_leq, nodes_contain, nodes_sorted,
    sort_groups_by_shards, sort_nodes_by_load,
};

verus! {

/// Why an allocator call could not produce a proposal.
#[derive(Debug)]
pub enum AllocError {
    /// The metadata source could not produce a snapshot; the caller should
    /// retry the scheduling tick later.
    SourceUnavailable,
    /// More distinct nodes were requested than remain after exclusion; the
    /// caller should defer group creation until the cluster grows.
    InsufficientNodes,
    /// The snapshot is internally inconsistent, e.g. a replica references a
    /// node the snapshot does not know.
    InvalidState,
}

/// Whether the cluster needs more replica groups.
pub enum GroupAction {
    Noop,
    /// This many additional groups, each of the configured replica factor,
    /// are needed to give every node an even share of replicas.
    Add(u64),
}

/// One proposed replica migration.
pub struct ReallocateReplica {
    pub group: u64,
    pub source_node: u64,
    pub source_replica: u64,
    pub target_node: NodeDesc,
}

/// A replica balancing proposal.
pub enum ReplicaAction {
    Noop,
    Migrate(ReallocateReplica),
}

/// One proposed shard migration.
pub struct ReallocateShard {
    pub shard: u64,
    pub source_group: u64,
    pub target_group: u64,
}

/// A shard balancing proposal.
pub enum ShardAction {
    Noop,
    Migrate(ReallocateShard),
}

/// The stateless placement and rebalancing engine. It holds only static
/// configuration; every decision is a pure function of the snapshot the
/// caller passes in.
pub struct Allocator {
    pub replicas_per_group: u64,
}

/// How many groups the cluster should have so that every node hosts an even
/// share of replicas: enough groups of `r` replicas each to give every one of
/// the `n_nodes` nodes one replica more than the replica factor would,
/// rounded up.
pub open spec fn desired_group_count(n_nodes: nat, r: nat) -> nat
    recommends
        r >= 1,
{
    ((n_nodes * (r + 1) + (r - 1)) / (r as int)) as nat
}

/// The group action owed to a snapshot of `n_nodes` nodes and `n_groups`
/// groups under replica factor `r`: nothing while the cluster is too small to
/// seat even one node-disjoint group, nothing once the desired group count is
/// reached, and otherwise the exact shortfall.
pub open spec fn group_action_of(n_nodes: nat, n_groups: nat, r: nat) -> GroupAction {
    if n_nodes < r {
        GroupAction::Noop
    } else if n_groups >= desired_group_count(n_nodes, r) {
        GroupAction::Noop
    } else {
        GroupAction::Add((desired_group_count(n_nodes, r) - n_groups) as u64)
    }
}

proof fn lemma_desired_group_count_bound(n_nodes: nat, r: nat)
    requires
        r >= 1,
    ensures
        desired_group_count(n_nodes, r) <= 2 * n_nodes,
{
    let x = n_nodes * (r + 1) + (r - 1);
    assert(x <= 2 * n_nodes * r + (r - 1)) by (nonlinear_arith)
        requires
            r >= 1,
            x == n_nodes * (r + 1) + (r - 1),
    ;
    vstd::arithmetic::div_mod::lemma_div_is_ordered(
        x as int,
        2 * n_nodes * r + (r - 1),
        r as int,
    );
    vstd::arithmetic::div_mod::lemma_fundamental_div_mod_converse(
        2 * n_nodes * r + (r - 1),
        r as int,
        2 * (n_nodes as int),
        r - 1,
    );
}

/// The group's first replica on the given node is the one with this id.
pub open spec fn first_replica_of(g: GroupView, node_id: u64, replica_id: u64) -> bool {
    exists|i: int|
        0 <= i < g.replicas.len() && (#[trigger] g.replicas[i]).node_id == node_id
            && g.replicas[i].id == replica_id && (forall|j: int|
            0 <= j < i ==> g.replicas[j].node_id != node_id)
}

/// The proposal moves one replica from the drained node (`si`) to the filled
/// node (`ti`), out of the first group that hosts a replica on the former and
/// none on the latter, and the loads differ by more than the tolerance.
pub open spec fn replica_migration_shape(
    ns: Seq<NodeDesc>,
    gs: Seq<GroupView>,
    m: ReallocateReplica,
    si: int,
    ti: int,
    k: int,
) -> bool {
    &&& is_replica_source(ns, si)
    &&& is_replica_target(ns, ti)
    &&& load_of(ns[si]) > load_of(ns[ti]) + 1
    &&& m.source_node == ns[si].id
    &&& m.target_node == ns[ti]
    &&& 0 <= k < gs.len()
    &&& m.group == gs[k].id
    &&& migration_candidate(gs[k], ns[si].id, ns[ti].id)
    &&& forall|k2: int|
        0 <= k2 < k ==> !migration_candidate(#[trigger] gs[k2], ns[si].id, ns[ti].id)
    &&& first_replica_of(gs[k], ns[si].id, m.source_replica)
}

/// The proposal is a correct single replica migration for the snapshot.
pub open spec fn valid_replica_migration(
    ns: Seq<NodeDesc>,
    gs: Seq<GroupView>,
    m: ReallocateReplica,
) -> bool {
    exists|si: int, ti: int, k: int| #[trigger] replica_migration_shape(ns, gs, m, si, ti, k)
}

/// No group can give the fullest node's replica to the emptiest node without
/// colocating two of its replicas.
pub open spec fn no_replica_migration(ns: Seq<NodeDesc>, gs: Seq<GroupView>) -> bool {
    forall|si: int, ti: int, k: int|
        is_replica_source(ns, si) && is_replica_target(ns, ti) && 0 <= k < gs.len()
            ==> !#[trigger] migration_candidate(gs[k], ns[si].id, ns[ti].id)
}

/// The lowest shard id the group currently owns.
pub open spec fn is_lowest_shard(g: GroupView, shard_id: u64) -> bool {
    exists|i: int|
        0 <= i < g.shards.len() && (#[trigger] g.shards[i]).id == shard_id && (forall|j: int|
            0 <= j < g.shards.len() ==> shard_id <= (#[trigger] g.shards[j]).id)
}

/// The proposal moves the lowest shard of the fullest group (`si`) to the
/// emptiest group (`ti`), and the shard counts differ by more than the
/// tolerance.
pub open spec fn shard_migration_shape(
    gs: Seq<GroupView>,
    m: ReallocateShard,
    si: int,
    ti: int,
) -> bool {
    &&& is_shard_source(gs, si)
    &&& is_shard_target(gs, ti)
    &&& shards_of(gs[si]) > shards_of(gs[ti]) + 1
    &&& m.source_group == gs[si].id
    &&& m.target_group == gs[ti].id
    &&& is_lowest_shard(gs[si], m.shard)
}

/// The proposal is a correct single shard migration for the snapshot.
pub open spec fn valid_shard_migration(gs: Seq<GroupView>, m: ReallocateShard) -> bool {
    exists|si: int, ti: int| #[trigger] shard_migration_shape(gs, m, si, ti)
}

/// The nodes that remain once the excluded ids are taken out.
pub open spec fn eligible_nodes(ns: Seq<NodeDesc>, exclude: Seq<u64>) -> Seq<NodeDesc> {
    ns.filter(|n: NodeDesc| !exclude.contains(n.id))
}

/// Every selected node sorts no later than the given one.
pub open spec fn selection_dominates(v: Seq<NodeDesc>, e: NodeDesc) -> bool {
    forall|k: int| 0 <= k < v.len() ==> node_leq(#[trigger] v[k], e)
}

/// Every selected group sorts no later than the given one.
pub open spec fn placement_dominates(v: Seq<GroupView>, e: GroupView) -> bool {
    forall|k: int| 0 <= k < v.len() ==> group_leq(#[trigger] v[k], e)
}

/// The selection owed for a new group's replicas: exactly `count` nodes,
/// drawn from the eligible ones, in ascending (load, id) order, and no
/// eligible node was passed over in favour of one that sorts later.
pub open spec fn allocation_valid(
    ns: Seq<NodeDesc>,
    exclude: Seq<u64>,
    count: u64,
    v: Seq<NodeDesc>,
) -> bool {
    let elig = eligible_nodes(ns, exclude);
    &&& elig.len() >= count
    &&& v.len() == count
    &&& nodes_sorted(v)
    &&& v.to_multiset().subset_of(elig.to_multiset())
    &&& forall|i: int|
        0 <= i < elig.len() ==> v.to_multiset().count(#[trigger] elig[i]) > 0
            || selection_dominates(v, elig[i])
}

/// The ordering owed for round-robin shard placement: the groups, cut to at
/// most `count`, in ascending (shard count, id) order, and no group was
/// passed over in favour of one that sorts later.
pub open spec fn placement_order_valid(gs: Seq<GroupView>, count: u64, v: Seq<GroupView>) -> bool {
    let c: int = if count <= gs.len() {
        count as int
    } else {
        gs.len() as int
    };
    &&& v.len() == c
    &&& groups_sorted(v)
    &&& v.to_multiset().subset_of(gs.to_multiset())
    &&& forall|i: int|
        0 <= i < gs.len() ==> v.to_multiset().count(#[trigger] gs[i]) > 0 || placement_dominates(
            v,
            gs[i],
        )
}

impl Allocator {
    /// The allocator's static configuration is sound: the replica factor is
    /// at least one.
    pub open spec fn wf(&self) -> bool {
        self.replicas_per_group >= 1
    }

    pub open spec fn replica_factor(&self) -> u64 {
        self.replicas_per_group
    }

    pub fn new(replicas_per_group: u64) -> (a: Allocator)
        requires
            replicas_per_group >= 1,
        ensures
            a.wf(),
            a.replica_factor() == replicas_per_group,
    {
        Allocator { replicas_per_group }
    }

    /// Decide whether new replica groups must be created for the snapshot.
    /// The decision depends only on how many nodes and groups there are.
    pub fn compute_group_action(
        &self,
        nodes: &Vec<NodeDesc>,
        groups: &Vec<GroupDesc>,
    ) -> (r: Result<GroupAction, AllocError>)
        requires
            self.wf(),
            nodes@.len() <= 0x7fff_ffff_ffff_ffffu64,
        ensures
            r matches Ok(a) && a == group_action_of(
                nodes@.len(),
                groups@.len(),
                self.replicas_per_group as nat,
            ),
    {
        let n_nodes = nodes.len() as u128;
        let factor = self.replicas_per_group as u128;
        if n_nodes < factor {
            return Ok(GroupAction::Noop);
        }
        proof {
            let n = n_nodes as int;
            let f = factor as int;
            assert(n * (f + 1) + (f - 1) <= u128::MAX) by (nonlinear_arith)
                requires
                    0 <= n <= 0xffff_ffff_ffff_ffffu64,
                    1 <= f <= 0xffff_ffff_ffff_ffffu64,
            ;
        }
        let desired = (n_nodes * (factor + 1) + (factor - 1)) / factor;
        proof {
            lemma_desired_group_count_bound(nodes@.len(), self.replicas_per_group as nat);
        }
        let n_groups = groups.len() as u128;
        if n_groups >= desired {
            Ok(GroupAction::Noop)
        } else {
            Ok(GroupAction::Add((desired - n_groups) as u64))
        }
    }

    /// Choose the nodes that should host a new group's replicas: all nodes
    /// except the excluded ones, in ascending order of (replica load, node
    /// id), cut to the requested count. Fails when fewer eligible nodes
    /// remain than were asked for. The snapshot is not changed; recording
    /// the new replicas is the caller's task.
    pub fn allocate_group_replica(
        &self,
        nodes: &Vec<NodeDesc>,
        exclude_nodes: &Vec<u64>,
        count: u64,
    ) -> (r: Result<Vec<NodeDesc>, AllocError>)
        ensures
            ({
                let elig = eligible_nodes(nodes@, exclude_nodes@);
                match r {
                    Err(e) => e is InsufficientNodes && elig.len() < count,
                    Ok(v) => allocation_valid(nodes@, exclude_nodes@, count, v@),
                }
            }),
    {
        broadcast use vstd::seq_lib::group_to_multiset_ensures;
        broadcast use vstd::multiset::group_multiset_axioms;

        let mut elig: Vec<NodeDesc> = Vec::new();
        let mut i: usize = 0;
        while i < nodes.len()
            invariant
                i <= nodes@.len(),
                elig@ == eligible_nodes(nodes@.take(i as int), exclude_nodes@),
            decreases nodes@.len() - i,
        {
            let ghost prefix = nodes@.take(i as int);
            if !crate::select::ids_contain(exclude_nodes, nodes[i].id) {
                elig.push(nodes[i].clone());
            }
            proof {
                reveal(Seq::filter);
                let t = nodes@.take(i as int + 1);
                assert(t.drop_last() =~= prefix);
                assert(t.last() == nodes@[i as int]);
            }
            i = i + 1;
        }
        proof {
            assert(nodes@.take(nodes@.len() as int) =~= nodes@);
        }
        let ghost eseq = elig@;
        let sorted = sort_nodes_by_load(elig);
        if (sorted.len() as u64) < count {
            return Err(AllocError::InsufficientNodes);
        }
        let ghost full = sorted@;
        let mut picked = sorted;
        picked.truncate(count as usize);
        proof {
            let c = count as int;
            assert(full =~= full.take(c) + full.skip(c));
            vstd::seq_lib::lemma_multiset_commutative(full.take(c), full.skip(c));
            assert(picked@ == full.take(c));
            assert forall|x: NodeDesc|
                picked@.to_multiset().count(x) <= eseq.to_multiset().count(x) by {
                assert(full.to_multiset().count(x) == picked@.to_multiset().count(x) + full.skip(
                    c,
                ).to_multiset().count(x));
            }
            let elig2 = eligible_nodes(nodes@, exclude_nodes@);
            assert forall|i2: int| 0 <= i2 < elig2.len() implies picked@.to_multiset().count(
                #[trigger] elig2[i2],
            ) > 0 || selection_dominates(picked@, elig2[i2]) by {
                let e = elig2[i2];
                assert(eseq.contains(e));
                assert(eseq.to_multiset().count(e) > 0);
                assert(full.to_multiset().count(e) > 0);
                assert(full.contains(e));
                let j = choose|j: int| 0 <= j < full.len() && full[j] == e;
                if j < c {
                    assert(picked@[j] == e);
                    assert(picked@.contains(e));
                } else {
                    assert forall|k: int| 0 <= k < picked@.len() implies node_leq(
                        #[trigger] picked@[k],
                        e,
                    ) by {
                        assert(node_leq(full[k], full[j]));
                    }
                }
            }
        }
        Ok(picked)
    }

    /// Propose at most one replica migration: from the most loaded node to
    /// the least loaded node, out of the first group that hosts a replica on
    /// the former and none on the latter, and only when the loads differ by
    /// more than the balance tolerance. Fails when some replica references a
    /// node the snapshot does not know.
    pub fn compute_replica_action(
        &self,
        nodes: &Vec<NodeDesc>,
        groups: &Vec<GroupDesc>,
    ) -> (r: Result<Vec<ReplicaAction>, AllocError>)
        ensures
            ({
                let gv = views_of_groups(groups@);
                match r {
                    Err(e) => e is InvalidState && !placement_known(nodes@, gv),
                    Ok(v) => {
                        &&& placement_known(nodes@, gv)
                        &&& v@.len() <= 1
                        &&& (replica_balanced(nodes@) ==> v@.len() == 0)
                        &&& (v@.len() == 1 ==> (v@[0] matches ReplicaAction::Migrate(m)
                            && valid_replica_migration(nodes@, gv, m)))
                        &&& (v@.len() == 0 ==> replica_balanced(nodes@) || no_replica_migration(
                            nodes@,
                            gv,
                        ))
                    },
                }
            }),
    {
        let ghost gv = views_of_groups(groups@);
        if !placement_is_known(nodes, groups) {
            return Err(AllocError::InvalidState);
        }
        if nodes.len() == 0 {
            return Ok(Vec::new());
        }
        let si = max_load_index(nodes);
        let ti = min_load_index(nodes);
        let high = nodes[si].capacity.replica_count;
        let low = nodes[ti].capacity.replica_count;
        if high - low <= 1 {
            proof {
                assert forall|a: int, b: int|
                    0 <= a < nodes@.len() && 0 <= b < nodes@.len() implies load_of(
                    #[trigger] nodes@[a],
                ) <= load_of(#[trigger] nodes@[b]) + 1 by {
                    assert(load_of(nodes@[a]) <= high);
                    assert(low <= load_of(nodes@[b]));
                }
            }
            return Ok(Vec::new());
        }
        let src = nodes[si].id;
        let tgt = nodes[ti].id;
        let mut k: usize = 0;
        while k < groups.len()
            invariant
                gv == views_of_groups(groups@),
                placement_known(nodes@, gv),
                k <= groups@.len(),
                si < nodes@.len(),
                ti < nodes@.len(),
                is_replica_source(nodes@, si as int),
                is_replica_target(nodes@, ti as int),
                load_of(nodes@[si as int]) > load_of(nodes@[ti as int]) + 1,
                src == nodes@[si as int].id,
                tgt == nodes@[ti as int].id,
                forall|k2: int| 0 <= k2 < k ==> !migration_candidate(#[trigger] gv[k2], src, tgt),
            decreases groups@.len() - k,
        {
            if !hosts_node(&groups[k], tgt) {
                match first_replica_on(&groups[k], src) {
                    Some(ri) => {
                        let m = ReallocateReplica {
                            group: groups[k].id,
                            source_node: src,
                            source_replica: groups[k].replicas[ri].id,
                            target_node: nodes[ti].clone(),
                        };
                        proof {
                            assert(gv[k as int] == groups@[k as int]@);
                            assert(replica_migration_shape(
                                nodes@,
                                gv,
                                m,
                                si as int,
                                ti as int,
                                k as int,
                            ));
                        }
                        let mut v: Vec<ReplicaAction> = Vec::new();
                        v.push(ReplicaAction::Migrate(m));
                        return Ok(v);
                    },
                    None => {
                        proof {
                            assert(gv[k as int] == groups@[k as int]@);
                        }
                    },
                }
            } else {
                proof {
                    assert(gv[k as int] == groups@[k as int]@);
                }
            }
            k = k + 1;
        }
        proof {
            assert forall|si2: int, ti2: int, k2: int|
                is_replica_source(nodes@, si2) && is_replica_target(nodes@, ti2) && 0 <= k2
                    < gv.len() implies !#[trigger] migration_candidate(
                gv[k2],
                nodes@[si2].id,
                nodes@[ti2].id,
            ) by {
                assert(load_of(nodes@[si2]) == load_of(nodes@[si as int]));
                assert(nodes@[si2].id == src);
                assert(load_of(nodes@[ti2]) == load_of(nodes@[ti as int]));
                assert(nodes@[ti2].id == tgt);
            }
        }
        Ok(Vec::new())
    }

    /// Propose at most one shard migration: the lowest shard of the fullest
    /// group moves to the emptiest group, and only when the shard counts
    /// differ by more than the balance tolerance.
    pub fn compute_shard_action(&self, groups: &Vec<GroupDesc>) -> (r: Result<
        Vec<ShardAction>,
        AllocError,
    >)
        ensures
            ({
                let gv = views_of_groups(groups@);
                match r {
                    Err(_) => false,
                    Ok(v) => {
                        &&& v@.len() <= 1
                        &&& (v@.len() == 0 <==> shard_balanced(gv))
                        &&& (v@.len() == 1 ==> (v@[0] matches ShardAction::Migrate(m)
                            && valid_shard_migration(gv, m)))
                    },
                }
            }),
    {
        let ghost gv = views_of_groups(groups@);
        if groups.len() == 0 {
            return Ok(Vec::new());
        }
        let si = max_shards_index(groups);
        let ti = min_shards_index(groups);
        let high = groups[si].shards.len();
        let low = groups[ti].shards.len();
        proof {
            assert(gv[si as int] == groups@[si as int]@);
            assert(gv[ti as int] == groups@[ti as int]@);
        }
        if high - low <= 1 {
            proof {
                assert forall|a: int, b: int|
                    0 <= a < gv.len() && 0 <= b < gv.len() implies shards_of(#[trigger] gv[a])
                    <= shards_of(#[trigger] gv[b]) + 1 by {
                    assert(shards_of(gv[a]) <= high);
                    assert(low <= shards_of(gv[b]));
                }
            }
            return Ok(Vec::new());
        }
        let mi = min_shard_index(&groups[si]);
        let m = ReallocateShard {
            shard: groups[si].shards[mi].id,
            source_group: groups[si].id,
            target_group: groups[ti].id,
        };
        proof {
            assert(shard_migration_shape(gv, m, si as int, ti as int));
            assert(shards_of(gv[si as int]) > shards_of(gv[ti as int]) + 1);
        }
        let mut v: Vec<ShardAction> = Vec::new();
        v.push(ShardAction::Migrate(m));
        Ok(v)
    }

    /// Order the groups for round-robin placement of new shards: ascending by
    /// (shard count, group id), cut to at most the number of shards to place.
    /// The caller assigns the i-th new shard to the i-th group of the result,
    /// modulo its length.
    pub fn place_group_for_shard(&self, groups: &Vec<GroupDesc>, count: u64) -> (r: Result<
        Vec<GroupDesc>,
        AllocError,
    >)
        ensures
            ({
                let gv = views_of_groups(groups@);
                match r {
                    Err(_) => false,
                    Ok(v) => placement_order_valid(gv, count, views_of_groups(v@)),
                }
            }),
    {
        broadcast use vstd::seq_lib::group_to_multiset_ensures;
        broadcast use vstd::multiset::group_multiset_axioms;

        let ghost gv = views_of_groups(groups@);
        let mut cl: Vec<GroupDesc> = Vec::new();
        let mut i: usize = 0;
        while i < groups.len()
            invariant
                i <= groups@.len(),
                views_of_groups(cl@) =~= views_of_groups(groups@).take(i as int),
            decreases groups@.len() - i,
        {
            let ghost prev = cl@;
            let x = groups[i].clone();
            let ghost xv = x@;
            cl.push(x);
            proof {
                assert(views_of_groups(prev).len() == i);
                assert(prev.len() == views_of_groups(prev).len());
                assert(cl@ == prev.push(x));
                assert(cl@.len() == i + 1);
                assert forall|j: int| 0 <= j < i + 1 implies views_of_groups(cl@)[j]
                    == views_of_groups(groups@).take(i as int + 1)[j] by {
                    if j < i {
                        assert(cl@[j] == prev[j]);
                        assert(views_of_groups(prev)[j] == views_of_groups(groups@).take(
                            i as int,
                        )[j]);
                    } else {
                        assert(cl@[j] == x);
                        assert(xv == groups@[i as int]@);
                    }
                }
                assert(views_of_groups(cl@) =~= views_of_groups(groups@).take(i as int + 1));
            }
            i = i + 1;
        }
        proof {
            assert(views_of_groups(cl@) =~= gv);
        }
        let sorted = sort_groups_by_shards(cl);
        let n = sorted.len();
        let take_n: usize = if (count as u64) < (n as u64) {
            count as usize
        } else {
            n
        };
        let ghost full = views_of_groups(sorted@);
        let mut picked = sorted;
        picked.truncate(take_n);
        proof {
            let c = take_n as int;
            let pv = views_of_groups(picked@);
            assert(pv =~= full.take(c));
            assert(full =~= full.take(c) + full.skip(c));
            vstd::seq_lib::lemma_multiset_commutative(full.take(c), full.skip(c));
            assert forall|x: GroupView| pv.to_multiset().count(x) <= gv.to_multiset().count(x) by {
                assert(full.to_multiset().count(x) == pv.to_multiset().count(x) + full.skip(
                    c,
                ).to_multiset().count(x));
            }
            assert forall|i2: int| 0 <= i2 < gv.len() implies pv.to_multiset().count(
                #[trigger] gv[i2],
            ) > 0 || placement_dominates(pv, gv[i2]) by {
                let e = gv[i2];
                assert(gv.contains(e));
                assert(gv.to_multiset().count(e) > 0);
                assert(full.to_multiset().count(e) > 0);
                assert(full.contains(e));
                let j = choose|j: int| 0 <= j < full.len() && full[j] == e;
                if j < c {
                    assert(pv[j] == e);
                    assert(pv.contains(e));
                } else {
                    assert forall|k: int| 0 <= k < pv.len() implies group_leq(
                        #[trigger] pv[k],
                        e,
                    ) by {
                        assert(group_leq(full[k], full[j]));
                    }
                }
            }
        }
        Ok(picked)
    }
}

/// Whether every replica of the snapshot sits on a node the snapshot knows.
fn placement_is_known(nodes: &Vec<NodeDesc>, groups: &Vec<GroupDesc>) -> (r: bool)
    ensures
        r == placement_known(nodes@, views_of_groups(groups@)),
{
    let ghost gv = views_of_groups(groups@);
    let mut k: usize = 0;
    while k < groups.len()
        invariant
            gv == views_of_groups(groups@),
            k <= groups@.len(),
            forall|k2: int, i: int|
                0 <= k2 < k && 0 <= i < gv[k2].replicas.len() ==> crate::model::node_known(
                    nodes@,
                    (#[trigger] gv[k2].replicas[i]).node_id,
                ),
        decreases groups@.len() - k,
    {
        let mut i: usize = 0;
        while i < groups[k].replicas.len()
            invariant
                gv == views_of_groups(groups@),
                k < groups@.len(),
                i <= gv[k as int].replicas.len(),
                gv[k as int].replicas == groups@[k as int].replicas@,
                forall|j: int|
                    0 <= j < i ==> crate::model::node_known(
                        nodes@,
                        (#[trigger] gv[k as int].replicas[j]).node_id,
                    ),
            decreases gv[k as int].replicas.len() - i,
        {
            if !nodes_contain(nodes, groups[k].replicas[i].node_id) {
                proof {
                    assert(gv[k as int].replicas[i as int] == groups@[k as int].replicas@[i as int]);
                }
                return false;
            }
            i = i + 1;
        }
        k = k + 1;
    }
    true
}

} // verus!
