//! The balancing guarantees, stated over the snapshot model and proved once
//! and for all:
//!
//! - a proposed replica migration never colocates two replicas of one group;
//! - a shard migration moves a shard, it never duplicates or drops one;
//! - while replica loads differ at all, some group can always give a replica
//!   from the fuller to the emptier node, so the balancer never stalls short
//!   of balance;
//! - ties in load are broken deterministically towards the smaller id.

use vstd::prelude::*;

use crate::allocator::{
    allocation_valid, placement_order_valid, replica_migration_shape, shard_migration_shape,
    valid_replica_migration, valid_shard_migration, ReallocateReplica, ReallocateShard,
};
use crate::apply::{
    apply_replica, apply_shard, first_group_index, first_replica_index, first_shard_index,
    lemma_first_group_index, lemma_first_replica_index, lemma_first_shard_index,
    move_first_replica, remove_first_shard,
};
use crate::desc::{GroupView, NodeDesc, ReplicaDesc};
use crate::model::{
    count_on_node, counts_consistent, group_hosts, group_no_colocation, group_shard_ids, load_of,
    migration_candidate, no_colocation, replicas_on_node, shard_id_multiset, shard_ids_seq,
    unique_group_ids,
};
use crate::select::{group_leq, node_leq};

verus! {

/// A node hosts one of the listed replicas exactly when its count there is
/// positive.
proof fn lemma_count_positive(rs: Seq<ReplicaDesc>, x: u64)
    ensures
        (count_on_node(rs, x) > 0) <==> (exists|i: int| 0 <= i < rs.len() && rs[i].node_id == x),
    decreases rs.len(),
{
    if rs.len() > 0 {
        lemma_count_positive(rs.drop_last(), x);
        assert forall|i: int| 0 <= i < rs.len() - 1 implies rs.drop_last()[i] == rs[i] by {}
        if count_on_node(rs, x) > 0 {
            if rs.last().node_id == x {
                assert(rs[rs.len() - 1].node_id == x);
            }
        } else {
            if exists|i: int| 0 <= i < rs.len() && rs[i].node_id == x {
                let i = choose|i: int| 0 <= i < rs.len() && rs[i].node_id == x;
                assert(i < rs.len() - 1);
                assert(rs.drop_last()[i].node_id == x);
            }
        }
    }
}

/// Where no two of the listed replicas share a node, each node hosts at most
/// one of them.
proof fn lemma_no_colocation_count(rs: Seq<ReplicaDesc>, x: u64)
    requires
        forall|i: int, j: int| 0 <= i < j < rs.len() ==> rs[i].node_id != rs[j].node_id,
    ensures
        count_on_node(rs, x) <= 1,
    decreases rs.len(),
{
    if rs.len() > 0 {
        let d = rs.drop_last();
        assert forall|i: int| 0 <= i < rs.len() - 1 implies d[i] == rs[i] by {}
        lemma_no_colocation_count(d, x);
        if rs.last().node_id == x {
            lemma_count_positive(d, x);
            assert forall|i: int| 0 <= i < d.len() implies d[i].node_id != x by {
                assert(rs[i].node_id != rs[rs.len() - 1].node_id);
            }
        }
    }
}

/// Where every group that hosts the first node also hosts the second, the
/// first node carries no more replicas than the second.
proof fn lemma_counts_monotone(gs: Seq<GroupView>, src: u64, tgt: u64)
    requires
        no_colocation(gs),
        forall|k: int|
            0 <= k < gs.len() ==> (group_hosts(#[trigger] gs[k], src) ==> group_hosts(gs[k], tgt)),
    ensures
        replicas_on_node(gs, src) <= replicas_on_node(gs, tgt),
    decreases gs.len(),
{
    if gs.len() > 0 {
        let d = gs.drop_last();
        assert forall|k: int| 0 <= k < gs.len() - 1 implies d[k] == gs[k] by {}
        lemma_counts_monotone(d, src, tgt);
        let g = gs.last();
        assert(g == gs[gs.len() - 1]);
        assert(group_no_colocation(g));
        lemma_no_colocation_count(g.replicas, src);
        lemma_count_positive(g.replicas, src);
        lemma_count_positive(g.replicas, tgt);
        if count_on_node(g.replicas, src) > 0 {
            assert(group_hosts(g, src));
            assert(group_hosts(g, tgt));
            assert(count_on_node(g.replicas, tgt) > 0);
        }
    }
}

/// The replica balancer can always make progress: while two nodes carry
/// different replica loads, some group hosts a replica on the fuller node and
/// none on the emptier one, so a migration between them is possible without
/// colocating. Repeated propose-and-apply rounds therefore stall only once
/// the loads are within tolerance.
pub proof fn lemma_unbalanced_has_candidate(
    ns: Seq<NodeDesc>,
    gs: Seq<GroupView>,
    si: int,
    ti: int,
)
    requires
        counts_consistent(ns, gs),
        no_colocation(gs),
        0 <= si < ns.len(),
        0 <= ti < ns.len(),
        load_of(ns[si]) > load_of(ns[ti]),
    ensures
        exists|k: int| 0 <= k < gs.len() && migration_candidate(#[trigger] gs[k], ns[si].id, ns[ti].id),
{
    let src = ns[si].id;
    let tgt = ns[ti].id;
    if !(exists|k: int| 0 <= k < gs.len() && migration_candidate(#[trigger] gs[k], src, tgt)) {
        assert forall|k: int|
            0 <= k < gs.len() && group_hosts(#[trigger] gs[k], src) implies group_hosts(
            gs[k],
            tgt,
        ) by {
            assert(!migration_candidate(gs[k], src, tgt));
        }
        lemma_counts_monotone(gs, src, tgt);
        assert(load_of(ns[si]) == replicas_on_node(gs, src));
        assert(load_of(ns[ti]) == replicas_on_node(gs, tgt));
        assert(false);
    }
}

/// Some node maximises (load, then smaller id): the drained endpoint exists
/// in every non-empty snapshot.
pub proof fn lemma_source_exists(ns: Seq<NodeDesc>)
    requires
        ns.len() > 0,
    ensures
        exists|i: int| crate::model::is_replica_source(ns, i),
    decreases ns.len(),
{
    if ns.len() == 1 {
        assert(crate::model::is_replica_source(ns, 0));
    } else {
        let d = ns.drop_last();
        lemma_source_exists(d);
        let i = choose|i: int| crate::model::is_replica_source(d, i);
        assert forall|j: int| 0 <= j < ns.len() - 1 implies d[j] == ns[j] by {}
        let l = ns.len() - 1;
        if load_of(ns[l]) > load_of(ns[i]) || (load_of(ns[l]) == load_of(ns[i]) && ns[l].id
            < ns[i].id) {
            assert(crate::model::is_replica_source(ns, l));
        } else {
            assert(crate::model::is_replica_source(ns, i));
        }
    }
}

/// Some node minimises (load, then smaller id): the filled endpoint exists in
/// every non-empty snapshot.
pub proof fn lemma_target_exists(ns: Seq<NodeDesc>)
    requires
        ns.len() > 0,
    ensures
        exists|i: int| crate::model::is_replica_target(ns, i),
    decreases ns.len(),
{
    if ns.len() == 1 {
        assert(crate::model::is_replica_target(ns, 0));
    } else {
        let d = ns.drop_last();
        lemma_target_exists(d);
        let i = choose|i: int| crate::model::is_replica_target(d, i);
        assert forall|j: int| 0 <= j < ns.len() - 1 implies d[j] == ns[j] by {}
        let l = ns.len() - 1;
        if load_of(ns[l]) < load_of(ns[i]) || (load_of(ns[l]) == load_of(ns[i]) && ns[l].id
            < ns[i].id) {
            assert(crate::model::is_replica_target(ns, l));
        } else {
            assert(crate::model::is_replica_target(ns, i));
        }
    }
}

/// The replica balancer stalls only at balance: a well-formed snapshot in
/// which no migration between the chosen endpoints is possible is already
/// within the balance tolerance.
pub proof fn lemma_stalled_is_balanced(ns: Seq<NodeDesc>, gs: Seq<GroupView>)
    requires
        counts_consistent(ns, gs),
        no_colocation(gs),
        crate::allocator::no_replica_migration(ns, gs),
    ensures
        crate::model::replica_balanced(ns),
{
    if ns.len() > 0 && !crate::model::replica_balanced(ns) {
        let (a, b) = choose|a: int, b: int|
            0 <= a < ns.len() && 0 <= b < ns.len() && load_of(ns[a]) > load_of(ns[b]) + 1;
        lemma_source_exists(ns);
        lemma_target_exists(ns);
        let si = choose|i: int| crate::model::is_replica_source(ns, i);
        let ti = choose|i: int| crate::model::is_replica_target(ns, i);
        assert(load_of(ns[si]) >= load_of(ns[a]));
        assert(load_of(ns[ti]) <= load_of(ns[b]));
        lemma_unbalanced_has_candidate(ns, gs, si, ti);
        let k = choose|k: int|
            0 <= k < gs.len() && migration_candidate(#[trigger] gs[k], ns[si].id, ns[ti].id);
        assert(!migration_candidate(gs[k], ns[si].id, ns[ti].id));
        assert(false);
    }
}

/// No-colocation is an invariant of applying a proposed replica migration:
/// a group whose replicas sit on pairwise distinct nodes keeps that property,
/// because the balancer only drains a group that has no replica on the
/// target node.
pub proof fn lemma_migration_preserves_no_colocation(
    ns: Seq<NodeDesc>,
    gs: Seq<GroupView>,
    m: ReallocateReplica,
)
    requires
        no_colocation(gs),
        unique_group_ids(gs),
        valid_replica_migration(ns, gs, m),
    ensures
        no_colocation(apply_replica(gs, m)),
{
    let (si, ti, k) = choose|si: int, ti: int, k: int|
        #[trigger] replica_migration_shape(ns, gs, m, si, ti, k);
    lemma_first_group_index(gs, m.group);
    let kf = first_group_index(gs, m.group);
    assert(gs[k].id == m.group);
    assert(kf < gs.len());
    assert(kf == k);
    let tgt = m.target_node.id;
    assert(tgt == ns[ti].id);
    assert(!group_hosts(gs[k], tgt));
    let g2 = move_first_replica(gs[k], m.source_replica, tgt);
    let gs2 = apply_replica(gs, m);
    assert(gs2 == gs.update(k, g2));
    assert forall|kk: int| 0 <= kk < gs2.len() implies group_no_colocation(#[trigger] gs2[kk]) by {
        if kk == k {
            lemma_first_replica_index(gs[k].replicas, m.source_replica);
            let rf = first_replica_index(gs[k].replicas, m.source_replica);
            assert forall|a: int, b: int|
                0 <= a < b < g2.replicas.len() implies g2.replicas[a].node_id
                != g2.replicas[b].node_id by {
                if a != rf && b != rf {
                    assert(g2.replicas[a] == gs[k].replicas[a]);
                    assert(g2.replicas[b] == gs[k].replicas[b]);
                } else if a == rf {
                    assert(g2.replicas[b] == gs[k].replicas[b]);
                    assert(g2.replicas[a].node_id == tgt);
                } else {
                    assert(g2.replicas[a] == gs[k].replicas[a]);
                    assert(g2.replicas[b].node_id == tgt);
                }
            }
        } else {
            assert(gs2[kk] == gs[kk]);
        }
    }
}

/// One step of `shard_id_multiset` under an update of a single group.
proof fn lemma_shard_multiset_update(gs: Seq<GroupView>, k: int, g2: GroupView)
    requires
        0 <= k < gs.len(),
    ensures
        shard_id_multiset(gs.update(k, g2)).add(group_shard_ids(gs[k])) == shard_id_multiset(
            gs,
        ).add(group_shard_ids(g2)),
    decreases gs.len(),
{
    broadcast use vstd::multiset::group_multiset_axioms;

    let upd = gs.update(k, g2);
    assert(shard_id_multiset(upd) == shard_id_multiset(upd.drop_last()).add(
        group_shard_ids(upd.last()),
    ));
    assert(shard_id_multiset(gs) == shard_id_multiset(gs.drop_last()).add(
        group_shard_ids(gs.last()),
    ));
    if k == gs.len() - 1 {
        assert(upd.drop_last() =~= gs.drop_last());
        assert(upd.last() == g2);
        assert(gs.last() == gs[k]);
        assert(shard_id_multiset(upd).add(group_shard_ids(gs[k])) =~= shard_id_multiset(gs).add(
            group_shard_ids(g2),
        ));
    } else {
        lemma_shard_multiset_update(gs.drop_last(), k, g2);
        assert(upd.drop_last() =~= gs.drop_last().update(k, g2));
        assert(upd.last() == gs.last());
        assert(gs.drop_last()[k] == gs[k]);
        assert forall|e: u64|
            (shard_id_multiset(upd).add(group_shard_ids(gs[k]))).count(e) == (shard_id_multiset(
                gs,
            ).add(group_shard_ids(g2))).count(e) by {
            assert((shard_id_multiset(gs.drop_last().update(k, g2)).add(
                group_shard_ids(gs.drop_last()[k]),
            )).count(e) == (shard_id_multiset(gs.drop_last()).add(group_shard_ids(g2))).count(e));
        }
        assert(shard_id_multiset(upd).add(group_shard_ids(gs[k])) =~= shard_id_multiset(gs).add(
            group_shard_ids(g2),
        ));
    }
}

/// Removing a group's first shard with a given id removes exactly one
/// occurrence of that id from the group's shard multiset.
proof fn lemma_remove_shard_ids(g: GroupView, sid: u64)
    requires
        first_shard_index(g.shards, sid) < g.shards.len(),
    ensures
        group_shard_ids(remove_first_shard(g, sid)) == group_shard_ids(g).remove(sid),
        group_shard_ids(g).count(sid) >= 1,
{
    broadcast use vstd::seq_lib::group_to_multiset_ensures;
    broadcast use vstd::multiset::group_multiset_axioms;

    lemma_first_shard_index(g.shards, sid);
    let i = first_shard_index(g.shards, sid);
    let mapped = shard_ids_seq(g.shards);
    assert(mapped[i] == sid);
    assert(shard_ids_seq(g.shards.remove(i)) =~= mapped.remove(i));
    vstd::seq_lib::to_multiset_remove(mapped, i);
    assert(mapped.contains(sid));
}

/// Appending a shard with a given id inserts exactly one occurrence of that
/// id into the group's shard multiset.
proof fn lemma_add_shard_ids(g: GroupView, sid: u64)
    ensures
        group_shard_ids(crate::apply::add_shard(g, sid)) == group_shard_ids(g).insert(sid),
{
    broadcast use vstd::seq_lib::group_to_multiset_ensures;
    broadcast use vstd::multiset::group_multiset_axioms;

    let mapped = shard_ids_seq(g.shards);
    assert(shard_ids_seq(g.shards.push(crate::desc::ShardDesc { id: sid })) =~= mapped.push(sid));
    vstd::seq_lib::to_multiset_build(mapped, sid);
}

/// Shard conservation: applying a proposed shard migration leaves the
/// multiset of shard ids across all groups unchanged — a shard is moved,
/// never duplicated or dropped.
pub proof fn lemma_shard_conservation(gs: Seq<GroupView>, m: ReallocateShard)
    requires
        unique_group_ids(gs),
        valid_shard_migration(gs, m),
    ensures
        shard_id_multiset(apply_shard(gs, m)) == shard_id_multiset(gs),
{
    broadcast use vstd::multiset::group_multiset_axioms;

    let (si0, ti0) = choose|si: int, ti: int| #[trigger] shard_migration_shape(gs, m, si, ti);
    lemma_first_group_index(gs, m.source_group);
    let k = first_group_index(gs, m.source_group);
    assert(gs[si0].id == m.source_group);
    assert(k < gs.len());
    assert(k == si0);
    lemma_first_shard_index(gs[k].shards, m.shard);
    let i = first_shard_index(gs[k].shards, m.shard);
    assert(i < gs[k].shards.len()) by {
        let w = choose|w: int|
            0 <= w < gs[k].shards.len() && (#[trigger] gs[k].shards[w]).id == m.shard;
        assert(gs[k].shards[w].id == m.shard);
    }
    let g2 = remove_first_shard(gs[k], m.shard);
    let gs1 = gs.update(k, g2);
    lemma_shard_multiset_update(gs, k, g2);
    lemma_remove_shard_ids(gs[k], m.shard);
    lemma_first_group_index(gs1, m.target_group);
    let t = first_group_index(gs1, m.target_group);
    assert(t < gs1.len()) by {
        assert(gs1[ti0].id == m.target_group);
        if t == gs1.len() {
            assert(gs1[ti0].id != m.target_group);
        }
    }
    let g3 = crate::apply::add_shard(gs1[t], m.shard);
    lemma_shard_multiset_update(gs1, t, g3);
    lemma_add_shard_ids(gs1[t], m.shard);
    let result = gs1.update(t, g3);
    assert(apply_shard(gs, m) == result);
    assert forall|e: u64| shard_id_multiset(result).count(e) == shard_id_multiset(gs).count(
        e,
    ) by {
        assert((shard_id_multiset(gs1).add(group_shard_ids(gs[k]))).count(e) == (shard_id_multiset(
            gs,
        ).add(group_shard_ids(g2))).count(e));
        assert((shard_id_multiset(result).add(group_shard_ids(gs1[t]))).count(e) == (
        shard_id_multiset(gs1).add(group_shard_ids(g3))).count(e));
        assert(group_shard_ids(g2).count(e) == group_shard_ids(gs[k]).remove(m.shard).count(e));
        assert(group_shard_ids(g3).count(e) == group_shard_ids(gs1[t]).insert(m.shard).count(e));
    }
    assert(shard_id_multiset(result) =~= shard_id_multiset(gs));
}

/// Counting replicas on a node distributes over concatenation.
proof fn lemma_count_concat(a: Seq<ReplicaDesc>, b: Seq<ReplicaDesc>, x: u64)
    ensures
        count_on_node(a + b, x) == count_on_node(a, x) + count_on_node(b, x),
    decreases b.len(),
{
    if b.len() == 0 {
        assert(a + b =~= a);
    } else {
        lemma_count_concat(a, b.drop_last(), x);
        assert((a + b).drop_last() =~= a + b.drop_last());
        assert((a + b).last() == b.last());
    }
}

proof fn lemma_count_singleton(r: ReplicaDesc, x: u64)
    ensures
        count_on_node(seq![r], x) == if r.node_id == x {
            1nat
        } else {
            0nat
        },
{
    assert(seq![r].drop_last() =~= Seq::<ReplicaDesc>::empty());
    assert(count_on_node(Seq::<ReplicaDesc>::empty(), x) == 0);
    assert(seq![r].last() == r);
}

/// Replacing one replica changes a node's count by exactly the difference
/// the two replicas make there.
proof fn lemma_count_update(rs: Seq<ReplicaDesc>, i: int, r2: ReplicaDesc, x: u64)
    requires
        0 <= i < rs.len(),
    ensures
        count_on_node(rs.update(i, r2), x) + (if rs[i].node_id == x {
            1nat
        } else {
            0nat
        }) == count_on_node(rs, x) + (if r2.node_id == x {
            1nat
        } else {
            0nat
        }),
{
    let pre = rs.take(i);
    let post = rs.subrange(i + 1, rs.len() as int);
    assert(rs =~= pre + seq![rs[i]] + post);
    assert(rs.update(i, r2) =~= pre + seq![r2] + post);
    lemma_count_concat(pre + seq![rs[i]], post, x);
    lemma_count_concat(pre, seq![rs[i]], x);
    lemma_count_concat(pre + seq![r2], post, x);
    lemma_count_concat(pre, seq![r2], x);
    lemma_count_singleton(rs[i], x);
    lemma_count_singleton(r2, x);
}

/// One step of the snapshot-wide count under an update of a single group.
proof fn lemma_replicas_on_update(gs: Seq<GroupView>, k: int, g2: GroupView, x: u64)
    requires
        0 <= k < gs.len(),
    ensures
        replicas_on_node(gs.update(k, g2), x) + crate::model::replicas_in_group_on(gs[k], x)
            == replicas_on_node(gs, x) + crate::model::replicas_in_group_on(g2, x),
    decreases gs.len(),
{
    let upd = gs.update(k, g2);
    if k == gs.len() - 1 {
        assert(upd.drop_last() =~= gs.drop_last());
        assert(upd.last() == g2);
    } else {
        lemma_replicas_on_update(gs.drop_last(), k, g2, x);
        assert(upd.drop_last() =~= gs.drop_last().update(k, g2));
        assert(upd.last() == gs.last());
        assert(gs.drop_last()[k] == gs[k]);
    }
}

/// What an applied replica migration does to the derived counts: the drained
/// node loses exactly one replica, the filled node gains exactly one, every
/// other node keeps its count — and the drained node had at least two more
/// than the filled one.
/// What repointing a group's first replica with a given id does to the
/// per-node counts, when that replica sits on `src`: `src` loses one, `tgt`
/// gains one, all other nodes keep their count.
#[verifier::rlimit(100)]
proof fn lemma_moved_group_counts(g: GroupView, rid: u64, src: u64, tgt: u64)
    requires
        crate::allocator::first_replica_of(g, src, rid),
        forall|i: int, j: int| 0 <= i < j < g.replicas.len() ==> g.replicas[i].id != g.replicas[j].id,
    ensures
        forall|x: u64|
            count_on_node(move_first_replica(g, rid, tgt).replicas, x) + (if x == src {
                1nat
            } else {
                0nat
            }) == count_on_node(g.replicas, x) + (if x == tgt {
                1nat
            } else {
                0nat
            }),
{
    lemma_first_replica_index(g.replicas, rid);
    let rf = first_replica_index(g.replicas, rid);
    let i0 = choose|i: int|
        0 <= i < g.replicas.len() && (#[trigger] g.replicas[i]).node_id == src && g.replicas[i].id
            == rid && (forall|j: int| 0 <= j < i ==> g.replicas[j].node_id != src);
    assert(rf < g.replicas.len()) by {
        if rf == g.replicas.len() {
            assert(g.replicas[i0].id != rid);
        }
    }
    assert(g.replicas[rf].id == rid);
    assert(rf == i0) by {
        if rf < i0 {
            assert(g.replicas[rf].id != g.replicas[i0].id);
        }
        if i0 < rf {
            assert(g.replicas[i0].id != g.replicas[rf].id);
        }
    }
    assert(g.replicas[rf].node_id == src);
    let r2 = ReplicaDesc { id: g.replicas[rf].id, node_id: tgt, role: g.replicas[rf].role };
    let g2 = move_first_replica(g, rid, tgt);
    assert(g2.replicas == g.replicas.update(rf, r2));
    assert forall|x: u64|
        count_on_node(g2.replicas, x) + (if x == src {
            1nat
        } else {
            0nat
        }) == count_on_node(g.replicas, x) + (if x == tgt {
            1nat
        } else {
            0nat
        }) by {
        lemma_count_update(g.replicas, rf, r2, x);
    }
}

#[verifier::rlimit(60)]
pub proof fn lemma_applied_counts(ns: Seq<NodeDesc>, gs: Seq<GroupView>, m: ReallocateReplica)
    requires
        counts_consistent(ns, gs),
        no_colocation(gs),
        unique_group_ids(gs),
        crate::model::unique_replica_ids(gs),
        valid_replica_migration(ns, gs, m),
    ensures
        m.source_node != m.target_node.id,
        replicas_on_node(gs, m.source_node) >= replicas_on_node(gs, m.target_node.id) + 2,
        replicas_on_node(apply_replica(gs, m), m.source_node) + 1 == replicas_on_node(
            gs,
            m.source_node,
        ),
        replicas_on_node(apply_replica(gs, m), m.target_node.id) == replicas_on_node(
            gs,
            m.target_node.id,
        ) + 1,
        forall|x: u64|
            x != m.source_node && x != m.target_node.id ==> replicas_on_node(
                apply_replica(gs, m),
                x,
            ) == replicas_on_node(gs, x),
{
    let (si, ti, k) = choose|si: int, ti: int, k: int|
        #[trigger] replica_migration_shape(ns, gs, m, si, ti, k);
    let src = m.source_node;
    let tgt = m.target_node.id;
    assert(replicas_on_node(gs, src) == load_of(ns[si]));
    assert(replicas_on_node(gs, tgt) == load_of(ns[ti]));
    assert(src != tgt);
    lemma_first_group_index(gs, m.group);
    let kf = first_group_index(gs, m.group);
    assert(gs[k].id == m.group);
    assert(kf < gs.len());
    assert(kf == k);
    lemma_moved_group_counts(gs[k], m.source_replica, src, tgt);
    let g2 = move_first_replica(gs[k], m.source_replica, tgt);
    let gs2 = apply_replica(gs, m);
    assert(gs2 == gs.update(k, g2));
    assert forall|x: u64|
        replicas_on_node(gs2, x) + (if x == src {
            1nat
        } else {
            0nat
        }) == replicas_on_node(gs, x) + (if x == tgt {
            1nat
        } else {
            0nat
        }) by {
        lemma_replicas_on_update(gs, k, g2, x);
    }
}

/// The squared-load measure whose decrease bounds the number of rebalancing
/// rounds.
pub open spec fn sq(x: int) -> int {
    x * x
}

/// The sum, over the snapshot's nodes, of the square of each node's derived
/// replica count.
pub open spec fn load_imbalance(ns: Seq<NodeDesc>, gs: Seq<GroupView>) -> int
    decreases ns.len(),
{
    if ns.len() == 0 {
        0
    } else {
        load_imbalance(ns.drop_last(), gs) + sq(replicas_on_node(gs, ns.last().id) as int)
    }
}

/// How the squared-load sum moves when exactly two nodes' counts change.
proof fn lemma_imbalance_shift(
    ns: Seq<NodeDesc>,
    gs: Seq<GroupView>,
    gs2: Seq<GroupView>,
    src: u64,
    tgt: u64,
)
    requires
        crate::model::unique_node_ids(ns),
        src != tgt,
        replicas_on_node(gs2, src) + 1 == replicas_on_node(gs, src),
        replicas_on_node(gs2, tgt) == replicas_on_node(gs, tgt) + 1,
        forall|x: u64|
            x != src && x != tgt ==> replicas_on_node(gs2, x) == replicas_on_node(gs, x),
    ensures
        load_imbalance(ns, gs2) == load_imbalance(ns, gs) + (if crate::model::node_known(ns, src) {
            sq(replicas_on_node(gs2, src) as int) - sq(replicas_on_node(gs, src) as int)
        } else {
            0
        }) + (if crate::model::node_known(ns, tgt) {
            sq(replicas_on_node(gs2, tgt) as int) - sq(replicas_on_node(gs, tgt) as int)
        } else {
            0
        }),
    decreases ns.len(),
{
    if ns.len() == 0 {
        assert(!crate::model::node_known(ns, src));
        assert(!crate::model::node_known(ns, tgt));
    } else {
        let d = ns.drop_last();
        assert forall|j: int| 0 <= j < ns.len() - 1 implies d[j] == ns[j] by {}
        lemma_imbalance_shift(d, gs, gs2, src, tgt);
        let l = ns.len() - 1;
        let last_id = ns[l].id;
        assert forall|y: u64| crate::model::node_known(d, y) implies crate::model::node_known(
            ns,
            y,
        ) by {
            let j = choose|j: int| 0 <= j < d.len() && d[j].id == y;
            assert(ns[j].id == y);
        }
        assert forall|y: u64|
            crate::model::node_known(ns, y) && last_id != y implies crate::model::node_known(
            d,
            y,
        ) by {
            let j = choose|j: int| 0 <= j < ns.len() && ns[j].id == y;
            assert(j < ns.len() - 1);
            assert(d[j].id == y);
        }
        if last_id == src {
            assert(crate::model::node_known(ns, src));
            assert(!crate::model::node_known(d, src)) by {
                if crate::model::node_known(d, src) {
                    let j = choose|j: int| 0 <= j < d.len() && d[j].id == src;
                    assert(ns[j].id == ns[l].id);
                    assert(false);
                }
            }
        } else if last_id == tgt {
            assert(crate::model::node_known(ns, tgt));
            assert(!crate::model::node_known(d, tgt)) by {
                if crate::model::node_known(d, tgt) {
                    let j = choose|j: int| 0 <= j < d.len() && d[j].id == tgt;
                    assert(ns[j].id == ns[l].id);
                    assert(false);
                }
            }
        }
    }
}

/// Convergence: every applied migration the balancer proposes shrinks the
/// squared-load measure by at least two, so repeated propose-and-apply rounds
/// reach balance within a number of rounds bounded by the initial imbalance.
pub proof fn lemma_applied_migration_decreases_imbalance(
    ns: Seq<NodeDesc>,
    gs: Seq<GroupView>,
    m: ReallocateReplica,
)
    requires
        counts_consistent(ns, gs),
        no_colocation(gs),
        crate::model::unique_node_ids(ns),
        unique_group_ids(gs),
        crate::model::unique_replica_ids(gs),
        valid_replica_migration(ns, gs, m),
    ensures
        load_imbalance(ns, apply_replica(gs, m)) <= load_imbalance(ns, gs) - 2,
{
    lemma_applied_counts(ns, gs, m);
    let gs2 = apply_replica(gs, m);
    let src = m.source_node;
    let tgt = m.target_node.id;
    lemma_imbalance_shift(ns, gs, gs2, src, tgt);
    let (si, ti, k) = choose|si: int, ti: int, k: int|
        #[trigger] replica_migration_shape(ns, gs, m, si, ti, k);
    assert(crate::model::node_known(ns, src)) by {
        assert(ns[si].id == src);
    }
    assert(crate::model::node_known(ns, tgt)) by {
        assert(ns[ti].id == tgt);
    }
    let a = replicas_on_node(gs, src) as int;
    let b = replicas_on_node(gs, tgt) as int;
    assert(a >= b + 2);
    assert(sq(a - 1) == a * a - 2 * a + 1) by (nonlinear_arith);
    assert(sq(b + 1) == b * b + 2 * b + 1) by (nonlinear_arith);
    assert(sq(a) == a * a);
    assert(sq(b) == b * b);
    assert(replicas_on_node(gs2, src) as int == a - 1);
    assert(replicas_on_node(gs2, tgt) as int == b + 1);
}

/// Two node lists describe the same nodes in the same order.
pub open spec fn same_node_ids(a: Seq<NodeDesc>, b: Seq<NodeDesc>) -> bool {
    a.len() == b.len() && forall|i: int| 0 <= i < a.len() ==> a[i].id == b[i].id
}

/// The squared-load measure reads only node ids, so any relisting of the same
/// nodes sees the same measure.
proof fn lemma_imbalance_same_ids(a: Seq<NodeDesc>, b: Seq<NodeDesc>, gs: Seq<GroupView>)
    requires
        same_node_ids(a, b),
    ensures
        load_imbalance(a, gs) == load_imbalance(b, gs),
    decreases a.len(),
{
    if a.len() > 0 {
        assert forall|j: int| 0 <= j < a.len() - 1 implies a.drop_last()[j].id
            == b.drop_last()[j].id by {
            assert(a[j].id == b[j].id);
        }
        lemma_imbalance_same_ids(a.drop_last(), b.drop_last(), gs);
        assert(a.last().id == b.last().id);
    }
}

/// The squared-load measure is never negative.
proof fn lemma_imbalance_nonneg(ns: Seq<NodeDesc>, gs: Seq<GroupView>)
    ensures
        load_imbalance(ns, gs) >= 0,
    decreases ns.len(),
{
    if ns.len() > 0 {
        lemma_imbalance_nonneg(ns.drop_last(), gs);
        let c = replicas_on_node(gs, ns.last().id) as int;
        assert(sq(c) >= 0) by (nonlinear_arith)
            requires
                c >= 0,
        ;
    }
}

/// One propose-and-apply round: a well-formed snapshot, a proposal the
/// balancer could make for it, the snapshot with the proposal applied, and
/// the node list with its counters refreshed (same nodes, same order).
pub open spec fn rebalance_step(
    ns: Seq<NodeDesc>,
    gs: Seq<GroupView>,
    m: ReallocateReplica,
    ns2: Seq<NodeDesc>,
    gs2: Seq<GroupView>,
) -> bool {
    &&& counts_consistent(ns, gs)
    &&& no_colocation(gs)
    &&& crate::model::unique_node_ids(ns)
    &&& unique_group_ids(gs)
    &&& crate::model::unique_replica_ids(gs)
    &&& valid_replica_migration(ns, gs, m)
    &&& gs2 == apply_replica(gs, m)
    &&& same_node_ids(ns, ns2)
}

/// A run of propose-and-apply rounds: `nss` and `gss` are the node and group
/// snapshots before and after each of the `ms` applied proposals.
pub open spec fn rebalance_run(
    nss: Seq<Seq<NodeDesc>>,
    gss: Seq<Seq<GroupView>>,
    ms: Seq<ReallocateReplica>,
) -> bool {
    &&& nss.len() == ms.len() + 1
    &&& gss.len() == ms.len() + 1
    &&& forall|i: int|
        0 <= i < ms.len() ==> rebalance_step(nss[i], gss[i], #[trigger] ms[i], nss[i + 1], gss[i + 1])
}

/// Convergence bound: every applied proposal shrinks the squared-load measure
/// by at least two, so any run of propose-and-apply rounds from an imbalanced
/// snapshot is no longer than half the initial measure — the balancer reaches
/// `Noop` within a number of rounds set by the initial imbalance.
pub proof fn lemma_convergence_bound(
    nss: Seq<Seq<NodeDesc>>,
    gss: Seq<Seq<GroupView>>,
    ms: Seq<ReallocateReplica>,
)
    requires
        rebalance_run(nss, gss, ms),
    ensures
        same_node_ids(nss[0], nss.last()),
        load_imbalance(nss[0], gss.last()) <= load_imbalance(nss[0], gss[0]) - 2 * ms.len(),
        2 * ms.len() <= load_imbalance(nss[0], gss[0]),
    decreases ms.len(),
{
    let n = ms.len() as int;
    if n == 0 {
        assert(gss.last() == gss[0]);
        assert(nss.last() == nss[0]);
        lemma_imbalance_nonneg(nss[0], gss[0]);
    } else {
        let pn = nss.take(n);
        let pg = gss.take(n);
        let pm = ms.take(n - 1);
        assert forall|i: int|
            0 <= i < pm.len() implies rebalance_step(
            pn[i],
            pg[i],
            #[trigger] pm[i],
            pn[i + 1],
            pg[i + 1],
        ) by {
            assert(rebalance_step(nss[i], gss[i], ms[i], nss[i + 1], gss[i + 1]));
        }
        lemma_convergence_bound(pn, pg, pm);
        assert(pn[0] == nss[0]);
        assert(pg[0] == gss[0]);
        assert(pn.last() == nss[n - 1]);
        assert(pg.last() == gss[n - 1]);
        assert(rebalance_step(nss[n - 1], gss[n - 1], ms[n - 1], nss[n], gss[n]));
        lemma_applied_migration_decreases_imbalance(nss[n - 1], gss[n - 1], ms[n - 1]);
        lemma_imbalance_same_ids(nss[0], nss[n - 1], gss[n - 1]);
        lemma_imbalance_same_ids(nss[0], nss[n - 1], gss[n]);
        assert(gss.last() == gss[n]);
        assert forall|j: int| 0 <= j < nss[0].len() implies nss[0][j].id == nss[n][j].id by {
            assert(nss[0][j].id == nss[n - 1][j].id);
            assert(nss[n - 1][j].id == nss[n][j].id);
        }
        assert(nss.last() == nss[n]);
        lemma_imbalance_nonneg(nss[0], gss.last());
    }
}

/// The no-colocation invariant holds across any run of applied migrations:
/// a snapshot whose groups colocate no replicas still colocates none after
/// every proposal of the run has been applied.
pub proof fn lemma_no_colocation_along_run(
    nss: Seq<Seq<NodeDesc>>,
    gss: Seq<Seq<GroupView>>,
    ms: Seq<ReallocateReplica>,
)
    requires
        rebalance_run(nss, gss, ms),
        no_colocation(gss[0]),
    ensures
        no_colocation(gss.last()),
{
    let n = ms.len() as int;
    if n == 0 {
        assert(gss.last() == gss[0]);
    } else {
        assert(rebalance_step(nss[n - 1], gss[n - 1], ms[n - 1], nss[n], gss[n]));
        lemma_migration_preserves_no_colocation(nss[n - 1], gss[n - 1], ms[n - 1]);
        assert(gss.last() == gss[n]);
    }
}

/// Deterministic tie-break of node selection: among eligible nodes of equal
/// replica load, the one with the smaller id is selected first — whenever the
/// later-sorting one was selected at all, the earlier-sorting one was too,
/// and it stands earlier in the result.
pub proof fn lemma_allocation_tie_break(
    ns: Seq<NodeDesc>,
    exclude: Seq<u64>,
    count: u64,
    v: Seq<NodeDesc>,
    a: int,
    b: int,
)
    requires
        allocation_valid(ns, exclude, count, v),
        0 <= a < crate::allocator::eligible_nodes(ns, exclude).len(),
        0 <= b < crate::allocator::eligible_nodes(ns, exclude).len(),
        load_of(crate::allocator::eligible_nodes(ns, exclude)[a]) == load_of(
            crate::allocator::eligible_nodes(ns, exclude)[b],
        ),
        crate::allocator::eligible_nodes(ns, exclude)[a].id < crate::allocator::eligible_nodes(
            ns,
            exclude,
        )[b].id,
        v.to_multiset().count(crate::allocator::eligible_nodes(ns, exclude)[b]) > 0,
    ensures
        v.to_multiset().count(crate::allocator::eligible_nodes(ns, exclude)[a]) > 0,
        forall|pa: int, pb: int|
            0 <= pa < v.len() && 0 <= pb < v.len() && v[pa] == crate::allocator::eligible_nodes(
                ns,
                exclude,
            )[a] && v[pb] == crate::allocator::eligible_nodes(ns, exclude)[b] ==> pa < pb,
{
    broadcast use vstd::seq_lib::group_to_multiset_ensures;
    broadcast use vstd::multiset::group_multiset_axioms;

    let elig = crate::allocator::eligible_nodes(ns, exclude);
    let ea = elig[a];
    let eb = elig[b];
    assert(v.contains(eb));
    let pb0 = choose|p: int| 0 <= p < v.len() && v[p] == eb;
    if v.to_multiset().count(ea) == 0 {
        assert(crate::allocator::selection_dominates(v, ea));
        assert(node_leq(v[pb0], ea));
        assert(false);
    }
    assert forall|pa: int, pb: int|
        0 <= pa < v.len() && 0 <= pb < v.len() && v[pa] == ea && v[pb] == eb implies pa < pb by {
        if pb < pa {
            assert(node_leq(v[pb], v[pa]));
            assert(false);
        }
        if pa == pb {
            assert(ea == eb);
            assert(false);
        }
    }
}

/// Deterministic tie-break of group ordering: among groups of equal shard
/// count, the one with the smaller id is ordered first — whenever the
/// later-sorting one appears in the placement order, the earlier-sorting one
/// does too, and it stands earlier.
pub proof fn lemma_placement_tie_break(
    gs: Seq<GroupView>,
    count: u64,
    v: Seq<GroupView>,
    a: int,
    b: int,
)
    requires
        placement_order_valid(gs, count, v),
        0 <= a < gs.len(),
        0 <= b < gs.len(),
        crate::model::shards_of(gs[a]) == crate::model::shards_of(gs[b]),
        gs[a].id < gs[b].id,
        v.to_multiset().count(gs[b]) > 0,
    ensures
        v.to_multiset().count(gs[a]) > 0,
        forall|pa: int, pb: int|
            0 <= pa < v.len() && 0 <= pb < v.len() && v[pa] == gs[a] && v[pb] == gs[b] ==> pa < pb,
{
    broadcast use vstd::seq_lib::group_to_multiset_ensures;
    broadcast use vstd::multiset::group_multiset_axioms;

    let ea = gs[a];
    let eb = gs[b];
    assert(v.contains(eb));
    let pb0 = choose|p: int| 0 <= p < v.len() && v[p] == eb;
    if v.to_multiset().count(ea) == 0 {
        assert(crate::allocator::placement_dominates(v, ea));
        assert(group_leq(v[pb0], ea));
        assert(false);
    }
    assert forall|pa: int, pb: int|
        0 <= pa < v.len() && 0 <= pb < v.len() && v[pa] == ea && v[pb] == eb implies pa < pb by {
        if pb < pa {
            assert(group_leq(v[pb], v[pa]));
            assert(false);
        }
        if pa == pb {
            assert(ea == eb);
            assert(false);
        }
    }
}

} // verus!
