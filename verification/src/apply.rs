//! Applying a proposed migration to a snapshot: the transformation the
//! metadata authority performs when it accepts an allocator proposal. The
//! allocator itself never mutates cluster state; these functions describe
//! (and, for callers that hold the snapshot as plain vectors, perform) the
//! accepted change, so that its effect can be reasoned about.

use vstd::prelude::*;

use crate::allocator::{ReallocateReplica, ReallocateShard};
use crate::desc::{views_of_groups, GroupDesc, GroupView, ReplicaDesc, ShardDesc};

verus! {

/// Index of the first group with the given id; the length when none has it.
pub open spec fn first_group_index(gs: Seq<GroupView>, gid: u64) -> int
    decreases gs.len(),
{
    if gs.len() == 0 {
        0
    } else if gs[0].id == gid {
        0
    } else {
        1 + first_group_index(gs.drop_first(), gid)
    }
}

pub proof fn lemma_first_group_index(gs: Seq<GroupView>, gid: u64)
    ensures
        0 <= first_group_index(gs, gid) <= gs.len(),
        first_group_index(gs, gid) < gs.len() ==> gs[first_group_index(gs, gid)].id == gid && (
        forall|j: int| 0 <= j < first_group_index(gs, gid) ==> gs[j].id != gid),
        first_group_index(gs, gid) == gs.len() ==> forall|j: int|
            0 <= j < gs.len() ==> gs[j].id != gid,
    decreases gs.len(),
{
    if gs.len() > 0 && gs[0].id != gid {
        lemma_first_group_index(gs.drop_first(), gid);
        let d = gs.drop_first();
        assert forall|j: int| 1 <= j < gs.len() implies gs[j] == d[j - 1] by {}
    }
}

/// Index of the first replica with the given id; the length when none has it.
pub open spec fn first_replica_index(rs: Seq<ReplicaDesc>, rid: u64) -> int
    decreases rs.len(),
{
    if rs.len() == 0 {
        0
    } else if rs[0].id == rid {
        0
    } else {
        1 + first_replica_index(rs.drop_first(), rid)
    }
}

pub proof fn lemma_first_replica_index(rs: Seq<ReplicaDesc>, rid: u64)
    ensures
        0 <= first_replica_index(rs, rid) <= rs.len(),
        first_replica_index(rs, rid) < rs.len() ==> rs[first_replica_index(rs, rid)].id == rid && (
        forall|j: int| 0 <= j < first_replica_index(rs, rid) ==> rs[j].id != rid),
        first_replica_index(rs, rid) == rs.len() ==> forall|j: int|
            0 <= j < rs.len() ==> rs[j].id != rid,
    decreases rs.len(),
{
    if rs.len() > 0 && rs[0].id != rid {
        lemma_first_replica_index(rs.drop_first(), rid);
        let d = rs.drop_first();
        assert forall|j: int| 1 <= j < rs.len() implies rs[j] == d[j - 1] by {}
    }
}

/// Index of the first shard with the given id; the length when none has it.
pub open spec fn first_shard_index(ss: Seq<ShardDesc>, sid: u64) -> int
    decreases ss.len(),
{
    if ss.len() == 0 {
        0
    } else if ss[0].id == sid {
        0
    } else {
        1 + first_shard_index(ss.drop_first(), sid)
    }
}

pub proof fn lemma_first_shard_index(ss: Seq<ShardDesc>, sid: u64)
    ensures
        0 <= first_shard_index(ss, sid) <= ss.len(),
        first_shard_index(ss, sid) < ss.len() ==> ss[first_shard_index(ss, sid)].id == sid && (
        forall|j: int| 0 <= j < first_shard_index(ss, sid) ==> ss[j].id != sid),
        first_shard_index(ss, sid) == ss.len() ==> forall|j: int|
            0 <= j < ss.len() ==> ss[j].id != sid,
    decreases ss.len(),
{
    if ss.len() > 0 && ss[0].id != sid {
        lemma_first_shard_index(ss.drop_first(), sid);
        let d = ss.drop_first();
        assert forall|j: int| 1 <= j < ss.len() implies ss[j] == d[j - 1] by {}
    }
}

/// The group with its first replica of the given id repointed to the target
/// node; the group itself when it has no such replica.
pub open spec fn move_first_replica(g: GroupView, rid: u64, target: u64) -> GroupView {
    let i = first_replica_index(g.replicas, rid);
    if i < g.replicas.len() {
        GroupView {
            id: g.id,
            epoch: g.epoch,
            shards: g.shards,
            replicas: g.replicas.update(
                i,
                ReplicaDesc { id: g.replicas[i].id, node_id: target, role: g.replicas[i].role },
            ),
        }
    } else {
        g
    }
}

/// The snapshot after a replica migration: in the first group with the
/// proposal's group id, the first replica with the proposal's replica id now
/// sits on the target node. A snapshot without that group or replica is
/// unchanged.
pub open spec fn apply_replica(gs: Seq<GroupView>, m: ReallocateReplica) -> Seq<GroupView> {
    let k = first_group_index(gs, m.group);
    if k < gs.len() {
        gs.update(k, move_first_replica(gs[k], m.source_replica, m.target_node.id))
    } else {
        gs
    }
}

/// The group with its first shard of the given id removed; the group itself
/// when it owns no such shard.
pub open spec fn remove_first_shard(g: GroupView, sid: u64) -> GroupView {
    let i = first_shard_index(g.shards, sid);
    if i < g.shards.len() {
        GroupView { id: g.id, epoch: g.epoch, shards: g.shards.remove(i), replicas: g.replicas }
    } else {
        g
    }
}

/// The group with a shard of the given id appended.
pub open spec fn add_shard(g: GroupView, sid: u64) -> GroupView {
    GroupView {
        id: g.id,
        epoch: g.epoch,
        shards: g.shards.push(ShardDesc { id: sid }),
        replicas: g.replicas,
    }
}

/// The snapshot after a shard migration: the first shard with the proposal's
/// shard id leaves the first group with the source id, and one shard with
/// that id is appended to the first group with the target id. When source
/// group or shard is missing the snapshot is unchanged; when only the target
/// group is missing the shard is removed and not re-added.
pub open spec fn apply_shard(gs: Seq<GroupView>, m: ReallocateShard) -> Seq<GroupView> {
    let k = first_group_index(gs, m.source_group);
    if k < gs.len() && first_shard_index(gs[k].shards, m.shard) < gs[k].shards.len() {
        let gs1 = gs.update(k, remove_first_shard(gs[k], m.shard));
        let t = first_group_index(gs1, m.target_group);
        if t < gs1.len() {
            gs1.update(t, add_shard(gs1[t], m.shard))
        } else {
            gs1
        }
    } else {
        gs
    }
}

/// Repoint the group's first replica with the given id to the target node;
/// leave the group unchanged when it has no such replica.
pub(crate) fn repoint_first_replica(g: &mut GroupDesc, rid: u64, target: u64)
    ensures
        final(g)@ == move_first_replica(old(g)@, rid, target),
{
    let ghost g0 = g@;
    proof {
        lemma_first_replica_index(g.replicas@, rid);
    }
    let ri_opt = find_replica(g, rid);
    let ri: usize;
    match ri_opt {
        Some(i) => {
            ri = i;
        },
        None => {
            return ;
        },
    }
    proof {
        assert(ri as int == first_replica_index(g0.replicas, rid));
    }
    let old_r = g.replicas.remove(ri);
    let new_r = ReplicaDesc { id: old_r.id, node_id: target, role: old_r.role };
    g.replicas.insert(ri, new_r);
    proof {
        assert(g.replicas@ =~= g0.replicas.update(ri as int, new_r));
        assert(g@ == move_first_replica(g0, rid, target));
    }
}

/// Perform a proposed replica migration on a snapshot held as plain vectors.
pub fn apply_replica_migration(groups: &mut Vec<GroupDesc>, m: &ReallocateReplica)
    ensures
        views_of_groups(final(groups)@) == apply_replica(views_of_groups(old(groups)@), *m),
{
    let ghost gv = views_of_groups(groups@);
    proof {
        lemma_first_group_index(gv, m.group);
    }
    let gi_opt = find_group(groups, m.group);
    let gi: usize;
    match gi_opt {
        Some(i) => {
            gi = i;
        },
        None => {
            return ;
        },
    }
    proof {
        assert(gi as int == first_group_index(gv, m.group));
    }
    let mut g = groups.remove(gi);
    proof {
        assert(g@ == gv[gi as int]);
    }
    repoint_first_replica(&mut g, m.source_replica, m.target_node.id);
    groups.insert(gi, g);
    proof {
        assert(views_of_groups(groups@) =~= gv.update(
            gi as int,
            move_first_replica(gv[gi as int], m.source_replica, m.target_node.id),
        ));
    }
}

/// Perform a proposed shard migration on a snapshot held as plain vectors.
pub fn apply_shard_migration(groups: &mut Vec<GroupDesc>, m: &ReallocateShard)
    ensures
        views_of_groups(final(groups)@) == apply_shard(views_of_groups(old(groups)@), *m),
{
    let ghost gv = views_of_groups(groups@);
    proof {
        lemma_first_group_index(gv, m.source_group);
    }
    let si_opt = find_group(groups, m.source_group);
    let si: usize;
    match si_opt {
        Some(i) => {
            si = i;
        },
        None => {
            return ;
        },
    }
    proof {
        assert(si as int == first_group_index(gv, m.source_group));
    }
    let mut g = groups.remove(si);
    proof {
        lemma_first_shard_index(g.shards@, m.shard);
    }
    let sh_opt = find_shard(&g, m.shard);
    let sh: usize;
    match sh_opt {
        Some(i) => {
            sh = i;
        },
        None => {
            groups.insert(si, g);
            proof {
                assert(views_of_groups(groups@) =~= gv);
                assert(apply_shard(gv, *m) =~= gv);
            }
            return ;
        },
    }
    proof {
        assert(sh as int == first_shard_index(g.shards@, m.shard));
    }
    let _removed = g.shards.remove(sh);
    proof {
        assert(g@ == remove_first_shard(gv[si as int], m.shard));
    }
    groups.insert(si, g);
    let ghost gs1 = views_of_groups(groups@);
    proof {
        assert(gs1 =~= gv.update(si as int, remove_first_shard(gv[si as int], m.shard)));
        lemma_first_group_index(gs1, m.target_group);
    }
    let ti_opt = find_group(groups, m.target_group);
    let ti: usize;
    match ti_opt {
        Some(i) => {
            ti = i;
        },
        None => {
            proof {
                assert(apply_shard(gv, *m) =~= gs1);
            }
            return ;
        },
    }
    proof {
        assert(ti as int == first_group_index(gs1, m.target_group));
    }
    let mut t = groups.remove(ti);
    t.shards.push(ShardDesc { id: m.shard });
    proof {
        assert(t@ == add_shard(gs1[ti as int], m.shard));
    }
    groups.insert(ti, t);
    proof {
        assert(views_of_groups(groups@) =~= gs1.update(ti as int, add_shard(gs1[ti as int], m.shard)));
    }
}

/// The first group with the given id, as an index.
pub(crate) fn find_group(groups: &Vec<GroupDesc>, gid: u64) -> (r: Option<usize>)
    ensures
        ({
            let k = first_group_index(views_of_groups(groups@), gid);
            match r {
                Some(i) => i as int == k && k < groups@.len(),
                None => k == groups@.len(),
            }
        }),
{
    let ghost gv = views_of_groups(groups@);
    proof {
        lemma_first_group_index(gv, gid);
    }
    let mut i: usize = 0;
    while i < groups.len()
        invariant
            gv == views_of_groups(groups@),
            i <= groups@.len(),
            forall|j: int| 0 <= j < i ==> gv[j].id != gid,
        decreases groups@.len() - i,
    {
        if groups[i].id == gid {
            proof {
                lemma_first_group_index(gv, gid);
                lemma_first_index_found_group(gv, gid, i as int);
            }
            return Some(i);
        }
        i = i + 1;
    }
    proof {
        lemma_first_group_index(gv, gid);
        if first_group_index(gv, gid) < gv.len() {
            assert(gv[first_group_index(gv, gid)].id == gid);
        }
    }
    None
}

proof fn lemma_first_index_found_group(gs: Seq<GroupView>, gid: u64, i: int)
    requires
        0 <= i < gs.len(),
        gs[i].id == gid,
        forall|j: int| 0 <= j < i ==> gs[j].id != gid,
    ensures
        first_group_index(gs, gid) == i,
    decreases gs.len(),
{
    if i > 0 {
        assert(forall|j: int| 0 <= j < i - 1 ==> gs.drop_first()[j].id != gid);
        lemma_first_index_found_group(gs.drop_first(), gid, i - 1);
    }
}

/// The first replica of the group with the given id, as an index.
pub(crate) fn find_replica(g: &GroupDesc, rid: u64) -> (r: Option<usize>)
    ensures
        ({
            let k = first_replica_index(g.replicas@, rid);
            match r {
                Some(i) => i as int == k && k < g.replicas@.len(),
                None => k == g.replicas@.len(),
            }
        }),
{
    proof {
        lemma_first_replica_index(g.replicas@, rid);
    }
    let mut i: usize = 0;
    while i < g.replicas.len()
        invariant
            i <= g.replicas@.len(),
            forall|j: int| 0 <= j < i ==> g.replicas@[j].id != rid,
        decreases g.replicas@.len() - i,
    {
        if g.replicas[i].id == rid {
            proof {
                lemma_first_replica_index(g.replicas@, rid);
                lemma_first_index_found_replica(g.replicas@, rid, i as int);
            }
            return Some(i);
        }
        i = i + 1;
    }
    proof {
        lemma_first_replica_index(g.replicas@, rid);
        if first_replica_index(g.replicas@, rid) < g.replicas@.len() {
            assert(g.replicas@[first_replica_index(g.replicas@, rid)].id == rid);
        }
    }
    None
}

proof fn lemma_first_index_found_replica(rs: Seq<ReplicaDesc>, rid: u64, i: int)
    requires
        0 <= i < rs.len(),
        rs[i].id == rid,
        forall|j: int| 0 <= j < i ==> rs[j].id != rid,
    ensures
        first_replica_index(rs, rid) == i,
    decreases rs.len(),
{
    if i > 0 {
        assert(forall|j: int| 0 <= j < i - 1 ==> rs.drop_first()[j].id != rid);
        lemma_first_index_found_replica(rs.drop_first(), rid, i - 1);
    }
}

/// The first shard of the group with the given id, as an index.
pub(crate) fn find_shard(g: &GroupDesc, sid: u64) -> (r: Option<usize>)
    ensures
        ({
            let k = first_shard_index(g.shards@, sid);
            match r {
                Some(i) => i as int == k && k < g.shards@.len(),
                None => k == g.shards@.len(),
            }
        }),
{
    proof {
        lemma_first_shard_index(g.shards@, sid);
    }
    let mut i: usize = 0;
    while i < g.shards.len()
        invariant
            i <= g.shards@.len(),
            forall|j: int| 0 <= j < i ==> g.shards@[j].id != sid,
        decreases g.shards@.len() - i,
    {
        if g.shards[i].id == sid {
            proof {
                lemma_first_shard_index(g.shards@, sid);
                lemma_first_index_found_shard(g.shards@, sid, i as int);
            }
            return Some(i);
        }
        i = i + 1;
    }
    proof {
        lemma_first_shard_index(g.shards@, sid);
        if first_shard_index(g.shards@, sid) < g.shards@.len() {
            assert(g.shards@[first_shard_index(g.shards@, sid)].id == sid);
        }
    }
    None
}

proof fn lemma_first_index_found_shard(ss: Seq<ShardDesc>, sid: u64, i: int)
    requires
        0 <= i < ss.len(),
        ss[i].id == sid,
        forall|j: int| 0 <= j < i ==> ss[j].id != sid,
    ensures
        first_shard_index(ss, sid) == i,
    decreases ss.len(),
{
    if i > 0 {
        assert(forall|j: int| 0 <= j < i - 1 ==> ss.drop_first()[j].id != sid);
        lemma_first_index_found_shard(ss.drop_first(), sid, i - 1);
    }
}

} // verus!
