//! The mathematical model of a cluster snapshot: derived replica counts,
//! well-formedness of a snapshot, balance of a load distribution, and the
//! deterministic choice of migration endpoints.

use vstd::multiset::Multiset;
use vstd::prelude::*;

use crate::desc::{GroupView, NodeDesc};

verus! {

/// The replica load of a node as the snapshot records it.
pub open spec fn load_of(n: NodeDesc) -> u64 {
    n.capacity.replica_count
}

/// How many of the listed replicas sit on the given node.
pub open spec fn count_on_node(rs: Seq<crate::desc::ReplicaDesc>, node_id: u64) -> nat
    decreases rs.len(),
{
    if rs.len() == 0 {
        0
    } else {
        count_on_node(rs.drop_last(), node_id) + if rs.last().node_id == node_id {
            1nat
        } else {
            0nat
        }
    }
}

/// How many replicas of one group the given node hosts.
pub open spec fn replicas_in_group_on(g: GroupView, node_id: u64) -> nat {
    count_on_node(g.replicas, node_id)
}

/// How many replicas the given node hosts, over all groups.
pub open spec fn replicas_on_node(gs: Seq<GroupView>, node_id: u64) -> nat
    decreases gs.len(),
{
    if gs.len() == 0 {
        0
    } else {
        replicas_on_node(gs.drop_last(), node_id) + replicas_in_group_on(gs.last(), node_id)
    }
}

/// Whether some replica of the group sits on the given node.
pub open spec fn group_hosts(g: GroupView, node_id: u64) -> bool {
    exists|i: int| 0 <= i < g.replicas.len() && g.replicas[i].node_id == node_id
}

/// No two replicas of one group share a node.
pub open spec fn group_no_colocation(g: GroupView) -> bool {
    forall|i: int, j: int|
        0 <= i < j < g.replicas.len() ==> g.replicas[i].node_id != g.replicas[j].node_id
}

/// No group of the snapshot colocates two of its replicas.
pub open spec fn no_colocation(gs: Seq<GroupView>) -> bool {
    forall|k: int| 0 <= k < gs.len() ==> group_no_colocation(#[trigger] gs[k])
}

/// Node ids are unique cluster-wide.
pub open spec fn unique_node_ids(ns: Seq<NodeDesc>) -> bool {
    forall|i: int, j: int| 0 <= i < j < ns.len() ==> ns[i].id != ns[j].id
}

/// Group ids are unique cluster-wide.
pub open spec fn unique_group_ids(gs: Seq<GroupView>) -> bool {
    forall|i: int, j: int| 0 <= i < j < gs.len() ==> gs[i].id != gs[j].id
}

/// Replica ids are unique within each group.
pub open spec fn unique_replica_ids(gs: Seq<GroupView>) -> bool {
    forall|k: int|
        0 <= k < gs.len() ==> forall|i: int, j: int|
            0 <= i < j < (#[trigger] gs[k]).replicas.len() ==> gs[k].replicas[i].id
                != gs[k].replicas[j].id
}

/// Shard ids are unique within each group.
pub open spec fn unique_shard_ids(gs: Seq<GroupView>) -> bool {
    forall|k: int|
        0 <= k < gs.len() ==> forall|i: int, j: int|
            0 <= i < j < (#[trigger] gs[k]).shards.len() ==> gs[k].shards[i].id != gs[k].shards[j].id
}

/// The snapshot's node counters agree with the replica placement it records.
pub open spec fn counts_consistent(ns: Seq<NodeDesc>, gs: Seq<GroupView>) -> bool {
    forall|i: int|
        0 <= i < ns.len() ==> load_of(#[trigger] ns[i]) == replicas_on_node(gs, ns[i].id)
}

/// Some node of the snapshot carries the given id.
pub open spec fn node_known(ns: Seq<NodeDesc>, node_id: u64) -> bool {
    exists|j: int| 0 <= j < ns.len() && ns[j].id == node_id
}

/// Every replica of the snapshot sits on a node the snapshot knows.
pub open spec fn placement_known(ns: Seq<NodeDesc>, gs: Seq<GroupView>) -> bool {
    forall|k: int, i: int|
        0 <= k < gs.len() && 0 <= i < gs[k].replicas.len() ==> node_known(
            ns,
            (#[trigger] gs[k].replicas[i]).node_id,
        )
}

/// Replica loads are within the balance tolerance of each other: the spread
/// between the fullest and the emptiest node is at most one replica.
pub open spec fn replica_balanced(ns: Seq<NodeDesc>) -> bool {
    forall|i: int, j: int|
        0 <= i < ns.len() && 0 <= j < ns.len() ==> load_of(#[trigger] ns[i]) <= load_of(
            #[trigger] ns[j],
        ) + 1
}

/// The node the replica balancer drains: maximal replica load, ties broken
/// towards the smaller node id.
pub open spec fn is_replica_source(ns: Seq<NodeDesc>, i: int) -> bool {
    &&& 0 <= i < ns.len()
    &&& forall|j: int| 0 <= j < ns.len() ==> load_of(#[trigger] ns[j]) <= load_of(ns[i])
    &&& forall|j: int|
        0 <= j < ns.len() && load_of(#[trigger] ns[j]) == load_of(ns[i]) ==> ns[i].id <= ns[j].id
}

/// The node the replica balancer fills: minimal replica load, ties broken
/// towards the smaller node id.
pub open spec fn is_replica_target(ns: Seq<NodeDesc>, i: int) -> bool {
    &&& 0 <= i < ns.len()
    &&& forall|j: int| 0 <= j < ns.len() ==> load_of(ns[i]) <= load_of(#[trigger] ns[j])
    &&& forall|j: int|
        0 <= j < ns.len() && load_of(#[trigger] ns[j]) == load_of(ns[i]) ==> ns[i].id <= ns[j].id
}

/// A group that can give a replica away: it hosts one on the drained node and
/// none on the filled node, so the move cannot colocate two of its replicas.
pub open spec fn migration_candidate(g: GroupView, source: u64, target: u64) -> bool {
    group_hosts(g, source) && !group_hosts(g, target)
}

/// The shard load of a group.
pub open spec fn shards_of(g: GroupView) -> nat {
    g.shards.len()
}

/// Shard counts are within the balance tolerance of each other.
pub open spec fn shard_balanced(gs: Seq<GroupView>) -> bool {
    forall|i: int, j: int|
        0 <= i < gs.len() && 0 <= j < gs.len() ==> shards_of(#[trigger] gs[i]) <= shards_of(
            #[trigger] gs[j],
        ) + 1
}

/// The group the shard balancer drains: maximal shard count, ties broken
/// towards the smaller group id.
pub open spec fn is_shard_source(gs: Seq<GroupView>, i: int) -> bool {
    &&& 0 <= i < gs.len()
    &&& forall|j: int| 0 <= j < gs.len() ==> shards_of(#[trigger] gs[j]) <= shards_of(gs[i])
    &&& forall|j: int|
        0 <= j < gs.len() && shards_of(#[trigger] gs[j]) == shards_of(gs[i]) ==> gs[i].id <= gs[j].id
}

/// The group the shard balancer fills: minimal shard count, ties broken
/// towards the smaller group id.
pub open spec fn is_shard_target(gs: Seq<GroupView>, i: int) -> bool {
    &&& 0 <= i < gs.len()
    &&& forall|j: int| 0 <= j < gs.len() ==> shards_of(gs[i]) <= shards_of(#[trigger] gs[j])
    &&& forall|j: int|
        0 <= j < gs.len() && shards_of(#[trigger] gs[j]) == shards_of(gs[i]) ==> gs[i].id <= gs[j].id
}

/// The ids of the listed shards, in order.
pub open spec fn shard_ids_seq(ss: Seq<crate::desc::ShardDesc>) -> Seq<u64> {
    ss.map_values(|s: crate::desc::ShardDesc| s.id)
}

/// The multiset of shard ids one group owns.
pub open spec fn group_shard_ids(g: GroupView) -> Multiset<u64> {
    shard_ids_seq(g.shards).to_multiset()
}

/// The multiset of shard ids across the whole snapshot. Shard migrations
/// must leave it unchanged: a shard is moved, never duplicated or dropped.
pub open spec fn shard_id_multiset(gs: Seq<GroupView>) -> Multiset<u64>
    decreases gs.len(),
{
    if gs.len() == 0 {
        Multiset::empty()
    } else {
        shard_id_multiset(gs.drop_last()).add(group_shard_ids(gs.last()))
    }
}

} // verus!
