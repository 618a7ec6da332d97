//! Deterministic selection over snapshots: ordering nodes and groups by load,
//! finding the endpoints of a migration, and locating replicas and shards.

use vstd::prelude::*;

use crate::desc::{views_of_groups, GroupDesc, GroupView, NodeDesc};
use crate::model::{
    group_hosts, is_replica_source, is_replica_target, is_shard_source, is_shard_target, load_of,
    node_known, shards_of,
};

verus! {

/// The order in which nodes are offered replicas: lighter load first, and
/// among equally loaded nodes the smaller id first.
pub open spec fn node_leq(a: NodeDesc, b: NodeDesc) -> bool {
    load_of(a) < load_of(b) || (load_of(a) == load_of(b) && a.id <= b.id)
}

/// A sequence of nodes in ascending `node_leq` order.
pub open spec fn nodes_sorted(s: Seq<NodeDesc>) -> bool {
    forall|i: int, j: int| 0 <= i < j < s.len() ==> node_leq(#[trigger] s[i], #[trigger] s[j])
}

/// The order in which groups are offered shards: fewer shards first, and
/// among equally filled groups the smaller id first.
pub open spec fn group_leq(a: GroupView, b: GroupView) -> bool {
    shards_of(a) < shards_of(b) || (shards_of(a) == shards_of(b) && a.id <= b.id)
}

/// A sequence of groups in ascending `group_leq` order.
pub open spec fn groups_sorted(s: Seq<GroupView>) -> bool {
    forall|i: int, j: int| 0 <= i < j < s.len() ==> group_leq(#[trigger] s[i], #[trigger] s[j])
}

fn node_le(a: &NodeDesc, b: &NodeDesc) -> (r: bool)
    ensures
        r == node_leq(*a, *b),
{
    a.capacity.replica_count < b.capacity.replica_count || (a.capacity.replica_count
        == b.capacity.replica_count && a.id <= b.id)
}

/// Whether the id list contains the given id.
pub fn ids_contain(v: &Vec<u64>, x: u64) -> (r: bool)
    ensures
        r == v@.contains(x),
{
    let mut i: usize = 0;
    while i < v.len()
        invariant
            i <= v@.len(),
            forall|j: int| 0 <= j < i ==> v@[j] != x,
        decreases v@.len() - i,
    {
        if v[i] == x {
            return true;
        }
        i = i + 1;
    }
    false
}

/// Whether some node of the snapshot carries the given id.
pub fn nodes_contain(ns: &Vec<NodeDesc>, node_id: u64) -> (r: bool)
    ensures
        r == node_known(ns@, node_id),
{
    let mut i: usize = 0;
    while i < ns.len()
        invariant
            i <= ns@.len(),
            forall|j: int| 0 <= j < i ==> ns@[j].id != node_id,
        decreases ns@.len() - i,
    {
        if ns[i].id == node_id {
            return true;
        }
        i = i + 1;
    }
    false
}

/// The node the replica balancer drains: maximal load, smallest id among the
/// equally loaded.
pub fn max_load_index(ns: &Vec<NodeDesc>) -> (m: usize)
    requires
        ns@.len() > 0,
    ensures
        is_replica_source(ns@, m as int),
{
    let mut m: usize = 0;
    let mut i: usize = 1;
    while i < ns.len()
        invariant
            m < i <= ns@.len(),
            forall|j: int| 0 <= j < i ==> load_of(#[trigger] ns@[j]) <= load_of(ns@[m as int]),
            forall|j: int|
                0 <= j < i && load_of(#[trigger] ns@[j]) == load_of(ns@[m as int]) ==> ns@[m as int].id
                    <= ns@[j].id,
        decreases ns@.len() - i,
    {
        if ns[i].capacity.replica_count > ns[m].capacity.replica_count || (
        ns[i].capacity.replica_count == ns[m].capacity.replica_count && ns[i].id < ns[m].id) {
            m = i;
        }
        i = i + 1;
    }
    m
}

/// The node the replica balancer fills: minimal load, smallest id among the
/// equally loaded.
pub fn min_load_index(ns: &Vec<NodeDesc>) -> (m: usize)
    requires
        ns@.len() > 0,
    ensures
        is_replica_target(ns@, m as int),
{
    let mut m: usize = 0;
    let mut i: usize = 1;
    while i < ns.len()
        invariant
            m < i <= ns@.len(),
            forall|j: int| 0 <= j < i ==> load_of(ns@[m as int]) <= load_of(#[trigger] ns@[j]),
            forall|j: int|
                0 <= j < i && load_of(#[trigger] ns@[j]) == load_of(ns@[m as int]) ==> ns@[m as int].id
                    <= ns@[j].id,
        decreases ns@.len() - i,
    {
        if ns[i].capacity.replica_count < ns[m].capacity.replica_count || (
        ns[i].capacity.replica_count == ns[m].capacity.replica_count && ns[i].id < ns[m].id) {
            m = i;
        }
        i = i + 1;
    }
    m
}

/// The group the shard balancer drains: most shards, smallest id among the
/// equally filled.
pub fn max_shards_index(gs: &Vec<GroupDesc>) -> (m: usize)
    requires
        gs@.len() > 0,
    ensures
        is_shard_source(views_of_groups(gs@), m as int),
{
    let ghost gv = views_of_groups(gs@);
    let mut m: usize = 0;
    let mut i: usize = 1;
    while i < gs.len()
        invariant
            gv == views_of_groups(gs@),
            m < i <= gs@.len(),
            forall|j: int| 0 <= j < i ==> shards_of(#[trigger] gv[j]) <= shards_of(gv[m as int]),
            forall|j: int|
                0 <= j < i && shards_of(#[trigger] gv[j]) == shards_of(gv[m as int])
                    ==> gv[m as int].id <= gv[j].id,
        decreases gs@.len() - i,
    {
        if gs[i].shards.len() > gs[m].shards.len() || (gs[i].shards.len() == gs[m].shards.len()
            && gs[i].id < gs[m].id) {
            m = i;
        }
        i = i + 1;
    }
    m
}

/// The group the shard balancer fills: fewest shards, smallest id among the
/// equally filled.
pub fn min_shards_index(gs: &Vec<GroupDesc>) -> (m: usize)
    requires
        gs@.len() > 0,
    ensures
        is_shard_target(views_of_groups(gs@), m as int),
{
    let ghost gv = views_of_groups(gs@);
    let mut m: usize = 0;
    let mut i: usize = 1;
    while i < gs.len()
        invariant
            gv == views_of_groups(gs@),
            m < i <= gs@.len(),
            forall|j: int| 0 <= j < i ==> shards_of(gv[m as int]) <= shards_of(#[trigger] gv[j]),
            forall|j: int|
                0 <= j < i && shards_of(#[trigger] gv[j]) == shards_of(gv[m as int])
                    ==> gv[m as int].id <= gv[j].id,
        decreases gs@.len() - i,
    {
        if gs[i].shards.len() < gs[m].shards.len() || (gs[i].shards.len() == gs[m].shards.len()
            && gs[i].id < gs[m].id) {
            m = i;
        }
        i = i + 1;
    }
    m
}

/// Whether the group hosts a replica on the given node.
pub fn hosts_node(g: &GroupDesc, node_id: u64) -> (r: bool)
    ensures
        r == group_hosts(g@, node_id),
{
    let mut i: usize = 0;
    while i < g.replicas.len()
        invariant
            i <= g.replicas@.len(),
            forall|j: int| 0 <= j < i ==> g.replicas@[j].node_id != node_id,
        decreases g.replicas@.len() - i,
    {
        if g.replicas[i].node_id == node_id {
            return true;
        }
        i = i + 1;
    }
    false
}

/// The first replica of the group on the given node, if any.
pub fn first_replica_on(g: &GroupDesc, node_id: u64) -> (r: Option<usize>)
    ensures
        match r {
            Some(i) => {
                &&& 0 <= i < g.replicas@.len()
                &&& g.replicas@[i as int].node_id == node_id
                &&& forall|j: int| 0 <= j < i ==> g.replicas@[j].node_id != node_id
            },
            None => !group_hosts(g@, node_id),
        },
{
    let mut i: usize = 0;
    while i < g.replicas.len()
        invariant
            i <= g.replicas@.len(),
            forall|j: int| 0 <= j < i ==> g.replicas@[j].node_id != node_id,
        decreases g.replicas@.len() - i,
    {
        if g.replicas[i].node_id == node_id {
            return Some(i);
        }
        i = i + 1;
    }
    None
}

/// The first shard of the group with the lowest shard id.
pub fn min_shard_index(g: &GroupDesc) -> (m: usize)
    requires
        g.shards@.len() > 0,
    ensures
        m < g.shards@.len(),
        forall|j: int| 0 <= j < g.shards@.len() ==> g.shards@[m as int].id <= (#[trigger] g.shards@[j]).id,
        forall|j: int| 0 <= j < m ==> (#[trigger] g.shards@[j]).id != g.shards@[m as int].id,
{
    let mut m: usize = 0;
    let mut i: usize = 1;
    while i < g.shards.len()
        invariant
            m < i <= g.shards@.len(),
            forall|j: int| 0 <= j < i ==> g.shards@[m as int].id <= (#[trigger] g.shards@[j]).id,
            forall|j: int| 0 <= j < m ==> (#[trigger] g.shards@[j]).id != g.shards@[m as int].id,
        decreases g.shards@.len() - i,
    {
        if g.shards[i].id < g.shards[m].id {
            m = i;
        }
        i = i + 1;
    }
    m
}

/// Sort nodes into ascending `node_leq` order by repeatedly extracting a
/// minimal remaining node.
pub fn sort_nodes_by_load(v: Vec<NodeDesc>) -> (r: Vec<NodeDesc>)
    ensures
        nodes_sorted(r@),
        r@.to_multiset() == v@.to_multiset(),
        r@.len() == v@.len(),
{
    broadcast use vstd::seq_lib::group_to_multiset_ensures;

    let mut rest = v;
    let mut out: Vec<NodeDesc> = Vec::new();
    while rest.len() > 0
        invariant
            nodes_sorted(out@),
            out@.to_multiset().add(rest@.to_multiset()) == v@.to_multiset(),
            forall|i: int, j: int|
                0 <= i < out@.len() && 0 <= j < rest@.len() ==> node_leq(
                    #[trigger] out@[i],
                    #[trigger] rest@[j],
                ),
            out@.len() + rest@.len() == v@.len(),
        decreases rest@.len(),
    {
        let ghost old_out = out@;
        let ghost old_rest = rest@;
        let m = min_node_index(&rest);
        let x = rest.remove(m);
        out.push(x);
        proof {
            broadcast use vstd::seq_lib::group_to_multiset_ensures;
            broadcast use vstd::multiset::group_multiset_axioms;

            assert(old_rest[m as int] == x);
            assert(old_rest.contains(x));
            vstd::seq_lib::to_multiset_build(old_out, x);
            vstd::seq_lib::to_multiset_remove(old_rest, m as int);
            assert(out@ == old_out.push(x));
            assert(rest@ == old_rest.remove(m as int));
            assert(out@.to_multiset().add(rest@.to_multiset()) =~= old_out.to_multiset().add(
                old_rest.to_multiset(),
            ));
        }
    }
    out
}

fn min_node_index(ns: &Vec<NodeDesc>) -> (m: usize)
    requires
        ns@.len() > 0,
    ensures
        m < ns@.len(),
        forall|j: int| 0 <= j < ns@.len() ==> node_leq(ns@[m as int], #[trigger] ns@[j]),
{
    let mut m: usize = 0;
    let mut i: usize = 1;
    while i < ns.len()
        invariant
            m < i <= ns@.len(),
            forall|j: int| 0 <= j < i ==> node_leq(ns@[m as int], #[trigger] ns@[j]),
        decreases ns@.len() - i,
    {
        if !node_le(&ns[m], &ns[i]) {
            m = i;
        }
        i = i + 1;
    }
    m
}

/// Sort groups into ascending `group_leq` order by repeatedly extracting a
/// minimal remaining group.
pub fn sort_groups_by_shards(v: Vec<GroupDesc>) -> (r: Vec<GroupDesc>)
    ensures
        groups_sorted(views_of_groups(r@)),
        views_of_groups(r@).to_multiset() == views_of_groups(v@).to_multiset(),
        r@.len() == v@.len(),
{
    broadcast use vstd::seq_lib::group_to_multiset_ensures;

    let mut rest = v;
    let mut out: Vec<GroupDesc> = Vec::new();
    while rest.len() > 0
        invariant
            groups_sorted(views_of_groups(out@)),
            views_of_groups(out@).to_multiset().add(views_of_groups(rest@).to_multiset())
                == views_of_groups(v@).to_multiset(),
            forall|i: int, j: int|
                0 <= i < out@.len() && 0 <= j < rest@.len() ==> group_leq(
                    #[trigger] views_of_groups(out@)[i],
                    #[trigger] views_of_groups(rest@)[j],
                ),
            out@.len() + rest@.len() == v@.len(),
        decreases rest@.len(),
    {
        let ghost old_out = views_of_groups(out@);
        let ghost old_rest = views_of_groups(rest@);
        let m = min_group_index(&rest);
        let x = rest.remove(m);
        out.push(x);
        proof {
            broadcast use vstd::seq_lib::group_to_multiset_ensures;
            broadcast use vstd::multiset::group_multiset_axioms;

            assert(old_rest[m as int] == x@);
            assert(old_rest.contains(x@));
            vstd::seq_lib::to_multiset_build(old_out, x@);
            vstd::seq_lib::to_multiset_remove(old_rest, m as int);
            assert(views_of_groups(out@) =~= old_out.push(x@));
            assert(views_of_groups(rest@) =~= old_rest.remove(m as int));
            assert(views_of_groups(out@).to_multiset().add(views_of_groups(rest@).to_multiset())
                =~= old_out.to_multiset().add(old_rest.to_multiset()));
        }
    }
    out
}

fn min_group_index(gs: &Vec<GroupDesc>) -> (m: usize)
    requires
        gs@.len() > 0,
    ensures
        m < gs@.len(),
        forall|j: int|
            0 <= j < gs@.len() ==> group_leq(
                views_of_groups(gs@)[m as int],
                #[trigger] views_of_groups(gs@)[j],
            ),
{
    let ghost gv = views_of_groups(gs@);
    let mut m: usize = 0;
    let mut i: usize = 1;
    while i < gs.len()
        invariant
            gv == views_of_groups(gs@),
            m < i <= gs@.len(),
            forall|j: int| 0 <= j < i ==> group_leq(gv[m as int], #[trigger] gv[j]),
        decreases gs@.len() - i,
    {
        if !(gs[m].shards.len() < gs[i].shards.len() || (gs[m].shards.len() == gs[i].shards.len()
            && gs[m].id <= gs[i].id)) {
            m = i;
        }
        i = i + 1;
    }
    m
}

} // verus!
