//! Decision-procedure scenarios: group provisioning, node selection with its
//! deterministic tie-breaks, shard placement ordering, and the error cases.

use cluster_allocator::allocator::{AllocError, Allocator, GroupAction};
use cluster_allocator::desc::{GroupDesc, NodeCapacity, NodeDesc, ReplicaDesc, ReplicaRole};
use cluster_allocator::sim::MockInfoProvider;

fn node(id: u64, replica_count: u64) -> NodeDesc {
    NodeDesc {
        id,
        addr: "".into(),
        capacity: NodeCapacity { cpu_nums: 4, replica_count, leader_count: 0 },
    }
}

fn group(id: u64, replica_nodes: &[(u64, u64)]) -> GroupDesc {
    GroupDesc {
        id,
        epoch: 0,
        shards: vec![],
        replicas: replica_nodes
            .iter()
            .map(|&(rid, nid)| ReplicaDesc { id: rid, node_id: nid, role: ReplicaRole::Voter })
            .collect(),
    }
}

#[test]
fn group_action_noop_on_single_node_cluster() {
    let a = Allocator::new(3);
    let nodes = vec![node(1, 1)];
    let groups = vec![group(1, &[(1, 1)])];
    let act = a.compute_group_action(&nodes, &groups).unwrap();
    assert!(matches!(act, GroupAction::Noop));
}

#[test]
fn group_action_add_when_nodes_outgrow_groups() {
    let a = Allocator::new(3);
    let nodes = vec![node(1, 1), node(2, 1), node(3, 1)];
    let groups = vec![group(1, &[(1, 1), (2, 2), (3, 3)])];
    let act = a.compute_group_action(&nodes, &groups).unwrap();
    match act {
        GroupAction::Add(n) => assert_eq!(n, 3),
        GroupAction::Noop => panic!("expected a shortfall"),
    }
}

#[test]
fn group_action_noop_once_groups_suffice() {
    let a = Allocator::new(3);
    let nodes = vec![node(1, 4), node(2, 4), node(3, 4)];
    let groups = vec![
        group(1, &[(1, 1), (2, 2), (3, 3)]),
        group(2, &[(4, 1), (5, 2), (6, 3)]),
        group(3, &[(7, 1), (8, 2), (9, 3)]),
        group(4, &[(10, 1), (11, 2), (12, 3)]),
    ];
    let act = a.compute_group_action(&nodes, &groups).unwrap();
    assert!(matches!(act, GroupAction::Noop));
}

#[test]
fn group_action_add_two_for_a_fourth_node() {
    let a = Allocator::new(3);
    let nodes = vec![node(1, 4), node(2, 4), node(3, 4), node(4, 0)];
    let groups = vec![
        group(1, &[(1, 1), (2, 2), (3, 3)]),
        group(2, &[(4, 1), (5, 2), (6, 3)]),
        group(3, &[(7, 1), (8, 2), (9, 3)]),
        group(4, &[(10, 1), (11, 2), (12, 3)]),
    ];
    let act = a.compute_group_action(&nodes, &groups).unwrap();
    match act {
        GroupAction::Add(n) => assert_eq!(n, 2),
        GroupAction::Noop => panic!("expected a shortfall"),
    }
}

#[test]
fn allocate_orders_by_load_then_id() {
    let a = Allocator::new(3);
    let nodes = vec![node(7, 2), node(3, 0), node(5, 1), node(1, 0)];
    let picked = a.allocate_group_replica(&nodes, &vec![], 3).unwrap();
    let ids: Vec<u64> = picked.iter().map(|n| n.id).collect();
    assert_eq!(ids, vec![1, 3, 5]);
}

#[test]
fn allocate_breaks_load_ties_by_lower_id() {
    let a = Allocator::new(2);
    let nodes = vec![node(5, 2), node(2, 2), node(9, 2)];
    let picked = a.allocate_group_replica(&nodes, &vec![], 2).unwrap();
    let ids: Vec<u64> = picked.iter().map(|n| n.id).collect();
    assert_eq!(ids, vec![2, 5]);
}

#[test]
fn allocate_respects_exclusion() {
    let a = Allocator::new(2);
    let nodes = vec![node(1, 0), node(2, 1), node(3, 2)];
    let picked = a.allocate_group_replica(&nodes, &vec![1], 2).unwrap();
    let ids: Vec<u64> = picked.iter().map(|n| n.id).collect();
    assert_eq!(ids, vec![2, 3]);
}

#[test]
fn allocate_fails_when_too_few_nodes_remain() {
    let a = Allocator::new(3);
    let nodes = vec![node(1, 0), node(2, 0)];
    let r = a.allocate_group_replica(&nodes, &vec![], 3);
    assert!(matches!(r, Err(AllocError::InsufficientNodes)));
    let r = a.allocate_group_replica(&nodes, &vec![2], 2);
    assert!(matches!(r, Err(AllocError::InsufficientNodes)));
}

#[test]
fn replica_action_rejects_unknown_node_reference() {
    let a = Allocator::new(3);
    let nodes = vec![node(1, 1)];
    let groups = vec![group(1, &[(1, 99)])];
    let r = a.compute_replica_action(&nodes, &groups);
    assert!(matches!(r, Err(AllocError::InvalidState)));
}

#[test]
fn place_orders_groups_by_shard_count_then_id() {
    let a = Allocator::new(3);
    let mut g1 = group(1, &[(1, 1)]);
    g1.shards.push(cluster_allocator::desc::ShardDesc { id: 10 });
    g1.shards.push(cluster_allocator::desc::ShardDesc { id: 11 });
    let mut g2 = group(2, &[(2, 1)]);
    g2.shards.push(cluster_allocator::desc::ShardDesc { id: 12 });
    let g3 = group(3, &[(3, 1)]);
    let groups = vec![g1, g2, g3];
    let cg = a.place_group_for_shard(&groups, 9).unwrap();
    let ids: Vec<u64> = cg.iter().map(|g| g.id).collect();
    assert_eq!(ids, vec![3, 2, 1]);
}

#[test]
fn place_breaks_shard_count_ties_by_lower_group_id() {
    let a = Allocator::new(3);
    let groups = vec![group(7, &[(1, 1)]), group(3, &[(2, 1)])];
    let cg = a.place_group_for_shard(&groups, 4).unwrap();
    let ids: Vec<u64> = cg.iter().map(|g| g.id).collect();
    assert_eq!(ids, vec![3, 7]);
}

#[test]
fn place_cuts_the_order_to_the_requested_count() {
    let a = Allocator::new(3);
    let groups = vec![group(1, &[(1, 1)]), group(2, &[(2, 1)]), group(3, &[(3, 1)])];
    let cg = a.place_group_for_shard(&groups, 2).unwrap();
    assert_eq!(cg.len(), 2);
    let ids: Vec<u64> = cg.iter().map(|g| g.id).collect();
    assert_eq!(ids, vec![1, 2]);
}

#[test]
fn group_action_waits_for_enough_nodes() {
    // two nodes cannot seat a single node-disjoint group of three replicas
    let a = Allocator::new(3);
    let nodes = vec![node(1, 0), node(2, 0)];
    let groups: Vec<GroupDesc> = vec![];
    assert!(matches!(
        a.compute_group_action(&nodes, &groups).unwrap(),
        GroupAction::Noop
    ));
}

#[test]
fn group_action_with_replica_factor_one() {
    // every node should host two single-replica groups: ceil(2 * (1 + 1) / 1)
    let a = Allocator::new(1);
    let nodes = vec![node(1, 0), node(2, 0)];
    let groups: Vec<GroupDesc> = vec![];
    match a.compute_group_action(&nodes, &groups).unwrap() {
        GroupAction::Add(n) => assert_eq!(n, 4),
        GroupAction::Noop => panic!("expected a shortfall"),
    }
}

#[test]
fn allocate_nothing_is_allowed() {
    let a = Allocator::new(3);
    let nodes = vec![node(1, 0)];
    let picked = a.allocate_group_replica(&nodes, &vec![], 0).unwrap();
    assert!(picked.is_empty());
}

#[test]
fn empty_snapshot_needs_nothing() {
    let a = Allocator::new(3);
    let nodes: Vec<NodeDesc> = vec![];
    let groups: Vec<GroupDesc> = vec![];
    assert!(matches!(
        a.compute_group_action(&nodes, &groups).unwrap(),
        GroupAction::Noop
    ));
    assert!(a.compute_replica_action(&nodes, &groups).unwrap().is_empty());
    assert!(a.compute_shard_action(&groups).unwrap().is_empty());
}

#[test]
fn mock_source_is_always_fresh() {
    let p = MockInfoProvider::new();
    assert!(p.refresh_all().is_ok());
    assert!(p.nodes().is_empty());
    assert!(p.groups().is_empty());
}

#[test]
fn source_unavailable_is_a_transient_error() {
    let e = AllocError::SourceUnavailable;
    assert!(matches!(e, AllocError::SourceUnavailable));
}

#[test]
fn node_replicas_lists_replicas_with_owning_groups() {
    let mut p = MockInfoProvider::new();
    p.set_nodes(vec![node(1, 0), node(2, 0)]);
    p.set_groups(vec![group(1, &[(1, 1), (2, 2)]), group(2, &[(3, 2), (4, 1)])]);
    let on1 = p.node_replicas(1);
    let pairs1: Vec<(u64, u64)> = on1.iter().map(|(r, g)| (r.id, *g)).collect();
    assert_eq!(pairs1, vec![(1, 1), (4, 2)]);
    let on2 = p.node_replicas(2);
    let pairs2: Vec<(u64, u64)> = on2.iter().map(|(r, g)| (r.id, *g)).collect();
    assert_eq!(pairs2, vec![(2, 1), (3, 2)]);
    assert!(p.node_replicas(3).is_empty());
    // set_groups keeps the counters in step with the placement
    let ns = p.nodes();
    assert_eq!(ns[0].capacity.replica_count, 2);
    assert_eq!(ns[1].capacity.replica_count, 2);
}
