//! Balancing behaviour over apply-and-recompute rounds: idempotence on a
//! balanced cluster, the no-colocation invariant, shard conservation, and
//! convergence within a bound set by the initial imbalance.

use cluster_allocator::allocator::{
    Allocator, GroupAction, ReallocateShard, ReplicaAction, ShardAction,
};
use cluster_allocator::apply::apply_replica_migration;
use cluster_allocator::desc::{GroupDesc, NodeCapacity, NodeDesc, ReplicaDesc, ReplicaRole, ShardDesc};
use cluster_allocator::sim::MockInfoProvider;

fn node(id: u64, replica_count: u64) -> NodeDesc {
    NodeDesc {
        id,
        addr: "".into(),
        capacity: NodeCapacity { cpu_nums: 4, replica_count, leader_count: 0 },
    }
}

fn group(id: u64, replica_nodes: &[(u64, u64)]) -> GroupDesc {
    GroupDesc {
        id,
        epoch: 0,
        shards: vec![],
        replicas: replica_nodes
            .iter()
            .map(|&(rid, nid)| ReplicaDesc { id: rid, node_id: nid, role: ReplicaRole::Voter })
            .collect(),
    }
}

fn no_colocation(groups: &[GroupDesc]) -> bool {
    groups.iter().all(|g| {
        let mut ids: Vec<u64> = g.replicas.iter().map(|r| r.node_id).collect();
        ids.sort();
        ids.windows(2).all(|w| w[0] != w[1])
    })
}

fn all_shard_ids(groups: &[GroupDesc]) -> Vec<u64> {
    let mut ids: Vec<u64> = groups
        .iter()
        .flat_map(|g| g.shards.iter().map(|s| s.id))
        .collect();
    ids.sort();
    ids
}

#[test]
fn balanced_cluster_is_idempotent() {
    let a = Allocator::new(3);
    let mut p = MockInfoProvider::new();
    p.set_nodes(vec![node(1, 0), node(2, 0), node(3, 0)]);
    p.set_groups(vec![
        group(1, &[(1, 1), (2, 2), (3, 3)]),
        group(2, &[(4, 1), (5, 2), (6, 3)]),
        group(3, &[(7, 1), (8, 2), (9, 3)]),
        group(4, &[(10, 1), (11, 2), (12, 3)]),
    ]);
    for _ in 0..3 {
        let nodes = p.nodes();
        let groups = p.groups();
        assert!(matches!(
            a.compute_group_action(&nodes, &groups).unwrap(),
            GroupAction::Noop
        ));
        assert!(a.compute_replica_action(&nodes, &groups).unwrap().is_empty());
        assert!(a.compute_shard_action(&groups).unwrap().is_empty());
    }
}

#[test]
fn rebalancing_converges_within_the_imbalance_bound() {
    // One empty node beside two nodes with three replicas each (spec's worked
    // imbalance): each round moves one replica, so the number of rounds is
    // bounded by the initial spread times the node count.
    let a = Allocator::new(3);
    let mut p = MockInfoProvider::new();
    p.set_nodes(vec![node(1, 0), node(2, 0), node(3, 0)]);
    p.set_groups(vec![
        group(1, &[(1, 1), (2, 2)]),
        group(2, &[(3, 1), (4, 2)]),
        group(3, &[(5, 1), (6, 2)]),
    ]);

    let bound = 3 * 3; // initial spread of three replicas, three nodes
    let mut rounds = 0;
    loop {
        let acts = a
            .compute_replica_action(&p.nodes(), &p.groups())
            .unwrap();
        if acts.is_empty() {
            break;
        }
        match &acts[0] {
            ReplicaAction::Migrate(m) => p.move_replica(m.source_replica, m.target_node.id),
            ReplicaAction::Noop => unreachable!(),
        }
        assert!(no_colocation(&p.groups()));
        rounds += 1;
        assert!(rounds <= bound, "balancer did not converge");
    }
    // every node ended within one replica of every other
    let loads: Vec<u64> = p.nodes().iter().map(|n| n.capacity.replica_count).collect();
    let hi = *loads.iter().max().unwrap();
    let lo = *loads.iter().min().unwrap();
    assert!(hi - lo <= 1);
}

#[test]
fn applied_migrations_never_colocate() {
    let a = Allocator::new(3);
    let mut nodes = vec![node(1, 0), node(2, 0), node(3, 0), node(4, 0)];
    let mut groups = vec![
        group(1, &[(1, 1), (2, 2), (3, 3)]),
        group(2, &[(4, 1), (5, 2), (6, 3)]),
        group(3, &[(7, 1), (8, 2), (9, 3)]),
    ];
    // keep counters in step by recounting through the mock
    let mut p = MockInfoProvider::new();
    p.set_nodes(nodes.clone());
    p.set_groups(groups.clone());
    nodes = p.nodes();
    groups = p.groups();
    assert!(no_colocation(&groups));
    let mut steps = 0;
    loop {
        let acts = a.compute_replica_action(&nodes, &groups).unwrap();
        if acts.is_empty() {
            break;
        }
        match &acts[0] {
            ReplicaAction::Migrate(m) => {
                apply_replica_migration(&mut groups, m);
                assert!(no_colocation(&groups));
                p.set_nodes(nodes.clone());
                p.set_groups(groups.clone());
                nodes = p.nodes();
                groups = p.groups();
            }
            ReplicaAction::Noop => unreachable!(),
        }
        steps += 1;
        assert!(steps <= 16, "balancer did not converge");
    }
}

#[test]
fn shard_migrations_conserve_the_shard_set() {
    let a = Allocator::new(3);
    let mut p = MockInfoProvider::new();
    p.set_nodes(vec![node(1, 0), node(2, 0), node(3, 0)]);
    let mut g1 = group(1, &[(1, 1), (2, 2), (3, 3)]);
    for id in [1u64, 4, 7] {
        g1.shards.push(ShardDesc { id });
    }
    let mut g2 = group(2, &[(4, 1), (5, 2), (6, 3)]);
    for id in [2u64, 5, 8] {
        g2.shards.push(ShardDesc { id });
    }
    let mut g3 = group(3, &[(7, 1), (8, 2), (9, 3)]);
    for id in [3u64, 6, 9] {
        g3.shards.push(ShardDesc { id });
    }
    let g4 = group(4, &[(10, 1), (11, 2), (12, 3)]);
    p.set_groups(vec![g1, g2, g3, g4]);

    let before = all_shard_ids(&p.groups());
    assert_eq!(before, (1..=9).collect::<Vec<u64>>());

    let mut rounds = 0;
    loop {
        let acts = a.compute_shard_action(&p.groups()).unwrap();
        if acts.is_empty() {
            break;
        }
        match &acts[0] {
            ShardAction::Migrate(ReallocateShard {
                shard,
                source_group,
                target_group,
            }) => {
                p.move_shards(*source_group, *target_group, *shard);
            }
            ShardAction::Noop => unreachable!(),
        }
        assert_eq!(all_shard_ids(&p.groups()), before);
        rounds += 1;
        assert!(rounds <= 9, "shard balancer did not converge");
    }
    let counts: Vec<usize> = p.groups().iter().map(|g| g.shards.len()).collect();
    let hi = *counts.iter().max().unwrap();
    let lo = *counts.iter().min().unwrap();
    assert!(hi - lo <= 1);
    assert_eq!(counts.iter().sum::<usize>(), 9);
}

#[test]
fn shard_balancer_moves_lowest_shard_from_fullest_to_emptiest() {
    let a = Allocator::new(3);
    let mut g1 = group(1, &[(1, 1)]);
    for id in [9u64, 2, 5] {
        g1.shards.push(ShardDesc { id });
    }
    let g5 = group(5, &[(2, 2)]);
    let g6 = group(6, &[(3, 3)]);
    let groups = vec![g1, g5, g6];
    let acts = a.compute_shard_action(&groups).unwrap();
    assert_eq!(acts.len(), 1);
    match &acts[0] {
        ShardAction::Migrate(m) => {
            assert_eq!(m.shard, 2); // lowest shard id owned by the fullest group
            assert_eq!(m.source_group, 1);
            assert_eq!(m.target_group, 5); // emptiest, lower id on the tie
        }
        ShardAction::Noop => unreachable!(),
    }
}

#[test]
fn replica_balancer_drains_fullest_into_emptiest() {
    let a = Allocator::new(3);
    let nodes = vec![node(1, 3), node(2, 1), node(3, 1)];
    let groups = vec![
        group(1, &[(1, 1), (2, 2)]),
        group(2, &[(3, 1), (4, 3)]),
        group(3, &[(5, 1)]),
    ];
    let acts = a.compute_replica_action(&nodes, &groups).unwrap();
    assert_eq!(acts.len(), 1);
    match &acts[0] {
        ReplicaAction::Migrate(m) => {
            assert_eq!(m.source_node, 1);
            assert_eq!(m.target_node.id, 2); // emptiest, lower id on the tie
            assert_eq!(m.group, 2); // first group with a replica on 1 and none on 2
            assert_eq!(m.source_replica, 3);
        }
        ReplicaAction::Noop => unreachable!(),
    }
}
