//! A full bootstrap-and-rebalance simulation: one node grows to four, groups
//! are added on demand, replicas and shards are migrated until the cluster is
//! balanced.

use cluster_allocator::allocator::{
    Allocator, GroupAction, ReallocateReplica, ReallocateShard, ReplicaAction, ShardAction,
};
use cluster_allocator::desc::{GroupDesc, NodeCapacity, NodeDesc, ReplicaDesc, ReplicaRole};
use cluster_allocator::sim::MockInfoProvider;

const REPLICA_PER_GROUP: u64 = 3;

fn node(id: u64, replica_count: u64, leader_count: u64) -> NodeDesc {
    NodeDesc {
        id,
        addr: "".into(),
        capacity: NodeCapacity { cpu_nums: 4, replica_count, leader_count },
    }
}

#[test]
fn sim_boostrap_join_node_balance() {
    let mut p = MockInfoProvider::new();
    let a = Allocator::new(REPLICA_PER_GROUP);

    println!("1. boostrap and no need rebalance");
    p.set_groups(vec![GroupDesc {
        id: 1,
        epoch: 0,
        shards: vec![],
        replicas: vec![ReplicaDesc { id: 1, node_id: 1, role: ReplicaRole::Voter }],
    }]);
    p.set_nodes(vec![node(1, 1, 1)]);

    let act = a.compute_group_action(&p.nodes(), &p.groups()).unwrap();
    assert!(matches!(act, GroupAction::Noop));

    println!("2. two node joined");
    let mut nodes = p.nodes();
    nodes.extend_from_slice(&[node(2, 0, 0), node(3, 0, 0)]);
    p.set_nodes(nodes);

    println!("3. group0 be repaired");
    p.set_groups(vec![GroupDesc {
        id: 1,
        epoch: 0,
        shards: vec![],
        replicas: vec![
            ReplicaDesc { id: 1, node_id: 1, role: ReplicaRole::Voter },
            ReplicaDesc { id: 2, node_id: 2, role: ReplicaRole::Voter },
            ReplicaDesc { id: 3, node_id: 3, role: ReplicaRole::Voter },
        ],
    }]);

    let mut group_id_gen: u64 = 2;
    let mut replica_id_gen: u64 = 3;

    let act = a.compute_group_action(&p.nodes(), &p.groups()).unwrap();
    match act {
        GroupAction::Add(n) => {
            assert!(matches!(n, REPLICA_PER_GROUP));
            for _ in 0..n {
                let nodes = a
                    .allocate_group_replica(&p.nodes(), &vec![], REPLICA_PER_GROUP)
                    .unwrap();
                println!(
                    "alloc group {} in {:?}",
                    group_id_gen,
                    nodes.iter().map(|n| n.id).collect::<Vec<u64>>()
                );
                let mut groups = p.groups();
                let mut replicas = Vec::new();
                for n in nodes {
                    replicas.push(ReplicaDesc {
                        id: replica_id_gen,
                        node_id: n.id,
                        role: ReplicaRole::Voter,
                    });
                    replica_id_gen += 1;
                }
                groups.push(GroupDesc { id: group_id_gen, epoch: 0, shards: vec![], replicas });
                p.set_groups(groups);
                group_id_gen += 1;
            }
        }
        _ => unreachable!(),
    }
    println!("4. group alloc works and group & replicas balanced");
    let act = a.compute_group_action(&p.nodes(), &p.groups()).unwrap();
    assert!(matches!(act, GroupAction::Noop));
    let ract = a.compute_replica_action(&p.nodes(), &p.groups()).unwrap();
    assert!(ract.is_empty());

    println!("5. assign shard in groups");
    let cg = a.place_group_for_shard(&p.groups(), 9).unwrap();
    for id in 0..9 {
        let group = cg.get(id % cg.len()).unwrap();
        p.assign_shard(group.id);
        println!(
            "assign shard to group {}, prev_shard_cnt: {}",
            group.id,
            group.shards.len()
        );
    }

    println!("6. node 4 joined");
    let mut nodes = p.nodes();
    nodes.extend_from_slice(&[node(4, 0, 0)]);
    p.set_nodes(nodes);

    println!("7. balance group for new node");
    let act = a.compute_group_action(&p.nodes(), &p.groups()).unwrap();
    match act {
        GroupAction::Add(n) => {
            assert!(matches!(n, 2));
            for _ in 0..n {
                let nodes = a
                    .allocate_group_replica(&p.nodes(), &vec![], REPLICA_PER_GROUP)
                    .unwrap();
                println!(
                    "alloc group {} in {:?}",
                    group_id_gen,
                    nodes.iter().map(|n| n.id).collect::<Vec<u64>>()
                );
                let mut groups = p.groups();
                let mut replicas = Vec::new();
                for n in nodes {
                    replicas.push(ReplicaDesc {
                        id: replica_id_gen,
                        node_id: n.id,
                        role: ReplicaRole::Voter,
                    });
                    replica_id_gen += 1;
                }
                groups.push(GroupDesc { id: group_id_gen, epoch: 0, shards: vec![], replicas });
                p.set_groups(groups);
                group_id_gen += 1;
            }
        }
        _ => unreachable!(),
    }

    // cluster group balanced.
    let act = a.compute_group_action(&p.nodes(), &p.groups()).unwrap();
    assert!(matches!(act, GroupAction::Noop));

    println!("8. balance replica between nodes");
    let racts = a.compute_replica_action(&p.nodes(), &p.groups()).unwrap();
    assert!(!racts.is_empty());
    for act in &racts {
        match act {
            ReplicaAction::Migrate(ReallocateReplica {
                group,
                source_node: _,
                source_replica,
                target_node,
            }) => {
                println!(
                    "move group {} replica {} to {}",
                    group, source_replica, target_node.id
                );
                p.move_replica(*source_replica, target_node.id)
            }
            ReplicaAction::Noop => unreachable!(),
        }
    }
    let racts = a.compute_replica_action(&p.nodes(), &p.groups()).unwrap();
    assert!(!racts.is_empty());
    for act in &racts {
        match act {
            ReplicaAction::Migrate(ReallocateReplica {
                group,
                source_node: _,
                source_replica,
                target_node,
            }) => {
                println!(
                    "move group {} replica {} to {}",
                    group, source_replica, target_node.id
                );
                p.move_replica(*source_replica, target_node.id)
            }
            ReplicaAction::Noop => unreachable!(),
        }
    }
    let racts = a.compute_replica_action(&p.nodes(), &p.groups()).unwrap();
    assert!(racts.is_empty());

    println!("9. balance shards between groups");
    let sact = a.compute_shard_action(&p.groups()).unwrap();
    assert!(!sact.is_empty());
    for act in &sact {
        match act {
            ShardAction::Migrate(ReallocateShard {
                shard,
                source_group,
                target_group,
            }) => {
                println!(
                    "move shard {} from {} to {}",
                    shard, source_group, target_group
                );
                p.move_shards(
                    source_group.to_owned(),
                    target_group.to_owned(),
                    shard.to_owned(),
                );
            }
            ShardAction::Noop => unreachable!(),
        }
    }
    let sact = a.compute_shard_action(&p.groups()).unwrap();
    assert!(!sact.is_empty());
    for act in &sact {
        match act {
            ShardAction::Migrate(ReallocateShard {
                shard,
                source_group,
                target_group,
            }) => {
                println!(
                    "move shard {} from {} to {}",
                    shard, source_group, target_group
                );
                p.move_shards(
                    source_group.to_owned(),
                    target_group.to_owned(),
                    shard.to_owned(),
                );
            }
            ShardAction::Noop => unreachable!(),
        }
    }
    let sact = a.compute_shard_action(&p.groups()).unwrap();
    assert!(sact.is_empty());

    println!("done");
}
