//! Descriptors of the cluster topology: nodes, groups, replicas and shards.
//!
//! These are the plain values a metadata snapshot is made of. Each descriptor
//! implements `Clone` by hand so that the clone is provably equal, field for
//! field, to the value it was made from.

use vstd::prelude::*;

verus! {

/// The role a replica plays inside its group's consensus protocol.
#[derive(Clone, Copy, PartialEq, Eq, Structural)]
pub enum ReplicaRole {
    Voter,
    Learner,
}

/// One copy of a group, hosted on exactly one node.
pub struct ReplicaDesc {
    pub id: u64,
    pub node_id: u64,
    pub role: ReplicaRole,
}

impl Clone for ReplicaDesc {
    fn clone(&self) -> (r: Self)
        ensures
            r == *self,
    {
        ReplicaDesc { id: self.id, node_id: self.node_id, role: self.role }
    }
}

/// A contiguous slice of a collection's keyspace, owned by exactly one group
/// at any instant.
pub struct ShardDesc {
    pub id: u64,
}

impl Clone for ShardDesc {
    fn clone(&self) -> (r: Self)
        ensures
            r == *self,
    {
        ShardDesc { id: self.id }
    }
}

/// Load counters of a node, as recorded in the snapshot. The counters are
/// maintained by the metadata authority and must reflect the snapshot's
/// replica placement.
pub struct NodeCapacity {
    pub cpu_nums: u64,
    pub replica_count: u64,
    pub leader_count: u64,
}

impl Clone for NodeCapacity {
    fn clone(&self) -> (r: Self)
        ensures
            r == *self,
    {
        NodeCapacity {
            cpu_nums: self.cpu_nums,
            replica_count: self.replica_count,
            leader_count: self.leader_count,
        }
    }
}

/// A storage process that can host replicas.
pub struct NodeDesc {
    pub id: u64,
    pub addr: String,
    pub capacity: NodeCapacity,
}

impl Clone for NodeDesc {
    fn clone(&self) -> (r: Self)
        ensures
            r == *self,
    {
        NodeDesc { id: self.id, addr: self.addr.clone(), capacity: self.capacity.clone() }
    }
}

/// A replicated unit of storage: a consensus-replicated set of replicas
/// holding a set of shards. The epoch increases on every membership change.
pub struct GroupDesc {
    pub id: u64,
    pub epoch: u64,
    pub shards: Vec<ShardDesc>,
    pub replicas: Vec<ReplicaDesc>,
}

/// The mathematical value of a [`GroupDesc`]: the same fields with the
/// vectors abstracted to sequences.
pub struct GroupView {
    pub id: u64,
    pub epoch: u64,
    pub shards: Seq<ShardDesc>,
    pub replicas: Seq<ReplicaDesc>,
}

impl View for GroupDesc {
    type V = GroupView;

    open spec fn view(&self) -> GroupView {
        GroupView { id: self.id, epoch: self.epoch, shards: self.shards@, replicas: self.replicas@ }
    }
}

/// The sequence of group values a vector of group descriptors stands for.
pub open spec fn views_of_groups(gs: Seq<GroupDesc>) -> Seq<GroupView> {
    gs.map_values(|g: GroupDesc| g@)
}

impl Clone for GroupDesc {
    fn clone(&self) -> (r: Self)
        ensures
            r@ == self@,
    {
        let mut shards: Vec<ShardDesc> = Vec::new();
        let mut i: usize = 0;
        while i < self.shards.len()
            invariant
                i <= self.shards.len(),
                shards@ =~= self.shards@.take(i as int),
            decreases self.shards.len() - i,
        {
            shards.push(self.shards[i].clone());
            i = i + 1;
        }
        let mut replicas: Vec<ReplicaDesc> = Vec::new();
        let mut j: usize = 0;
        while j < self.replicas.len()
            invariant
                j <= self.replicas.len(),
                replicas@ =~= self.replicas@.take(j as int),
            decreases self.replicas.len() - j,
        {
            replicas.push(self.replicas[j].clone());
            j = j + 1;
        }
        proof {
            assert(shards@ =~= self.shards@);
            assert(replicas@ =~= self.replicas@);
        }
        GroupDesc { id: self.id, epoch: self.epoch, shards, replicas }
    }
}

} // verus!
