//! Placement and rebalancing engine for a sharded, replicated key-value
//! cluster.
//!
//! The allocator is a stateless decision procedure: every public operation is
//! a pure function of a consistent snapshot of the cluster topology (its
//! nodes and replica groups) plus static configuration (the replica factor).
//! It decides when new replica groups are needed, which nodes should host a
//! new group's replicas, and which single replica or shard should migrate
//! next to even out load. The caller (the cluster's metadata authority)
//! applies one proposal at a time and asks again with a fresh snapshot.

pub mod allocator;
pub mod apply;
pub mod desc;
pub mod laws;
pub mod model;
pub mod select;
pub mod sim;
