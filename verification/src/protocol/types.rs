use vstd::prelude::*;

verus! {

/// Logical identity of a node in the cluster.
pub type NodeId = u64;

/// Raft term number.
pub type Term = u64;

/// Position of an entry in the replicated log (the first entry has index 1).
pub type LogIndex = u64;

} // verus!
