use vstd::prelude::*;
use crate::protocol::message::Message;
use crate::protocol::types::NodeId;

verus! {

/// Abstraction over message delivery between nodes.
///
/// The runtime calls `send` when the Raft core emits an `Action::Send`.
/// Inbound messages reach the node through a channel that the transport
/// implementation feeds; delivery is fire-and-forget.
pub trait Transport: Send + Sync + 'static {
    /// Deliver `msg` from this node to node `to`.
    fn send(&self, to: NodeId, msg: Message);
}

} // verus!
