use vstd::prelude::*;
use crate::protocol::command::Command;

verus! {

/// Abstraction over the replicated state machine.
///
/// `apply` is called by the node's event loop each time a log entry is
/// committed and ready to be executed, strictly sequentially and in
/// log-index order.
pub trait StateMachine: Send + Sync + 'static {
    fn apply(&mut self, command: Command);
}

} // verus!
