use vstd::prelude::*;
use crate::protocol::command::Command;
use crate::protocol::message::{Message, MessageView};
use crate::protocol::types::NodeId;

verus! {

/// An effect that the Raft core asks its runtime to carry out.
#[derive(Debug, Clone)]
pub enum Action {
    /// Send a message to another node.
    Send(NodeId, Message),
    /// Reset (restart) the election timer.
    ResetElectionTimer,
    /// Reset (restart) the heartbeat timer.
    ResetHeartbeatTimer,
    /// Persist current term, voted_for, and log to stable storage.
    PersistState,
    /// Notify the client that this node is not the leader; carries the
    /// best-known current leader id.
    NotLeader(Option<NodeId>),
    /// Apply this command to the state machine.
    ApplyCommand(Command),
}

/// Abstract value of an `Action`.
#[verifier::ext_equal]
pub enum ActionView {
    Send(NodeId, MessageView),
    ResetElectionTimer,
    ResetHeartbeatTimer,
    PersistState,
    NotLeader(Option<NodeId>),
    ApplyCommand(Command),
}

impl View for Action {
    type V = ActionView;

    open spec fn view(&self) -> ActionView {
        match self {
            Action::Send(to, m) => ActionView::Send(*to, m@),
            Action::ResetElectionTimer => ActionView::ResetElectionTimer,
            Action::ResetHeartbeatTimer => ActionView::ResetHeartbeatTimer,
            Action::PersistState => ActionView::PersistState,
            Action::NotLeader(l) => ActionView::NotLeader(*l),
            Action::ApplyCommand(c) => ActionView::ApplyCommand(*c),
        }
    }
}

/// The abstract values of a list of actions, in order.
pub open spec fn actions_view(actions: Seq<Action>) -> Seq<ActionView> {
    actions.map_values(|a: Action| a@)
}

} // verus!
