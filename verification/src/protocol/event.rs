use vstd::prelude::*;
use crate::protocol::command::Command;
use crate::protocol::message::{Message, MessageView};

verus! {

/// Everything that can drive the Raft state machine forward.
#[derive(Debug, Clone)]
pub enum Event {
    Message(Message),
    ElectionTimeout,
    HeartbeatTimeout,
    ClientRequest(Command),
}

/// Abstract value of an `Event`.
#[verifier::ext_equal]
pub enum EventView {
    Message(MessageView),
    ElectionTimeout,
    HeartbeatTimeout,
    ClientRequest(Command),
}

impl View for Event {
    type V = EventView;

    open spec fn view(&self) -> EventView {
        match self {
            Event::Message(m) => EventView::Message(m@),
            Event::ElectionTimeout => EventView::ElectionTimeout,
            Event::HeartbeatTimeout => EventView::HeartbeatTimeout,
            Event::ClientRequest(c) => EventView::ClientRequest(*c),
        }
    }
}

} // verus!
