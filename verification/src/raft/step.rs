use vstd::prelude::*;
use crate::protocol::action::{actions_view, Action};
use crate::protocol::event::Event;
use crate::protocol::message::Message;
use crate::raft::model;
use crate::protocol::log::last_index;
use crate::protocol::message::AppendEntriesResponse;
use crate::raft::{Raft, Role};

verus! {

impl Raft {
    /// Whether a running node can take `event` (see `model::node_can_step`).
    pub fn can_step(&self, event: &Event) -> (ok: bool)
        ensures
            ok == model::node_can_step(self@, event@),
    {
        match event {
            Event::ElectionTimeout => {
                self.role == Role::Leader || (self.persistent.current_term < u64::MAX && (
                self.peers.len() > 0 || self.last_log_index() < u64::MAX))
            },
            Event::ClientRequest(_) => self.role != Role::Leader || self.last_log_index()
                < u64::MAX,
            Event::Message(Message::RequestVoteResponse(_)) => self.role != Role::Candidate
                || self.last_log_index() < u64::MAX,
            Event::Message(Message::AppendEntriesResponse(m)) => self.reply_fits(m)
                && !self.response_overflows(m),
            Event::HeartbeatTimeout => match &self.leader_state {
                Some(ls) => self.role != Role::Leader || ls.next_index.len() >= self.peers.len(),
                None => true,
            },
            _ => true,
        }
    }

    /// Whether the leader vectors hold the peer position a reply reads.
    fn reply_fits(&self, m: &AppendEntriesResponse) -> (res: bool)
        ensures
            res == model::reply_fits(self@, *m),
    {
        if !(m.term == self.persistent.current_term && self.role == Role::Leader) {
            return true;
        }
        match self.peer_position(m.from) {
            None => true,
            Some(p) => match &self.leader_state {
                None => true,
                Some(ls) => p < ls.next_index.len() && (!m.success || p < ls.match_index.len()),
            },
        }
    }

    fn response_overflows(&self, m: &AppendEntriesResponse) -> (res: bool)
        requires
            model::reply_fits(self@, *m),
        ensures
            res == model::response_overflows(self@, *m),
    {
        if !(m.term == self.persistent.current_term && self.role == Role::Leader && m.success
            && m.match_index == u64::MAX) {
            return false;
        }
        match self.peer_position(m.from) {
            None => false,
            Some(p) => match &self.leader_state {
                None => false,
                Some(ls) => m.match_index > ls.match_index[p],
            },
        }
    }

    /// Step the Raft state machine with an incoming event; returns the
    /// actions (sends, timer resets, applies…) the runtime must carry out.
    pub fn step(&mut self, event: Event) -> (actions: Vec<Action>)
        requires
            model::step_safe(old(self)@, event@),
        ensures
            (final(self)@, actions_view(actions@)) == model::step(old(self)@, event@),
    {
        match event {
            Event::Message(msg) => self.handle_message(msg),
            Event::ElectionTimeout => self.handle_election_timeout(),
            Event::HeartbeatTimeout => self.handle_heartbeat_timeout(),
            Event::ClientRequest(cmd) => self.handle_client_request(cmd),
        }
    }

    fn handle_message(&mut self, msg: Message) -> (actions: Vec<Action>)
        requires
            model::step_safe(old(self)@, crate::protocol::event::EventView::Message(msg@)),
        ensures
            (final(self)@, actions_view(actions@)) == model::step(
                old(self)@,
                crate::protocol::event::EventView::Message(msg@),
            ),
    {
        match msg {
            Message::RequestVote(m) => self.handle_request_vote(m),
            Message::RequestVoteResponse(m) => self.handle_vote_response(m),
            Message::AppendEntries(m) => self.handle_append_entries(m),
            Message::AppendEntriesResponse(m) => self.handle_append_entries_response(m),
        }
    }
}

} // verus!
