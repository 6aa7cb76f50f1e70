use vstd::prelude::*;
use crate::protocol::log::LogEntry;
use crate::protocol::types::{LogIndex, NodeId, Term};

verus! {

/// Invoked by a candidate to gather votes (§5.2).
#[derive(Debug, Clone, Copy, PartialEq, Eq)]
pub struct RequestVote {
    pub term: Term,
    pub candidate_id: NodeId,
    pub last_log_index: LogIndex,
    pub last_log_term: Term,
}

/// Reply to a `RequestVote`.
#[derive(Debug, Clone, Copy, PartialEq, Eq)]
pub struct RequestVoteResponse {
    pub term: Term,
    pub vote_granted: bool,
    pub vote_from: NodeId,
}

/// Invoked by the leader to replicate log entries; also used as heartbeat (§5.3).
#[derive(Debug, Clone)]
pub struct AppendEntries {
    pub term: Term,
    pub leader_id: NodeId,
    pub prev_log_index: LogIndex,
    pub prev_log_term: Term,
    pub entries: Vec<LogEntry>,
    pub leader_commit: LogIndex,
}

/// Reply to an `AppendEntries`.
#[derive(Debug, Clone, Copy, PartialEq, Eq)]
pub struct AppendEntriesResponse {
    pub term: Term,
    pub success: bool,
    pub from: NodeId,
    pub match_index: LogIndex,
}

/// Every message exchanged between nodes.
#[derive(Debug, Clone)]
pub enum Message {
    RequestVote(RequestVote),
    RequestVoteResponse(RequestVoteResponse),
    AppendEntries(AppendEntries),
    AppendEntriesResponse(AppendEntriesResponse),
}

/// Abstract value of an `AppendEntries` message: the entries as a sequence.
#[verifier::ext_equal]
pub struct AppendEntriesView {
    pub term: Term,
    pub leader_id: NodeId,
    pub prev_log_index: LogIndex,
    pub prev_log_term: Term,
    pub entries: Seq<LogEntry>,
    pub leader_commit: LogIndex,
}

/// Abstract value of a `Message`.
#[verifier::ext_equal]
pub enum MessageView {
    RequestVote(RequestVote),
    RequestVoteResponse(RequestVoteResponse),
    AppendEntries(AppendEntriesView),
    AppendEntriesResponse(AppendEntriesResponse),
}

impl View for AppendEntries {
    type V = AppendEntriesView;

    open spec fn view(&self) -> AppendEntriesView {
        AppendEntriesView {
            term: self.term,
            leader_id: self.leader_id,
            prev_log_index: self.prev_log_index,
            prev_log_term: self.prev_log_term,
            entries: self.entries@,
            leader_commit: self.leader_commit,
        }
    }
}

impl View for Message {
    type V = MessageView;

    open spec fn view(&self) -> MessageView {
        match self {
            Message::RequestVote(m) => MessageView::RequestVote(*m),
            Message::RequestVoteResponse(m) => MessageView::RequestVoteResponse(*m),
            Message::AppendEntries(m) => MessageView::AppendEntries(m@),
            Message::AppendEntriesResponse(m) => MessageView::AppendEntriesResponse(*m),
        }
    }
}

} // verus!
