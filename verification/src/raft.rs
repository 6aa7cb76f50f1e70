use vstd::prelude::*;
use std::collections::HashSet;
use crate::protocol::log::{last_index, last_term, LogEntry};
use crate::protocol::types::{LogIndex, NodeId, Term};

pub mod model;
pub mod step;
pub mod election;
pub mod vote;
pub mod append_entries;
pub mod heartbeat;
pub mod client;
pub mod laws;
pub mod cluster;
pub mod log_matching;
pub mod commitment;
pub mod commit_step;
pub mod safety;
pub mod log_facts;

verus! {

broadcast use vstd::std_specs::hash::group_hash_axioms;

/// The role a node currently plays.
#[derive(Debug, Clone, Copy, PartialEq, Eq, Structural)]
pub enum Role {
    Follower,
    Candidate,
    Leader,
}

/// Persistent state — must be saved to stable storage before responding to RPCs.
#[derive(Debug, Clone)]
pub struct PersistentState {
    /// latest term server has seen
    pub current_term: Term,
    /// candidateId that received vote in current term (or none)
    pub voted_for: Option<NodeId>,
    /// each entry contains a command for the state machine and the term in
    /// which the leader received it (first index is 1)
    pub log: Vec<LogEntry>,
}

impl Default for PersistentState {
    fn default() -> (s: Self)
        ensures
            s.current_term == 0,
            s.voted_for is None,
            s.log@.len() == 0,
    {
        PersistentState { current_term: 0, voted_for: None, log: Vec::new() }
    }
}

/// Volatile election state — only meaningful while role == Candidate.
#[derive(Debug)]
pub struct CandidateState {
    /// All peers from which a response (grant or reject) has been received.
    pub votes_received: HashSet<NodeId>,
    /// Peers that granted their vote.
    pub votes_granted: HashSet<NodeId>,
}

impl Default for CandidateState {
    fn default() -> (s: Self)
        ensures
            s.votes_received@ == Set::<NodeId>::empty(),
            s.votes_granted@ == Set::<NodeId>::empty(),
    {
        CandidateState { votes_received: HashSet::new(), votes_granted: HashSet::new() }
    }
}

impl CandidateState {
    /// Returns true if the number of granted votes meets or exceeds `quorum`.
    pub fn has_majority(&self, quorum: usize) -> (res: bool)
        ensures
            res == (self.votes_granted@.len() >= quorum),
    {
        self.votes_granted.len() >= quorum
    }
}

/// Volatile state — reset on every startup.
#[derive(Debug, Clone)]
pub struct VolatileState {
    /// index of highest log entry known to be committed
    pub commit_index: LogIndex,
    /// index of highest log entry applied to state machine
    pub last_applied: LogIndex,
}

impl Default for VolatileState {
    fn default() -> (s: Self)
        ensures
            s.commit_index == 0,
            s.last_applied == 0,
    {
        VolatileState { commit_index: 0, last_applied: 0 }
    }
}

/// Leader-only volatile state — reset whenever a new leader is elected.
#[derive(Debug, Clone)]
pub struct LeaderState {
    /// next_index[i] — next log index to send to peers[i]
    pub next_index: Vec<LogIndex>,
    /// match_index[i] — highest log index known replicated on peers[i]
    pub match_index: Vec<LogIndex>,
}

/// Core Raft state machine.
///
/// `peers` excludes `id`. All indexing into `leader_state` vectors uses the
/// position of the peer in `peers`.
pub struct Raft {
    pub id: NodeId,
    pub peers: Vec<NodeId>,
    pub role: Role,
    pub known_leader: Option<NodeId>,
    pub persistent: PersistentState,
    pub volatile: VolatileState,
    pub leader_state: Option<LeaderState>,
    pub candidate_state: Option<CandidateState>,
}

/// Abstract value of `LeaderState`.
#[verifier::ext_equal]
pub struct LeaderView {
    pub next_index: Seq<LogIndex>,
    pub match_index: Seq<LogIndex>,
}

/// Abstract value of `CandidateState`.
#[verifier::ext_equal]
pub struct CandidateView {
    pub votes_received: Set<NodeId>,
    pub votes_granted: Set<NodeId>,
}

/// Abstract value of a whole `Raft` node.
#[verifier::ext_equal]
pub struct RaftView {
    pub id: NodeId,
    pub peers: Seq<NodeId>,
    pub role: Role,
    pub known_leader: Option<NodeId>,
    pub current_term: Term,
    pub voted_for: Option<NodeId>,
    pub log: Seq<LogEntry>,
    pub commit_index: LogIndex,
    pub last_applied: LogIndex,
    pub leader: Option<LeaderView>,
    pub candidate: Option<CandidateView>,
}

impl View for LeaderState {
    type V = LeaderView;

    open spec fn view(&self) -> LeaderView {
        LeaderView { next_index: self.next_index@, match_index: self.match_index@ }
    }
}

impl View for CandidateState {
    type V = CandidateView;

    open spec fn view(&self) -> CandidateView {
        CandidateView { votes_received: self.votes_received@, votes_granted: self.votes_granted@ }
    }
}

impl View for Raft {
    type V = RaftView;

    open spec fn view(&self) -> RaftView {
        RaftView {
            id: self.id,
            peers: self.peers@,
            role: self.role,
            known_leader: self.known_leader,
            current_term: self.persistent.current_term,
            voted_for: self.persistent.voted_for,
            log: self.persistent.log@,
            commit_index: self.volatile.commit_index,
            last_applied: self.volatile.last_applied,
            leader: match self.leader_state {
                Some(ls) => Some(ls@),
                None => None,
            },
            candidate: match self.candidate_state {
                Some(cs) => Some(cs@),
                None => None,
            },
        }
    }
}

/// Votes needed to win in a cluster of `n_peers + 1` nodes: ⌊(N+1)/2⌋ + 1.
pub open spec fn quorum_of(n_peers: nat) -> nat {
    (n_peers + 1) / 2 + 1
}

impl RaftView {
    /// The leader vectors cover every peer position (indexing them cannot fail).
    pub open spec fn leader_fits(self) -> bool {
        match self.leader {
            Some(ls) => ls.next_index.len() >= self.peers.len() && ls.match_index.len()
                >= self.peers.len(),
            None => true,
        }
    }

    /// The node's own candidate and peer list are consistent with `Raft::new`.
    pub open spec fn fresh(self, id: NodeId, peers: Seq<NodeId>) -> bool {
        &&& self.id == id
        &&& self.peers == peers
        &&& self.role == Role::Follower
        &&& self.known_leader is None
        &&& self.commit_index == 0
        &&& self.last_applied == 0
        &&& self.leader is None
        &&& self.candidate is None
    }
}

impl Raft {
    /// A follower in term 0 with an empty log.
    pub fn new(id: NodeId, peers: Vec<NodeId>) -> (r: Self)
        requires
            !peers@.contains(id),
        ensures
            r@.fresh(id, peers@),
            r@.current_term == 0,
            r@.voted_for is None,
            r@.log.len() == 0,
    {
        Raft {
            id,
            peers,
            role: Role::Follower,
            known_leader: None,
            persistent: PersistentState::default(),
            volatile: VolatileState::default(),
            leader_state: None,
            candidate_state: None,
        }
    }

    /// Restore from persisted state after a crash.
    pub fn restore(id: NodeId, peers: Vec<NodeId>, persistent: PersistentState) -> (r: Self)
        requires
            !peers@.contains(id),
        ensures
            r@.fresh(id, peers@),
            r@.current_term == persistent.current_term,
            r@.voted_for == persistent.voted_for,
            r@.log == persistent.log@,
    {
        let mut r = Self::new(id, peers);
        r.persistent = persistent;
        r
    }

    /// Quorum size: how many votes (including self) are needed to win.
    ///
    /// With N peers (excluding self), cluster size = N+1, majority = ⌊(N+1)/2⌋ + 1.
    pub fn quorum(&self) -> (q: usize)
        ensures
            q == quorum_of(self.peers@.len()),
    {
        let n = self.peers.len();
        n / 2 + n % 2 + 1
    }

    /// Index of the last log entry, or 0 if the log is empty.
    pub fn last_log_index(&self) -> (i: LogIndex)
        ensures
            i == last_index(self.persistent.log@),
    {
        let n = self.persistent.log.len();
        if n == 0 { 0 } else { self.persistent.log[n - 1].index }
    }

    /// Term of the last log entry, or 0 if the log is empty.
    pub fn last_log_term(&self) -> (t: Term)
        ensures
            t == last_term(self.persistent.log@),
    {
        let n = self.persistent.log.len();
        if n == 0 { 0 } else { self.persistent.log[n - 1].term }
    }
}

} // verus!
