use vstd::prelude::*;
use crate::protocol::action::{actions_view, Action};
use crate::protocol::message::{Message, RequestVote, RequestVoteResponse};
use crate::protocol::types::{LogIndex, NodeId, Term};
use crate::raft::model;
use crate::raft::{CandidateState, LeaderState, Raft, Role};

verus! {

broadcast use vstd::std_specs::hash::group_hash_axioms;

impl Raft {
    /// Handle a `RequestVote` RPC (§5.2, §5.4.1).
    pub fn handle_request_vote(&mut self, msg: RequestVote) -> (actions: Vec<Action>)
        ensures
            (final(self)@, actions_view(actions@)) == model::request_vote(old(self)@, msg),
    {
        // Always handle a higher term first.
        if msg.term > self.persistent.current_term {
            self.step_down(msg.term);
        }
        // Candidate is stale.
        if msg.term < self.persistent.current_term {
            let a = vec![self.vote_response(msg.candidate_id, false)];
            proof { assert(actions_view(a@) =~= model::request_vote(old(self)@, msg).1); }
            return a;
        }
        // Already voted for a different candidate this term.
        if let Some(voted_for) = self.persistent.voted_for {
            if voted_for != msg.candidate_id {
                let a = vec![self.vote_response(msg.candidate_id, false)];
                proof { assert(actions_view(a@) =~= model::request_vote(old(self)@, msg).1); }
                return a;
            }
        }
        // Candidate log must be at least as up-to-date as ours.
        if !self.candidate_log_up_to_date(&msg) {
            let a = vec![self.vote_response(msg.candidate_id, false)];
            proof { assert(actions_view(a@) =~= model::request_vote(old(self)@, msg).1); }
            return a;
        }
        // Grant vote.
        self.persistent.voted_for = Some(msg.candidate_id);
        let a = vec![Action::ResetElectionTimer, self.vote_response(msg.candidate_id, true)];
        proof { assert(actions_view(a@) =~= model::request_vote(old(self)@, msg).1); }
        a
    }

    /// Handle a reply to our `RequestVote` (§5.2).
    pub fn handle_vote_response(&mut self, msg: RequestVoteResponse) -> (actions: Vec<Action>)
        requires
            model::wins_election(old(self)@, msg) ==> crate::protocol::log::last_index(
                old(self)@.log,
            ) < u64::MAX,
        ensures
            (final(self)@, actions_view(actions@)) == model::vote_response(old(self)@, msg),
    {
        // Higher term: step down.
        if msg.term > self.persistent.current_term {
            self.step_down(msg.term);
            proof { assert(actions_view(Seq::<Action>::empty()) =~= Seq::empty()); }
            return Vec::new();
        }
        // Stale response.
        if msg.term < self.persistent.current_term {
            proof { assert(actions_view(Seq::<Action>::empty()) =~= Seq::empty()); }
            return Vec::new();
        }
        // Only candidates process vote responses.
        if self.role != Role::Candidate {
            proof { assert(actions_view(Seq::<Action>::empty()) =~= Seq::empty()); }
            return Vec::new();
        }
        // Reject votes from unknown peers.
        if !self.peers_contain(msg.vote_from) {
            proof { assert(actions_view(Seq::<Action>::empty()) =~= Seq::empty()); }
            return Vec::new();
        }
        let quorum = self.quorum();
        let mut state = match self.candidate_state.take() {
            Some(cs) => cs,
            None => CandidateState::default(),
        };
        // Prevent multiple votes from the same peer.
        if !state.votes_received.insert(msg.vote_from) {
            self.candidate_state = Some(state);
            proof { assert(actions_view(Seq::<Action>::empty()) =~= Seq::empty()); }
            return Vec::new();
        }
        if msg.vote_granted {
            state.votes_granted.insert(msg.vote_from);
        }
        let won = state.has_majority(quorum);
        self.candidate_state = Some(state);
        // If not yet won, continue waiting.
        if !won {
            proof { assert(actions_view(Seq::<Action>::empty()) =~= Seq::empty()); }
            return Vec::new();
        }
        // We won: become leader and initialise replication state.
        self.become_leader();
        let a = vec![Action::ResetHeartbeatTimer];
        proof { assert(actions_view(a@) =~= model::vote_response(old(self)@, msg).1); }
        a
    }

    /// Adopt `new_term` as a follower, dropping vote, election and leader state.
    pub fn step_down(&mut self, new_term: Term)
        ensures
            final(self)@ == model::step_down(old(self)@, new_term),
    {
        self.persistent.current_term = new_term;
        self.role = Role::Follower;
        self.persistent.voted_for = None;
        self.candidate_state = None;
        self.leader_state = None;
        self.known_leader = None;
    }

    /// Returns true if the candidate's log is at least as up-to-date as ours.
    pub fn candidate_log_up_to_date(&self, msg: &RequestVote) -> (res: bool)
        ensures
            res == model::candidate_up_to_date(self@.log, *msg),
    {
        let last_term = self.last_log_term();
        let last_index = self.last_log_index();
        msg.last_log_term > last_term || (msg.last_log_term == last_term && msg.last_log_index
            >= last_index)
    }

    fn vote_response(&self, candidate_id: NodeId, granted: bool) -> (a: Action)
        ensures
            a@ == model::vote_reply(self@, candidate_id, granted),
    {
        Action::Send(
            candidate_id,
            Message::RequestVoteResponse(
                RequestVoteResponse {
                    term: self.persistent.current_term,
                    vote_granted: granted,
                    vote_from: self.id,
                },
            ),
        )
    }

    /// `id` is one of the peers.
    fn peers_contain(&self, id: NodeId) -> (res: bool)
        ensures
            res == self@.peers.contains(id),
    {
        let mut i: usize = 0;
        while i < self.peers.len()
            invariant
                i <= self.peers.len(),
                forall|q: int| 0 <= q < i ==> self.peers@[q] != id,
            decreases self.peers.len() - i,
        {
            if self.peers[i] == id {
                proof { assert(self.peers@[i as int] == id); }
                return true;
            }
            i = i + 1;
        }
        false
    }

    /// Win the election: become leader with fresh replication state.
    pub fn become_leader(&mut self)
        requires
            crate::protocol::log::last_index(old(self)@.log) < u64::MAX,
        ensures
            final(self)@ == model::become_leader(old(self)@),
    {
        let next: LogIndex = self.last_log_index() + 1;
        let n = self.peers.len();
        let mut next_index: Vec<LogIndex> = Vec::new();
        let mut match_index: Vec<LogIndex> = Vec::new();
        let mut i: usize = 0;
        while i < n
            invariant
                i <= n,
                next_index@ =~= Seq::new(i as nat, |j: int| next),
                match_index@ =~= Seq::new(i as nat, |j: int| 0u64),
            decreases n - i,
        {
            next_index.push(next);
            match_index.push(0);
            i = i + 1;
        }
        self.role = Role::Leader;
        self.known_leader = Some(self.id);
        self.candidate_state = None;
        self.leader_state = Some(LeaderState { next_index, match_index });
    }
}

} // verus!
