use vstd::prelude::*;
use crate::protocol::action::{actions_view, Action, ActionView};
use crate::protocol::log::last_index;
use crate::protocol::message::{Message, MessageView, RequestVote};
use crate::protocol::types::NodeId;
use crate::raft::model;
use crate::raft::{CandidateState, Raft, Role};

verus! {

broadcast use vstd::std_specs::hash::group_hash_axioms;

impl Raft {
    /// The election timer fired: unless already leader, start a new election
    /// (become candidate, increment the term, vote for self, count the
    /// self-vote) and ask every peer for its vote; a node without peers wins
    /// at once.
    pub fn handle_election_timeout(&mut self) -> (actions: Vec<Action>)
        requires
            old(self)@.role != Role::Leader ==> old(self)@.current_term < u64::MAX,
            old(self)@.role != Role::Leader && old(self)@.peers.len() == 0 ==> last_index(
                old(self)@.log,
            ) < u64::MAX,
        ensures
            (final(self)@, actions_view(actions@)) == model::election_timeout(old(self)@),
    {
        // Do nothing when already leader.
        if self.role == Role::Leader {
            proof { assert(actions_view(Seq::<Action>::empty()) =~= Seq::empty()); }
            return Vec::new();
        }
        self.role = Role::Candidate;
        self.persistent.current_term = self.persistent.current_term + 1;
        self.persistent.voted_for = Some(self.id);
        self.leader_state = None;
        // Start fresh election state; the self-vote is pre-counted.
        let mut state = CandidateState::default();
        state.votes_received.insert(self.id);
        state.votes_granted.insert(self.id);
        self.candidate_state = Some(state);
        proof {
            assert(self@ =~= (model::election_timeout(old(self)@).0) || self.peers@.len() == 0);
        }
        // Single-node cluster: win immediately.
        if self.peers.len() == 0 {
            self.become_leader();
            let a = vec![Action::ResetHeartbeatTimer];
            proof { assert(actions_view(a@) =~= model::election_timeout(old(self)@).1); }
            return a;
        }
        // Restart the election timer and ask every peer for its vote.
        let mut actions = vec![Action::ResetElectionTimer];
        let n = self.peers.len();
        let mut i: usize = 0;
        while i < n
            invariant
                i <= n,
                n == self.peers@.len(),
                actions_view(actions@) =~= seq![ActionView::ResetElectionTimer] + Seq::new(
                    i as nat,
                    |j: int|
                        ActionView::Send(
                            self.peers@[j],
                            MessageView::RequestVote(model::vote_request(self@)),
                        ),
                ),
            decreases n - i,
        {
            let ghost prev = actions@;
            let a = self.create_vote_action(self.peers[i]);
            actions.push(a);
            proof {
                assert(actions_view(actions@) =~= actions_view(prev).push(a@));
            }
            i = i + 1;
        }
        proof { assert(actions_view(actions@) =~= model::election_timeout(old(self)@).1); }
        actions
    }

    fn create_vote_action(&self, peer_id: NodeId) -> (a: Action)
        ensures
            a@ == ActionView::Send(peer_id, MessageView::RequestVote(model::vote_request(self@))),
    {
        let vote = RequestVote {
            term: self.persistent.current_term,
            candidate_id: self.id,
            last_log_index: self.last_log_index(),
            last_log_term: self.last_log_term(),
        };
        Action::Send(peer_id, Message::RequestVote(vote))
    }
}

} // verus!
