use vstd::prelude::*;
use crate::protocol::action::{actions_view, Action, ActionView};
use crate::protocol::log::{find_position, LogEntry};
use crate::protocol::message::{AppendEntries, Message, MessageView};
use crate::protocol::types::{LogIndex, Term};
use crate::raft::model;
use crate::raft::{Raft, Role};

verus! {

impl Raft {
    /// The heartbeat timer fired. A leader sends every peer an
    /// `AppendEntries` carrying the entries from that peer's `next_index` on
    /// (empty when it is up to date) and resets the heartbeat timer; any
    /// other node does nothing. The node's state is left unchanged.
    pub fn handle_heartbeat_timeout(&mut self) -> (actions: Vec<Action>)
        requires
            model::heartbeat_fits(old(self)@),
        ensures
            (final(self)@, actions_view(actions@)) == model::heartbeat_timeout(old(self)@),
    {
        if self.role != Role::Leader {
            proof { assert(actions_view(Seq::<Action>::empty()) =~= Seq::empty()); }
            return Vec::new();
        }
        let mut actions = vec![Action::ResetHeartbeatTimer];
        let peer_count = self.peers.len();
        let mut i: usize = 0;
        while i < peer_count
            invariant
                i <= peer_count,
                peer_count == self.peers@.len(),
                model::heartbeat_fits(self@),
                self@.role == Role::Leader,
                actions_view(actions@) =~= seq![ActionView::ResetHeartbeatTimer] + Seq::new(
                    i as nat,
                    |j: int|
                        ActionView::Send(
                            self.peers@[j],
                            MessageView::AppendEntries(model::append_for_peer(self@, j)),
                        ),
                ),
            decreases peer_count - i,
        {
            let ghost prev = actions@;
            let action = self.append_entries_for_peer(i);
            actions.push(action);
            proof {
                assert(actions_view(actions@) =~= actions_view(prev).push(action@));
            }
            i = i + 1;
        }
        proof { assert(actions_view(actions@) =~= model::heartbeat_timeout(old(self)@).1); }
        actions
    }

    /// The `AppendEntries` for the peer at position `peer_index`, wrapped in a send.
    fn append_entries_for_peer(&self, peer_index: usize) -> (a: Action)
        requires
            peer_index < self@.peers.len(),
            self@.role == Role::Leader,
            model::heartbeat_fits(self@),
        ensures
            a@ == ActionView::Send(
                self@.peers[peer_index as int],
                MessageView::AppendEntries(model::append_for_peer(self@, peer_index as int)),
            ),
    {
        let peer_id = self.peers[peer_index];
        let next_index = match &self.leader_state {
            Some(ls) => ls.next_index[peer_index],
            None => 1,
        };
        let (prev_log_index, prev_log_term) = self.prev_log_info(next_index);
        let entries = self.entries_from(next_index);
        let msg = AppendEntries {
            term: self.persistent.current_term,
            leader_id: self.id,
            prev_log_index,
            prev_log_term,
            entries,
            leader_commit: self.volatile.commit_index,
        };
        proof {
            assert(msg@ =~= model::append_for_peer(self@, peer_index as int));
        }
        Action::Send(peer_id, Message::AppendEntries(msg))
    }

    /// Clones of the log entries whose index is at least `next_index`, in log order.
    fn entries_from(&self, next_index: LogIndex) -> (entries: Vec<LogEntry>)
        ensures
            entries@ == self@.log.filter(model::from_index(next_index)),
    {
        let mut entries: Vec<LogEntry> = Vec::new();
        let mut j: usize = 0;
        while j < self.persistent.log.len()
            invariant
                j <= self@.log.len(),
                entries@ == self@.log.take(j as int).filter(model::from_index(next_index)),
            decreases self.persistent.log.len() - j,
        {
            proof {
                reveal(Seq::filter);
                let t = self@.log.take(j + 1);
                assert(t.drop_last() =~= self@.log.take(j as int));
                assert(t.last() == self@.log[j as int]);
                assert(t.filter(model::from_index(next_index)) == if model::from_index(next_index)(
                    t.last(),
                ) {
                    t.drop_last().filter(model::from_index(next_index)).push(t.last())
                } else {
                    t.drop_last().filter(model::from_index(next_index))
                });
            }
            if self.persistent.log[j].index >= next_index {
                entries.push(self.persistent.log[j].clone());
            }
            j = j + 1;
        }
        proof {
            assert(self@.log.take(j as int) =~= self@.log);
        }
        entries
    }

    /// `(prev_log_index, prev_log_term)` for the entry just before `next_index`;
    /// `(0, 0)` when `next_index <= 1`.
    fn prev_log_info(&self, next_index: LogIndex) -> (r: (LogIndex, Term))
        ensures
            r == model::prev_info(self@.log, next_index),
    {
        if next_index <= 1 {
            return (0, 0);
        }
        let prev_index = next_index - 1;
        let prev_term = match find_position(&self.persistent.log, prev_index) {
            Some(p) => self.persistent.log[p].term,
            None => 0,
        };
        (prev_index, prev_term)
    }
}

} // verus!
