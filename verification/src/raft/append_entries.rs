use vstd::prelude::*;
use crate::protocol::action::{actions_view, Action, ActionView};
use crate::protocol::log::{find_position, first_pos, log_matches_at, LogEntry};
use crate::protocol::message::{AppendEntries, AppendEntriesResponse, Message};
use crate::protocol::types::{LogIndex, NodeId, Term};
use crate::raft::model;
use crate::raft::{quorum_of, Raft, RaftView, Role};

verus! {

/// `log` followed by clones of `entries[from..]`.
pub fn append_from(log: &mut Vec<LogEntry>, entries: &Vec<LogEntry>, from: usize)
    requires
        from <= entries@.len(),
    ensures
        final(log)@ == old(log)@ + entries@.skip(from as int),
{
    let mut j = from;
    while j < entries.len()
        invariant
            from <= j <= entries@.len(),
            log@ =~= old(log)@ + entries@.subrange(from as int, j as int),
        decreases entries.len() - j,
    {
        log.push(entries[j].clone());
        j = j + 1;
    }
    proof {
        assert(entries@.subrange(from as int, j as int) =~= entries@.skip(from as int));
    }
}

/// How many values of `v` are at least `n`.
pub fn count_at_least(v: &Vec<LogIndex>, n: LogIndex) -> (c: usize)
    ensures
        c == model::count_at_least(v@, n),
{
    let mut c: usize = 0;
    let mut i: usize = 0;
    while i < v.len()
        invariant
            i <= v@.len(),
            c <= i,
            c == model::count_at_least(v@.take(i as int), n),
        decreases v.len() - i,
    {
        proof {
            assert(v@.take(i + 1).drop_last() =~= v@.take(i as int));
        }
        if v[i] >= n {
            c = c + 1;
        }
        i = i + 1;
    }
    proof {
        assert(v@.take(i as int) =~= v@);
    }
    c
}

/// Appending one step to the range of applied indices appends its action.
proof fn lemma_apply_actions_step(log: Seq<LogEntry>, from: int, to: int)
    requires
        from <= to,
    ensures
        model::apply_actions(log, from, to + 1) == model::apply_actions(log, from, to) + match
        crate::protocol::log::entry_with_index(log, (to + 1) as LogIndex) {
            Some(e) => seq![ActionView::ApplyCommand(e.command)],
            None => Seq::<ActionView>::empty(),
        },
{
    let prefix = model::apply_actions(log, from, to);
    match crate::protocol::log::entry_with_index(log, (to + 1) as LogIndex) {
        Some(e) => {
            assert(prefix.push(ActionView::ApplyCommand(e.command)) =~= prefix + seq![
                ActionView::ApplyCommand(e.command),
            ]);
        },
        None => {
            assert(prefix =~= prefix + Seq::<ActionView>::empty());
        },
    }
}

impl Raft {
    /// Follower / candidate side: process an incoming `AppendEntries` RPC
    /// (§5.1–§5.3): step down on a higher term, reject a stale leader or a
    /// failed consistency check, otherwise merge the entries, advance the
    /// commit index towards `min(leader_commit, last new index)` (never
    /// back), apply, and reply success with the last new index as matched.
    pub fn handle_append_entries(&mut self, msg: AppendEntries) -> (actions: Vec<Action>)
        ensures
            (final(self)@, actions_view(actions@)) == model::append_entries(old(self)@, msg@),
    {
        // Step down on higher term before anything else (§5.1).
        if msg.term > self.persistent.current_term {
            self.step_down(msg.term);
        }
        // Reject stale leader.
        if msg.term < self.persistent.current_term {
            let a = vec![self.append_entries_response(msg.leader_id, false, 0)];
            proof { assert(actions_view(a@) =~= model::append_entries(old(self)@, msg@).1); }
            return a;
        }
        // A candidate hearing from the current term's leader reverts to follower.
        if self.role == Role::Candidate {
            self.role = Role::Follower;
            self.candidate_state = None;
        }
        // Consistency check (§5.3).
        if !self.log_matches(msg.prev_log_index, msg.prev_log_term) {
            let a = vec![self.append_entries_response(msg.leader_id, false, 0)];
            proof { assert(actions_view(a@) =~= model::append_entries(old(self)@, msg@).1); }
            return a;
        }
        // We know who the leader is.
        self.known_leader = Some(msg.leader_id);
        // Reconcile incoming entries with the existing log.
        let ghost log0 = self.persistent.log@;
        let ghost pre = self@;
        let mut i: usize = 0;
        while i < msg.entries.len()
            invariant_except_break
                i <= msg.entries@.len(),
                self.persistent.log@ == log0,
                self@ == pre,
                model::reconcile(log0, msg.entries@, 0) == model::reconcile(
                    log0,
                    msg.entries@,
                    i as int,
                ),
            ensures
                self@ == (RaftView { log: model::reconcile(log0, msg.entries@, 0), ..pre }),
            decreases msg.entries.len() - i,
        {
            match find_position(&self.persistent.log, msg.entries[i].index) {
                Some(pos) => {
                    if self.persistent.log[pos].term != msg.entries[i].term {
                        // Conflict: drop this entry and everything after it.
                        self.persistent.log.truncate(pos);
                        append_from(&mut self.persistent.log, &msg.entries, i);
                        proof {
                            assert(self.persistent.log@ =~= log0.take(pos as int)
                                + msg.entries@.skip(i as int));
                        }
                        break;
                    }
                    i = i + 1;
                },
                None => {
                    // Entry is beyond our log — append it and all remaining.
                    append_from(&mut self.persistent.log, &msg.entries, i);
                    break;
                },
            }
        }
        // Advance commit index (§5.3); it never moves back.
        let n = msg.entries.len();
        let last_new_index = if n == 0 {
            msg.prev_log_index
        } else {
            msg.entries[n - 1].index
        };
        if msg.leader_commit > self.volatile.commit_index {
            let target = if msg.leader_commit <= last_new_index {
                msg.leader_commit
            } else {
                last_new_index
            };
            if target > self.volatile.commit_index {
                self.volatile.commit_index = target;
            }
        }
        let ghost s3 = self@;
        // Apply any newly committed entries.
        let apply_actions = self.apply_committed_entries();
        let mut actions = vec![
            Action::ResetElectionTimer,
            self.append_entries_response(msg.leader_id, true, last_new_index),
        ];
        let ghost head = actions@;
        let mut apply_actions = apply_actions;
        actions.append(&mut apply_actions);
        proof {
            assert(actions_view(actions@) =~= actions_view(head) + model::apply_committed(s3).1);
            assert(actions_view(head) =~= seq![
                ActionView::ResetElectionTimer,
                model::append_reply(self@, msg.leader_id, true, model::last_new_index(msg@)),
            ]);
        }
        actions
    }

    /// Leader side: process a peer's reply to `AppendEntries`: step down on a
    /// higher term; ignore stale, out-of-role or unknown-peer replies; on
    /// failure back `next_index` up by one (floor 1); on success move the
    /// peer's indices forward (never back) and try to advance the commit index.
    pub fn handle_append_entries_response(&mut self, msg: AppendEntriesResponse) -> (actions: Vec<
        Action,
    >)
        requires
            model::reply_fits(old(self)@, msg),
            !model::response_overflows(old(self)@, msg),
        ensures
            (final(self)@, actions_view(actions@)) == model::append_entries_response(
                old(self)@,
                msg,
            ),
    {
        if msg.term > self.persistent.current_term {
            self.step_down(msg.term);
            proof { assert(actions_view(Seq::<Action>::empty()) =~= Seq::empty()); }
            return Vec::new();
        }
        if msg.term < self.persistent.current_term {
            proof { assert(actions_view(Seq::<Action>::empty()) =~= Seq::empty()); }
            return Vec::new();
        }
        if self.role != Role::Leader {
            proof { assert(actions_view(Seq::<Action>::empty()) =~= Seq::empty()); }
            return Vec::new();
        }
        let peer_index = match self.peer_position(msg.from) {
            Some(p) => p,
            None => {
                proof { assert(actions_view(Seq::<Action>::empty()) =~= Seq::empty()); }
                return Vec::new();
            },
        };
        if self.leader_state.is_none() {
            proof { assert(actions_view(Seq::<Action>::empty()) =~= Seq::empty()); }
            return Vec::new();
        }
        let mut ls = self.leader_state.take().unwrap();
        if !msg.success {
            // Log inconsistency: back up next_index by one (floor at 1).
            let old_next = ls.next_index[peer_index];
            let next = if old_next <= 1 { 1 } else { old_next - 1 };
            ls.next_index.set(peer_index, next);
            self.leader_state = Some(ls);
            proof {
                assert(self@ =~= model::append_entries_response(old(self)@, msg).0);
                assert(actions_view(Seq::<Action>::empty()) =~= Seq::empty());
            }
            return Vec::new();
        }
        // Success: only advance — never go backwards.
        if msg.match_index > ls.match_index[peer_index] {
            ls.match_index.set(peer_index, msg.match_index);
            ls.next_index.set(peer_index, msg.match_index + 1);
        }
        self.leader_state = Some(ls);
        self.try_advance_commit_index()
    }

    /// Advance `commit_index` to the highest N above it whose entry has the
    /// current term and is replicated on a quorum (self included), then
    /// return `ApplyCommand` for every newly committed entry.
    pub fn try_advance_commit_index(&mut self) -> (actions: Vec<Action>)
        ensures
            (final(self)@, actions_view(actions@)) == model::try_advance_commit(old(self)@),
    {
        let new_commit = self.commit_candidate();
        if new_commit > self.volatile.commit_index {
            self.volatile.commit_index = new_commit;
        }
        self.apply_committed_entries()
    }

    /// The index `try_advance_commit_index` commits up to.
    fn commit_candidate(&self) -> (n: LogIndex)
        ensures
            n == model::commit_scan(
                self@.log,
                self@.log.len() as int,
                self@.commit_index,
                self@.current_term,
                model::peer_matches(self@),
                quorum_of(self@.peers.len()),
            ),
    {
        let current_term = self.persistent.current_term;
        let current_commit = self.volatile.commit_index;
        let quorum = self.quorum();
        let ghost matches = model::peer_matches(self@);
        let mut k = self.persistent.log.len();
        while k > 0
            invariant
                k <= self@.log.len(),
                quorum == quorum_of(self@.peers.len()),
                current_term == self@.current_term,
                current_commit == self@.commit_index,
                matches == model::peer_matches(self@),
                model::commit_scan(
                    self@.log,
                    self@.log.len() as int,
                    current_commit,
                    current_term,
                    matches,
                    quorum as nat,
                ) == model::commit_scan(
                    self@.log,
                    k as int,
                    current_commit,
                    current_term,
                    matches,
                    quorum as nat,
                ),
            decreases k,
        {
            let index = self.persistent.log[k - 1].index;
            if index <= current_commit {
                return current_commit;
            }
            if self.persistent.log[k - 1].term == current_term {
                let replicated = match &self.leader_state {
                    Some(ls) => count_at_least(&ls.match_index, index),
                    None => 0,
                };
                if replicated >= quorum - 1 {
                    return index;
                }
            }
            k = k - 1;
        }
        current_commit
    }

    /// True if our log holds an entry at `index` with term `term`, or if
    /// `index == 0` (the empty-prefix base case).
    pub fn log_matches(&self, index: LogIndex, term: Term) -> (res: bool)
        ensures
            res == log_matches_at(self@.log, index, term),
    {
        if index == 0 {
            return true;
        }
        let mut j: usize = 0;
        while j < self.persistent.log.len()
            invariant
                j <= self@.log.len(),
                forall|q: int|
                    0 <= q < j ==> !(#[trigger] self@.log[q].index == index && self@.log[q].term
                        == term),
            decreases self.persistent.log.len() - j,
        {
            if self.persistent.log[j].index == index && self.persistent.log[j].term == term {
                return true;
            }
            j = j + 1;
        }
        false
    }

    /// Emit `ApplyCommand` for every entry in `(last_applied, commit_index]`
    /// and advance `last_applied`.
    pub fn apply_committed_entries(&mut self) -> (actions: Vec<Action>)
        ensures
            (final(self)@, actions_view(actions@)) == model::apply_committed(old(self)@),
    {
        let mut actions: Vec<Action> = Vec::new();
        let ghost start = self.volatile.last_applied;
        while self.volatile.last_applied < self.volatile.commit_index
            invariant
                start <= self.volatile.last_applied,
                self.volatile.last_applied > start ==> self.volatile.last_applied
                    <= self.volatile.commit_index,
                self@ == (RaftView { last_applied: self.volatile.last_applied, ..old(self)@ }),
                start == old(self)@.last_applied,
                actions_view(actions@) == model::apply_actions(
                    self@.log,
                    start as int,
                    self.volatile.last_applied as int,
                ),
            decreases self.volatile.commit_index - self.volatile.last_applied,
        {
            let ghost prev = actions@;
            proof {
                lemma_apply_actions_step(self@.log, start as int, self.volatile.last_applied as int);
            }
            self.volatile.last_applied = self.volatile.last_applied + 1;
            let target = self.volatile.last_applied;
            match find_position(&self.persistent.log, target) {
                Some(p) => {
                    actions.push(Action::ApplyCommand(self.persistent.log[p].command.clone()));
                    proof {
                        assert(actions_view(actions@) =~= actions_view(prev).push(
                            ActionView::ApplyCommand(self@.log[p as int].command),
                        ));
                    }
                },
                None => {},
            }
        }
        proof {
            if start >= old(self)@.commit_index {
                assert(self@ =~= old(self)@);
                assert(model::apply_actions(self@.log, start as int, start as int) =~= Seq::empty());
            }
        }
        actions
    }

    fn append_entries_response(&self, leader_id: NodeId, success: bool, matched: LogIndex) -> (a: Action)
        ensures
            a@ == model::append_reply(self@, leader_id, success, matched),
    {
        Action::Send(
            leader_id,
            Message::AppendEntriesResponse(
                AppendEntriesResponse {
                    term: self.persistent.current_term,
                    success,
                    from: self.id,
                    match_index: if success { matched } else { 0 },
                },
            ),
        )
    }

    /// Position of `id` in `peers`, if present.
    pub(crate) fn peer_position(&self, id: NodeId) -> (res: Option<usize>)
        ensures
            match res {
                Some(p) => model::peer_pos(self@.peers, id) == Some(p as int),
                None => model::peer_pos(self@.peers, id) is None,
            },
    {
        let mut j: usize = 0;
        while j < self.peers.len()
            invariant
                j <= self.peers@.len(),
                forall|q: int| 0 <= q < j ==> #[trigger] self.peers@[q] != id,
            decreases self.peers.len() - j,
        {
            if self.peers[j] == id {
                proof { model::lemma_peer_pos_found(self@.peers, id, j as int); }
                return Some(j);
            }
            j = j + 1;
        }
        proof { model::lemma_peer_pos_absent(self@.peers, id); }
        None
    }
}

} // verus!
