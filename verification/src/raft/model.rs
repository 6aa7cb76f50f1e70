//! The abstract transition function of a Raft node: for each kind of input,
//! the node state and the action list it produces, over `RaftView`.
use vstd::prelude::*;
use crate::protocol::action::ActionView;
use crate::protocol::command::Command;
use crate::protocol::event::EventView;
use crate::protocol::log::{
    entry_with_index, first_pos, last_index, last_term, log_matches_at, LogEntry,
};
use crate::protocol::message::{
    AppendEntriesResponse, AppendEntriesView, MessageView, RequestVote, RequestVoteResponse,
};
use crate::protocol::types::{LogIndex, NodeId, Term};
use crate::raft::{quorum_of, CandidateView, LeaderView, RaftView, Role};

verus! {

// ── shared transitions ───────────────────────────────────────────────────────

/// Adopt a newer term: become a follower with no vote, no election state,
/// no leader state and no known leader.
pub open spec fn step_down(s: RaftView, new_term: Term) -> RaftView {
    RaftView {
        current_term: new_term,
        role: Role::Follower,
        voted_for: None,
        candidate: None,
        leader: None,
        known_leader: None,
        ..s
    }
}

/// Win the election: lead, forget the votes, and start every peer at
/// `next_index = last log index + 1`, `match_index = 0`.
pub open spec fn become_leader(s: RaftView) -> RaftView {
    let next = (last_index(s.log) + 1) as LogIndex;
    RaftView {
        role: Role::Leader,
        known_leader: Some(s.id),
        candidate: None,
        leader: Some(
            LeaderView {
                next_index: Seq::new(s.peers.len(), |i: int| next),
                match_index: Seq::new(s.peers.len(), |i: int| 0u64),
            },
        ),
        ..s
    }
}

/// The `ApplyCommand` actions for log indices `from+1 ..= to`, each carrying
/// the command of the first entry with that index (indices with no entry
/// produce nothing).
pub open spec fn apply_actions(log: Seq<LogEntry>, from: int, to: int) -> Seq<ActionView>
    decreases to - from,
{
    if to <= from {
        Seq::empty()
    } else {
        let prefix = apply_actions(log, from, to - 1);
        match entry_with_index(log, to as LogIndex) {
            Some(e) => prefix.push(ActionView::ApplyCommand(e.command)),
            None => prefix,
        }
    }
}

/// Apply every committed but not yet applied entry.
pub open spec fn apply_committed(s: RaftView) -> (RaftView, Seq<ActionView>) {
    if s.last_applied < s.commit_index {
        (
            RaftView { last_applied: s.commit_index, ..s },
            apply_actions(s.log, s.last_applied as int, s.commit_index as int),
        )
    } else {
        (s, Seq::empty())
    }
}

/// How many of `matches` are at least `n`.
pub open spec fn count_at_least(matches: Seq<LogIndex>, n: LogIndex) -> nat
    decreases matches.len(),
{
    if matches.len() == 0 {
        0
    } else {
        count_at_least(matches.drop_last(), n) + if matches.last() >= n { 1nat } else { 0nat }
    }
}

/// Scanning `log[0..k]` from the back, the highest index above `commit`
/// whose entry has term `term` and is held by a quorum (self plus the
/// peers counted in `matches`); `commit` when there is none.
pub open spec fn commit_scan(
    log: Seq<LogEntry>,
    k: int,
    commit: LogIndex,
    term: Term,
    matches: Seq<LogIndex>,
    quorum: nat,
) -> LogIndex
    decreases k,
{
    if k <= 0 || k > log.len() {
        commit
    } else {
        let e = log[k - 1];
        if e.index <= commit {
            commit
        } else if e.term != term {
            commit_scan(log, k - 1, commit, term, matches, quorum)
        } else if 1 + count_at_least(matches, e.index) >= quorum {
            e.index
        } else {
            commit_scan(log, k - 1, commit, term, matches, quorum)
        }
    }
}

/// The match indices a leader counts (none when it has no leader state).
pub open spec fn peer_matches(s: RaftView) -> Seq<LogIndex> {
    match s.leader {
        Some(ls) => ls.match_index,
        None => Seq::empty(),
    }
}

/// Leader commit rule (§5.3, §5.4) followed by applying what became committed.
pub open spec fn try_advance_commit(s: RaftView) -> (RaftView, Seq<ActionView>) {
    let n = commit_scan(
        s.log,
        s.log.len() as int,
        s.commit_index,
        s.current_term,
        peer_matches(s),
        quorum_of(s.peers.len()),
    );
    let s1 = if n > s.commit_index { RaftView { commit_index: n, ..s } } else { s };
    apply_committed(s1)
}

// ── election timeout ─────────────────────────────────────────────────────────

/// The `RequestVote` a candidate in state `s` sends.
pub open spec fn vote_request(s: RaftView) -> RequestVote {
    RequestVote {
        term: s.current_term,
        candidate_id: s.id,
        last_log_index: last_index(s.log),
        last_log_term: last_term(s.log),
    }
}

pub open spec fn election_timeout(s: RaftView) -> (RaftView, Seq<ActionView>) {
    if s.role == Role::Leader {
        (s, Seq::empty())
    } else {
        let s1 = RaftView {
            role: Role::Candidate,
            current_term: (s.current_term + 1) as Term,
            voted_for: Some(s.id),
            leader: None,
            candidate: Some(
                CandidateView {
                    votes_received: set![s.id],
                    votes_granted: set![s.id],
                },
            ),
            ..s
        };
        if s.peers.len() == 0 {
            (become_leader(s1), seq![ActionView::ResetHeartbeatTimer])
        } else {
            (
                s1,
                seq![ActionView::ResetElectionTimer] + Seq::new(
                    s.peers.len(),
                    |i: int| ActionView::Send(s.peers[i], MessageView::RequestVote(vote_request(s1))),
                ),
            )
        }
    }
}

// ── RequestVote ──────────────────────────────────────────────────────────────

/// The candidate's log is at least as up-to-date as `log` (§5.4.1).
pub open spec fn candidate_up_to_date(log: Seq<LogEntry>, m: RequestVote) -> bool {
    m.last_log_term > last_term(log) || (m.last_log_term == last_term(log) && m.last_log_index
        >= last_index(log))
}

pub open spec fn vote_reply(s: RaftView, to: NodeId, granted: bool) -> ActionView {
    ActionView::Send(
        to,
        MessageView::RequestVoteResponse(
            RequestVoteResponse { term: s.current_term, vote_granted: granted, vote_from: s.id },
        ),
    )
}

pub open spec fn request_vote(s: RaftView, m: RequestVote) -> (RaftView, Seq<ActionView>) {
    let s1 = if m.term > s.current_term { step_down(s, m.term) } else { s };
    if m.term < s1.current_term {
        (s1, seq![vote_reply(s1, m.candidate_id, false)])
    } else if s1.voted_for is Some && s1.voted_for != Some(m.candidate_id) {
        (s1, seq![vote_reply(s1, m.candidate_id, false)])
    } else if !candidate_up_to_date(s1.log, m) {
        (s1, seq![vote_reply(s1, m.candidate_id, false)])
    } else {
        let s2 = RaftView { voted_for: Some(m.candidate_id), ..s1 };
        (s2, seq![ActionView::ResetElectionTimer, vote_reply(s2, m.candidate_id, true)])
    }
}

// ── RequestVoteResponse ──────────────────────────────────────────────────────

/// The candidate state a response is counted into (empty when missing).
pub open spec fn tally(s: RaftView) -> CandidateView {
    match s.candidate {
        Some(c) => c,
        None => CandidateView { votes_received: Set::empty(), votes_granted: Set::empty() },
    }
}

pub open spec fn vote_response(s: RaftView, m: RequestVoteResponse) -> (RaftView, Seq<ActionView>) {
    if m.term > s.current_term {
        (step_down(s, m.term), Seq::empty())
    } else if m.term < s.current_term {
        (s, Seq::empty())
    } else if s.role != Role::Candidate {
        (s, Seq::empty())
    } else if !s.peers.contains(m.vote_from) {
        (s, Seq::empty())
    } else {
        let c = tally(s);
        if c.votes_received.contains(m.vote_from) {
            (RaftView { candidate: Some(c), ..s }, Seq::empty())
        } else {
            let c2 = CandidateView {
                votes_received: c.votes_received.insert(m.vote_from),
                votes_granted: if m.vote_granted {
                    c.votes_granted.insert(m.vote_from)
                } else {
                    c.votes_granted
                },
            };
            let s2 = RaftView { candidate: Some(c2), ..s };
            if c2.votes_granted.len() < quorum_of(s.peers.len()) {
                (s2, Seq::empty())
            } else {
                (become_leader(s2), seq![ActionView::ResetHeartbeatTimer])
            }
        }
    }
}

// ── AppendEntries ────────────────────────────────────────────────────────────

/// Merge `entries[i..]` into `log`: entries already present with the same
/// term are skipped; at the first entry that is missing, the rest is
/// appended; at the first entry whose index holds a different term, the log
/// is cut there and the rest is appended.
pub open spec fn reconcile(log: Seq<LogEntry>, entries: Seq<LogEntry>, i: int) -> Seq<LogEntry>
    decreases entries.len() - i,
{
    if i < 0 || i >= entries.len() {
        log
    } else {
        match first_pos(log, entries[i].index) {
            Some(p) => if log[p].term != entries[i].term {
                log.take(p) + entries.skip(i)
            } else {
                reconcile(log, entries, i + 1)
            },
            None => log + entries.skip(i),
        }
    }
}

/// The reply to an `AppendEntries`; a success reports `matched`, the last
/// index the message made agree with the leader.
pub open spec fn append_reply(s: RaftView, to: NodeId, success: bool, matched: LogIndex) -> ActionView {
    ActionView::Send(
        to,
        MessageView::AppendEntriesResponse(
            AppendEntriesResponse {
                term: s.current_term,
                success,
                from: s.id,
                match_index: if success { matched } else { 0 },
            },
        ),
    )
}

/// Index of the last entry the message carries, or its `prev_log_index`.
pub open spec fn last_new_index(m: AppendEntriesView) -> LogIndex {
    if m.entries.len() == 0 { m.prev_log_index } else { m.entries.last().index }
}

/// The commit index after an accepted `AppendEntries`: raised towards
/// `min(leader_commit, last new index)`, never lowered.
pub open spec fn accepted_commit(commit: LogIndex, m: AppendEntriesView) -> LogIndex {
    let target = if m.leader_commit <= last_new_index(m) {
        m.leader_commit
    } else {
        last_new_index(m)
    };
    if target > commit { target } else { commit }
}

pub open spec fn append_entries(s: RaftView, m: AppendEntriesView) -> (RaftView, Seq<ActionView>) {
    let s1 = if m.term > s.current_term { step_down(s, m.term) } else { s };
    if m.term < s1.current_term {
        (s1, seq![append_reply(s1, m.leader_id, false, 0)])
    } else {
        let s2 = if s1.role == Role::Candidate {
            RaftView { role: Role::Follower, candidate: None, ..s1 }
        } else {
            s1
        };
        if !log_matches_at(s2.log, m.prev_log_index, m.prev_log_term) {
            (s2, seq![append_reply(s2, m.leader_id, false, 0)])
        } else {
            let log3 = reconcile(s2.log, m.entries, 0);
            let commit3 = accepted_commit(s2.commit_index, m);
            let s3 = RaftView {
                known_leader: Some(m.leader_id),
                log: log3,
                commit_index: commit3,
                ..s2
            };
            let (s4, applied) = apply_committed(s3);
            (
                s4,
                seq![
                    ActionView::ResetElectionTimer,
                    append_reply(s4, m.leader_id, true, last_new_index(m)),
                ]
                    + applied,
            )
        }
    }
}

// ── AppendEntriesResponse ────────────────────────────────────────────────────

/// `p` is the first position of `id` in `peers`.
pub open spec fn is_first_peer_pos(peers: Seq<NodeId>, id: NodeId, p: int) -> bool {
    &&& 0 <= p < peers.len()
    &&& peers[p] == id
    &&& forall|q: int| 0 <= q < p ==> #[trigger] peers[q] != id
}

/// Position of `id` in `peers` (the first one), if present.
pub open spec fn peer_pos(peers: Seq<NodeId>, id: NodeId) -> Option<int> {
    if exists|p: int| is_first_peer_pos(peers, id, p) {
        Some(choose|p: int| is_first_peer_pos(peers, id, p))
    } else {
        None
    }
}

pub open spec fn append_entries_response(s: RaftView, m: AppendEntriesResponse) -> (
    RaftView,
    Seq<ActionView>,
) {
    if m.term > s.current_term {
        (step_down(s, m.term), Seq::empty())
    } else if m.term < s.current_term {
        (s, Seq::empty())
    } else if s.role != Role::Leader {
        (s, Seq::empty())
    } else {
        match peer_pos(s.peers, m.from) {
            None => (s, Seq::empty()),
            Some(p) => match s.leader {
                None => (s, Seq::empty()),
                Some(ls) => if !m.success {
                    let old_next = ls.next_index[p];
                    let next = if old_next <= 1 { 1u64 } else { (old_next - 1) as LogIndex };
                    (
                        RaftView {
                            leader: Some(
                                LeaderView { next_index: ls.next_index.update(p, next), ..ls },
                            ),
                            ..s
                        },
                        Seq::empty(),
                    )
                } else {
                    let ls2 = if m.match_index > ls.match_index[p] {
                        LeaderView {
                            match_index: ls.match_index.update(p, m.match_index),
                            next_index: ls.next_index.update(p, (m.match_index + 1) as LogIndex),
                        }
                    } else {
                        ls
                    };
                    try_advance_commit(RaftView { leader: Some(ls2), ..s })
                },
            },
        }
    }
}

// ── heartbeat ────────────────────────────────────────────────────────────────

/// The (index, term) of the entry just before `next`; (0, 0) when `next <= 1`
/// and term 0 when that entry is missing.
pub open spec fn prev_info(log: Seq<LogEntry>, next: LogIndex) -> (LogIndex, Term) {
    if next <= 1 {
        (0, 0)
    } else {
        let prev = (next - 1) as LogIndex;
        (
            prev,
            match entry_with_index(log, prev) {
                Some(e) => e.term,
                None => 0,
            },
        )
    }
}

/// The next index the leader uses for the peer at position `i` (1 without leader state).
pub open spec fn next_for_peer(s: RaftView, i: int) -> LogIndex {
    match s.leader {
        Some(ls) => ls.next_index[i],
        None => 1,
    }
}

/// The `AppendEntries` the leader sends to the peer at position `i`: every
/// log entry from that peer's `next_index` on, in log order.
pub open spec fn append_for_peer(s: RaftView, i: int) -> AppendEntriesView {
    let next = next_for_peer(s, i);
    AppendEntriesView {
        term: s.current_term,
        leader_id: s.id,
        prev_log_index: prev_info(s.log, next).0,
        prev_log_term: prev_info(s.log, next).1,
        entries: s.log.filter(from_index(next)),
        leader_commit: s.commit_index,
    }
}

pub open spec fn heartbeat_timeout(s: RaftView) -> (RaftView, Seq<ActionView>) {
    if s.role != Role::Leader {
        (s, Seq::empty())
    } else {
        (
            s,
            seq![ActionView::ResetHeartbeatTimer] + Seq::new(
                s.peers.len(),
                |i: int| ActionView::Send(s.peers[i], MessageView::AppendEntries(append_for_peer(s, i))),
            ),
        )
    }
}

// ── client request ───────────────────────────────────────────────────────────

pub open spec fn client_request(s: RaftView, cmd: Command) -> (RaftView, Seq<ActionView>) {
    if s.role != Role::Leader {
        (s, seq![ActionView::NotLeader(s.known_leader)])
    } else {
        let entry = LogEntry {
            index: (last_index(s.log) + 1) as LogIndex,
            term: s.current_term,
            command: cmd,
        };
        let s1 = RaftView { log: s.log.push(entry), ..s };
        if s.peers.len() == 0 {
            let (s2, applied) = try_advance_commit(s1);
            (s2, seq![ActionView::ResetHeartbeatTimer] + applied)
        } else {
            (s1, seq![ActionView::ResetHeartbeatTimer])
        }
    }
}

// ── step ─────────────────────────────────────────────────────────────────────

/// The whole transition function: what `Raft::step` does with `e` in state `s`.
pub open spec fn step(s: RaftView, e: EventView) -> (RaftView, Seq<ActionView>) {
    match e {
        EventView::Message(MessageView::RequestVote(m)) => request_vote(s, m),
        EventView::Message(MessageView::RequestVoteResponse(m)) => vote_response(s, m),
        EventView::Message(MessageView::AppendEntries(m)) => append_entries(s, m),
        EventView::Message(MessageView::AppendEntriesResponse(m)) => append_entries_response(s, m),
        EventView::ElectionTimeout => election_timeout(s),
        EventView::HeartbeatTimeout => heartbeat_timeout(s),
        EventView::ClientRequest(c) => client_request(s, c),
    }
}

} // verus!

verus! {

/// A success reply whose `match_index + 1` would overflow on the path that
/// stores it.
pub open spec fn response_overflows(s: RaftView, m: AppendEntriesResponse) -> bool {
    &&& m.term == s.current_term
    &&& s.role == Role::Leader
    &&& m.success
    &&& m.match_index == u64::MAX
    &&& peer_pos(s.peers, m.from) is Some
    &&& s.leader is Some
    &&& m.match_index > s.leader->0.match_index[peer_pos(s.peers, m.from)->0]
}

pub proof fn lemma_peer_pos_found(peers: Seq<NodeId>, id: NodeId, p: int)
    requires
        is_first_peer_pos(peers, id, p),
    ensures
        peer_pos(peers, id) == Some(p),
{
    let c = choose|c: int| is_first_peer_pos(peers, id, c);
    assert(is_first_peer_pos(peers, id, c));
    if c < p {
        assert(peers[c] != id);
    } else if p < c {
        assert(peers[p] != id);
    }
}

pub proof fn lemma_peer_pos_absent(peers: Seq<NodeId>, id: NodeId)
    requires
        forall|q: int| 0 <= q < peers.len() ==> #[trigger] peers[q] != id,
    ensures
        peer_pos(peers, id) is None,
{
    if exists|p: int| is_first_peer_pos(peers, id, p) {
        let p = choose|p: int| is_first_peer_pos(peers, id, p);
        assert(peers[p] != id);
    }
}

} // verus!

verus! {

/// Entries whose index is at least `next`.
pub open spec fn from_index(next: LogIndex) -> spec_fn(LogEntry) -> bool {
    |e: LogEntry| e.index >= next
}

/// The vote response makes this candidate the leader.
pub open spec fn wins_election(s: RaftView, m: RequestVoteResponse) -> bool {
    s.role == Role::Candidate && vote_response(s, m).0.role == Role::Leader
}

/// A leader's heartbeat reads `next_index` at every peer position.
pub open spec fn heartbeat_fits(s: RaftView) -> bool {
    (s.role == Role::Leader && s.leader is Some) ==> s.leader->0.next_index.len() >= s.peers.len()
}

/// A leader taking a reply of its term from a known peer reads
/// `next_index` at the peer's position, and `match_index` there too when
/// the reply is a success.
pub open spec fn reply_fits(s: RaftView, m: AppendEntriesResponse) -> bool {
    (m.term == s.current_term && s.role == Role::Leader && peer_pos(s.peers, m.from) is Some
        && s.leader is Some) ==> {
        let p = peer_pos(s.peers, m.from)->0;
        &&& p < s.leader->0.next_index.len()
        &&& m.success ==> p < s.leader->0.match_index.len()
    }
}

/// The inputs on which `step` can run: the leader vectors hold the positions
/// the event reads, and no term or index that the event increments is
/// already at `u64::MAX`.
pub open spec fn step_safe(s: RaftView, e: EventView) -> bool {
    match e {
        EventView::ElectionTimeout => s.role != Role::Leader ==> {
            &&& s.current_term < u64::MAX
            &&& s.peers.len() == 0 ==> last_index(s.log) < u64::MAX
        },
        EventView::ClientRequest(_) => s.role == Role::Leader ==> last_index(s.log) < u64::MAX,
        EventView::Message(MessageView::RequestVoteResponse(m)) => wins_election(s, m)
            ==> last_index(s.log) < u64::MAX,
        EventView::Message(MessageView::AppendEntriesResponse(m)) => reply_fits(s, m)
            && !response_overflows(s, m),
        EventView::HeartbeatTimeout => heartbeat_fits(s),
        _ => true,
    }
}

} // verus!

verus! {

/// The events a running node accepts: those of `step_safe`, except that a
/// candidate whose last log index is `u64::MAX` takes no vote response
/// (winning would overflow `next_index`).
pub open spec fn node_can_step(s: RaftView, e: EventView) -> bool {
    match e {
        EventView::ElectionTimeout => s.role != Role::Leader ==> {
            &&& s.current_term < u64::MAX
            &&& s.peers.len() == 0 ==> last_index(s.log) < u64::MAX
        },
        EventView::ClientRequest(_) => s.role == Role::Leader ==> last_index(s.log) < u64::MAX,
        EventView::Message(MessageView::RequestVoteResponse(m)) => s.role == Role::Candidate
            ==> last_index(s.log) < u64::MAX,
        EventView::Message(MessageView::AppendEntriesResponse(m)) => reply_fits(s, m)
            && !response_overflows(s, m),
        EventView::HeartbeatTimeout => heartbeat_fits(s),
        _ => true,
    }
}

pub proof fn lemma_node_can_step_is_safe(s: RaftView, e: EventView)
    requires
        node_can_step(s, e),
    ensures
        step_safe(s, e),
{
}

} // verus!
