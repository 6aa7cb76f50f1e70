//! Log Matching (§5.3): when two logs hold an entry with the same index and
//! term, they hold the same entries up to it. Proved for every run of the
//! cluster model, from the history of logs the members have held and the
//! `AppendEntries` messages in flight.
use vstd::prelude::*;
use crate::protocol::action::ActionView;
use crate::protocol::event::EventView;
use crate::protocol::log::{
    entry_with_index, first_pos, last_index, lemma_first_pos_absent, lemma_first_pos_found,
    log_matches_at, LogEntry,
};
use crate::protocol::message::{AppendEntriesView, MessageView};
use crate::protocol::types::{LogIndex, NodeId, Term};
use crate::raft::cluster::{
    enabled, initial, inv, restart, law_invariant_gives_election_safety, law_step_preserves_invariant,
    lemma_apply_actions_no_send, lemma_node_step, lemma_one_quorum_per_term,
    lemma_try_advance_no_send, next, quorum_voted, sends, ClusterView, Packet,
};
use crate::raft::laws::{law_log_is_append_only_outside_append_entries, law_term_never_decreases, lemma_try_advance_frame};
use crate::raft::model::{
    append_entries, append_for_peer, append_reply, apply_committed, from_index, last_new_index,
    next_for_peer, peer_pos, prev_info, reconcile, step, step_down, step_safe, try_advance_commit,
    vote_request,
};
use crate::raft::{LeaderView, RaftView, Role};

verus! {

// ── the property ─────────────────────────────────────────────────────────────

/// Entry `p` of the log carries index `p + 1`, and every term is at least 1.
pub open spec fn indexed(log: Seq<LogEntry>) -> bool {
    forall|p: int| 0 <= p < log.len() ==> (#[trigger] log[p]).index == p + 1 && log[p].term >= 1
}

/// Wherever both logs hold an entry of the same term at the same position,
/// they hold the same entries up to and including it.
pub open spec fn logs_match(a: Seq<LogEntry>, b: Seq<LogEntry>) -> bool {
    forall|p: int|
        #![trigger a[p], b[p]]
        0 <= p < a.len() && p < b.len() && a[p].term == b[p].term ==> a.take(p + 1) == b.take(p + 1)
}

/// Log Matching among the members: logs are indexed by position, and two of
/// them that hold an entry with the same index and term agree up to it.
pub open spec fn log_matching(c: ClusterView) -> bool {
    forall|a: NodeId, b: NodeId|
        #![trigger c.nodes[a], c.nodes[b]]
        c.members.contains(a) && c.members.contains(b) ==> indexed(c.nodes[a].log) && logs_match(
            c.nodes[a].log,
            c.nodes[b].log,
        )
}

// ── the invariant ────────────────────────────────────────────────────────────

/// Node `cr` won term `t` (a quorum voted for it there) and is past its
/// candidacy: it is no candidate in `t`, or has moved on to a later term.
pub open spec fn led_by(c: ClusterView, cr: NodeId, t: Term) -> bool {
    &&& c.members.contains(cr)
    &&& exists|q: Set<NodeId>| #[trigger] quorum_voted(c, q, cr, t)
    &&& (c.nodes[cr].current_term > t || (c.nodes[cr].current_term == t && c.nodes[cr].role
        != Role::Candidate))
}

/// Some member won term `t` and is past its candidacy there.
pub open spec fn term_led(c: ClusterView, t: Term) -> bool {
    exists|cr: NodeId| #[trigger] led_by(c, cr, t)
}

/// An `AppendEntries` carries a piece of a log of the history: its entries
/// are that log after `prev_log_index`, whose entry there has
/// `prev_log_term`; or it names a missing entry (term 0), which no log holds.
pub open spec fn ae_from_history(logs: Set<Seq<LogEntry>>, m: AppendEntriesView) -> bool {
    ||| (m.prev_log_index > 0 && m.prev_log_term == 0)
    ||| exists|y: Seq<LogEntry>|
        #[trigger] logs.contains(y) && m.prev_log_index <= y.len() && m.entries == y.skip(
            m.prev_log_index as int,
        ) && (m.prev_log_index == 0 || y[m.prev_log_index - 1].term == m.prev_log_term)
}

/// An `AppendEntries` in flight went to another node, from a node that won
/// the message's term, and carries a piece of a log of the history.
pub open spec fn ae_ok(c: ClusterView, p: Packet) -> bool {
    match p.2 {
        MessageView::AppendEntries(m) => {
            &&& p.0 != p.1
            &&& exists|q: Set<NodeId>| #[trigger] quorum_voted(c, q, p.0, m.term)
            &&& ae_from_history(c.logs, m)
        },
        _ => true,
    }
}

/// Every member's log is in the history; candidates and leaders are past term 0.
pub open spec fn history_ok(c: ClusterView) -> bool {
    forall|n: NodeId|
        #![trigger c.nodes[n]]
        c.members.contains(n) ==> c.logs.contains(c.nodes[n].log) && (c.nodes[n].role
            != Role::Follower ==> c.nodes[n].current_term >= 1)
}

pub open spec fn history_indexed(c: ClusterView) -> bool {
    forall|x: Seq<LogEntry>| #[trigger] c.logs.contains(x) ==> indexed(x)
}

pub open spec fn history_matches(c: ClusterView) -> bool {
    forall|x: Seq<LogEntry>, y: Seq<LogEntry>|
        #![trigger c.logs.contains(x), c.logs.contains(y)]
        c.logs.contains(x) && c.logs.contains(y) ==> logs_match(x, y)
}

/// Every entry of the history has a term that some member won.
pub open spec fn entries_led(c: ClusterView) -> bool {
    forall|x: Seq<LogEntry>, p: int|
        #![trigger c.logs.contains(x), x[p]]
        c.logs.contains(x) && 0 <= p < x.len() ==> term_led(c, x[p].term)
}

/// A leader holds, at the same position, every entry of its own term.
pub open spec fn leaders_hold_their_term(c: ClusterView) -> bool {
    forall|n: NodeId, x: Seq<LogEntry>, p: int|
        #![trigger c.nodes[n], c.logs.contains(x), x[p]]
        c.members.contains(n) && c.nodes[n].role == Role::Leader && c.logs.contains(x) && 0 <= p
            < x.len() && x[p].term == c.nodes[n].current_term ==> p < c.nodes[n].log.len()
            && c.nodes[n].log[p].term == x[p].term
}

pub open spec fn appends_ok(c: ClusterView) -> bool {
    forall|p: Packet| #[trigger] c.network.contains(p) ==> ae_ok(c, p)
}

pub open spec fn log_inv(c: ClusterView) -> bool {
    &&& history_ok(c)
    &&& history_indexed(c)
    &&& history_matches(c)
    &&& entries_led(c)
    &&& leaders_hold_their_term(c)
    &&& appends_ok(c)
}

// ── facts about indexed logs ─────────────────────────────────────────────────

/// In an indexed log the entry with index `k + 1` is at position `k`.
pub(crate) proof fn lemma_indexed_first_pos(log: Seq<LogEntry>, k: int, idx: LogIndex)
    requires
        indexed(log),
        0 <= k,
        idx == k + 1,
    ensures
        k < log.len() ==> first_pos(log, idx) == Some(k),
        k >= log.len() ==> first_pos(log, idx) is None,
{
    if k < log.len() {
        assert forall|q: int| 0 <= q < k implies #[trigger] log[q].index != idx by {
            assert(log[q].index == q + 1);
        }
        lemma_first_pos_found(log, idx, k);
    } else {
        assert forall|q: int| 0 <= q < log.len() implies #[trigger] log[q].index != idx by {
            assert(log[q].index == q + 1);
        }
        lemma_first_pos_absent(log, idx);
    }
}

/// Where an `AppendEntries` starts reading a leader's log.
pub open spec fn read_from(next: LogIndex, len: int) -> int {
    if next <= 1 {
        0
    } else if next - 1 <= len {
        next - 1
    } else {
        len
    }
}

/// The entries of an indexed log from index `next` on are a suffix of it.
pub(crate) proof fn lemma_filter_is_suffix(log: Seq<LogEntry>, next: LogIndex)
    requires
        indexed(log),
    ensures
        log.filter(from_index(next)) == log.skip(read_from(next, log.len() as int)),
    decreases log.len(),
{
    reveal(Seq::filter);
    if log.len() > 0 {
        let init = log.drop_last();
        assert forall|p: int| 0 <= p < init.len() implies (#[trigger] init[p]).index == p + 1
            && init[p].term >= 1 by {
            assert(init[p] == log[p]);
        }
        lemma_filter_is_suffix(init, next);
        let k0 = read_from(next, init.len() as int);
        let k = read_from(next, log.len() as int);
        assert(log.last().index == log.len());
        if from_index(next)(log.last()) {
            assert(k == k0);
            assert(init.skip(k0).push(log.last()) =~= log.skip(k));
        } else {
            assert(k == log.len());
            assert(init.skip(k0) =~= Seq::<LogEntry>::empty());
            assert(log.skip(k) =~= Seq::<LogEntry>::empty());
        }
    } else {
        assert(log.skip(0) =~= log);
    }
}

/// Merging a piece of log `y` (its entries after position `prev`) into a log
/// `l` that agrees with `y` up to `prev + i` gives `l` back or gives `y`.
proof fn lemma_reconcile_gives_one_of(l: Seq<LogEntry>, y: Seq<LogEntry>, prev: int, i: int)
    requires
        indexed(l),
        indexed(y),
        logs_match(l, y),
        0 <= prev,
        0 <= i,
        prev + i <= l.len(),
        prev + i <= y.len(),
        l.take(prev + i) == y.take(prev + i),
    ensures
        reconcile(l, y.skip(prev), i) == l || reconcile(l, y.skip(prev), i) == y,
    decreases y.len() - prev - i,
{
    let entries = y.skip(prev);
    if i < entries.len() {
        let k = prev + i;
        assert(entries[i] == y[k]);
        lemma_indexed_first_pos(l, k, entries[i].index);
        if k < l.len() {
            if l[k].term != entries[i].term {
                assert(l.take(k) + entries.skip(i) =~= y.take(k) + y.skip(k));
                assert(y.take(k) + y.skip(k) =~= y);
            } else {
                assert(l.take(k + 1) == y.take(k + 1));
                lemma_reconcile_gives_one_of(l, y, prev, i + 1);
            }
        } else {
            assert(l =~= l.take(k));
            assert(l + entries.skip(i) =~= y.take(k) + y.skip(k));
            assert(y.take(k) + y.skip(k) =~= y);
        }
    }
}

// ── what one node's step does to its log, role and sends ─────────────────────

/// An `AppendEntries` keeps the log, or (when it is not stale and its
/// previous entry is present) merges its entries into it; it never makes
/// a leader.
proof fn lemma_append_entries_effect(s: RaftView, m: AppendEntriesView)
    ensures
        ({
            let s2 = append_entries(s, m).0;
            &&& s2.log == s.log || (m.term >= s.current_term && log_matches_at(
                s.log,
                m.prev_log_index,
                m.prev_log_term,
            ) && s2.log == reconcile(s.log, m.entries, 0))
            &&& s2.role == Role::Leader ==> s.role == Role::Leader && s2.current_term
                == s.current_term
        }),
{
}

/// A leader that stays in its term stays the leader.
pub(crate) proof fn lemma_leader_keeps_role(s: RaftView, e: EventView)
    requires
        s.role == Role::Leader,
        step(s, e).0.current_term == s.current_term,
    ensures
        step(s, e).0.role == Role::Leader,
{
    match e {
        EventView::Message(MessageView::AppendEntriesResponse(m)) => {
            if m.term == s.current_term && peer_pos(s.peers, m.from) is Some && s.leader is Some {
                let p = peer_pos(s.peers, m.from)->0;
                let ls = s.leader->0;
                if m.success {
                    let ls2 = if m.match_index > ls.match_index[p] {
                        LeaderView {
                            match_index: ls.match_index.update(p, m.match_index),
                            next_index: ls.next_index.update(p, (m.match_index + 1) as LogIndex),
                        }
                    } else {
                        ls
                    };
                    lemma_try_advance_frame(RaftView { leader: Some(ls2), ..s });
                }
            }
        },
        EventView::ClientRequest(cmd) => {
            if s.peers.len() == 0 {
                let entry = LogEntry {
                    index: (last_index(s.log) + 1) as LogIndex,
                    term: s.current_term,
                    command: cmd,
                };
                lemma_try_advance_frame(RaftView { log: s.log.push(entry), ..s });
            }
        },
        _ => {},
    }
}

/// An `AppendEntries` that a step sends is the leader's message for one of
/// its peers.
pub open spec fn ae_send_ok(a: ActionView, s: RaftView) -> bool {
    match a {
        ActionView::Send(to, MessageView::AppendEntries(m)) => s.role == Role::Leader && exists|j: int|
            0 <= j < s.peers.len() && to == s.peers[j] && m == #[trigger] append_for_peer(s, j),
        _ => true,
    }
}

/// Only a leader's heartbeat sends `AppendEntries`.
pub(crate) proof fn lemma_step_sends_appends_only_on_heartbeat(s: RaftView, e: EventView)
    requires
        step_safe(s, e),
    ensures
        forall|i: int| 0 <= i < step(s, e).1.len() ==> #[trigger] ae_send_ok(step(s, e).1[i], s),
{
    let (s2, acts) = step(s, e);
    match e {
        EventView::Message(MessageView::AppendEntriesResponse(m)) => {
            if m.term == s.current_term && s.role == Role::Leader && peer_pos(s.peers, m.from) is Some
                && s.leader is Some {
                let p = peer_pos(s.peers, m.from)->0;
                let ls = s.leader->0;
                if m.success {
                    let ls2 = if m.match_index > ls.match_index[p] {
                        LeaderView {
                            match_index: ls.match_index.update(p, m.match_index),
                            next_index: ls.next_index.update(p, (m.match_index + 1) as u64),
                        }
                    } else {
                        ls
                    };
                    lemma_try_advance_no_send(RaftView { leader: Some(ls2), ..s });
                }
            }
        },
        EventView::Message(MessageView::AppendEntries(m)) => {
            let s1 = if m.term > s.current_term { step_down(s, m.term) } else { s };
            if m.term >= s1.current_term {
                let s2b = if s1.role == Role::Candidate {
                    RaftView { role: Role::Follower, candidate: None, ..s1 }
                } else {
                    s1
                };
                if log_matches_at(s2b.log, m.prev_log_index, m.prev_log_term) {
                    let commit3 = crate::raft::model::accepted_commit(s2b.commit_index, m);
                    let s3 = RaftView {
                        known_leader: Some(m.leader_id),
                        log: reconcile(s2b.log, m.entries, 0),
                        commit_index: commit3,
                        ..s2b
                    };
                    lemma_apply_actions_no_send(s3.log, s3.last_applied as int, s3.commit_index as int);
                    let applied = apply_committed(s3).1;
                    let all = seq![ActionView::ResetElectionTimer, append_reply(apply_committed(s3).0, m.leader_id, true, crate::raft::model::last_new_index(m))] + applied;
                    assert forall|i: int| 0 <= i < all.len() implies #[trigger] ae_send_ok(all[i], s) by {
                        if i >= 2 {
                            assert(all[i] == applied[i - 2]);
                        }
                    }
                }
            }
        },
        EventView::ClientRequest(cmd) => {
            if s.role == Role::Leader && s.peers.len() == 0 {
                let entry = LogEntry {
                    index: (last_index(s.log) + 1) as u64,
                    term: s.current_term,
                    command: cmd,
                };
                let s1 = RaftView { log: s.log.push(entry), ..s };
                lemma_try_advance_no_send(s1);
                let applied = try_advance_commit(s1).1;
                let all = seq![ActionView::ResetHeartbeatTimer] + applied;
                assert forall|i: int| 0 <= i < all.len() implies #[trigger] ae_send_ok(all[i], s) by {
                    if i >= 1 {
                        assert(all[i] == applied[i - 1]);
                    }
                }
            }
        },
        EventView::ElectionTimeout => {
            if s.role != Role::Leader && s.peers.len() > 0 {
                assert forall|i: int| 0 <= i < acts.len() implies #[trigger] ae_send_ok(acts[i], s) by {
                    if i >= 1 {
                        assert(acts[i] == ActionView::Send(s.peers[i - 1], MessageView::RequestVote(vote_request(s2))));
                    }
                }
            }
        },
        EventView::HeartbeatTimeout => {
            if s.role == Role::Leader {
                assert forall|i: int| 0 <= i < acts.len() implies #[trigger] ae_send_ok(acts[i], s) by {
                    if i >= 1 {
                        assert(acts[i] == ActionView::Send(s.peers[i - 1], MessageView::AppendEntries(append_for_peer(s, i - 1))));
                        assert(0 <= i - 1 < s.peers.len() && s.peers[i - 1] == s.peers[i - 1] && append_for_peer(s, i - 1) == append_for_peer(s, i - 1));
                    }
                }
            }
        },
        _ => {},
    }
}

/// A leader's message for a peer carries a piece of the leader's log.
pub(crate) proof fn lemma_leader_append_is_from_history(s: RaftView, j: int, logs: Set<Seq<LogEntry>>)
    requires
        indexed(s.log),
        logs.contains(s.log),
    ensures
        ae_from_history(logs, append_for_peer(s, j)),
{
    let m = append_for_peer(s, j);
    let next = next_for_peer(s, j);
    lemma_filter_is_suffix(s.log, next);
    if next <= 1 {
        assert(m.prev_log_index == 0);
        assert(logs.contains(s.log) && m.prev_log_index <= s.log.len() && m.entries == s.log.skip(
            m.prev_log_index as int,
        ));
    } else {
        let prev = (next - 1) as LogIndex;
        lemma_indexed_first_pos(s.log, prev - 1, prev);
        if prev <= s.log.len() {
            assert(entry_with_index(s.log, prev) == Some(s.log[prev - 1]));
            assert(logs.contains(s.log) && m.prev_log_index <= s.log.len() && m.entries
                == s.log.skip(m.prev_log_index as int) && s.log[m.prev_log_index - 1].term
                == m.prev_log_term);
        } else {
            assert(entry_with_index(s.log, prev) is None);
            assert(prev_info(s.log, next).1 == 0);
        }
    }
}

// ── one step of the cluster ──────────────────────────────────────────────────

/// The step appended a client's command to the leader's log, in its term.
pub open spec fn pushed(s: RaftView, s2: RaftView, e: EventView) -> bool {
    &&& e is ClientRequest
    &&& s.role == Role::Leader
    &&& s2.role == Role::Leader
    &&& s2.current_term == s.current_term
    &&& s.log.len() < u64::MAX
    &&& s2.log == s.log.push(
        LogEntry {
            index: (s.log.len() + 1) as LogIndex,
            term: s.current_term,
            command: e->ClientRequest_0,
        },
    )
}

/// An accepted `AppendEntries` leaves the log as it was or replaces it with
/// the log of the history the message was cut from; a leader in the
/// message's term never takes one.
proof fn lemma_append_keeps_history(c: ClusterView, s: RaftView, n: NodeId, m: AppendEntriesView)
    requires
        c.logs.contains(s.log),
        history_indexed(c),
        history_matches(c),
        exists|src: NodeId| c.network.contains((src, n, MessageView::AppendEntries(m))),
        appends_ok(c),
        crate::raft::cluster::votes_unique(c),
        c.members.finite(),
        s.role == Role::Leader ==> exists|q: Set<NodeId>| #[trigger] quorum_voted(c, q, n, s.current_term),
    ensures
        ({
            let s2 = append_entries(s, m).0;
            &&& c.logs.contains(s2.log)
            &&& (s.role == Role::Leader && s2.current_term == s.current_term) ==> s2.log == s.log
        }),
{
    let s2 = append_entries(s, m).0;
    lemma_append_entries_effect(s, m);
    assert(indexed(s.log));
    if s2.log != s.log {
        let src = choose|src: NodeId| c.network.contains((src, n, MessageView::AppendEntries(m)));
        assert(ae_ok(c, (src, n, MessageView::AppendEntries(m))));
        let prev = m.prev_log_index;
        if prev > 0 && m.prev_log_term == 0 {
            let p = choose|p: int| 0 <= p < s.log.len() && s.log[p].index == prev && s.log[p].term == m.prev_log_term;
            assert(s.log[p].term >= 1);
        } else {
            let y = choose|y: Seq<LogEntry>|
                #[trigger] c.logs.contains(y) && m.prev_log_index <= y.len() && m.entries == y.skip(
                    m.prev_log_index as int,
                ) && (m.prev_log_index == 0 || y[m.prev_log_index - 1].term == m.prev_log_term);
            assert(indexed(y));
            assert(logs_match(s.log, y));
            if prev == 0 {
                assert(s.log.take(0) =~= y.take(0));
            } else {
                let p = choose|p: int| 0 <= p < s.log.len() && s.log[p].index == prev && s.log[p].term == m.prev_log_term;
                assert(s.log[p].index == p + 1);
                assert(s.log[p].term == y[p].term);
                assert(s.log.take(p + 1) == y.take(p + 1));
            }
            lemma_reconcile_gives_one_of(s.log, y, prev as int, 0);
        }
        if s.role == Role::Leader && s2.current_term == s.current_term {
            assert(m.term == s.current_term);
            let q1 = choose|q: Set<NodeId>| #[trigger] quorum_voted(c, q, src, m.term);
            let q2 = choose|q: Set<NodeId>| #[trigger] quorum_voted(c, q, n, s.current_term);
            lemma_one_quorum_per_term(c, src, q1, n, q2, m.term);
        }
    }
}

/// After a step, a node's log is one of the history, or its own log with a
/// client's command appended while it leads; a leader that stays in its
/// term changes its log only that way.
pub(crate) proof fn lemma_new_log(c: ClusterView, n: NodeId, e: EventView)
    requires
        inv(c),
        log_inv(c),
        enabled(c, n, e),
    ensures
        ({
            let s = c.nodes[n];
            let s2 = step(s, e).0;
            &&& c.logs.contains(s2.log) || pushed(s, s2, e)
            &&& (s.role == Role::Leader && s2.current_term == s.current_term) ==> (s2.log == s.log
                || pushed(s, s2, e))
        }),
{
    let s = c.nodes[n];
    let s2 = step(s, e).0;
    assert(c.members.contains(n));
    assert(c.logs.contains(s.log));
    assert(indexed(s.log));
    match e {
        EventView::Message(MessageView::AppendEntries(m)) => {
            lemma_append_keeps_history(c, s, n, m);
        },
        _ => {
            law_log_is_append_only_outside_append_entries(s, e);
            if s2.log != s.log {
                let cmd = e->ClientRequest_0;
                assert(last_index(s.log) == s.log.len()) by {
                    if s.log.len() > 0 {
                        assert(s.log[s.log.len() - 1].index == s.log.len());
                    }
                }
                let entry = LogEntry {
                    index: (last_index(s.log) + 1) as LogIndex,
                    term: s.current_term,
                    command: cmd,
                };
                if s.peers.len() == 0 {
                    lemma_try_advance_frame(RaftView { log: s.log.push(entry), ..s });
                }
            }
        },
    }
}

/// A member that won a term and is past its candidacy there stays so.
pub(crate) proof fn lemma_led_stays(c: ClusterView, n: NodeId, e: EventView, cr: NodeId, t: Term)
    requires
        inv(c),
        enabled(c, n, e),
        led_by(c, cr, t),
    ensures
        led_by(next(c, n, e), cr, t),
{
    let c2 = next(c, n, e);
    let q = choose|q: Set<NodeId>| #[trigger] quorum_voted(c, q, cr, t);
    assert(quorum_voted(c2, q, cr, t));
    if cr == n {
        let s = c.nodes[n];
        law_term_never_decreases(s, e);
        lemma_node_step(s, e);
    }
}

/// Appending an entry of term `e.term` to `l` keeps it matching every log
/// whose entries of that term all lie within `l`.
proof fn lemma_push_matches(l: Seq<LogEntry>, y: Seq<LogEntry>, e: LogEntry)
    requires
        logs_match(l, y),
        forall|p: int| 0 <= p < y.len() && #[trigger] y[p].term == e.term ==> p < l.len(),
    ensures
        logs_match(l.push(e), y),
        logs_match(y, l.push(e)),
{
    let l2 = l.push(e);
    assert forall|p: int|
        #![trigger l2[p], y[p]]
        0 <= p < l2.len() && p < y.len() && l2[p].term == y[p].term implies l2.take(p + 1) == y.take(p + 1) by {
        if p < l.len() {
            assert(l2[p] == l[p]);
            assert(l2.take(p + 1) =~= l.take(p + 1));
        } else {
            assert(y[p].term == e.term);
        }
    }
    assert forall|p: int|
        #![trigger y[p], l2[p]]
        0 <= p < y.len() && p < l2.len() && y[p].term == l2[p].term implies y.take(p + 1) == l2.take(p + 1) by {
        if p < l.len() {
            assert(l2[p] == l[p]);
            assert(l2.take(p + 1) =~= l.take(p + 1));
        } else {
            assert(y[p].term == e.term);
        }
    }
}

proof fn lemma_history_ok_kept(c: ClusterView, n: NodeId, e: EventView)
    requires
        inv(c),
        log_inv(c),
        enabled(c, n, e),
    ensures
        history_ok(next(c, n, e)),
{
    let s = c.nodes[n];
    let s2 = step(s, e).0;
    let c2 = next(c, n, e);
    lemma_node_step(s, e);
    assert(c.members.contains(n));
    assert forall|k: NodeId|
        #![trigger c2.nodes[k]]
        c2.members.contains(k) implies c2.logs.contains(c2.nodes[k].log) && (c2.nodes[k].role
        != Role::Follower ==> c2.nodes[k].current_term >= 1) by {
        if k != n {
            assert(c2.nodes[k] == c.nodes[k]);
        } else {
            assert(c2.nodes[n] == s2);
        }
    }
}

proof fn lemma_history_indexed_kept(c: ClusterView, n: NodeId, e: EventView)
    requires
        inv(c),
        log_inv(c),
        enabled(c, n, e),
    ensures
        history_indexed(next(c, n, e)),
{
    let s = c.nodes[n];
    let s2 = step(s, e).0;
    let c2 = next(c, n, e);
    lemma_new_log(c, n, e);
    assert(c.members.contains(n));
    assert(indexed(s.log));
    if pushed(s, s2, e) {
        assert forall|p: int| 0 <= p < s2.log.len() implies (#[trigger] s2.log[p]).index == p + 1
            && s2.log[p].term >= 1 by {
            if p < s.log.len() {
                assert(s2.log[p] == s.log[p]);
            }
        }
    }
}

proof fn lemma_history_matches_kept(c: ClusterView, n: NodeId, e: EventView)
    requires
        inv(c),
        log_inv(c),
        enabled(c, n, e),
    ensures
        history_matches(next(c, n, e)),
{
    let s = c.nodes[n];
    let s2 = step(s, e).0;
    let c2 = next(c, n, e);
    lemma_new_log(c, n, e);
    assert(c.members.contains(n));
    if c.logs.contains(s2.log) {
        assert(c2.logs =~= c.logs);
    } else {
        let entry = s2.log.last();
        assert(s2.log == s.log.push(entry));
        assert(c.logs.contains(s.log));
        assert forall|x: Seq<LogEntry>, y: Seq<LogEntry>|
            #![trigger c2.logs.contains(x), c2.logs.contains(y)]
            c2.logs.contains(x) && c2.logs.contains(y) implies logs_match(x, y) by {
            if x == s2.log && y == s2.log {
                assert forall|p: int| #![trigger x[p], y[p]] 0 <= p < x.len() && p < y.len() && x[p].term == y[p].term implies x.take(p + 1) == y.take(p + 1) by {}
            } else if x == s2.log {
                assert(c.logs.contains(y));
                assert(logs_match(s.log, y));
                assert forall|p: int| 0 <= p < y.len() && #[trigger] y[p].term == entry.term implies p < s.log.len() by {
                    assert(y[p].term == c.nodes[n].current_term);
                }
                lemma_push_matches(s.log, y, entry);
            } else if y == s2.log {
                assert(c.logs.contains(x));
                assert(logs_match(s.log, x));
                assert forall|p: int| 0 <= p < x.len() && #[trigger] x[p].term == entry.term implies p < s.log.len() by {
                    assert(x[p].term == c.nodes[n].current_term);
                }
                lemma_push_matches(s.log, x, entry);
            }
        }
    }
}

proof fn lemma_entries_led_kept(c: ClusterView, n: NodeId, e: EventView)
    requires
        inv(c),
        log_inv(c),
        enabled(c, n, e),
    ensures
        entries_led(next(c, n, e)),
{
    let s = c.nodes[n];
    let s2 = step(s, e).0;
    let c2 = next(c, n, e);
    lemma_new_log(c, n, e);
    assert(c.members.contains(n));
    assert forall|x: Seq<LogEntry>, p: int|
        #![trigger c2.logs.contains(x), x[p]]
        c2.logs.contains(x) && 0 <= p < x.len() implies term_led(c2, x[p].term) by {
        let (y, q) = if c.logs.contains(x) {
            (x, p)
        } else if p < s.log.len() {
            assert(x == s2.log && pushed(s, s2, e));
            assert(x[p] == s.log[p]);
            (s.log, p)
        } else {
            (x, -1)
        };
        if q >= 0 {
            assert(c.logs.contains(y) && 0 <= q < y.len());
            assert(term_led(c, y[q].term));
            let cr = choose|cr: NodeId| #[trigger] led_by(c, cr, y[q].term);
            lemma_led_stays(c, n, e, cr, y[q].term);
            assert(led_by(c2, cr, x[p].term));
        } else {
            assert(pushed(s, s2, e));
            assert(x[p].term == s.current_term);
            let w = choose|w: Set<NodeId>| #[trigger] quorum_voted(c, w, n, s.current_term);
            assert(quorum_voted(c2, w, n, s.current_term));
            assert(led_by(c2, n, x[p].term));
        }
    }
}

proof fn lemma_appends_ok_kept(c: ClusterView, n: NodeId, e: EventView)
    requires
        inv(c),
        log_inv(c),
        enabled(c, n, e),
    ensures
        appends_ok(next(c, n, e)),
{
    let s = c.nodes[n];
    let (s2, acts) = step(s, e);
    let c2 = next(c, n, e);
    assert(c.members.contains(n));
    lemma_step_sends_appends_only_on_heartbeat(s, e);
    assert forall|p: Packet| #[trigger] c2.network.contains(p) implies ae_ok(c2, p) by {
        if let MessageView::AppendEntries(m) = p.2 {
            if c.network.contains(p) {
                assert(ae_ok(c, p));
                let q = choose|q: Set<NodeId>| #[trigger] quorum_voted(c, q, p.0, m.term);
                assert(quorum_voted(c2, q, p.0, m.term));
                if !(m.prev_log_index > 0 && m.prev_log_term == 0) {
                    let y = choose|y: Seq<LogEntry>|
                        #[trigger] c.logs.contains(y) && m.prev_log_index <= y.len() && m.entries == y.skip(
                            m.prev_log_index as int,
                        ) && (m.prev_log_index == 0 || y[m.prev_log_index - 1].term == m.prev_log_term);
                    assert(c2.logs.contains(y));
                }
            } else {
                assert(sends(n, acts).contains(p));
                let i = choose|i: int| 0 <= i < acts.len() && #[trigger] acts[i] == ActionView::Send(p.1, p.2);
                assert(ae_send_ok(acts[i], s));
                let j = choose|j: int| 0 <= j < s.peers.len() && p.1 == s.peers[j] && m == #[trigger] append_for_peer(s, j);
                assert(s.peers.to_set().contains(s.peers[j]));
                assert(p.0 == n);
                let q = choose|q: Set<NodeId>| #[trigger] quorum_voted(c, q, n, s.current_term);
                assert(quorum_voted(c2, q, p.0, m.term));
                assert(c.logs.contains(s.log));
                lemma_leader_append_is_from_history(s, j, c2.logs);
            }
        }
    }
}

proof fn lemma_leaders_hold_kept(c: ClusterView, n: NodeId, e: EventView)
    requires
        inv(c),
        log_inv(c),
        enabled(c, n, e),
    ensures
        leaders_hold_their_term(next(c, n, e)),
{
    let s = c.nodes[n];
    let s2 = step(s, e).0;
    let c2 = next(c, n, e);
    assert(c.members.contains(n));
    lemma_new_log(c, n, e);
    lemma_node_step(s, e);
    law_step_preserves_invariant(c, n, e);
    law_invariant_gives_election_safety(c);
    assert forall|k: NodeId, x: Seq<LogEntry>, p: int|
        #![trigger c2.nodes[k], c2.logs.contains(x), x[p]]
        c2.members.contains(k) && c2.nodes[k].role == Role::Leader && c2.logs.contains(x) && 0 <= p
            < x.len() && x[p].term == c2.nodes[k].current_term implies p < c2.nodes[k].log.len()
        && c2.nodes[k].log[p].term == x[p].term by {
        if k != n {
            assert(c2.nodes[k] == c.nodes[k]);
            if !c.logs.contains(x) {
                assert(x == s2.log && pushed(s, s2, e));
                if p < s.log.len() {
                    assert(x[p] == s.log[p]);
                    assert(c.logs.contains(s.log));
                } else {
                    assert(c.nodes[k].role == Role::Leader && c.nodes[n].role == Role::Leader
                        && c.nodes[k].current_term == c.nodes[n].current_term);
                }
            }
        } else {
            assert(c2.nodes[n] == s2);
            if s.role == Role::Leader && s2.current_term == s.current_term {
                if c.logs.contains(x) {
                    assert(p < s.log.len() && s.log[p].term == x[p].term);
                    if s2.log != s.log {
                        assert(s2.log[p] == s.log[p]);
                    }
                }
            } else {
                law_log_is_append_only_outside_append_entries(s, e);
                assert(s2.log == s.log);
                assert(c.logs.contains(s.log));
                assert(c.logs.contains(x));
                let t = x[p].term;
                assert(term_led(c, t));
                let cr = choose|cr: NodeId| #[trigger] led_by(c, cr, t);
                let q1 = choose|q: Set<NodeId>| #[trigger] quorum_voted(c, q, cr, t);
                assert(quorum_voted(c2, q1, cr, t));
                assert(c2.members.contains(n) && c2.nodes[n].role == Role::Leader);
                let q2 = choose|q: Set<NodeId>| #[trigger] quorum_voted(c2, q, n, c2.nodes[n].current_term);
                lemma_one_quorum_per_term(c2, cr, q1, n, q2, t);
                law_term_never_decreases(s, e);
            }
        }
    }
}

// ── the laws ─────────────────────────────────────────────────────────────────

/// The log invariant holds in every initial cluster.
pub proof fn law_initial_cluster_satisfies_log_invariant(c: ClusterView)
    requires
        initial(c),
    ensures
        log_inv(c),
{
    assert forall|x: Seq<LogEntry>, y: Seq<LogEntry>|
        #![trigger c.logs.contains(x), c.logs.contains(y)]
        c.logs.contains(x) && c.logs.contains(y) implies logs_match(x, y) by {
        assert(x.len() == 0);
    }
    assert forall|n: NodeId| #![trigger c.nodes[n]] c.members.contains(n) implies c.logs.contains(
        c.nodes[n].log,
    ) by {
        assert(c.nodes[n].log =~= Seq::<LogEntry>::empty());
    }
}

/// A crash and restart from persisted state keeps the log invariant.
pub proof fn law_restart_preserves_log_invariant(c: ClusterView, n: NodeId)
    requires
        inv(c),
        log_inv(c),
        c.members.contains(n),
    ensures
        log_inv(restart(c, n)),
{
    let c2 = restart(c, n);
    assert forall|k: NodeId| #![trigger c2.nodes[k]] c2.members.contains(k) && k != n implies c2.nodes[k] == c.nodes[k] by {}
    assert forall|cr: NodeId, t: Term| led_by(c, cr, t) implies #[trigger] led_by(c2, cr, t) by {
        let q = choose|q: Set<NodeId>| #[trigger] quorum_voted(c, q, cr, t);
        assert(quorum_voted(c2, q, cr, t));
    }
    assert forall|x: Seq<LogEntry>, p: int|
        #![trigger c2.logs.contains(x), x[p]]
        c2.logs.contains(x) && 0 <= p < x.len() implies term_led(c2, x[p].term) by {
        assert(term_led(c, x[p].term));
        let cr = choose|cr: NodeId| #[trigger] led_by(c, cr, x[p].term);
        assert(led_by(c2, cr, x[p].term));
    }
    assert forall|p: Packet| #[trigger] c2.network.contains(p) implies ae_ok(c2, p) by {
        assert(ae_ok(c, p));
        if let MessageView::AppendEntries(m) = p.2 {
            let q = choose|q: Set<NodeId>| #[trigger] quorum_voted(c, q, p.0, m.term);
            assert(quorum_voted(c2, q, p.0, m.term));
        }
    }
}

/// Every step of every node keeps the log invariant.
pub proof fn law_step_preserves_log_invariant(c: ClusterView, n: NodeId, e: EventView)
    requires
        inv(c),
        log_inv(c),
        enabled(c, n, e),
    ensures
        log_inv(next(c, n, e)),
{
    lemma_history_ok_kept(c, n, e);
    lemma_history_indexed_kept(c, n, e);
    lemma_history_matches_kept(c, n, e);
    lemma_entries_led_kept(c, n, e);
    lemma_leaders_hold_kept(c, n, e);
    lemma_appends_ok_kept(c, n, e);
}

/// The log invariant gives Log Matching: every member's log is indexed by
/// position, and two members' logs that hold an entry with the same index
/// and term agree on every entry up to it.
pub proof fn law_log_invariant_gives_log_matching(c: ClusterView)
    requires
        log_inv(c),
    ensures
        log_matching(c),
{
    assert forall|a: NodeId, b: NodeId|
        #![trigger c.nodes[a], c.nodes[b]]
        c.members.contains(a) && c.members.contains(b) implies indexed(c.nodes[a].log) && logs_match(
            c.nodes[a].log,
            c.nodes[b].log,
        ) by {
        assert(c.logs.contains(c.nodes[a].log));
        assert(c.logs.contains(c.nodes[b].log));
    }
}

/// Leader Append-Only (§5.3): while a node leads in a term, a step leaves
/// its log as it was or appends one entry; it never rewrites or removes one.
pub proof fn law_leader_append_only(c: ClusterView, n: NodeId, e: EventView)
    requires
        inv(c),
        log_inv(c),
        enabled(c, n, e),
        c.nodes[n].role == Role::Leader,
        step(c.nodes[n], e).0.current_term == c.nodes[n].current_term,
    ensures
        next(c, n, e).nodes[n].role == Role::Leader,
        ({
            let l1 = c.nodes[n].log;
            let l2 = next(c, n, e).nodes[n].log;
            l2 == l1 || (l2.len() == l1.len() + 1 && l2.take(l1.len() as int) == l1)
        }),
{
    let s = c.nodes[n];
    let s2 = step(s, e).0;
    lemma_new_log(c, n, e);
    lemma_leader_keeps_role(s, e);
    if s2.log != s.log {
        assert(s2.log.take(s.log.len() as int) =~= s.log);
    }
}

} // verus!
