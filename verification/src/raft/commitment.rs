//! Leader Completeness and State Machine Safety (§5.4): an entry that a
//! quorum acknowledged in its term is in the log of every later leader, and
//! two members never hold different entries at an index both have
//! committed, so they never apply different commands at the same index.
//!
//! The proof follows the acknowledgements: an entry is *choosable* in term
//! `u` while a quorum of members either has not moved past `u` or has
//! acknowledged the entry in `u`; every leader of a later term, every log it
//! sends and every log in the history that holds a later term contain the
//! choosable entries, and an entry a whole quorum acknowledged is
//! *committed* for good.
use vstd::prelude::*;
use crate::protocol::log::LogEntry;
use crate::protocol::message::MessageView;
use crate::protocol::types::{NodeId, Term};
use crate::raft::cluster::{Ack, ClusterView, Packet, Vote};
use crate::raft::laws::consistent;
use crate::protocol::log::log_matches_at;
use crate::protocol::message::AppendEntriesView;
use crate::raft::log_facts::{first_mismatch_at, law_reconcile_cuts_at_first_mismatch};
use crate::raft::log_matching::{indexed, logs_match, term_led};
use crate::raft::model::{accepted_commit, append_entries, last_new_index, reconcile};
use crate::raft::{quorum_of, RaftView, Role};

verus! {

// ── logs as sequences ────────────────────────────────────────────────────────

/// `a` is a prefix of `b`.
pub open spec fn prefix_of(a: Seq<LogEntry>, b: Seq<LogEntry>) -> bool {
    a.len() <= b.len() && forall|i: int| 0 <= i < a.len() ==> #[trigger] a[i] == b[i]
}

/// `a` and `b` hold the same entries wherever both have one.
pub open spec fn agree(a: Seq<LogEntry>, b: Seq<LogEntry>) -> bool {
    forall|i: int|
        #![trigger a[i]]
        #![trigger b[i]]
        0 <= i < a.len() && i < b.len() ==> a[i] == b[i]
}

// ── acknowledgement and commitment ───────────────────────────────────────────

/// `q` is a quorum of the members.
pub open spec fn quorum(c: ClusterView, q: Set<NodeId>) -> bool {
    &&& q.finite()
    &&& q.subset_of(c.members)
    &&& q.len() >= quorum_of((c.members.len() - 1) as nat)
}

/// `a` is a nonempty piece of log whose last entry has term `u`.
pub open spec fn ends_in(a: Seq<LogEntry>, u: Term) -> bool {
    a.len() > 0 && a[a.len() - 1].term == u
}

/// Node `w` acknowledged, in term `u`, a piece of log that starts with `a`.
pub open spec fn acked(c: ClusterView, w: NodeId, u: Term, a: Seq<LogEntry>) -> bool {
    exists|y: Seq<LogEntry>| #[trigger] c.acks.contains((w, u, y)) && prefix_of(a, y)
}

/// `a` ends in an entry of term `u`, and a quorum of members each either
/// has not moved past `u` or has acknowledged `a` in `u`: `a` may still
/// become committed in `u`.
pub open spec fn choosable(c: ClusterView, a: Seq<LogEntry>, u: Term) -> bool {
    ends_in(a, u) && exists|q: Set<NodeId>|
        #[trigger] quorum(c, q) && forall|w: NodeId| #[trigger]
            q.contains(w) ==> c.nodes[w].current_term <= u || acked(c, w, u, a)
}

/// `a` ends in an entry of term `u`, and a quorum of members acknowledged
/// it in `u`.
pub open spec fn committed(c: ClusterView, a: Seq<LogEntry>, u: Term) -> bool {
    ends_in(a, u) && exists|q: Set<NodeId>| #[trigger] quorum(c, q) && forall|w: NodeId| #[trigger] q.contains(w) ==> acked(c, w, u, a)
}

/// The first `k` entries of `y` are committed, in a term at most `bound`.
pub open spec fn covered(c: ClusterView, y: Seq<LogEntry>, k: int, bound: Term) -> bool {
    k <= 0 || exists|a: Seq<LogEntry>, u: Term|
        #[trigger] committed(c, a, u) && u <= bound && k <= a.len() && prefix_of(a, y)
}

// ── the invariant ────────────────────────────────────────────────────────────

/// The logs a leader held in one term agree with each other.
pub open spec fn led_agree(c: ClusterView) -> bool {
    forall|t: Term, y1: Seq<LogEntry>, y2: Seq<LogEntry>|
        #![trigger c.led.contains((t, y1)), c.led.contains((t, y2))]
        c.led.contains((t, y1)) && c.led.contains((t, y2)) ==> agree(y1, y2)
}

/// A leader's log of term `t` is in the history, `t` was won, and the log
/// holds no term above `t`.
pub open spec fn led_sound(c: ClusterView) -> bool {
    forall|t: Term, y: Seq<LogEntry>|
        #[trigger] c.led.contains((t, y)) ==> c.logs.contains(y) && term_led(c, t) && forall|i: int|
            0 <= i < y.len() ==> #[trigger] y[i].term <= t
}

/// Members are consistent; a leader's log is recorded, acknowledged by the
/// leader itself, and extends every log it held in its term.
pub open spec fn leaders_recorded(c: ClusterView) -> bool {
    forall|n: NodeId|
        #![trigger c.nodes[n]]
        c.members.contains(n) ==> consistent(c.nodes[n]) && (c.nodes[n].role == Role::Leader ==> {
            let s = c.nodes[n];
            &&& c.led.contains((s.current_term, s.log))
            &&& c.acks.contains((n, s.current_term, s.log))
            &&& forall|y: Seq<LogEntry>| #[trigger] c.led.contains((s.current_term, y)) ==> prefix_of(y, s.log)
        })
}

/// An acknowledged piece of log is a leader's log of that term, from a
/// member that reached the term.
pub open spec fn acks_sound(c: ClusterView) -> bool {
    forall|k: Ack|
        #[trigger] c.acks.contains(k) ==> c.led.contains((k.1, k.2)) && c.members.contains(k.0)
            && c.nodes[k.0].current_term >= k.1
}

/// A success reply in flight reports no more than its sender acknowledged.
pub open spec fn replies_acked(c: ClusterView) -> bool {
    forall|p: Packet|
        #[trigger] c.network.contains(p) ==> match p.2 {
            MessageView::AppendEntriesResponse(r) => r.success ==> exists|y: Seq<LogEntry>|
                #[trigger] c.acks.contains((r.from, r.term, y)) && y.len() >= r.match_index,
            _ => true,
        }
}

/// A leader's match index for a peer is backed by the peer's acknowledgement in its term.
pub open spec fn matches_acked(c: ClusterView) -> bool {
    forall|n: NodeId|
        #![trigger c.nodes[n]]
        c.members.contains(n) && c.nodes[n].role == Role::Leader ==> forall|j: int|
            0 <= j < c.nodes[n].leader->0.match_index.len() && #[trigger] c.nodes[n].leader->0.match_index[j]
                > 0 ==> exists|y: Seq<LogEntry>|
                #[trigger] c.acks.contains((c.nodes[n].peers[j], c.nodes[n].current_term, y)) && y.len()
                    >= c.nodes[n].leader->0.match_index[j]
}

/// An `AppendEntries` in flight (other than one naming a missing entry)
/// carries a piece of a leader's log of its term, whose entries up to the
/// leader's commit index are committed.
pub open spec fn appends_led(c: ClusterView) -> bool {
    forall|p: Packet|
        #[trigger] c.network.contains(p) ==> match p.2 {
            MessageView::AppendEntries(m) => !(m.prev_log_index > 0 && m.prev_log_term == 0) ==> exists|y: Seq<LogEntry>|
                #[trigger] c.led.contains((m.term, y)) && m.prev_log_index <= y.len() && m.entries == y.skip(
                    m.prev_log_index as int,
                ) && (m.prev_log_index == 0 || y[m.prev_log_index - 1].term == m.prev_log_term)
                    && m.leader_commit <= y.len() && covered(c, y, m.leader_commit as int, m.term),
            _ => true,
        }
}

/// Leader Completeness over the leaders' logs: every log a leader held in a
/// term starts with whatever was choosable in an earlier term.
pub open spec fn led_complete(c: ClusterView) -> bool {
    forall|t: Term, y: Seq<LogEntry>, a: Seq<LogEntry>, u: Term|
        #![trigger c.led.contains((t, y)), choosable(c, a, u)]
        c.led.contains((t, y)) && u < t && choosable(c, a, u) ==> prefix_of(a, y)
}

/// A log of the history holding an entry of a term above `u` starts with
/// whatever is choosable in `u`.
pub open spec fn history_complete(c: ClusterView) -> bool {
    forall|x: Seq<LogEntry>, i: int, a: Seq<LogEntry>, u: Term|
        #![trigger c.logs.contains(x), x[i], choosable(c, a, u)]
        c.logs.contains(x) && 0 <= i < x.len() && x[i].term > u && choosable(c, a, u) ==> prefix_of(a, x)
}

/// Every entry of the history, with everything before it, comes from a
/// leader's log of the entry's term.
pub open spec fn entries_from_led(c: ClusterView) -> bool {
    forall|x: Seq<LogEntry>, i: int|
        #![trigger c.logs.contains(x), x[i]]
        c.logs.contains(x) && 0 <= i < x.len() ==> exists|y: Seq<LogEntry>|
            #[trigger] c.led.contains((x[i].term, y)) && i < y.len() && forall|j: int| 0 <= j <= i ==> #[trigger] y[j] == x[j]
}

/// No member holds an entry of a term above its own.
pub open spec fn terms_bounded(c: ClusterView) -> bool {
    forall|n: NodeId, i: int|
        #![trigger c.nodes[n].log[i]]
        c.members.contains(n) && 0 <= i < c.nodes[n].log.len() ==> c.nodes[n].log[i].term
            <= c.nodes[n].current_term
}

/// A vote request in flight comes from a member that reached its term and,
/// while it is still a candidate or the leader there, describes a prefix of
/// its log.
pub open spec fn requests_ok(c: ClusterView) -> bool {
    forall|p: Packet|
        #[trigger] c.network.contains(p) ==> match p.2 {
            MessageView::RequestVote(m) => {
                &&& c.members.contains(m.candidate_id)
                &&& c.nodes[m.candidate_id].current_term >= m.term
                &&& (c.nodes[m.candidate_id].current_term == m.term && c.nodes[m.candidate_id].role
                    != Role::Follower) ==> {
                    &&& m.last_log_index <= c.nodes[m.candidate_id].log.len()
                    &&& m.last_log_index == 0 ==> m.last_log_term == 0
                    &&& m.last_log_index > 0 ==> c.nodes[m.candidate_id].log[m.last_log_index - 1].term
                        == m.last_log_term
                }
            },
            _ => true,
        }
}

/// A vote went to a member that reached the vote's term.
pub open spec fn votes_target(c: ClusterView) -> bool {
    forall|v: Vote| #[trigger] c.votes.contains(v) ==> c.members.contains(v.2) && c.nodes[v.2].current_term >= v.1
}

/// A candidate or leader of term `t` starts with whatever is choosable in an
/// earlier term and acknowledged by a member that voted for it in `t`.
pub open spec fn votes_complete(c: ClusterView) -> bool {
    forall|v: Vote, a: Seq<LogEntry>, u: Term|
        #![trigger c.votes.contains(v), choosable(c, a, u)]
        c.votes.contains(v) && u < v.1 && choosable(c, a, u) && acked(c, v.0, u, a) && c.nodes[v.2].current_term
            == v.1 && c.nodes[v.2].role != Role::Follower ==> prefix_of(a, c.nodes[v.2].log)
}

/// A node keeps whatever choosable piece it acknowledged.
pub open spec fn acks_durable(c: ClusterView) -> bool {
    forall|k: Ack, a: Seq<LogEntry>|
        #![trigger c.acks.contains(k), choosable(c, a, k.1)]
        c.acks.contains(k) && choosable(c, a, k.1) && prefix_of(a, k.2) ==> prefix_of(a, c.nodes[k.0].log)
}

/// A member's current vote is in the history of votes.
pub open spec fn votes_recorded(c: ClusterView) -> bool {
    forall|n: NodeId|
        #![trigger c.nodes[n]]
        c.members.contains(n) && c.nodes[n].voted_for is Some ==> c.votes.contains(
            (n, c.nodes[n].current_term, c.nodes[n].voted_for->0),
        )
}

/// What a member has committed is committed in the cluster, in a term it reached.
pub open spec fn commits_covered(c: ClusterView) -> bool {
    forall|n: NodeId|
        #![trigger c.nodes[n]]
        c.members.contains(n) ==> covered(c, c.nodes[n].log, c.nodes[n].commit_index as int, c.nodes[n].current_term)
}

/// Every member has applied exactly the entries it committed.
pub open spec fn applied_committed(c: ClusterView) -> bool {
    forall|n: NodeId| #![trigger c.nodes[n]] c.members.contains(n) ==> c.nodes[n].last_applied == c.nodes[n].commit_index
}

pub open spec fn commit_inv(c: ClusterView) -> bool {
    &&& applied_committed(c)
    &&& led_agree(c)
    &&& led_sound(c)
    &&& leaders_recorded(c)
    &&& acks_sound(c)
    &&& replies_acked(c)
    &&& matches_acked(c)
    &&& appends_led(c)
    &&& led_complete(c)
    &&& history_complete(c)
    &&& entries_from_led(c)
    &&& terms_bounded(c)
    &&& requests_ok(c)
    &&& votes_target(c)
    &&& votes_complete(c)
    &&& votes_recorded(c)
    &&& acks_durable(c)
    &&& commits_covered(c)
}

// ── the property ─────────────────────────────────────────────────────────────

/// State Machine Safety: wherever two members have both committed an index,
/// their logs hold it, with the same entry.
pub open spec fn committed_agree(c: ClusterView) -> bool {
    forall|a: NodeId, b: NodeId, i: int|
        #![trigger c.nodes[a].log[i], c.nodes[b].log[i]]
        c.members.contains(a) && c.members.contains(b) && 0 <= i && i < c.nodes[a].commit_index && i
            < c.nodes[b].commit_index ==> i < c.nodes[a].log.len() && i < c.nodes[b].log.len()
            && c.nodes[a].log[i] == c.nodes[b].log[i]
}

/// Leader Completeness: every leader's log starts with every piece of log
/// committed in an earlier term.
pub open spec fn leaders_complete(c: ClusterView) -> bool {
    forall|n: NodeId, a: Seq<LogEntry>, u: Term|
        #![trigger c.nodes[n], committed(c, a, u)]
        c.members.contains(n) && c.nodes[n].role == Role::Leader && u < c.nodes[n].current_term && committed(c, a, u)
            ==> prefix_of(a, c.nodes[n].log)
}

/// Every member has committed no more than its log holds.
pub open spec fn commits_in_logs(c: ClusterView) -> bool {
    forall|n: NodeId| #![trigger c.nodes[n]] c.members.contains(n) ==> c.nodes[n].commit_index <= c.nodes[n].log.len()
}

// ── basic facts ──────────────────────────────────────────────────────────────

/// A quorum has a member.
#[verifier::rlimit(50)]
pub(crate) proof fn lemma_quorum_has_member(c: ClusterView, q: Set<NodeId>) -> (w: NodeId)
    requires
        quorum(c, q),
    ensures
        q.contains(w),
{
    if q.len() == 0 {
        assert(false);
    }
    q.choose()
}

/// Two committed pieces of log agree.
#[verifier::rlimit(50)]
proof fn lemma_committed_agree(c: ClusterView, a1: Seq<LogEntry>, u1: Term, a2: Seq<LogEntry>, u2: Term)
    requires
        commit_inv(c),
        committed(c, a1, u1),
        committed(c, a2, u2),
        u1 <= u2,
    ensures
        agree(a1, a2),
{
    let q1 = choose|q: Set<NodeId>| #[trigger] quorum(c, q) && forall|w: NodeId| #[trigger] q.contains(w) ==> acked(c, w, u1, a1);
    let q2 = choose|q: Set<NodeId>| #[trigger] quorum(c, q) && forall|w: NodeId| #[trigger] q.contains(w) ==> acked(c, w, u2, a2);
    let w1 = lemma_quorum_has_member(c, q1);
    let w2 = lemma_quorum_has_member(c, q2);
    assert(acked(c, w1, u1, a1));
    assert(acked(c, w2, u2, a2));
    let y1 = choose|y: Seq<LogEntry>| #[trigger] c.acks.contains((w1, u1, y)) && prefix_of(a1, y);
    let y2 = choose|y: Seq<LogEntry>| #[trigger] c.acks.contains((w2, u2, y)) && prefix_of(a2, y);
    assert(c.acks.contains((w1, u1, y1)));
    assert(c.acks.contains((w2, u2, y2)));
    assert(c.led.contains((u2, y2)));
    assert(c.led.contains((u1, y1)));
    if u1 < u2 {
        assert(choosable(c, a1, u1)) by {
            assert forall|w: NodeId| #[trigger] q1.contains(w) implies c.nodes[w].current_term <= u1 || acked(c, w, u1, a1) by {}
        }
        assert(prefix_of(a1, y2));
    } else {
        assert(agree(y1, y2));
    }
    assert forall|i: int| 0 <= i < a1.len() && i < a2.len() implies a1[i] == a2[i] by {
        assert(a1[i] == y1[i] || u1 < u2);
        assert(a2[i] == y2[i]);
        if u1 < u2 {
            assert(a1[i] == y2[i]);
        }
    }
}

/// The commitment invariant gives State Machine Safety, Leader
/// Completeness, and commit indices within the logs.
#[verifier::rlimit(50)]
pub proof fn law_commit_invariant_gives_state_machine_safety(c: ClusterView)
    requires
        commit_inv(c),
    ensures
        committed_agree(c),
        leaders_complete(c),
        commits_in_logs(c),
{
    assert forall|n: NodeId, a: Seq<LogEntry>, u: Term|
        #![trigger c.nodes[n], committed(c, a, u)]
        c.members.contains(n) && c.nodes[n].role == Role::Leader && u < c.nodes[n].current_term && committed(c, a, u)
        implies prefix_of(a, c.nodes[n].log) by {
        let q = choose|q: Set<NodeId>| #[trigger] quorum(c, q) && forall|w: NodeId| #[trigger] q.contains(w) ==> acked(c, w, u, a);
        assert forall|w: NodeId| #[trigger] q.contains(w) implies c.nodes[w].current_term <= u || acked(c, w, u, a) by {}
        assert(choosable(c, a, u));
        assert(c.led.contains((c.nodes[n].current_term, c.nodes[n].log)));
    }
    assert forall|n: NodeId| #![trigger c.nodes[n]] c.members.contains(n) implies c.nodes[n].commit_index <= c.nodes[n].log.len() by {
        assert(covered(c, c.nodes[n].log, c.nodes[n].commit_index as int, c.nodes[n].current_term));
        if c.nodes[n].commit_index > 0 {
            let (x, u) = choose|x: Seq<LogEntry>, u: Term|
                #[trigger] committed(c, x, u) && u <= c.nodes[n].current_term && c.nodes[n].commit_index <= x.len()
                    && prefix_of(x, c.nodes[n].log);
        }
    }
    assert forall|a: NodeId, b: NodeId, i: int|
        #![trigger c.nodes[a].log[i], c.nodes[b].log[i]]
        c.members.contains(a) && c.members.contains(b) && 0 <= i && i < c.nodes[a].commit_index && i
            < c.nodes[b].commit_index implies i < c.nodes[a].log.len() && i < c.nodes[b].log.len()
        && c.nodes[a].log[i] == c.nodes[b].log[i] by {
        let la = c.nodes[a].log;
        let lb = c.nodes[b].log;
        assert(covered(c, la, c.nodes[a].commit_index as int, c.nodes[a].current_term));
        assert(covered(c, lb, c.nodes[b].commit_index as int, c.nodes[b].current_term));
        let (x1, v1) = choose|x: Seq<LogEntry>, u: Term|
            #[trigger] committed(c, x, u) && u <= c.nodes[a].current_term && c.nodes[a].commit_index <= x.len()
                && prefix_of(x, la);
        let (x2, v2) = choose|x: Seq<LogEntry>, u: Term|
            #[trigger] committed(c, x, u) && u <= c.nodes[b].current_term && c.nodes[b].commit_index <= x.len()
                && prefix_of(x, lb);
        if v1 <= v2 {
            lemma_committed_agree(c, x1, v1, x2, v2);
        } else {
            lemma_committed_agree(c, x2, v2, x1, v1);
        }
        assert(x1[i] == la[i]);
        assert(x2[i] == lb[i]);
    }
}

/// Where two matching logs hold the same term at position `p`, they hold
/// the same entries up to it.
#[verifier::rlimit(50)]
pub(crate) proof fn lemma_match_upto(x: Seq<LogEntry>, y: Seq<LogEntry>, p: int)
    requires
        logs_match(x, y),
        0 <= p < x.len(),
        p < y.len(),
        x[p].term == y[p].term,
    ensures
        forall|i: int| 0 <= i <= p ==> #[trigger] x[i] == y[i],
{
    assert(x.take(p + 1) == y.take(p + 1));
    assert forall|i: int| 0 <= i <= p implies #[trigger] x[i] == y[i] by {
        assert(x.take(p + 1)[i] == x[i]);
        assert(y.take(p + 1)[i] == y[i]);
    }
}

/// An `AppendEntries` cut from log `y` and taken by the node: the node moves
/// to the message's term, its log extends `y` and keeps every piece it
/// started with that agrees with `y`, each entry comes from its old log or
/// from `y`, and the commit index is raised as the message says.
#[verifier::rlimit(50)]
pub(crate) proof fn lemma_accept_merges(s: RaftView, m: AppendEntriesView, y: Seq<LogEntry>, bound: Term)
    requires
        forall|i: int| 0 <= i < s.log.len() ==> #[trigger] s.log[i].term <= bound,
        forall|i: int| 0 <= i < y.len() ==> #[trigger] y[i].term <= bound,
        indexed(s.log),
        indexed(y),
        logs_match(s.log, y),
        m.term >= s.current_term,
        log_matches_at(s.log, m.prev_log_index, m.prev_log_term),
        m.prev_log_index <= y.len(),
        m.entries == y.skip(m.prev_log_index as int),
        m.prev_log_index == 0 || y[m.prev_log_index - 1].term == m.prev_log_term,
    ensures
        ({
            let s2 = append_entries(s, m).0;
            &&& s2.current_term == m.term
            &&& prefix_of(y, s2.log)
            &&& last_new_index(m) == y.len()
            &&& s2.commit_index == accepted_commit(s.commit_index, m)
            &&& s2.last_applied >= s.last_applied
            &&& forall|i: int| 0 <= i < s2.log.len() ==> #[trigger] s2.log[i].term <= bound
            &&& forall|a: Seq<LogEntry>| prefix_of(a, s.log) && agree(a, y) ==> #[trigger] prefix_of(a, s2.log)
            &&& s2.voted_for == (if m.term > s.current_term { None } else { s.voted_for })
            &&& s2.role == Role::Leader ==> s.role == Role::Leader && m.term == s.current_term
            &&& s2.role == Role::Candidate ==> false
        }),
{
    let prev = m.prev_log_index as int;
    let s2 = append_entries(s, m).0;
    let entries = m.entries;
    let l = s.log;
    if prev > 0 {
        let p = choose|p: int| 0 <= p < l.len() && l[p].index == prev && l[p].term == m.prev_log_term;
        assert(l[p].index == p + 1);
        lemma_match_upto(l, y, prev - 1);
    }
    assert forall|j: int| 0 <= j < entries.len() implies (#[trigger] entries[j]).index == prev + 1 + j by {
        assert(entries[j] == y[prev + j]);
    }
    assert forall|p: int| 0 <= p < l.len() implies (#[trigger] l[p]).index == p + 1 by {}
    law_reconcile_cuts_at_first_mismatch(l, entries, prev);
    let r = reconcile(l, entries, 0);
    assert(s2.log == r);
    let j0 = choose|j0: int|
        #[trigger] first_mismatch_at(l, entries, prev, j0) && reconcile(l, entries, 0) == if j0 == entries.len() {
            l
        } else {
            l.take(prev + j0) + entries.skip(j0)
        };
    assert(prev + j0 <= l.len()) by {
        if j0 > 0 {
            let e = entries[j0 - 1];
            assert(prev + (j0 - 1) < l.len());
        }
    }
    if j0 < entries.len() {
        assert(r.len() == y.len());
        assert forall|i: int| prev + j0 <= i < r.len() implies #[trigger] r[i] == y[i] by {
            assert(r[i] == entries.skip(j0)[i - prev - j0]);
        }
    }
    // entries before the mismatch are the log's own, equal to `y`'s
    assert forall|i: int| 0 <= i < prev + j0 && i < y.len() implies #[trigger] l[i] == y[i] by {
        if i < prev {
            lemma_match_upto(l, y, prev - 1);
        } else {
            let j = i - prev;
            assert(l[prev + j].term == entries[j].term);
            assert(entries[j] == y[i]);
            lemma_match_upto(l, y, i);
        }
    }
    assert forall|i: int| 0 <= i < r.len() implies #[trigger] r[i].term <= bound by {
        if j0 < entries.len() && i >= prev + j0 {
            assert(r[i] == y[i]);
        } else {
            assert(r[i] == l[i]);
        }
    }
    assert(y.len() == prev + entries.len());
    assert(prefix_of(y, r)) by {
        assert forall|i: int| 0 <= i < y.len() implies #[trigger] y[i] == r[i] by {
            if j0 < entries.len() && i >= prev + j0 {
                assert(r[i] == entries.skip(j0)[i - prev - j0]);
            } else {
                assert(i < prev + j0);
                assert(r[i] == l[i]);
            }
        }
    }
    assert forall|a: Seq<LogEntry>| prefix_of(a, l) && agree(a, y) implies #[trigger] prefix_of(a, r) by {
        if j0 < entries.len() {
            let k = prev + j0;
            if k < a.len() {
                assert(a[k] == l[k]);
                assert(a[k] == y[k]);
                assert(entries[j0] == y[k]);
                assert(false);
            }
            assert forall|i: int| 0 <= i < a.len() implies #[trigger] a[i] == r[i] by {
                assert(r[i] == l[i]);
            }
        }
    }
    if entries.len() > 0 {
        assert(entries[entries.len() - 1] == y[y.len() - 1]);
        assert(y[y.len() - 1].index == y.len());
    }
}

/// A log whose last entry (at `li`, with term `lt`) is at least as
/// up-to-date as a log of the history holding a choosable piece holds the
/// piece too (§5.4.1).
#[verifier::rlimit(50)]
pub(crate) proof fn lemma_up_to_date_holds(
    c: ClusterView,
    lv: Seq<LogEntry>,
    lc: Seq<LogEntry>,
    li: int,
    lt: Term,
    a: Seq<LogEntry>,
    u: Term,
    w: NodeId,
)
    requires
        crate::raft::log_matching::history_indexed(c),
        history_complete(c),
        entries_from_led(c),
        led_sound(c),
        led_agree(c),
        acks_sound(c),
        c.logs.contains(lv),
        c.logs.contains(lc),
        prefix_of(a, lv),
        choosable(c, a, u),
        acked(c, w, u, a),
        0 <= li <= lc.len(),
        li > 0 ==> lc[li - 1].term == lt,
        li == 0 ==> lt == 0,
        lt > crate::protocol::log::last_term(lv) || (lt == crate::protocol::log::last_term(lv) && li
            >= crate::protocol::log::last_index(lv)),
    ensures
        prefix_of(a, lc),
{
    let k = a.len() as int;
    let lvl = lv.len() as int;
    assert(indexed(lv));
    assert(lv[lvl - 1].index == lvl);
    let lvt = lv[lvl - 1].term;
    assert(c.logs.contains(lv) && 0 <= lvl - 1 < lv.len());
    let y1 = choose|y: Seq<LogEntry>|
        #[trigger] c.led.contains((lv[lvl - 1].term, y)) && lvl - 1 < y.len() && forall|j: int| 0 <= j <= lvl - 1 ==> #[trigger] y[j] == lv[j];
    assert(y1[k - 1] == lv[k - 1]);
    assert(a[k - 1] == lv[k - 1]);
    assert(y1[k - 1].term <= lvt);
    if lt > u {
        assert(c.logs.contains(lc) && lc[li - 1].term > u);
        assert(prefix_of(a, lc));
    } else {
        assert(lt == u);
        assert(c.logs.contains(lc) && 0 <= li - 1 < lc.len());
        let y2 = choose|y: Seq<LogEntry>|
            #[trigger] c.led.contains((lc[li - 1].term, y)) && li - 1 < y.len() && forall|j: int| 0 <= j <= li - 1 ==> #[trigger] y[j] == lc[j];
        let ya = choose|y: Seq<LogEntry>| #[trigger] c.acks.contains((w, u, y)) && prefix_of(a, y);
        assert(c.acks.contains((w, u, ya)));
        assert(c.led.contains((u, ya)));
        assert(c.led.contains((u, y2)));
        assert(agree(y2, ya));
        assert forall|i: int| 0 <= i < k implies #[trigger] a[i] == lc[i] by {
            assert(a[i] == ya[i]);
            assert(y2[i] == lc[i]);
            assert(y2[i] == ya[i]);
        }
    }
}

/// Choosability only narrows: what is choosable after a change was
/// choosable before it, when no term moved back and every new
/// acknowledgement is in a term its node had not passed.
#[verifier::rlimit(50)]
pub(crate) proof fn lemma_choosable_back(c: ClusterView, c2: ClusterView)
    requires
        c2.members == c.members,
        forall|w: NodeId| #[trigger] c.members.contains(w) ==> c2.nodes[w].current_term >= c.nodes[w].current_term,
        forall|k: Ack| #[trigger] c2.acks.contains(k) ==> c.acks.contains(k) || c.nodes[k.0].current_term <= k.1,
    ensures
        forall|a: Seq<LogEntry>, u: Term| #[trigger] choosable(c2, a, u) ==> choosable(c, a, u),
{
    assert forall|a: Seq<LogEntry>, u: Term| #[trigger] choosable(c2, a, u) implies choosable(c, a, u) by {
        let q = choose|q: Set<NodeId>| #[trigger] quorum(c2, q) && forall|w: NodeId| #[trigger]
            q.contains(w) ==> c2.nodes[w].current_term <= u || acked(c2, w, u, a);
        assert(quorum(c, q));
        assert forall|w: NodeId| #[trigger] q.contains(w) implies c.nodes[w].current_term <= u || acked(c, w, u, a) by {
            assert(c.members.contains(w));
            if c2.nodes[w].current_term > u {
                let y = choose|y: Seq<LogEntry>| #[trigger] c2.acks.contains((w, u, y)) && prefix_of(a, y);
                assert(c2.acks.contains((w, u, y)));
            }
        }
    }
}

/// Commitment only grows: what is committed stays committed while the
/// members and the acknowledgements stay.
#[verifier::rlimit(50)]
pub(crate) proof fn lemma_committed_forward(c: ClusterView, c2: ClusterView)
    requires
        c2.members == c.members,
        c.acks.subset_of(c2.acks),
    ensures
        forall|a: Seq<LogEntry>, u: Term| #[trigger] committed(c, a, u) ==> committed(c2, a, u),
        forall|y: Seq<LogEntry>, k: int, b: Term| #[trigger] covered(c, y, k, b) ==> covered(c2, y, k, b),
{
    assert forall|a: Seq<LogEntry>, u: Term| #[trigger] committed(c, a, u) implies committed(c2, a, u) by {
        let q = choose|q: Set<NodeId>| #[trigger] quorum(c, q) && forall|w: NodeId| #[trigger] q.contains(w) ==> acked(c, w, u, a);
        assert(quorum(c2, q));
        assert forall|w: NodeId| #[trigger] q.contains(w) implies acked(c2, w, u, a) by {
            assert(acked(c, w, u, a));
            let y = choose|y: Seq<LogEntry>| #[trigger] c.acks.contains((w, u, y)) && prefix_of(a, y);
            assert(c2.acks.contains((w, u, y)));
        }
    }
    assert forall|y: Seq<LogEntry>, k: int, b: Term| #[trigger] covered(c, y, k, b) implies covered(c2, y, k, b) by {
        if k > 0 {
            let (a, u) = choose|a: Seq<LogEntry>, u: Term| #[trigger] committed(c, a, u) && u <= b && k <= a.len() && prefix_of(a, y);
            assert(committed(c2, a, u));
        }
    }
}

/// The commitment invariant holds in every initial cluster.
#[verifier::rlimit(50)]
pub proof fn law_initial_cluster_satisfies_commit_invariant(c: ClusterView)
    requires
        crate::raft::cluster::initial(c),
    ensures
        commit_inv(c),
{
    assert forall|x: Seq<LogEntry>, i: int| #![trigger c.logs.contains(x), x[i]] c.logs.contains(x) && 0 <= i < x.len() implies false by {
        assert(x.len() == 0);
    }
    assert forall|n: NodeId, i: int| #![trigger c.nodes[n].log[i]] c.members.contains(n) && 0 <= i < c.nodes[n].log.len() implies false by {
        assert(c.nodes[n].log.len() == 0);
    }
}

/// A crash and restart from persisted state keeps the commitment invariant.
#[verifier::rlimit(50)]
pub proof fn law_restart_preserves_commit_invariant(c: ClusterView, n: NodeId)
    requires
        crate::raft::cluster::inv(c),
        commit_inv(c),
        c.members.contains(n),
    ensures
        commit_inv(crate::raft::cluster::restart(c, n)),
{
    let c2 = crate::raft::cluster::restart(c, n);
    assert(c2.acks == c.acks && c2.network == c.network && c2.led == c.led && c2.logs == c.logs);
    assert forall|k: NodeId| #![trigger c2.nodes[k]] c2.members.contains(k) && k != n implies c2.nodes[k] == c.nodes[k] by {}
    assert forall|w: NodeId| #[trigger] c.members.contains(w) implies c2.nodes[w].current_term >= c.nodes[w].current_term by {
        if w != n {
            assert(c2.nodes[w] == c.nodes[w]);
        }
    }
    lemma_choosable_back(c, c2);
    lemma_committed_forward(c, c2);
    assert forall|cr: NodeId, t: Term| crate::raft::log_matching::led_by(c, cr, t) implies #[trigger] crate::raft::log_matching::led_by(c2, cr, t) by {
        let q = choose|q: Set<NodeId>| #[trigger] crate::raft::cluster::quorum_voted(c, q, cr, t);
        assert(crate::raft::cluster::quorum_voted(c2, q, cr, t));
    }
    assert forall|t: Term, y: Seq<LogEntry>| #[trigger] c2.led.contains((t, y)) implies c2.logs.contains(y) && term_led(c2, t) && forall|i: int|
            0 <= i < y.len() ==> #[trigger] y[i].term <= t by {
        assert(term_led(c, t));
        let cr = choose|cr: NodeId| #[trigger] crate::raft::log_matching::led_by(c, cr, t);
        assert(crate::raft::log_matching::led_by(c2, cr, t));
    }
    assert forall|k: NodeId| #![trigger c2.nodes[k]] c2.members.contains(k) implies covered(c2, c2.nodes[k].log, c2.nodes[k].commit_index as int, c2.nodes[k].current_term) by {
        if k != n {
            assert(covered(c, c.nodes[k].log, c.nodes[k].commit_index as int, c.nodes[k].current_term));
        }
    }
    assert forall|k: NodeId, i: int| #![trigger c2.nodes[k].log[i]] c2.members.contains(k) && 0 <= i < c2.nodes[k].log.len() implies c2.nodes[k].log[i].term
            <= c2.nodes[k].current_term by {
        assert(c.nodes[k].log[i].term <= c.nodes[k].current_term);
    }
    assert forall|k: Ack, a: Seq<LogEntry>| #![trigger c2.acks.contains(k), choosable(c2, a, k.1)] c2.acks.contains(k) && choosable(c2, a, k.1) && prefix_of(a, k.2) implies prefix_of(a, c2.nodes[k.0].log) by {
        assert(choosable(c, a, k.1));
        assert(prefix_of(a, c.nodes[k.0].log));
    }
    assert forall|v: Vote, a: Seq<LogEntry>, u: Term| #![trigger c2.votes.contains(v), choosable(c2, a, u)] c2.votes.contains(v) && u < v.1 && choosable(c2, a, u) && acked(c2, v.0, u, a) && c2.nodes[v.2].current_term
            == v.1 && c2.nodes[v.2].role != Role::Follower implies prefix_of(a, c2.nodes[v.2].log) by {
        assert(choosable(c, a, u));
        assert(acked(c, v.0, u, a));
        assert(c.members.contains(v.2));
    }
    assert forall|p: Packet| #[trigger] c2.network.contains(p) implies match p.2 {
        MessageView::AppendEntries(m) => !(m.prev_log_index > 0 && m.prev_log_term == 0) ==> exists|y: Seq<LogEntry>|
            #[trigger] c2.led.contains((m.term, y)) && m.prev_log_index <= y.len() && m.entries == y.skip(
                m.prev_log_index as int,
            ) && (m.prev_log_index == 0 || y[m.prev_log_index - 1].term == m.prev_log_term)
                && m.leader_commit <= y.len() && covered(c2, y, m.leader_commit as int, m.term),
        _ => true,
    } by {
        assert(c.network.contains(p));
        if let MessageView::AppendEntries(m) = p.2 {
            if !(m.prev_log_index > 0 && m.prev_log_term == 0) {
                let y = choose|y: Seq<LogEntry>|
                    #[trigger] c.led.contains((m.term, y)) && m.prev_log_index <= y.len() && m.entries == y.skip(
                        m.prev_log_index as int,
                    ) && (m.prev_log_index == 0 || y[m.prev_log_index - 1].term == m.prev_log_term)
                        && m.leader_commit <= y.len() && covered(c, y, m.leader_commit as int, m.term);
                assert(covered(c2, y, m.leader_commit as int, m.term));
                assert(c2.led.contains((m.term, y)) && m.prev_log_index <= y.len() && m.entries == y.skip(
                        m.prev_log_index as int,
                    ) && (m.prev_log_index == 0 || y[m.prev_log_index - 1].term == m.prev_log_term)
                        && m.leader_commit <= y.len() && covered(c2, y, m.leader_commit as int, m.term));
            }
        }
    }
    assert forall|p: Packet| #[trigger] c2.network.contains(p) implies match p.2 {
        MessageView::RequestVote(m) => {
            &&& c2.members.contains(m.candidate_id)
            &&& c2.nodes[m.candidate_id].current_term >= m.term
            &&& (c2.nodes[m.candidate_id].current_term == m.term && c2.nodes[m.candidate_id].role
                != Role::Follower) ==> {
                &&& m.last_log_index <= c2.nodes[m.candidate_id].log.len()
                &&& m.last_log_index == 0 ==> m.last_log_term == 0
                &&& m.last_log_index > 0 ==> c2.nodes[m.candidate_id].log[m.last_log_index - 1].term
                    == m.last_log_term
            }
        },
        _ => true,
    } by {
        assert(c.network.contains(p));
    }
    assert(applied_committed(c2));
    assert(led_agree(c2));
    assert(led_sound(c2));
    assert(leaders_recorded(c2));
    assert(acks_sound(c2));
    assert(replies_acked(c2));
    assert(matches_acked(c2));
    assert(appends_led(c2));
    assert(led_complete(c2));
    assert(history_complete(c2));
    assert(entries_from_led(c2));
    assert(terms_bounded(c2));
    assert(requests_ok(c2));
    assert(votes_target(c2));
    assert(votes_complete(c2));
    assert(votes_recorded(c2)) by {
        assert forall|k: NodeId| #![trigger c2.nodes[k]] c2.members.contains(k) && c2.nodes[k].voted_for is Some implies c2.votes.contains(
            (k, c2.nodes[k].current_term, c2.nodes[k].voted_for->0)) by {
            assert(c.nodes[k].voted_for is Some);
        }
    }
    assert(acks_durable(c2));
    assert(commits_covered(c2));
}

} // verus!
