//! What merging, committing and applying do to a log whose entries sit at
//! the positions their indices name, stated directly rather than as the
//! scans that compute them.
use vstd::prelude::*;
use crate::protocol::action::ActionView;
use crate::protocol::log::{
    entry_with_index, first_pos, lemma_first_pos_absent, lemma_first_pos_found, LogEntry,
};
use crate::protocol::event::EventView;
use crate::protocol::log::last_index;
use crate::protocol::message::{AppendEntriesView, MessageView};
use crate::protocol::types::{LogIndex, Term};
use crate::raft::laws::{lemma_try_advance_frame, law_commit_index_never_decreases};
use crate::raft::model::{
    accepted_commit, apply_actions, apply_committed, commit_scan, count_at_least, last_new_index,
    peer_matches, peer_pos, reconcile, step, step_down, step_safe, try_advance_commit,
};
use crate::raft::{quorum_of, LeaderView, RaftView, Role};

verus! {

/// Entry `p` of the log carries index `p + 1`.
pub open spec fn positioned(log: Seq<LogEntry>) -> bool {
    forall|p: int| 0 <= p < log.len() ==> (#[trigger] log[p]).index == p + 1
}

/// The entries follow `prev`: entry `j` carries index `prev + 1 + j`.
pub open spec fn placed_after(entries: Seq<LogEntry>, prev: int) -> bool {
    forall|j: int| 0 <= j < entries.len() ==> (#[trigger] entries[j]).index == prev + 1 + j
}

/// The log holds the first `j0` entries at positions `prev..` with their
/// terms, and entry `j0` (if any) is missing or holds another term there.
pub open spec fn first_mismatch_at(log: Seq<LogEntry>, entries: Seq<LogEntry>, prev: int, j0: int) -> bool {
    &&& 0 <= j0 <= entries.len()
    &&& forall|j: int| 0 <= j < j0 ==> prev + j < log.len() && log[prev + j].term == (#[trigger] entries[j]).term
    &&& j0 < entries.len() ==> (prev + j0 >= log.len() || log[prev + j0].term != entries[j0].term)
}

proof fn lemma_positioned_first_pos(log: Seq<LogEntry>, k: int, idx: LogIndex)
    requires
        positioned(log),
        0 <= k,
        idx == k + 1,
    ensures
        k < log.len() ==> first_pos(log, idx) == Some(k),
        k >= log.len() ==> first_pos(log, idx) is None,
{
    if k < log.len() {
        assert forall|q: int| 0 <= q < k implies #[trigger] log[q].index != idx by {
            assert(log[q].index == q + 1);
        }
        lemma_first_pos_found(log, idx, k);
    } else {
        assert forall|q: int| 0 <= q < log.len() implies #[trigger] log[q].index != idx by {
            assert(log[q].index == q + 1);
        }
        lemma_first_pos_absent(log, idx);
    }
}

proof fn lemma_reconcile_from(log: Seq<LogEntry>, entries: Seq<LogEntry>, prev: int, i: int, j0: int)
    requires
        positioned(log),
        placed_after(entries, prev),
        0 <= prev <= log.len(),
        0 <= i <= j0,
        first_mismatch_at(log, entries, prev, j0),
    ensures
        reconcile(log, entries, i) == if j0 == entries.len() {
            log
        } else {
            log.take(prev + j0) + entries.skip(j0)
        },
    decreases entries.len() - i,
{
    if i < entries.len() {
        lemma_positioned_first_pos(log, prev + i, entries[i].index);
        if i < j0 {
            assert(log[prev + i].term == entries[i].term);
            lemma_reconcile_from(log, entries, prev, i + 1, j0);
        } else if prev + i >= log.len() {
            if j0 > 0 {
                let e = entries[j0 - 1];
                assert(prev + (j0 - 1) < log.len());
            }
            assert(log.take(prev + j0) =~= log);
        }
    }
}

/// Merging entries that follow `prev` into a positioned log that reaches
/// `prev`: the log before `prev` is kept; at the first entry the log lacks
/// or holds with another term, the log is cut and the rest of the entries is
/// appended; if there is none, the log stays as it is. The result is
/// positioned, reaches past every entry, and holds each entry's term there.
pub proof fn law_reconcile_cuts_at_first_mismatch(log: Seq<LogEntry>, entries: Seq<LogEntry>, prev: int)
    requires
        positioned(log),
        placed_after(entries, prev),
        0 <= prev <= log.len(),
    ensures
        exists|j0: int|
            #[trigger] first_mismatch_at(log, entries, prev, j0) && reconcile(log, entries, 0) == if j0
                == entries.len() {
                log
            } else {
                log.take(prev + j0) + entries.skip(j0)
            },
        reconcile(log, entries, 0).take(prev) == log.take(prev),
        reconcile(log, entries, 0).len() >= prev + entries.len(),
        reconcile(log, entries, 0).len() >= log.len() || exists|j: int|
            0 <= j < entries.len() && prev + j < log.len() && log[prev + j].term != entries[j].term,
        positioned(reconcile(log, entries, 0)),
        forall|j: int|
            0 <= j < entries.len() ==> #[trigger] reconcile(log, entries, 0)[prev + j].term
                == entries[j].term,
{
    // The first mismatch: the least j whose entry the log lacks or holds with another term.
    let j0 = choose_mismatch(log, entries, prev, 0);
    lemma_choose_mismatch(log, entries, prev, 0);
    lemma_reconcile_from(log, entries, prev, 0, j0);
    let r = reconcile(log, entries, 0);
    if j0 > 0 {
        let e = entries[j0 - 1];
        assert(prev + (j0 - 1) < log.len() && log[prev + (j0 - 1)].term == entries[j0 - 1].term);
    }
    if j0 < entries.len() {
        assert(r.take(prev) =~= log.take(prev));
        assert forall|p: int| 0 <= p < r.len() implies (#[trigger] r[p]).index == p + 1 by {
            if p < prev + j0 {
                assert(r[p] == log[p]);
            } else {
                assert(r[p] == entries[p - prev]);
            }
        }
        assert forall|j: int| 0 <= j < entries.len() implies #[trigger] r[prev + j].term == entries[j].term by {
            if j < j0 {
                assert(r[prev + j] == log[prev + j]);
            } else {
                assert(r[prev + j] == entries[j]);
            }
        }
        if prev + j0 < log.len() {
            assert(log[prev + j0].term != entries[j0].term);
        }
    } else {
        assert(r =~= log);
        assert forall|j: int| 0 <= j < entries.len() implies #[trigger] r[prev + j].term == entries[j].term by {
            assert(log[prev + j].term == entries[j].term);
        }
        if entries.len() > 0 {
            assert(prev + entries.len() - 1 < log.len());
        }
    }
}

/// The least `j >= i` at which the entries and the log part ways
/// (`entries.len()` when they never do).
pub open spec fn choose_mismatch(log: Seq<LogEntry>, entries: Seq<LogEntry>, prev: int, i: int) -> int
    decreases entries.len() - i,
{
    if i >= entries.len() {
        entries.len() as int
    } else if prev + i >= log.len() || log[prev + i].term != entries[i].term {
        i
    } else {
        choose_mismatch(log, entries, prev, i + 1)
    }
}

proof fn lemma_choose_mismatch(log: Seq<LogEntry>, entries: Seq<LogEntry>, prev: int, i: int)
    requires
        0 <= i <= entries.len(),
        forall|j: int| 0 <= j < i ==> prev + j < log.len() && log[prev + j].term == (#[trigger] entries[j]).term,
    ensures
        first_mismatch_at(log, entries, prev, choose_mismatch(log, entries, prev, i)),
        choose_mismatch(log, entries, prev, i) >= i,
    decreases entries.len() - i,
{
    if i < entries.len() && !(prev + i >= log.len() || log[prev + i].term != entries[i].term) {
        assert forall|j: int| 0 <= j < i + 1 implies prev + j < log.len() && log[prev + j].term
            == (#[trigger] entries[j]).term by {
            if j < i {
                assert(prev + j < log.len() && log[prev + j].term == entries[j].term);
            }
        }
        lemma_choose_mismatch(log, entries, prev, i + 1);
    }
}

/// The commands applied for a positioned log are those of the entries at
/// indices `from + 1 ..= to`, in order.
pub proof fn law_apply_actions_are_the_entries(log: Seq<LogEntry>, from: int, to: int)
    requires
        positioned(log),
        0 <= from <= to <= log.len(),
        to <= u64::MAX,
    ensures
        apply_actions(log, from, to) == Seq::new(
            (to - from) as nat,
            |j: int| ActionView::ApplyCommand(log[from + j].command),
        ),
    decreases to - from,
{
    if to > from {
        law_apply_actions_are_the_entries(log, from, to - 1);
        lemma_positioned_first_pos(log, to - 1, to as LogIndex);
        assert(entry_with_index(log, to as LogIndex) == Some(log[to - 1]));
        assert(apply_actions(log, from, to) =~= Seq::new(
            (to - from) as nat,
            |j: int| ActionView::ApplyCommand(log[from + j].command),
        ));
    } else {
        assert(apply_actions(log, from, to) =~= Seq::new(
            (to - from) as nat,
            |j: int| ActionView::ApplyCommand(log[from + j].command),
        ));
    }
}

/// The leader's commit rule on a positioned log: the new commit index is
/// the old one, or the index of an entry of the current term that a quorum
/// holds; and no higher index of the current term above the old commit is
/// held by a quorum. It never exceeds the log.
pub proof fn law_commit_scan_is_highest_quorum_index(
    log: Seq<LogEntry>,
    k: int,
    commit: LogIndex,
    term: Term,
    matches: Seq<LogIndex>,
    quorum: nat,
)
    requires
        positioned(log),
        0 <= k <= log.len(),
        commit <= log.len(),
    ensures
        ({
            let n = commit_scan(log, k, commit, term, matches, quorum);
            &&& n == commit || (commit < n <= k && log[n - 1].term == term && 1 + count_at_least(
                matches,
                n,
            ) >= quorum)
            &&& n <= log.len()
            &&& forall|p: int|
                0 <= p < k && p + 1 > n && p + 1 > commit && #[trigger] log[p].term == term ==> 1
                    + count_at_least(matches, log[p].index) < quorum
        }),
    decreases k,
{
    if k > 0 {
        let e = log[k - 1];
        assert(e.index == k);
        if e.index <= commit {
        } else if e.term != term {
            law_commit_scan_is_highest_quorum_index(log, k - 1, commit, term, matches, quorum);
        } else if 1 + count_at_least(matches, e.index) >= quorum {
        } else {
            law_commit_scan_is_highest_quorum_index(log, k - 1, commit, term, matches, quorum);
        }
    }
}

// ── the node's bounds ────────────────────────────────────────────────────────

/// The node's log is positioned, and `last_applied <= commit_index <= log length`.
pub open spec fn bounded(s: RaftView) -> bool {
    &&& positioned(s.log)
    &&& s.last_applied <= s.commit_index
    &&& s.commit_index <= s.log.len()
}

/// An `AppendEntries` whose entries follow `prev_log_index` and agree in term
/// with the node's log at every index up to its commit index.
pub open spec fn append_fits(s: RaftView, m: AppendEntriesView) -> bool {
    &&& placed_after(m.entries, m.prev_log_index as int)
    &&& forall|j: int|
        0 <= j < m.entries.len() && (#[trigger] m.entries[j]).index <= s.commit_index ==> m.entries[j].index
            <= s.log.len() && s.log[m.entries[j].index - 1].term == m.entries[j].term
}

proof fn lemma_try_advance_bounded(s: RaftView)
    requires
        bounded(s),
    ensures
        bounded(try_advance_commit(s).0),
        try_advance_commit(s).0.log == s.log,
{
    lemma_try_advance_frame(s);
    law_commit_scan_is_highest_quorum_index(
        s.log,
        s.log.len() as int,
        s.commit_index,
        s.current_term,
        peer_matches(s),
        quorum_of(s.peers.len()),
    );
}

/// A step keeps the node's log positioned and `last_applied <= commit_index
/// <= log length`, given an `AppendEntries` whose entries follow its
/// previous index and agree with everything committed; neither index moves
/// back.
pub proof fn law_step_keeps_bounds(s: RaftView, e: EventView)
    requires
        step_safe(s, e),
        bounded(s),
        e matches EventView::Message(MessageView::AppendEntries(m)) ==> append_fits(s, m),
    ensures
        bounded(step(s, e).0),
        step(s, e).0.commit_index >= s.commit_index,
        step(s, e).0.last_applied >= s.last_applied,
{
    law_commit_index_never_decreases(s, e);
    match e {
        EventView::Message(MessageView::AppendEntriesResponse(m)) => {
            if m.term == s.current_term && s.role == Role::Leader && peer_pos(s.peers, m.from) is Some
                && s.leader is Some {
                let p = peer_pos(s.peers, m.from)->0;
                let ls = s.leader->0;
                if m.success {
                    let ls2 = if m.match_index > ls.match_index[p] {
                        LeaderView {
                            match_index: ls.match_index.update(p, m.match_index),
                            next_index: ls.next_index.update(p, (m.match_index + 1) as LogIndex),
                        }
                    } else {
                        ls
                    };
                    lemma_try_advance_bounded(RaftView { leader: Some(ls2), ..s });
                }
            }
        },
        EventView::ClientRequest(c) => {
            if s.role == Role::Leader {
                assert(last_index(s.log) == s.log.len()) by {
                    if s.log.len() > 0 {
                        assert(s.log[s.log.len() - 1].index == s.log.len());
                    }
                }
                let entry = crate::protocol::log::LogEntry {
                    index: (last_index(s.log) + 1) as LogIndex,
                    term: s.current_term,
                    command: c,
                };
                let s1 = RaftView { log: s.log.push(entry), ..s };
                assert forall|p: int| 0 <= p < s1.log.len() implies (#[trigger] s1.log[p]).index == p + 1 by {
                    if p < s.log.len() {
                        assert(s1.log[p] == s.log[p]);
                    }
                }
                if s.peers.len() == 0 {
                    lemma_try_advance_bounded(s1);
                }
            }
        },
        EventView::Message(MessageView::AppendEntries(m)) => {
            let s1 = if m.term > s.current_term { step_down(s, m.term) } else { s };
            if m.term >= s1.current_term {
                let s2b = if s1.role == Role::Candidate {
                    RaftView { role: Role::Follower, candidate: None, ..s1 }
                } else {
                    s1
                };
                if crate::protocol::log::log_matches_at(s2b.log, m.prev_log_index, m.prev_log_term) {
                    let l = s.log;
                    let prev = m.prev_log_index as int;
                    let n = m.entries.len() as int;
                    if prev > 0 {
                        let q = choose|q: int| 0 <= q < l.len() && l[q].index == m.prev_log_index && l[q].term == m.prev_log_term;
                        assert(l[q].index == q + 1);
                    }
                    law_reconcile_cuts_at_first_mismatch(l, m.entries, prev);
                    let r = reconcile(l, m.entries, 0);
                    let j0 = choose|j0: int|
                        #[trigger] first_mismatch_at(l, m.entries, prev, j0) && r == if j0 == m.entries.len() {
                            l
                        } else {
                            l.take(prev + j0) + m.entries.skip(j0)
                        };
                    if j0 < n && prev + j0 < l.len() {
                        let ej = m.entries[j0];
                        assert(ej.index == prev + 1 + j0);
                        assert(l[prev + j0].term != ej.term);
                        assert(r.len() == prev + n);
                    }
                    assert(r.len() >= s.commit_index);
                    if n > 0 {
                        let el = m.entries[n - 1];
                        assert(last_new_index(m) == prev + n);
                    }
                    let s3 = RaftView {
                        known_leader: Some(m.leader_id),
                        log: r,
                        commit_index: accepted_commit(s2b.commit_index, m),
                        ..s2b
                    };
                    assert(s3.commit_index <= r.len());
                }
            }
        },
        _ => {},
    }
}

} // verus!
