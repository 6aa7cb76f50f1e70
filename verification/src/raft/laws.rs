//! Properties of the Raft transition function that span several handlers
//! or several calls.
use vstd::prelude::*;
use crate::protocol::action::ActionView;
use crate::protocol::event::EventView;
use crate::protocol::log::{last_index, LogEntry};
use crate::protocol::message::{AppendEntriesView, MessageView, RequestVote, RequestVoteResponse};
use crate::protocol::types::{LogIndex, NodeId, Term};
use crate::raft::model::{
    append_entries, apply_actions, apply_committed, candidate_up_to_date, client_request, commit_scan,
    count_at_least, heartbeat_timeout, peer_matches, peer_pos,
    reconcile, request_vote, step, step_down, step_safe, tally, try_advance_commit, vote_response,
    wins_election,
};
use crate::protocol::log::{entry_with_index, log_matches_at};
use crate::raft::{quorum_of, LeaderView, RaftView, Role};

verus! {

/// The action is a `RequestVoteResponse` that grants the vote.
pub open spec fn is_grant(a: ActionView) -> bool {
    a matches ActionView::Send(_, MessageView::RequestVoteResponse(r)) && r.vote_granted
}

/// Some action of the list grants a vote.
pub open spec fn grants_vote(acts: Seq<ActionView>) -> bool {
    exists|i: int| 0 <= i < acts.len() && #[trigger] is_grant(acts[i])
}

proof fn lemma_apply_committed_frame(s: RaftView)
    ensures
        ({
            let r = apply_committed(s).0;
            r == (RaftView { last_applied: r.last_applied, ..s })
        }),
        apply_committed(s).0.last_applied >= s.last_applied,
        apply_committed(s).0.last_applied >= s.commit_index,
        s.last_applied <= s.commit_index ==> apply_committed(s).0.last_applied == s.commit_index,
{
}

pub(crate) proof fn lemma_try_advance_frame(s: RaftView)
    ensures
        ({
            let r = try_advance_commit(s).0;
            r == (RaftView { last_applied: r.last_applied, commit_index: r.commit_index, ..s })
        }),
        try_advance_commit(s).0.last_applied >= s.last_applied,
        try_advance_commit(s).0.commit_index >= s.commit_index,
        try_advance_commit(s).0.last_applied >= try_advance_commit(s).0.commit_index,
        s.last_applied <= s.commit_index ==> try_advance_commit(s).0.last_applied == try_advance_commit(s).0.commit_index,
{
    let n = commit_scan(
        s.log,
        s.log.len() as int,
        s.commit_index,
        s.current_term,
        peer_matches(s),
        quorum_of(s.peers.len()),
    );
    let s1 = if n > s.commit_index { RaftView { commit_index: n, ..s } } else { s };
    lemma_apply_committed_frame(s1);
}

/// Terms only move forward: no event makes a node's current term smaller (§5.1).
pub proof fn law_term_never_decreases(s: RaftView, e: EventView)
    requires
        step_safe(s, e),
    ensures
        step(s, e).0.current_term >= s.current_term,
{
    match e {
        EventView::Message(MessageView::AppendEntriesResponse(m)) => {
            law_leader_state_fits_preserved(s, e);
            if m.term == s.current_term && s.role == Role::Leader && peer_pos(s.peers, m.from) is Some
                && s.leader is Some {
                let p = peer_pos(s.peers, m.from)->0;
                let ls = s.leader->0;
                if m.success {
                    let ls2 = if m.match_index > ls.match_index[p] {
                        LeaderView {
                            match_index: ls.match_index.update(p, m.match_index),
                            next_index: ls.next_index.update(p, (m.match_index + 1) as LogIndex),
                        }
                    } else {
                        ls
                    };
                    lemma_try_advance_frame(RaftView { leader: Some(ls2), ..s });
                }
            }
        },
        EventView::Message(MessageView::AppendEntries(m)) => {},
        EventView::ClientRequest(c) => {
            if s.role == Role::Leader && s.peers.len() == 0 {
                let entry = LogEntry {
                    index: (last_index(s.log) + 1) as LogIndex,
                    term: s.current_term,
                    command: c,
                };
                lemma_try_advance_frame(RaftView { log: s.log.push(entry), ..s });
            }
        },
        _ => {},
    }
}

/// Election safety on one node: within a term, once a node has voted for a
/// candidate its vote never changes, whatever event arrives (§5.2).
pub proof fn law_vote_is_stable_within_term(s: RaftView, e: EventView, c: NodeId)
    requires
        step_safe(s, e),
        s.voted_for == Some(c),
        step(s, e).0.current_term == s.current_term,
    ensures
        step(s, e).0.voted_for == Some(c),
{
    law_term_never_decreases(s, e);
    match e {
        EventView::Message(MessageView::AppendEntriesResponse(m)) => {
            if m.term == s.current_term && s.role == Role::Leader && peer_pos(s.peers, m.from) is Some
                && s.leader is Some {
                let p = peer_pos(s.peers, m.from)->0;
                let ls = s.leader->0;
                if m.success {
                    let ls2 = if m.match_index > ls.match_index[p] {
                        LeaderView {
                            match_index: ls.match_index.update(p, m.match_index),
                            next_index: ls.next_index.update(p, (m.match_index + 1) as LogIndex),
                        }
                    } else {
                        ls
                    };
                    lemma_try_advance_frame(RaftView { leader: Some(ls2), ..s });
                }
            }
        },
        EventView::ClientRequest(cmd) => {
            if s.role == Role::Leader && s.peers.len() == 0 {
                let entry = LogEntry {
                    index: (last_index(s.log) + 1) as LogIndex,
                    term: s.current_term,
                    command: cmd,
                };
                lemma_try_advance_frame(RaftView { log: s.log.push(entry), ..s });
            }
        },
        _ => {},
    }
}

/// A node never grants two different candidates its vote in the same term:
/// after granting `m1`, a request `m2` of the same term from another
/// candidate is refused.
pub proof fn law_one_vote_per_term(s: RaftView, m1: RequestVote, m2: RequestVote)
    requires
        grants_vote(request_vote(s, m1).1),
        m2.term == m1.term,
        m2.candidate_id != m1.candidate_id,
    ensures
        !grants_vote(request_vote(request_vote(s, m1).0, m2).1),
{
    let r1 = request_vote(s, m1);
    let s1 = if m1.term > s.current_term { step_down(s, m1.term) } else { s };
    if m1.term < s1.current_term || (s1.voted_for is Some && s1.voted_for != Some(m1.candidate_id))
        || !candidate_up_to_date(s1.log, m1) {
        let i = choose|i: int| 0 <= i < r1.1.len() && #[trigger] is_grant(r1.1[i]);
        assert(r1.1.len() == 1);
        assert(!is_grant(r1.1[0]));
    }
    let r2 = request_vote(r1.0, m2);
    assert(r2.1.len() == 1);
    assert(!is_grant(r2.1[0]));
    assert forall|i: int| 0 <= i < r2.1.len() implies !#[trigger] is_grant(r2.1[i]) by {}
}

/// A vote is granted only to a candidate whose term is current and whose
/// log is at least as up-to-date as the voter's (§5.2, §5.4.1); the voter
/// then records that vote.
pub proof fn law_grant_requires_up_to_date_log(s: RaftView, m: RequestVote)
    requires
        grants_vote(request_vote(s, m).1),
    ensures
        m.term >= s.current_term,
        candidate_up_to_date(s.log, m),
        request_vote(s, m).0.voted_for == Some(m.candidate_id),
        request_vote(s, m).0.current_term == m.term,
{
    let r = request_vote(s, m);
    let s1 = if m.term > s.current_term { step_down(s, m.term) } else { s };
    if m.term < s1.current_term || (s1.voted_for is Some && s1.voted_for != Some(m.candidate_id))
        || !candidate_up_to_date(s1.log, m) {
        let i = choose|i: int| 0 <= i < r.1.len() && #[trigger] is_grant(r.1[i]);
        assert(r.1.len() == 1);
        assert(!is_grant(r.1[0]));
    }
}

/// A candidate becomes leader only once the granted votes, counting the
/// response just received, reach a quorum of the cluster.
pub proof fn law_leader_only_with_quorum(s: RaftView, m: RequestVoteResponse)
    requires
        wins_election(s, m),
    ensures
        m.term == s.current_term,
        s.peers.contains(m.vote_from),
        !tally(s).votes_received.contains(m.vote_from),
        (if m.vote_granted {
            tally(s).votes_granted.insert(m.vote_from)
        } else {
            tally(s).votes_granted
        }).len() >= quorum_of(s.peers.len()),
{
}

/// A candidate that counts a new response from a peer of its term becomes
/// the leader exactly when its granted votes are then more than half of the
/// cluster (itself and its peers): it keeps its term and only resets the
/// heartbeat timer. Short of a majority it stays a candidate and does
/// nothing.
pub proof fn law_majority_wins_election(s: RaftView, m: RequestVoteResponse)
    requires
        s.role == Role::Candidate,
        m.term == s.current_term,
        s.peers.contains(m.vote_from),
        !tally(s).votes_received.contains(m.vote_from),
        tally(s).votes_granted.finite(),
    ensures
        ({
            let granted = if m.vote_granted {
                tally(s).votes_granted.insert(m.vote_from)
            } else {
                tally(s).votes_granted
            };
            let r = vote_response(s, m);
            &&& (r.0.role == Role::Leader) <==> 2 * granted.len() > s.peers.len() + 1
            &&& 2 * granted.len() > s.peers.len() + 1 ==> r.1 == seq![ActionView::ResetHeartbeatTimer]
                && r.0.current_term == s.current_term
            &&& 2 * granted.len() <= s.peers.len() + 1 ==> r.0.role == Role::Candidate && r.1 == Seq::<ActionView>::empty()
        }),
{
}

/// Any two quorums of a cluster intersect: a quorum is more than half the
/// cluster and never more than the whole cluster.
pub proof fn law_quorums_intersect(n_peers: nat)
    ensures
        2 * quorum_of(n_peers) > n_peers + 1,
        quorum_of(n_peers) <= n_peers + 1,
        quorum_of(n_peers) >= 1,
{
}

/// Leader vectors that cover every peer keep covering every peer after any
/// event, so a node can be stepped forever; identity and peers never change.
pub proof fn law_leader_state_fits_preserved(s: RaftView, e: EventView)
    requires
        step_safe(s, e),
    ensures
        s.leader_fits() ==> step(s, e).0.leader_fits(),
        step(s, e).0.peers == s.peers,
        step(s, e).0.id == s.id,
{
    match e {
        EventView::Message(MessageView::AppendEntriesResponse(m)) => {
            if m.term == s.current_term && s.role == Role::Leader && peer_pos(s.peers, m.from) is Some
                && s.leader is Some {
                let p = peer_pos(s.peers, m.from)->0;
                let ls = s.leader->0;
                if m.success {
                    let ls2 = if m.match_index > ls.match_index[p] {
                        LeaderView {
                            match_index: ls.match_index.update(p, m.match_index),
                            next_index: ls.next_index.update(p, (m.match_index + 1) as LogIndex),
                        }
                    } else {
                        ls
                    };
                    lemma_try_advance_frame(RaftView { leader: Some(ls2), ..s });
                }
            }
        },
        EventView::ClientRequest(c) => {
            if s.role == Role::Leader && s.peers.len() == 0 {
                let entry = LogEntry {
                    index: (last_index(s.log) + 1) as LogIndex,
                    term: s.current_term,
                    command: c,
                };
                lemma_try_advance_frame(RaftView { log: s.log.push(entry), ..s });
            }
        },
        _ => {},
    }
}

/// Everything committed has been applied at the end of every step: if it
/// held before the event, it holds after it, and `last_applied` never moves
/// back; a node that has applied exactly what it committed still has after
/// the step.
pub proof fn law_committed_entries_are_applied(s: RaftView, e: EventView)
    requires
        step_safe(s, e),
        s.last_applied >= s.commit_index,
    ensures
        step(s, e).0.last_applied >= step(s, e).0.commit_index,
        step(s, e).0.last_applied >= s.last_applied,
        s.last_applied == s.commit_index ==> step(s, e).0.last_applied == step(s, e).0.commit_index,
{
    match e {
        EventView::Message(MessageView::AppendEntriesResponse(m)) => {
            if m.term == s.current_term && s.role == Role::Leader && peer_pos(s.peers, m.from) is Some
                && s.leader is Some {
                let p = peer_pos(s.peers, m.from)->0;
                let ls = s.leader->0;
                if m.success {
                    let ls2 = if m.match_index > ls.match_index[p] {
                        LeaderView {
                            match_index: ls.match_index.update(p, m.match_index),
                            next_index: ls.next_index.update(p, (m.match_index + 1) as LogIndex),
                        }
                    } else {
                        ls
                    };
                    lemma_try_advance_frame(RaftView { leader: Some(ls2), ..s });
                }
            }
        },
        EventView::Message(MessageView::AppendEntries(m)) => {
            let s1 = if m.term > s.current_term { step_down(s, m.term) } else { s };
            if m.term >= s1.current_term {
                let s2 = if s1.role == Role::Candidate {
                    RaftView { role: Role::Follower, candidate: None, ..s1 }
                } else {
                    s1
                };
                if log_matches_at(s2.log, m.prev_log_index, m.prev_log_term) {
                    let commit3 = crate::raft::model::accepted_commit(s2.commit_index, m);
                    lemma_apply_committed_frame(
                        RaftView {
                            known_leader: Some(m.leader_id),
                            log: reconcile(s2.log, m.entries, 0),
                            commit_index: commit3,
                            ..s2
                        },
                    );
                }
            }
        },
        EventView::ClientRequest(c) => {
            if s.role == Role::Leader && s.peers.len() == 0 {
                let entry = LogEntry {
                    index: (last_index(s.log) + 1) as LogIndex,
                    term: s.current_term,
                    command: c,
                };
                lemma_try_advance_frame(RaftView { log: s.log.push(entry), ..s });
            }
        },
        _ => {},
    }
}

/// The commit index never moves back, and neither does the last applied
/// index.
pub proof fn law_commit_index_never_decreases(s: RaftView, e: EventView)
    requires
        step_safe(s, e),
    ensures
        step(s, e).0.commit_index >= s.commit_index,
        step(s, e).0.last_applied >= s.last_applied,
{
    match e {
        EventView::Message(MessageView::AppendEntriesResponse(m)) => {
            if m.term == s.current_term && s.role == Role::Leader && peer_pos(s.peers, m.from) is Some
                && s.leader is Some {
                let p = peer_pos(s.peers, m.from)->0;
                let ls = s.leader->0;
                if m.success {
                    let ls2 = if m.match_index > ls.match_index[p] {
                        LeaderView {
                            match_index: ls.match_index.update(p, m.match_index),
                            next_index: ls.next_index.update(p, (m.match_index + 1) as LogIndex),
                        }
                    } else {
                        ls
                    };
                    lemma_try_advance_frame(RaftView { leader: Some(ls2), ..s });
                }
            }
        },
        EventView::Message(MessageView::AppendEntries(m)) => {
            let s1 = if m.term > s.current_term { step_down(s, m.term) } else { s };
            if m.term >= s1.current_term {
                let s2 = if s1.role == Role::Candidate {
                    RaftView { role: Role::Follower, candidate: None, ..s1 }
                } else {
                    s1
                };
                if log_matches_at(s2.log, m.prev_log_index, m.prev_log_term) {
                    let commit3 = crate::raft::model::accepted_commit(s2.commit_index, m);
                    lemma_apply_committed_frame(
                        RaftView {
                            known_leader: Some(m.leader_id),
                            log: reconcile(s2.log, m.entries, 0),
                            commit_index: commit3,
                            ..s2
                        },
                    );
                }
            }
        },
        EventView::ClientRequest(c) => {
            if s.role == Role::Leader && s.peers.len() == 0 {
                let entry = LogEntry {
                    index: (last_index(s.log) + 1) as LogIndex,
                    term: s.current_term,
                    command: c,
                };
                lemma_try_advance_frame(RaftView { log: s.log.push(entry), ..s });
            }
        },
        _ => {},
    }
}

/// What `commit_scan` returns is either the old commit index or the index of
/// an entry of the current term held by a quorum.
proof fn lemma_commit_scan_sound(
    log: Seq<LogEntry>,
    k: int,
    commit: LogIndex,
    term: Term,
    matches: Seq<LogIndex>,
    quorum: nat,
)
    ensures
        ({
            let n = commit_scan(log, k, commit, term, matches, quorum);
            n == commit || (exists|p: int|
                0 <= p < log.len() && #[trigger] log[p].index == n && log[p].term == term && n
                    > commit && 1 + count_at_least(matches, n) >= quorum)
        }),
    decreases k,
{
    if k <= 0 || k > log.len() {
    } else {
        let e = log[k - 1];
        if e.index <= commit {
        } else if e.term != term {
            lemma_commit_scan_sound(log, k - 1, commit, term, matches, quorum);
        } else if 1 + count_at_least(matches, e.index) >= quorum {
            assert(log[k - 1].index == e.index);
        } else {
            lemma_commit_scan_sound(log, k - 1, commit, term, matches, quorum);
        }
    }
}

/// A leader commits by counting replicas only entries of its own term
/// (§5.4.2): when its commit index moves to N, its log holds an entry with
/// index N and the current term, and the leader plus the peers whose
/// `match_index >= N` form a quorum.
pub proof fn law_leader_commits_only_current_term_entries(s: RaftView)
    requires
        try_advance_commit(s).0.commit_index != s.commit_index,
    ensures
        ({
            let n = try_advance_commit(s).0.commit_index;
            &&& n > s.commit_index
            &&& exists|p: int|
                0 <= p < s.log.len() && #[trigger] s.log[p].index == n && s.log[p].term
                    == s.current_term
            &&& 1 + count_at_least(peer_matches(s), n) >= quorum_of(s.peers.len())
        }),
{
    lemma_commit_scan_sound(
        s.log,
        s.log.len() as int,
        s.commit_index,
        s.current_term,
        peer_matches(s),
        quorum_of(s.peers.len()),
    );
    lemma_try_advance_frame(s);
}

/// A heartbeat changes nothing in the node, so heartbeats are idempotent:
/// until something else happens, the next heartbeat sends the same messages.
pub proof fn law_heartbeat_is_idempotent(s: RaftView)
    ensures
        heartbeat_timeout(s).0 == s,
        heartbeat_timeout(heartbeat_timeout(s).0).1 == heartbeat_timeout(s).1,
{
}

/// Only `AppendEntries` can remove or rewrite log entries; every other
/// event leaves the log as it is, except a client request at a leader,
/// which appends exactly one entry of the current term right after the
/// last one.
pub proof fn law_log_is_append_only_outside_append_entries(s: RaftView, e: EventView)
    requires
        step_safe(s, e),
        !(e is Message && e->Message_0 is AppendEntries),
    ensures
        step(s, e).0.log == s.log || (e is ClientRequest && s.role == Role::Leader && step(
            s,
            e,
        ).0.log == s.log.push(
            LogEntry {
                index: (last_index(s.log) + 1) as LogIndex,
                term: s.current_term,
                command: e->ClientRequest_0,
            },
        )),
{
    match e {
        EventView::Message(MessageView::AppendEntriesResponse(m)) => {
            if m.term == s.current_term && s.role == Role::Leader && peer_pos(s.peers, m.from) is Some
                && s.leader is Some {
                let p = peer_pos(s.peers, m.from)->0;
                let ls = s.leader->0;
                if m.success {
                    let ls2 = if m.match_index > ls.match_index[p] {
                        LeaderView {
                            match_index: ls.match_index.update(p, m.match_index),
                            next_index: ls.next_index.update(p, (m.match_index + 1) as LogIndex),
                        }
                    } else {
                        ls
                    };
                    lemma_try_advance_frame(RaftView { leader: Some(ls2), ..s });
                }
            }
        },
        EventView::ClientRequest(c) => {
            if s.role == Role::Leader && s.peers.len() == 0 {
                let entry = LogEntry {
                    index: (last_index(s.log) + 1) as LogIndex,
                    term: s.current_term,
                    command: c,
                };
                lemma_try_advance_frame(RaftView { log: s.log.push(entry), ..s });
            }
        },
        _ => {},
    }
}

/// A node that is not the leader rejects client requests without changing
/// anything and points at the leader it knows of.
pub proof fn law_non_leader_redirects_clients(s: RaftView, c: crate::protocol::command::Command)
    requires
        s.role != Role::Leader,
    ensures
        client_request(s, c).0 == s,
        client_request(s, c).1 == seq![ActionView::NotLeader(s.known_leader)],
{
}

// ── applied commands ─────────────────────────────────────────────────────────

/// How many `ApplyCommand` actions the list holds.
pub open spec fn applies(acts: Seq<ActionView>) -> nat
    decreases acts.len(),
{
    if acts.len() == 0 {
        0
    } else {
        applies(acts.drop_last()) + if acts.last() is ApplyCommand { 1nat } else { 0nat }
    }
}

pub proof fn lemma_applies_concat(a: Seq<ActionView>, b: Seq<ActionView>)
    ensures
        applies(a + b) == applies(a) + applies(b),
    decreases b.len(),
{
    if b.len() > 0 {
        lemma_applies_concat(a, b.drop_last());
        assert((a + b).drop_last() =~= a + b.drop_last());
    } else {
        assert(a + b =~= a);
    }
}

proof fn lemma_no_applies(acts: Seq<ActionView>)
    requires
        forall|i: int| 0 <= i < acts.len() ==> !(#[trigger] acts[i] is ApplyCommand),
    ensures
        applies(acts) == 0,
    decreases acts.len(),
{
    if acts.len() > 0 {
        lemma_no_applies(acts.drop_last());
    }
}

proof fn lemma_apply_actions_count(log: Seq<LogEntry>, from: int, to: int)
    ensures
        from <= to ==> applies(apply_actions(log, from, to)) <= to - from,
        to < from ==> applies(apply_actions(log, from, to)) == 0,
    decreases to - from,
{
    if to > from {
        lemma_apply_actions_count(log, from, to - 1);
        let prefix = apply_actions(log, from, to - 1);
        match entry_with_index(log, to as LogIndex) {
            Some(e) => {
                assert(prefix.push(ActionView::ApplyCommand(e.command)).drop_last() =~= prefix);
            },
            None => {},
        }
    }
}

proof fn lemma_apply_committed_count(s: RaftView)
    ensures
        s.last_applied + applies(apply_committed(s).1) <= apply_committed(s).0.last_applied,
{
    lemma_apply_actions_count(s.log, s.last_applied as int, s.commit_index as int);
}

proof fn lemma_try_advance_count(s: RaftView)
    ensures
        s.last_applied + applies(try_advance_commit(s).1) <= try_advance_commit(s).0.last_applied,
{
    let n = commit_scan(s.log, s.log.len() as int, s.commit_index, s.current_term, peer_matches(s), quorum_of(s.peers.len()));
    let s1 = if n > s.commit_index { RaftView { commit_index: n, ..s } } else { s };
    lemma_apply_committed_count(s1);
}

/// A step hands the state machine at most as many commands as its last
/// applied index advances: the k-th `ApplyCommand` is the command at the old
/// last applied index plus k.
pub proof fn law_applies_follow_last_applied(s: RaftView, e: EventView)
    requires
        step_safe(s, e),
    ensures
        s.last_applied + applies(step(s, e).1) <= step(s, e).0.last_applied,
{
    let (s2, acts) = step(s, e);
    match e {
        EventView::Message(MessageView::AppendEntriesResponse(m)) => {
            if m.term == s.current_term && s.role == Role::Leader && peer_pos(s.peers, m.from) is Some
                && s.leader is Some {
                let p = peer_pos(s.peers, m.from)->0;
                let ls = s.leader->0;
                if m.success {
                    let ls2 = if m.match_index > ls.match_index[p] {
                        LeaderView {
                            match_index: ls.match_index.update(p, m.match_index),
                            next_index: ls.next_index.update(p, (m.match_index + 1) as LogIndex),
                        }
                    } else {
                        ls
                    };
                    lemma_try_advance_count(RaftView { leader: Some(ls2), ..s });
                }
            }
        },
        EventView::Message(MessageView::AppendEntries(m)) => {
            let s1 = if m.term > s.current_term { step_down(s, m.term) } else { s };
            if m.term >= s1.current_term {
                let s2b = if s1.role == Role::Candidate {
                    RaftView { role: Role::Follower, candidate: None, ..s1 }
                } else {
                    s1
                };
                if log_matches_at(s2b.log, m.prev_log_index, m.prev_log_term) {
                    let s3 = RaftView {
                        known_leader: Some(m.leader_id),
                        log: reconcile(s2b.log, m.entries, 0),
                        commit_index: crate::raft::model::accepted_commit(s2b.commit_index, m),
                        ..s2b
                    };
                    lemma_apply_committed_count(s3);
                    let head = seq![ActionView::ResetElectionTimer, crate::raft::model::append_reply(apply_committed(s3).0, m.leader_id, true, crate::raft::model::last_new_index(m))];
                    lemma_no_applies(head);
                    lemma_applies_concat(head, apply_committed(s3).1);
                } else {
                    lemma_no_applies(acts);
                }
            } else {
                lemma_no_applies(acts);
            }
        },
        EventView::Message(MessageView::RequestVote(m)) => {
            lemma_no_applies(acts);
        },
        EventView::Message(MessageView::RequestVoteResponse(m)) => {
            lemma_no_applies(acts);
        },
        EventView::ClientRequest(cmd) => {
            if s.role == Role::Leader && s.peers.len() == 0 {
                let entry = LogEntry {
                    index: (last_index(s.log) + 1) as LogIndex,
                    term: s.current_term,
                    command: cmd,
                };
                let s1 = RaftView { log: s.log.push(entry), ..s };
                lemma_try_advance_count(s1);
                let head = seq![ActionView::ResetHeartbeatTimer];
                lemma_no_applies(head);
                lemma_applies_concat(head, try_advance_commit(s1).1);
            } else {
                lemma_no_applies(acts);
            }
        },
        EventView::ElectionTimeout => {
            if s.role != Role::Leader && s.peers.len() > 0 {
                assert forall|i: int| 0 <= i < acts.len() implies !(#[trigger] acts[i] is ApplyCommand) by {
                    if i >= 1 {
                        assert(acts[i] == ActionView::Send(s.peers[i - 1], MessageView::RequestVote(crate::raft::model::vote_request(s2))));
                    }
                }
            }
            lemma_no_applies(acts);
        },
        EventView::HeartbeatTimeout => {
            if s.role == Role::Leader {
                assert forall|i: int| 0 <= i < acts.len() implies !(#[trigger] acts[i] is ApplyCommand) by {
                    if i >= 1 {
                        assert(acts[i] == ActionView::Send(s.peers[i - 1], MessageView::AppendEntries(crate::raft::model::append_for_peer(s, i - 1))));
                    }
                }
            }
            lemma_no_applies(acts);
        },
    }
}

// ── node-state consistency ───────────────────────────────────────────────────

/// The node's state is consistent: exactly a leader has leader state, only
/// a candidate has election state, and the leader vectors have one entry
/// per peer with every `next_index` at least 1.
pub open spec fn consistent(s: RaftView) -> bool {
    &&& (s.role == Role::Leader <==> s.leader is Some)
    &&& (s.candidate is Some ==> s.role == Role::Candidate)
    &&& (s.leader matches Some(ls) ==> {
        &&& ls.next_index.len() == s.peers.len()
        &&& ls.match_index.len() == s.peers.len()
        &&& forall|i: int| 0 <= i < ls.next_index.len() ==> #[trigger] ls.next_index[i] >= 1
    })
}

/// A fresh or restored node is consistent.
pub proof fn law_fresh_node_is_consistent(s: RaftView, id: NodeId, peers: Seq<NodeId>)
    requires
        s.fresh(id, peers),
    ensures
        consistent(s),
{
}

/// Every step keeps the node consistent and keeps its identity and peers.
pub proof fn law_step_keeps_node_consistent(s: RaftView, e: EventView)
    requires
        consistent(s),
        step_safe(s, e),
    ensures
        consistent(step(s, e).0),
        step(s, e).0.id == s.id,
        step(s, e).0.peers == s.peers,
{
    match e {
        EventView::Message(MessageView::AppendEntriesResponse(m)) => {
            if m.term == s.current_term && s.role == Role::Leader && peer_pos(s.peers, m.from) is Some
                && s.leader is Some {
                let p = peer_pos(s.peers, m.from)->0;
                let ls = s.leader->0;
                if m.success {
                    let ls2 = if m.match_index > ls.match_index[p] {
                        LeaderView {
                            match_index: ls.match_index.update(p, m.match_index),
                            next_index: ls.next_index.update(p, (m.match_index + 1) as LogIndex),
                        }
                    } else {
                        ls
                    };
                    lemma_try_advance_frame(RaftView { leader: Some(ls2), ..s });
                }
            }
        },
        EventView::Message(MessageView::AppendEntries(m)) => {
            let s1 = if m.term > s.current_term { step_down(s, m.term) } else { s };
            if m.term >= s1.current_term {
                let s2b = if s1.role == Role::Candidate {
                    RaftView { role: Role::Follower, candidate: None, ..s1 }
                } else {
                    s1
                };
                if log_matches_at(s2b.log, m.prev_log_index, m.prev_log_term) {
                    lemma_apply_committed_frame(
                        RaftView {
                            known_leader: Some(m.leader_id),
                            log: reconcile(s2b.log, m.entries, 0),
                            commit_index: crate::raft::model::accepted_commit(s2b.commit_index, m),
                            ..s2b
                        },
                    );
                }
            }
        },
        EventView::ClientRequest(c) => {
            if s.role == Role::Leader && s.peers.len() == 0 {
                let entry = LogEntry {
                    index: (last_index(s.log) + 1) as LogIndex,
                    term: s.current_term,
                    command: c,
                };
                lemma_try_advance_frame(RaftView { log: s.log.push(entry), ..s });
            }
        },
        _ => {},
    }
}

} // verus!
