//! One step of one node keeps the commitment invariant.
use vstd::prelude::*;
use crate::protocol::action::ActionView;
use crate::protocol::event::EventView;
use crate::protocol::log::{last_index, LogEntry};
use crate::protocol::message::{AppendEntriesView, MessageView};
use crate::protocol::types::{LogIndex, NodeId, Term};
use crate::raft::cluster::{enabled, inv, lemma_node_step, next, Ack, ClusterView};
use crate::raft::commitment::{
    acked, acks_durable, acks_sound, agree, choosable, commit_inv, committed, commits_covered, covered,
    ends_in, entries_from_led, history_complete, led_agree, led_complete, led_sound, leaders_recorded,
    lemma_accept_merges, lemma_choosable_back, lemma_committed_forward, lemma_up_to_date_holds,
    matches_acked, prefix_of, quorum, replies_acked, requests_ok, terms_bounded, votes_complete,
    votes_recorded, votes_target, appends_led,
};
use crate::raft::laws::{consistent, law_step_keeps_node_consistent, law_term_never_decreases, lemma_try_advance_frame};
use crate::raft::log_matching::{log_inv, term_led};
use crate::raft::model::{
    append_for_peer, append_reply, apply_committed, candidate_up_to_date, last_new_index, peer_pos,
    reconcile, step, step_down, step_safe, vote_request,
};
use crate::raft::cluster::{lemma_apply_actions_no_send, lemma_try_advance_no_send, takes_entries};
use crate::protocol::log::log_matches_at;
use crate::raft::{LeaderView, RaftView, Role};

verus! {

/// How a node can be a candidate or the leader after a step, and how its
/// vote can change.
#[verifier::rlimit(50)]
pub(crate) proof fn lemma_node_transitions(s: RaftView, e: EventView)
    requires
        step_safe(s, e),
    ensures
        ({
            let s2 = step(s, e).0;
            &&& (s2.role != Role::Follower && s2.current_term == s.current_term) ==> s.role != Role::Follower
            &&& (s.role == Role::Candidate && s2.role != Role::Follower && s2.current_term == s.current_term)
                ==> s2.log == s.log
            &&& (s2.role != Role::Follower && s2.current_term != s.current_term) ==> (e is ElectionTimeout
                && s2.log == s.log && s2.current_term == s.current_term + 1)
            &&& (s2.voted_for is Some && !(s.voted_for == s2.voted_for && s.current_term == s2.current_term))
                ==> ((e is ElectionTimeout && s2.voted_for == Some(s.id) && s2.log == s.log && s2.current_term
                == s.current_term + 1) || (e is Message && e->Message_0 is RequestVote && s2.voted_for == Some(
                e->Message_0->RequestVote_0.candidate_id) && s2.current_term == e->Message_0->RequestVote_0.term
                && candidate_up_to_date(s.log, e->Message_0->RequestVote_0) && s2.log == s.log && (s2.role
                != Role::Follower ==> s.current_term == s2.current_term)))
        }),
{
    lemma_node_step(s, e);
    law_term_never_decreases(s, e);
    let s2 = step(s, e).0;
    match e {
        EventView::Message(MessageView::AppendEntriesResponse(m)) => {
            if m.term == s.current_term && s.role == Role::Leader && peer_pos(s.peers, m.from) is Some
                && s.leader is Some {
                let p = peer_pos(s.peers, m.from)->0;
                let ls = s.leader->0;
                if m.success {
                    let ls2 = if m.match_index > ls.match_index[p] {
                        LeaderView {
                            match_index: ls.match_index.update(p, m.match_index),
                            next_index: ls.next_index.update(p, (m.match_index + 1) as LogIndex),
                        }
                    } else {
                        ls
                    };
                    lemma_try_advance_frame(RaftView { leader: Some(ls2), ..s });
                }
            }
        },
        EventView::ClientRequest(cmd) => {
            if s.role == Role::Leader && s.peers.len() == 0 {
                let entry = LogEntry {
                    index: (last_index(s.log) + 1) as LogIndex,
                    term: s.current_term,
                    command: cmd,
                };
                lemma_try_advance_frame(RaftView { log: s.log.push(entry), ..s });
            }
        },
        _ => {},
    }
}

/// What one step of node `n` changes in the cluster, as far as the
/// commitment invariant looks: only `n`'s state, terms only grow, and every
/// new acknowledgement is `n`'s in its new term.
#[verifier::rlimit(50)]
pub(crate) proof fn lemma_step_frame(c: ClusterView, n: NodeId, e: EventView)
    requires
        inv(c),
        commit_inv(c),
        enabled(c, n, e),
    ensures
        ({
            let s = c.nodes[n];
            let s2 = step(s, e).0;
            let c2 = next(c, n, e);
            &&& c.members.contains(n)
            &&& c2.members == c.members
            &&& c2.nodes[n] == s2
            &&& forall|k: NodeId| k != n ==> #[trigger] c2.nodes[k] == c.nodes[k]
            &&& forall|w: NodeId| #[trigger] c.members.contains(w) ==> c2.nodes[w].current_term >= c.nodes[w].current_term
            &&& s2.id == n
            &&& s2.peers == s.peers
            &&& s2.current_term >= s.current_term
            &&& consistent(s)
            &&& consistent(s2)
            &&& c.acks.subset_of(c2.acks)
            &&& c.led.subset_of(c2.led)
            &&& c.logs.subset_of(c2.logs)
            &&& c.votes.subset_of(c2.votes)
            &&& c.network.subset_of(c2.network)
            &&& forall|k: Ack| #[trigger] c2.acks.contains(k) ==> c.acks.contains(k) || (k.0 == n && k.1 == s2.current_term)
            &&& forall|k: Ack| #[trigger] c2.acks.contains(k) ==> c.acks.contains(k) || c.nodes[k.0].current_term <= k.1
            &&& forall|t: Term, y: Seq<LogEntry>| #[trigger] c2.led.contains((t, y)) ==> c.led.contains((t, y)) || (s2.role == Role::Leader && t == s2.current_term && y == s2.log)
        }),
{
    let s = c.nodes[n];
    let s2 = step(s, e).0;
    let c2 = next(c, n, e);
    assert(c.members.contains(n));
    assert(c.nodes[n].id == n);
    law_term_never_decreases(s, e);
    law_step_keeps_node_consistent(s, e);
    assert forall|w: NodeId| #[trigger] c.members.contains(w) implies c2.nodes[w].current_term >= c.nodes[w].current_term by {
        if w != n {
            assert(c2.nodes[w] == c.nodes[w]);
        }
    }
}

/// An `AppendEntries` that member `n` takes comes from a leader's log `y`
/// of the message's term whose entries up to the leader's commit index are
/// committed; the step merges it as `lemma_accept_merges` says.
#[verifier::rlimit(50)]
pub(crate) proof fn lemma_accept_in_cluster(c: ClusterView, n: NodeId, m: AppendEntriesView) -> (y: Seq<LogEntry>)
    requires
        c.members.contains(n),
        crate::raft::log_matching::history_ok(c),
        crate::raft::log_matching::history_indexed(c),
        crate::raft::log_matching::history_matches(c),
        appends_led(c),
        led_sound(c),
        terms_bounded(c),
        exists|src: NodeId| c.network.contains((src, n, MessageView::AppendEntries(m))),
        takes_entries(c.nodes[n], EventView::Message(MessageView::AppendEntries(m))),
    ensures
        c.led.contains((m.term, y)),
        c.logs.contains(y),
        m.leader_commit <= y.len(),
        covered(c, y, m.leader_commit as int, m.term),
        m.prev_log_index <= y.len(),
        m.entries == y.skip(m.prev_log_index as int),
        forall|i: int| 0 <= i < y.len() ==> #[trigger] y[i].term <= m.term,
        ({
            let s = c.nodes[n];
            let s2 = crate::raft::model::append_entries(s, m).0;
            &&& s2.current_term == m.term
            &&& prefix_of(y, s2.log)
            &&& last_new_index(m) == y.len()
            &&& s2.commit_index == crate::raft::model::accepted_commit(s.commit_index, m)
            &&& forall|i: int| 0 <= i < s2.log.len() ==> #[trigger] s2.log[i].term <= m.term
            &&& forall|a: Seq<LogEntry>| prefix_of(a, s.log) && agree(a, y) ==> #[trigger] prefix_of(a, s2.log)
            &&& s2.voted_for == (if m.term > s.current_term { None } else { s.voted_for })
            &&& s2.role == Role::Leader ==> s.role == Role::Leader && m.term == s.current_term
            &&& s2.role == Role::Candidate ==> false
        }),
{
    let s = c.nodes[n];
    let src = choose|src: NodeId| c.network.contains((src, n, MessageView::AppendEntries(m)));
    let p = (src, n, MessageView::AppendEntries(m));
    assert(c.network.contains(p));
    assert(c.logs.contains(s.log));
    assert(crate::raft::log_matching::indexed(s.log));
    if m.prev_log_index > 0 {
        let q = choose|q: int| 0 <= q < s.log.len() && s.log[q].index == m.prev_log_index && s.log[q].term == m.prev_log_term;
        assert(s.log[q].term >= 1);
    }
    let y = choose|y: Seq<LogEntry>|
        #[trigger] c.led.contains((m.term, y)) && m.prev_log_index <= y.len() && m.entries == y.skip(
            m.prev_log_index as int,
        ) && (m.prev_log_index == 0 || y[m.prev_log_index - 1].term == m.prev_log_term)
            && m.leader_commit <= y.len() && covered(c, y, m.leader_commit as int, m.term);
    assert(c.logs.contains(y));
    assert(crate::raft::log_matching::indexed(y));
    assert(crate::raft::log_matching::logs_match(s.log, y));
    assert forall|i: int| 0 <= i < s.log.len() implies #[trigger] s.log[i].term <= m.term by {
        assert(s.log[i].term <= c.nodes[n].current_term);
    }
    lemma_accept_merges(s, m, y, m.term);
    y
}

/// Terms stay bounded, current votes stay recorded, votes go to members
/// that reached their term, and vote requests keep describing their
/// candidates' logs.
#[verifier::rlimit(50)]
pub(crate) proof fn lemma_step_keeps_terms_and_votes(c: ClusterView, n: NodeId, e: EventView)
    requires
        inv(c),
        log_inv(c),
        commit_inv(c),
        enabled(c, n, e),
    ensures
        terms_bounded(next(c, n, e)),
        votes_recorded(next(c, n, e)),
        votes_target(next(c, n, e)),
        requests_ok(next(c, n, e)),
{
    let s = c.nodes[n];
    let (s2, acts) = step(s, e);
    let c2 = next(c, n, e);
    lemma_step_frame(c, n, e);
    lemma_log_change(s, e);
    lemma_node_transitions(s, e);
    lemma_sends(s, e);
    crate::raft::log_matching::lemma_new_log(c, n, e);
    // terms
    assert forall|k: NodeId, i: int| #![trigger c2.nodes[k].log[i]] c2.members.contains(k) && 0 <= i < c2.nodes[k].log.len()
        implies c2.nodes[k].log[i].term <= c2.nodes[k].current_term by {
        if k != n {
            assert(c2.nodes[k] == c.nodes[k]);
        } else if s2.log == s.log {
            assert(s.log[i].term <= s.current_term);
        } else if takes_entries(s, e) {
            let m = e->Message_0->AppendEntries_0;
            let y = lemma_accept_in_cluster(c, n, m);
            assert(s2.log[i].term <= m.term);
        } else {
            if i < s.log.len() {
                assert(s2.log[i] == s.log[i]);
                assert(s.log[i].term <= s.current_term);
            }
        }
    }
    // recorded votes
    assert forall|k: NodeId| #![trigger c2.nodes[k]] c2.members.contains(k) && c2.nodes[k].voted_for is Some
        implies c2.votes.contains((k, c2.nodes[k].current_term, c2.nodes[k].voted_for->0)) by {
        if k != n {
            assert(c2.nodes[k] == c.nodes[k]);
            assert(c.votes.contains((k, c.nodes[k].current_term, c.nodes[k].voted_for->0)));
        }
    }
    // vote targets
    assert forall|v: crate::raft::cluster::Vote| #[trigger] c2.votes.contains(v) implies c2.members.contains(v.2)
        && c2.nodes[v.2].current_term >= v.1 by {
        if c.votes.contains(v) {
            assert(c.members.contains(v.2) && c.nodes[v.2].current_term >= v.1);
        } else {
            assert(v == (n, s2.current_term, s2.voted_for->0));
            if s.voted_for == s2.voted_for && s.current_term == s2.current_term {
                assert(c.votes.contains((n, s.current_term, s.voted_for->0)));
            } else if e is ElectionTimeout {
            } else {
                let m = e->Message_0->RequestVote_0;
                let src = choose|src: NodeId| c.network.contains((src, n, MessageView::RequestVote(m)));
                assert(c.network.contains((src, n, MessageView::RequestVote(m))));
                assert(c.members.contains(m.candidate_id));
            }
        }
    }
    // vote requests
    assert forall|p: crate::raft::cluster::Packet| #[trigger] c2.network.contains(p) implies match p.2 {
        MessageView::RequestVote(m) => {
            &&& c2.members.contains(m.candidate_id)
            &&& c2.nodes[m.candidate_id].current_term >= m.term
            &&& (c2.nodes[m.candidate_id].current_term == m.term && c2.nodes[m.candidate_id].role
                != Role::Follower) ==> {
                &&& m.last_log_index <= c2.nodes[m.candidate_id].log.len()
                &&& m.last_log_index == 0 ==> m.last_log_term == 0
                &&& m.last_log_index > 0 ==> c2.nodes[m.candidate_id].log[m.last_log_index - 1].term
                    == m.last_log_term
            }
        },
        _ => true,
    } by {
        if let MessageView::RequestVote(m) = p.2 {
            let l = m.candidate_id;
            if c.network.contains(p) {
                assert(c.members.contains(l) && c.nodes[l].current_term >= m.term);
                if l == n && s2.current_term == m.term && s2.role != Role::Follower {
                    if s2.current_term != s.current_term {
                        assert(false);
                    }
                    assert(s.role != Role::Follower);
                    if s.role == Role::Candidate {
                        assert(s2.log == s.log);
                    } else {
                        assert(s2.log == s.log || crate::raft::log_matching::pushed(s, s2, e));
                        if m.last_log_index > 0 {
                            assert(s2.log[m.last_log_index - 1] == s.log[m.last_log_index - 1]);
                        }
                    }
                }
            } else {
                assert(crate::raft::cluster::sends(n, acts).contains(p));
                let i = choose|i: int| 0 <= i < acts.len() && #[trigger] acts[i] == ActionView::Send(p.1, p.2);
                assert(send_ok(acts[i], s, e, s2));
                assert(crate::raft::log_matching::indexed(s.log));
                if s.log.len() > 0 {
                    assert(s.log[s.log.len() - 1].index == s.log.len());
                }
            }
        }
    }
}

/// A piece of log that is choosable in a term the node reached, that a
/// leader held in that term, and that the node holds, stays in its log.
#[verifier::rlimit(50)]
pub(crate) proof fn lemma_step_keeps_piece(c: ClusterView, n: NodeId, e: EventView, a: Seq<LogEntry>, u: Term, ya: Seq<LogEntry>)
    requires
        inv(c),
        log_inv(c),
        commit_inv(c),
        enabled(c, n, e),
        choosable(c, a, u),
        u <= c.nodes[n].current_term,
        prefix_of(a, c.nodes[n].log),
        c.led.contains((u, ya)),
        prefix_of(a, ya),
    ensures
        prefix_of(a, step(c.nodes[n], e).0.log),
{
    let s = c.nodes[n];
    let s2 = step(s, e).0;
    lemma_step_frame(c, n, e);
    lemma_log_change(s, e);
    if s2.log != s.log {
        if takes_entries(s, e) {
            let m = e->Message_0->AppendEntries_0;
            let y = lemma_accept_in_cluster(c, n, m);
            if m.term > u {
                assert(prefix_of(a, y));
            } else {
                assert(agree(ya, y));
            }
            assert(agree(a, y));
        } else {
            assert forall|i: int| 0 <= i < a.len() implies #[trigger] a[i] == s2.log[i] by {
                assert(s2.log[i] == s.log[i]);
            }
        }
    }
}

/// Acknowledged choosable pieces stay in their nodes' logs.
#[verifier::rlimit(50)]
pub(crate) proof fn lemma_step_keeps_acks_durable(c: ClusterView, n: NodeId, e: EventView)
    requires
        inv(c),
        log_inv(c),
        commit_inv(c),
        enabled(c, n, e),
    ensures
        acks_durable(next(c, n, e)),
{
    let s = c.nodes[n];
    let s2 = step(s, e).0;
    let c2 = next(c, n, e);
    lemma_step_frame(c, n, e);
    lemma_choosable_back(c, c2);
    assert forall|k: Ack, a: Seq<LogEntry>|
        #![trigger c2.acks.contains(k), choosable(c2, a, k.1)]
        c2.acks.contains(k) && choosable(c2, a, k.1) && prefix_of(a, k.2) implies prefix_of(a, c2.nodes[k.0].log) by {
        assert(choosable(c, a, k.1));
        if c.acks.contains(k) {
            assert(prefix_of(a, c.nodes[k.0].log));
            if k.0 == n {
                assert(c.led.contains((k.1, k.2)));
                assert(c.nodes[n].current_term >= k.1);
                lemma_step_keeps_piece(c, n, e, a, k.1, k.2);
            } else {
                assert(c2.nodes[k.0] == c.nodes[k.0]);
            }
        } else if k == (n, s2.current_term, s2.log) {
        } else {
            assert(takes_entries(s, e));
            let m = e->Message_0->AppendEntries_0;
            let y = lemma_accept_in_cluster(c, n, m);
            assert(k.2 == s2.log.take(last_new_index(m) as int));
            assert forall|i: int| 0 <= i < a.len() implies #[trigger] a[i] == s2.log[i] by {
                assert(a[i] == k.2[i]);
            }
        }
    }
}

/// A vote cast for node `n` before its step, for a piece choosable before it.
#[verifier::rlimit(40)]
proof fn lemma_old_vote_complete(c: ClusterView, n: NodeId, e: EventView, v: crate::raft::cluster::Vote, a: Seq<LogEntry>, u: Term)
    requires
        inv(c),
        log_inv(c),
        commit_inv(c),
        enabled(c, n, e),
        c.votes.contains(v),
        v.2 == n,
        u < v.1,
        choosable(c, a, u),
        acked(c, v.0, u, a),
        step(c.nodes[n], e).0.current_term == v.1,
        step(c.nodes[n], e).0.role != Role::Follower,
    ensures
        prefix_of(a, step(c.nodes[n], e).0.log),
{
    let s = c.nodes[n];
    let s2 = step(s, e).0;
    lemma_step_frame(c, n, e);
    lemma_node_transitions(s, e);
    crate::raft::log_matching::lemma_new_log(c, n, e);
    assert(c.nodes[n].current_term >= v.1);
    assert(s2.current_term == s.current_term);
    assert(s.role != Role::Follower);
    assert(prefix_of(a, s.log));
    if s.role == Role::Leader {
        assert(s2.log == s.log || crate::raft::log_matching::pushed(s, s2, e));
    }
    assert forall|i: int| 0 <= i < a.len() implies #[trigger] a[i] == s2.log[i] by {
        assert(s2.log[i] == s.log[i]);
    }
}

/// A vote node `n` grants on a request, for a piece it acknowledged.
#[verifier::rlimit(40)]
proof fn lemma_granted_vote_complete(c: ClusterView, n: NodeId, m: crate::protocol::message::RequestVote, a: Seq<LogEntry>, u: Term)
    requires
        inv(c),
        log_inv(c),
        commit_inv(c),
        enabled(c, n, EventView::Message(MessageView::RequestVote(m))),
        u < m.term,
        choosable(c, a, u),
        acked(c, n, u, a),
        prefix_of(a, c.nodes[n].log),
        candidate_up_to_date(c.nodes[n].log, m),
        next(c, n, EventView::Message(MessageView::RequestVote(m))).nodes[m.candidate_id].current_term == m.term,
        next(c, n, EventView::Message(MessageView::RequestVote(m))).nodes[m.candidate_id].role != Role::Follower,
    ensures
        prefix_of(a, next(c, n, EventView::Message(MessageView::RequestVote(m))).nodes[m.candidate_id].log),
{
    let e = EventView::Message(MessageView::RequestVote(m));
    let s = c.nodes[n];
    let s2 = step(s, e).0;
    let c2 = next(c, n, e);
    lemma_step_frame(c, n, e);
    lemma_node_transitions(s, e);
    let l = m.candidate_id;
    let src = choose|src: NodeId| c.network.contains((src, n, MessageView::RequestVote(m)));
    assert(c.network.contains((src, n, MessageView::RequestVote(m))));
    assert(c.logs.contains(s.log));
    if l != n {
        assert(c2.nodes[l] == c.nodes[l]);
        assert(c.logs.contains(c.nodes[l].log));
        lemma_up_to_date_holds(c, s.log, c.nodes[l].log, m.last_log_index as int, m.last_log_term, a, u, n);
    } else {
        assert(s2.log == s.log);
        assert(s.current_term == m.term);
        assert(s.role != Role::Follower);
        lemma_up_to_date_holds(c, s.log, s.log, m.last_log_index as int, m.last_log_term, a, u, n);
    }
}

/// One vote of the cluster after a step, for one piece choosable before it.
#[verifier::rlimit(60)]
proof fn lemma_vote_complete_one(c: ClusterView, n: NodeId, e: EventView, v: crate::raft::cluster::Vote, a: Seq<LogEntry>, u: Term)
    requires
        inv(c),
        log_inv(c),
        commit_inv(c),
        enabled(c, n, e),
        next(c, n, e).votes.contains(v),
        u < v.1,
        choosable(c, a, u),
        acked(c, v.0, u, a),
        next(c, n, e).nodes[v.2].current_term == v.1,
        next(c, n, e).nodes[v.2].role != Role::Follower,
    ensures
        prefix_of(a, next(c, n, e).nodes[v.2].log),
{
    let s = c.nodes[n];
    let s2 = step(s, e).0;
    let c2 = next(c, n, e);
    lemma_step_frame(c, n, e);
    lemma_node_transitions(s, e);
    let l = v.2;
    if c.votes.contains(v) {
        if l != n {
            assert(c2.nodes[l] == c.nodes[l]);
        } else {
            lemma_old_vote_complete(c, n, e, v, a, u);
        }
    } else {
        assert(v == (n, s2.current_term, s2.voted_for->0));
        if s.voted_for == s2.voted_for && s.current_term == s2.current_term {
            assert(c.votes.contains((n, s.current_term, s.voted_for->0)));
        }
        let ya = choose|y: Seq<LogEntry>| #[trigger] c.acks.contains((n, u, y)) && prefix_of(a, y);
        assert(c.acks.contains((n, u, ya)));
        assert(prefix_of(a, s.log));
        if e is ElectionTimeout {
        } else {
            let m = e->Message_0->RequestVote_0;
            lemma_granted_vote_complete(c, n, m, a, u);
        }
    }
}

/// Candidates and leaders keep holding what their voters acknowledged.
#[verifier::rlimit(50)]
pub(crate) proof fn lemma_step_keeps_votes_complete(c: ClusterView, n: NodeId, e: EventView)
    requires
        inv(c),
        log_inv(c),
        commit_inv(c),
        enabled(c, n, e),
    ensures
        votes_complete(next(c, n, e)),
{
    let s = c.nodes[n];
    let s2 = step(s, e).0;
    let c2 = next(c, n, e);
    lemma_step_frame(c, n, e);
    lemma_choosable_back(c, c2);
    crate::raft::cluster::law_step_preserves_invariant(c, n, e);
    assert forall|v: crate::raft::cluster::Vote, a: Seq<LogEntry>, u: Term|
        #![trigger c2.votes.contains(v), choosable(c2, a, u)]
        c2.votes.contains(v) && u < v.1 && choosable(c2, a, u) && acked(c2, v.0, u, a) && c2.nodes[v.2].current_term
            == v.1 && c2.nodes[v.2].role != Role::Follower implies prefix_of(a, c2.nodes[v.2].log) by {
        assert(choosable(c, a, u));
        let ya = choose|y: Seq<LogEntry>| #[trigger] c2.acks.contains((v.0, u, y)) && prefix_of(a, y);
        assert(c2.acks.contains((v.0, u, ya)));
        assert(c2.nodes[v.0].current_term >= v.1);
        assert(c.acks.contains((v.0, u, ya)));
        assert(acked(c, v.0, u, a));
        lemma_vote_complete_one(c, n, e, v, a, u);
    }
}

/// A node that becomes the leader finds no log of its new term recorded.
#[verifier::rlimit(50)]
proof fn lemma_new_leader_term_unused(c: ClusterView, n: NodeId, e: EventView)
    requires
        inv(c),
        log_inv(c),
        commit_inv(c),
        enabled(c, n, e),
        step(c.nodes[n], e).0.role == Role::Leader,
        !(c.nodes[n].role == Role::Leader && step(c.nodes[n], e).0.current_term == c.nodes[n].current_term),
    ensures
        forall|y: Seq<LogEntry>| !c.led.contains((step(c.nodes[n], e).0.current_term, y)),
{
    let s = c.nodes[n];
    let s2 = step(s, e).0;
    let c2 = next(c, n, e);
    lemma_step_frame(c, n, e);
    lemma_node_step(s, e);
    crate::raft::cluster::law_step_preserves_invariant(c, n, e);
    let t2 = s2.current_term;
    assert forall|y: Seq<LogEntry>| !c.led.contains((t2, y)) by {
        if c.led.contains((t2, y)) {
            assert(term_led(c, t2));
            let l = choose|l: NodeId| #[trigger] crate::raft::log_matching::led_by(c, l, t2);
            let q1 = choose|q: Set<NodeId>| #[trigger] crate::raft::cluster::quorum_voted(c, q, l, t2);
            assert(crate::raft::cluster::quorum_voted(c2, q1, l, t2));
            assert(c2.members.contains(n) && c2.nodes[n].role == Role::Leader);
            let q2 = choose|q: Set<NodeId>| #[trigger] crate::raft::cluster::quorum_voted(c2, q, n, c2.nodes[n].current_term);
            crate::raft::cluster::lemma_one_quorum_per_term(c2, l, q1, n, q2, t2);
        }
    }
}

/// A newly elected leader holds everything choosable in earlier terms.
#[verifier::rlimit(50)]
proof fn lemma_elected_holds(c: ClusterView, n: NodeId, e: EventView, a: Seq<LogEntry>, u: Term)
    requires
        inv(c),
        log_inv(c),
        commit_inv(c),
        enabled(c, n, e),
        step(c.nodes[n], e).0.role == Role::Leader,
        u < step(c.nodes[n], e).0.current_term,
        choosable(next(c, n, e), a, u),
    ensures
        prefix_of(a, step(c.nodes[n], e).0.log),
{
    let s = c.nodes[n];
    let s2 = step(s, e).0;
    let c2 = next(c, n, e);
    lemma_step_frame(c, n, e);
    crate::raft::cluster::law_step_preserves_invariant(c, n, e);
    lemma_step_keeps_votes_complete(c, n, e);
    let t2 = s2.current_term;
    assert(c2.members.contains(n) && c2.nodes[n].role == Role::Leader);
    let q2 = choose|q: Set<NodeId>| #[trigger] crate::raft::cluster::quorum_voted(c2, q, n, c2.nodes[n].current_term);
    let q1 = choose|q: Set<NodeId>| #[trigger] quorum(c2, q) && forall|w: NodeId| #[trigger]
        q.contains(w) ==> c2.nodes[w].current_term <= u || acked(c2, w, u, a);
    assert(c2.members.len() >= 1) by {
        if c2.members.len() == 0 {
            assert(c2.members =~= Set::empty());
        }
    }
    vstd::set_lib::lemma_len_subset(q2, c2.members);
    crate::raft::cluster::lemma_quorums_overlap(c2.members, q1, q2);
    let v = choose|v: NodeId| q1.contains(v) && q2.contains(v);
    assert(c2.votes.contains((v, t2, n)));
    assert(c2.nodes[v].current_term >= t2);
    assert(acked(c2, v, u, a));
    assert(c2.votes.contains((v, t2, n)) && u < t2 && choosable(c2, a, u) && acked(c2, v, u, a));
}

/// The leaders' logs stay sound, agreeing and complete, and every leader's
/// log stays recorded.
#[verifier::rlimit(40)]
pub(crate) proof fn lemma_step_keeps_leaders(c: ClusterView, n: NodeId, e: EventView)
    requires
        inv(c),
        log_inv(c),
        commit_inv(c),
        enabled(c, n, e),
    ensures
        led_sound(next(c, n, e)),
        led_agree(next(c, n, e)),
        leaders_recorded(next(c, n, e)),
        led_complete(next(c, n, e)),
{
    let s = c.nodes[n];
    let s2 = step(s, e).0;
    let c2 = next(c, n, e);
    lemma_step_frame(c, n, e);
    lemma_choosable_back(c, c2);
    crate::raft::cluster::law_step_preserves_invariant(c, n, e);
    crate::raft::cluster::law_invariant_gives_election_safety(c2);
    crate::raft::log_matching::lemma_new_log(c, n, e);
    lemma_step_keeps_terms_and_votes(c, n, e);
    let cont = s.role == Role::Leader && s2.current_term == s.current_term;
    if s2.role == Role::Leader && !cont {
        lemma_new_leader_term_unused(c, n, e);
    }
    if cont && s2.role == Role::Leader {
        assert(c.led.contains((s.current_term, s.log)));
        assert(prefix_of(s.log, s2.log)) by {
            assert forall|i: int| 0 <= i < s.log.len() implies #[trigger] s.log[i] == s2.log[i] by {
                if s2.log != s.log {
                    assert(crate::raft::log_matching::pushed(s, s2, e));
                }
            }
        }
    }
    // soundness
    assert forall|t: Term, y: Seq<LogEntry>| #[trigger] c2.led.contains((t, y)) implies c2.logs.contains(y) && term_led(c2, t) && forall|i: int|
            0 <= i < y.len() ==> #[trigger] y[i].term <= t by {
        if c.led.contains((t, y)) {
            assert(term_led(c, t));
            let l = choose|l: NodeId| #[trigger] crate::raft::log_matching::led_by(c, l, t);
            crate::raft::log_matching::lemma_led_stays(c, n, e, l, t);
        } else {
            assert(s2.role == Role::Leader && t == s2.current_term && y == s2.log);
            let q = choose|q: Set<NodeId>| #[trigger] crate::raft::cluster::quorum_voted(c2, q, n, c2.nodes[n].current_term);
            assert(crate::raft::log_matching::led_by(c2, n, t));
            assert forall|i: int| 0 <= i < y.len() implies #[trigger] y[i].term <= t by {
                assert(c2.nodes[n].log[i].term <= c2.nodes[n].current_term);
            }
        }
    }
    // agreement
    assert forall|t: Term, y1: Seq<LogEntry>, y2: Seq<LogEntry>|
        #![trigger c2.led.contains((t, y1)), c2.led.contains((t, y2))]
        c2.led.contains((t, y1)) && c2.led.contains((t, y2)) implies agree(y1, y2) by {
        if c.led.contains((t, y1)) && c.led.contains((t, y2)) {
            assert(agree(y1, y2));
        } else if !c.led.contains((t, y1)) && !c.led.contains((t, y2)) {
            assert(y1 == y2);
        } else {
            let (yo, yn) = if c.led.contains((t, y1)) { (y1, y2) } else { (y2, y1) };
            assert(yn == s2.log && t == s2.current_term && s2.role == Role::Leader);
            assert(cont);
            assert(prefix_of(yo, s.log));
            assert forall|i: int| 0 <= i < y1.len() && i < y2.len() implies y1[i] == y2[i] by {
                assert(yo[i] == s.log[i]);
                assert(s.log[i] == s2.log[i]);
            }
        }
    }
    // leaders recorded
    assert forall|k: NodeId| #![trigger c2.nodes[k]] c2.members.contains(k) implies consistent(c2.nodes[k]) && (c2.nodes[k].role == Role::Leader ==> {
            let sk = c2.nodes[k];
            &&& c2.led.contains((sk.current_term, sk.log))
            &&& c2.acks.contains((k, sk.current_term, sk.log))
            &&& forall|y: Seq<LogEntry>| #[trigger] c2.led.contains((sk.current_term, y)) ==> prefix_of(y, sk.log)
        }) by {
        if k != n {
            assert(c2.nodes[k] == c.nodes[k]);
            if c.nodes[k].role == Role::Leader {
                assert forall|y: Seq<LogEntry>| #[trigger] c2.led.contains((c.nodes[k].current_term, y)) implies prefix_of(y, c.nodes[k].log) by {
                    if !c.led.contains((c.nodes[k].current_term, y)) {
                        assert(c2.nodes[n].role == Role::Leader && c2.nodes[n].current_term == c2.nodes[k].current_term);
                    }
                }
            }
        } else if s2.role == Role::Leader {
            assert forall|y: Seq<LogEntry>| #[trigger] c2.led.contains((s2.current_term, y)) implies prefix_of(y, s2.log) by {
                if c.led.contains((s2.current_term, y)) {
                    assert(cont);
                    assert(prefix_of(y, s.log));
                    assert forall|i: int| 0 <= i < y.len() implies #[trigger] y[i] == s2.log[i] by {
                        assert(y[i] == s.log[i]);
                    }
                } else {
                    assert(y == s2.log);
                }
            }
        }
    }
    // completeness
    assert forall|t: Term, y: Seq<LogEntry>, a: Seq<LogEntry>, u: Term|
        #![trigger c2.led.contains((t, y)), choosable(c2, a, u)]
        c2.led.contains((t, y)) && u < t && choosable(c2, a, u) implies prefix_of(a, y) by {
        assert(choosable(c, a, u));
        if !c.led.contains((t, y)) {
            assert(y == s2.log && t == s2.current_term);
            if cont {
                assert(prefix_of(a, s.log));
                assert forall|i: int| 0 <= i < a.len() implies #[trigger] a[i] == s2.log[i] by {
                    assert(a[i] == s.log[i]);
                }
            } else {
                lemma_elected_holds(c, n, e, a, u);
            }
        }
    }
}

/// A leader's match indices after a step: zero for a new leader, as before,
/// or, for the peer of a success reply of its term, the reported index.
#[verifier::rlimit(50)]
pub(crate) proof fn lemma_leader_matches(s: RaftView, e: EventView, j: int)
    requires
        step_safe(s, e),
        consistent(s),
        step(s, e).0.role == Role::Leader,
        0 <= j < step(s, e).0.leader->0.match_index.len(),
    ensures
        ({
            let s2 = step(s, e).0;
            let cont = s.role == Role::Leader && s2.current_term == s.current_term;
            ||| s2.leader->0.match_index[j] == 0
            ||| (cont && j < s.leader->0.match_index.len() && s2.leader->0.match_index[j] == s.leader->0.match_index[j])
            ||| (cont && e is Message && e->Message_0 is AppendEntriesResponse && ({
                let r = e->Message_0->AppendEntriesResponse_0;
                r.success && r.term == s.current_term && peer_pos(s.peers, r.from) == Some(j) && s2.leader->0.match_index[j] == r.match_index
            }))
        }),
{
    let s2 = step(s, e).0;
    law_step_keeps_node_consistent(s, e);
    match e {
        EventView::Message(MessageView::AppendEntriesResponse(m)) => {
            if m.term == s.current_term && s.role == Role::Leader && peer_pos(s.peers, m.from) is Some
                && s.leader is Some {
                let p = peer_pos(s.peers, m.from)->0;
                let ls = s.leader->0;
                if m.success {
                    let ls2 = if m.match_index > ls.match_index[p] {
                        LeaderView {
                            match_index: ls.match_index.update(p, m.match_index),
                            next_index: ls.next_index.update(p, (m.match_index + 1) as LogIndex),
                        }
                    } else {
                        ls
                    };
                    lemma_try_advance_frame(RaftView { leader: Some(ls2), ..s });
                }
            }
        },
        EventView::ClientRequest(cmd) => {
            if s.role == Role::Leader && s.peers.len() == 0 {
                let entry = LogEntry {
                    index: (last_index(s.log) + 1) as LogIndex,
                    term: s.current_term,
                    command: cmd,
                };
                lemma_try_advance_frame(RaftView { log: s.log.push(entry), ..s });
            }
        },
        _ => {},
    }
}

/// The peers at positions whose match index is at least `k` form a set of
/// as many members as `count_at_least` counts.
#[verifier::rlimit(50)]
pub(crate) proof fn lemma_count_set(peers: Seq<NodeId>, matches: Seq<LogIndex>, k: LogIndex) -> (q: Set<NodeId>)
    requires
        peers.no_duplicates(),
        matches.len() <= peers.len(),
    ensures
        q.finite(),
        q.len() == crate::raft::model::count_at_least(matches, k),
        forall|w: NodeId| #[trigger] q.contains(w) ==> exists|j: int| 0 <= j < matches.len() && peers[j] == w && matches[j] >= k,
    decreases matches.len(),
{
    if matches.len() == 0 {
        Set::empty()
    } else {
        let init = matches.drop_last();
        let q0 = lemma_count_set(peers, init, k);
        let j = matches.len() - 1;
        assert forall|w: NodeId| #[trigger] q0.contains(w) implies exists|i: int| 0 <= i < matches.len() && peers[i] == w && matches[i] >= k by {
            let i = choose|i: int| 0 <= i < init.len() && peers[i] == w && init[i] >= k;
            assert(matches[i] == init[i]);
        }
        if matches[j] >= k {
            assert(!q0.contains(peers[j])) by {
                if q0.contains(peers[j]) {
                    let i = choose|i: int| 0 <= i < init.len() && peers[i] == peers[j] && init[i] >= k;
                }
            }
            q0.insert(peers[j])
        } else {
            q0
        }
    }
}

/// How a step changes the commit index: not at all, by taking an
/// `AppendEntries`, or, at a leader that stays in its term, to the index of
/// an entry of its term that it and enough peers hold.
#[verifier::rlimit(50)]
pub(crate) proof fn lemma_commit_change(s: RaftView, e: EventView)
    requires
        step_safe(s, e),
        crate::raft::log_matching::indexed(s.log),
        s.commit_index <= s.log.len(),
    ensures
        ({
            let s2 = step(s, e).0;
            ||| s2.commit_index == s.commit_index
            ||| takes_entries(s, e)
            ||| (s2.role == Role::Leader && s.role == Role::Leader && s2.current_term == s.current_term
                && 1 <= s2.commit_index <= s2.log.len() && s2.log[s2.commit_index - 1].term == s.current_term
                && 1 + crate::raft::model::count_at_least(crate::raft::model::peer_matches(s2), s2.commit_index)
                >= crate::raft::quorum_of(s.peers.len()))
        }),
{
    let s2 = step(s, e).0;
    match e {
        EventView::Message(MessageView::AppendEntriesResponse(m)) => {
            if m.term == s.current_term && s.role == Role::Leader && peer_pos(s.peers, m.from) is Some
                && s.leader is Some {
                let p = peer_pos(s.peers, m.from)->0;
                let ls = s.leader->0;
                if m.success {
                    let ls2 = if m.match_index > ls.match_index[p] {
                        LeaderView {
                            match_index: ls.match_index.update(p, m.match_index),
                            next_index: ls.next_index.update(p, (m.match_index + 1) as LogIndex),
                        }
                    } else {
                        ls
                    };
                    let s1 = RaftView { leader: Some(ls2), ..s };
                    lemma_try_advance_frame(s1);
                    crate::raft::log_facts::law_commit_scan_is_highest_quorum_index(
                        s1.log, s1.log.len() as int, s1.commit_index, s1.current_term,
                        crate::raft::model::peer_matches(s1), crate::raft::quorum_of(s1.peers.len()));
                }
            }
        },
        EventView::ClientRequest(cmd) => {
            if s.role == Role::Leader && s.peers.len() == 0 {
                let entry = LogEntry {
                    index: (last_index(s.log) + 1) as LogIndex,
                    term: s.current_term,
                    command: cmd,
                };
                let s1 = RaftView { log: s.log.push(entry), ..s };
                lemma_try_advance_frame(s1);
                assert(crate::raft::log_facts::positioned(s1.log)) by {
                    if s.log.len() > 0 {
                        assert(s.log[s.log.len() - 1].index == s.log.len());
                    }
                    assert forall|p: int| 0 <= p < s1.log.len() implies (#[trigger] s1.log[p]).index == p + 1 by {
                        if p < s.log.len() {
                            assert(s1.log[p] == s.log[p]);
                        }
                    }
                }
                crate::raft::log_facts::law_commit_scan_is_highest_quorum_index(
                    s1.log, s1.log.len() as int, s1.commit_index, s1.current_term,
                    crate::raft::model::peer_matches(s1), crate::raft::quorum_of(s1.peers.len()));
            }
        },
        _ => {
            crate::raft::laws::law_commit_index_never_decreases(s, e);
        },
    }
}

/// Acknowledgements stay sound.
#[verifier::rlimit(40)]
proof fn lemma_step_keeps_acks_sound(c: ClusterView, n: NodeId, e: EventView)
    requires
        inv(c),
        log_inv(c),
        commit_inv(c),
        enabled(c, n, e),
    ensures
        acks_sound(next(c, n, e)),
{
    let s = c.nodes[n];
    let (s2, acts) = step(s, e);
    let c2 = next(c, n, e);
    lemma_step_frame(c, n, e);
    lemma_sends(s, e);
    if takes_entries(s, e) {
        let m = e->Message_0->AppendEntries_0;
        let y = lemma_accept_in_cluster(c, n, m);
        assert(s2.log.take(last_new_index(m) as int) =~= y);
    }
    assert forall|k: Ack| #[trigger] c2.acks.contains(k) implies c2.led.contains((k.1, k.2)) && c2.members.contains(k.0)
        && c2.nodes[k.0].current_term >= k.1 by {
        if c.acks.contains(k) {
            assert(c.led.contains((k.1, k.2)) && c.members.contains(k.0));
        }
    }
}

/// Success replies stay backed by acknowledgements.
#[verifier::rlimit(40)]
proof fn lemma_step_keeps_replies(c: ClusterView, n: NodeId, e: EventView)
    requires
        inv(c),
        log_inv(c),
        commit_inv(c),
        enabled(c, n, e),
    ensures
        replies_acked(next(c, n, e)),
{
    let s = c.nodes[n];
    let (s2, acts) = step(s, e);
    let c2 = next(c, n, e);
    lemma_step_frame(c, n, e);
    lemma_sends(s, e);
    if takes_entries(s, e) {
        let m = e->Message_0->AppendEntries_0;
        let y = lemma_accept_in_cluster(c, n, m);
        assert(s2.log.take(last_new_index(m) as int) =~= y);
    }
    assert forall|p: crate::raft::cluster::Packet| #[trigger] c2.network.contains(p) implies match p.2 {
        MessageView::AppendEntriesResponse(r) => r.success ==> exists|y: Seq<LogEntry>|
            #[trigger] c2.acks.contains((r.from, r.term, y)) && y.len() >= r.match_index,
        _ => true,
    } by {
        if let MessageView::AppendEntriesResponse(r) = p.2 {
            if r.success {
                if c.network.contains(p) {
                    let y = choose|y: Seq<LogEntry>| #[trigger] c.acks.contains((r.from, r.term, y)) && y.len() >= r.match_index;
                    assert(c2.acks.contains((r.from, r.term, y)));
                } else {
                    assert(crate::raft::cluster::sends(n, acts).contains(p));
                    let i = choose|i: int| 0 <= i < acts.len() && #[trigger] acts[i] == ActionView::Send(p.1, p.2);
                    assert(send_ok(acts[i], s, e, s2));
                    let m = e->Message_0->AppendEntries_0;
                    let yy = s2.log.take(last_new_index(m) as int);
                    assert(c2.acks.contains((n, s2.current_term, yy)));
                }
            }
        }
    }
}

/// Leaders' match indices stay backed by acknowledgements.
#[verifier::rlimit(60)]
proof fn lemma_step_keeps_matches(c: ClusterView, n: NodeId, e: EventView)
    requires
        inv(c),
        log_inv(c),
        commit_inv(c),
        enabled(c, n, e),
    ensures
        matches_acked(next(c, n, e)),
{
    let s = c.nodes[n];
    let (s2, acts) = step(s, e);
    let c2 = next(c, n, e);
    lemma_step_frame(c, n, e);
    lemma_sends(s, e);
    if takes_entries(s, e) {
        let m = e->Message_0->AppendEntries_0;
        let y = lemma_accept_in_cluster(c, n, m);
        assert(s2.log.take(last_new_index(m) as int) =~= y);
    }
    assert forall|k: NodeId| #![trigger c2.nodes[k]] c2.members.contains(k) && c2.nodes[k].role == Role::Leader implies forall|j: int|
            0 <= j < c2.nodes[k].leader->0.match_index.len() && #[trigger] c2.nodes[k].leader->0.match_index[j]
                > 0 ==> exists|y: Seq<LogEntry>|
                #[trigger] c2.acks.contains((c2.nodes[k].peers[j], c2.nodes[k].current_term, y)) && y.len()
                    >= c2.nodes[k].leader->0.match_index[j] by {
        if k != n {
            assert(c2.nodes[k] == c.nodes[k]);
            assert forall|j: int| 0 <= j < c.nodes[k].leader->0.match_index.len() && #[trigger] c.nodes[k].leader->0.match_index[j]
                > 0 implies exists|y: Seq<LogEntry>|
                #[trigger] c2.acks.contains((c.nodes[k].peers[j], c.nodes[k].current_term, y)) && y.len()
                    >= c.nodes[k].leader->0.match_index[j] by {
                let y = choose|y: Seq<LogEntry>| #[trigger] c.acks.contains((c.nodes[k].peers[j], c.nodes[k].current_term, y)) && y.len()
                    >= c.nodes[k].leader->0.match_index[j];
                assert(c2.acks.contains((c.nodes[k].peers[j], c.nodes[k].current_term, y)));
            }
        } else {
            assert forall|j: int| 0 <= j < s2.leader->0.match_index.len() && #[trigger] s2.leader->0.match_index[j]
                > 0 implies exists|y: Seq<LogEntry>|
                #[trigger] c2.acks.contains((s2.peers[j], s2.current_term, y)) && y.len()
                    >= s2.leader->0.match_index[j] by {
                lemma_leader_matches(s, e, j);
                if s.role == Role::Leader && s2.current_term == s.current_term && j < s.leader->0.match_index.len()
                    && s2.leader->0.match_index[j] == s.leader->0.match_index[j] {
                    let y = choose|y: Seq<LogEntry>| #[trigger] c.acks.contains((s.peers[j], s.current_term, y)) && y.len()
                        >= s.leader->0.match_index[j];
                    assert(c2.acks.contains((s.peers[j], s.current_term, y)));
                } else {
                    let r = e->Message_0->AppendEntriesResponse_0;
                    let src = choose|src: NodeId| c.network.contains((src, n, MessageView::AppendEntriesResponse(r)));
                    assert(c.network.contains((src, n, MessageView::AppendEntriesResponse(r))));
                    let y = choose|y: Seq<LogEntry>| #[trigger] c.acks.contains((r.from, r.term, y)) && y.len() >= r.match_index;
                    assert(crate::raft::model::is_first_peer_pos(s.peers, r.from, j) || peer_pos(s.peers, r.from) == Some(j));
                    assert(s.peers[j] == r.from) by {
                        let pp = choose|pp: int| crate::raft::model::is_first_peer_pos(s.peers, r.from, pp);
                    }
                    assert(c2.acks.contains((s.peers[j], s.current_term, y)));
                }
            }
        }
    }
}

/// Acknowledgements stay sound, success replies stay backed by them, and so
/// do the leaders' match indices.
#[verifier::rlimit(50)]
pub(crate) proof fn lemma_step_keeps_acks(c: ClusterView, n: NodeId, e: EventView)
    requires
        inv(c),
        log_inv(c),
        commit_inv(c),
        enabled(c, n, e),
    ensures
        acks_sound(next(c, n, e)),
        replies_acked(next(c, n, e)),
        matches_acked(next(c, n, e)),
{
    lemma_step_keeps_acks_sound(c, n, e);
    lemma_step_keeps_replies(c, n, e);
    lemma_step_keeps_matches(c, n, e);
}

/// The history stays complete and every entry of it stays traced to a
/// leader's log.
#[verifier::rlimit(50)]
pub(crate) proof fn lemma_step_keeps_history(c: ClusterView, n: NodeId, e: EventView)
    requires
        inv(c),
        log_inv(c),
        commit_inv(c),
        enabled(c, n, e),
    ensures
        history_complete(next(c, n, e)),
        entries_from_led(next(c, n, e)),
{
    let s = c.nodes[n];
    let s2 = step(s, e).0;
    let c2 = next(c, n, e);
    lemma_step_frame(c, n, e);
    lemma_choosable_back(c, c2);
    crate::raft::log_matching::lemma_new_log(c, n, e);
    assert(c.logs.contains(s.log));
    assert forall|x: Seq<LogEntry>, i: int, a: Seq<LogEntry>, u: Term|
        #![trigger c2.logs.contains(x), x[i], choosable(c2, a, u)]
        c2.logs.contains(x) && 0 <= i < x.len() && x[i].term > u && choosable(c2, a, u) implies prefix_of(a, x) by {
        assert(choosable(c, a, u));
        if !c.logs.contains(x) {
            assert(x == s2.log && crate::raft::log_matching::pushed(s, s2, e));
            if i < s.log.len() {
                assert(x[i] == s.log[i]);
                assert(prefix_of(a, s.log));
            } else {
                assert(c.led.contains((s.current_term, s.log)));
                assert(prefix_of(a, s.log));
            }
            assert forall|j: int| 0 <= j < a.len() implies #[trigger] a[j] == x[j] by {
                assert(a[j] == s.log[j]);
            }
        }
    }
    assert forall|x: Seq<LogEntry>, i: int|
        #![trigger c2.logs.contains(x), x[i]]
        c2.logs.contains(x) && 0 <= i < x.len() implies exists|y: Seq<LogEntry>|
            #[trigger] c2.led.contains((x[i].term, y)) && i < y.len() && forall|j: int| 0 <= j <= i ==> #[trigger] y[j] == x[j] by {
        if c.logs.contains(x) {
            let y = choose|y: Seq<LogEntry>|
                #[trigger] c.led.contains((x[i].term, y)) && i < y.len() && forall|j: int| 0 <= j <= i ==> #[trigger] y[j] == x[j];
            assert(c2.led.contains((x[i].term, y)));
        } else {
            assert(x == s2.log && crate::raft::log_matching::pushed(s, s2, e));
            if i < s.log.len() {
                assert(x[i] == s.log[i]);
                let y = choose|y: Seq<LogEntry>|
                    #[trigger] c.led.contains((s.log[i].term, y)) && i < y.len() && forall|j: int| 0 <= j <= i ==> #[trigger] y[j] == s.log[j];
                assert(c2.led.contains((x[i].term, y)));
                assert forall|j: int| 0 <= j <= i implies #[trigger] y[j] == x[j] by {
                    assert(x[j] == s.log[j]);
                }
            } else {
                assert(c2.led.contains((s2.current_term, s2.log)));
                assert(forall|j: int| 0 <= j <= i ==> #[trigger] s2.log[j] == x[j]);
            }
        }
    }
}

/// A committed piece is choosable and lies in a leader's log of its term.
#[verifier::rlimit(50)]
pub(crate) proof fn lemma_committed_facts(c: ClusterView, a: Seq<LogEntry>, u: Term) -> (ya: Seq<LogEntry>)
    requires
        acks_sound(c),
        committed(c, a, u),
    ensures
        choosable(c, a, u),
        c.led.contains((u, ya)),
        prefix_of(a, ya),
{
    let q = choose|q: Set<NodeId>| #[trigger] quorum(c, q) && forall|w: NodeId| #[trigger] q.contains(w) ==> acked(c, w, u, a);
    assert forall|w: NodeId| #[trigger] q.contains(w) implies c.nodes[w].current_term <= u || acked(c, w, u, a) by {}
    let w = crate::raft::commitment::lemma_quorum_has_member(c, q);
    assert(acked(c, w, u, a));
    let ya = choose|y: Seq<LogEntry>| #[trigger] c.acks.contains((w, u, y)) && prefix_of(a, y);
    assert(c.acks.contains((w, u, ya)));
    ya
}

/// The `AppendEntries` a leader sends carries a piece of its log.
#[verifier::rlimit(50)]
proof fn lemma_leader_sends_its_log(s: RaftView, j: int)
    requires
        crate::raft::log_matching::indexed(s.log),
    ensures
        ({
            let m = append_for_peer(s, j);
            !(m.prev_log_index > 0 && m.prev_log_term == 0) ==> (m.prev_log_index <= s.log.len() && m.entries
                == s.log.skip(m.prev_log_index as int) && (m.prev_log_index == 0 || s.log[m.prev_log_index
                - 1].term == m.prev_log_term))
        }),
{
    let m = append_for_peer(s, j);
    let next = crate::raft::model::next_for_peer(s, j);
    crate::raft::log_matching::lemma_filter_is_suffix(s.log, next);
    if next > 1 {
        let prev = (next - 1) as LogIndex;
        crate::raft::log_matching::lemma_indexed_first_pos(s.log, prev - 1, prev);
        if prev <= s.log.len() {
            assert(crate::protocol::log::entry_with_index(s.log, prev) == Some(s.log[prev - 1]));
        }
    } else {
        assert(s.log.skip(0) =~= s.log);
    }
}

/// `AppendEntries` in flight keep carrying leaders' logs with committed
/// prefixes up to the leader's commit index.
#[verifier::rlimit(50)]
pub(crate) proof fn lemma_step_keeps_appends(c: ClusterView, n: NodeId, e: EventView)
    requires
        inv(c),
        log_inv(c),
        commit_inv(c),
        enabled(c, n, e),
    ensures
        appends_led(next(c, n, e)),
{
    let s = c.nodes[n];
    let (s2, acts) = step(s, e);
    let c2 = next(c, n, e);
    lemma_step_frame(c, n, e);
    lemma_committed_forward(c, c2);
    lemma_sends(s, e);
    assert forall|p: crate::raft::cluster::Packet| #[trigger] c2.network.contains(p) implies match p.2 {
        MessageView::AppendEntries(m) => !(m.prev_log_index > 0 && m.prev_log_term == 0) ==> exists|y: Seq<LogEntry>|
            #[trigger] c2.led.contains((m.term, y)) && m.prev_log_index <= y.len() && m.entries == y.skip(
                m.prev_log_index as int,
            ) && (m.prev_log_index == 0 || y[m.prev_log_index - 1].term == m.prev_log_term)
                && m.leader_commit <= y.len() && covered(c2, y, m.leader_commit as int, m.term),
        _ => true,
    } by {
        if let MessageView::AppendEntries(m) = p.2 {
            if !(m.prev_log_index > 0 && m.prev_log_term == 0) {
                if c.network.contains(p) {
                    let y = choose|y: Seq<LogEntry>|
                        #[trigger] c.led.contains((m.term, y)) && m.prev_log_index <= y.len() && m.entries == y.skip(
                            m.prev_log_index as int,
                        ) && (m.prev_log_index == 0 || y[m.prev_log_index - 1].term == m.prev_log_term)
                            && m.leader_commit <= y.len() && covered(c, y, m.leader_commit as int, m.term);
                    assert(covered(c2, y, m.leader_commit as int, m.term));
                    assert(c2.led.contains((m.term, y)));
                } else {
                    assert(crate::raft::cluster::sends(n, acts).contains(p));
                    let i = choose|i: int| 0 <= i < acts.len() && #[trigger] acts[i] == ActionView::Send(p.1, p.2);
                    assert(send_ok(acts[i], s, e, s2));
                    let j = choose|j: int| 0 <= j < s.peers.len() && m == #[trigger] append_for_peer(s, j);
                    assert(c.logs.contains(s.log));
                    lemma_leader_sends_its_log(s, j);
                    assert(c.led.contains((s.current_term, s.log)));
                    assert(covered(c, s.log, s.commit_index as int, s.current_term));
                    if s.commit_index > 0 {
                        let (a, u) = choose|a: Seq<LogEntry>, u: Term|
                            #[trigger] committed(c, a, u) && u <= s.current_term && s.commit_index <= a.len() && prefix_of(a, s.log);
                    }
                    assert(covered(c2, s.log, m.leader_commit as int, m.term));
                    assert(c2.led.contains((m.term, s.log)));
                }
            }
        }
    }
}

/// A leader whose commit index is an entry of its term that it and enough
/// peers hold has committed its log up to there.
#[verifier::rlimit(40)]
proof fn lemma_leader_commit_committed(c2: ClusterView, n: NodeId)
    requires
        matches_acked(c2),
        acks_sound(c2),
        leaders_recorded(c2),
        c2.members.finite(),
        c2.members.contains(n),
        c2.nodes[n].role == Role::Leader,
        c2.nodes[n].peers.no_duplicates(),
        c2.nodes[n].peers.to_set() == c2.members.remove(n),
        1 <= c2.nodes[n].commit_index <= c2.nodes[n].log.len(),
        c2.nodes[n].log[c2.nodes[n].commit_index - 1].term == c2.nodes[n].current_term,
        1 + crate::raft::model::count_at_least(crate::raft::model::peer_matches(c2.nodes[n]), c2.nodes[n].commit_index)
            >= crate::raft::quorum_of(c2.nodes[n].peers.len()),
    ensures
        covered(c2, c2.nodes[n].log, c2.nodes[n].commit_index as int, c2.nodes[n].current_term),
{
    let s2 = c2.nodes[n];
    let t = s2.current_term;
    let k = s2.commit_index as int;
    let a = s2.log.take(k);
    assert(ends_in(a, t));
    assert(consistent(s2));
    let ls = s2.leader->0;
    assert(ls.match_index.len() == s2.peers.len());
    let q0 = lemma_count_set(s2.peers, ls.match_index, k as LogIndex);
    let q = q0.insert(n);
    assert(!q0.contains(n)) by {
        if q0.contains(n) {
            let j = choose|j: int| 0 <= j < ls.match_index.len() && s2.peers[j] == n && ls.match_index[j] >= k;
            assert(s2.peers.to_set().contains(s2.peers[j]));
        }
    }
    crate::raft::cluster::lemma_peer_count(c2.members, n, s2.peers);
    assert forall|w: NodeId| #[trigger] q.contains(w) implies acked(c2, w, t, a) by {
        if w == n {
            assert(c2.acks.contains((n, t, s2.log)));
            assert(prefix_of(a, s2.log));
        } else {
            let j = choose|j: int| 0 <= j < ls.match_index.len() && s2.peers[j] == w && ls.match_index[j] >= k;
            assert(ls.match_index[j] > 0);
            let y = choose|y: Seq<LogEntry>|
                #[trigger] c2.acks.contains((c2.nodes[n].peers[j], c2.nodes[n].current_term, y)) && y.len()
                    >= c2.nodes[n].leader->0.match_index[j];
            assert(c2.acks.contains((w, t, y)));
            assert(c2.led.contains((t, y)));
            assert(prefix_of(y, s2.log));
            assert(prefix_of(a, y)) by {
                assert forall|i: int| 0 <= i < a.len() implies #[trigger] a[i] == y[i] by {
                    assert(y[i] == s2.log[i]);
                }
            }
        }
    }
    assert(q.subset_of(c2.members)) by {
        assert forall|w: NodeId| #[trigger] q.contains(w) implies c2.members.contains(w) by {
            if w != n {
                let j = choose|j: int| 0 <= j < ls.match_index.len() && s2.peers[j] == w && ls.match_index[j] >= k;
                assert(s2.peers.to_set().contains(s2.peers[j]));
            }
        }
    }
    assert(quorum(c2, q));
    assert(committed(c2, a, t));
}

/// A member whose commit index a step leaves alone keeps it covered.
#[verifier::rlimit(40)]
proof fn lemma_same_commit_covered(c: ClusterView, n: NodeId, e: EventView)
    requires
        inv(c),
        log_inv(c),
        commit_inv(c),
        enabled(c, n, e),
        step(c.nodes[n], e).0.commit_index == c.nodes[n].commit_index,
    ensures
        covered(next(c, n, e), step(c.nodes[n], e).0.log, step(c.nodes[n], e).0.commit_index as int, step(c.nodes[n], e).0.current_term),
{
    let s = c.nodes[n];
    let s2 = step(s, e).0;
    let c2 = next(c, n, e);
    lemma_step_frame(c, n, e);
    lemma_committed_forward(c, c2);
    assert(covered(c, s.log, s.commit_index as int, s.current_term));
    if s.commit_index > 0 {
        let (a, u) = choose|a: Seq<LogEntry>, u: Term|
            #[trigger] committed(c, a, u) && u <= s.current_term && s.commit_index <= a.len() && prefix_of(a, s.log);
        let ya = lemma_committed_facts(c, a, u);
        lemma_step_keeps_piece(c, n, e, a, u, ya);
        assert(committed(c2, a, u));
    }
}

/// A member that takes an `AppendEntries` has what it commits committed.
#[verifier::rlimit(40)]
proof fn lemma_accept_commit_covered(c: ClusterView, n: NodeId, e: EventView)
    requires
        inv(c),
        log_inv(c),
        commit_inv(c),
        enabled(c, n, e),
        takes_entries(c.nodes[n], e),
        step(c.nodes[n], e).0.commit_index != c.nodes[n].commit_index,
    ensures
        covered(next(c, n, e), step(c.nodes[n], e).0.log, step(c.nodes[n], e).0.commit_index as int, step(c.nodes[n], e).0.current_term),
{
    let s = c.nodes[n];
    let s2 = step(s, e).0;
    let c2 = next(c, n, e);
    lemma_step_frame(c, n, e);
    lemma_committed_forward(c, c2);
    let m = e->Message_0->AppendEntries_0;
    let y = lemma_accept_in_cluster(c, n, m);
    if m.leader_commit > 0 {
        let (a, u) = choose|a: Seq<LogEntry>, u: Term|
            #[trigger] committed(c, a, u) && u <= m.term && m.leader_commit <= a.len() && prefix_of(a, y);
        assert(committed(c2, a, u));
        assert forall|i: int| 0 <= i < a.len() implies #[trigger] a[i] == s2.log[i] by {
            assert(a[i] == y[i]);
        }
    }
}

/// What members have committed stays committed in the cluster and in their logs.
#[verifier::rlimit(50)]
pub(crate) proof fn lemma_step_keeps_commits(c: ClusterView, n: NodeId, e: EventView)
    requires
        inv(c),
        log_inv(c),
        commit_inv(c),
        enabled(c, n, e),
    ensures
        commits_covered(next(c, n, e)),
{
    let s = c.nodes[n];
    let s2 = step(s, e).0;
    let c2 = next(c, n, e);
    lemma_step_frame(c, n, e);
    lemma_committed_forward(c, c2);
    assert(covered(c, s.log, s.commit_index as int, s.current_term));
    assert(c.logs.contains(s.log));
    if s.commit_index > 0 {
        let (a, u) = choose|a: Seq<LogEntry>, u: Term|
            #[trigger] committed(c, a, u) && u <= s.current_term && s.commit_index <= a.len() && prefix_of(a, s.log);
    }
    lemma_commit_change(s, e);
    if s2.commit_index == s.commit_index {
        lemma_same_commit_covered(c, n, e);
    } else if takes_entries(s, e) {
        lemma_accept_commit_covered(c, n, e);
    } else {
        lemma_step_keeps_acks(c, n, e);
        lemma_step_keeps_leaders(c, n, e);
        crate::raft::cluster::law_step_preserves_invariant(c, n, e);
        assert(c2.nodes[n].peers.no_duplicates());
        lemma_leader_commit_committed(c2, n);
    }
    assert forall|k: NodeId| #![trigger c2.nodes[k]] c2.members.contains(k) implies covered(c2, c2.nodes[k].log, c2.nodes[k].commit_index as int, c2.nodes[k].current_term) by {
        if k != n {
            assert(c2.nodes[k] == c.nodes[k]);
            assert(covered(c, c.nodes[k].log, c.nodes[k].commit_index as int, c.nodes[k].current_term));
        }
    }
}

/// What a sent message is: a vote request only from a node that just
/// became a candidate, describing its log; an `AppendEntries` only from a
/// leader, for one of its peers; a success reply only to an `AppendEntries`
/// the node took, reporting the last index the message carried.
pub open spec fn send_ok(a: ActionView, s: RaftView, e: EventView, s2: RaftView) -> bool {
    match a {
        ActionView::Send(to, MessageView::RequestVote(m)) => e is ElectionTimeout && s2.role
            == Role::Candidate && m == vote_request(s2) && s2.log == s.log && s2.current_term
            == s.current_term + 1,
        ActionView::Send(to, MessageView::AppendEntries(m)) => s.role == Role::Leader && s2 == s
            && exists|j: int| 0 <= j < s.peers.len() && m == #[trigger] append_for_peer(s, j),
        ActionView::Send(to, MessageView::AppendEntriesResponse(r)) => r.success ==> (takes_entries(s, e)
            && r.from == s.id && r.term == s2.current_term && r.match_index == last_new_index(
            e->Message_0->AppendEntries_0,
        )),
        _ => true,
    }
}

#[verifier::rlimit(50)]
pub(crate) proof fn lemma_sends(s: RaftView, e: EventView)
    requires
        step_safe(s, e),
    ensures
        forall|i: int| 0 <= i < step(s, e).1.len() ==> #[trigger] send_ok(step(s, e).1[i], s, e, step(s, e).0),
{
    let (s2, acts) = step(s, e);
    match e {
        EventView::Message(MessageView::AppendEntriesResponse(m)) => {
            if m.term == s.current_term && s.role == Role::Leader && peer_pos(s.peers, m.from) is Some
                && s.leader is Some {
                let p = peer_pos(s.peers, m.from)->0;
                let ls = s.leader->0;
                if m.success {
                    let ls2 = if m.match_index > ls.match_index[p] {
                        LeaderView {
                            match_index: ls.match_index.update(p, m.match_index),
                            next_index: ls.next_index.update(p, (m.match_index + 1) as u64),
                        }
                    } else {
                        ls
                    };
                    lemma_try_advance_no_send(RaftView { leader: Some(ls2), ..s });
                }
            }
        },
        EventView::Message(MessageView::AppendEntries(m)) => {
            let s1 = if m.term > s.current_term { step_down(s, m.term) } else { s };
            if m.term >= s1.current_term {
                let s2b = if s1.role == Role::Candidate {
                    RaftView { role: Role::Follower, candidate: None, ..s1 }
                } else {
                    s1
                };
                if log_matches_at(s2b.log, m.prev_log_index, m.prev_log_term) {
                    let commit3 = crate::raft::model::accepted_commit(s2b.commit_index, m);
                    let s3 = RaftView {
                        known_leader: Some(m.leader_id),
                        log: reconcile(s2b.log, m.entries, 0),
                        commit_index: commit3,
                        ..s2b
                    };
                    lemma_apply_actions_no_send(s3.log, s3.last_applied as int, s3.commit_index as int);
                    let applied = apply_committed(s3).1;
                    let all = seq![ActionView::ResetElectionTimer, append_reply(apply_committed(s3).0, m.leader_id, true, last_new_index(m))] + applied;
                    assert forall|i: int| 0 <= i < all.len() implies #[trigger] send_ok(all[i], s, e, s2) by {
                        if i >= 2 {
                            assert(all[i] == applied[i - 2]);
                        }
                    }
                }
            }
        },
        EventView::ClientRequest(cmd) => {
            if s.role == Role::Leader && s.peers.len() == 0 {
                let entry = LogEntry {
                    index: (last_index(s.log) + 1) as u64,
                    term: s.current_term,
                    command: cmd,
                };
                let s1 = RaftView { log: s.log.push(entry), ..s };
                lemma_try_advance_no_send(s1);
                let applied = crate::raft::model::try_advance_commit(s1).1;
                let all = seq![ActionView::ResetHeartbeatTimer] + applied;
                assert forall|i: int| 0 <= i < all.len() implies #[trigger] send_ok(all[i], s, e, s2) by {
                    if i >= 1 {
                        assert(all[i] == applied[i - 1]);
                    }
                }
            }
        },
        EventView::ElectionTimeout => {
            if s.role != Role::Leader && s.peers.len() > 0 {
                assert forall|i: int| 0 <= i < acts.len() implies #[trigger] send_ok(acts[i], s, e, s2) by {
                    if i >= 1 {
                        assert(acts[i] == ActionView::Send(s.peers[i - 1], MessageView::RequestVote(vote_request(s2))));
                    }
                }
            }
        },
        EventView::HeartbeatTimeout => {
            if s.role == Role::Leader {
                assert forall|i: int| 0 <= i < acts.len() implies #[trigger] send_ok(acts[i], s, e, s2) by {
                    if i >= 1 {
                        assert(acts[i] == ActionView::Send(s.peers[i - 1], MessageView::AppendEntries(append_for_peer(s, i - 1))));
                        assert(0 <= i - 1 < s.peers.len() && append_for_peer(s, i - 1) == append_for_peer(s, i - 1));
                    }
                }
            }
        },
        _ => {},
    }
}

/// A step leaves the log as it was, appends a client's command at a leader
/// that stays the leader in its term, or takes an `AppendEntries`.
#[verifier::rlimit(50)]
pub(crate) proof fn lemma_log_change(s: RaftView, e: EventView)
    requires
        step_safe(s, e),
    ensures
        ({
            let s2 = step(s, e).0;
            ||| s2.log == s.log
            ||| (e is ClientRequest && s.role == Role::Leader && s2.role == Role::Leader && s2.current_term
                == s.current_term && s2.log == s.log.push(
                LogEntry {
                    index: (last_index(s.log) + 1) as LogIndex,
                    term: s.current_term,
                    command: e->ClientRequest_0,
                },
            ))
            ||| takes_entries(s, e)
        }),
{
    if !(e is Message && e->Message_0 is AppendEntries) {
        crate::raft::laws::law_log_is_append_only_outside_append_entries(s, e);
        if e is ClientRequest && s.role == Role::Leader {
            let cmd = e->ClientRequest_0;
            if s.peers.len() == 0 {
                let entry = LogEntry {
                    index: (last_index(s.log) + 1) as LogIndex,
                    term: s.current_term,
                    command: cmd,
                };
                lemma_try_advance_frame(RaftView { log: s.log.push(entry), ..s });
            }
        }
    }
}

} // verus!

verus! {

/// Members keep having applied exactly what they committed.
#[verifier::rlimit(50)]
proof fn lemma_step_keeps_applied(c: ClusterView, n: NodeId, e: EventView)
    requires
        inv(c),
        commit_inv(c),
        enabled(c, n, e),
    ensures
        crate::raft::commitment::applied_committed(next(c, n, e)),
{
    let c2 = next(c, n, e);
    lemma_step_frame(c, n, e);
    crate::raft::laws::law_committed_entries_are_applied(c.nodes[n], e);
    assert forall|k: NodeId| #![trigger c2.nodes[k]] c2.members.contains(k) implies c2.nodes[k].last_applied == c2.nodes[k].commit_index by {
        if k != n {
            assert(c2.nodes[k] == c.nodes[k]);
        }
    }
}

/// Every step of every node keeps the commitment invariant.
#[verifier::rlimit(50)]
pub proof fn law_step_preserves_commit_invariant(c: ClusterView, n: NodeId, e: EventView)
    requires
        inv(c),
        log_inv(c),
        commit_inv(c),
        enabled(c, n, e),
    ensures
        commit_inv(next(c, n, e)),
{
    lemma_step_keeps_applied(c, n, e);
    lemma_step_keeps_terms_and_votes(c, n, e);
    lemma_step_keeps_acks_durable(c, n, e);
    lemma_step_keeps_votes_complete(c, n, e);
    lemma_step_keeps_leaders(c, n, e);
    lemma_step_keeps_acks(c, n, e);
    lemma_step_keeps_history(c, n, e);
    lemma_step_keeps_appends(c, n, e);
    lemma_step_keeps_commits(c, n, e);
}

} // verus!
