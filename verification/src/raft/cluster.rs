//! A cluster of Raft nodes exchanging messages over a network that may lose,
//! delay, reorder and duplicate them, and the proof that it never elects two
//! leaders in the same term (Election Safety, §5.2).
use vstd::prelude::*;
use crate::protocol::action::ActionView;
use crate::protocol::event::EventView;
use crate::protocol::log::LogEntry;
use crate::protocol::message::{MessageView, RequestVoteResponse};
use crate::protocol::log::log_matches_at;
use crate::protocol::types::{NodeId, Term};
use crate::raft::laws::{law_leader_state_fits_preserved, law_term_never_decreases, law_vote_is_stable_within_term};
use crate::raft::model::{
    apply_actions, apply_committed, become_leader, commit_scan, election_timeout, last_new_index, peer_matches,
    peer_pos, step, step_down, step_safe, tally, try_advance_commit, vote_request,
};
use crate::raft::{quorum_of, CandidateView, LeaderView, RaftView, Role};

verus! {

/// A message in flight: sender, receiver, message.
pub type Packet = (NodeId, NodeId, MessageView);

/// A vote cast: voter, term, candidate.
pub type Vote = (NodeId, Term, NodeId);

/// A piece of log a node held as agreed in a term: node, term, log.
pub type Ack = (NodeId, Term, Seq<LogEntry>);

/// The whole cluster: its members, each member's state, every message ever
/// sent (delivery may lose, delay, reorder or repeat any of them), the
/// history of votes cast, every log any member has held, every piece of log
/// a node acknowledged in a term (a follower's reply to an accepted
/// `AppendEntries`, and a leader's own log), and every log a leader held
/// in its term.
#[verifier::ext_equal]
pub struct ClusterView {
    pub members: Set<NodeId>,
    pub nodes: Map<NodeId, RaftView>,
    pub network: Set<Packet>,
    pub votes: Set<Vote>,
    pub logs: Set<Seq<LogEntry>>,
    pub acks: Set<Ack>,
    pub led: Set<(Term, Seq<LogEntry>)>,
}

/// The packets node `from` puts on the network with `acts`.
pub open spec fn sends(from: NodeId, acts: Seq<ActionView>) -> Set<Packet> {
    Set::new(
        |p: Packet|
            p.0 == from && exists|i: int|
                0 <= i < acts.len() && #[trigger] acts[i] == ActionView::Send(p.1, p.2),
    )
}

/// The vote history after node `n` reaches state `s`: its current vote, if any, is recorded.
pub open spec fn record_vote(votes: Set<Vote>, n: NodeId, s: RaftView) -> Set<Vote> {
    match s.voted_for {
        Some(c) => votes.insert((n, s.current_term, c)),
        None => votes,
    }
}

/// Node `n` can take event `e`: it is a member, the event is safe for it,
/// and a message event carries a message addressed to `n` that was sent.
pub open spec fn enabled(c: ClusterView, n: NodeId, e: EventView) -> bool {
    &&& c.nodes.contains_key(n)
    &&& step_safe(c.nodes[n], e)
    &&& (e matches EventView::Message(m) ==> exists|src: NodeId| c.network.contains((src, n, m)))
}

/// The event is an `AppendEntries` the node takes: it is not stale and the
/// node's log holds its previous entry.
pub open spec fn takes_entries(s: RaftView, e: EventView) -> bool {
    match e {
        EventView::Message(MessageView::AppendEntries(m)) => m.term >= s.current_term
            && log_matches_at(s.log, m.prev_log_index, m.prev_log_term),
        _ => false,
    }
}

/// The acknowledgements after node `n` steps from `s` to `s2` on `e`: the
/// piece of log an accepted `AppendEntries` made agree, and a leader's log.
pub open spec fn record_acks(acks: Set<Ack>, n: NodeId, s: RaftView, e: EventView, s2: RaftView) -> Set<Ack> {
    let a1 = if takes_entries(s, e) {
        acks.insert((n, s2.current_term, s2.log.take(last_new_index(e->Message_0->AppendEntries_0) as int)))
    } else {
        acks
    };
    if s2.role == Role::Leader { a1.insert((n, s2.current_term, s2.log)) } else { a1 }
}

/// The leaders' logs after a node reaches state `s2`.
pub open spec fn record_led(led: Set<(Term, Seq<LogEntry>)>, s2: RaftView) -> Set<(Term, Seq<LogEntry>)> {
    if s2.role == Role::Leader { led.insert((s2.current_term, s2.log)) } else { led }
}

/// Node `n` takes event `e`.
pub open spec fn next(c: ClusterView, n: NodeId, e: EventView) -> ClusterView {
    let (s2, acts) = step(c.nodes[n], e);
    ClusterView {
        nodes: c.nodes.insert(n, s2),
        network: c.network + sends(n, acts),
        votes: record_vote(c.votes, n, s2),
        logs: c.logs.insert(s2.log),
        acks: record_acks(c.acks, n, c.nodes[n], e, s2),
        led: record_led(c.led, s2),
        ..c
    }
}

/// What a node comes back as after a crash, from the state it persisted
/// (term, vote and log): a follower that knows no leader and has committed
/// and applied nothing.
pub open spec fn recovered(s: RaftView) -> RaftView {
    RaftView {
        role: Role::Follower,
        known_leader: None,
        commit_index: 0,
        last_applied: 0,
        leader: None,
        candidate: None,
        ..s
    }
}

/// Node `n` crashes and restarts from its persisted state.
pub open spec fn restart(c: ClusterView, n: NodeId) -> ClusterView {
    ClusterView { nodes: c.nodes.insert(n, recovered(c.nodes[n])), ..c }
}

/// A freshly started cluster: every member a follower in term 0 that has
/// not voted, with an empty log and nothing committed, whose peers are
/// exactly the other members; nothing sent or acknowledged yet.
pub open spec fn initial(c: ClusterView) -> bool {
    &&& c.members.finite()
    &&& c.nodes.dom() == c.members
    &&& c.network == Set::<Packet>::empty()
    &&& c.votes == Set::<Vote>::empty()
    &&& c.logs == set![Seq::<LogEntry>::empty()]
    &&& c.acks == Set::<Ack>::empty()
    &&& c.led == Set::<(Term, Seq<LogEntry>)>::empty()
    &&& forall|n: NodeId|
        #![trigger c.nodes[n]]
        c.members.contains(n) ==> {
            let s = c.nodes[n];
            &&& s.id == n
            &&& s.peers.no_duplicates()
            &&& s.peers.to_set() == c.members.remove(n)
            &&& s.role == Role::Follower
            &&& s.current_term == 0
            &&& s.voted_for is None
            &&& s.candidate is None
            &&& s.leader is None
            &&& s.log.len() == 0
            &&& s.commit_index == 0
            &&& s.last_applied == 0
        }
}

/// `S` is a quorum of `members` that all voted for `n` in term `t`.
pub open spec fn quorum_voted(c: ClusterView, s: Set<NodeId>, n: NodeId, t: Term) -> bool {
    &&& s.finite()
    &&& s.subset_of(c.members)
    &&& s.len() >= quorum_of((c.members.len() - 1) as nat)
    &&& forall|v: NodeId| #[trigger] s.contains(v) ==> c.votes.contains((v, t, n))
}

/// At most one leader per term.
pub open spec fn election_safety(c: ClusterView) -> bool {
    forall|a: NodeId, b: NodeId|
        #![trigger c.nodes[a], c.nodes[b]]
        c.nodes.contains_key(a) && c.nodes.contains_key(b) && c.nodes[a].role == Role::Leader
            && c.nodes[b].role == Role::Leader && c.nodes[a].current_term == c.nodes[b].current_term
            ==> a == b
}

pub open spec fn membership_ok(c: ClusterView) -> bool {
    &&& c.members.finite()
    &&& c.nodes.dom() == c.members
    &&& forall|n: NodeId|
        #![trigger c.nodes[n]]
        c.members.contains(n) ==> {
            &&& c.nodes[n].id == n
            &&& c.nodes[n].peers.no_duplicates()
            &&& c.nodes[n].peers.to_set() == c.members.remove(n)
        }
}

/// Every recorded vote is still the voter's vote in that term, or the voter
/// has moved on to a later term.
pub open spec fn votes_consistent(c: ClusterView) -> bool {
    forall|v: Vote|
        #[trigger] c.votes.contains(v) ==> c.members.contains(v.0) && (c.nodes[v.0].current_term
            > v.1 || (c.nodes[v.0].current_term == v.1 && c.nodes[v.0].voted_for == Some(v.2)))
}

/// A voter votes for at most one candidate per term.
pub open spec fn votes_unique(c: ClusterView) -> bool {
    forall|a: Vote, b: Vote|
        #![trigger c.votes.contains(a), c.votes.contains(b)]
        c.votes.contains(a) && c.votes.contains(b) && a.0 == b.0 && a.1 == b.1 ==> a.2 == b.2
}

/// A granted vote in flight was sent by the voter it names, who voted for
/// the receiver in the response's term.
pub open spec fn grants_recorded(c: ClusterView) -> bool {
    forall|p: Packet| #[trigger] c.network.contains(p) ==> grant_recorded(c, p)
}

/// The response grants a vote.
pub open spec fn granted_response(m: MessageView) -> Option<RequestVoteResponse> {
    match m {
        MessageView::RequestVoteResponse(r) => if r.vote_granted { Some(r) } else { None },
        _ => None,
    }
}

pub open spec fn grant_recorded(c: ClusterView, p: Packet) -> bool {
    match granted_response(p.2) {
        Some(r) => r.vote_from == p.0 && c.votes.contains((p.0, r.term, p.1)),
        None => true,
    }
}

/// A candidate's granted votes are members that voted for it in its term.
pub open spec fn candidates_ok(c: ClusterView) -> bool {
    forall|n: NodeId|
        #![trigger c.nodes[n]]
        c.members.contains(n) && c.nodes[n].role == Role::Candidate ==> {
            let g = tally(c.nodes[n]).votes_granted;
            &&& g.finite()
            &&& g.subset_of(c.members)
            &&& forall|v: NodeId| #[trigger] g.contains(v) ==> c.votes.contains((v, c.nodes[n].current_term, n))
        }
}

/// A leader was voted for by a quorum in its term.
pub open spec fn leaders_ok(c: ClusterView) -> bool {
    forall|n: NodeId|
        #![trigger c.nodes[n]]
        c.members.contains(n) && c.nodes[n].role == Role::Leader ==> exists|s: Set<NodeId>|
            #[trigger] quorum_voted(c, s, n, c.nodes[n].current_term)
}

pub open spec fn inv(c: ClusterView) -> bool {
    &&& membership_ok(c)
    &&& votes_consistent(c)
    &&& votes_unique(c)
    &&& grants_recorded(c)
    &&& candidates_ok(c)
    &&& leaders_ok(c)
}

// ── facts about one node's transition ────────────────────────────────────────

pub open spec fn is_grant_send(a: ActionView) -> bool {
    match a {
        ActionView::Send(_, m) => granted_response(m) is Some,
        _ => false,
    }
}

/// A grant sent by a node in state `s2` (after the step) from node `id`.
pub open spec fn grant_ok(a: ActionView, id: NodeId, s2: RaftView) -> bool {
    match a {
        ActionView::Send(to, m) => match granted_response(m) {
            Some(r) => r.vote_from == id && r.term == s2.current_term && s2.voted_for == Some(to),
            None => true,
        },
        _ => true,
    }
}

/// The step counted a granted vote from a peer into the candidate's tally.
pub open spec fn counted_grant(s: RaftView, s2: RaftView, e: EventView) -> bool {
    match e {
        EventView::Message(MessageView::RequestVoteResponse(m)) => s.role == Role::Candidate
            && s2.current_term == s.current_term && m.term == s.current_term && m.vote_granted
            && s.peers.contains(m.vote_from) && tally(s2).votes_granted == tally(s).votes_granted.insert(m.vote_from),
        _ => false,
    }
}

/// The step won the election on a vote response.
pub open spec fn won_on_response(s: RaftView, s2: RaftView, e: EventView) -> bool {
    match e {
        EventView::Message(MessageView::RequestVoteResponse(m)) => s.role == Role::Candidate
            && s2.current_term == s.current_term && m.term == s.current_term && {
                let g = if m.vote_granted && s.peers.contains(m.vote_from) {
                    tally(s).votes_granted.insert(m.vote_from)
                } else {
                    tally(s).votes_granted
                };
                g.len() >= quorum_of(s.peers.len())
            },
        _ => false,
    }
}

pub(crate) proof fn lemma_apply_actions_no_send(log: Seq<LogEntry>, from: int, to: int)
    ensures
        forall|i: int| 0 <= i < apply_actions(log, from, to).len() ==> #[trigger] apply_actions(log, from, to)[i] is ApplyCommand,
    decreases to - from,
{
    if to > from {
        lemma_apply_actions_no_send(log, from, to - 1);
    }
}

pub(crate) proof fn lemma_try_advance_no_send(s: RaftView)
    ensures
        ({
            let r = try_advance_commit(s);
            &&& r.0 == (RaftView { last_applied: r.0.last_applied, commit_index: r.0.commit_index, ..s })
            &&& forall|i: int| 0 <= i < r.1.len() ==> #[trigger] r.1[i] is ApplyCommand
        }),
{
    let n = commit_scan(s.log, s.log.len() as int, s.commit_index, s.current_term, peer_matches(s), quorum_of(s.peers.len()));
    let s1 = if n > s.commit_index { RaftView { commit_index: n, ..s } } else { s };
    lemma_apply_actions_no_send(s1.log, s1.last_applied as int, s1.commit_index as int);
}

/// What one node's step can do to the fields election safety depends on.
pub(crate) proof fn lemma_node_step(s: RaftView, e: EventView)
    requires
        step_safe(s, e),
    ensures
        ({
            let (s2, acts) = step(s, e);
            &&& s2.id == s.id
            &&& s2.peers == s.peers
            &&& s2.current_term >= s.current_term
            &&& (s2.current_term == s.current_term ==> forall|x: NodeId| s.voted_for == Some(x) ==> s2.voted_for == Some(x))
            // granted votes are sent only to the candidate just voted for
            &&& forall|i: int| 0 <= i < acts.len() ==> #[trigger] grant_ok(acts[i], s.id, s2)
            // how a node can be a candidate afterwards
            &&& s2.role == Role::Candidate ==> {
                ||| (e is ElectionTimeout && s2.current_term == s.current_term + 1 && s2.voted_for == Some(s.id)
                    && tally(s2).votes_granted == set![s.id])
                ||| (s.role == Role::Candidate && s2.current_term == s.current_term && tally(s2).votes_granted
                    == tally(s).votes_granted)
                ||| counted_grant(s, s2, e)
            }
            // how a node can be the leader afterwards
            &&& s2.role == Role::Leader ==> {
                ||| (s.role == Role::Leader && s2.current_term == s.current_term)
                ||| (e is ElectionTimeout && s.peers.len() == 0 && s2.current_term == s.current_term + 1
                    && s2.voted_for == Some(s.id))
                ||| won_on_response(s, s2, e)
            }
        }),
{
    law_leader_state_fits_preserved(s, e);
    law_term_never_decreases(s, e);
    let (s2, acts) = step(s, e);
    if s2.current_term == s.current_term {
        assert forall|x: NodeId| s.voted_for == Some(x) implies s2.voted_for == Some(x) by {
            law_vote_is_stable_within_term(s, e, x);
        }
    }
    match e {
        EventView::Message(MessageView::AppendEntriesResponse(m)) => {
            if m.term == s.current_term && s.role == Role::Leader && peer_pos(s.peers, m.from) is Some
                && s.leader is Some {
                let p = peer_pos(s.peers, m.from)->0;
                let ls = s.leader->0;
                if m.success {
                    let ls2 = if m.match_index > ls.match_index[p] {
                        LeaderView {
                            match_index: ls.match_index.update(p, m.match_index),
                            next_index: ls.next_index.update(p, (m.match_index + 1) as u64),
                        }
                    } else {
                        ls
                    };
                    lemma_try_advance_no_send(RaftView { leader: Some(ls2), ..s });
                }
            }
        },
        EventView::Message(MessageView::AppendEntries(m)) => {
            let s1 = if m.term > s.current_term { step_down(s, m.term) } else { s };
            if m.term >= s1.current_term {
                let s2b = if s1.role == Role::Candidate {
                    RaftView { role: Role::Follower, candidate: None, ..s1 }
                } else {
                    s1
                };
                if crate::protocol::log::log_matches_at(s2b.log, m.prev_log_index, m.prev_log_term) {
                    let commit3 = crate::raft::model::accepted_commit(s2b.commit_index, m);
                    let s3 = RaftView {
                        known_leader: Some(m.leader_id),
                        log: crate::raft::model::reconcile(s2b.log, m.entries, 0),
                        commit_index: commit3,
                        ..s2b
                    };
                    lemma_apply_actions_no_send(s3.log, s3.last_applied as int, s3.commit_index as int);
                    let applied = apply_committed(s3).1;
                    let all = seq![ActionView::ResetElectionTimer, crate::raft::model::append_reply(apply_committed(s3).0, m.leader_id, true, crate::raft::model::last_new_index(m))] + applied;
                    assert forall|i: int| 0 <= i < all.len() implies #[trigger] grant_ok(all[i], s.id, s2) by {
                        if i >= 2 {
                            assert(all[i] == applied[i - 2]);
                        }
                    }
                }
            }
        },
        EventView::ClientRequest(cmd) => {
            if s.role == Role::Leader && s.peers.len() == 0 {
                let entry = LogEntry {
                    index: (crate::protocol::log::last_index(s.log) + 1) as u64,
                    term: s.current_term,
                    command: cmd,
                };
                let s1 = RaftView { log: s.log.push(entry), ..s };
                lemma_try_advance_no_send(s1);
                let applied = try_advance_commit(s1).1;
                let all = seq![ActionView::ResetHeartbeatTimer] + applied;
                assert forall|i: int| 0 <= i < all.len() implies #[trigger] grant_ok(all[i], s.id, s2) by {
                    if i >= 1 {
                        assert(all[i] == applied[i - 1]);
                    }
                }
            }
        },
        EventView::ElectionTimeout => {
            if s.role != Role::Leader && s.peers.len() > 0 {
                assert forall|i: int| 0 <= i < acts.len() implies #[trigger] grant_ok(acts[i], s.id, s2) by {
                    if i >= 1 {
                        assert(acts[i] == ActionView::Send(s.peers[i - 1], MessageView::RequestVote(vote_request(s2))));
                    }
                }
            }
        },
        EventView::HeartbeatTimeout => {
            if s.role == Role::Leader {
                assert forall|i: int| 0 <= i < acts.len() implies #[trigger] grant_ok(acts[i], s.id, s2) by {
                    if i >= 1 {
                        assert(acts[i] == ActionView::Send(s.peers[i - 1], MessageView::AppendEntries(crate::raft::model::append_for_peer(s, i - 1))));
                    }
                }
            }
        },
        _ => {},
    }
}

// ── the proof ────────────────────────────────────────────────────────────────

/// A peer list without duplicates covering the other members has one entry
/// per other member.
pub(crate) proof fn lemma_peer_count(members: Set<NodeId>, n: NodeId, peers: Seq<NodeId>)
    requires
        members.finite(),
        members.contains(n),
        peers.no_duplicates(),
        peers.to_set() == members.remove(n),
    ensures
        peers.len() == members.len() - 1,
{
    peers.unique_seq_to_set();
}

/// Two quorums of the same members share a member.
pub(crate) proof fn lemma_quorums_overlap(members: Set<NodeId>, a: Set<NodeId>, b: Set<NodeId>)
    requires
        members.finite(),
        members.len() >= 1,
        a.finite(),
        b.finite(),
        a.subset_of(members),
        b.subset_of(members),
        a.len() >= quorum_of((members.len() - 1) as nat),
        b.len() >= quorum_of((members.len() - 1) as nat),
    ensures
        exists|v: NodeId| a.contains(v) && b.contains(v),
{
    if forall|v: NodeId| !(a.contains(v) && b.contains(v)) {
        assert(a.disjoint(b));
        vstd::set_lib::lemma_set_disjoint_lens(a, b);
        vstd::set_lib::lemma_len_subset(a + b, members);
        assert(false);
    }
}

/// Two quorums that voted in the same term voted for the same candidate.
pub proof fn lemma_one_quorum_per_term(c: ClusterView, a: NodeId, sa: Set<NodeId>, b: NodeId, sb: Set<NodeId>, t: Term)
    requires
        votes_unique(c),
        c.members.finite(),
        quorum_voted(c, sa, a, t),
        quorum_voted(c, sb, b, t),
    ensures
        a == b,
{
    vstd::set_lib::lemma_len_subset(sa, c.members);
    lemma_quorums_overlap(c.members, sa, sb);
    let v = choose|v: NodeId| sa.contains(v) && sb.contains(v);
    assert(c.votes.contains((v, t, a)));
    assert(c.votes.contains((v, t, b)));
}

/// Invariants hold in every initial cluster.
pub proof fn law_initial_cluster_satisfies_invariant(c: ClusterView)
    requires
        initial(c),
    ensures
        inv(c),
{
}

/// The invariants give election safety: at most one leader per term.
pub proof fn law_invariant_gives_election_safety(c: ClusterView)
    requires
        inv(c),
    ensures
        election_safety(c),
{
    assert forall|a: NodeId, b: NodeId|
        #![trigger c.nodes[a], c.nodes[b]]
        c.nodes.contains_key(a) && c.nodes.contains_key(b) && c.nodes[a].role == Role::Leader
            && c.nodes[b].role == Role::Leader && c.nodes[a].current_term == c.nodes[b].current_term
        implies a == b by {
        let t = c.nodes[a].current_term;
        assert(c.members.contains(a));
        assert(c.members.contains(b));
        let sa = choose|s: Set<NodeId>| #[trigger] quorum_voted(c, s, a, t);
        let sb = choose|s: Set<NodeId>| #[trigger] quorum_voted(c, s, b, t);
        assert(c.members.len() >= 1) by {
            assert(c.members.contains(a));
            if c.members.len() == 0 {
                assert(c.members =~= Set::empty());
            }
        }
        lemma_quorums_overlap(c.members, sa, sb);
        let v = choose|v: NodeId| sa.contains(v) && sb.contains(v);
        assert(c.votes.contains((v, t, a)));
        assert(c.votes.contains((v, t, b)));
    }
}

/// A crash and restart from persisted state keeps the invariants.
pub proof fn law_restart_preserves_invariant(c: ClusterView, n: NodeId)
    requires
        inv(c),
        c.members.contains(n),
    ensures
        inv(restart(c, n)),
{
    let c2 = restart(c, n);
    assert(c2.nodes.dom() =~= c.members);
    assert forall|k: NodeId| #![trigger c2.nodes[k]] c2.members.contains(k) && k != n implies c2.nodes[k] == c.nodes[k] by {}
    assert forall|k: NodeId| #![trigger c2.nodes[k]] c2.members.contains(k) && c2.nodes[k].role == Role::Leader implies exists|q: Set<NodeId>|
        #[trigger] quorum_voted(c2, q, k, c2.nodes[k].current_term) by {
        assert(c.nodes[k].role == Role::Leader);
        let q = choose|q: Set<NodeId>| #[trigger] quorum_voted(c, q, k, c.nodes[k].current_term);
        assert(quorum_voted(c2, q, k, c2.nodes[k].current_term));
    }
}

/// Every step of every node keeps the invariants.
#[verifier::rlimit(50)]
pub proof fn law_step_preserves_invariant(c: ClusterView, n: NodeId, e: EventView)
    requires
        inv(c),
        enabled(c, n, e),
    ensures
        inv(next(c, n, e)),
{
    let s = c.nodes[n];
    let (s2, acts) = step(s, e);
    let c2 = next(c, n, e);
    lemma_node_step(s, e);
    assert(c.members.contains(n));
    assert(c2.nodes.dom() =~= c.members);

    // membership
    assert forall|k: NodeId| #![trigger c2.nodes[k]] c2.members.contains(k) implies {
        &&& c2.nodes[k].id == k
        &&& c2.nodes[k].peers.no_duplicates()
        &&& c2.nodes[k].peers.to_set() == c2.members.remove(k)
    } by {
        if k != n {
            assert(c2.nodes[k] == c.nodes[k]);
        }
    }

    // recorded votes stay consistent
    assert forall|v: Vote| #[trigger] c2.votes.contains(v) implies c2.members.contains(v.0) && (
    c2.nodes[v.0].current_term > v.1 || (c2.nodes[v.0].current_term == v.1 && c2.nodes[v.0].voted_for
        == Some(v.2))) by {
        if c.votes.contains(v) {
            if v.0 != n {
                assert(c2.nodes[v.0] == c.nodes[v.0]);
            } else {
                assert(c2.nodes[n] == s2);
            }
        } else {
            assert(s2.voted_for is Some && v == (n, s2.current_term, s2.voted_for->0));
        }
    }

    // one candidate per voter and term
    assert forall|a: Vote, b: Vote|
        #![trigger c2.votes.contains(a), c2.votes.contains(b)]
        c2.votes.contains(a) && c2.votes.contains(b) && a.0 == b.0 && a.1 == b.1 implies a.2 == b.2 by {
        if c.votes.contains(a) && c.votes.contains(b) {
        } else if !c.votes.contains(a) && !c.votes.contains(b) {
        } else {
            let (old_v, new_v) = if c.votes.contains(a) { (a, b) } else { (b, a) };
            assert(new_v == (n, s2.current_term, s2.voted_for->0));
            assert(old_v.0 == n);
            assert(s.current_term >= old_v.1);
            assert(s.current_term == s2.current_term);
            assert(s.voted_for == Some(old_v.2));
        }
    }

    // granted votes in flight
    assert forall|p: Packet| #[trigger] c2.network.contains(p) implies grant_recorded(c2, p) by {
        if c.network.contains(p) {
            assert(grant_recorded(c, p));
        } else {
            assert(sends(n, acts).contains(p));
            let i = choose|i: int| 0 <= i < acts.len() && #[trigger] acts[i] == ActionView::Send(p.1, p.2);
            assert(grant_ok(acts[i], s.id, s2));
        }
    }

    // candidates
    assert forall|k: NodeId| #![trigger c2.nodes[k]] c2.members.contains(k) && c2.nodes[k].role == Role::Candidate implies {
        let g = tally(c2.nodes[k]).votes_granted;
        &&& g.finite()
        &&& g.subset_of(c2.members)
        &&& forall|v: NodeId| #[trigger] g.contains(v) ==> c2.votes.contains((v, c2.nodes[k].current_term, k))
    } by {
        if k != n {
            assert(c2.nodes[k] == c.nodes[k]);
        } else {
            assert(c2.nodes[n] == s2);
            let g = tally(s2).votes_granted;
            if e is ElectionTimeout && s2.current_term == s.current_term + 1 && s2.voted_for == Some(s.id)
                && tally(s2).votes_granted == set![s.id] {
                assert(c2.votes.contains((n, s2.current_term, n)));
            } else if s.role == Role::Candidate && s2.current_term == s.current_term && tally(s2).votes_granted
                == tally(s).votes_granted {
            } else {
                let m = e->Message_0->RequestVoteResponse_0;
                assert(c.members.contains(n) && c.nodes[n].role == Role::Candidate);
                let src = choose|src: NodeId| c.network.contains((src, n, MessageView::RequestVoteResponse(m)));
                assert(c.network.contains((src, n, MessageView::RequestVoteResponse(m))));
                assert(c.votes.contains((src, m.term, n)));
                assert(s.peers.to_set().contains(m.vote_from));
            }
        }
    }

    // leaders
    assert forall|k: NodeId| #![trigger c2.nodes[k]] c2.members.contains(k) && c2.nodes[k].role == Role::Leader implies exists|q: Set<NodeId>|
        #[trigger] quorum_voted(c2, q, k, c2.nodes[k].current_term) by {
        if k != n {
            assert(c2.nodes[k] == c.nodes[k]);
            let q = choose|q: Set<NodeId>| #[trigger] quorum_voted(c, q, k, c.nodes[k].current_term);
            assert(quorum_voted(c2, q, k, c2.nodes[k].current_term));
        } else {
            assert(c2.nodes[n] == s2);
            lemma_peer_count(c.members, n, s.peers);
            if s.role == Role::Leader && s2.current_term == s.current_term {
                let q = choose|q: Set<NodeId>| #[trigger] quorum_voted(c, q, n, s.current_term);
                assert(quorum_voted(c2, q, n, s2.current_term));
            } else if e is ElectionTimeout && s.peers.len() == 0 && s2.current_term == s.current_term + 1
                && s2.voted_for == Some(s.id) {
                let q = set![n];
                assert(c2.votes.contains((n, s2.current_term, n)));
                assert(q.subset_of(c2.members));
                assert(quorum_voted(c2, q, n, s2.current_term));
            } else {
                let m = e->Message_0->RequestVoteResponse_0;
                let g0 = tally(s).votes_granted;
                let q = if m.vote_granted && s.peers.contains(m.vote_from) {
                    g0.insert(m.vote_from)
                } else {
                    g0
                };
                assert(c.members.contains(n) && c.nodes[n].role == Role::Candidate);
                if m.vote_granted && s.peers.contains(m.vote_from) {
                    let src = choose|src: NodeId| c.network.contains((src, n, MessageView::RequestVoteResponse(m)));
                    assert(c.network.contains((src, n, MessageView::RequestVoteResponse(m))));
                    assert(c.votes.contains((src, m.term, n)));
                    assert(s.peers.to_set().contains(m.vote_from));
                }
                assert forall|v: NodeId| #[trigger] q.contains(v) implies c2.votes.contains((v, s2.current_term, n)) by {
                    if g0.contains(v) {
                    }
                }
                assert(quorum_voted(c2, q, n, s2.current_term));
            }
        }
    }
}

} // verus!
