use raft::protocol::action::Action;
use raft::protocol::command::Command;
use raft::protocol::event::Event;
use raft::protocol::log::LogEntry;
use raft::protocol::message::{AppendEntries, Message, RequestVote, RequestVoteResponse};
use raft::{Raft, Role};

fn entry(term: u64, index: u64) -> LogEntry {
    LogEntry { term, index, command: Command::set("k", "v") }
}

fn vote_request(term: u64, candidate: u64, last_index: u64, last_term: u64) -> Event {
    Event::Message(Message::RequestVote(RequestVote {
        term,
        candidate_id: candidate,
        last_log_index: last_index,
        last_log_term: last_term,
    }))
}

fn granted(actions: &[Action]) -> Option<bool> {
    actions.iter().find_map(|a| match a {
        Action::Send(_, Message::RequestVoteResponse(r)) => Some(r.vote_granted),
        _ => None,
    })
}

fn leader_of_three() -> Raft {
    let mut raft = Raft::new(1, vec![2, 3]);
    raft.step(Event::ElectionTimeout);
    raft.step(Event::Message(Message::RequestVoteResponse(RequestVoteResponse {
        term: 1,
        vote_granted: true,
        vote_from: 2,
    })));
    assert_eq!(raft.role, Role::Leader);
    raft
}

#[test]
fn law_quorum_is_strict_majority() {
    assert_eq!(Raft::new(1, vec![]).quorum(), 1);
    assert_eq!(Raft::new(1, vec![2]).quorum(), 2);
    assert_eq!(Raft::new(1, vec![2, 3]).quorum(), 2);
    assert_eq!(Raft::new(1, vec![2, 3, 4]).quorum(), 3);
    assert_eq!(Raft::new(1, vec![2, 3, 4, 5]).quorum(), 3);
}

#[test]
fn law_one_vote_per_term() {
    let mut raft = Raft::new(1, vec![2, 3]);
    assert_eq!(granted(&raft.step(vote_request(1, 2, 0, 0))), Some(true));
    assert_eq!(granted(&raft.step(vote_request(1, 3, 0, 0))), Some(false));
    // The same candidate asking again keeps the vote.
    assert_eq!(granted(&raft.step(vote_request(1, 2, 0, 0))), Some(true));
    assert_eq!(raft.persistent.voted_for, Some(2));
}

#[test]
fn law_vote_needs_up_to_date_log() {
    let mut raft = Raft::new(1, vec![2, 3]);
    raft.persistent.current_term = 2;
    raft.persistent.log = vec![entry(1, 1), entry(2, 2)];
    // Lower last term: refused even in a newer term.
    assert_eq!(granted(&raft.step(vote_request(3, 2, 5, 1))), Some(false));
    assert_eq!(raft.persistent.current_term, 3);
    // Same last term but shorter log: refused.
    assert_eq!(granted(&raft.step(vote_request(3, 3, 1, 2))), Some(false));
    // At least as up to date: granted.
    assert_eq!(granted(&raft.step(vote_request(3, 3, 2, 2))), Some(true));
}

#[test]
fn law_term_never_decreases_on_stale_messages() {
    let mut raft = Raft::new(1, vec![2, 3]);
    raft.persistent.current_term = 4;
    raft.step(vote_request(2, 2, 0, 0));
    assert_eq!(raft.persistent.current_term, 4);
    raft.step(Event::Message(Message::AppendEntries(AppendEntries {
        term: 3,
        leader_id: 2,
        prev_log_index: 0,
        prev_log_term: 0,
        entries: vec![],
        leader_commit: 0,
    })));
    assert_eq!(raft.persistent.current_term, 4);
    assert_eq!(raft.role, Role::Follower);
}

#[test]
fn law_heartbeat_is_idempotent() {
    let mut raft = leader_of_three();
    let first = raft.step(Event::HeartbeatTimeout);
    let term = raft.persistent.current_term;
    let second = raft.step(Event::HeartbeatTimeout);
    assert_eq!(first.len(), second.len());
    assert_eq!(format!("{:?}", first), format!("{:?}", second));
    assert_eq!(raft.persistent.current_term, term);
    assert_eq!(raft.role, Role::Leader);
}

#[test]
fn law_non_leader_redirects_clients_without_appending() {
    let mut raft = Raft::new(1, vec![2, 3]);
    raft.known_leader = Some(3);
    let actions = raft.step(Event::ClientRequest(Command::set("a", "1")));
    assert!(matches!(actions.as_slice(), [Action::NotLeader(Some(3))]));
    assert!(raft.persistent.log.is_empty());
}

#[test]
fn law_leader_appends_client_command_at_next_index() {
    let mut raft = leader_of_three();
    raft.step(Event::ClientRequest(Command::set("a", "1")));
    raft.step(Event::ClientRequest(Command::set("b", "2")));
    let indices: Vec<u64> = raft.persistent.log.iter().map(|e| e.index).collect();
    assert_eq!(indices, vec![1, 2]);
    assert!(raft.persistent.log.iter().all(|e| e.term == 1));
    // Nothing commits before a follower acknowledges.
    assert_eq!(raft.volatile.commit_index, 0);
}

#[test]
fn law_commit_never_drops_on_stale_append_entries() {
    // The cap at the last entry the message covers is below the follower's
    // commit index: the commit index stays where it was.
    let mut raft = Raft::new(1, vec![2, 3]);
    raft.persistent.current_term = 1;
    raft.persistent.log = (1..=5).map(|i| entry(1, i)).collect();
    raft.volatile.commit_index = 5;
    raft.volatile.last_applied = 5;
    raft.step(Event::Message(Message::AppendEntries(AppendEntries {
        term: 1,
        leader_id: 2,
        prev_log_index: 3,
        prev_log_term: 1,
        entries: vec![],
        leader_commit: 6,
    })));
    assert_eq!(raft.volatile.commit_index, 5);
    assert_eq!(raft.volatile.last_applied, 5);
    assert_eq!(raft.persistent.log.len(), 5);
}

#[test]
fn law_leader_commits_only_entries_of_its_term() {
    let mut raft = Raft::new(1, vec![2, 3]);
    raft.persistent.current_term = 1;
    raft.persistent.log = vec![entry(1, 1)];
    raft.step(Event::ElectionTimeout);
    raft.step(Event::Message(Message::RequestVoteResponse(RequestVoteResponse {
        term: 2,
        vote_granted: true,
        vote_from: 2,
    })));
    assert_eq!(raft.role, Role::Leader);

    // A majority holds the term-1 entry, but it is not of the leader's term.
    let ack = |match_index: u64| {
        Event::Message(Message::AppendEntriesResponse(
            raft::protocol::message::AppendEntriesResponse { term: 2, success: true, from: 2, match_index },
        ))
    };
    let actions = raft.step(ack(1));
    assert_eq!(raft.volatile.commit_index, 0);
    assert!(!actions.iter().any(|a| matches!(a, Action::ApplyCommand(_))));

    // Once an entry of term 2 is on a majority, both entries commit.
    raft.step(Event::ClientRequest(Command::set("b", "2")));
    let actions = raft.step(ack(2));
    assert_eq!(raft.volatile.commit_index, 2);
    assert_eq!(raft.volatile.last_applied, 2);
    let applied = actions.iter().filter(|a| matches!(a, Action::ApplyCommand(_))).count();
    assert_eq!(applied, 2);
}

#[test]
fn success_reply_reports_only_what_the_message_checked() {
    // A follower holding two entries of term 1 accepts an empty heartbeat of
    // term 2 that only checks index 0: it reports index 0 as matched.
    let mut raft = Raft::new(2, vec![1, 3]);
    raft.persistent.current_term = 1;
    raft.persistent.log = vec![entry(1, 1), entry(1, 2)];
    let actions = raft.step(Event::Message(Message::AppendEntries(AppendEntries {
        term: 2,
        leader_id: 3,
        prev_log_index: 0,
        prev_log_term: 0,
        entries: vec![],
        leader_commit: 0,
    })));
    let reply = actions.iter().find_map(|a| match a {
        Action::Send(3, Message::AppendEntriesResponse(r)) => Some(*r),
        _ => None,
    });
    let reply = reply.expect("a reply to the leader");
    assert!(reply.success);
    assert_eq!(reply.match_index, 0);
    assert_eq!(raft.persistent.log.len(), 2);
}

#[test]
fn success_reply_reports_last_new_entry() {
    let mut raft = Raft::new(2, vec![1, 3]);
    raft.persistent.current_term = 1;
    raft.persistent.log = vec![entry(1, 1), entry(1, 2), entry(1, 3)];
    let actions = raft.step(Event::Message(Message::AppendEntries(AppendEntries {
        term: 1,
        leader_id: 1,
        prev_log_index: 1,
        prev_log_term: 1,
        entries: vec![entry(1, 2)],
        leader_commit: 0,
    })));
    let reply = actions.iter().find_map(|a| match a {
        Action::Send(1, Message::AppendEntriesResponse(r)) => Some(*r),
        _ => None,
    });
    assert_eq!(reply.map(|r| (r.success, r.match_index)), Some((true, 2)));
}
