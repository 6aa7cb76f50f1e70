use raft::protocol::command::Command;
use raft::protocol::log::LogEntry;
use raft::protocol::message::{
    AppendEntries, AppendEntriesResponse, Message, RequestVote, RequestVoteResponse,
};
use raft::runtime::label::{append_decimal, msg_label};
use raft::runtime::metrics::{MessageEvent, Metrics, MESSAGE_LOG_CAP};
use raft::runtime::timer::election_timeout_ms;
use raft::Role;

fn event(tick: u64) -> MessageEvent {
    MessageEvent { tick, from: 1, to: 2, label: format!("m{}", tick) }
}

#[test]
fn metrics_start_as_idle_follower() {
    let m = Metrics::new(4);
    let s = m.snapshot();
    assert_eq!(s.node_id, 4);
    assert_eq!(s.role, Role::Follower);
    assert_eq!((s.term, s.commit_index, s.last_applied, s.log_length), (0, 0, 0, 0));
    assert_eq!(s.leader_id, None);
    assert!(s.message_log.is_empty());
}

#[test]
fn metrics_update_replaces_scalars_only() {
    let mut m = Metrics::new(1);
    m.record_message(event(1));
    m.update(Role::Leader, 3, 2, 1, 5, Some(1));
    let s = m.snapshot();
    assert_eq!(s.role, Role::Leader);
    assert_eq!((s.term, s.commit_index, s.last_applied, s.log_length), (3, 2, 1, 5));
    assert_eq!(s.leader_id, Some(1));
    assert_eq!(s.message_log.len(), 1);
    assert_eq!(s.node_id, 1);
}

#[test]
fn metrics_message_log_keeps_newest_within_cap() {
    let mut m = Metrics::new(1);
    for t in 0..(MESSAGE_LOG_CAP as u64 + 5) {
        m.record_message(event(t));
    }
    let s = m.snapshot();
    assert_eq!(s.message_log.len(), MESSAGE_LOG_CAP);
    assert_eq!(s.message_log[0].tick, 5);
    assert_eq!(s.message_log[MESSAGE_LOG_CAP - 1].tick, MESSAGE_LOG_CAP as u64 + 4);
    assert_eq!(s.message_log[MESSAGE_LOG_CAP - 1].label, format!("m{}", MESSAGE_LOG_CAP + 4));
}

#[test]
fn metrics_message_log_below_cap_keeps_all() {
    let mut m = Metrics::new(1);
    m.record_message(event(1));
    m.record_message(event(2));
    let s = m.snapshot();
    let ticks: Vec<u64> = s.message_log.iter().map(|e| e.tick).collect();
    assert_eq!(ticks, vec![1, 2]);
}

#[test]
fn label_of_each_message_kind() {
    let rv = Message::RequestVote(RequestVote {
        term: 3,
        candidate_id: 1,
        last_log_index: 0,
        last_log_term: 0,
    });
    assert_eq!(msg_label(&rv), "RequestVote(t=3)");
    let vr = Message::RequestVoteResponse(RequestVoteResponse {
        term: 12,
        vote_granted: true,
        vote_from: 2,
    });
    assert_eq!(msg_label(&vr), "VoteResponse(t=12, granted=true)");
    let ae = Message::AppendEntries(AppendEntries {
        term: 3,
        leader_id: 1,
        prev_log_index: 0,
        prev_log_term: 0,
        entries: vec![LogEntry { term: 3, index: 1, command: Command::set("k", "v") }],
        leader_commit: 0,
    });
    assert_eq!(msg_label(&ae), "AppendEntries(t=3, n=1)");
    let ar = Message::AppendEntriesResponse(AppendEntriesResponse {
        term: 0,
        success: false,
        from: 2,
        match_index: 0,
    });
    assert_eq!(msg_label(&ar), "AppendEntriesResponse(t=0, ok=false)");
}

#[test]
fn decimal_formatting_matches_std() {
    for n in [0u64, 7, 10, 99, 100, 12345, u64::MAX] {
        let mut s = String::from("x=");
        append_decimal(&mut s, n);
        assert_eq!(s, format!("x={}", n));
    }
}

#[test]
fn election_timeout_stays_in_range() {
    for _ in 0..100 {
        let ms = election_timeout_ms(150, 300);
        assert!((150..=300).contains(&ms));
    }
    assert_eq!(election_timeout_ms(200, 200), 200);
}

#[test]
fn election_timeout_is_randomised() {
    let first = election_timeout_ms(0, 1_000_000);
    let varied = (0..50).any(|_| election_timeout_ms(0, 1_000_000) != first);
    assert!(varied);
}
