use raft::protocol::command::Command;
use raft::protocol::event::Event;
use raft::protocol::message::{AppendEntriesResponse, Message, RequestVoteResponse};
use raft::runtime::node::{ClientResponse, Effect, RaftNode};
use raft::Role;

fn transmits(effects: &[Effect]) -> Vec<u64> {
    effects
        .iter()
        .filter_map(|e| match e {
            Effect::Transmit(to, _) => Some(*to),
            _ => None,
        })
        .collect()
}

fn elect_node_one() -> RaftNode {
    let mut node = RaftNode::new(1, vec![2, 3], None);
    node.start();
    node.on_event(Event::ElectionTimeout, 1).expect("timeout is accepted");
    let vote = Message::RequestVoteResponse(RequestVoteResponse {
        term: 1,
        vote_granted: true,
        vote_from: 2,
    });
    node.on_event(Event::Message(vote), 2).expect("vote is accepted");
    assert_eq!(node.raft().role, Role::Leader);
    node
}

#[test]
fn node_start_arms_the_election_timer() {
    let mut node = RaftNode::new(1, vec![2, 3], None);
    let effects = node.start();
    assert_eq!(effects.len(), 1);
    assert!(matches!(effects[0], Effect::ResetElectionTimer));
    let snap = node.metrics().snapshot();
    assert_eq!(snap.node_id, 1);
    assert_eq!(snap.role, Role::Follower);
    assert_eq!(snap.term, 0);
    assert!(snap.message_log.is_empty());
}

#[test]
fn node_restores_persisted_term() {
    let state = raft::PersistentState { current_term: 7, voted_for: Some(3), log: Vec::new() };
    let node = RaftNode::new(1, vec![2, 3], Some(state));
    assert_eq!(node.raft().persistent.current_term, 7);
    assert_eq!(node.raft().persistent.voted_for, Some(3));
    assert_eq!(node.raft().role, Role::Follower);
}

#[test]
fn node_election_timeout_transmits_and_logs_vote_requests() {
    let mut node = RaftNode::new(1, vec![2, 3], None);
    node.start();
    let effects = node.on_event(Event::ElectionTimeout, 42).expect("accepted");
    let mut to = transmits(&effects);
    to.sort();
    assert_eq!(to, vec![2, 3]);
    assert!(effects.iter().any(|e| matches!(e, Effect::ResetElectionTimer)));
    assert_eq!(effects.len(), 4);
    // The new term and vote are saved before anything is sent.
    assert!(matches!(effects[0], Effect::Persist));

    let snap = node.metrics().snapshot();
    assert_eq!(snap.role, Role::Candidate);
    assert_eq!(snap.term, 1);
    assert_eq!(snap.message_log.len(), 2);
    for ev in &snap.message_log {
        assert_eq!(ev.tick, 42);
        assert_eq!(ev.from, 1);
        assert_eq!(ev.label, "RequestVote(t=1)");
    }
}

#[test]
fn node_becoming_leader_cancels_election_timer() {
    let mut node = RaftNode::new(1, vec![2, 3], None);
    node.start();
    node.on_event(Event::ElectionTimeout, 1).unwrap();
    let vote = Message::RequestVoteResponse(RequestVoteResponse {
        term: 1,
        vote_granted: true,
        vote_from: 2,
    });
    let effects = node.on_event(Event::Message(vote), 2).unwrap();
    let cancel = effects.iter().position(|e| matches!(e, Effect::CancelElectionTimer));
    let reset = effects.iter().position(|e| matches!(e, Effect::ResetHeartbeatTimer));
    assert!(cancel.is_some());
    assert_eq!(reset, cancel.map(|c| c + 1));
    assert_eq!(node.metrics().snapshot().role, Role::Leader);
    assert_eq!(node.metrics().snapshot().leader_id, Some(1));
}

#[test]
fn node_follower_answers_client_with_not_leader() {
    let mut node = RaftNode::new(1, vec![2, 3], None);
    node.start();
    let effects = node.on_client(Command::set("x", "1"), 0).expect("accepted");
    assert_eq!(effects.len(), 1);
    assert!(matches!(effects[0], Effect::Answer(ClientResponse::NotLeader { leader_id: None })));
    assert!(node.pending().is_empty());
}

#[test]
fn node_leader_parks_client_until_applied() {
    let mut node = elect_node_one();
    let effects = node.on_client(Command::set("x", "1"), 3).expect("accepted");
    assert!(!effects.iter().any(|e| matches!(e, Effect::Answer(_))));
    assert_eq!(node.pending(), &vec![1]);
    assert_eq!(node.raft().last_log_index(), 1);

    let ack = Message::AppendEntriesResponse(AppendEntriesResponse {
        term: 1,
        success: true,
        from: 2,
        match_index: 1,
    });
    let effects = node.on_event(Event::Message(ack), 4).expect("accepted");
    let apply = effects.iter().position(|e| matches!(e, Effect::Apply(_)));
    let reply = effects
        .iter()
        .position(|e| matches!(e, Effect::Reply(1, ClientResponse::Applied)));
    assert!(apply.is_some());
    assert_eq!(reply, apply.map(|a| a + 1));
    match &effects[apply.unwrap()] {
        Effect::Apply(cmd) => assert_eq!(*cmd, Command::set("x", "1")),
        _ => unreachable!(),
    }
    assert!(node.pending().is_empty());
    let snap = node.metrics().snapshot();
    assert_eq!(snap.commit_index, 1);
    assert_eq!(snap.last_applied, 1);
    assert_eq!(snap.log_length, 1);
}

#[test]
fn node_step_down_answers_every_waiting_client() {
    let mut node = elect_node_one();
    node.on_client(Command::set("a", "1"), 3).unwrap();
    node.on_client(Command::set("b", "2"), 3).unwrap();
    assert_eq!(node.pending(), &vec![1, 2]);

    // A higher term makes the leader step down.
    let higher = Message::AppendEntriesResponse(AppendEntriesResponse {
        term: 5,
        success: false,
        from: 3,
        match_index: 0,
    });
    node.on_event(Event::Message(higher), 5).unwrap();
    assert_eq!(node.raft().role, Role::Follower);

    // The next client request learns that this node is not the leader, and
    // the parked clients are answered.
    let effects = node.on_client(Command::delete("a"), 6).unwrap();
    let replies: Vec<u64> = effects
        .iter()
        .filter_map(|e| match e {
            Effect::Reply(i, ClientResponse::NotLeader { .. }) => Some(*i),
            _ => None,
        })
        .collect();
    assert_eq!(replies, vec![1, 2]);
    assert!(node.pending().is_empty());
}

#[test]
fn raft_node_single_node_applies_command() {
    let mut node = RaftNode::new(1, vec![], None);
    node.start();
    node.on_event(Event::ElectionTimeout, 1).unwrap();
    let snap = node.metrics().snapshot();
    assert_eq!(snap.node_id, 1);
    assert_eq!(snap.role, Role::Leader);
    assert!(snap.term >= 1);

    let cmd = Command::set("hello", "world");
    let effects = node.on_client(cmd.clone(), 2).unwrap();
    let applied: Vec<&Command> = effects
        .iter()
        .filter_map(|e| match e {
            Effect::Apply(c) => Some(c),
            _ => None,
        })
        .collect();
    assert_eq!(applied, vec![&cmd]);
    assert!(effects.iter().any(|e| matches!(e, Effect::Reply(1, ClientResponse::Applied))));
    assert!(node.pending().is_empty());
}

#[test]
fn raft_node_three_nodes_elect_one_leader() {
    let mut nodes = vec![
        RaftNode::new(1, vec![2, 3], None),
        RaftNode::new(2, vec![1, 3], None),
        RaftNode::new(3, vec![1, 2], None),
    ];
    let mut queue: Vec<(u64, Message)> = Vec::new();
    for n in nodes.iter_mut() {
        n.start();
    }
    for e in nodes[1].on_event(Event::ElectionTimeout, 0).unwrap() {
        if let Effect::Transmit(to, m) = e {
            queue.push((to, m));
        }
    }
    let mut tick = 1;
    while !queue.is_empty() {
        let (to, m) = queue.remove(0);
        for e in nodes[(to - 1) as usize].on_event(Event::Message(m), tick).unwrap() {
            if let Effect::Transmit(to, m) = e {
                queue.push((to, m));
            }
        }
        tick += 1;
    }
    let leaders = nodes
        .iter()
        .filter(|n| n.metrics().snapshot().role == Role::Leader)
        .count();
    assert_eq!(leaders, 1);
    assert_eq!(nodes[1].raft().role, Role::Leader);
}

#[test]
fn node_answers_every_client_of_an_applied_batch() {
    let mut node = elect_node_one();
    node.on_client(Command::set("a", "1"), 3).unwrap();
    node.on_client(Command::set("b", "2"), 3).unwrap();
    assert_eq!(node.pending(), &vec![1, 2]);
    let ack = Message::AppendEntriesResponse(AppendEntriesResponse {
        term: 1,
        success: true,
        from: 2,
        match_index: 2,
    });
    let effects = node.on_event(Event::Message(ack), 4).unwrap();
    let replies: Vec<u64> = effects
        .iter()
        .filter_map(|e| match e {
            Effect::Reply(i, ClientResponse::Applied) => Some(*i),
            _ => None,
        })
        .collect();
    assert_eq!(replies, vec![1, 2]);
    assert!(node.pending().is_empty());
}

#[test]
fn node_persists_before_answering_a_vote_request() {
    let mut node = RaftNode::new(1, vec![2, 3], None);
    node.start();
    let rv = Message::RequestVote(raft::protocol::message::RequestVote {
        term: 3,
        candidate_id: 2,
        last_log_index: 0,
        last_log_term: 0,
    });
    let effects = node.on_event(Event::Message(rv), 1).unwrap();
    assert!(matches!(effects[0], Effect::Persist));
    assert!(effects.iter().any(|e| matches!(e, Effect::Transmit(2, _))));
    // A repeated request changes nothing and saves nothing.
    let rv = Message::RequestVote(raft::protocol::message::RequestVote {
        term: 3,
        candidate_id: 2,
        last_log_index: 0,
        last_log_term: 0,
    });
    let effects = node.on_event(Event::Message(rv), 2).unwrap();
    assert!(!effects.iter().any(|e| matches!(e, Effect::Persist)));
}
