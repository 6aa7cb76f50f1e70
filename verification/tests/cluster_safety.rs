use raft::protocol::action::Action;
use raft::protocol::command::Command;
use raft::protocol::event::Event;
use raft::protocol::message::Message;
use raft::{Raft, Role};

/// A three-node cluster whose messages are delivered in order, except those
/// the test chooses to drop.
struct Sim {
    nodes: Vec<Raft>,
    queue: Vec<(u64, u64, Message)>,
}

impl Sim {
    fn new() -> Sim {
        Sim {
            nodes: vec![Raft::new(1, vec![2, 3]), Raft::new(2, vec![1, 3]), Raft::new(3, vec![1, 2])],
            queue: Vec::new(),
        }
    }

    fn node(&mut self, id: u64) -> &mut Raft {
        &mut self.nodes[(id - 1) as usize]
    }

    fn fire(&mut self, id: u64, event: Event) {
        let actions = self.node(id).step(event);
        for a in actions {
            if let Action::Send(to, m) = a {
                self.queue.push((id, to, m));
            }
        }
    }

    /// Deliver queued messages until none is left; `cut` drops every message
    /// to or from that node.
    fn settle(&mut self, cut: Option<u64>) {
        while !self.queue.is_empty() {
            let (from, to, m) = self.queue.remove(0);
            if Some(from) == cut || Some(to) == cut {
                continue;
            }
            self.fire(to, Event::Message(m));
        }
    }

    fn check_safety(&self) {
        // At most one leader per term.
        for a in &self.nodes {
            for b in &self.nodes {
                if a.id != b.id && a.role == Role::Leader && b.role == Role::Leader {
                    assert_ne!(a.persistent.current_term, b.persistent.current_term);
                }
            }
        }
        // Logs are indexed by position and match wherever a term matches.
        for a in &self.nodes {
            for (p, e) in a.persistent.log.iter().enumerate() {
                assert_eq!(e.index, p as u64 + 1);
                assert!(e.term >= 1);
            }
            for b in &self.nodes {
                let n = a.persistent.log.len().min(b.persistent.log.len());
                for p in 0..n {
                    if a.persistent.log[p].term == b.persistent.log[p].term {
                        for q in 0..=p {
                            assert_eq!(a.persistent.log[q].term, b.persistent.log[q].term);
                            assert_eq!(a.persistent.log[q].command, b.persistent.log[q].command);
                        }
                    }
                }
            }
        }
        // Nobody commits past its log, and wherever two nodes have both
        // committed an index they hold the same entry there.
        for a in &self.nodes {
            assert_eq!(a.volatile.last_applied, a.volatile.commit_index);
            assert!(a.volatile.commit_index as usize <= a.persistent.log.len());
            for b in &self.nodes {
                let n = (a.volatile.commit_index.min(b.volatile.commit_index)) as usize;
                for q in 0..n {
                    assert_eq!(a.persistent.log[q].index, b.persistent.log[q].index);
                    assert_eq!(a.persistent.log[q].term, b.persistent.log[q].term);
                    assert_eq!(a.persistent.log[q].command, b.persistent.log[q].command);
                }
            }
        }
    }
}

#[test]
fn cluster_elects_one_leader_and_replicates() {
    let mut sim = Sim::new();
    sim.fire(1, Event::ElectionTimeout);
    sim.settle(None);
    assert_eq!(sim.node(1).role, Role::Leader);
    sim.check_safety();

    sim.fire(1, Event::ClientRequest(Command::set("a", "1")));
    sim.fire(1, Event::HeartbeatTimeout);
    sim.settle(None);
    sim.fire(1, Event::HeartbeatTimeout);
    sim.settle(None);
    sim.check_safety();
    for id in 1..=3 {
        assert_eq!(sim.node(id).persistent.log.len(), 1);
        assert_eq!(sim.node(id).volatile.commit_index, 1);
    }
}

#[test]
fn cluster_logs_match_after_leader_change_and_partition() {
    let mut sim = Sim::new();
    sim.fire(1, Event::ElectionTimeout);
    sim.settle(None);
    sim.fire(1, Event::ClientRequest(Command::set("a", "1")));
    sim.fire(1, Event::HeartbeatTimeout);
    sim.settle(None);

    // Node 1 is cut off and keeps taking commands nobody hears about.
    sim.fire(1, Event::ClientRequest(Command::set("lost", "x")));
    sim.fire(1, Event::HeartbeatTimeout);
    sim.settle(Some(1));
    sim.check_safety();

    // Node 2 takes over in a later term and commits a different entry at index 2.
    sim.fire(2, Event::ElectionTimeout);
    sim.settle(Some(1));
    assert_eq!(sim.node(2).role, Role::Leader);
    sim.fire(2, Event::ClientRequest(Command::set("b", "2")));
    sim.fire(2, Event::HeartbeatTimeout);
    sim.settle(Some(1));
    sim.check_safety();

    // Node 1 comes back: it steps down and its conflicting entry is replaced.
    sim.fire(2, Event::HeartbeatTimeout);
    sim.settle(None);
    sim.fire(2, Event::HeartbeatTimeout);
    sim.settle(None);
    sim.fire(2, Event::HeartbeatTimeout);
    sim.settle(None);
    sim.check_safety();
    assert_eq!(sim.node(1).role, Role::Follower);
    let leader_log = sim.node(2).persistent.log.clone();
    let follower_log = sim.node(1).persistent.log.clone();
    assert_eq!(follower_log.len(), leader_log.len());
    for (f, l) in follower_log.iter().zip(leader_log.iter()) {
        assert_eq!((f.index, f.term), (l.index, l.term));
        assert_eq!(f.command, l.command);
    }
    assert_eq!(leader_log[1].command, Command::set("b", "2"));
}

#[test]
fn cluster_restart_from_persisted_state_keeps_the_vote() {
    let mut sim = Sim::new();
    // Node 3 hears nothing of the first election.
    sim.fire(1, Event::ElectionTimeout);
    sim.settle(Some(3));
    assert_eq!(sim.node(1).role, Role::Leader);
    assert_eq!(sim.node(2).persistent.voted_for, Some(1));
    assert_eq!(sim.node(3).persistent.current_term, 0);

    // Node 2 crashes and comes back from what it persisted.
    let saved = sim.node(2).persistent.clone();
    sim.nodes[1] = Raft::restore(2, vec![1, 3], saved);

    // Node 3 now runs for term 1 too; node 2 remembers its vote and refuses.
    sim.fire(3, Event::ElectionTimeout);
    assert_eq!(sim.node(3).persistent.current_term, 1);
    sim.settle(None);
    assert_eq!(sim.node(3).role, Role::Candidate);
    assert_eq!(sim.node(1).role, Role::Leader);
    sim.check_safety();
}
