use vstd::prelude::*;
use std::collections::VecDeque;
use crate::protocol::types::NodeId;
use crate::raft::Role;

verus! {

/// How many outgoing messages the message log keeps.
pub const MESSAGE_LOG_CAP: usize = 200;

/// A single entry in the message log.
#[derive(Debug)]
pub struct MessageEvent {
    pub tick: u64,
    pub from: NodeId,
    pub to: NodeId,
    /// Human-readable label e.g. `"AppendEntries(t=3, n=1)"`.
    pub label: String,
}

impl Clone for MessageEvent {
    fn clone(&self) -> (res: Self)
        ensures
            res == *self,
    {
        MessageEvent { tick: self.tick, from: self.from, to: self.to, label: self.label.clone() }
    }
}

/// A point-in-time snapshot of a node's observable state.
/// `message_log` is ordered oldest-first, newest-last.
#[derive(Debug, Clone)]
pub struct MetricsSnapshot {
    pub node_id: NodeId,
    pub role: Role,
    pub term: u64,
    pub commit_index: u64,
    pub last_applied: u64,
    pub log_length: u64,
    pub leader_id: Option<NodeId>,
    /// Recent outgoing messages, oldest first, at most `MESSAGE_LOG_CAP`.
    pub message_log: Vec<MessageEvent>,
}

/// The observable state of one node: scalar fields refreshed after every
/// step, and a bounded log of its recent outgoing messages.
pub struct Metrics {
    node_id: NodeId,
    role: Role,
    term: u64,
    commit_index: u64,
    last_applied: u64,
    log_length: u64,
    leader_id: Option<NodeId>,
    /// Ring buffer of the most recent messages, oldest first.
    message_log: VecDeque<MessageEvent>,
}

impl Metrics {
    pub closed spec fn node_id_spec(&self) -> NodeId {
        self.node_id
    }

    /// The recent messages, oldest first.
    pub closed spec fn messages(&self) -> Seq<MessageEvent> {
        self.message_log@
    }

    /// The snapshot the metrics currently describe.
    pub closed spec fn scalars(&self) -> (Role, u64, u64, u64, u64, Option<NodeId>) {
        (self.role, self.term, self.commit_index, self.last_applied, self.log_length, self.leader_id)
    }

    /// The message log never exceeds its cap.
    pub open spec fn wf(&self) -> bool {
        self.messages().len() <= MESSAGE_LOG_CAP
    }

    /// Metrics of a follower in term 0 with nothing logged.
    pub fn new(node_id: NodeId) -> (m: Self)
        ensures
            m.wf(),
            m.node_id_spec() == node_id,
            m.scalars() == (Role::Follower, 0u64, 0u64, 0u64, 0u64, None::<NodeId>),
            m.messages() == Seq::<MessageEvent>::empty(),
    {
        Metrics {
            node_id,
            role: Role::Follower,
            term: 0,
            commit_index: 0,
            last_applied: 0,
            log_length: 0,
            leader_id: None,
            message_log: VecDeque::new(),
        }
    }

    /// Read a full snapshot.
    pub fn snapshot(&self) -> (s: MetricsSnapshot)
        ensures
            s.node_id == self.node_id_spec(),
            (s.role, s.term, s.commit_index, s.last_applied, s.log_length, s.leader_id)
                == self.scalars(),
            s.message_log@ == self.messages(),
    {
        let mut log: Vec<MessageEvent> = Vec::new();
        let mut i: usize = 0;
        while i < self.message_log.len()
            invariant
                i <= self.message_log@.len(),
                log@ == self.message_log@.take(i as int),
            decreases self.message_log.len() - i,
        {
            log.push(self.message_log[i].clone());
            proof {
                assert(log@ =~= self.message_log@.take(i + 1));
            }
            i = i + 1;
        }
        proof {
            assert(self.message_log@.take(i as int) =~= self.message_log@);
        }
        MetricsSnapshot {
            node_id: self.node_id,
            role: self.role,
            term: self.term,
            commit_index: self.commit_index,
            last_applied: self.last_applied,
            log_length: self.log_length,
            leader_id: self.leader_id,
            message_log: log,
        }
    }

    /// Update all scalar fields after a `step()` call.
    pub fn update(
        &mut self,
        role: Role,
        term: u64,
        commit_index: u64,
        last_applied: u64,
        log_length: u64,
        leader_id: Option<NodeId>,
    )
        ensures
            final(self).scalars() == (role, term, commit_index, last_applied, log_length, leader_id),
            final(self).node_id_spec() == old(self).node_id_spec(),
            final(self).messages() == old(self).messages(),
    {
        self.role = role;
        self.term = term;
        self.commit_index = commit_index;
        self.last_applied = last_applied;
        self.log_length = log_length;
        self.leader_id = leader_id;
    }

    /// Append a message event; when the cap is reached the oldest one is evicted.
    pub fn record_message(&mut self, event: MessageEvent)
        ensures
            final(self).messages() == record_spec(old(self).messages(), event),
            final(self).node_id_spec() == old(self).node_id_spec(),
            final(self).scalars() == old(self).scalars(),
    {
        if self.message_log.len() >= MESSAGE_LOG_CAP {
            self.message_log.pop_front();
        }
        self.message_log.push_back(event);
        proof {
            if old(self).messages().len() >= MESSAGE_LOG_CAP {
                assert(self.message_log@ =~= old(self).messages().drop_first().push(event));
            }
        }
    }
}

/// The message log stays within its cap and keeps the newest messages: after
/// recording, the newest event is last and at most `MESSAGE_LOG_CAP` remain.
pub proof fn law_message_log_bounded(m: Seq<MessageEvent>, e: MessageEvent)
    requires
        m.len() <= MESSAGE_LOG_CAP,
    ensures
        ({
            let r = if m.len() >= MESSAGE_LOG_CAP { m.drop_first().push(e) } else { m.push(e) };
            &&& r.len() <= MESSAGE_LOG_CAP
            &&& r.last() == e
            &&& r.len() == if m.len() + 1 <= MESSAGE_LOG_CAP { m.len() + 1 } else { MESSAGE_LOG_CAP as nat }
            &&& forall|i: int| 0 <= i < r.len() - 1 ==> r[i] == m[i + m.len() + 1 - r.len()]
        }),
{
}

/// The message log after recording `e`: appended, the oldest evicted at the cap.
pub open spec fn record_spec(m: Seq<MessageEvent>, e: MessageEvent) -> Seq<MessageEvent> {
    if m.len() >= MESSAGE_LOG_CAP { m.drop_first().push(e) } else { m.push(e) }
}

/// The message log after recording each of `es`, in order, from empty.
pub open spec fn recorded(es: Seq<MessageEvent>) -> Seq<MessageEvent>
    decreases es.len(),
{
    if es.len() == 0 {
        Seq::empty()
    } else {
        record_spec(recorded(es.drop_last()), es.last())
    }
}

/// Recording messages one by one into fresh metrics keeps them all, oldest
/// first, up to the cap, and beyond it exactly the newest `MESSAGE_LOG_CAP`.
pub proof fn law_recorded_keeps_the_newest(es: Seq<MessageEvent>)
    ensures
        recorded(es) == if es.len() <= MESSAGE_LOG_CAP {
            es
        } else {
            es.skip(es.len() - MESSAGE_LOG_CAP)
        },
    decreases es.len(),
{
    if es.len() > 0 {
        let init = es.drop_last();
        law_recorded_keeps_the_newest(init);
        if es.len() <= MESSAGE_LOG_CAP {
            assert(init.push(es.last()) =~= es);
        } else if init.len() <= MESSAGE_LOG_CAP {
            assert(init.drop_first().push(es.last()) =~= es.skip(es.len() - MESSAGE_LOG_CAP));
        } else {
            let prev = init.skip(init.len() - MESSAGE_LOG_CAP);
            assert(prev.drop_first().push(es.last()) =~= es.skip(es.len() - MESSAGE_LOG_CAP));
        }
    }
}

/// One write to the metrics: a scalar update or a recorded message.
pub enum MetricsWrite {
    Update((Role, u64, u64, u64, u64, Option<NodeId>)),
    Record(MessageEvent),
}

/// Scalars and message log after the writes, in order, from fresh metrics.
pub open spec fn after_writes(ws: Seq<MetricsWrite>) -> ((Role, u64, u64, u64, u64, Option<NodeId>), Seq<MessageEvent>)
    decreases ws.len(),
{
    if ws.len() == 0 {
        ((Role::Follower, 0u64, 0u64, 0u64, 0u64, None::<NodeId>), Seq::empty())
    } else {
        let (sc, ms) = after_writes(ws.drop_last());
        match ws.last() {
            MetricsWrite::Update(u) => (u, ms),
            MetricsWrite::Record(e) => (sc, record_spec(ms, e)),
        }
    }
}

/// The recorded messages among the writes, in order.
pub open spec fn records_in(ws: Seq<MetricsWrite>) -> Seq<MessageEvent>
    decreases ws.len(),
{
    if ws.len() == 0 {
        Seq::empty()
    } else {
        match ws.last() {
            MetricsWrite::Update(_) => records_in(ws.drop_last()),
            MetricsWrite::Record(e) => records_in(ws.drop_last()).push(e),
        }
    }
}

/// The scalars of the last update among the writes (a fresh follower's if none).
pub open spec fn last_update(ws: Seq<MetricsWrite>) -> (Role, u64, u64, u64, u64, Option<NodeId>)
    decreases ws.len(),
{
    if ws.len() == 0 {
        (Role::Follower, 0u64, 0u64, 0u64, 0u64, None::<NodeId>)
    } else {
        match ws.last() {
            MetricsWrite::Update(u) => u,
            MetricsWrite::Record(_) => last_update(ws.drop_last()),
        }
    }
}

/// Whatever the interleaving of updates and recorded messages, fresh
/// metrics end with the scalars of the last update and the newest (at most
/// `MESSAGE_LOG_CAP`) recorded messages, oldest first; with at most that
/// many messages, all of them.
pub proof fn law_metrics_after_any_writes(ws: Seq<MetricsWrite>)
    ensures
        after_writes(ws).0 == last_update(ws),
        after_writes(ws).1 == recorded(records_in(ws)),
        records_in(ws).len() <= MESSAGE_LOG_CAP ==> after_writes(ws).1 == records_in(ws),
    decreases ws.len(),
{
    if ws.len() > 0 {
        law_metrics_after_any_writes(ws.drop_last());
        match ws.last() {
            MetricsWrite::Update(_) => {},
            MetricsWrite::Record(e) => {
                assert(records_in(ws).drop_last() =~= records_in(ws.drop_last()));
            },
        }
    }
    law_recorded_keeps_the_newest(records_in(ws));
}

} // verus!
