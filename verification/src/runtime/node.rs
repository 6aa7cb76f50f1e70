//! The decisions of a node's event loop, apart from the I/O it drives: which
//! timers to touch, what to send, what to apply, and which waiting client to
//! answer, for every event the Raft core consumes.
use vstd::prelude::*;
use crate::protocol::action::{actions_view, Action, ActionView};
use crate::protocol::command::Command;
use crate::protocol::event::{Event, EventView};
use crate::protocol::log::last_index;
use crate::protocol::message::{Message, MessageView};
use crate::protocol::types::{LogIndex, NodeId};
use crate::raft::{model, PersistentState, Raft, RaftView, Role};
use crate::runtime::label::{label_text, msg_label};
use crate::runtime::metrics::{MessageEvent, Metrics, MESSAGE_LOG_CAP};
use crate::raft::laws::{
    applies, law_applies_follow_last_applied, law_log_is_append_only_outside_append_entries,
    lemma_applies_concat,
};

verus! {

/// The result of a client command, returned once the entry is applied (or
/// redirected when this node is not the leader).
#[derive(Debug, Clone, Copy, PartialEq, Eq, Structural)]
pub enum ClientResponse {
    /// Command was committed and applied to the state machine.
    Applied,
    /// This node is not the leader; `leader_id` is the best guess at the
    /// current leader (`None` if no leader has been observed yet).
    NotLeader { leader_id: Option<NodeId> },
}

/// An effect the event loop has to carry out, in order.
#[derive(Debug)]
pub enum Effect {
    /// Deliver `msg` to node `to` through the transport.
    Transmit(NodeId, Message),
    /// Restart the (randomised) election timer.
    ResetElectionTimer,
    /// Stop the election timer without rescheduling it.
    CancelElectionTimer,
    /// Restart the heartbeat timer.
    ResetHeartbeatTimer,
    /// Write the persistent state to stable storage before going on.
    Persist,
    /// Hand this command to the state machine.
    Apply(Command),
    /// Answer the client that waits on this log index.
    Reply(LogIndex, ClientResponse),
    /// Answer the client whose command is being handled right now.
    Answer(ClientResponse),
}

/// Abstract value of an `Effect`.
#[verifier::ext_equal]
pub enum EffectView {
    Transmit(NodeId, MessageView),
    ResetElectionTimer,
    CancelElectionTimer,
    ResetHeartbeatTimer,
    Persist,
    Apply(Command),
    Reply(LogIndex, ClientResponse),
    Answer(ClientResponse),
}

impl View for Effect {
    type V = EffectView;

    open spec fn view(&self) -> EffectView {
        match self {
            Effect::Transmit(to, m) => EffectView::Transmit(*to, m@),
            Effect::ResetElectionTimer => EffectView::ResetElectionTimer,
            Effect::CancelElectionTimer => EffectView::CancelElectionTimer,
            Effect::ResetHeartbeatTimer => EffectView::ResetHeartbeatTimer,
            Effect::Persist => EffectView::Persist,
            Effect::Apply(c) => EffectView::Apply(*c),
            Effect::Reply(i, r) => EffectView::Reply(*i, *r),
            Effect::Answer(r) => EffectView::Answer(*r),
        }
    }
}

pub open spec fn effects_view(effects: Seq<Effect>) -> Seq<EffectView> {
    effects.map_values(|e: Effect| e@)
}

/// What the message log records of an outgoing message: tick, sender,
/// receiver, label.
pub type MessageRecord = (u64, NodeId, NodeId, Seq<char>);

pub open spec fn record_of(e: MessageEvent) -> MessageRecord {
    (e.tick, e.from, e.to, e.label@)
}

pub open spec fn records(log: Seq<MessageEvent>) -> Seq<MessageRecord> {
    log.map_values(|e: MessageEvent| record_of(e))
}

/// Append `x`, dropping the oldest element when the cap is reached.
pub open spec fn capped_push(s: Seq<MessageRecord>, x: MessageRecord) -> Seq<MessageRecord> {
    if s.len() >= MESSAGE_LOG_CAP { s.drop_first().push(x) } else { s.push(x) }
}

/// `s` without `v` (which occurs at most once).
pub open spec fn without(s: Seq<LogIndex>, v: LogIndex) -> Seq<LogIndex> {
    if s.contains(v) { s.remove(s.index_of(v)) } else { s }
}

/// Register a waiting client at `v`, replacing one that waited there.
pub open spec fn park(s: Seq<LogIndex>, v: LogIndex) -> Seq<LogIndex> {
    without(s, v).push(v)
}

/// The event loop's bookkeeping while it works through a list of actions:
/// effects so far, waiting clients, the message log, and the index of the
/// last command handed to the state machine.
#[verifier::ext_equal]
pub struct LoopView {
    pub effects: Seq<EffectView>,
    pub pending: Seq<LogIndex>,
    pub messages: Seq<MessageRecord>,
    pub applied: LogIndex,
}

/// The answer to a client parked at an index once the node learns it is
/// not the leader.
pub open spec fn not_leader_reply(l: Option<NodeId>) -> spec_fn(LogIndex) -> EffectView {
    |i: LogIndex| EffectView::Reply(i, ClientResponse::NotLeader { leader_id: l })
}

/// Handling of one action by the event loop of node `id`: sends are logged
/// and transmitted; a heartbeat reset also cancels the election timer;
/// `NotLeader` answers every waiting client and forgets them; an applied
/// command is the one at the index after the last one applied: it goes to
/// the state machine and answers the client waiting at that index, if any.
pub open spec fn dispatch_one(id: NodeId, tick: u64, st: LoopView, a: ActionView) -> LoopView {
    match a {
        ActionView::Send(to, m) => LoopView {
            effects: st.effects.push(EffectView::Transmit(to, m)),
            messages: capped_push(st.messages, (tick, id, to, label_text(m))),
            ..st
        },
        ActionView::ResetElectionTimer => LoopView {
            effects: st.effects.push(EffectView::ResetElectionTimer),
            ..st
        },
        ActionView::ResetHeartbeatTimer => LoopView {
            effects: st.effects.push(EffectView::CancelElectionTimer).push(
                EffectView::ResetHeartbeatTimer,
            ),
            ..st
        },
        ActionView::PersistState => LoopView { effects: st.effects.push(EffectView::Persist), ..st },
        ActionView::NotLeader(l) => LoopView {
            effects: st.effects + st.pending.map_values(not_leader_reply(l)),
            pending: Seq::empty(),
            ..st
        },
        ActionView::ApplyCommand(c) => {
            let index = (st.applied + 1) as LogIndex;
            if st.pending.contains(index) {
                LoopView {
                    effects: st.effects.push(EffectView::Apply(c)).push(
                        EffectView::Reply(index, ClientResponse::Applied),
                    ),
                    pending: without(st.pending, index),
                    applied: index,
                    ..st
                }
            } else {
                LoopView { effects: st.effects.push(EffectView::Apply(c)), applied: index, ..st }
            }
        },
    }
}

/// When the core reports that the node is not the leader, the event loop
/// answers every waiting client, in the order they wait, with `NotLeader`
/// carrying exactly the leader the core reported, forgets them, and
/// changes nothing else.
pub proof fn law_not_leader_answers_waiting_clients(id: NodeId, tick: u64, st: LoopView, l: Option<NodeId>)
    ensures
        ({
            let d = dispatch_one(id, tick, st, ActionView::NotLeader(l));
            &&& d.pending.len() == 0
            &&& d.messages == st.messages
            &&& d.applied == st.applied
            &&& d.effects.len() == st.effects.len() + st.pending.len()
            &&& forall|i: int| 0 <= i < st.effects.len() ==> #[trigger] d.effects[i] == st.effects[i]
            &&& forall|i: int|
                0 <= i < st.pending.len() ==> #[trigger] d.effects[st.effects.len() + i] == EffectView::Reply(
                    st.pending[i],
                    ClientResponse::NotLeader { leader_id: l },
                )
        }),
{
    let d = dispatch_one(id, tick, st, ActionView::NotLeader(l));
    assert forall|i: int|
        0 <= i < st.pending.len() implies #[trigger] d.effects[st.effects.len() + i] == EffectView::Reply(
            st.pending[i],
            ClientResponse::NotLeader { leader_id: l },
        ) by {
        assert(d.effects[st.effects.len() + i] == st.pending.map_values(not_leader_reply(l))[i]);
    }
}

/// Handling of a whole list of actions, in order.
pub open spec fn dispatch_all(id: NodeId, tick: u64, st: LoopView, actions: Seq<ActionView>) -> LoopView
    decreases actions.len(),
{
    if actions.len() == 0 {
        st
    } else {
        dispatch_one(id, tick, dispatch_all(id, tick, st, actions.drop_last()), actions.last())
    }
}

/// Working through a list advances the applied index by its applied commands.
pub proof fn lemma_dispatch_applied(id: NodeId, tick: u64, st: LoopView, actions: Seq<ActionView>)
    requires
        st.applied + applies(actions) <= u64::MAX,
    ensures
        dispatch_all(id, tick, st, actions).applied == st.applied + applies(actions),
    decreases actions.len(),
{
    if actions.len() > 0 {
        lemma_dispatch_applied(id, tick, st, actions.drop_last());
    }
}

/// The step may have changed what has to be on stable storage before the
/// node sends or answers anything: its term, its vote, or its log (the last
/// index moved, or an `AppendEntries` carried entries).
pub open spec fn must_persist(s: RaftView, s2: RaftView, e: EventView) -> bool {
    ||| s2.current_term != s.current_term
    ||| s2.voted_for != s.voted_for
    ||| last_index(s2.log) != last_index(s.log)
    ||| (e matches EventView::Message(MessageView::AppendEntries(m)) && m.entries.len() > 0)
}

/// The effects a step starts with: `Persist` when the step must persist.
pub open spec fn persist_first(s: RaftView, s2: RaftView, e: EventView) -> Seq<EffectView> {
    if must_persist(s, s2, e) { seq![EffectView::Persist] } else { Seq::empty() }
}

/// Every change of term, vote or log is saved before the node sends or
/// answers anything: such a step starts its effects with `Persist`.
pub proof fn law_changes_are_persisted_first(s: RaftView, e: EventView)
    requires
        model::step_safe(s, e),
    ensures
        ({
            let s2 = model::step(s, e).0;
            (s2.current_term != s.current_term || s2.voted_for != s.voted_for || s2.log != s.log)
                ==> must_persist(s, s2, e)
        }),
{
    let s2 = model::step(s, e).0;
    match e {
        EventView::Message(MessageView::AppendEntries(m)) => {
            if m.entries.len() == 0 {
                assert(model::reconcile(
                    if m.term > s.current_term { model::step_down(s, m.term) } else { s }.log,
                    m.entries,
                    0,
                ) == s.log);
            }
        },
        _ => {
            law_log_is_append_only_outside_append_entries(s, e);
        },
    }
}

/// Whether two votes are the same.
fn same_vote(a: Option<NodeId>, b: Option<NodeId>) -> (r: bool)
    ensures
        r == (a == b),
{
    match (a, b) {
        (Some(x), Some(y)) => x == y,
        (None, None) => true,
        _ => false,
    }
}

/// The metrics scalars that describe node state `s`.
pub open spec fn scalars_of(s: RaftView) -> (Role, u64, u64, u64, u64, Option<NodeId>) {
    (s.role, s.current_term, s.commit_index, s.last_applied, s.log.len() as u64, s.known_leader)
}

/// A Raft core together with its metrics and the log indices at which
/// clients wait for their command to be applied.
pub struct RaftNode {
    raft: Raft,
    metrics: Metrics,
    pending: Vec<LogIndex>,
}

impl RaftNode {
    pub closed spec fn state(&self) -> RaftView {
        self.raft@
    }

    pub closed spec fn waiting(&self) -> Seq<LogIndex> {
        self.pending@
    }

    pub closed spec fn message_records(&self) -> Seq<MessageRecord> {
        records(self.metrics.messages())
    }

    pub closed spec fn metric_scalars(&self) -> (Role, u64, u64, u64, u64, Option<NodeId>) {
        self.metrics.scalars()
    }

    pub closed spec fn metrics_node(&self) -> NodeId {
        self.metrics.node_id_spec()
    }

    /// Waiting clients are registered at distinct indices, and the message
    /// log is within its cap.
    pub closed spec fn wf(&self) -> bool {
        &&& self.pending@.no_duplicates()
        &&& self.metrics.wf()
        &&& self.metrics.node_id_spec() == self.raft@.id
    }

    /// A node that starts fresh (`initial_state` is `None`) or recovers the
    /// persisted state.
    pub fn new(id: NodeId, peers: Vec<NodeId>, initial_state: Option<PersistentState>) -> (n: Self)
        requires
            !peers@.contains(id),
        ensures
            n.wf(),
            n.state().fresh(id, peers@),
            match initial_state {
                Some(p) => n.state().current_term == p.current_term && n.state().voted_for
                    == p.voted_for && n.state().log == p.log@,
                None => n.state().current_term == 0 && n.state().voted_for is None
                    && n.state().log.len() == 0,
            },
            n.waiting().len() == 0,
            n.message_records().len() == 0,
            n.metric_scalars() == (Role::Follower, 0u64, 0u64, 0u64, 0u64, None::<NodeId>),
    {
        let raft = match initial_state {
            Some(state) => Raft::restore(id, peers, state),
            None => Raft::new(id, peers),
        };
        let metrics = Metrics::new(id);
        proof {
            assert(records(metrics.messages()) =~= Seq::empty());
        }
        RaftNode { raft, metrics, pending: Vec::new() }
    }

    /// The Raft core.
    pub fn raft(&self) -> (r: &Raft)
        ensures
            r@ == self.state(),
    {
        &self.raft
    }

    /// The node's metrics.
    pub fn metrics(&self) -> (m: &Metrics)
        ensures
            records(m.messages()) == self.message_records(),
            m.scalars() == self.metric_scalars(),
            m.node_id_spec() == self.metrics_node(),
    {
        &self.metrics
    }

    /// Log indices at which a client waits, oldest registration first.
    pub fn pending(&self) -> (p: &Vec<LogIndex>)
        ensures
            p@ == self.waiting(),
    {
        &self.pending
    }

    /// Starting the event loop: arm the election timer and publish metrics.
    pub fn start(&mut self) -> (effects: Vec<Effect>)
        requires
            old(self).wf(),
        ensures
            final(self).wf(),
            effects_view(effects@) == seq![EffectView::ResetElectionTimer],
            final(self).state() == old(self).state(),
            final(self).waiting() == old(self).waiting(),
            final(self).message_records() == old(self).message_records(),
            final(self).metric_scalars() == scalars_of(old(self).state()),
    {
        self.update_metrics();
        let e = vec![Effect::ResetElectionTimer];
        proof {
            assert(effects_view(e@) =~= seq![EffectView::ResetElectionTimer]);
        }
        e
    }

    /// Feed a timer event or an inbound message to the core and decide what
    /// to do with the actions it returns. `None` when the core cannot take
    /// the event (see `model::node_can_step`); nothing changes then.
    pub fn on_event(&mut self, event: Event, tick: u64) -> (res: Option<Vec<Effect>>)
        requires
            old(self).wf(),
        ensures
            final(self).wf(),
            match res {
                None => {
                    &&& !model::node_can_step(old(self).state(), event@)
                    &&& final(self).state() == old(self).state()
                    &&& final(self).waiting() == old(self).waiting()
                    &&& final(self).message_records() == old(self).message_records()
                    &&& final(self).metric_scalars() == old(self).metric_scalars()
                },
                Some(effects) => {
                    let (s2, acts) = model::step(old(self).state(), event@);
                    let d = dispatch_all(
                        s2.id,
                        tick,
                        LoopView {
                            effects: persist_first(old(self).state(), s2, event@),
                            pending: old(self).waiting(),
                            messages: old(self).message_records(),
                            applied: old(self).state().last_applied,
                        },
                        acts,
                    );
                    &&& model::node_can_step(old(self).state(), event@)
                    &&& final(self).state() == s2
                    &&& effects_view(effects@) == d.effects
                    &&& final(self).waiting() == d.pending
                    &&& final(self).message_records() == d.messages
                    &&& final(self).metric_scalars() == scalars_of(s2)
                },
            },
    {
        if !self.raft.can_step(&event) {
            return None;
        }
        proof {
            model::lemma_node_can_step_is_safe(self.raft@, event@);
            law_applies_follow_last_applied(self.raft@, event@);
        }
        let applied = self.raft.volatile.last_applied;
        let term0 = self.raft.persistent.current_term;
        let vote0 = self.raft.persistent.voted_for;
        let last0 = self.raft.last_log_index();
        let carries = match &event {
            Event::Message(Message::AppendEntries(m)) => m.entries.len() > 0,
            _ => false,
        };
        let ghost e_view = event@;
        let actions = self.raft.step(event);
        let e0 = self.persist_effects(term0, vote0, last0, carries);
        proof {
            assert(carries == (e_view matches EventView::Message(MessageView::AppendEntries(m)) && m.entries.len() > 0));
        }
        let effects = self.process_actions(actions, tick, applied, e0);
        self.update_metrics();
        Some(effects)
    }

    /// A client submits `cmd`. A leader appends it and parks the client at
    /// the new log index (replacing one that waited there); any other node
    /// answers the client at once with `NotLeader` and the leader it knows.
    /// `None` when the core cannot take the request; nothing changes then.
    pub fn on_client(&mut self, cmd: Command, tick: u64) -> (res: Option<Vec<Effect>>)
        requires
            old(self).wf(),
        ensures
            final(self).wf(),
            match res {
                None => {
                    &&& !model::node_can_step(old(self).state(), EventView::ClientRequest(cmd))
                    &&& final(self).state() == old(self).state()
                    &&& final(self).waiting() == old(self).waiting()
                    &&& final(self).message_records() == old(self).message_records()
                    &&& final(self).metric_scalars() == old(self).metric_scalars()
                },
                Some(effects) => {
                    let s = old(self).state();
                    let (s2, acts) = model::step(s, EventView::ClientRequest(cmd));
                    let appended = last_index(s2.log) > last_index(s.log);
                    let start = if appended {
                        LoopView {
                            effects: persist_first(s, s2, EventView::ClientRequest(cmd)),
                            pending: park(old(self).waiting(), last_index(s2.log)),
                            messages: old(self).message_records(),
                            applied: s.last_applied,
                        }
                    } else {
                        LoopView {
                            effects: persist_first(s, s2, EventView::ClientRequest(cmd)).push(
                                EffectView::Answer(
                                    ClientResponse::NotLeader { leader_id: s2.known_leader },
                                ),
                            ),
                            pending: old(self).waiting(),
                            messages: old(self).message_records(),
                            applied: s.last_applied,
                        }
                    };
                    let d = dispatch_all(s2.id, tick, start, acts);
                    &&& model::node_can_step(s, EventView::ClientRequest(cmd))
                    &&& final(self).state() == s2
                    &&& effects_view(effects@) == d.effects
                    &&& final(self).waiting() == d.pending
                    &&& final(self).message_records() == d.messages
                    &&& final(self).metric_scalars() == scalars_of(s2)
                },
            },
    {
        let event = Event::ClientRequest(cmd);
        if !self.raft.can_step(&event) {
            return None;
        }
        proof {
            model::lemma_node_can_step_is_safe(self.raft@, event@);
            law_applies_follow_last_applied(self.raft@, event@);
        }
        let applied = self.raft.volatile.last_applied;
        let before = self.raft.last_log_index();
        let term0 = self.raft.persistent.current_term;
        let vote0 = self.raft.persistent.voted_for;
        let actions = self.raft.step(event);
        let mut effects = self.persist_effects(term0, vote0, before, false);
        let ghost head = effects_view(effects@);
        let after = self.raft.last_log_index();
        if after > before {
            // The leader accepted the command: park the client at its index.
            self.park_client(after);
        } else {
            effects.push(
                Effect::Answer(ClientResponse::NotLeader { leader_id: self.raft.known_leader }),
            );
            proof {
                assert(effects_view(effects@) =~= head.push(
                    EffectView::Answer(
                        ClientResponse::NotLeader { leader_id: self.raft@.known_leader },
                    ),
                ));
            }
        }
        let effects = self.process_actions(actions, tick, applied, effects);
        self.update_metrics();
        Some(effects)
    }

    /// `Persist` when the term, the vote or the last log index differ from
    /// the given ones, or when `carried` (the event brought entries).
    fn persist_effects(&self, term0: u64, vote0: Option<NodeId>, last0: LogIndex, carried: bool) -> (e: Vec<Effect>)
        ensures
            effects_view(e@) == if self.raft@.current_term != term0 || self.raft@.voted_for != vote0
                || last_index(self.raft@.log) != last0 || carried {
                seq![EffectView::Persist]
            } else {
                Seq::<EffectView>::empty()
            },
    {
        let mut e: Vec<Effect> = Vec::new();
        if self.raft.persistent.current_term != term0 || !same_vote(self.raft.persistent.voted_for, vote0)
            || self.raft.last_log_index() != last0 || carried {
            e.push(Effect::Persist);
            proof {
                assert(effects_view(e@) =~= seq![EffectView::Persist]);
            }
        } else {
            proof {
                assert(effects_view(e@) =~= Seq::<EffectView>::empty());
            }
        }
        e
    }

    /// Register a waiting client at log index `index`.
    fn park_client(&mut self, index: LogIndex)
        requires
            old(self).wf(),
        ensures
            final(self).wf(),
            final(self).waiting() == park(old(self).waiting(), index),
            final(self).raft == old(self).raft,
            final(self).metrics == old(self).metrics,
    {
        self.remove_pending(index);
        self.pending.push(index);
        proof {
            assert forall|i: int, j: int|
                0 <= i < self.pending@.len() && 0 <= j < self.pending@.len() && i != j implies
                self.pending@[i] != self.pending@[j] by {
                let w = without(old(self).pending@, index);
                if i == w.len() as int {
                    assert(!w.contains(index) || w[j] != index);
                } else if j == w.len() as int {
                    assert(!w.contains(index) || w[i] != index);
                }
            }
        }
    }

    /// Forget the client waiting at `index`, if any; tells whether there was one.
    fn remove_pending(&mut self, index: LogIndex) -> (found: bool)
        requires
            old(self).wf(),
        ensures
            final(self).wf(),
            found == old(self).waiting().contains(index),
            final(self).waiting() == without(old(self).waiting(), index),
            !final(self).waiting().contains(index),
            final(self).raft == old(self).raft,
            final(self).metrics == old(self).metrics,
    {
        let mut j: usize = 0;
        while j < self.pending.len()
            invariant
                j <= self.pending@.len(),
                self.pending@ == old(self).pending@,
                self.raft == old(self).raft,
                self.metrics == old(self).metrics,
                self.wf(),
                forall|q: int| 0 <= q < j ==> #[trigger] self.pending@[q] != index,
            decreases self.pending.len() - j,
        {
            if self.pending[j] == index {
                let ghost before = self.pending@;
                proof {
                    assert(before.contains(index));
                    let k = before.index_of(index);
                    assert(before[k] == index);
                    assert(before[j as int] == index);
                    assert(k == j as int);
                }
                self.pending.remove(j);
                proof {
                    assert forall|q: int| 0 <= q < self.pending@.len() implies #[trigger] self.pending@[q]
                        != index by {
                        if q < j {
                        } else {
                            assert(self.pending@[q] == before[q + 1]);
                        }
                    }
                }
                return true;
            }
            j = j + 1;
        }
        proof {
            assert(!self.pending@.contains(index));
        }
        false
    }

    /// Work through `actions` in order, appending their effects to
    /// `effects`; `applied` is the last applied index before the step that
    /// produced them.
    fn process_actions(
        &mut self,
        actions: Vec<Action>,
        tick: u64,
        applied: LogIndex,
        effects: Vec<Effect>,
    ) -> (out: Vec<Effect>)
        requires
            old(self).wf(),
            applied + applies(actions_view(actions@)) <= u64::MAX,
        ensures
            final(self).wf(),
            final(self).raft == old(self).raft,
            final(self).metrics.scalars() == old(self).metrics.scalars(),
            ({
                let d = dispatch_all(
                    old(self).raft@.id,
                    tick,
                    LoopView {
                        effects: effects_view(effects@),
                        pending: old(self).waiting(),
                        messages: old(self).message_records(),
                        applied,
                    },
                    actions_view(actions@),
                );
                &&& effects_view(out@) == d.effects
                &&& final(self).waiting() == d.pending
                &&& final(self).message_records() == d.messages
            }),
    {
        let ghost all = actions_view(actions@);
        let ghost id = self.raft@.id;
        let ghost start = LoopView {
            effects: effects_view(effects@),
            pending: old(self).waiting(),
            messages: old(self).message_records(),
            applied,
        };
        let mut actions = actions;
        let mut out = effects;
        let mut next = applied;
        let mut k: usize = 0;
        let n = actions.len();
        while actions.len() > 0
            invariant
                self.wf(),
                self.raft == old(self).raft,
                self.metrics.scalars() == old(self).metrics.scalars(),
                id == self.raft@.id,
                k + actions@.len() == n,
                n == all.len(),
                actions_view(actions@) == all.skip(k as int),
                applied + applies(all) <= u64::MAX,
                next == applied + applies(all.take(k as int)),
                ({
                    let d = dispatch_all(id, tick, start, all.take(k as int));
                    &&& effects_view(out@) == d.effects
                    &&& self.waiting() == d.pending
                    &&& self.message_records() == d.messages
                    &&& next == d.applied
                }),
            decreases actions.len(),
        {
            let ghost rest = actions@;
            let action = actions.remove(0);
            proof {
                assert(action == rest[0]);
                assert(actions_view(rest)[0] == action@);
                assert(all.skip(k as int)[0] == all[k as int]);
                assert(all.take(k + 1).drop_last() =~= all.take(k as int));
                assert(all.take(k + 1).last() == all[k as int]);
                assert(actions_view(actions@) =~= actions_view(rest).skip(1));
                assert(all.skip(k as int).skip(1) =~= all.skip(k + 1));
                lemma_applies_concat(all.take(k + 1), all.skip(k + 1));
                assert(all.take(k + 1) + all.skip(k + 1) =~= all);
            }
            self.process_one(action, tick, &mut out, &mut next);
            k = k + 1;
        }
        proof {
            assert(all.take(k as int) =~= all);
        }
        out
    }

    /// Handle one action (see `dispatch_one`); `next` is the index of the
    /// last command handed to the state machine.
    fn process_one(&mut self, action: Action, tick: u64, out: &mut Vec<Effect>, next: &mut LogIndex)
        requires
            old(self).wf(),
            action is ApplyCommand ==> *old(next) < u64::MAX,
        ensures
            final(self).wf(),
            final(self).raft == old(self).raft,
            final(self).metrics.scalars() == old(self).metrics.scalars(),
            ({
                let d = dispatch_one(
                    old(self).raft@.id,
                    tick,
                    LoopView {
                        effects: effects_view(old(out)@),
                        pending: old(self).waiting(),
                        messages: old(self).message_records(),
                        applied: *old(next),
                    },
                    action@,
                );
                &&& effects_view(final(out)@) == d.effects
                &&& final(self).waiting() == d.pending
                &&& final(self).message_records() == d.messages
                &&& *final(next) == d.applied
            }),
    {
        let ghost out0 = out@;
        match action {
            Action::Send(to, msg) => {
                let label = msg_label(&msg);
                self.metrics.record_message(
                    MessageEvent { tick, from: self.raft.id, to, label },
                );
                out.push(Effect::Transmit(to, msg));
                proof {
                    assert(effects_view(out@) =~= effects_view(out0).push(
                        EffectView::Transmit(to, msg@),
                    ));
                    let m0 = old(self).metrics.messages();
                    if m0.len() >= MESSAGE_LOG_CAP {
                        assert(records(self.metrics.messages()) =~= records(m0).drop_first().push(
                            (tick, self.raft@.id, to, label_text(msg@)),
                        ));
                    } else {
                        assert(records(self.metrics.messages()) =~= records(m0).push(
                            (tick, self.raft@.id, to, label_text(msg@)),
                        ));
                    }
                }
            },
            Action::ResetElectionTimer => {
                out.push(Effect::ResetElectionTimer);
                proof {
                    assert(effects_view(out@) =~= effects_view(out0).push(
                        EffectView::ResetElectionTimer,
                    ));
                }
            },
            Action::ResetHeartbeatTimer => {
                // Cancel the election timer while we are leader.
                out.push(Effect::CancelElectionTimer);
                out.push(Effect::ResetHeartbeatTimer);
                proof {
                    assert(effects_view(out@) =~= effects_view(out0).push(
                        EffectView::CancelElectionTimer,
                    ).push(EffectView::ResetHeartbeatTimer));
                }
            },
            Action::PersistState => {
                out.push(Effect::Persist);
                proof {
                    assert(effects_view(out@) =~= effects_view(out0).push(EffectView::Persist));
                }
            },
            Action::NotLeader(leader_id) => {
                // Answer every client parked while we thought we were leader.
                let ghost p0 = self.pending@;
                let mut i: usize = 0;
                while i < self.pending.len()
                    invariant
                        i <= self.pending@.len(),
                        self.pending@ == p0,
                        effects_view(out@) =~= effects_view(out0) + p0.take(i as int).map_values(
                            not_leader_reply(leader_id),
                        ),
                    decreases self.pending.len() - i,
                {
                    let ghost o1 = out@;
                    out.push(
                        Effect::Reply(self.pending[i], ClientResponse::NotLeader { leader_id }),
                    );
                    proof {
                        assert(p0.take(i + 1).map_values(not_leader_reply(leader_id))
                            =~= p0.take(i as int).map_values(not_leader_reply(leader_id)).push(
                            not_leader_reply(leader_id)(p0[i as int]),
                        ));
                        assert(effects_view(out@) =~= effects_view(o1).push(
                            not_leader_reply(leader_id)(p0[i as int]),
                        ));
                    }
                    i = i + 1;
                }
                proof {
                    assert(p0.take(i as int) =~= p0);
                }
                self.pending = Vec::new();
            },
            Action::ApplyCommand(cmd) => {
                // The command at the index after the last one applied.
                let index = *next + 1;
                *next = index;
                out.push(Effect::Apply(cmd));
                let found = self.remove_pending(index);
                if found {
                    out.push(Effect::Reply(index, ClientResponse::Applied));
                }
                proof {
                    if found {
                        assert(effects_view(out@) =~= effects_view(out0).push(
                            EffectView::Apply(cmd),
                        ).push(EffectView::Reply(index, ClientResponse::Applied)));
                    } else {
                        assert(effects_view(out@) =~= effects_view(out0).push(
                            EffectView::Apply(cmd),
                        ));
                    }
                }
            },
        }
    }

    /// Publish the core's role, term, commit/apply progress, log length and
    /// known leader.
    fn update_metrics(&mut self)
        requires
            old(self).wf(),
        ensures
            final(self).wf(),
            final(self).raft == old(self).raft,
            final(self).pending == old(self).pending,
            final(self).metrics.messages() == old(self).metrics.messages(),
            final(self).metrics.scalars() == scalars_of(old(self).raft@),
    {
        self.metrics.update(
            self.raft.role,
            self.raft.persistent.current_term,
            self.raft.volatile.commit_index,
            self.raft.volatile.last_applied,
            self.raft.persistent.log.len() as u64,
            self.raft.known_leader,
        );
    }
}

} // verus!
