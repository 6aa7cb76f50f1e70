//! What a decoded UI action asks of the cluster, decided from plain values.
use vstd::prelude::*;
use crate::protocol::types::NodeId;
use crate::sim::clock::MAX_STEP_US;
use crate::sim::ui::app::{App, AppView};
use crate::sim::ui::input::{UiAction, UiActionView};
use crate::runtime::label::{append_decimal, decimal};

verus! {

/// Simulated microseconds added by one manual clock step.
pub const CLOCK_STEP_US: u64 = 1000;
/// Latency change per key press, in simulated milliseconds.
pub const LATENCY_STEP_MS: u64 = 10;
/// Clock speed change per key press, in simulated microseconds per tick.
pub const SPEED_STEP_US: u64 = 10;

/// What the UI needs to know of the cluster to decide.
pub struct ClusterStatus {
    /// Sorted node ids (dead ones included).
    pub node_ids: Vec<NodeId>,
    /// `alive[i]` tells whether `node_ids[i]` runs.
    pub alive: Vec<bool>,
    pub paused: bool,
    pub latency_ms: u64,
    pub speed_us: u64,
}

/// What the cluster should do for a UI action.
#[derive(Debug)]
pub enum Directive {
    Quit,
    Resume,
    Pause,
    /// Advance the clock by this many simulated microseconds.
    StepClock(u64),
    Kill(NodeId),
    Restart(NodeId),
    Isolate(NodeId),
    Unisolate(NodeId),
    RaiseDropRate,
    LowerDropRate,
    SetLatency(u64),
    SetSpeed(u64),
    /// Send `SET key=value` to `node`.
    Submit { node: NodeId, key: String, value: String },
    /// A command was completed but no node is alive to take it.
    NoAliveNode,
    /// Nothing for the cluster to do.
    Nothing,
}

/// Abstract value of a `Directive`.
#[verifier::ext_equal]
pub enum DirectiveView {
    Quit,
    Resume,
    Pause,
    StepClock(u64),
    Kill(NodeId),
    Restart(NodeId),
    Isolate(NodeId),
    Unisolate(NodeId),
    RaiseDropRate,
    LowerDropRate,
    SetLatency(u64),
    SetSpeed(u64),
    Submit { node: NodeId, key: Seq<char>, value: Seq<char> },
    NoAliveNode,
    Nothing,
}

impl View for Directive {
    type V = DirectiveView;

    open spec fn view(&self) -> DirectiveView {
        match self {
            Directive::Quit => DirectiveView::Quit,
            Directive::Resume => DirectiveView::Resume,
            Directive::Pause => DirectiveView::Pause,
            Directive::StepClock(t) => DirectiveView::StepClock(*t),
            Directive::Kill(n) => DirectiveView::Kill(*n),
            Directive::Restart(n) => DirectiveView::Restart(*n),
            Directive::Isolate(n) => DirectiveView::Isolate(*n),
            Directive::Unisolate(n) => DirectiveView::Unisolate(*n),
            Directive::RaiseDropRate => DirectiveView::RaiseDropRate,
            Directive::LowerDropRate => DirectiveView::LowerDropRate,
            Directive::SetLatency(l) => DirectiveView::SetLatency(*l),
            Directive::SetSpeed(s) => DirectiveView::SetSpeed(*s),
            Directive::Submit { node, key, value } => DirectiveView::Submit {
                node: *node,
                key: key@,
                value: value@,
            },
            Directive::NoAliveNode => DirectiveView::NoAliveNode,
            Directive::Nothing => DirectiveView::Nothing,
        }
    }
}

/// The selected node, if the selection points into the list.
pub open spec fn selected_node(ids: Seq<NodeId>, selected: usize) -> Option<NodeId> {
    if selected < ids.len() { Some(ids[selected as int]) } else { None }
}

/// The node a command goes to: the selected one if it is alive, else the
/// first alive node of the list.
pub open spec fn submit_target(ids: Seq<NodeId>, alive: Seq<bool>, selected: usize) -> Option<NodeId> {
    if selected < ids.len() && alive[selected as int] {
        Some(ids[selected as int])
    } else if exists|i: int| 0 <= i < ids.len() && #[trigger] alive[i] {
        Some(ids[first_alive(alive)])
    } else {
        None
    }
}

/// Position of the first `true` of `alive`.
pub open spec fn first_alive(alive: Seq<bool>) -> int {
    choose|i: int| 0 <= i < alive.len() && alive[i] && forall|j: int| 0 <= j < i ==> !#[trigger] alive[j]
}

/// A node action on the selected node, or nothing when the selection is out of range.
pub open spec fn on_selected(ids: Seq<NodeId>, selected: usize, f: spec_fn(NodeId) -> DirectiveView) -> DirectiveView {
    match selected_node(ids, selected) {
        Some(id) => f(id),
        None => DirectiveView::Nothing,
    }
}

pub open spec fn min_u64(a: u64, b: u64) -> u64 { if a <= b { a } else { b } }

pub open spec fn sat_sub_floor1(a: u64, b: u64) -> u64 {
    if a <= b { 1 } else if a - b < 1 { 1 } else { (a - b) as u64 }
}

/// The directive for each UI action; selection moves only change the app.
pub open spec fn plan_spec(u: UiActionView, a: AppView, ids: Seq<NodeId>, alive: Seq<bool>, paused: bool, latency_ms: u64, speed_us: u64) -> (AppView, DirectiveView) {
    let n: usize = if ids.len() == 0 { 1 } else { ids.len() as usize };
    match u {
        UiActionView::Quit => (a, DirectiveView::Quit),
        UiActionView::TogglePause => (a, if paused { DirectiveView::Resume } else { DirectiveView::Pause }),
        UiActionView::StepClock => (a, DirectiveView::StepClock(CLOCK_STEP_US)),
        UiActionView::KillNode => (a, on_selected(ids, a.selected, |id: NodeId| DirectiveView::Kill(id))),
        UiActionView::RestartNode => (a, on_selected(ids, a.selected, |id: NodeId| DirectiveView::Restart(id))),
        UiActionView::SelectNext => (AppView { selected: ((a.selected + 1) % (n as int)) as usize, ..a }, DirectiveView::Nothing),
        UiActionView::SelectPrev => (AppView { selected: ((a.selected + n - 1) % (n as int)) as usize, ..a }, DirectiveView::Nothing),
        UiActionView::IsolateNode => (a, on_selected(ids, a.selected, |id: NodeId| DirectiveView::Isolate(id))),
        UiActionView::UnisolateNode => (a, on_selected(ids, a.selected, |id: NodeId| DirectiveView::Unisolate(id))),
        UiActionView::IncDropRate => (a, DirectiveView::RaiseDropRate),
        UiActionView::DecDropRate => (a, DirectiveView::LowerDropRate),
        UiActionView::IncLatency => (a, DirectiveView::SetLatency((latency_ms + LATENCY_STEP_MS) as u64)),
        UiActionView::DecLatency => (a, DirectiveView::SetLatency(if latency_ms <= LATENCY_STEP_MS { 0 } else { (latency_ms - LATENCY_STEP_MS) as u64 })),
        UiActionView::IncSpeed => (a, DirectiveView::SetSpeed(min_u64((speed_us + SPEED_STEP_US) as u64, MAX_STEP_US))),
        UiActionView::DecSpeed => (a, DirectiveView::SetSpeed(sat_sub_floor1(speed_us, SPEED_STEP_US))),
        UiActionView::Inc10Speed => (a, DirectiveView::SetSpeed(min_u64((speed_us + SPEED_STEP_US * 10) as u64, MAX_STEP_US))),
        UiActionView::Dec10Speed => (a, DirectiveView::SetSpeed(sat_sub_floor1(speed_us, (SPEED_STEP_US * 10) as u64))),
        UiActionView::SubmitCommand { key, value } => (a, match submit_target(ids, alive, a.selected) {
            Some(id) => DirectiveView::Submit { node: id, key, value },
            None => DirectiveView::NoAliveNode,
        }),
        UiActionView::Handled => (a, DirectiveView::Nothing),
    }
}

/// A submitted command goes to the selected node when it is alive;
/// otherwise to the first alive node of the list; with no alive node there
/// is nothing to send it to. The app is left as it was.
pub proof fn law_submit_goes_to_selected_alive_node(
    key: Seq<char>,
    value: Seq<char>,
    a: AppView,
    ids: Seq<NodeId>,
    alive: Seq<bool>,
    paused: bool,
    latency_ms: u64,
    speed_us: u64,
)
    requires
        alive.len() == ids.len(),
    ensures
        ({
            let r = plan_spec(UiActionView::SubmitCommand { key, value }, a, ids, alive, paused, latency_ms, speed_us);
            &&& r.0 == a
            &&& (a.selected < ids.len() && alive[a.selected as int]) ==> r.1 == DirectiveView::Submit {
                node: ids[a.selected as int],
                key,
                value,
            }
            &&& !(a.selected < ids.len() && alive[a.selected as int]) ==> (
                (forall|i: int| 0 <= i < ids.len() ==> !#[trigger] alive[i]) ==> r.1 == DirectiveView::NoAliveNode)
            &&& !(a.selected < ids.len() && alive[a.selected as int]) ==> (
                (exists|i: int| 0 <= i < ids.len() && #[trigger] alive[i]) ==> exists|i: int|
                    0 <= i < ids.len() && alive[i] && (forall|j: int| 0 <= j < i ==> !#[trigger] alive[j])
                        && r.1 == DirectiveView::Submit { node: ids[i], key, value })
        }),
{
    if !(a.selected < ids.len() && alive[a.selected as int]) && exists|i: int| 0 <= i < ids.len() && #[trigger] alive[i] {
        let k = choose|i: int| 0 <= i < ids.len() && #[trigger] alive[i];
        lemma_first_alive_exists(alive, k);
        let f = first_alive(alive);
        assert(0 <= f < ids.len() && alive[f] && (forall|j: int| 0 <= j < f ==> !#[trigger] alive[j]));
    }
}

/// Where `alive` has a `true`, `first_alive` picks the first one.
proof fn lemma_first_alive_exists(alive: Seq<bool>, k: int)
    requires
        0 <= k < alive.len(),
        alive[k],
    ensures
        0 <= first_alive(alive) < alive.len(),
        alive[first_alive(alive)],
        forall|j: int| 0 <= j < first_alive(alive) ==> !#[trigger] alive[j],
    decreases k,
{
    if exists|j: int| 0 <= j < k && #[trigger] alive[j] {
        let j = choose|j: int| 0 <= j < k && #[trigger] alive[j];
        lemma_first_alive_exists(alive, j);
    } else {
        assert(0 <= k < alive.len() && alive[k] && forall|j: int| 0 <= j < k ==> !#[trigger] alive[j]);
    }
}

/// Inputs on which `plan` can compute without overflow.
pub open spec fn plan_safe(u: UiActionView, a: AppView, status_ids: Seq<NodeId>, status_alive: Seq<bool>, latency_ms: u64, speed_us: u64) -> bool {
    let n: int = if status_ids.len() == 0 { 1 } else { status_ids.len() as int };
    &&& status_alive.len() == status_ids.len()
    &&& (u is SelectNext ==> a.selected < usize::MAX)
    &&& (u is SelectPrev ==> a.selected + n <= usize::MAX)
    &&& (u is IncLatency ==> latency_ms + LATENCY_STEP_MS <= u64::MAX)
    &&& (u is IncSpeed ==> speed_us + SPEED_STEP_US <= u64::MAX)
    &&& (u is Inc10Speed ==> speed_us + SPEED_STEP_US * 10 <= u64::MAX)
}

fn find_alive(alive: &Vec<bool>) -> (r: Option<usize>)
    ensures
        match r {
            Some(i) => i < alive@.len() && alive@[i as int] && i as int == first_alive(alive@),
            None => forall|i: int| 0 <= i < alive@.len() ==> !#[trigger] alive@[i],
        },
{
    let mut i: usize = 0;
    while i < alive.len()
        invariant
            i <= alive@.len(),
            forall|j: int| 0 <= j < i ==> !#[trigger] alive@[j],
        decreases alive.len() - i,
    {
        if alive[i] {
            proof {
                let f = first_alive(alive@);
                assert(0 <= i < alive@.len() && alive@[i as int] && forall|j: int| 0 <= j < i ==> !#[trigger] alive@[j]);
                assert(0 <= f < alive@.len() && alive@[f] && forall|j: int| 0 <= j < f ==> !#[trigger] alive@[j]);
                if f < i {
                    assert(!alive@[f]);
                } else if i < f {
                    assert(!alive@[i as int]);
                }
            }
            return Some(i);
        }
        i = i + 1;
    }
    None
}

/// Decide what the cluster should do for `action`; selection moves update
/// `app`. The status line is left to the caller.
pub fn plan(action: UiAction, app: &mut App, status: &ClusterStatus) -> (d: Directive)
    requires
        plan_safe(action@, old(app)@, status.node_ids@, status.alive@, status.latency_ms, status.speed_us),
    ensures
        (final(app)@, d@) == plan_spec(action@, old(app)@, status.node_ids@, status.alive@, status.paused, status.latency_ms, status.speed_us),
{
    let ids = &status.node_ids;
    let n = if ids.len() == 0 { 1 } else { ids.len() };
    let selected = if app.selected < ids.len() { Some(ids[app.selected]) } else { None };
    match action {
        UiAction::Quit => Directive::Quit,
        UiAction::TogglePause => if status.paused { Directive::Resume } else { Directive::Pause },
        UiAction::StepClock => Directive::StepClock(CLOCK_STEP_US),
        UiAction::KillNode => match selected { Some(id) => Directive::Kill(id), None => Directive::Nothing },
        UiAction::RestartNode => match selected { Some(id) => Directive::Restart(id), None => Directive::Nothing },
        UiAction::SelectNext => {
            app.select_next(n);
            Directive::Nothing
        },
        UiAction::SelectPrev => {
            app.select_prev(n);
            Directive::Nothing
        },
        UiAction::IsolateNode => match selected { Some(id) => Directive::Isolate(id), None => Directive::Nothing },
        UiAction::UnisolateNode => match selected { Some(id) => Directive::Unisolate(id), None => Directive::Nothing },
        UiAction::IncDropRate => Directive::RaiseDropRate,
        UiAction::DecDropRate => Directive::LowerDropRate,
        UiAction::IncLatency => Directive::SetLatency(status.latency_ms + LATENCY_STEP_MS),
        UiAction::DecLatency => Directive::SetLatency(if status.latency_ms <= LATENCY_STEP_MS { 0 } else { status.latency_ms - LATENCY_STEP_MS }),
        UiAction::IncSpeed => {
            let s = status.speed_us + SPEED_STEP_US;
            Directive::SetSpeed(if s <= MAX_STEP_US { s } else { MAX_STEP_US })
        },
        UiAction::DecSpeed => {
            let s = if status.speed_us <= SPEED_STEP_US { 0 } else { status.speed_us - SPEED_STEP_US };
            Directive::SetSpeed(if s < 1 { 1 } else { s })
        },
        UiAction::Inc10Speed => {
            let s = status.speed_us + SPEED_STEP_US * 10;
            Directive::SetSpeed(if s <= MAX_STEP_US { s } else { MAX_STEP_US })
        },
        UiAction::Dec10Speed => {
            let s = if status.speed_us <= SPEED_STEP_US * 10 { 0 } else { status.speed_us - SPEED_STEP_US * 10 };
            Directive::SetSpeed(if s < 1 { 1 } else { s })
        },
        UiAction::SubmitCommand { key, value } => {
            // Try the selected node first; fall back to any alive node.
            if app.selected < ids.len() && status.alive[app.selected] {
                Directive::Submit { node: ids[app.selected], key, value }
            } else {
                match find_alive(&status.alive) {
                    Some(i) => {
                        proof {
                            assert(status.alive@[i as int]);
                        }
                        Directive::Submit { node: ids[i], key, value }
                    },
                    None => Directive::NoAliveNode,
                }
            }
        },
        UiAction::Handled => Directive::Nothing,
    }
}

// ── status lines ─────────────────────────────────────────────────────────────

/// `prefix`, the node id in decimal, `suffix`.
pub open spec fn node_text(prefix: Seq<char>, id: NodeId, suffix: Seq<char>) -> Seq<char> {
    prefix + decimal(id as nat) + suffix
}

/// The status line reporting a directive the cluster carried out; `None`
/// where the status line stays as it is or shows a floating-point figure
/// (clock steps and drop rates). A submitted command is reported as sent.
pub open spec fn status_spec(d: DirectiveView) -> Option<Seq<char>> {
    match d {
        DirectiveView::Resume => Some("Clock resumed."@),
        DirectiveView::Pause => Some("Clock paused."@),
        DirectiveView::Kill(id) => Some(node_text("Node "@, id, " killed."@)),
        DirectiveView::Restart(id) => Some(node_text("Node "@, id, " restarted."@)),
        DirectiveView::Isolate(id) => Some(node_text("Node "@, id, " isolated from all peers."@)),
        DirectiveView::Unisolate(id) => Some(
            node_text("Node "@, id, " reconnected to all peers."@),
        ),
        DirectiveView::SetLatency(ms) => Some("Latency: "@ + decimal(ms as nat) + "ms"@),
        DirectiveView::SetSpeed(us) => Some(
            "Clock speed: "@ + decimal(us as nat) + " sim-\u{3bc}s/tick"@,
        ),
        DirectiveView::Submit { node, key, value } => Some(
            "SET "@ + key + "="@ + value + node_text(" \u{2192} node "@, node, ""@),
        ),
        DirectiveView::NoAliveNode => Some("No alive nodes to send command to."@),
        _ => None,
    }
}

fn node_line(prefix: &str, id: NodeId, suffix: &str) -> (s: String)
    ensures
        s@ == node_text(prefix@, id, suffix@),
{
    let mut s = String::from_str(prefix);
    append_decimal(&mut s, id);
    s.append(suffix);
    s
}

/// The status line for a directive the cluster carried out (see `status_spec`).
pub fn status_line(d: &Directive) -> (s: Option<String>)
    ensures
        match s {
            Some(t) => status_spec(d@) == Some(t@),
            None => status_spec(d@) is None,
        },
{
    proof {
        reveal_strlit("");
    }
    match d {
        Directive::Resume => Some(String::from_str("Clock resumed.")),
        Directive::Pause => Some(String::from_str("Clock paused.")),
        Directive::Kill(id) => Some(node_line("Node ", *id, " killed.")),
        Directive::Restart(id) => Some(node_line("Node ", *id, " restarted.")),
        Directive::Isolate(id) => Some(node_line("Node ", *id, " isolated from all peers.")),
        Directive::Unisolate(id) => Some(node_line("Node ", *id, " reconnected to all peers.")),
        Directive::SetLatency(ms) => {
            let mut s = String::from_str("Latency: ");
            append_decimal(&mut s, *ms);
            s.append("ms");
            Some(s)
        },
        Directive::SetSpeed(us) => {
            let mut s = String::from_str("Clock speed: ");
            append_decimal(&mut s, *us);
            s.append(" sim-\u{3bc}s/tick");
            Some(s)
        },
        Directive::Submit { node, key, value } => {
            let mut s = String::from_str("SET ");
            s.append(key.as_str());
            s.append("=");
            s.append(value.as_str());
            let tail = node_line(" \u{2192} node ", *node, "");
            s.append(tail.as_str());
            proof {
                assert(s@ =~= "SET "@ + key@ + "="@ + value@ + node_text(" \u{2192} node "@, *node, ""@));
            }
            Some(s)
        },
        Directive::NoAliveNode => Some(String::from_str("No alive nodes to send command to.")),
        _ => None,
    }
}

/// The status line when a node's command channel is full.
pub fn channel_full_status(node: NodeId) -> (s: String)
    ensures
        s@ == node_text("Node "@, node, " channel full."@),
{
    node_line("Node ", node, " channel full.")
}

} // verus!
