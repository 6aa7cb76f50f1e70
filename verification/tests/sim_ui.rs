use raft::runtime::metrics::{MessageEvent, MetricsSnapshot};
use raft::sim::ui::app::{App, InputMode};
use raft::sim::ui::control::{channel_full_status, plan, status_line, ClusterStatus, Directive};
use raft::sim::ui::input::{decode, Key, UiAction};
use raft::sim::ui::widgets::{
    label_kind, ClusterOverview, LabelKind, LogView, Marker, MessageLog, NodeSummary,
};
use raft::Role;

fn status(alive: Vec<bool>) -> ClusterStatus {
    ClusterStatus {
        node_ids: vec![1, 2, 3],
        alive,
        paused: false,
        latency_ms: 5,
        speed_us: 9_995,
    }
}

fn snapshot(node_id: u64, ticks: &[u64]) -> MetricsSnapshot {
    MetricsSnapshot {
        node_id,
        role: Role::Follower,
        term: 2,
        commit_index: 2,
        last_applied: 1,
        log_length: 3,
        leader_id: None,
        message_log: ticks
            .iter()
            .map(|t| MessageEvent {
                tick: *t,
                from: node_id,
                to: 9,
                label: format!("n{}t{}", node_id, t),
            })
            .collect(),
    }
}

#[test]
fn app_selection_wraps_both_ways() {
    let mut app = App::default();
    assert_eq!(app.selected, 0);
    assert_eq!(app.input_mode, InputMode::Normal);
    assert_eq!(app.status, "Ready — press ? for help");
    app.select_prev(3);
    assert_eq!(app.selected, 2);
    app.select_next(3);
    assert_eq!(app.selected, 0);
    app.select_next(3);
    app.select_next(3);
    assert_eq!(app.selected, 2);
    app.select_next(0);
    assert_eq!(app.selected, 2);
}

#[test]
fn decode_types_and_submits_a_command() {
    let mut app = App::default();
    assert!(matches!(decode(Key::Char('c'), &mut app), Some(UiAction::Handled)));
    assert_eq!(app.input_mode, InputMode::EnteringKey);
    // Enter with an empty key keeps typing the key.
    decode(Key::Enter, &mut app);
    assert_eq!(app.input_mode, InputMode::EnteringKey);
    decode(Key::Char('a'), &mut app);
    decode(Key::Char('b'), &mut app);
    decode(Key::Backspace, &mut app);
    assert_eq!(app.input_key, "a");
    decode(Key::Tab, &mut app);
    assert_eq!(app.input_mode, InputMode::EnteringValue);
    decode(Key::Char('4'), &mut app);
    decode(Key::Char('2'), &mut app);
    match decode(Key::Enter, &mut app) {
        Some(UiAction::SubmitCommand { key, value }) => {
            assert_eq!(key, "a");
            assert_eq!(value, "42");
        }
        other => panic!("unexpected {:?}", other),
    }
    assert_eq!(app.input_mode, InputMode::Normal);
    assert!(app.input_key.is_empty() && app.input_val.is_empty());
}

#[test]
fn decode_escape_cancels_input() {
    let mut app = App::default();
    app.start_command();
    decode(Key::Char('z'), &mut app);
    decode(Key::Backspace, &mut app);
    decode(Key::Backspace, &mut app);
    assert!(app.input_key.is_empty());
    decode(Key::Char('z'), &mut app);
    assert!(matches!(decode(Key::Esc, &mut app), Some(UiAction::Handled)));
    assert_eq!(app.input_mode, InputMode::Normal);
    assert!(app.input_key.is_empty());
}

#[test]
fn decode_normal_mode_keys() {
    let mut app = App::default();
    assert!(matches!(decode(Key::Char('q'), &mut app), Some(UiAction::Quit)));
    assert!(matches!(decode(Key::Char('Q'), &mut app), Some(UiAction::Quit)));
    assert!(matches!(decode(Key::Char('p'), &mut app), Some(UiAction::TogglePause)));
    assert!(matches!(decode(Key::Right, &mut app), Some(UiAction::StepClock)));
    assert!(matches!(decode(Key::Char('k'), &mut app), Some(UiAction::KillNode)));
    assert!(matches!(decode(Key::Char('P'), &mut app), Some(UiAction::IsolateNode)));
    assert!(matches!(decode(Key::PageUp, &mut app), Some(UiAction::Inc10Speed)));
    assert!(matches!(decode(Key::Up, &mut app), Some(UiAction::SelectPrev)));
    assert!(decode(Key::Char('x'), &mut app).is_none());
    assert!(decode(Key::Other, &mut app).is_none());
}

#[test]
fn plan_targets_selected_node() {
    let mut app = App::default();
    app.selected = 1;
    let st = status(vec![true, true, true]);
    assert!(matches!(plan(UiAction::KillNode, &mut app, &st), Directive::Kill(2)));
    assert!(matches!(plan(UiAction::IsolateNode, &mut app, &st), Directive::Isolate(2)));
    assert!(matches!(plan(UiAction::TogglePause, &mut app, &st), Directive::Pause));
    assert!(matches!(plan(UiAction::StepClock, &mut app, &st), Directive::StepClock(1000)));
    app.selected = 7;
    assert!(matches!(plan(UiAction::RestartNode, &mut app, &st), Directive::Nothing));
}

#[test]
fn plan_adjusts_latency_and_speed_with_bounds() {
    let mut app = App::default();
    let st = status(vec![true, true, true]);
    assert!(matches!(plan(UiAction::IncLatency, &mut app, &st), Directive::SetLatency(15)));
    assert!(matches!(plan(UiAction::DecLatency, &mut app, &st), Directive::SetLatency(0)));
    assert!(matches!(plan(UiAction::IncSpeed, &mut app, &st), Directive::SetSpeed(10_000)));
    assert!(matches!(plan(UiAction::DecSpeed, &mut app, &st), Directive::SetSpeed(9_985)));
    let slow = ClusterStatus { speed_us: 20, ..status(vec![true, true, true]) };
    assert!(matches!(plan(UiAction::Dec10Speed, &mut app, &slow), Directive::SetSpeed(1)));
    assert!(matches!(plan(UiAction::Inc10Speed, &mut app, &slow), Directive::SetSpeed(120)));
}

#[test]
fn plan_submits_to_first_alive_node_when_selected_is_dead() {
    let mut app = App::default();
    app.selected = 0;
    let st = status(vec![false, false, true]);
    let action = UiAction::SubmitCommand { key: "k".to_string(), value: "v".to_string() };
    match plan(action, &mut app, &st) {
        Directive::Submit { node, key, value } => {
            assert_eq!(node, 3);
            assert_eq!(key, "k");
            assert_eq!(value, "v");
        }
        other => panic!("unexpected {:?}", other),
    }
    let none = status(vec![false, false, false]);
    let action = UiAction::SubmitCommand { key: "k".to_string(), value: "v".to_string() };
    assert!(matches!(plan(action, &mut app, &none), Directive::NoAliveNode));
}

#[test]
fn plan_moves_selection() {
    let mut app = App::default();
    let st = status(vec![true, true, true]);
    assert!(matches!(plan(UiAction::SelectPrev, &mut app, &st), Directive::Nothing));
    assert_eq!(app.selected, 2);
    plan(UiAction::SelectNext, &mut app, &st);
    assert_eq!(app.selected, 0);
}

#[test]
fn overview_rows_mark_selected_and_dead_nodes() {
    let snaps = vec![(1, Some(snapshot(1, &[]))), (2, None)];
    let rows = ClusterOverview::new(&snaps, 1).rows();
    assert_eq!(rows.len(), 2);
    assert!(!rows[0].selected && rows[1].selected);
    assert_eq!(
        rows[0].summary,
        Some(NodeSummary { role: Role::Follower, term: 2, commit_index: 2, last_applied: 1, log_length: 3 })
    );
    assert_eq!(rows[1].summary, None);
    assert_eq!(rows[1].node_id, 2);
}

#[test]
fn log_view_marks_progress() {
    let snap = snapshot(1, &[]);
    let rows = LogView::new(Some(&snap)).rows().expect("live node");
    let markers: Vec<(u64, Marker)> = rows.iter().map(|r| (r.index, r.marker)).collect();
    assert_eq!(
        markers,
        vec![(1, Marker::Applied), (2, Marker::Committed), (3, Marker::Pending)]
    );
    assert!(LogView::new(None).rows().is_none());
    assert!(LogView::new(None).snapshot().is_none());
}

#[test]
fn message_log_is_newest_first_and_stable() {
    let snaps = vec![snapshot(1, &[1, 5, 7]), snapshot(2, &[5, 9])];
    let events = MessageLog::new(&snaps).events();
    let labels: Vec<&str> = events.iter().map(|e| e.label.as_str()).collect();
    assert_eq!(labels, vec!["n2t9", "n1t7", "n1t5", "n2t5", "n1t1"]);
}

#[test]
fn message_log_is_capped() {
    let ticks: Vec<u64> = (0..150).collect();
    let snaps = vec![snapshot(1, &ticks), snapshot(2, &ticks)];
    let events = MessageLog::new(&snaps).events();
    assert_eq!(events.len(), 200);
    assert_eq!(events[0].tick, 149);
    assert_eq!(events[199].tick, 50);
}

#[test]
fn label_kinds_by_prefix() {
    assert_eq!(label_kind(&"RequestVote(t=1)".to_string()), LabelKind::RequestVote);
    assert_eq!(label_kind(&"VoteResponse(t=1, granted=true)".to_string()), LabelKind::VoteResponse);
    assert_eq!(label_kind(&"AppendEntries(t=1, n=0)".to_string()), LabelKind::AppendEntries);
    assert_eq!(
        label_kind(&"AppendEntriesResponse(t=1, ok=true)".to_string()),
        LabelKind::AppendEntriesResponse
    );
    assert_eq!(label_kind(&"".to_string()), LabelKind::AppendEntriesResponse);
}

#[test]
fn status_lines_of_directives() {
    assert_eq!(status_line(&Directive::Resume).as_deref(), Some("Clock resumed."));
    assert_eq!(status_line(&Directive::Pause).as_deref(), Some("Clock paused."));
    assert_eq!(status_line(&Directive::Kill(3)).as_deref(), Some("Node 3 killed."));
    assert_eq!(status_line(&Directive::Restart(12)).as_deref(), Some("Node 12 restarted."));
    assert_eq!(status_line(&Directive::Isolate(2)).as_deref(), Some("Node 2 isolated from all peers."));
    assert_eq!(status_line(&Directive::Unisolate(2)).as_deref(), Some("Node 2 reconnected to all peers."));
    assert_eq!(status_line(&Directive::SetLatency(40)).as_deref(), Some("Latency: 40ms"));
    assert_eq!(status_line(&Directive::SetSpeed(250)).as_deref(), Some("Clock speed: 250 sim-μs/tick"));
    let submit = Directive::Submit { node: 4, key: "k".to_string(), value: "v".to_string() };
    assert_eq!(status_line(&submit).as_deref(), Some("SET k=v → node 4"));
    assert_eq!(status_line(&Directive::NoAliveNode).as_deref(), Some("No alive nodes to send command to."));
    assert!(status_line(&Directive::StepClock(1000)).is_none());
    assert!(status_line(&Directive::RaiseDropRate).is_none());
    assert!(status_line(&Directive::Nothing).is_none());
    assert_eq!(channel_full_status(5), "Node 5 channel full.");
}
