use vstd::prelude::*;
use crate::sim::ui::app::{cancelled, App, AppView, InputMode};

verus! {

/// A key press, as far as the UI distinguishes keys.
#[derive(Debug, Clone, Copy, PartialEq, Eq, Structural)]
pub enum Key {
    Char(char),
    Backspace,
    Enter,
    Tab,
    Esc,
    Left,
    Right,
    Up,
    Down,
    PageUp,
    PageDown,
    /// Any other key.
    Other,
}

/// What the user wants to do, decoded from a keypress.
#[derive(Debug)]
pub enum UiAction {
    /// User pressed q/Q.
    Quit,
    /// Pause or resume the simulated clock.
    TogglePause,
    /// Advance the clock by one step (only meaningful when paused).
    StepClock,
    /// Kill the currently selected node.
    KillNode,
    /// Restart the currently selected node.
    RestartNode,
    /// Cycle node selection forward.
    SelectNext,
    /// Cycle node selection backward.
    SelectPrev,
    /// Isolate the selected node from all other nodes.
    IsolateNode,
    /// Restore all links to the selected node.
    UnisolateNode,
    /// Increase global packet drop rate by a fixed step.
    IncDropRate,
    /// Decrease global packet drop rate by a fixed step.
    DecDropRate,
    /// Increase global latency by a fixed step.
    IncLatency,
    /// Decrease global latency by a fixed step.
    DecLatency,
    /// Increase clock speed (more sim-μs per real tick).
    IncSpeed,
    /// Decrease clock speed (fewer sim-μs per real tick).
    DecSpeed,
    /// Increase clock speed by ten steps.
    Inc10Speed,
    /// Decrease clock speed by ten steps.
    Dec10Speed,
    /// Submit the completed SET command (key + value both filled).
    SubmitCommand { key: String, value: String },
    /// No-op — key was consumed for text input, no cluster action needed.
    Handled,
}

/// Abstract value of a `UiAction`.
#[verifier::ext_equal]
pub enum UiActionView {
    Quit,
    TogglePause,
    StepClock,
    KillNode,
    RestartNode,
    SelectNext,
    SelectPrev,
    IsolateNode,
    UnisolateNode,
    IncDropRate,
    DecDropRate,
    IncLatency,
    DecLatency,
    IncSpeed,
    DecSpeed,
    Inc10Speed,
    Dec10Speed,
    SubmitCommand { key: Seq<char>, value: Seq<char> },
    Handled,
}

impl View for UiAction {
    type V = UiActionView;

    open spec fn view(&self) -> UiActionView {
        match self {
            UiAction::Quit => UiActionView::Quit,
            UiAction::TogglePause => UiActionView::TogglePause,
            UiAction::StepClock => UiActionView::StepClock,
            UiAction::KillNode => UiActionView::KillNode,
            UiAction::RestartNode => UiActionView::RestartNode,
            UiAction::SelectNext => UiActionView::SelectNext,
            UiAction::SelectPrev => UiActionView::SelectPrev,
            UiAction::IsolateNode => UiActionView::IsolateNode,
            UiAction::UnisolateNode => UiActionView::UnisolateNode,
            UiAction::IncDropRate => UiActionView::IncDropRate,
            UiAction::DecDropRate => UiActionView::DecDropRate,
            UiAction::IncLatency => UiActionView::IncLatency,
            UiAction::DecLatency => UiActionView::DecLatency,
            UiAction::IncSpeed => UiActionView::IncSpeed,
            UiAction::DecSpeed => UiActionView::DecSpeed,
            UiAction::Inc10Speed => UiActionView::Inc10Speed,
            UiAction::Dec10Speed => UiActionView::Dec10Speed,
            UiAction::SubmitCommand { key, value } => UiActionView::SubmitCommand {
                key: key@,
                value: value@,
            },
            UiAction::Handled => UiActionView::Handled,
        }
    }
}

/// `String::push`: appends the character `c`.
#[verifier::external_body]
fn push_char(s: &mut String, c: char)
    ensures
        final(s)@ == old(s)@.push(c),
{
    s.push(c)
}

/// `String::pop`: removes and returns the last character, or `None` (and no
/// change) when the string is empty.
#[verifier::external_body]
fn pop_char(s: &mut String) -> (r: Option<char>)
    ensures
        old(s)@.len() == 0 ==> r is None && final(s)@ == old(s)@,
        old(s)@.len() > 0 ==> r == Some(old(s)@.last()) && final(s)@ == old(s)@.drop_last(),
{
    s.pop()
}

/// Delete the last character of `s`, if any.
pub open spec fn backspace(s: Seq<char>) -> Seq<char> {
    if s.len() == 0 { s } else { s.drop_last() }
}

/// Typing the key of a SET command.
pub open spec fn decode_entering_key(code: Key, a: AppView) -> (AppView, UiActionView) {
    match code {
        Key::Char(c) => (AppView { input_key: a.input_key.push(c), ..a }, UiActionView::Handled),
        Key::Backspace => (AppView { input_key: backspace(a.input_key), ..a }, UiActionView::Handled),
        Key::Enter | Key::Tab => (
            if a.input_key.len() > 0 { AppView { input_mode: InputMode::EnteringValue, ..a } } else { a },
            UiActionView::Handled,
        ),
        Key::Esc => (cancelled(a), UiActionView::Handled),
        _ => (a, UiActionView::Handled),
    }
}

/// Typing the value of a SET command; Enter submits key and value.
pub open spec fn decode_entering_value(code: Key, a: AppView) -> (AppView, UiActionView) {
    match code {
        Key::Char(c) => (AppView { input_val: a.input_val.push(c), ..a }, UiActionView::Handled),
        Key::Backspace => (AppView { input_val: backspace(a.input_val), ..a }, UiActionView::Handled),
        Key::Enter => (
            cancelled(a),
            UiActionView::SubmitCommand { key: a.input_key, value: a.input_val },
        ),
        Key::Esc => (cancelled(a), UiActionView::Handled),
        _ => (a, UiActionView::Handled),
    }
}

/// The command keys of normal mode; `c` starts typing a SET command.
pub open spec fn decode_normal(code: Key, a: AppView) -> (AppView, Option<UiActionView>) {
    match code {
        Key::Char('q') | Key::Char('Q') => (a, Some(UiActionView::Quit)),
        Key::Char('p') => (a, Some(UiActionView::TogglePause)),
        Key::Right => (a, Some(UiActionView::StepClock)),
        Key::Char('k') => (a, Some(UiActionView::KillNode)),
        Key::Char('r') => (a, Some(UiActionView::RestartNode)),
        Key::Char('P') => (a, Some(UiActionView::IsolateNode)),
        Key::Char('H') => (a, Some(UiActionView::UnisolateNode)),
        Key::Char('d') => (a, Some(UiActionView::IncDropRate)),
        Key::Char('D') => (a, Some(UiActionView::DecDropRate)),
        Key::Char('l') => (a, Some(UiActionView::IncLatency)),
        Key::Char('L') => (a, Some(UiActionView::DecLatency)),
        Key::Char('+') => (a, Some(UiActionView::IncSpeed)),
        Key::Char('-') => (a, Some(UiActionView::DecSpeed)),
        Key::PageUp => (a, Some(UiActionView::Inc10Speed)),
        Key::PageDown => (a, Some(UiActionView::Dec10Speed)),
        Key::Down => (a, Some(UiActionView::SelectNext)),
        Key::Up => (a, Some(UiActionView::SelectPrev)),
        Key::Char('c') => (
            AppView { input_mode: InputMode::EnteringKey, ..cancelled(a) },
            Some(UiActionView::Handled),
        ),
        _ => (a, None),
    }
}

/// Decoding of a key press in every input mode.
pub open spec fn decode_spec(code: Key, a: AppView) -> (AppView, Option<UiActionView>) {
    match a.input_mode {
        InputMode::EnteringKey => {
            let (a2, u) = decode_entering_key(code, a);
            (a2, Some(u))
        },
        InputMode::EnteringValue => {
            let (a2, u) = decode_entering_value(code, a);
            (a2, Some(u))
        },
        InputMode::Normal => decode_normal(code, a),
    }
}

/// Decode a raw keypress into a `UiAction`, updating text-input state in
/// `app` as a side-effect when in input mode. `None` when the key is ignored.
pub fn decode(code: Key, app: &mut App) -> (res: Option<UiAction>)
    ensures
        (final(app)@, match res {
            Some(u) => Some(u@),
            None => None,
        }) == decode_spec(code, old(app)@),
{
    match app.input_mode {
        InputMode::EnteringKey => Some(decode_entering_key_exec(code, app)),
        InputMode::EnteringValue => Some(decode_entering_value_exec(code, app)),
        InputMode::Normal => decode_normal_exec(code, app),
    }
}

fn decode_entering_key_exec(code: Key, app: &mut App) -> (u: UiAction)
    ensures
        (final(app)@, u@) == decode_entering_key(code, old(app)@),
{
    match code {
        Key::Char(c) => {
            push_char(&mut app.input_key, c);
            UiAction::Handled
        },
        Key::Backspace => {
            pop_char(&mut app.input_key);
            UiAction::Handled
        },
        Key::Enter | Key::Tab => {
            if app.input_key.unicode_len() > 0 {
                app.input_mode = InputMode::EnteringValue;
            }
            UiAction::Handled
        },
        Key::Esc => {
            app.cancel_input();
            UiAction::Handled
        },
        _ => UiAction::Handled,
    }
}

fn decode_entering_value_exec(code: Key, app: &mut App) -> (u: UiAction)
    ensures
        (final(app)@, u@) == decode_entering_value(code, old(app)@),
{
    match code {
        Key::Char(c) => {
            push_char(&mut app.input_val, c);
            UiAction::Handled
        },
        Key::Backspace => {
            pop_char(&mut app.input_val);
            UiAction::Handled
        },
        Key::Enter => {
            let key = app.input_key.clone();
            let val = app.input_val.clone();
            app.cancel_input();
            UiAction::SubmitCommand { key, value: val }
        },
        Key::Esc => {
            app.cancel_input();
            UiAction::Handled
        },
        _ => UiAction::Handled,
    }
}

fn decode_normal_exec(code: Key, app: &mut App) -> (res: Option<UiAction>)
    ensures
        (final(app)@, match res {
            Some(u) => Some(u@),
            None => None,
        }) == decode_normal(code, old(app)@),
{
    let action = match code {
        Key::Char('q') | Key::Char('Q') => UiAction::Quit,
        Key::Char('p') => UiAction::TogglePause,
        Key::Right => UiAction::StepClock,
        Key::Char('k') => UiAction::KillNode,
        Key::Char('r') => UiAction::RestartNode,
        Key::Char('P') => UiAction::IsolateNode,
        Key::Char('H') => UiAction::UnisolateNode,
        Key::Char('d') => UiAction::IncDropRate,
        Key::Char('D') => UiAction::DecDropRate,
        Key::Char('l') => UiAction::IncLatency,
        Key::Char('L') => UiAction::DecLatency,
        Key::Char('+') => UiAction::IncSpeed,
        Key::Char('-') => UiAction::DecSpeed,
        Key::PageUp => UiAction::Inc10Speed,
        Key::PageDown => UiAction::Dec10Speed,
        Key::Down => UiAction::SelectNext,
        Key::Up => UiAction::SelectPrev,
        Key::Char('c') => {
            app.start_command();
            UiAction::Handled
        },
        _ => {
            return None;
        },
    };
    Some(action)
}

} // verus!
