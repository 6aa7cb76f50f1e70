use vstd::prelude::*;

verus! {

/// Which field the user is currently typing into.
#[derive(Debug, Clone, Copy, PartialEq, Eq, Structural)]
pub enum InputMode {
    Normal,
    /// User is typing the key for a SET command.
    EnteringKey,
    /// Key confirmed; user is typing the value.
    EnteringValue,
}

impl Default for InputMode {
    fn default() -> (m: Self)
        ensures
            m == InputMode::Normal,
    {
        InputMode::Normal
    }
}

/// All mutable UI state. No I/O, no cluster interaction — purely data.
#[derive(Debug)]
pub struct App {
    /// Index into the sorted node-id list; used by overview and log view.
    pub selected: usize,
    pub input_mode: InputMode,
    /// Key being typed for a SET command.
    pub input_key: String,
    /// Value being typed for a SET command.
    pub input_val: String,
    /// One-line status shown in the controls bar.
    pub status: String,
}

/// Abstract value of `App`.
#[verifier::ext_equal]
pub struct AppView {
    pub selected: usize,
    pub input_mode: InputMode,
    pub input_key: Seq<char>,
    pub input_val: Seq<char>,
    pub status: Seq<char>,
}

impl View for App {
    type V = AppView;

    open spec fn view(&self) -> AppView {
        AppView {
            selected: self.selected,
            input_mode: self.input_mode,
            input_key: self.input_key@,
            input_val: self.input_val@,
            status: self.status@,
        }
    }
}

/// `a` with no command being typed: normal mode, key and value cleared.
pub open spec fn cancelled(a: AppView) -> AppView {
    AppView { input_mode: InputMode::Normal, input_key: Seq::empty(), input_val: Seq::empty(), ..a }
}

impl Default for App {
    fn default() -> (a: Self)
        ensures
            a@.selected == 0,
            a@.input_mode == InputMode::Normal,
            a@.input_key.len() == 0,
            a@.input_val.len() == 0,
            a@.status == "Ready — press ? for help"@,
    {
        App {
            selected: 0,
            input_mode: InputMode::Normal,
            input_key: String::new(),
            input_val: String::new(),
            status: String::from_str("Ready — press ? for help"),
        }
    }
}

impl App {
    /// Advance to the next node in the cluster list (wraps around).
    pub fn select_next(&mut self, total: usize)
        requires
            total > 0 ==> old(self).selected < usize::MAX,
        ensures
            final(self)@ == (AppView {
                selected: if total > 0 {
                    ((old(self).selected + 1) % (total as int)) as usize
                } else {
                    old(self).selected
                },
                ..old(self)@
            }),
            old(self).selected < total ==> final(self).selected == if old(self).selected + 1 == total {
                0
            } else {
                old(self).selected + 1
            },
    {
        if total > 0 {
            proof {
                if self.selected < total {
                    if self.selected + 1 == total {
                        assert((self.selected + 1) % (total as int) == 0) by (nonlinear_arith)
                            requires
                                self.selected + 1 == total,
                                total > 0,
                        ;
                    } else {
                        assert((self.selected + 1) % (total as int) == self.selected + 1) by (nonlinear_arith)
                            requires
                                self.selected + 1 < total,
                        ;
                    }
                }
            }
            self.selected = (self.selected + 1) % total;
        }
    }

    /// Go back to the previous node (wraps around).
    pub fn select_prev(&mut self, total: usize)
        requires
            total > 0 ==> old(self).selected + total <= usize::MAX,
        ensures
            final(self)@ == (AppView {
                selected: if total > 0 {
                    ((old(self).selected + total - 1) % (total as int)) as usize
                } else {
                    old(self).selected
                },
                ..old(self)@
            }),
            old(self).selected < total ==> final(self).selected == if old(self).selected == 0 {
                total - 1
            } else {
                old(self).selected - 1
            },
    {
        if total > 0 {
            proof {
                if self.selected < total {
                    if self.selected == 0 {
                        assert((total - 1) % (total as int) == total - 1) by (nonlinear_arith)
                            requires
                                total > 0,
                        ;
                    } else {
                        assert((self.selected + total - 1) % (total as int) == self.selected - 1) by (nonlinear_arith)
                            requires
                                0 < self.selected < total,
                        ;
                    }
                }
            }
            self.selected = (self.selected + total - 1) % total;
        }
    }

    /// Begin key-entry mode for a new SET command.
    pub fn start_command(&mut self)
        ensures
            final(self)@ == (AppView { input_mode: InputMode::EnteringKey, ..cancelled(old(self)@) }),
    {
        self.input_mode = InputMode::EnteringKey;
        self.input_key = String::new();
        self.input_val = String::new();
    }

    /// Cancel any in-progress command input.
    pub fn cancel_input(&mut self)
        ensures
            final(self)@ == cancelled(old(self)@),
    {
        self.input_mode = InputMode::Normal;
        self.input_key = String::new();
        self.input_val = String::new();
    }
}

/// Moving the selection forward and then back (or back and then forward)
/// returns to the node that was selected, for any valid selection.
pub proof fn law_select_prev_undoes_select_next(selected: int, total: int)
    requires
        0 <= selected < total,
    ensures
        ((selected + 1) % total + total - 1) % total == selected,
        ((selected + total - 1) % total + 1) % total == selected,
{
    if selected + 1 < total {
        assert((selected + 1) % total == selected + 1) by (nonlinear_arith)
            requires
                0 <= selected + 1 < total,
        ;
        assert((selected + 1 + total - 1) % total == selected) by (nonlinear_arith)
            requires
                0 <= selected < total,
        ;
    } else {
        assert((selected + 1) % total == 0) by (nonlinear_arith)
            requires
                selected + 1 == total,
                total > 0,
        ;
        assert((0 + total - 1) % total == selected) by (nonlinear_arith)
            requires
                selected + 1 == total,
                total > 0,
        ;
    }
    if selected > 0 {
        assert((selected + total - 1) % total == selected - 1) by (nonlinear_arith)
            requires
                0 < selected < total,
        ;
        assert((selected - 1 + 1) % total == selected) by (nonlinear_arith)
            requires
                0 < selected < total,
        ;
    } else {
        assert((selected + total - 1) % total == total - 1) by (nonlinear_arith)
            requires
                selected == 0,
                total > 0,
        ;
        assert((total - 1 + 1) % total == 0) by (nonlinear_arith)
            requires
                total > 0,
        ;
    }
}

} // verus!
