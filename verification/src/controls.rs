//! What the interactive windows onto a world do with their input: the
//! terminal window's keys, and the graphical viewer's keys and buttons.
//! Reading the input, timing frames, drawing and stepping the world are
//! the caller's; the decisions are made here.

use vstd::arithmetic::power2::{lemma2_to64, pow2};
use vstd::prelude::*;

verus! {

/// The slowest terminal speed, in ticks per second.
pub const MIN_TPS: u32 = 1;

/// The fastest terminal speed, in ticks per second.
pub const MAX_TPS: u32 = 100_000;

/// A key pressed in the terminal window.
#[derive(Clone, Copy, Debug, PartialEq, Eq, Structural)]
pub enum KeyPress {
    Char(char),
    Esc,
    Other,
}

/// What the terminal window does after a key press, besides updating its
/// own state.
#[derive(Clone, Copy, Debug, PartialEq, Eq, Structural)]
pub enum TtyAction {
    /// Leave the window.
    Quit,
    /// Advance the world by one tick.
    Step,
    /// Nothing beyond the state change.
    Continue,
}

/// `tps` clamped into `[MIN_TPS, MAX_TPS]`.
pub open spec fn clamp_tps(tps: int) -> int {
    if tps < MIN_TPS {
        MIN_TPS as int
    } else if tps > MAX_TPS {
        MAX_TPS as int
    } else {
        tps
    }
}

/// The terminal window's speed and pause state.
pub struct TtyControl {
    tps: u32,
    paused: bool,
}

impl TtyControl {
    #[verifier::type_invariant]
    closed spec fn tps_in_range(&self) -> bool {
        MIN_TPS <= self.tps <= MAX_TPS
    }

    /// Target speed in ticks per second.
    pub closed spec fn spec_tps(&self) -> u32 {
        self.tps
    }

    /// Whether the world is paused.
    pub closed spec fn spec_paused(&self) -> bool {
        self.paused
    }

    /// Running at `tps` (clamped into `[MIN_TPS, MAX_TPS]`), not paused.
    pub fn new(tps: u32) -> (c: TtyControl)
        ensures
            c.spec_tps() == clamp_tps(tps as int),
            !c.spec_paused(),
    {
        let tps = if tps < MIN_TPS {
            MIN_TPS
        } else if tps > MAX_TPS {
            MAX_TPS
        } else {
            tps
        };
        TtyControl { tps, paused: false }
    }

    /// Target speed in ticks per second.
    pub fn tps(&self) -> (r: u32)
        ensures
            r == self.spec_tps(),
            MIN_TPS <= r <= MAX_TPS,
    {
        proof {
            use_type_invariant(self);
        }
        self.tps
    }

    /// Whether the world is paused.
    pub fn paused(&self) -> (r: bool)
        ensures
            r == self.spec_paused(),
    {
        self.paused
    }

    /// React to a key press: `q` or Esc quits; space toggles the pause;
    /// `.` steps once while paused; `+` or `=` doubles the speed and `-`
    /// halves it, within `[MIN_TPS, MAX_TPS]`; any other key does nothing.
    pub fn on_key(&mut self, key: KeyPress) -> (a: TtyAction)
        ensures
            a == (match key {
                KeyPress::Esc | KeyPress::Char('q') => TtyAction::Quit,
                KeyPress::Char('.') => if old(self).spec_paused() {
                    TtyAction::Step
                } else {
                    TtyAction::Continue
                },
                _ => TtyAction::Continue,
            }),
            final(self).spec_paused() == (if key == KeyPress::Char(' ') {
                !old(self).spec_paused()
            } else {
                old(self).spec_paused()
            }),
            MIN_TPS <= final(self).spec_tps() <= MAX_TPS,
            final(self).spec_tps() == (match key {
                KeyPress::Char('+') | KeyPress::Char('=') => if 2 * old(self).spec_tps() > MAX_TPS {
                    MAX_TPS as int
                } else {
                    2 * old(self).spec_tps()
                },
                KeyPress::Char('-') => if old(self).spec_tps() / 2 < MIN_TPS {
                    MIN_TPS as int
                } else {
                    (old(self).spec_tps() / 2) as int
                },
                _ => old(self).spec_tps() as int,
            }),
    {
        proof {
            use_type_invariant(&*self);
        }
        match key {
            KeyPress::Esc => TtyAction::Quit,
            KeyPress::Char(c) => {
                if c == 'q' {
                    TtyAction::Quit
                } else if c == ' ' {
                    self.paused = !self.paused;
                    TtyAction::Continue
                } else if c == '.' {
                    if self.paused {
                        TtyAction::Step
                    } else {
                        TtyAction::Continue
                    }
                } else if c == '+' || c == '=' {
                    let doubled = self.tps * 2;
                    self.tps = if doubled > MAX_TPS {
                        MAX_TPS
                    } else {
                        doubled
                    };
                    TtyAction::Continue
                } else if c == '-' {
                    let halved = self.tps / 2;
                    self.tps = if halved < MIN_TPS {
                        MIN_TPS
                    } else {
                        halved
                    };
                    TtyAction::Continue
                } else {
                    TtyAction::Continue
                }
            },
            KeyPress::Other => TtyAction::Continue,
        }
    }
}

/// How many speed settings the viewer has.
pub const SPEED_STEPS: usize = 8;

/// Ticks per frame at speed setting `i`: 1, 2, 4, … 128.
pub open spec fn speed_at(i: int) -> u32 {
    if i <= 0 {
        1
    } else if i == 1 {
        2
    } else if i == 2 {
        4
    } else if i == 3 {
        8
    } else if i == 4 {
        16
    } else if i == 5 {
        32
    } else if i == 6 {
        64
    } else {
        128
    }
}

/// The viewer's speeds double from one setting to the next, starting at
/// one tick per frame: setting `i` runs `2^i` ticks per frame.
pub proof fn lemma_speeds_double()
    ensures
        speed_at(0) == 1,
        forall|i: int| 0 <= i < SPEED_STEPS - 1 ==> #[trigger] speed_at(i + 1) == 2 * speed_at(i),
        forall|i: int| 0 <= i < SPEED_STEPS ==> #[trigger] speed_at(i) == pow2(i as nat),
{
    lemma2_to64();
    assert forall|i: int| 0 <= i < SPEED_STEPS implies #[trigger] speed_at(i) == pow2(i as nat) by {
        assert(i == 0 || i == 1 || i == 2 || i == 3 || i == 4 || i == 5 || i == 6 || i == 7);
    }
}

/// The viewer's keys pressed during one frame.
#[derive(Clone, Copy, Debug)]
pub struct ViewKeys {
    /// Space: toggle the pause.
    pub toggle_pause: bool,
    /// Period: step once while paused.
    pub step: bool,
    /// `=` or the up arrow: one speed setting faster.
    pub faster: bool,
    /// `-` or the down arrow: one speed setting slower.
    pub slower: bool,
    /// Escape: stop inspecting.
    pub deselect: bool,
}

/// The viewer's top-bar buttons clicked during one frame.
#[derive(Clone, Copy, Debug)]
pub struct ViewButtons {
    pub pause: bool,
    pub step: bool,
    pub slower: bool,
    pub faster: bool,
}

/// What the buttons of one frame ask for.
#[derive(Clone, Copy, Debug, PartialEq, Eq, Structural)]
pub struct ButtonOutcome {
    /// Step the world once, now.
    pub step_now: bool,
    /// A button took the click, so it does not select an organism.
    pub ui_clicked: bool,
}

/// One speed setting faster, saturating at the fastest.
pub open spec fn faster(i: int) -> int {
    if i + 1 < SPEED_STEPS {
        i + 1
    } else {
        SPEED_STEPS - 1
    }
}

/// One speed setting slower, saturating at the slowest.
pub open spec fn slower(i: int) -> int {
    if i > 0 {
        i - 1
    } else {
        0
    }
}

/// The viewer's pause, speed setting and inspected organism.
pub struct ViewControl {
    paused: bool,
    speed_idx: usize,
    selected: Option<u64>,
}

impl ViewControl {
    #[verifier::type_invariant]
    closed spec fn speed_in_range(&self) -> bool {
        self.speed_idx < SPEED_STEPS
    }

    /// Whether the world is paused.
    pub closed spec fn spec_paused(&self) -> bool {
        self.paused
    }

    /// The speed setting, an index into `speed_at`.
    pub closed spec fn spec_speed_idx(&self) -> int {
        self.speed_idx as int
    }

    /// The id of the organism being inspected.
    pub closed spec fn spec_selected(&self) -> Option<u64> {
        self.selected
    }

    /// Running at the slowest speed, inspecting nothing.
    pub fn new() -> (c: ViewControl)
        ensures
            !c.spec_paused(),
            c.spec_speed_idx() == 0,
            c.spec_selected() == None::<u64>,
    {
        ViewControl { paused: false, speed_idx: 0, selected: None }
    }

    /// Whether the world is paused.
    pub fn paused(&self) -> (r: bool)
        ensures
            r == self.spec_paused(),
    {
        self.paused
    }

    /// The id of the organism being inspected.
    pub fn selected(&self) -> (r: Option<u64>)
        ensures
            r == self.spec_selected(),
    {
        self.selected
    }

    /// Ticks per frame at the current speed setting.
    pub fn speed(&self) -> (r: u32)
        ensures
            r == speed_at(self.spec_speed_idx()),
            r == pow2(self.spec_speed_idx() as nat),
    {
        proof {
            use_type_invariant(self);
            lemma_speeds_double();
            assert(speed_at(self.spec_speed_idx()) == pow2(self.spec_speed_idx() as nat));
        }
        match self.speed_idx {
            0 => 1,
            1 => 2,
            2 => 4,
            3 => 8,
            4 => 16,
            5 => 32,
            6 => 64,
            _ => 128,
        }
    }

    /// Apply one frame's keys, in order: toggle the pause; note a step
    /// request, honoured only if now paused; go faster, then slower;
    /// stop inspecting. Returns whether to step once this frame.
    pub fn keys(&mut self, k: ViewKeys) -> (step_once: bool)
        ensures
            final(self).spec_paused() == (old(self).spec_paused() != k.toggle_pause),
            step_once == (final(self).spec_paused() && k.step),
            0 <= final(self).spec_speed_idx() < SPEED_STEPS,
            final(self).spec_speed_idx() == ({
                let up = if k.faster {
                    faster(old(self).spec_speed_idx())
                } else {
                    old(self).spec_speed_idx()
                };
                if k.slower {
                    slower(up)
                } else {
                    up
                }
            }),
            final(self).spec_selected() == (if k.deselect {
                None
            } else {
                old(self).spec_selected()
            }),
    {
        proof {
            use_type_invariant(&*self);
        }
        if k.toggle_pause {
            self.paused = !self.paused;
        }
        let step_once = self.paused && k.step;
        if k.faster {
            self.speed_idx = if self.speed_idx + 1 < SPEED_STEPS {
                self.speed_idx + 1
            } else {
                SPEED_STEPS - 1
            };
        }
        if k.slower {
            self.speed_idx = if self.speed_idx > 0 {
                self.speed_idx - 1
            } else {
                0
            };
        }
        if k.deselect {
            self.selected = None;
        }
        step_once
    }

    /// Apply one frame's button clicks, in order: pause/play; step, which
    /// only acts while paused; slower; faster. A click that acted takes
    /// the mouse click away from inspection.
    pub fn buttons(&mut self, b: ViewButtons) -> (out: ButtonOutcome)
        ensures
            final(self).spec_paused() == (old(self).spec_paused() != b.pause),
            out.step_now == (b.step && final(self).spec_paused()),
            out.ui_clicked == (b.pause || out.step_now || b.slower || b.faster),
            0 <= final(self).spec_speed_idx() < SPEED_STEPS,
            final(self).spec_speed_idx() == ({
                let down = if b.slower {
                    slower(old(self).spec_speed_idx())
                } else {
                    old(self).spec_speed_idx()
                };
                if b.faster {
                    faster(down)
                } else {
                    down
                }
            }),
            final(self).spec_selected() == old(self).spec_selected(),
    {
        proof {
            use_type_invariant(&*self);
        }
        let mut ui_clicked = false;
        if b.pause {
            self.paused = !self.paused;
            ui_clicked = true;
        }
        let step_now = b.step && self.paused;
        if step_now {
            ui_clicked = true;
        }
        if b.slower {
            self.speed_idx = if self.speed_idx > 0 {
                self.speed_idx - 1
            } else {
                0
            };
            ui_clicked = true;
        }
        if b.faster {
            self.speed_idx = if self.speed_idx + 1 < SPEED_STEPS {
                self.speed_idx + 1
            } else {
                SPEED_STEPS - 1
            };
            ui_clicked = true;
        }
        ButtonOutcome { step_now, ui_clicked }
    }

    /// Inspect the organism with id `picked` (or nothing).
    pub fn select(&mut self, picked: Option<u64>)
        ensures
            final(self).spec_selected() == picked,
            final(self).spec_paused() == old(self).spec_paused(),
            final(self).spec_speed_idx() == old(self).spec_speed_idx(),
    {
        proof {
            use_type_invariant(&*self);
        }
        self.selected = picked;
    }

    /// Stop inspecting when the inspected organism is no longer in the
    /// world (`alive` tells whether it still is).
    pub fn forget_if_gone(&mut self, alive: bool)
        ensures
            final(self).spec_selected() == (if alive {
                old(self).spec_selected()
            } else {
                None
            }),
            final(self).spec_paused() == old(self).spec_paused(),
            final(self).spec_speed_idx() == old(self).spec_speed_idx(),
    {
        proof {
            use_type_invariant(&*self);
        }
        if !alive {
            self.selected = None;
        }
    }

    /// The most ticks to advance this frame: one for a single step, none
    /// while paused, otherwise the current speed (the caller may stop
    /// early when the frame's time runs out).
    pub fn ticks_this_frame(&self, step_once: bool) -> (n: u32)
        ensures
            n == (if step_once {
                1
            } else if self.spec_paused() {
                0
            } else {
                speed_at(self.spec_speed_idx())
            }),
    {
        if step_once {
            1
        } else if self.paused {
            0
        } else {
            self.speed()
        }
    }
}

} // verus!
