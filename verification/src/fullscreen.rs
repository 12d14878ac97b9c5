//! When to switch Windows Terminal to fullscreen (F11) on start and back on exit. The caller
//! asks the system and presses the key; this module decides.
use vstd::prelude::*;

verus! {

/// A screen rectangle in pixels.
#[derive(Clone, Copy, PartialEq, Eq, Debug, Structural)]
pub struct Rect {
    pub left: i32,
    pub top: i32,
    pub right: i32,
    pub bottom: i32,
}

/// Set only if we pressed F11, so exit (or a panic) toggles back exactly once.
pub struct Fullscreen {
    pub toggled: bool,
}

impl Fullscreen {
    /// Nothing pressed yet.
    pub fn new() -> (f: Fullscreen)
        ensures
            !f.toggled,
    {
        Fullscreen { toggled: false }
    }
}

/// Press F11 when running in Windows Terminal (where F11 means fullscreen) and the terminal
/// window, whose rectangle and monitor are known, does not already cover its whole monitor.
pub open spec fn should_press(in_terminal: bool, window: Option<Rect>, monitor: Option<Rect>) -> bool {
    in_terminal && window is Some && monitor is Some && window != monitor
}

/// What a start does: whether it presses F11, and whether F11 is toggled afterwards.
pub open spec fn after_enter(toggled: bool, in_terminal: bool, window: Option<Rect>, monitor: Option<Rect>) -> (bool, bool) {
    (should_press(in_terminal, window, monitor), toggled || should_press(in_terminal, window, monitor))
}

/// What an exit does: it presses F11 if it was toggled, and afterwards it is not.
pub open spec fn after_leave(toggled: bool) -> (bool, bool) {
    (toggled, false)
}

/// On start: whether to press F11 now. `in_terminal` tells whether this is Windows Terminal,
/// `window` is the foreground window's rectangle and `monitor` its monitor's, None where the
/// system could not tell.
pub fn enter(state: &mut Fullscreen, in_terminal: bool, window: Option<Rect>, monitor: Option<Rect>) -> (press: bool)
    ensures
        (press, final(state).toggled) == after_enter(old(state).toggled, in_terminal, window, monitor),
{
    if !in_terminal {
        return false;
    }
    let (win, m) = match (window, monitor) {
        (Some(w), Some(m)) => (w, m),
        _ => {
            return false;
        },
    };
    if win == m {
        return false;
    }
    state.toggled = true;
    true
}

/// On exit: whether to press F11 to toggle back; only once after it was pressed on start.
pub fn leave(state: &mut Fullscreen) -> (press: bool)
    ensures
        (press, final(state).toggled) == after_leave(old(state).toggled),
{
    let press = state.toggled;
    state.toggled = false;
    press
}

/// Starting untoggled, the exit presses F11 exactly when the start did, and any later exit
/// presses nothing.
pub proof fn lemma_toggles_back_once(in_terminal: bool, window: Option<Rect>, monitor: Option<Rect>)
    ensures
        after_leave(after_enter(false, in_terminal, window, monitor).1).0 == after_enter(
            false,
            in_terminal,
            window,
            monitor,
        ).0,
        !after_leave(after_leave(after_enter(false, in_terminal, window, monitor).1).1).0,
{
}

} // verus!
