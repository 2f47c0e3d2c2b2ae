//! The library's model of a key event: the decisions of the form logic are
//! stated and verified over these plain values, and the terminal backend
//! converts its own event type into them at the edge.

use vstd::prelude::*;

verus! {

/// A key event, as the form logic sees it.
#[derive(Debug, Clone, Copy, PartialEq, Eq, Structural)]
pub enum InputKey {
    Char(char),
    Enter,
    Tab,
    BackTab,
    Esc,
    Backspace,
    Delete,
    Up,
    Down,
    Left,
    Right,
    Home,
    End,
    /// Control-C: cancel the whole form.
    Cancel,
    /// Any key the form logic ignores.
    Other,
}

/// After processing an input event, a step may hand an instruction back to
/// the form.
#[derive(Debug, Clone, Copy, PartialEq, Eq, Structural)]
pub enum InputResult {
    /// Advance the form to the next step.
    AdvanceForm,
    /// Retreat the form to the previous step.
    RetreatForm,
}

} // verus!
