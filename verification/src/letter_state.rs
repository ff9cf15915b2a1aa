//! The four-valued feedback state of a single letter cell.

use vstd::prelude::*;

verus! {

/// Feedback attached to one letter cell of a constraint row.
///
/// `Disabled` marks a cell that carries no feedback yet; the other three
/// states classify a proposed letter the way the game does.
#[derive(Clone, Copy, Debug, PartialEq, Eq, Structural)]
pub enum LetterState {
    Disabled,
    Incorrect,
    Correct,
    Present,
}

impl LetterState {
    /// The legal transition table: `Disabled` is a fixed point, the three
    /// feedback states cycle `Incorrect -> Correct -> Present -> Incorrect`.
    pub open spec fn spec_toggle(self) -> LetterState {
        match self {
            LetterState::Disabled => LetterState::Disabled,
            LetterState::Incorrect => LetterState::Correct,
            LetterState::Correct => LetterState::Present,
            LetterState::Present => LetterState::Incorrect,
        }
    }

    /// Advances the state along the transition table and returns the new state.
    pub fn toggle(&mut self) -> (r: LetterState)
        ensures
            *final(self) == old(self).spec_toggle(),
            r == old(self).spec_toggle(),
    {
        *self = match *self {
            LetterState::Disabled => LetterState::Disabled,
            LetterState::Incorrect => LetterState::Correct,
            LetterState::Correct => LetterState::Present,
            LetterState::Present => LetterState::Incorrect,
        };
        *self
    }
}

impl Default for LetterState {
    /// A fresh cell carries no feedback.
    fn default() -> (r: Self)
        ensures
            r == LetterState::Disabled,
    {
        LetterState::Disabled
    }
}

} // verus!
