//! An earlier, self-contained variant of the cell feedback state whose toggle
//! also arms a fresh cell.

use vstd::prelude::*;

verus! {

/// Feedback state of a board square. Unlike [`crate::LetterState`], toggling
/// a `Disabled` square arms it: the cycle entered from any state is
/// `Incorrect -> Correct -> Present -> Incorrect`.
#[derive(Clone, Copy, Debug, PartialEq, Eq, Structural)]
pub enum SquareState {
    Disabled,
    Incorrect,
    Correct,
    Present,
}

impl SquareState {
    /// The transition table: `Disabled` enters the cycle at `Incorrect`.
    pub open spec fn spec_toggle(self) -> SquareState {
        match self {
            SquareState::Disabled => SquareState::Incorrect,
            SquareState::Incorrect => SquareState::Correct,
            SquareState::Correct => SquareState::Present,
            SquareState::Present => SquareState::Incorrect,
        }
    }

    /// Advances the state along the transition table and returns the new state.
    pub fn toggle(&mut self) -> (r: SquareState)
        ensures
            *final(self) == old(self).spec_toggle(),
            r == old(self).spec_toggle(),
    {
        *self = match *self {
            SquareState::Disabled => SquareState::Incorrect,
            SquareState::Incorrect => SquareState::Correct,
            SquareState::Correct => SquareState::Present,
            SquareState::Present => SquareState::Incorrect,
        };
        *self
    }
}

impl Default for SquareState {
    /// A fresh square carries no feedback.
    fn default() -> (r: Self)
        ensures
            r == SquareState::Disabled,
    {
        SquareState::Disabled
    }
}

} // verus!
