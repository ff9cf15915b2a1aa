//! One letter cell of a constraint row: a character plus its feedback state.

use vstd::prelude::*;
use crate::letter_state::LetterState;

verus! {

/// A single cell of a constraint row: the proposed character and the
/// feedback attached to it. A blank cell holds a space and no feedback.
#[derive(Clone, Copy, Debug, PartialEq, Eq, Structural)]
pub struct Letter {
    pub value: char,
    pub state: LetterState,
}

impl Letter {
    /// Cycles the cell's feedback state; a cell without feedback stays
    /// without feedback.
    pub fn toggle(&mut self)
        ensures
            final(self).value == old(self).value,
            final(self).state == old(self).state.spec_toggle(),
    {
        self.state.toggle();
    }

    /// Overwrites the cell's feedback state, keeping its character.
    pub fn set_state(&mut self, state: LetterState)
        ensures
            final(self).value == old(self).value,
            final(self).state == state,
    {
        self.state = state;
    }

    /// The cell's current feedback state.
    pub fn get_state(&self) -> (r: LetterState)
        ensures
            r == self.state,
    {
        self.state
    }
}

impl Default for Letter {
    /// A blank cell: a space with no feedback.
    fn default() -> (r: Self)
        ensures
            r.value == ' ',
            r.state == LetterState::Disabled,
    {
        Letter { value: ' ', state: LetterState::Disabled }
    }
}

} // verus!
