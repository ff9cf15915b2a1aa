//! The board: a fixed number of constraint rows, one per attempt.

use vstd::prelude::*;
use crate::errors::WordleError;
use crate::letter::Letter;
use crate::word::{Word, MAX_LETTERS};
use crate::letter_state::LetterState;

verus! {

/// Number of attempts a session allows, and so of rows on the board.
pub const MAX_ATTEMPTS: usize = 6;

/// The board: `MAX_ATTEMPTS` constraint rows of `MAX_LETTERS` cells each.
#[derive(Debug)]
pub struct Board {
    words: Vec<Word>,
}

impl View for Board {
    type V = Seq<Seq<Letter>>;

    closed spec fn view(&self) -> Seq<Seq<Letter>> {
        self.words@.map_values(|w: Word| w@)
    }
}

impl Board {
    /// Board well-formedness: the fixed grid shape.
    pub open spec fn wf(&self) -> bool {
        &&& self@.len() == MAX_ATTEMPTS
        &&& forall|i: int| 0 <= i < MAX_ATTEMPTS ==> (#[trigger] self@[i]).len() == MAX_LETTERS
    }

    /// Number of rows.
    pub fn len(&self) -> (r: usize)
        ensures
            r == self@.len(),
    {
        self.words.len()
    }

    /// A borrow of one row.
    pub fn row(&self, index: usize) -> (r: &Word)
        requires
            index < self@.len(),
        ensures
            r@ == self@[index as int],
    {
        &self.words[index]
    }

    /// Writes a proposed guess into the given row and marks every cell of
    /// that row Incorrect; the other rows are untouched. An out-of-range row
    /// index or an over-long word is reported, leaving the board unchanged.
    pub fn set_word(&mut self, index: usize, word: &String) -> (r: Result<(), WordleError>)
        requires
            old(self).wf(),
        ensures
            final(self).wf(),
            r is Ok <==> index < MAX_ATTEMPTS && word@.len() <= MAX_LETTERS,
            r == Err::<(), WordleError>(WordleError::IndexOutOfRange) <==> index >= MAX_ATTEMPTS,
            r == Err::<(), WordleError>(WordleError::InvalidWordLength) <==> index < MAX_ATTEMPTS
                && word@.len() > MAX_LETTERS,
            r is Err ==> final(self)@ == old(self)@,
            r is Ok ==> {
                &&& final(self)@.len() == MAX_ATTEMPTS
                &&& forall|j: int|
                    0 <= j < MAX_ATTEMPTS && j != index ==> final(self)@[j] == old(self)@[j]
                &&& forall|i: int|
                    0 <= i < MAX_LETTERS ==> (#[trigger] final(self)@[index as int][i]).state
                        == LetterState::Incorrect
                &&& forall|i: int|
                    0 <= i < word@.len() ==> (#[trigger] final(self)@[index as int][i]).value
                        == word@[i]
                &&& forall|i: int|
                    word@.len() <= i < MAX_LETTERS ==> (
                    #[trigger] final(self)@[index as int][i]).value
                        == old(self)@[index as int][i].value
            },
    {
        let ghost orig = *self;
        if index >= MAX_ATTEMPTS {
            return Err(WordleError::IndexOutOfRange);
        }
        if word.unicode_len() > MAX_LETTERS {
            return Err(WordleError::InvalidWordLength);
        }
        let mut row = self.words[index].duplicate();
        row.set(word);
        self.words[index] = row;
        proof {
            assert(self@.len() == orig@.len());
            assert(self@[index as int] == row@);
            assert forall|j: int|
                0 <= j < MAX_ATTEMPTS && j != index implies #[trigger] self@[j] == orig@[j] by {
                assert(self.words@[j] == orig.words@[j]);
            }
        }
        Ok(())
    }

    /// Cycles the feedback state of one cell; out-of-range indices are
    /// reported and leave the board unchanged.
    pub fn toggle_cell(&mut self, row: usize, col: usize) -> (r: Result<(), WordleError>)
        requires
            old(self).wf(),
        ensures
            final(self).wf(),
            r is Ok <==> row < MAX_ATTEMPTS && col < MAX_LETTERS,
            r is Err ==> r == Err::<(), WordleError>(WordleError::IndexOutOfRange)
                && final(self)@ == old(self)@,
            r is Ok ==> {
                &&& final(self)@.len() == MAX_ATTEMPTS
                &&& forall|j: int|
                    0 <= j < MAX_ATTEMPTS && j != row ==> final(self)@[j] == old(self)@[j]
                &&& final(self)@[row as int].len() == MAX_LETTERS
                &&& forall|i: int|
                    0 <= i < MAX_LETTERS && i != col ==> #[trigger] final(self)@[row as int][i]
                        == old(self)@[row as int][i]
                &&& final(self)@[row as int][col as int].value
                    == old(self)@[row as int][col as int].value
                &&& final(self)@[row as int][col as int].state
                    == old(self)@[row as int][col as int].state.spec_toggle()
            },
    {
        let ghost orig = *self;
        if row >= MAX_ATTEMPTS || col >= MAX_LETTERS {
            return Err(WordleError::IndexOutOfRange);
        }
        let mut cells = self.words[row].duplicate();
        cells.toggle_cell(col);
        self.words[row] = cells;
        proof {
            assert(self@[row as int] == cells@);
            assert forall|j: int|
                0 <= j < MAX_ATTEMPTS && j != row implies #[trigger] self@[j] == orig@[j] by {
                assert(self.words@[j] == orig.words@[j]);
            }
        }
        Ok(())
    }
}

impl Default for Board {
    /// A blank board: every cell a space with no feedback.
    fn default() -> (r: Self)
        ensures
            r.wf(),
            forall|i: int, j: int|
                0 <= i < MAX_ATTEMPTS && 0 <= j < MAX_LETTERS ==> (#[trigger] r@[i][j]).value
                    == ' ' && r@[i][j].state == LetterState::Disabled,
    {
        let mut words: Vec<Word> = Vec::new();
        let mut i: usize = 0;
        while i < MAX_ATTEMPTS
            invariant
                i <= MAX_ATTEMPTS,
                words@.len() == i,
                forall|k: int|
                    0 <= k < i ==> (#[trigger] words@[k])@.len() == MAX_LETTERS,
                forall|k: int, j: int|
                    0 <= k < i && 0 <= j < MAX_LETTERS ==> (#[trigger] words@[k]@[j]).value == ' '
                        && words@[k]@[j].state == LetterState::Disabled,
            decreases MAX_ATTEMPTS - i,
        {
            words.push(Word::default());
            i = i + 1;
        }
        let r = Board { words };
        proof {
            assert(r@.len() == MAX_ATTEMPTS);
            assert forall|i: int, j: int|
                0 <= i < MAX_ATTEMPTS && 0 <= j < MAX_LETTERS implies (#[trigger] r@[i][j]).value
                == ' ' && r@[i][j].state == LetterState::Disabled by {
                assert(r@[i] == r.words@[i]@);
            }
        }
        r
    }
}

} // verus!
