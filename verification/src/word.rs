//! A constraint row: a fixed-length sequence of letter cells, used as a
//! rejection predicate over candidate words.

use vstd::prelude::*;
use crate::letter::Letter;
use crate::letter_state::LetterState;
use crate::text::chars_of;

verus! {

/// Number of letters in every word of a session.
pub const MAX_LETTERS: usize = 5;

/// Number of occurrences of `c` in `s`.
pub open spec fn count_char(s: Seq<char>, c: char) -> nat
    decreases s.len(),
{
    if s.len() == 0 {
        0
    } else {
        count_char(s.drop_last(), c) + if s.last() == c {
            1nat
        } else {
            0nat
        }
    }
}

/// Number of cells that mark `c` Correct or Present: the occurrences of `c`
/// that the row's feedback accounts for.
pub open spec fn explained_count(cells: Seq<Letter>, c: char) -> nat
    decreases cells.len(),
{
    if cells.len() == 0 {
        0
    } else {
        explained_count(cells.drop_last(), c) + if cells.last().value == c && (cells.last().state
            == LetterState::Correct || cells.last().state == LetterState::Present) {
            1nat
        } else {
            0nat
        }
    }
}

/// True when some occurrence of `c` in the candidate falls at a position
/// whose cell marks `c` Incorrect.
pub open spec fn occurs_at_incorrect(cells: Seq<Letter>, cand: Seq<char>, c: char) -> bool
    recommends
        cand.len() == cells.len(),
{
    exists|j: int|
        0 <= j < cand.len() && cand[j] == c && cells[j].value == c && cells[j].state
            == LetterState::Incorrect
}

/// Whether the cell at position `i` rejects the candidate.
///
/// Correct demands the same letter at the same position; Present demands the
/// letter somewhere in the candidate; Incorrect applies the duplicate-letter
/// accounting: the candidate may carry the letter only as often as Correct
/// and Present cells explain it, and never at a position marked Incorrect
/// for that letter.
pub open spec fn cell_rejects(cells: Seq<Letter>, cand: Seq<char>, i: int) -> bool
    recommends
        0 <= i < cells.len(),
        cand.len() == cells.len(),
{
    match cells[i].state {
        LetterState::Disabled => false,
        LetterState::Correct => cand[i] != cells[i].value,
        LetterState::Present => !cand.contains(cells[i].value),
        LetterState::Incorrect => count_char(cand, cells[i].value) > explained_count(
            cells,
            cells[i].value,
        ) || occurs_at_incorrect(cells, cand, cells[i].value),
    }
}

/// A row rejects a candidate when at least one of its cells rejects it; a
/// candidate is consistent with the row exactly when this is false.
pub open spec fn row_rejects(cells: Seq<Letter>, cand: Seq<char>) -> bool
    recommends
        cand.len() == cells.len(),
{
    exists|i: int| 0 <= i < cells.len() && cell_rejects(cells, cand, i)
}

/// Every cell of the row carries feedback: the row is usable as a filter.
pub open spec fn all_active(cells: Seq<Letter>) -> bool {
    forall|i: int| 0 <= i < cells.len() ==> (#[trigger] cells[i].state) != LetterState::Disabled
}

/// A constraint row: one attempt's letters together with their feedback.
#[derive(Clone, Debug)]
pub struct Word {
    letters: Vec<Letter>,
}

impl View for Word {
    type V = Seq<Letter>;

    closed spec fn view(&self) -> Seq<Letter> {
        self.letters@
    }
}

impl Word {
    /// Number of cells in the row.
    pub fn len(&self) -> (r: usize)
        ensures
            r == self@.len(),
    {
        self.letters.len()
    }

    /// The cell at the given position.
    pub fn letter(&self, index: usize) -> (r: Letter)
        requires
            index < self@.len(),
        ensures
            r == self@[index as int],
    {
        self.letters[index]
    }

    /// Overwrites one cell with the given character and feedback state.
    pub fn set_cell(&mut self, index: usize, value: char, state: LetterState)
        requires
            index < old(self)@.len(),
        ensures
            final(self)@.len() == old(self)@.len(),
            final(self)@[index as int].value == value,
            final(self)@[index as int].state == state,
            forall|j: int|
                0 <= j < old(self)@.len() && j != index ==> final(self)@[j] == old(self)@[j],
    {
        self.letters[index] = Letter { value, state };
    }

    /// Cycles the feedback state of one cell, keeping its character.
    pub fn toggle_cell(&mut self, index: usize)
        requires
            index < old(self)@.len(),
        ensures
            final(self)@.len() == old(self)@.len(),
            final(self)@[index as int].value == old(self)@[index as int].value,
            final(self)@[index as int].state == old(self)@[index as int].state.spec_toggle(),
            forall|j: int|
                0 <= j < old(self)@.len() && j != index ==> final(self)@[j] == old(self)@[j],
    {
        let mut cell = self.letters[index];
        cell.toggle();
        self.letters[index] = cell;
    }

    /// A verified copy of the row.
    pub fn duplicate(&self) -> (r: Word)
        ensures
            r@ == self@,
    {
        let n = self.letters.len();
        let mut letters: Vec<Letter> = Vec::new();
        let mut i: usize = 0;
        while i < n
            invariant
                i <= n,
                n == self.letters@.len(),
                letters@ == self.letters@.take(i as int),
            decreases n - i,
        {
            letters.push(self.letters[i]);
            i = i + 1;
            proof {
                assert(self.letters@.take(i as int) =~= self.letters@.take(i - 1).push(
                    self.letters@[i - 1],
                ));
            }
        }
        proof {
            assert(self.letters@.take(n as int) =~= self.letters@);
        }
        Word { letters }
    }

    /// Writes a proposed guess into the row: the guess's characters fill the
    /// first cells, every cell of the row is marked Incorrect, and the
    /// characters of cells beyond the guess are kept.
    pub fn set(&mut self, word: &String)
        requires
            word@.len() <= old(self)@.len(),
        ensures
            final(self)@.len() == old(self)@.len(),
            forall|i: int|
                0 <= i < old(self)@.len() ==> (#[trigger] final(self)@[i]).state
                    == LetterState::Incorrect,
            forall|i: int|
                0 <= i < word@.len() ==> (#[trigger] final(self)@[i]).value == word@[i],
            forall|i: int|
                word@.len() <= i < old(self)@.len() ==> (#[trigger] final(self)@[i]).value == old(
                    self,
                )@[i].value,
    {
        let chars = chars_of(word.as_str());
        let n = self.letters.len();
        let mut i: usize = 0;
        while i < n
            invariant
                i <= n,
                n == self.letters@.len(),
                n == old(self)@.len(),
                chars@ == word@,
                word@.len() <= n,
                forall|j: int|
                    0 <= j < i ==> (#[trigger] self.letters@[j]).state == LetterState::Incorrect,
                forall|j: int|
                    0 <= j < i && j < word@.len() ==> (#[trigger] self.letters@[j]).value
                        == word@[j],
                forall|j: int|
                    i <= j < n ==> #[trigger] self.letters@[j] == old(self)@[j],
                forall|j: int|
                    0 <= j < i && word@.len() <= j ==> (#[trigger] self.letters@[j]).value == old(
                        self,
                    )@[j].value,
            decreases n - i,
        {
            let value = if i < chars.len() {
                chars[i]
            } else {
                self.letters[i].value
            };
            self.letters[i] = Letter { value, state: LetterState::Incorrect };
            i = i + 1;
        }
    }

    /// Decides whether this row's feedback rejects the candidate:
    /// true means the candidate is inconsistent with the feedback.
    pub fn filter(&self, candidate: &String) -> (r: bool)
        requires
            candidate@.len() == self@.len(),
            all_active(self@),
        ensures
            r == row_rejects(self@, candidate@),
    {
        let cand = chars_of(candidate.as_str());
        let n = self.letters.len();
        let mut i: usize = 0;
        while i < n
            invariant
                i <= n,
                n == self@.len(),
                cand@ == candidate@,
                cand@.len() == n,
                all_active(self@),
                forall|k: int| 0 <= k < i ==> !cell_rejects(self@, candidate@, k),
            decreases n - i,
        {
            let cell = self.letters[i];
            match cell.state {
                LetterState::Correct => {
                    if cand[i] != cell.value {
                        proof {
                            assert(cell_rejects(self@, candidate@, i as int));
                        }
                        return true;
                    }
                },
                LetterState::Present => {
                    if !contains_char(&cand, cell.value) {
                        proof {
                            assert(cell_rejects(self@, candidate@, i as int));
                        }
                        return true;
                    }
                },
                LetterState::Incorrect => {
                    let occurrences = count_char_exec(&cand, cell.value);
                    let explained = explained_count_exec(&self.letters, cell.value);
                    if occurrences > explained {
                        proof {
                            assert(cell_rejects(self@, candidate@, i as int));
                        }
                        return true;
                    }
                    if occurs_at_incorrect_exec(&self.letters, &cand, cell.value) {
                        proof {
                            assert(cell_rejects(self@, candidate@, i as int));
                        }
                        return true;
                    }
                },
                LetterState::Disabled => {
                    proof {
                        assert(false);
                    }
                },
            }
            i = i + 1;
        }
        false
    }
}

impl Default for Word {
    /// A blank row of `MAX_LETTERS` cells without feedback.
    fn default() -> (r: Self)
        ensures
            r@.len() == MAX_LETTERS,
            forall|i: int|
                0 <= i < MAX_LETTERS ==> #[trigger] r@[i] == (Letter {
                    value: ' ',
                    state: LetterState::Disabled,
                }),
    {
        let mut letters: Vec<Letter> = Vec::new();
        let mut i: usize = 0;
        while i < MAX_LETTERS
            invariant
                i <= MAX_LETTERS,
                letters@.len() == i,
                forall|j: int|
                    0 <= j < i ==> #[trigger] letters@[j] == (Letter {
                        value: ' ',
                        state: LetterState::Disabled,
                    }),
            decreases MAX_LETTERS - i,
        {
            letters.push(Letter { value: ' ', state: LetterState::Disabled });
            i = i + 1;
        }
        Word { letters }
    }
}

/// Whether the character vector contains `c`.
fn contains_char(s: &Vec<char>, c: char) -> (r: bool)
    ensures
        r == s@.contains(c),
{
    let n = s.len();
    let mut i: usize = 0;
    while i < n
        invariant
            i <= n,
            n == s@.len(),
            forall|j: int| 0 <= j < i ==> s@[j] != c,
        decreases n - i,
    {
        if s[i] == c {
            return true;
        }
        i = i + 1;
    }
    false
}

/// Counts the occurrences of `c`.
fn count_char_exec(s: &Vec<char>, c: char) -> (r: usize)
    ensures
        r == count_char(s@, c),
{
    let n = s.len();
    let mut count: usize = 0;
    let mut i: usize = 0;
    while i < n
        invariant
            i <= n,
            n == s@.len(),
            count <= i,
            count == count_char(s@.take(i as int), c),
        decreases n - i,
    {
        if s[i] == c {
            count = count + 1;
        }
        i = i + 1;
        proof {
            assert(s@.take(i as int).drop_last() =~= s@.take(i - 1));
        }
    }
    proof {
        assert(s@.take(n as int) =~= s@);
    }
    count
}

/// Counts the cells that mark `c` Correct or Present.
fn explained_count_exec(cells: &Vec<Letter>, c: char) -> (r: usize)
    ensures
        r == explained_count(cells@, c),
{
    let n = cells.len();
    let mut count: usize = 0;
    let mut i: usize = 0;
    while i < n
        invariant
            i <= n,
            n == cells@.len(),
            count <= i,
            count == explained_count(cells@.take(i as int), c),
        decreases n - i,
    {
        let cell = cells[i];
        if cell.value == c && (matches!(cell.state, LetterState::Correct) || matches!(
            cell.state,
            LetterState::Present,
        )) {
            count = count + 1;
        }
        i = i + 1;
        proof {
            assert(cells@.take(i as int).drop_last() =~= cells@.take(i - 1));
        }
    }
    proof {
        assert(cells@.take(n as int) =~= cells@);
    }
    count
}

/// Decides whether some occurrence of `c` in the candidate falls at a
/// position whose cell marks `c` Incorrect.
fn occurs_at_incorrect_exec(cells: &Vec<Letter>, cand: &Vec<char>, c: char) -> (r: bool)
    requires
        cand@.len() == cells@.len(),
    ensures
        r == occurs_at_incorrect(cells@, cand@, c),
{
    let n = cand.len();
    let mut j: usize = 0;
    while j < n
        invariant
            j <= n,
            n == cand@.len(),
            cand@.len() == cells@.len(),
            forall|k: int|
                0 <= k < j ==> !(cand@[k] == c && cells@[k].value == c && (#[trigger] cells@[k].state)
                    == LetterState::Incorrect),
        decreases n - j,
    {
        let cell = cells[j];
        if cand[j] == c && cell.value == c && matches!(cell.state, LetterState::Incorrect) {
            return true;
        }
        j = j + 1;
    }
    false
}

} // verus!
