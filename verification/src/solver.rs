//! One session of the solving loop: the board, the guess engine, and the
//! proposed guess, with the decisions the surrounding shell acts on.

use vstd::prelude::*;
use crate::board::{Board, MAX_ATTEMPTS};
use crate::errors::WordleError;
use crate::letter::Letter;
use crate::letter_state::LetterState;
use crate::statistics::{is_first_best, no_positive_score, spec_candidates, Statistics};
use crate::text::{lower_string, spec_lines, spec_lower, split_lines};
use crate::word::{all_active, MAX_LETTERS};

verus! {

/// No cell of the row carries feedback yet: the row takes no part in
/// filtering.
pub open spec fn all_disabled(cells: Seq<Letter>) -> bool {
    forall|j: int| 0 <= j < cells.len() ==> (#[trigger] cells[j]).state == LetterState::Disabled
}

/// Every cell of the row is marked Correct: the word is solved.
pub open spec fn all_correct(cells: Seq<Letter>) -> bool {
    forall|j: int| 0 <= j < cells.len() ==> (#[trigger] cells[j]).state == LetterState::Correct
}

/// The board rows that carry any feedback, in board order: the rows that act
/// as filters.
pub open spec fn spec_active_rows(rows: Seq<Seq<Letter>>) -> Seq<Seq<Letter>>
    decreases rows.len(),
{
    if rows.len() == 0 {
        Seq::empty()
    } else {
        let rest = spec_active_rows(rows.drop_last());
        if !all_disabled(rows.last()) {
            rest.push(rows.last())
        } else {
            rest
        }
    }
}

/// The pool a load produces from the given lines: each line lower-cased,
/// lines of the wrong length rejected one by one, duplicates collapsed
/// keeping the first occurrence.
pub open spec fn spec_load_pool(lines: Seq<Seq<char>>) -> Seq<Seq<char>>
    decreases lines.len(),
{
    if lines.len() == 0 {
        Seq::empty()
    } else {
        let rest = spec_load_pool(lines.drop_last());
        let w = spec_lower(lines.last());
        if w.len() == MAX_LETTERS && !rest.contains(w) {
            rest.push(w)
        } else {
            rest
        }
    }
}

/// What the session is showing: the state machine a caller reports from.
#[derive(Clone, Copy, Debug, PartialEq, Eq, Structural)]
pub enum SessionStatus {
    /// Nothing proposed yet; only a guess starts the session.
    Idle,
    /// A guess stands on the board and awaits feedback.
    GuessProposed,
    /// Every cell of the current row is marked Correct.
    Solved,
    /// No guess could be proposed because the pool is empty.
    EmptyPool,
    /// No guess could be proposed because the feedback rejects every pool
    /// word.
    NoCandidatesLeft,
    /// The last allowed attempt has been used.
    AttemptsExhausted,
}

/// One session of the solver: the word pool and active filters, the board
/// the feedback lives on, and the currently proposed guess.
#[derive(Debug)]
pub struct Solver {
    board: Board,
    statistics: Statistics,
    guess: String,
    guess_num: usize,
}

impl Solver {
    /// The word pool, in insertion order.
    pub closed spec fn pool(&self) -> Seq<Seq<char>> {
        self.statistics.pool()
    }

    /// The active filters, in submission order.
    pub closed spec fn filters(&self) -> Seq<Seq<Letter>> {
        self.statistics.spec_filters()
    }

    /// The board's rows.
    pub closed spec fn rows(&self) -> Seq<Seq<Letter>> {
        self.board@
    }

    /// The currently proposed guess; empty when there is none.
    pub closed spec fn proposed(&self) -> Seq<char> {
        self.guess@
    }

    /// Number of attempts used so far.
    pub closed spec fn attempts(&self) -> nat {
        self.guess_num as nat
    }

    /// Session well-formedness: the engine's and the board's own invariants,
    /// a bounded attempt count and proposed guess, and on the board only rows
    /// that carry feedback on every cell or on none — a row is annotated as a
    /// whole or not at all.
    pub closed spec fn wf(&self) -> bool {
        &&& self.statistics.wf()
        &&& self.board.wf()
        &&& self.guess_num <= MAX_ATTEMPTS
        &&& self.guess@.len() <= MAX_LETTERS
        &&& forall|i: int|
            0 <= i < self.rows().len() ==> all_disabled(#[trigger] self.rows()[i]) || all_active(
                self.rows()[i],
            )
    }

    /// Number of words in the pool.
    pub fn word_count(&self) -> (r: usize)
        ensures
            r == self.pool().len(),
    {
        self.statistics.len()
    }

    /// The currently proposed guess; empty when there is none.
    pub fn current_guess(&self) -> (r: String)
        ensures
            r@ == self.proposed(),
    {
        self.guess.clone()
    }

    /// Number of attempts used so far.
    pub fn attempt(&self) -> (r: usize)
        ensures
            r == self.attempts(),
    {
        self.guess_num
    }

    /// Number of pool words consistent with the submitted feedback.
    pub fn candidates_count(&self) -> (r: usize)
        requires
            self.wf(),
        ensures
            r == spec_candidates(self.pool(), self.filters()).len(),
    {
        let cands = self.statistics.candidates();
        cands.len()
    }

    /// The render data of one cell: its character and feedback state.
    pub fn cell(&self, row: usize, col: usize) -> (r: Result<(char, LetterState), WordleError>)
        requires
            self.wf(),
        ensures
            r is Ok <==> row < MAX_ATTEMPTS && col < MAX_LETTERS,
            r is Err ==> r == Err::<(char, LetterState), WordleError>(WordleError::IndexOutOfRange),
            r is Ok ==> r == Ok::<(char, LetterState), WordleError>(
                (self.rows()[row as int][col as int].value, self.rows()[
                    row as int
                ][col as int].state),
            ),
    {
        if row >= MAX_ATTEMPTS || col >= MAX_LETTERS {
            return Err(WordleError::IndexOutOfRange);
        }
        let cell = self.board.row(row).letter(col);
        Ok((cell.value, cell.state))
    }

    /// Applies one feedback event: cycles the state of the given cell.
    /// Out-of-range indices are reported and change nothing.
    pub fn toggle_cell(&mut self, row: usize, col: usize) -> (r: Result<(), WordleError>)
        requires
            old(self).wf(),
        ensures
            final(self).wf(),
            final(self).pool() == old(self).pool(),
            final(self).filters() == old(self).filters(),
            final(self).proposed() == old(self).proposed(),
            final(self).attempts() == old(self).attempts(),
            r is Ok <==> row < MAX_ATTEMPTS && col < MAX_LETTERS,
            r is Err ==> r == Err::<(), WordleError>(WordleError::IndexOutOfRange)
                && final(self).rows() == old(self).rows(),
            r is Ok ==> {
                &&& final(self).rows().len() == MAX_ATTEMPTS
                &&& forall|j: int|
                    0 <= j < MAX_ATTEMPTS && j != row ==> final(self).rows()[j] == old(
                        self,
                    ).rows()[j]
                &&& final(self).rows()[row as int].len() == MAX_LETTERS
                &&& forall|i: int|
                    0 <= i < MAX_LETTERS && i != col ==> final(self).rows()[row as int][i] == old(
                        self,
                    ).rows()[row as int][i]
                &&& final(self).rows()[row as int][col as int].value == old(
                    self,
                ).rows()[row as int][col as int].value
                &&& final(self).rows()[row as int][col as int].state == old(
                    self,
                ).rows()[row as int][col as int].state.spec_toggle()
            },
    {
        let ghost orig = *self;
        let r = self.board.toggle_cell(row, col);
        proof {
            if r is Ok {
                assert forall|i: int|
                    0 <= i < self.rows().len() implies all_disabled(#[trigger] self.rows()[i])
                    || all_active(self.rows()[i]) by {
                    if i == row {
                        let before = orig.rows()[i];
                        let after = self.rows()[i];
                        if all_disabled(before) {
                            assert forall|j: int|
                                0 <= j < after.len() implies (#[trigger] after[j]).state
                                == LetterState::Disabled by {
                                assert(before[j].state == LetterState::Disabled);
                            }
                        } else {
                            assert(all_active(before));
                            assert forall|j: int|
                                0 <= j < after.len() implies (#[trigger] after[j]).state
                                != LetterState::Disabled by {
                                assert(before[j].state != LetterState::Disabled);
                            }
                        }
                    }
                }
            }
        }
        r
    }

    /// Replaces the pool with the words of the given newline-separated text —
    /// lower-cased, wrong lengths rejected individually, duplicates collapsed
    /// — and resets the whole session: no filters, a blank board, no guess.
    pub fn load(&mut self, content: &str)
        requires
            old(self).wf(),
        ensures
            final(self).wf(),
            final(self).pool() == spec_load_pool(spec_lines(content@)),
            final(self).filters() == Seq::<Seq<Letter>>::empty(),
            final(self).proposed() == Seq::<char>::empty(),
            final(self).attempts() == 0,
            final(self).rows().len() == MAX_ATTEMPTS,
            forall|i: int| 0 <= i < MAX_ATTEMPTS ==> all_disabled(#[trigger] final(self).rows()[i]),
    {
        let lines = split_lines(content);
        let ghost lseq = lines.deep_view();
        self.statistics.clear();
        self.statistics.clear_filters();
        self.board = Board::default();
        self.guess = String::new();
        self.guess_num = 0;
        let m = lines.len();
        let mut k: usize = 0;
        while k < m
            invariant
                k <= m,
                m == lines@.len(),
                lseq == lines.deep_view(),
                self.statistics.wf(),
                self.statistics.pool() == spec_load_pool(lseq.take(k as int)),
                self.statistics.spec_filters() == Seq::<Seq<Letter>>::empty(),
                self.board.wf(),
                self.guess@ == Seq::<char>::empty(),
                self.guess_num == 0,
                forall|i: int|
                    0 <= i < self.board@.len() ==> all_disabled(#[trigger] self.board@[i]),
            decreases m - k,
        {
            let line = &lines[k];
            let lowered = lower_string(line.as_str());
            proof {
                assert(lines@[k as int]@ == lseq[k as int]);
                assert(lowered@ == spec_lower(lseq[k as int]));
                assert(lseq.take(k as int + 1).drop_last() =~= lseq.take(k as int));
                assert(lseq.take(k as int + 1).last() == lseq[k as int]);
            }
            if lowered.unicode_len() == MAX_LETTERS {
                self.statistics.add_word(&lowered);
            }
            k = k + 1;
        }
        proof {
            assert(lseq.take(m as int) =~= lseq);
        }
    }

    /// One press of the guess button. After a proposed guess has run out
    /// (the empty sentinel with attempts used), nothing happens. Otherwise
    /// the board rows carrying feedback become the active filters and, while
    /// attempts remain, the engine proposes the next guess and writes it into
    /// the next row, every cell marked Incorrect.
    pub fn guess_step(&mut self)
        requires
            old(self).wf(),
        ensures
            final(self).wf(),
            final(self).pool() == old(self).pool(),
            (old(self).proposed() == Seq::<char>::empty() && old(self).attempts() > 0)
                ==> *final(self) == *old(self),
            (old(self).proposed() != Seq::<char>::empty() || old(self).attempts() == 0) ==> {
                let filters = spec_active_rows(old(self).rows());
                let cands = spec_candidates(old(self).pool(), filters);
                &&& final(self).filters() == filters
                &&& (old(self).attempts() == MAX_ATTEMPTS ==> final(self).attempts()
                    == MAX_ATTEMPTS && final(self).proposed() == old(self).proposed()
                    && final(self).rows() == old(self).rows())
                &&& (old(self).attempts() < MAX_ATTEMPTS ==> {
                    &&& final(self).attempts() == old(self).attempts() + 1
                    &&& (no_positive_score(cands) ==> final(self).proposed()
                        == Seq::<char>::empty())
                    &&& (!no_positive_score(cands) ==> exists|k: int|
                        #[trigger] is_first_best(cands, k) && final(self).proposed() == cands[k])
                    &&& (final(self).proposed() == Seq::<char>::empty() || old(
                        self,
                    ).pool().contains(final(self).proposed()))
                    &&& final(self).rows().len() == MAX_ATTEMPTS
                    &&& (forall|j: int|
                        0 <= j < MAX_ATTEMPTS && j != old(self).attempts() ==> final(self).rows()[j]
                            == old(self).rows()[j])
                    &&& (forall|i: int|
                        0 <= i < MAX_LETTERS ==> (#[trigger] final(self).rows()[old(
                            self,
                        ).attempts() as int][i]).state == LetterState::Incorrect)
                    &&& (forall|i: int|
                        0 <= i < final(self).proposed().len() ==> (#[trigger] final(self).rows()[old(
                            self,
                        ).attempts() as int][i]).value == final(self).proposed()[i])
                })
            },
    {
        let ghost orig = *self;
        if self.guess.unicode_len() == 0 && self.guess_num > 0 {
            proof {
                assert(self.proposed() =~= Seq::<char>::empty());
            }
            return ;
        }
        self.statistics.clear_filters();
        let mut r: usize = 0;
        while r < MAX_ATTEMPTS
            invariant
                r <= MAX_ATTEMPTS,
                orig == *old(self),
                orig.wf(),
                self.board == orig.board,
                self.guess == orig.guess,
                self.guess_num == orig.guess_num,
                self.statistics.wf(),
                self.statistics.pool() == orig.pool(),
                self.statistics.spec_filters() == spec_active_rows(orig.rows().take(r as int)),
            decreases MAX_ATTEMPTS - r,
        {
            proof {
                assert(orig.rows().take(r as int + 1).drop_last() =~= orig.rows().take(r as int));
                assert(orig.rows().take(r as int + 1).last() == orig.rows()[r as int]);
            }
            let row = self.board.row(r);
            if row_any_active(row) {
                proof {
                    assert(!all_disabled(orig.rows()[r as int]));
                    assert(all_active(orig.rows()[r as int]));
                }
                let copy = row.duplicate();
                let res = self.statistics.push_filter(copy);
                proof {
                    assert(res is Ok);
                }
            }
            r = r + 1;
        }
        proof {
            assert(orig.rows().take(MAX_ATTEMPTS as int) =~= orig.rows());
        }
        if self.guess_num < MAX_ATTEMPTS {
            self.guess_num = self.guess_num + 1;
            let g = self.statistics.guess();
            self.guess = g;
            let res = self.board.set_word(self.guess_num - 1, &self.guess);
            proof {
                assert(res is Ok);
                assert forall|i: int|
                    0 <= i < self.rows().len() implies all_disabled(#[trigger] self.rows()[i])
                    || all_active(self.rows()[i]) by {
                    if i == self.guess_num - 1 {
                        assert(all_active(self.rows()[i]));
                    } else {
                        assert(self.rows()[i] == orig.rows()[i]);
                    }
                }
            }
        }
    }

    /// Rejects a word the caller will not accept as a guess: removes it from
    /// the pool, proposes a fresh guess against the reduced pool, and writes
    /// that guess into the current row. The fresh proposal is never the
    /// rejected word.
    pub fn reject_word(&mut self, word: &String)
        requires
            old(self).wf(),
            old(self).attempts() >= 1,
        ensures
            final(self).wf(),
            final(self).filters() == old(self).filters(),
            final(self).attempts() == old(self).attempts(),
            !final(self).pool().contains(word@),
            !old(self).pool().contains(word@) ==> final(self).pool() == old(self).pool(),
            old(self).pool().contains(word@) ==> exists|i: int|
                0 <= i < old(self).pool().len() && old(self).pool()[i] == word@
                    && final(self).pool() == old(self).pool().remove(i),
            ({
                let cands = spec_candidates(final(self).pool(), old(self).filters());
                &&& (no_positive_score(cands) ==> final(self).proposed() == Seq::<char>::empty())
                &&& (!no_positive_score(cands) ==> exists|k: int|
                    #[trigger] is_first_best(cands, k) && final(self).proposed() == cands[k])
            }),
            final(self).proposed() == Seq::<char>::empty() || final(self).proposed() != word@,
            final(self).rows().len() == MAX_ATTEMPTS,
            forall|j: int|
                0 <= j < MAX_ATTEMPTS && j != old(self).attempts() - 1 ==> final(self).rows()[j]
                    == old(self).rows()[j],
            forall|i: int|
                0 <= i < MAX_LETTERS ==> (#[trigger] final(self).rows()[old(self).attempts()
                    - 1][i]).state == LetterState::Incorrect,
            forall|i: int|
                0 <= i < final(self).proposed().len() ==> (#[trigger] final(self).rows()[old(
                    self,
                ).attempts() - 1][i]).value == final(self).proposed()[i],
    {
        let ghost orig = *self;
        self.statistics.remove_word(word);
        let g = self.statistics.guess();
        self.guess = g;
        let res = self.board.set_word(self.guess_num - 1, &self.guess);
        proof {
            assert(res is Ok);
            assert forall|i: int|
                0 <= i < self.rows().len() implies all_disabled(#[trigger] self.rows()[i])
                || all_active(self.rows()[i]) by {
                if i == self.guess_num - 1 {
                    assert(all_active(self.rows()[i]));
                } else {
                    assert(self.rows()[i] == orig.rows()[i]);
                }
            }
            if self.proposed() != Seq::<char>::empty() {
                assert(self.pool().contains(self.proposed()));
                assert(!self.pool().contains(word@));
            }
        }
    }

    /// What the session is showing, for the caller to report: nothing yet,
    /// a proposed guess, a solved row, an empty pool, feedback that rejects
    /// every word, or attempts run out.
    pub open spec fn spec_status(&self) -> SessionStatus {
        if self.attempts() == 0 {
            SessionStatus::Idle
        } else if self.proposed().len() == 0 {
            if self.pool().len() == 0 {
                SessionStatus::EmptyPool
            } else {
                SessionStatus::NoCandidatesLeft
            }
        } else if all_correct(self.rows()[self.attempts() - 1]) {
            SessionStatus::Solved
        } else if self.attempts() == MAX_ATTEMPTS {
            SessionStatus::AttemptsExhausted
        } else {
            SessionStatus::GuessProposed
        }
    }

    /// Reports the session's current status.
    pub fn status(&self) -> (r: SessionStatus)
        requires
            self.wf(),
        ensures
            r == self.spec_status(),
    {
        if self.guess_num == 0 {
            return SessionStatus::Idle;
        }
        if self.guess.unicode_len() == 0 {
            if self.statistics.len() == 0 {
                return SessionStatus::EmptyPool;
            }
            return SessionStatus::NoCandidatesLeft;
        }
        let row = self.board.row(self.guess_num - 1);
        if row_all_correct(row) {
            return SessionStatus::Solved;
        }
        if self.guess_num == MAX_ATTEMPTS {
            return SessionStatus::AttemptsExhausted;
        }
        SessionStatus::GuessProposed
    }
}

/// Whether any cell of the row carries feedback.
fn row_any_active(row: &crate::word::Word) -> (r: bool)
    ensures
        r == !all_disabled(row@),
{
    let n = row.len();
    let mut j: usize = 0;
    while j < n
        invariant
            j <= n,
            n == row@.len(),
            forall|t: int| 0 <= t < j ==> (#[trigger] row@[t]).state == LetterState::Disabled,
        decreases n - j,
    {
        if !matches!(row.letter(j).state, LetterState::Disabled) {
            return true;
        }
        j = j + 1;
    }
    false
}

/// Whether every cell of the row is marked Correct.
fn row_all_correct(row: &crate::word::Word) -> (r: bool)
    ensures
        r == all_correct(row@),
{
    let n = row.len();
    let mut j: usize = 0;
    while j < n
        invariant
            j <= n,
            n == row@.len(),
            forall|t: int| 0 <= t < j ==> (#[trigger] row@[t]).state == LetterState::Correct,
        decreases n - j,
    {
        if !matches!(row.letter(j).state, LetterState::Correct) {
            return false;
        }
        j = j + 1;
    }
    true
}

impl Default for Solver {
    /// A fresh session: empty pool, no filters, a blank board, no guess.
    fn default() -> (r: Self)
        ensures
            r.wf(),
            r.pool() == Seq::<Seq<char>>::empty(),
            r.filters() == Seq::<Seq<Letter>>::empty(),
            r.proposed() == Seq::<char>::empty(),
            r.attempts() == 0,
            r.rows().len() == MAX_ATTEMPTS,
            forall|i: int| 0 <= i < MAX_ATTEMPTS ==> all_disabled(#[trigger] r.rows()[i]),
    {
        Solver {
            board: Board::default(),
            statistics: Statistics::default(),
            guess: String::new(),
            guess_num: 0,
        }
    }
}

} // verus!
