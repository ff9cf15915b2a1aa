//! The guess engine's state: the word pool and the active constraint rows,
//! with candidate filtering and the frequency-ranked guess.

use vstd::prelude::*;
use crate::errors::WordleError;
use crate::letter::Letter;
use crate::letter_probability::LetterProbability;
use crate::letter_state::LetterState;
use crate::text::spec_lower_char;
use crate::word::{all_active, cell_rejects, row_rejects, Word, MAX_LETTERS};

verus! {

/// A row rejects a word outright when their lengths differ; otherwise the
/// row's per-cell feedback decides.
pub open spec fn spec_rejected(cells: Seq<Letter>, w: Seq<char>) -> bool {
    w.len() != cells.len() || row_rejects(cells, w)
}

/// Whether any of the active rows rejects `w`.
pub open spec fn spec_rejected_any(filters: Seq<Seq<Letter>>, w: Seq<char>) -> bool {
    exists|i: int| 0 <= i < filters.len() && spec_rejected(#[trigger] filters[i], w)
}

/// The candidate subset: the pool words, in pool order, that no active row
/// rejects.
pub open spec fn spec_candidates(pool: Seq<Seq<char>>, filters: Seq<Seq<Letter>>) -> Seq<Seq<char>>
    decreases pool.len(),
{
    if pool.len() == 0 {
        Seq::empty()
    } else {
        let rest = spec_candidates(pool.drop_last(), filters);
        if !spec_rejected_any(filters, pool.last()) {
            rest.push(pool.last())
        } else {
            rest
        }
    }
}

/// Occurrences, across the candidate words, of `c` (after lower-casing) at
/// position `p`: the frequency table the guess is ranked by.
pub open spec fn table_count(cands: Seq<Seq<char>>, p: int, c: char) -> nat
    decreases cands.len(),
{
    if cands.len() == 0 {
        0
    } else {
        table_count(cands.drop_last(), p, c) + if 0 <= p < cands.last().len() && spec_lower_char(
            cands.last()[p],
        ) == c {
            1nat
        } else {
            0nat
        }
    }
}

/// Partial score: the summed table counts of `w`'s first `n` letters, each
/// at its own position.
pub open spec fn cand_sum(cands: Seq<Seq<char>>, w: Seq<char>, n: int) -> nat
    decreases n,
{
    if n <= 0 {
        0
    } else {
        cand_sum(cands, w, n - 1) + table_count(cands, n - 1, w[n - 1])
    }
}

/// Some position of `w` carries a letter that no candidate has there.
pub open spec fn cand_has_absent(cands: Seq<Seq<char>>, w: Seq<char>) -> bool {
    exists|i: int| 0 <= i < w.len() && table_count(cands, i, w[i]) == 0
}

/// The ranking score of `w` against the candidates' frequency table: 0 when
/// some position's letter is absent there, else the sum of the per-position
/// counts. (The fractional frequency score is this sum divided by the number
/// of candidates, a constant factor that does not affect the ranking.)
pub open spec fn cand_score(cands: Seq<Seq<char>>, w: Seq<char>) -> nat {
    if cand_has_absent(cands, w) {
        0
    } else {
        cand_sum(cands, w, w.len() as int)
    }
}

/// No candidate scores above zero: nothing can be proposed.
pub open spec fn no_positive_score(cands: Seq<Seq<char>>) -> bool {
    forall|j: int| 0 <= j < cands.len() ==> cand_score(cands, #[trigger] cands[j]) == 0
}

/// `cands[k]` is the proposed guess: a positive score, no candidate scores
/// higher, and no earlier candidate scores as high.
pub open spec fn is_first_best(cands: Seq<Seq<char>>, k: int) -> bool {
    &&& 0 <= k < cands.len()
    &&& cand_score(cands, cands[k]) > 0
    &&& forall|j: int|
        0 <= j < cands.len() ==> cand_score(cands, #[trigger] cands[j]) <= cand_score(
            cands,
            cands[k],
        )
    &&& forall|j: int|
        0 <= j < k ==> cand_score(cands, #[trigger] cands[j]) < cand_score(cands, cands[k])
}

/// The guess engine's state: the deduplicated word pool and the active
/// constraint rows, in their orders of arrival.
#[derive(Debug)]
pub struct Statistics {
    all_words: Vec<String>,
    filters: Vec<Word>,
}

impl Statistics {
    /// The pool as a sequence of character sequences, in insertion order.
    pub closed spec fn pool(&self) -> Seq<Seq<char>> {
        self.all_words@.map_values(|w: String| w@)
    }

    /// The active rows' cells, in submission order.
    pub closed spec fn spec_filters(&self) -> Seq<Seq<Letter>> {
        self.filters@.map_values(|w: Word| w@)
    }

    /// Well-formedness: pool words are pairwise distinct and at most
    /// `MAX_LETTERS` long; every active row has `MAX_LETTERS` cells, all of
    /// them carrying feedback.
    pub open spec fn wf(&self) -> bool {
        &&& forall|i: int, j: int|
            0 <= i < j < self.pool().len() ==> #[trigger] self.pool()[i] != #[trigger] self.pool()[j]
        &&& forall|i: int|
            0 <= i < self.pool().len() ==> (#[trigger] self.pool()[i]).len() <= MAX_LETTERS
        &&& forall|i: int|
            0 <= i < self.spec_filters().len() ==> (#[trigger] self.spec_filters()[i]).len()
                == MAX_LETTERS && all_active(self.spec_filters()[i])
    }

    /// Number of words in the pool.
    pub fn len(&self) -> (r: usize)
        ensures
            r == self.pool().len(),
    {
        self.all_words.len()
    }

    /// Number of active rows.
    pub fn filters_len(&self) -> (r: usize)
        ensures
            r == self.spec_filters().len(),
    {
        self.filters.len()
    }

    /// Inserts a word into the pool unless it is already there.
    pub fn add_word(&mut self, word: &String)
        requires
            old(self).wf(),
            word@.len() <= MAX_LETTERS,
        ensures
            final(self).wf(),
            final(self).spec_filters() == old(self).spec_filters(),
            old(self).pool().contains(word@) ==> final(self).pool() == old(self).pool(),
            !old(self).pool().contains(word@) ==> final(self).pool() == old(self).pool().push(
                word@,
            ),
            final(self).pool().contains(word@),
    {
        let ghost orig = *self;
        if !pool_contains(&self.all_words, word) {
            self.all_words.push(word.clone());
            proof {
                assert(self.filters == orig.filters);
                assert(self.spec_filters() == orig.spec_filters());
                assert(self.pool() =~= orig.pool().push(word@));
                assert(self.pool()[self.pool().len() - 1] == word@);
                assert forall|i: int, j: int|
                    0 <= i < j < self.pool().len() implies #[trigger] self.pool()[i]
                    != #[trigger] self.pool()[j] by {
                    if j < orig.pool().len() {
                    } else {
                        assert(self.pool()[j] == word@);
                        assert(!orig.pool().contains(word@));
                        assert(orig.pool()[i] != word@);
                    }
                }
            }
        } else {
            proof {
                let i = choose|i: int|
                    0 <= i < self.all_words@.len() && self.all_words@[i]@ == word@;
                assert(self.pool()[i] == word@);
            }
        }
    }

    /// Removes a word from the pool; a word not in the pool leaves it
    /// unchanged. Afterwards the pool never contains the word.
    pub fn remove_word(&mut self, word: &String)
        requires
            old(self).wf(),
        ensures
            final(self).wf(),
            final(self).spec_filters() == old(self).spec_filters(),
            !old(self).pool().contains(word@) ==> final(self).pool() == old(self).pool(),
            old(self).pool().contains(word@) ==> exists|i: int|
                0 <= i < old(self).pool().len() && old(self).pool()[i] == word@
                    && final(self).pool() == old(self).pool().remove(i),
            !final(self).pool().contains(word@),
    {
        let ghost orig = *self;
        let n = self.all_words.len();
        let mut k: usize = 0;
        while k < n
            invariant
                k <= n,
                n == self.all_words@.len(),
                *self == orig,
                orig == *old(self),
                orig.wf(),
                forall|j: int| 0 <= j < k ==> #[trigger] orig.pool()[j] != word@,
            decreases n - k,
        {
            if self.all_words[k].eq(word) {
                proof {
                    assert(orig.pool()[k as int] == word@);
                }
                self.all_words.remove(k);
                proof {
                    assert(self.filters == orig.filters);
                    assert(self.spec_filters() == orig.spec_filters());
                    assert(self.pool() =~= orig.pool().remove(k as int));
                    orig.pool().remove_ensures(k as int);
                    assert(orig.pool().contains(word@)) by {
                        assert(orig.pool()[k as int] == word@);
                    }
                    assert forall|i: int, j: int|
                        0 <= i < j < self.pool().len() implies #[trigger] self.pool()[i]
                        != #[trigger] self.pool()[j] by {
                        let oi = if i < k as int {
                            i
                        } else {
                            i + 1
                        };
                        let oj = if j < k as int {
                            j
                        } else {
                            j + 1
                        };
                        assert(self.pool()[i] == orig.pool()[oi]);
                        assert(self.pool()[j] == orig.pool()[oj]);
                    }
                    assert(!self.pool().contains(word@)) by {
                        assert forall|j: int|
                            0 <= j < self.pool().len() implies #[trigger] self.pool()[j]
                            != word@ by {
                            let oj = if j < k as int {
                                j
                            } else {
                                j + 1
                            };
                            assert(self.pool()[j] == orig.pool()[oj]);
                            if oj != k as int && orig.pool()[oj] == word@ {
                                assert(orig.pool()[k as int] == word@);
                            }
                        }
                    }
                    assert(0 <= (k as int) && (k as int) < orig.pool().len() && orig.pool()[k as int]
                        == word@ && self.pool() == orig.pool().remove(k as int));
                }
                return ;
            }
            k = k + 1;
        }
        proof {
            assert(!orig.pool().contains(word@));
        }
    }

    /// Empties the pool; the active rows are kept.
    pub fn clear(&mut self)
        ensures
            final(self).pool() == Seq::<Seq<char>>::empty(),
            final(self).spec_filters() == old(self).spec_filters(),
            old(self).wf() ==> final(self).wf(),
    {
        self.all_words.clear();
        proof {
            assert(self.pool() =~= Seq::<Seq<char>>::empty());
        }
    }

    /// Appends a fully annotated row to the active filters. A row of the
    /// wrong length or with a cell still lacking feedback is reported and
    /// leaves the filters unchanged.
    pub fn push_filter(&mut self, filter: Word) -> (r: Result<(), WordleError>)
        requires
            old(self).wf(),
        ensures
            final(self).wf(),
            final(self).pool() == old(self).pool(),
            r is Ok <==> filter@.len() == MAX_LETTERS && all_active(filter@),
            r is Ok ==> final(self).spec_filters() == old(self).spec_filters().push(filter@),
            r is Err ==> final(self).spec_filters() == old(self).spec_filters(),
            r == Err::<(), WordleError>(WordleError::InvalidWordLength) <==> filter@.len()
                != MAX_LETTERS,
            r == Err::<(), WordleError>(WordleError::DisabledRow) <==> filter@.len() == MAX_LETTERS
                && !all_active(filter@),
    {
        let ghost orig = *self;
        if filter.len() != MAX_LETTERS {
            return Err(WordleError::InvalidWordLength);
        }
        let mut i: usize = 0;
        while i < MAX_LETTERS
            invariant
                i <= MAX_LETTERS,
                filter@.len() == MAX_LETTERS,
                *self == orig,
                orig == *old(self),
                orig.wf(),
                forall|j: int|
                    0 <= j < i ==> (#[trigger] filter@[j]).state != LetterState::Disabled,
            decreases MAX_LETTERS - i,
        {
            if matches!(filter.letter(i).state, LetterState::Disabled) {
                return Err(WordleError::DisabledRow);
            }
            i = i + 1;
        }
        proof {
            assert(all_active(filter@));
        }
        let ghost fview = filter@;
        self.filters.push(filter);
        proof {
            assert(self.all_words == orig.all_words);
            assert(self.pool() == orig.pool());
            assert(self.spec_filters() =~= orig.spec_filters().push(fview));
        }
        Ok(())
    }

    /// Submits one attempt's feedback: the row replaces the active filter
    /// with the given attempt index, or is appended as the next one. The row
    /// must be fully annotated; an index beyond the next free slot, a row of
    /// the wrong length and a row with an unannotated cell are reported and
    /// change nothing.
    pub fn submit_feedback(&mut self, index: usize, row: Word) -> (r: Result<(), WordleError>)
        requires
            old(self).wf(),
        ensures
            final(self).wf(),
            final(self).pool() == old(self).pool(),
            r is Ok <==> index <= old(self).spec_filters().len() && row@.len() == MAX_LETTERS
                && all_active(row@),
            r is Err ==> final(self).spec_filters() == old(self).spec_filters(),
            r == Err::<(), WordleError>(WordleError::InvalidWordLength) <==> row@.len()
                != MAX_LETTERS,
            r == Err::<(), WordleError>(WordleError::DisabledRow) <==> row@.len() == MAX_LETTERS
                && !all_active(row@),
            r == Err::<(), WordleError>(WordleError::IndexOutOfRange) <==> index > old(
                self,
            ).spec_filters().len() && row@.len() == MAX_LETTERS && all_active(row@),
            r is Ok && index < old(self).spec_filters().len() ==> final(self).spec_filters()
                == old(self).spec_filters().update(index as int, row@),
            r is Ok && index == old(self).spec_filters().len() ==> final(self).spec_filters()
                == old(self).spec_filters().push(row@),
    {
        let ghost orig = *self;
        if row.len() != MAX_LETTERS {
            return Err(WordleError::InvalidWordLength);
        }
        let mut i: usize = 0;
        while i < MAX_LETTERS
            invariant
                i <= MAX_LETTERS,
                row@.len() == MAX_LETTERS,
                *self == orig,
                orig == *old(self),
                orig.wf(),
                forall|j: int| 0 <= j < i ==> (#[trigger] row@[j]).state != LetterState::Disabled,
            decreases MAX_LETTERS - i,
        {
            if matches!(row.letter(i).state, LetterState::Disabled) {
                return Err(WordleError::DisabledRow);
            }
            i = i + 1;
        }
        proof {
            assert(all_active(row@));
        }
        if index > self.filters.len() {
            return Err(WordleError::IndexOutOfRange);
        }
        let ghost rview = row@;
        if index == self.filters.len() {
            self.filters.push(row);
            proof {
                assert(self.all_words == orig.all_words);
                assert(self.pool() == orig.pool());
                assert(self.spec_filters() =~= orig.spec_filters().push(rview));
            }
        } else {
            self.filters[index] = row;
            proof {
                assert(self.all_words == orig.all_words);
                assert(self.pool() == orig.pool());
                assert(self.spec_filters() =~= orig.spec_filters().update(index as int, rview));
            }
        }
        Ok(())
    }

    /// Drops every active row; the pool is kept.
    pub fn clear_filters(&mut self)
        ensures
            final(self).pool() == old(self).pool(),
            final(self).spec_filters() == Seq::<Seq<Letter>>::empty(),
            old(self).wf() ==> final(self).wf(),
    {
        self.filters.clear();
        proof {
            assert(self.spec_filters() =~= Seq::<Seq<Letter>>::empty());
        }
    }

    /// Whether some active row rejects the word.
    fn filtered(&self, word: &String) -> (r: bool)
        requires
            self.wf(),
        ensures
            r == spec_rejected_any(self.spec_filters(), word@),
    {
        let wlen = word.unicode_len();
        let m = self.filters.len();
        let mut k: usize = 0;
        while k < m
            invariant
                k <= m,
                m == self.spec_filters().len(),
                self.wf(),
                wlen == word@.len(),
                forall|j: int|
                    0 <= j < k ==> !spec_rejected(#[trigger] self.spec_filters()[j], word@),
            decreases m - k,
        {
            let row = &self.filters[k];
            proof {
                assert(row@ == self.spec_filters()[k as int]);
            }
            if row.len() != wlen {
                proof {
                    assert(spec_rejected(self.spec_filters()[k as int], word@));
                }
                return true;
            }
            if row.filter(word) {
                proof {
                    assert(spec_rejected(self.spec_filters()[k as int], word@));
                }
                return true;
            }
            k = k + 1;
        }
        false
    }

    /// The candidate subset: pool words, in pool order, that no active row
    /// rejects.
    pub fn candidates(&self) -> (r: Vec<String>)
        requires
            self.wf(),
        ensures
            r.deep_view() == spec_candidates(self.pool(), self.spec_filters()),
    {
        let n = self.all_words.len();
        let mut out: Vec<String> = Vec::new();
        let mut i: usize = 0;
        while i < n
            invariant
                i <= n,
                n == self.all_words@.len(),
                self.wf(),
                out.deep_view() == spec_candidates(
                    self.pool().take(i as int),
                    self.spec_filters(),
                ),
            decreases n - i,
        {
            let word = &self.all_words[i];
            proof {
                assert(self.pool()[i as int] == word@);
                assert(self.pool().take(i as int + 1).drop_last() =~= self.pool().take(i as int));
                assert(self.pool().take(i as int + 1).last() == word@);
            }
            if !self.filtered(word) {
                out.push(word.clone());
                proof {
                    assert(out.deep_view() =~= spec_candidates(
                        self.pool().take(i as int + 1),
                        self.spec_filters(),
                    ));
                }
            } else {
                proof {
                    assert(out.deep_view() =~= spec_candidates(
                        self.pool().take(i as int + 1),
                        self.spec_filters(),
                    ));
                }
            }
            i = i + 1;
        }
        proof {
            assert(self.pool().take(n as int) =~= self.pool());
        }
        out
    }

    /// Proposes the next guess: the candidate with the highest frequency
    /// score, the earliest such candidate in pool order on a tie. Returns the
    /// empty string when no candidate scores above zero — in particular on an
    /// empty pool and when the filters reject every pool word.
    pub fn guess(&mut self) -> (r: String)
        requires
            old(self).wf(),
        ensures
            *final(self) == *old(self),
            ({
                let cands = spec_candidates(old(self).pool(), old(self).spec_filters());
                &&& no_positive_score(cands) ==> r@ == Seq::<char>::empty()
                &&& !no_positive_score(cands) ==> exists|k: int|
                    #[trigger] is_first_best(cands, k) && r@ == cands[k]
                &&& old(self).pool().len() == 0 ==> r@ == Seq::<char>::empty()
                &&& r@ == Seq::<char>::empty() || old(self).pool().contains(r@)
                &&& r@.len() <= MAX_LETTERS
            }),
    {
        let cands = self.candidates();
        let ghost cseq = cands.deep_view();
        proof {
            lemma_candidates_in_pool(self.pool(), self.spec_filters());
            assert forall|j: int| 0 <= j < cseq.len() implies (#[trigger] cseq[j]).len()
                <= MAX_LETTERS by {
                assert(self.pool().contains(cseq[j]));
                let idx = choose|idx: int|
                    0 <= idx < self.pool().len() && self.pool()[idx] == cseq[j];
                assert(self.pool()[idx].len() <= MAX_LETTERS);
            }
        }
        let n = cands.len();
        let mut probability = LetterProbability::default();
        let mut i: usize = 0;
        while i < n
            invariant
                i <= n,
                n == cands@.len(),
                cseq == cands.deep_view(),
                forall|j: int| 0 <= j < cseq.len() ==> (#[trigger] cseq[j]).len() <= MAX_LETTERS,
                probability.wf(),
                probability.spec_word_count() == i,
                forall|p: int, c: char|
                    0 <= p < MAX_LETTERS ==> #[trigger] probability.spec_count(p, c)
                        == table_count(cseq.take(i as int), p, c),
            decreases n - i,
        {
            let ghost pre = probability;
            proof {
                assert(cands@[i as int]@ == cseq[i as int]);
            }
            probability.add_word(&cands[i]);
            proof {
                assert(cseq.take(i as int + 1).drop_last() =~= cseq.take(i as int));
                assert(cseq.take(i as int + 1).last() == cseq[i as int]);
                assert forall|p: int, c: char|
                    0 <= p < MAX_LETTERS implies #[trigger] probability.spec_count(p, c)
                    == table_count(cseq.take(i as int + 1), p, c) by {
                    assert(probability.spec_count(p, c) == pre.spec_count(p, c) + (if p
                        < cseq[i as int].len() && c == spec_lower_char(cseq[i as int][p]) {
                        1int
                    } else {
                        0int
                    }));
                }
            }
            i = i + 1;
        }
        proof {
            assert(cseq.take(n as int) =~= cseq);
        }
        let mut guessed: String = String::new();
        let mut best: u128 = 0;
        let ghost mut best_idx: int = 0;
        let mut i: usize = 0;
        while i < n
            invariant
                i <= n,
                n == cands@.len(),
                cseq == cands.deep_view(),
                forall|j: int| 0 <= j < cseq.len() ==> (#[trigger] cseq[j]).len() <= MAX_LETTERS,
                probability.wf(),
                forall|p: int, c: char|
                    0 <= p < MAX_LETTERS ==> #[trigger] probability.spec_count(p, c) == table_count(
                        cseq,
                        p,
                        c,
                    ),
                best == 0 ==> guessed@ == Seq::<char>::empty(),
                best == 0 ==> forall|j: int|
                    0 <= j < i ==> cand_score(cseq, #[trigger] cseq[j]) == 0,
                best > 0 ==> 0 <= best_idx < i && cseq[best_idx] == guessed@ && best == cand_score(
                    cseq,
                    cseq[best_idx],
                ),
                best > 0 ==> forall|j: int|
                    0 <= j < i ==> cand_score(cseq, #[trigger] cseq[j]) <= best,
                best > 0 ==> forall|j: int|
                    0 <= j < best_idx ==> cand_score(cseq, #[trigger] cseq[j]) < best,
            decreases n - i,
        {
            proof {
                assert(cands@[i as int]@ == cseq[i as int]);
            }
            let score = probability.score_word(&cands[i]);
            proof {
                lemma_score_eq(&probability, cseq, cseq[i as int]);
            }
            if score > best {
                best = score;
                guessed = cands[i].clone();
                proof {
                    best_idx = i as int;
                }
            }
            i = i + 1;
        }
        proof {
            assert(cseq == spec_candidates(self.pool(), self.spec_filters()));
            if best == 0 {
                assert(no_positive_score(cseq));
            } else {
                assert(is_first_best(cseq, best_idx));
                assert(!no_positive_score(cseq)) by {
                    assert(cand_score(cseq, cseq[best_idx]) != 0);
                }
                assert(self.pool().contains(guessed@));
                let idx = choose|idx: int|
                    0 <= idx < self.pool().len() && self.pool()[idx] == guessed@;
                assert(self.pool()[idx].len() <= MAX_LETTERS);
            }
            if self.pool().len() == 0 {
                assert(spec_candidates(self.pool(), self.spec_filters())
                    == Seq::<Seq<char>>::empty());
            }
        }
        guessed
    }
}

/// The filters only narrow the pool: there are never more candidates than
/// pool words, and every candidate is a pool word.
pub proof fn lemma_candidates_in_pool(pool: Seq<Seq<char>>, filters: Seq<Seq<Letter>>)
    ensures
        spec_candidates(pool, filters).len() <= pool.len(),
        forall|i: int|
            0 <= i < spec_candidates(pool, filters).len() ==> pool.contains(
                #[trigger] spec_candidates(pool, filters)[i],
            ),
    decreases pool.len(),
{
    if pool.len() > 0 {
        lemma_candidates_in_pool(pool.drop_last(), filters);
        let rest = spec_candidates(pool.drop_last(), filters);
        assert forall|i: int| 0 <= i < spec_candidates(pool, filters).len() implies pool.contains(
            #[trigger] spec_candidates(pool, filters)[i],
        ) by {
            let x = spec_candidates(pool, filters)[i];
            if i < rest.len() {
                assert(rest[i] == x);
                assert(pool.drop_last().contains(x));
                let j = choose|j: int|
                    0 <= j < pool.drop_last().len() && pool.drop_last()[j] == x;
                assert(pool[j] == x);
            } else {
                assert(x == pool.last());
                assert(pool[pool.len() - 1] == x);
            }
        }
    }
}

/// Membership in the candidate subset: a word is a candidate exactly when it
/// is a pool word that every active row is consistent with.
pub proof fn lemma_candidates_membership(pool: Seq<Seq<char>>, filters: Seq<Seq<Letter>>)
    ensures
        forall|w: Seq<char>|
            #[trigger] spec_candidates(pool, filters).contains(w) <==> pool.contains(w)
                && !spec_rejected_any(filters, w),
    decreases pool.len(),
{
    if pool.len() > 0 {
        lemma_candidates_membership(pool.drop_last(), filters);
        let prefix = pool.drop_last();
        let rest = spec_candidates(prefix, filters);
        let cands = spec_candidates(pool, filters);
        assert forall|w: Seq<char>| #[trigger] cands.contains(w) implies pool.contains(w)
            && !spec_rejected_any(filters, w) by {
            let j = choose|j: int| 0 <= j < cands.len() && cands[j] == w;
            if j < rest.len() {
                assert(rest[j] == w);
                assert(rest.contains(w));
                let i = choose|i: int| 0 <= i < prefix.len() && prefix[i] == w;
                assert(pool[i] == w);
            } else {
                assert(w == pool.last());
                assert(pool[pool.len() - 1] == w);
            }
        }
        assert forall|w: Seq<char>|
            pool.contains(w) && !spec_rejected_any(filters, w) implies #[trigger] cands.contains(
            w,
        ) by {
            let i = choose|i: int| 0 <= i < pool.len() && pool[i] == w;
            if i < pool.len() - 1 {
                assert(prefix[i] == w);
                assert(prefix.contains(w));
                assert(rest.contains(w));
                let j = choose|j: int| 0 <= j < rest.len() && rest[j] == w;
                assert(cands[j] == w);
            } else {
                assert(w == pool.last());
                assert(cands[cands.len() - 1] == w);
            }
        }
    }
}

/// Monotonic shrinkage: submitting one more constraint row never grows the
/// candidate subset — every word passing the extended filters passes the old
/// ones, so the subset's size never rises.
pub proof fn lemma_candidates_monotonic(
    pool: Seq<Seq<char>>,
    filters: Seq<Seq<Letter>>,
    row: Seq<Letter>,
)
    ensures
        spec_candidates(pool, filters.push(row)).len() <= spec_candidates(pool, filters).len(),
        forall|w: Seq<char>|
            #[trigger] spec_candidates(pool, filters.push(row)).contains(w) ==> spec_candidates(
                pool,
                filters,
            ).contains(w),
    decreases pool.len(),
{
    let f2 = filters.push(row);
    let c1 = spec_candidates(pool, filters);
    let c2 = spec_candidates(pool, f2);
    if pool.len() == 0 {
    } else {
        lemma_candidates_monotonic(pool.drop_last(), filters, row);
        let rest1 = spec_candidates(pool.drop_last(), filters);
        let rest2 = spec_candidates(pool.drop_last(), f2);
        let last = pool.last();
        if spec_rejected_any(filters, last) {
            let i = choose|i: int|
                0 <= i < filters.len() && spec_rejected(#[trigger] filters[i], last);
            assert(f2[i] == filters[i]);
            assert(spec_rejected_any(f2, last));
        }
        assert forall|w: Seq<char>| #[trigger] c2.contains(w) implies c1.contains(w) by {
            let j = choose|j: int| 0 <= j < c2.len() && c2[j] == w;
            if j < rest2.len() {
                assert(rest2[j] == w);
                assert(rest2.contains(w));
                assert(rest1.contains(w));
                if !spec_rejected_any(filters, last) {
                    let k = choose|k: int| 0 <= k < rest1.len() && rest1[k] == w;
                    assert(c1[k] == w);
                } else {
                    assert(c1 == rest1);
                }
            } else {
                assert(w == last);
                assert(!spec_rejected_any(f2, last));
                assert(!spec_rejected_any(filters, last));
                assert(c1[c1.len() - 1] == last);
            }
        }
    }
}

/// Transfers the frequency table's partial sums from an executable table to
/// the candidates' specification-level table.
proof fn lemma_sum_transfer(
    prob: &LetterProbability,
    cands: Seq<Seq<char>>,
    w: Seq<char>,
    n: int,
)
    requires
        w.len() <= MAX_LETTERS,
        0 <= n <= w.len(),
        forall|p: int, c: char|
            0 <= p < MAX_LETTERS ==> #[trigger] prob.spec_count(p, c) == table_count(cands, p, c),
    ensures
        prob.spec_sum(w, n) == cand_sum(cands, w, n),
    decreases n,
{
    if n > 0 {
        lemma_sum_transfer(prob, cands, w, n - 1);
    }
}

/// Helper for `lemma_all_correct_row`: when the filters reject exactly the
/// words other than `w`, the candidates are the pool's occurrences of `w` —
/// one for a duplicate-free pool that holds `w`, none for one that does not.
proof fn lemma_pin_helper(pool: Seq<Seq<char>>, f2: Seq<Seq<Letter>>, w: Seq<char>)
    requires
        forall|x: Seq<char>| #[trigger] spec_rejected_any(f2, x) <==> x != w,
        forall|i: int, j: int|
            0 <= i < j < pool.len() ==> #[trigger] pool[i] != #[trigger] pool[j],
    ensures
        pool.contains(w) ==> spec_candidates(pool, f2) =~= seq![w],
        !pool.contains(w) ==> spec_candidates(pool, f2) =~= Seq::<Seq<char>>::empty(),
    decreases pool.len(),
{
    if pool.len() > 0 {
        let prefix = pool.drop_last();
        assert(forall|i: int, j: int|
            0 <= i < j < prefix.len() ==> #[trigger] prefix[i] != #[trigger] prefix[j]) by {
            assert(forall|i: int| 0 <= i < prefix.len() ==> #[trigger] prefix[i] == pool[i]);
        }
        lemma_pin_helper(prefix, f2, w);
        if pool.last() == w {
            assert(!prefix.contains(w)) by {
                if prefix.contains(w) {
                    let i = choose|i: int| 0 <= i < prefix.len() && prefix[i] == w;
                    assert(pool[i] == w && pool[pool.len() - 1] == w);
                }
            }
            assert(!spec_rejected_any(f2, pool.last()));
            assert(pool.contains(w)) by {
                assert(pool[pool.len() - 1] == w);
            }
        } else {
            assert(spec_rejected_any(f2, pool.last()));
            assert(pool.contains(w) <==> prefix.contains(w)) by {
                if pool.contains(w) {
                    let i = choose|i: int| 0 <= i < pool.len() && pool[i] == w;
                    assert(i < prefix.len());
                    assert(prefix[i] == w);
                }
                if prefix.contains(w) {
                    let i = choose|i: int| 0 <= i < prefix.len() && prefix[i] == w;
                    assert(pool[i] == w);
                }
            }
        }
    }
}

/// An all-Correct row naming the word `w` pins the candidate subset to
/// exactly `w`: submitted on top of filters that let `w` through, over a
/// duplicate-free pool holding `w`, it leaves `w` as the only candidate.
pub proof fn lemma_all_correct_row(
    pool: Seq<Seq<char>>,
    filters: Seq<Seq<Letter>>,
    row: Seq<Letter>,
    w: Seq<char>,
)
    requires
        forall|i: int, j: int|
            0 <= i < j < pool.len() ==> #[trigger] pool[i] != #[trigger] pool[j],
        row.len() == MAX_LETTERS,
        w.len() == MAX_LETTERS,
        forall|i: int|
            0 <= i < row.len() ==> (#[trigger] row[i]).state == LetterState::Correct
                && row[i].value == w[i],
        pool.contains(w),
        !spec_rejected_any(filters, w),
    ensures
        spec_candidates(pool, filters.push(row)) =~= seq![w],
{
    let f2 = filters.push(row);
    assert forall|x: Seq<char>| #[trigger] spec_rejected_any(f2, x) <==> x != w by {
        if x == w {
            assert(!row_rejects(row, w)) by {
                assert forall|i: int|
                    0 <= i < row.len() implies !cell_rejects(row, w, i) by {
                    assert(row[i].state == LetterState::Correct);
                }
            }
            assert(!spec_rejected(row, w));
            if spec_rejected_any(f2, w) {
                let i = choose|i: int|
                    0 <= i < f2.len() && spec_rejected(#[trigger] f2[i], w);
                if i < filters.len() {
                    assert(f2[i] == filters[i]);
                    assert(spec_rejected_any(filters, w));
                } else {
                    assert(f2[i] == row);
                }
            }
        } else {
            assert(spec_rejected(row, x)) by {
                if x.len() == row.len() {
                    assert(exists|i: int| 0 <= i < w.len() && #[trigger] x[i] != w[i]) by {
                        if forall|i: int| 0 <= i < w.len() ==> #[trigger] x[i] == w[i] {
                            assert(x =~= w);
                        }
                    }
                    let i = choose|i: int| 0 <= i < w.len() && #[trigger] x[i] != w[i];
                    assert(cell_rejects(row, x, i));
                    assert(row_rejects(row, x));
                }
            }
            assert(f2[filters.len() as int] == row);
            assert(spec_rejected_any(f2, x));
        }
    }
    lemma_pin_helper(pool, f2, w);
}

/// A table built from exactly the candidate words scores every word the way
/// the candidates' specification-level table does.
proof fn lemma_score_eq(prob: &LetterProbability, cands: Seq<Seq<char>>, w: Seq<char>)
    requires
        w.len() <= MAX_LETTERS,
        forall|p: int, c: char|
            0 <= p < MAX_LETTERS ==> #[trigger] prob.spec_count(p, c) == table_count(cands, p, c),
    ensures
        prob.spec_score(w) == cand_score(cands, w),
{
    if prob.has_absent(w) {
        let i = choose|i: int| 0 <= i < w.len() && prob.spec_count(i, w[i]) == 0;
        assert(table_count(cands, i, w[i]) == 0);
        assert(cand_has_absent(cands, w));
    } else if cand_has_absent(cands, w) {
        let i = choose|i: int| 0 <= i < w.len() && table_count(cands, i, w[i]) == 0;
        assert(prob.spec_count(i, w[i]) == 0);
        assert(prob.has_absent(w));
    } else {
        lemma_sum_transfer(prob, cands, w, w.len() as int);
    }
}

impl Default for Statistics {
    /// A fresh engine: empty pool, no active rows.
    fn default() -> (r: Self)
        ensures
            r.wf(),
            r.pool() == Seq::<Seq<char>>::empty(),
            r.spec_filters() == Seq::<Seq<Letter>>::empty(),
    {
        let r = Statistics { all_words: Vec::new(), filters: Vec::new() };
        proof {
            assert(r.pool() =~= Seq::<Seq<char>>::empty());
            assert(r.spec_filters() =~= Seq::<Seq<Letter>>::empty());
        }
        r
    }
}

/// Whether the pool already holds a word with the same characters.
fn pool_contains(words: &Vec<String>, w: &String) -> (r: bool)
    ensures
        r == exists|i: int| 0 <= i < words@.len() && (#[trigger] words@[i])@ == w@,
{
    let n = words.len();
    let mut i: usize = 0;
    while i < n
        invariant
            i <= n,
            n == words@.len(),
            forall|j: int| 0 <= j < i ==> (#[trigger] words@[j])@ != w@,
        decreases n - i,
    {
        if words[i].eq(w) {
            return true;
        }
        i = i + 1;
    }
    false
}

} // verus!
