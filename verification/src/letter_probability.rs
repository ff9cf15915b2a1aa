//! Positional letter-occurrence statistics over a set of words, and the
//! frequency-based score that ranks candidate guesses.

use vstd::prelude::*;
use crate::text::{lower_char, spec_lower_char};
use crate::word::MAX_LETTERS;

verus! {

/// The count recorded for `c` in one position's table; 0 when `c` is absent.
pub open spec fn entry_count(entries: Seq<(char, u64)>, c: char) -> nat
    decreases entries.len(),
{
    if entries.len() == 0 {
        0
    } else if entries.last().0 == c {
        entries.last().1 as nat
    } else {
        entry_count(entries.drop_last(), c)
    }
}

/// Each letter appears at most once in the table.
pub open spec fn entries_distinct(entries: Seq<(char, u64)>) -> bool {
    forall|i: int, j: int|
        0 <= i < j < entries.len() ==> (#[trigger] entries[i]).0 != (#[trigger] entries[j]).0
}

/// Distinct keys, and every recorded count lies between 1 and `bound`.
pub open spec fn entries_wf(entries: Seq<(char, u64)>, bound: nat) -> bool {
    &&& entries_distinct(entries)
    &&& forall|i: int|
        0 <= i < entries.len() ==> 1 <= (#[trigger] entries[i]).1 && entries[i].1 as nat <= bound
}

/// A key that never occurs in the table has count 0.
proof fn lemma_absent_key_count_zero(entries: Seq<(char, u64)>, c: char)
    requires
        forall|i: int| 0 <= i < entries.len() ==> (#[trigger] entries[i]).0 != c,
    ensures
        entry_count(entries, c) == 0,
    decreases entries.len(),
{
    if entries.len() > 0 {
        lemma_absent_key_count_zero(entries.drop_last(), c);
    }
}

/// With distinct keys, the count looked up for a present key is its entry.
proof fn lemma_present_key_count(entries: Seq<(char, u64)>, k: int)
    requires
        entries_distinct(entries),
        0 <= k < entries.len(),
    ensures
        entry_count(entries, entries[k].0) == entries[k].1 as nat,
    decreases entries.len(),
{
    if k == entries.len() - 1 {
        assert(entries.last() == entries[k]);
    } else {
        assert(entries.last().0 != entries[k].0);
        lemma_present_key_count(entries.drop_last(), k);
    }
}

/// Raising exactly the entries keyed `lc` by one raises the looked-up count
/// of `lc` by one (when present) and leaves every other count unchanged.
proof fn lemma_count_after_bump(a: Seq<(char, u64)>, b: Seq<(char, u64)>, lc: char, c: char)
    requires
        b.len() == a.len(),
        forall|i: int|
            0 <= i < a.len() ==> (#[trigger] b[i]).0 == (#[trigger] a[i]).0 && b[i].1 == a[i].1 + (
            if a[i].0 == lc {
                1int
            } else {
                0int
            }),
    ensures
        c == lc ==> entry_count(b, c) == entry_count(a, c) + (if exists|i: int|
            0 <= i < a.len() && (#[trigger] a[i]).0 == lc {
            1int
        } else {
            0int
        }),
        c != lc ==> entry_count(b, c) == entry_count(a, c),
    decreases a.len(),
{
    if a.len() > 0 {
        assert(b.drop_last().len() == a.drop_last().len());
        assert(forall|i: int|
            0 <= i < a.drop_last().len() ==> (#[trigger] b.drop_last()[i]) == b[i] && (
            #[trigger] a.drop_last()[i]) == a[i]);
        lemma_count_after_bump(a.drop_last(), b.drop_last(), lc, c);
        if c == lc {
            if a.last().0 == lc {
                assert(exists|i: int| 0 <= i < a.len() && (#[trigger] a[i]).0 == lc) by {
                    assert(a[a.len() - 1].0 == lc);
                }
            } else {
                assert((exists|i: int| 0 <= i < a.drop_last().len() && (#[trigger] a.drop_last()[i]).0 == lc)
                    <==> (exists|i: int| 0 <= i < a.len() && (#[trigger] a[i]).0 == lc)) by {
                    if exists|i: int| 0 <= i < a.len() && (#[trigger] a[i]).0 == lc {
                        let i = choose|i: int| 0 <= i < a.len() && (#[trigger] a[i]).0 == lc;
                        assert(i < a.len() - 1);
                        assert(a.drop_last()[i].0 == lc);
                    }
                    if exists|i: int| 0 <= i < a.drop_last().len() && (#[trigger] a.drop_last()[i]).0 == lc {
                        let i = choose|i: int|
                            0 <= i < a.drop_last().len() && (#[trigger] a.drop_last()[i]).0 == lc;
                        assert(a[i].0 == lc);
                    }
                }
            }
        }
    }
}

/// Positional letter-occurrence statistics: for each of the `MAX_LETTERS`
/// positions, how often each letter occurs there across the words added so
/// far, plus the number of words added.
#[derive(Debug)]
pub struct LetterProbability {
    counts: Vec<Vec<(char, u64)>>,
    word_count: usize,
}

impl LetterProbability {
    /// Table well-formedness: one table per position; in each table a letter
    /// appears at most once, counted between 1 and the number of words added.
    pub closed spec fn wf(&self) -> bool {
        &&& self.counts@.len() == MAX_LETTERS
        &&& forall|p: int|
            0 <= p < MAX_LETTERS ==> entries_wf(
                (#[trigger] self.counts@[p])@,
                self.word_count as nat,
            )
    }

    /// Number of words added so far.
    pub closed spec fn spec_word_count(&self) -> nat {
        self.word_count as nat
    }

    /// Occurrences recorded for `c` at position `p`.
    pub closed spec fn spec_count(&self, p: int, c: char) -> nat
        recommends
            0 <= p < MAX_LETTERS,
    {
        entry_count(self.counts@[p]@, c)
    }

    /// Partial sum of the counts of `w`'s first `n` letters, each at its own
    /// position.
    pub open spec fn spec_sum(&self, w: Seq<char>, n: int) -> nat
        decreases n,
    {
        if n <= 0 {
            0
        } else {
            self.spec_sum(w, n - 1) + self.spec_count(n - 1, w[n - 1])
        }
    }

    /// Some position of `w` carries a letter absent from the table there.
    pub open spec fn has_absent(&self, w: Seq<char>) -> bool {
        exists|i: int| 0 <= i < w.len() && self.spec_count(i, w[i]) == 0
    }

    /// The ranking score of `w`: 0 when any position's letter is absent from
    /// the table at that position, else the sum over all positions of the
    /// count of `w`'s letter there. The fractional frequency score is this
    /// sum divided by the number of words added; the division is left to the
    /// caller, as it never changes the ranking.
    pub open spec fn spec_score(&self, w: Seq<char>) -> nat {
        if self.has_absent(w) {
            0
        } else {
            self.spec_sum(w, w.len() as int)
        }
    }

    /// Number of words added so far.
    pub fn word_count(&self) -> (r: usize)
        ensures
            r == self.spec_word_count(),
    {
        self.word_count
    }

    /// Number of letter positions the table tracks.
    pub fn position_count(&self) -> (r: usize)
        requires
            self.wf(),
        ensures
            r == MAX_LETTERS,
    {
        self.counts.len()
    }

    /// The count recorded for `letter` at `position`, `None` when absent.
    pub fn count(&self, position: usize, letter: char) -> (r: Option<u64>)
        requires
            self.wf(),
            position < MAX_LETTERS,
        ensures
            match r {
                Some(v) => v == self.spec_count(position as int, letter) && v >= 1,
                None => self.spec_count(position as int, letter) == 0,
            },
    {
        lookup(&self.counts[position], letter)
    }

    /// Tallies one word into the table: each letter, lower-cased, counts once
    /// at its position; the word count rises by one.
    pub fn add_word(&mut self, word: &String)
        requires
            old(self).wf(),
            word@.len() <= MAX_LETTERS,
            old(self).spec_word_count() < usize::MAX,
        ensures
            final(self).wf(),
            final(self).spec_word_count() == old(self).spec_word_count() + 1,
            forall|p: int, c: char|
                0 <= p < MAX_LETTERS ==> final(self).spec_count(p, c) == old(self).spec_count(p, c)
                    + (if p < word@.len() && c == spec_lower_char(word@[p]) {
                    1int
                } else {
                    0int
                }),
    {
        let ghost orig = *self;
        self.word_count = self.word_count + 1;
        let n = word.unicode_len();
        let mut index: usize = 0;
        while index < n
            invariant
                index <= n,
                n == word@.len(),
                n <= MAX_LETTERS,
                self.counts@.len() == MAX_LETTERS,
                orig.wf(),
                self.word_count == orig.spec_word_count() + 1,
                orig.spec_word_count() < usize::MAX,
                forall|p: int|
                    0 <= p < MAX_LETTERS ==> entries_wf(
                        (#[trigger] self.counts@[p])@,
                        self.word_count as nat,
                    ),
                forall|p: int, c: char|
                    0 <= p < MAX_LETTERS ==> #[trigger] entry_count(self.counts@[p]@, c)
                        == orig.spec_count(p, c) + (if p < index && c == spec_lower_char(
                        word@[p],
                    ) {
                        1int
                    } else {
                        0int
                    }),
                forall|p: int, i: int|
                    index <= p < MAX_LETTERS && 0 <= i < self.counts@[p]@.len() ==> (
                    #[trigger] self.counts@[p]@[i]).1 < self.word_count,
            decreases n - index,
        {
            let ghost pre = *self;
            let ghost wc = self.word_count as nat;
            let letter = word.get_char(index);
            proof {
                assert(entries_wf(pre.counts@[index as int]@, wc));
            }
            self.add_letter(letter, index, Ghost((wc - 1) as nat));
            proof {
                assert forall|p: int|
                    0 <= p < MAX_LETTERS implies entries_wf(
                    (#[trigger] self.counts@[p])@,
                    self.word_count as nat,
                ) by {
                    if p != index {
                        assert(self.counts@[p] == pre.counts@[p]);
                        assert(entries_wf(pre.counts@[p]@, wc));
                    }
                }
                assert forall|p: int, c: char| 0 <= p < MAX_LETTERS implies #[trigger] entry_count(
                    self.counts@[p]@,
                    c,
                ) == orig.spec_count(p, c) + (if p < index + 1 && c == spec_lower_char(word@[p]) {
                    1int
                } else {
                    0int
                }) by {
                    if p == index {
                        assert(entry_count(self.counts@[p]@, c) == entry_count(pre.counts@[p]@, c)
                            + (if c == spec_lower_char(letter) {
                            1int
                        } else {
                            0int
                        }));
                    } else {
                        assert(self.counts@[p] == pre.counts@[p]);
                    }
                }
                assert forall|p: int, i: int|
                    index + 1 <= p < MAX_LETTERS && 0 <= i < self.counts@[p]@.len() implies (
                #[trigger] self.counts@[p]@[i]).1 < self.word_count by {
                    assert(self.counts@[p] == pre.counts@[p]);
                }
            }
            index = index + 1;
        }
    }

    /// Records one lower-cased occurrence of `letter` at `index`; `bound`
    /// names an upper bound on the counts already recorded there.
    fn add_letter(&mut self, letter: char, index: usize, Ghost(bound): Ghost<nat>)
        requires
            index < old(self).counts@.len(),
            entries_distinct(old(self).counts@[index as int]@),
            forall|i: int|
                0 <= i < old(self).counts@[index as int]@.len() ==> 1 <= (#[trigger] old(
                    self,
                ).counts@[index as int]@[i]).1 && (old(self).counts@[index as int]@[i]).1 as nat
                    <= bound,
            bound < u64::MAX,
        ensures
            final(self).word_count == old(self).word_count,
            final(self).counts@.len() == old(self).counts@.len(),
            forall|p: int|
                0 <= p < old(self).counts@.len() && p != index ==> final(self).counts@[p] == old(
                    self,
                ).counts@[p],
            entries_distinct(final(self).counts@[index as int]@),
            forall|c: char|
                #[trigger] entry_count(final(self).counts@[index as int]@, c) == entry_count(
                    old(self).counts@[index as int]@,
                    c,
                ) + (if c == spec_lower_char(letter) {
                    1int
                } else {
                    0int
                }),
            forall|i: int|
                0 <= i < final(self).counts@[index as int]@.len() ==> 1 <= (
                #[trigger] final(self).counts@[index as int]@[i]).1
                    && (final(self).counts@[index as int]@[i]).1 as nat <= bound + 1,
    {
        let lc = lower_char(letter);
        let ghost before = self.counts@[index as int]@;
        let m = self.counts[index].len();
        let mut updated: Vec<(char, u64)> = Vec::new();
        let mut found = false;
        let mut k: usize = 0;
        while k < m
            invariant
                k <= m,
                m == before.len(),
                index < self.counts@.len(),
                before == self.counts@[index as int]@,
                entries_distinct(before),
                bound < u64::MAX,
                forall|i: int|
                    0 <= i < before.len() ==> 1 <= (#[trigger] before[i]).1 && before[i].1 as nat
                        <= bound,
                updated@.len() == k,
                forall|i: int|
                    0 <= i < k ==> (#[trigger] updated@[i]).0 == (#[trigger] before[i]).0
                        && updated@[i].1 == before[i].1 + (if before[i].0 == lc {
                        1int
                    } else {
                        0int
                    }),
                found <==> exists|i: int| 0 <= i < k && (#[trigger] before[i]).0 == lc,
            decreases m - k,
        {
            let (ch, v) = self.counts[index][k];
            if ch == lc {
                updated.push((ch, v + 1));
                found = true;
                proof {
                    assert(before[k as int].0 == lc);
                }
            } else {
                updated.push((ch, v));
            }
            k = k + 1;
        }
        if !found {
            updated.push((lc, 1u64));
        }
        proof {
            if found {
                assert forall|c: char|
                    entry_count(updated@, c) == entry_count(before, c) + (if c == lc {
                        1int
                    } else {
                        0int
                    }) by {
                    lemma_count_after_bump(before, updated@, lc, c);
                }
                assert(entries_distinct(updated@)) by {
                    assert forall|i: int, j: int|
                        0 <= i < j < updated@.len() implies (#[trigger] updated@[i]).0 != (
                    #[trigger] updated@[j]).0 by {
                        assert(updated@[i].0 == before[i].0);
                        assert(updated@[j].0 == before[j].0);
                    }
                }
            } else {
                let prefix = updated@.drop_last();
                assert(prefix =~= before);
                assert(updated@.last() == (lc, 1u64));
                assert forall|c: char|
                    entry_count(updated@, c) == entry_count(before, c) + (if c == lc {
                        1int
                    } else {
                        0int
                    }) by {
                    if c == lc {
                        lemma_absent_key_count_zero(before, lc);
                        assert(entry_count(updated@, lc) == 1);
                    } else {
                        assert(entry_count(updated@, c) == entry_count(prefix, c));
                    }
                }
                assert(entries_distinct(updated@)) by {
                    assert(forall|i: int|
                        0 <= i < before.len() ==> (#[trigger] updated@[i]).0 == before[i].0);
                }
            }
            assert forall|i: int|
                0 <= i < updated@.len() implies 1 <= (#[trigger] updated@[i]).1 && updated@[i].1
                as nat <= bound + 1 by {
                if i < before.len() {
                    assert(1 <= before[i].1 && before[i].1 as nat <= bound);
                } else {
                    assert(updated@[i] == (lc, 1u64));
                }
            }
        }
        self.counts[index] = updated;
    }

    /// Scores `word` against the table: the sum over its positions of the
    /// recorded count of its letter there, or 0 as soon as one position's
    /// letter is absent. The caller divides by the word count to obtain the
    /// fractional frequency score.
    pub fn score_word(&self, word: &String) -> (r: u128)
        requires
            self.wf(),
            word@.len() <= MAX_LETTERS,
        ensures
            r == self.spec_score(word@),
    {
        let n = word.unicode_len();
        let mut sum: u128 = 0;
        let mut i: usize = 0;
        while i < n
            invariant
                i <= n,
                n == word@.len(),
                n <= MAX_LETTERS,
                self.wf(),
                forall|j: int| 0 <= j < i ==> self.spec_count(j, word@[j]) != 0,
                sum == self.spec_sum(word@, i as int),
                sum <= (i as u128) * 0xffff_ffff_ffff_ffffu128,
            decreases n - i,
        {
            let c = word.get_char(i);
            let looked = lookup(&self.counts[i], c);
            match looked {
                None => {
                    proof {
                        assert(self.has_absent(word@));
                    }
                    return 0;
                },
                Some(v) => {
                    sum = sum + (v as u128);
                },
            }
            i = i + 1;
        }
        proof {
            assert(!self.has_absent(word@));
        }
        sum
    }
}

impl Default for LetterProbability {
    /// An empty table: no words added, every count 0.
    fn default() -> (r: Self)
        ensures
            r.wf(),
            r.spec_word_count() == 0,
            forall|p: int, c: char| 0 <= p < MAX_LETTERS ==> r.spec_count(p, c) == 0,
    {
        let mut counts: Vec<Vec<(char, u64)>> = Vec::new();
        let mut p: usize = 0;
        while p < MAX_LETTERS
            invariant
                p <= MAX_LETTERS,
                counts@.len() == p,
                forall|i: int| 0 <= i < p ==> (#[trigger] counts@[i])@.len() == 0,
            decreases MAX_LETTERS - p,
        {
            counts.push(Vec::new());
            p = p + 1;
        }
        LetterProbability { counts, word_count: 0 }
    }
}

/// A word whose letter at some position is absent from the frequency table
/// at that position scores 0, whatever the other positions hold.
pub proof fn lemma_score_zero_when_absent(prob: &LetterProbability, w: Seq<char>, i: int)
    requires
        0 <= i < w.len(),
        prob.spec_count(i, w[i]) == 0,
    ensures
        prob.spec_score(w) == 0,
{
    assert(prob.has_absent(w));
}

/// Looks `c` up in one position's table.
fn lookup(entries: &Vec<(char, u64)>, c: char) -> (r: Option<u64>)
    requires
        entries_distinct(entries@),
    ensures
        match r {
            Some(v) => v == entry_count(entries@, c) && (exists|i: int|
                0 <= i < entries@.len() && (#[trigger] entries@[i]).0 == c && entries@[i].1 == v),
            None => entry_count(entries@, c) == 0,
        },
{
    let m = entries.len();
    let mut k: usize = 0;
    while k < m
        invariant
            k <= m,
            m == entries@.len(),
            entries_distinct(entries@),
            forall|i: int| 0 <= i < k ==> (#[trigger] entries@[i]).0 != c,
        decreases m - k,
    {
        let (ch, v) = entries[k];
        if ch == c {
            proof {
                lemma_present_key_count(entries@, k as int);
            }
            return Some(v);
        }
        k = k + 1;
    }
    proof {
        lemma_absent_key_count_zero(entries@, c);
    }
    None
}

} // verus!
