//! Verified helpers over characters and strings: ASCII lower-casing and
//! conversion between strings and character vectors.

use vstd::prelude::*;

verus! {

/// Relies on std's `String::push`: appends exactly the given character to
/// the end of the string.
pub assume_specification[ String::push ](s: &mut String, c: char)
    ensures
        final(s)@ == old(s)@.push(c),
;

/// ASCII lower-casing of one character: 'A'..'Z' map to 'a'..'z', every
/// other character is unchanged.
pub open spec fn spec_lower_char(c: char) -> char {
    if 'A' <= c && c <= 'Z' {
        (c as u8 + 32) as char
    } else {
        c
    }
}

/// ASCII lower-casing of a character sequence, position by position.
pub open spec fn spec_lower(s: Seq<char>) -> Seq<char> {
    s.map_values(|c: char| spec_lower_char(c))
}

/// Lower-cases one character.
pub fn lower_char(c: char) -> (r: char)
    ensures
        r == spec_lower_char(c),
{
    if 'A' <= c && c <= 'Z' {
        (c as u8 + 32) as char
    } else {
        c
    }
}

/// Returns the ASCII-lowercased copy of a string.
pub fn lower_string(s: &str) -> (r: String)
    ensures
        r@ == spec_lower(s@),
{
    let n = s.unicode_len();
    let mut r = String::new();
    let mut i: usize = 0;
    while i < n
        invariant
            i <= n,
            n == s@.len(),
            r@ == spec_lower(s@.take(i as int)),
        decreases n - i,
    {
        let c = s.get_char(i);
        r.push(lower_char(c));
        i = i + 1;
        proof {
            assert(spec_lower(s@.take(i as int)) =~= spec_lower(
                s@.take(i - 1),
            ).push(spec_lower_char(s@[i - 1])));
        }
    }
    proof {
        assert(s@.take(n as int) =~= s@);
    }
    r
}

/// Index of the first line break in `s`, or -1 when there is none.
pub open spec fn newline_at(s: Seq<char>) -> int
    decreases s.len(),
{
    if s.len() == 0 {
        -1
    } else if s[0] == '\n' {
        0
    } else {
        let r = newline_at(s.drop_first());
        if r < 0 {
            -1
        } else {
            r + 1
        }
    }
}

/// The first line break is within the text.
pub proof fn lemma_newline_at_range(s: Seq<char>)
    ensures
        newline_at(s) == -1 || (0 <= newline_at(s) < s.len() && s[newline_at(s)] == '\n'),
    decreases s.len(),
{
    if s.len() > 0 && s[0] != '\n' {
        lemma_newline_at_range(s.drop_first());
    }
}

/// A position with a line break and none before it is the first line break.
pub proof fn lemma_newline_at_is(s: Seq<char>, i: int)
    requires
        0 <= i < s.len(),
        s[i] == '\n',
        forall|j: int| 0 <= j < i ==> s[j] != '\n',
    ensures
        newline_at(s) == i,
    decreases i,
{
    if i > 0 {
        lemma_newline_at_is(s.drop_first(), i - 1);
    }
}

/// A text without line breaks has no first line break.
pub proof fn lemma_newline_at_none(s: Seq<char>)
    requires
        forall|j: int| 0 <= j < s.len() ==> s[j] != '\n',
    ensures
        newline_at(s) == -1,
    decreases s.len(),
{
    if s.len() > 0 {
        lemma_newline_at_none(s.drop_first());
    }
}

/// The lines of a text: the pieces between line breaks, in order. A text
/// without a line break is one line; each line break ends a line.
pub open spec fn spec_lines(s: Seq<char>) -> Seq<Seq<char>>
    decreases s.len(),
{
    let i = newline_at(s);
    if i < 0 {
        seq![s]
    } else if i < s.len() {
        seq![s.take(i)] + spec_lines(s.skip(i + 1))
    } else {
        seq![s]
    }
}

/// Splits a string at its line breaks.
pub fn split_lines(s: &str) -> (r: Vec<String>)
    ensures
        r.deep_view() == spec_lines(s@),
{
    let n = s.unicode_len();
    let mut r: Vec<String> = Vec::new();
    let mut start: usize = 0;
    let mut i: usize = 0;
    proof {
        assert(s@.skip(0) =~= s@);
        assert(r.deep_view() =~= Seq::<Seq<char>>::empty());
        assert(r.deep_view() + spec_lines(s@.skip(0)) =~= spec_lines(s@));
    }
    while i < n
        invariant
            start <= i <= n,
            n == s@.len(),
            spec_lines(s@) == r.deep_view() + spec_lines(s@.skip(start as int)),
            forall|j: int| start <= j < i ==> s@[j] != '\n',
        decreases n - i,
    {
        let c = s.get_char(i);
        if c == '\n' {
            let line = s.substring_char(start, i);
            proof {
                let suffix = s@.skip(start as int);
                assert(forall|j: int|
                    0 <= j < suffix.len() ==> #[trigger] suffix[j] == s@[start + j]);
                lemma_newline_at_is(suffix, i - start);
                assert(suffix.take(i - start) =~= s@.subrange(start as int, i as int));
                assert(suffix.skip(i - start + 1) =~= s@.skip(i + 1));
                assert(spec_lines(suffix) == seq![line@] + spec_lines(s@.skip(i + 1)));
            }
            r.push(line.to_owned());
            proof {
                assert(r.deep_view() + spec_lines(s@.skip(i + 1)) =~= spec_lines(s@));
            }
            start = i + 1;
        }
        i = i + 1;
    }
    let line = s.substring_char(start, n);
    proof {
        let suffix = s@.skip(start as int);
        assert(forall|j: int| 0 <= j < suffix.len() ==> #[trigger] suffix[j] == s@[start + j]);
        lemma_newline_at_none(suffix);
        assert(suffix =~= s@.subrange(start as int, n as int));
        assert(spec_lines(suffix) == seq![line@]);
    }
    r.push(line.to_owned());
    proof {
        assert(r.deep_view() =~= spec_lines(s@));
    }
    r
}

/// Collects the characters of a string into a vector.
pub fn chars_of(s: &str) -> (r: Vec<char>)
    ensures
        r@ == s@,
{
    let n = s.unicode_len();
    let mut r: Vec<char> = Vec::new();
    let mut i: usize = 0;
    while i < n
        invariant
            i <= n,
            n == s@.len(),
            r@ == s@.take(i as int),
        decreases n - i,
    {
        r.push(s.get_char(i));
        i = i + 1;
        proof {
            assert(s@.take(i as int) =~= s@.take(i - 1).push(s@[i - 1]));
        }
    }
    proof {
        assert(s@.take(n as int) =~= s@);
    }
    r
}

} // verus!
