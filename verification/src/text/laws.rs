//! What trimming, folding and comparing texts come to.

use vstd::prelude::*;
use crate::text::{
    ascii_lower, ascii_lowered, digit, stands_at, text_le, trim_end_by, trim_start_by, trimmed,
    whitespace, without_outer_slashes, without_trailing_slashes,
};

verus! {

/// Whitespace is the tab, the line feed and the carriage return with the two controls between them,
/// the space, the next line and the no-break space, and above these Unicode's other spaces and its
/// two separators; nothing else.
pub proof fn whitespace_is_that_of_unicode(c: char)
    ensures
        whitespace(c) <==> matches!(
            c,
            '\t' | '\n' | '\u{b}' | '\u{c}' | '\r' | ' ' | '\u{85}' | '\u{a0}' | '\u{1680}'
                | '\u{2000}' | '\u{2001}' | '\u{2002}' | '\u{2003}' | '\u{2004}' | '\u{2005}'
                | '\u{2006}' | '\u{2007}' | '\u{2008}' | '\u{2009}' | '\u{200a}' | '\u{2028}'
                | '\u{2029}' | '\u{202f}' | '\u{205f}' | '\u{3000}'
        ),
{
}

/// There are ten digits.
pub proof fn there_are_ten_digits(c: char)
    ensures
        digit(c) <==> "0123456789"@.contains(c),
{
    reveal_strlit("0123456789");
    let all = "0123456789"@;
    if digit(c) {
        assert(all[c as int - '0' as int] == c);
    }
}

/// What stands at a place is between what is before it and what is behind it, and what is put
/// between two texts stands there.
pub proof fn what_stands_at_a_place_is_between_others(
    s: Seq<char>,
    part: Seq<char>,
    i: int,
    before: Seq<char>,
    after: Seq<char>,
)
    ensures
        stands_at(s, part, i) ==> s == s.take(i) + part + s.skip(i + part.len()) && i >= 0,
        stands_at(before + part + after, part, before.len() as int),
{
    if stands_at(s, part, i) {
        assert(s =~= s.take(i) + s.subrange(i, i + part.len()) + s.skip(i + part.len()));
    }
    let all = before + part + after;
    assert(all.subrange(before.len() as int, (before.len() + part.len()) as int) =~= part);
}

/// `t` is what stands in `s` from `i` to `j`, and everything around it satisfies `p`.
pub open spec fn cut_at(
    t: Seq<char>,
    s: Seq<char>,
    p: spec_fn(char) -> bool,
    i: int,
    j: int,
) -> bool {
    &&& 0 <= i <= j <= s.len()
    &&& t == s.subrange(i, j)
    &&& forall|k: int| 0 <= k < i ==> p(#[trigger] s[k])
    &&& forall|k: int| j <= k < s.len() ==> p(#[trigger] s[k])
}

/// `t` is what stands in `s` from `i` to `j`, with whitespace around it.
pub open spec fn amid_whitespace(t: Seq<char>, s: Seq<char>, i: int, j: int) -> bool {
    cut_at(t, s, |c: char| whitespace(c), i, j)
}

/// `t` is what stands in `s` from `i` to `j`, with slashes around it.
pub open spec fn amid_slashes(t: Seq<char>, s: Seq<char>, i: int, j: int) -> bool {
    cut_at(t, s, |c: char| c == '/', i, j)
}

proof fn lemma_trim_start_cuts(s: Seq<char>, p: spec_fn(char) -> bool) -> (i: int)
    ensures
        0 <= i <= s.len(),
        trim_start_by(s, p) == s.skip(i),
        forall|k: int| 0 <= k < i ==> p(#[trigger] s[k]),
        i < s.len() ==> !p(s[i]),
    decreases s.len(),
{
    if s.len() > 0 && p(s.first()) {
        let t = s.drop_first();
        let i = lemma_trim_start_cuts(t, p);
        assert(t.skip(i) =~= s.skip(i + 1));
        assert forall|k: int| 0 <= k < i + 1 implies p(#[trigger] s[k]) by {
            if k > 0 {
                assert(t[k - 1] == s[k]);
            }
        }
        i + 1
    } else {
        assert(s.skip(0) =~= s);
        0
    }
}

proof fn lemma_trim_end_cuts(s: Seq<char>, p: spec_fn(char) -> bool) -> (j: int)
    ensures
        0 <= j <= s.len(),
        trim_end_by(s, p) == s.take(j),
        forall|k: int| j <= k < s.len() ==> p(#[trigger] s[k]),
        j > 0 ==> !p(s[j - 1]),
    decreases s.len(),
{
    if s.len() > 0 && p(s.last()) {
        let t = s.drop_last();
        let j = lemma_trim_end_cuts(t, p);
        assert(t.take(j) =~= s.take(j));
        assert forall|k: int| j <= k < s.len() implies p(#[trigger] s[k]) by {
            if k < t.len() {
                assert(t[k] == s[k]);
            }
        }
        j
    } else {
        assert(s.take(s.len() as int) =~= s);
        s.len() as int
    }
}

proof fn lemma_trim_cuts(s: Seq<char>, p: spec_fn(char) -> bool) -> (ends: (int, int))
    ensures
        ({
            let t = trim_end_by(trim_start_by(s, p), p);
            &&& cut_at(t, s, p, ends.0, ends.1)
            &&& t.len() > 0 ==> !p(t[0]) && !p(t.last())
        }),
{
    let i = lemma_trim_start_cuts(s, p);
    let m = s.skip(i);
    let j = lemma_trim_end_cuts(m, p);
    let t = m.take(j);
    assert(t =~= s.subrange(i, i + j));
    assert forall|k: int| i + j <= k < s.len() implies p(#[trigger] s[k]) by {
        assert(m[k - i] == s[k]);
    }
    if t.len() > 0 {
        assert(t[0] == s[i]);
        assert(t.last() == m[j - 1]);
    }
    (i, i + j)
}

/// Trimming takes whitespace away at both ends, all of it, and nothing else.
pub proof fn trimming_takes_whitespace_only(s: Seq<char>)
    ensures
        exists|i: int, j: int| #[trigger] amid_whitespace(trimmed(s), s, i, j),
        trimmed(s).len() > 0 ==> !whitespace(trimmed(s)[0]) && !whitespace(trimmed(s).last()),
{
    let p = |c: char| whitespace(c);
    let (i, j) = lemma_trim_cuts(s, p);
    assert(amid_whitespace(trimmed(s), s, i, j));
}

/// A text is trimmed away as a whole exactly if it is nothing but whitespace.
pub proof fn only_blank_texts_vanish(s: Seq<char>)
    ensures
        trimmed(s).len() == 0 <==> forall|k: int| 0 <= k < s.len() ==> whitespace(#[trigger] s[k]),
{
    let p = |c: char| whitespace(c);
    let (i, j) = lemma_trim_cuts(s, p);
    assert(cut_at(trimmed(s), s, p, i, j));
    if trimmed(s).len() == 0 {
        assert(i == j);
        assert forall|k: int| 0 <= k < s.len() implies whitespace(#[trigger] s[k]) by {
            assert(p(s[k]));
        }
    } else if forall|k: int| 0 <= k < s.len() ==> whitespace(#[trigger] s[k]) {
        assert(trimmed(s)[0] == s[i]);
    }
}

/// A text without whitespace at its ends stays as it is.
pub proof fn trimming_leaves_trimmed_texts_alone(s: Seq<char>)
    requires
        s.len() > 0 ==> !whitespace(s[0]) && !whitespace(s.last()),
    ensures
        trimmed(s) == s,
{
    let p = |c: char| whitespace(c);
    let (i, j) = lemma_trim_cuts(s, p);
    if s.len() > 0 {
        if i > 0 {
            assert(p(s[0]));
        }
        if j < s.len() {
            assert(p(s[s.len() - 1]));
        }
    }
    assert(trimmed(s) =~= s);
}

/// Slashes are taken away at the end, all of them, and nothing else.
pub proof fn trailing_slashes_are_cut_off(s: Seq<char>)
    ensures
        exists|j: int| #[trigger] amid_slashes(without_trailing_slashes(s), s, 0, j),
        without_trailing_slashes(s).len() > 0 ==> without_trailing_slashes(s).last() != '/',
{
    let p = |c: char| c == '/';
    let j = lemma_trim_end_cuts(s, p);
    assert(s.take(j) =~= s.subrange(0, j));
    assert(amid_slashes(without_trailing_slashes(s), s, 0, j));
}

/// Slashes are taken away at both ends, all of them, and nothing else.
pub proof fn outer_slashes_are_cut_off(s: Seq<char>)
    ensures
        exists|i: int, j: int| #[trigger] amid_slashes(without_outer_slashes(s), s, i, j),
        without_outer_slashes(s).len() > 0 ==> without_outer_slashes(s)[0] != '/'
            && without_outer_slashes(s).last() != '/',
{
    let p = |c: char| c == '/';
    let (i, j) = lemma_trim_cuts(s, p);
    assert(amid_slashes(without_outer_slashes(s), s, i, j));
}

/// A text without slashes at its ends stays as it is.
pub proof fn texts_without_outer_slashes_stay(s: Seq<char>)
    requires
        s.len() > 0 ==> s[0] != '/' && s.last() != '/',
    ensures
        without_outer_slashes(s) == s,
        without_trailing_slashes(s) == s,
{
    let p = |c: char| c == '/';
    let (i, j) = lemma_trim_cuts(s, p);
    let k = lemma_trim_end_cuts(s, p);
    if s.len() > 0 {
        if i > 0 {
            assert(p(s[0]));
        }
        if j < s.len() || k < s.len() {
            assert(p(s[s.len() - 1]));
        }
    }
    assert(without_outer_slashes(s) =~= s);
    assert(without_trailing_slashes(s) =~= s);
}

/// Texts are ordered by the first character in which they differ, and a text comes before those
/// that go on from it.
pub proof fn the_first_difference_decides(a: Seq<char>, b: Seq<char>, i: int)
    requires
        0 <= i <= a.len(),
        i <= b.len(),
        forall|k: int| 0 <= k < i ==> #[trigger] a[k] == b[k],
        i < a.len() && i < b.len() ==> a[i] != b[i],
    ensures
        text_le(a, b) <==> i == a.len() || (i < b.len() && a[i] < b[i]),
    decreases i,
{
    if i > 0 {
        assert(a[0] == b[0]);
        let (x, y) = (a.drop_first(), b.drop_first());
        assert forall|k: int| 0 <= k < i - 1 implies #[trigger] x[k] == y[k] by {
            assert(a[k + 1] == b[k + 1]);
        }
        the_first_difference_decides(x, y, i - 1);
    }
}

/// Two characters are the same letter, or the same character.
pub open spec fn same_letter(a: char, b: char) -> bool {
    ||| a == b
    ||| 'A' <= a <= 'Z' && b as u32 == a as u32 + 32
    ||| 'A' <= b <= 'Z' && a as u32 == b as u32 + 32
}

/// Two texts agree without regard to ASCII case exactly if they do so in every place.
pub proof fn case_is_ignored_letter_by_letter(a: Seq<char>, b: Seq<char>)
    ensures
        ascii_lowered(a) == ascii_lowered(b) <==> a.len() == b.len() && forall|i: int|
            0 <= i < a.len() ==> same_letter(#[trigger] a[i], b[i]),
{
    let (x, y) = (ascii_lowered(a), ascii_lowered(b));
    if x == y {
        assert(x.len() == a.len() && y.len() == b.len());
        assert forall|i: int| 0 <= i < a.len() implies same_letter(#[trigger] a[i], b[i]) by {
            assert(x[i] == y[i]);
            lemma_same_letter(a[i], b[i]);
        }
    }
    if a.len() == b.len() && forall|i: int|
        0 <= i < a.len() ==> same_letter(#[trigger] a[i], b[i]) {
        assert forall|i: int| 0 <= i < x.len() implies x[i] == y[i] by {
            assert(same_letter(a[i], b[i]));
            lemma_same_letter(a[i], b[i]);
        }
        assert(x =~= y);
    }
}

proof fn lemma_same_letter(a: char, b: char)
    ensures
        ascii_lower(a) == ascii_lower(b) <==> same_letter(a, b),
{
}

} // verus!
