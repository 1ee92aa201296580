//! The plain scalars that YAML 1.2's core schema resolves to something other than a string.

use vstd::prelude::*;
use crate::text::{ascii_lower, ascii_lowered, digit};
use crate::yaml::scalar::{
    all_digits, announced_base, decimal, digit_of_base, first_index, lemma_first_index, mantissa,
    non_string, number_like, plain_safe, reserved_word, scalar_text, special_float, unprintable,
    unsigned, without_underscores,
};

verus! {

/// `.` and digits, or digits with at most one `.` behind the first: `\.[0-9]+|[0-9]+(\.[0-9]*)?`.
pub open spec fn core_mantissa(s: Seq<char>) -> bool {
    ||| s.len() > 1 && s[0] == '.' && all_digits(s.skip(1))
    ||| exists|p: int| #[trigger] splits_at(s, p)
}

/// Digits before `p`, and either nothing or a dot and digits from there.
pub open spec fn splits_at(s: Seq<char>, p: int) -> bool {
    &&& 0 < p <= s.len()
    &&& all_digits(s.take(p))
    &&& p < s.len() ==> s[p] == '.' && all_digits(s.skip(p + 1))
}

/// A mantissa before `e`, and either nothing or an exponent from there: `([eE][-+]?[0-9]+)?`.
pub open spec fn exponent_at(s: Seq<char>, e: int) -> bool {
    &&& 0 <= e <= s.len()
    &&& core_mantissa(s.take(e))
    &&& e < s.len() ==> {
        let power = unsigned(s.skip(e + 1));
        (s[e] == 'e' || s[e] == 'E') && power.len() > 0 && all_digits(power)
    }
}

/// A decimal integer or a float: an optional sign, a mantissa and an optional exponent.
pub open spec fn core_decimal(s: Seq<char>) -> bool {
    exists|e: int| #[trigger] exponent_at(unsigned(s), e)
}

/// An integer in base 8 or 16: `0o[0-7]+|0x[0-9a-fA-F]+`.
pub open spec fn core_based(s: Seq<char>) -> bool {
    &&& s.len() > 2 && s[0] == '0' && (s[1] == 'o' || s[1] == 'x')
    &&& forall|i: int|
        2 <= i < s.len() ==> digit_of_base(
            ascii_lower(#[trigger] s[i]),
            if s[1] == 'x' {
                16
            } else {
                8
            },
        )
}

/// The core schema resolves `s` to null, a boolean or a number.
pub open spec fn core_non_string(s: Seq<char>) -> bool {
    reserved_word(s) || special_float(s) || core_based(s) || core_decimal(s)
}

/// The spellings of decimal integers and of floats.
pub open spec fn core_number(s: Seq<char>) -> bool {
    special_float(s) || core_decimal(s)
}

/// An integer behind the letter of its base, as Go spells it: with a sign if need be, the letter in
/// either case, and base 2 among the bases.
pub open spec fn go_based(s: Seq<char>) -> bool {
    let lower = ascii_lowered(unsigned(s));
    let base = announced_base(lower);
    base > 0 && lower.len() > 2 && forall|i: int|
        2 <= i < lower.len() ==> digit_of_base(#[trigger] lower[i], base)
}

/// A number that Go reads and the core schema does not: an integer behind the letter of its base,
/// or a number with underscores in it.
pub open spec fn go_number(s: Seq<char>) -> bool {
    let bare = without_underscores(s);
    go_based(s) || (s.contains('_') && (go_based(bare) || core_decimal(bare)))
}

proof fn lemma_mantissa(s: Seq<char>)
    requires
        core_mantissa(s),
    ensures
        mantissa(s),
        s.len() > 0,
        exists|i: int| 0 <= i < s.len() && digit(#[trigger] s[i]),
        s.len() > 1 ==> digit(s[1]) || s[1] == '.',
{
    if s.len() > 1 && s[0] == '.' && all_digits(s.skip(1)) {
        assert forall|i: int| 0 < i < s.len() implies digit(#[trigger] s[i]) by {
            assert(s.skip(1)[i - 1] == s[i]);
        }
        assert(digit(s[1]));
    } else {
        let p = choose|p: int| #[trigger] splits_at(s, p);
        assert(splits_at(s, p));
        assert forall|i: int| 0 <= i < p implies digit(#[trigger] s[i]) by {
            assert(s.take(p)[i] == s[i]);
        }
        assert forall|i: int| p < i < s.len() implies digit(#[trigger] s[i]) by {
            assert(s.skip(p + 1)[i - p - 1] == s[i]);
        }
        assert(digit(s[0]));
        assert forall|i: int| 0 <= i < s.len() implies digit(#[trigger] s[i]) || s[i] == '.' by {
            assert(i == p || i < p || p < i);
        }
    }
}

/// Where a character first occurs, if nothing before is that character.
proof fn lemma_first_index_at(s: Seq<char>, c: char, e: int)
    requires
        0 <= e <= s.len(),
        forall|i: int| 0 <= i < e ==> #[trigger] s[i] != c,
        e < s.len() ==> s[e] == c,
    ensures
        first_index(s, c) == e,
{
    lemma_first_index(s, c);
    let f = first_index(s, c);
    if f < e {
        assert(s[f] != c);
    } else if f > e {
        assert(s[e] != c);
    }
}

pub proof fn lemma_no_underscores(s: Seq<char>)
    requires
        forall|i: int| 0 <= i < s.len() ==> #[trigger] s[i] != '_',
    ensures
        without_underscores(s) == s,
    decreases s.len(),
{
    reveal(Seq::filter);
    if s.len() > 0 {
        assert forall|i: int| 0 <= i < s.drop_last().len() implies #[trigger] s.drop_last()[i]
            != '_' by {
            assert(s.drop_last()[i] == s[i]);
        }
        lemma_no_underscores(s.drop_last());
        assert(s[s.len() - 1] != '_');
        assert(s =~= s.drop_last().push(s.last()));
    } else {
        assert(without_underscores(s) =~= s);
    }
}

/// What the core schema reads as a decimal behind its sign, with its letters in lower case.
pub proof fn lemma_exponent_is_decimal(d: Seq<char>, e: int)
    requires
        exponent_at(d, e),
    ensures
        decimal(ascii_lowered(d)),
        announced_base(ascii_lowered(d)) == 0,
        without_underscores(ascii_lowered(d)) == ascii_lowered(d),
        d.len() > 0 && (digit(d[0]) || d[0] == '.'),
{
    let m = d.take(e);
    lemma_mantissa(m);
    assert(d[0] == m[0]);
    let lower = ascii_lowered(d);
    assert forall|i: int| 0 <= i < e implies lower[i] == #[trigger] d[i] && lower[i] != 'e'
        && lower[i] != '_' by {
        assert(m[i] == d[i]);
        assert(digit(m[i]) || m[i] == '.');
    }
    let power = unsigned(d.skip(e + 1));
    let sign = d.skip(e + 1).len() - power.len();
    if e < d.len() {
        assert forall|i: int| e < i < d.len() implies lower[i] == #[trigger] d[i] && lower[i]
            != '_' by {
            assert(d.skip(e + 1)[i - e - 1] == d[i]);
            if i - e - 1 >= sign {
                assert(power[i - e - 1 - sign] == d[i]);
                assert(digit(power[i - e - 1 - sign]));
            }
        }
        assert(lower[e] == 'e');
        assert(lower.skip(e + 1) =~= d.skip(e + 1));
    }
    assert forall|i: int| 0 <= i < lower.len() implies #[trigger] lower[i] != '_' by {
        assert(i < e || i == e || i > e);
        assert(i != e ==> lower[i] == d[i]);
    }
    lemma_no_underscores(lower);
    lemma_first_index_at(lower, 'e', e);
    assert(lower.take(e) =~= m);
    let k = choose|k: int| 0 <= k < m.len() && digit(#[trigger] m[k]);
    assert(digit(lower[k]));
    assert(decimal(lower));
    if lower.len() > 1 && lower[0] == '0' {
        if e > 1 {
            assert(m[1] == d[1]);
        }
    }
    assert(announced_base(lower) == 0);
}

/// A decimal of the core schema reads as a number.
pub proof fn lemma_decimal(s: Seq<char>)
    requires
        core_decimal(s),
    ensures
        number_like(s),
{
    let e = choose|e: int| #[trigger] exponent_at(unsigned(s), e);
    lemma_exponent_is_decimal(unsigned(s), e);
}

proof fn lemma_based(s: Seq<char>)
    requires
        core_based(s),
    ensures
        number_like(s),
{
    assert(unsigned(s) == s);
    let lower = ascii_lowered(s);
    let base = announced_base(lower);
    let rest = lower.skip(2);
    assert forall|i: int| 0 <= i < rest.len() implies digit_of_base(#[trigger] rest[i], base)
        && rest[i] != '_' by {
        assert(rest[i] == ascii_lower(s[i + 2]));
    }
    lemma_no_underscores(rest);
}

/// Whatever the core schema would resolve to null, a boolean or a number is recognized as such, so
/// that a string that looks like it is written in double quotes.
pub proof fn whatever_the_core_schema_resolves_is_quoted(s: Seq<char>)
    requires
        core_non_string(s),
    ensures
        non_string(s),
        scalar_text(s).len() >= 2,
        scalar_text(s)[0] == '"' && scalar_text(s).last() == '"',
{
    if core_decimal(s) {
        lemma_decimal(s);
    } else if core_based(s) {
        lemma_based(s);
    }
}

pub proof fn lemma_lowered_without_underscores(s: Seq<char>)
    ensures
        without_underscores(ascii_lowered(s)) == ascii_lowered(without_underscores(s)),
    decreases s.len(),
{
    reveal(Seq::filter);
    let lower = ascii_lowered(s);
    if s.len() > 0 {
        lemma_lowered_without_underscores(s.drop_last());
        assert(lower.drop_last() =~= ascii_lowered(s.drop_last()));
        assert(lower.last() == ascii_lower(s.last()));
    }
    assert(without_underscores(lower) =~= ascii_lowered(without_underscores(s)));
}

pub proof fn lemma_without_underscores_add(a: Seq<char>, b: Seq<char>)
    ensures
        without_underscores(a + b) == without_underscores(a) + without_underscores(b),
{
    Seq::filter_distributes_over_add(a, b, |c: char| c != '_');
}

/// Dropping the underscores behind a sign keeps the sign.
pub proof fn lemma_unsigned_without_underscores(s: Seq<char>)
    requires
        without_underscores(unsigned(s)).len() > 0,
        without_underscores(unsigned(s))[0] != '-',
        without_underscores(unsigned(s))[0] != '+',
    ensures
        unsigned(without_underscores(s)) == without_underscores(unsigned(s)),
{
    if unsigned(s) != s {
        let sign = seq![s[0]];
        assert(s =~= sign + unsigned(s));
        lemma_without_underscores_add(sign, unsigned(s));
        lemma_no_underscores(sign);
        let bare = without_underscores(s);
        assert(bare =~= sign + without_underscores(unsigned(s)));
        assert(unsigned(bare) =~= without_underscores(unsigned(s)));
    }
}

/// Digits with at most one dot among them are a mantissa of the core schema.
proof fn lemma_core_mantissa(m: Seq<char>, k: int)
    requires
        mantissa(m),
        0 <= k < m.len(),
        digit(m[k]),
    ensures
        core_mantissa(m),
{
    if exists|p: int| 0 <= p < m.len() && #[trigger] m[p] == '.' {
        let p = choose|p: int| 0 <= p < m.len() && #[trigger] m[p] == '.';
        assert forall|i: int| 0 <= i < m.len() && i != p implies digit(#[trigger] m[i]) by {
            if i < p {
                assert(!(m[i] == '.' && m[p] == '.'));
            } else {
                assert(!(m[p] == '.' && m[i] == '.'));
            }
        }
        assert forall|i: int| 0 <= i < m.skip(p + 1).len() implies digit(
            #[trigger] m.skip(p + 1)[i],
        ) by {
            assert(m.skip(p + 1)[i] == m[p + 1 + i]);
        }
        if p > 0 {
            assert forall|i: int| 0 <= i < p implies digit(#[trigger] m.take(p)[i]) by {
                assert(m.take(p)[i] == m[i]);
            }
            assert(splits_at(m, p));
        } else {
            assert(m.len() > 1);
        }
    } else {
        assert(m.take(m.len() as int) =~= m);
        assert(splits_at(m, m.len() as int));
    }
}

/// Without its underscores, a decimal is one of the core schema.
proof fn lemma_decimal_is_core(s: Seq<char>)
    requires
        decimal(without_underscores(ascii_lowered(unsigned(s)))),
    ensures
        core_decimal(without_underscores(s)),
{
    let d = unsigned(s);
    let bare = without_underscores(d);
    let lower = ascii_lowered(bare);
    lemma_lowered_without_underscores(d);
    assert(decimal(lower));
    let e = first_index(lower, 'e');
    lemma_first_index(lower, 'e');
    let m = lower.take(e);
    let k = choose|k: int| 0 <= k < e && digit(#[trigger] lower[k]);
    assert(digit(m[k]));
    assert forall|i: int| 0 <= i < e implies bare[i] == #[trigger] m[i] by {
        assert(digit(m[i]) || m[i] == '.');
        assert(lower[i] == ascii_lower(bare[i]));
    }
    assert(bare.take(e) =~= m);
    lemma_core_mantissa(m, k);
    if e < bare.len() {
        assert(lower[e] == ascii_lower(bare[e]));
        let after = lower.skip(e + 1);
        let power = unsigned(after);
        let sign = after.len() - power.len();
        assert forall|i: int| 0 <= i < after.len() implies bare.skip(e + 1)[i]
            == #[trigger] after[i] by {
            assert(after[i] == ascii_lower(bare[e + 1 + i]));
            if i >= sign {
                assert(power[i - sign] == after[i]);
                assert(digit(power[i - sign]));
            }
        }
        assert(bare.skip(e + 1) =~= after);
    }
    assert(exponent_at(bare, e));
    assert(bare[0] == m[0] && (digit(m[0]) || m[0] == '.'));
    lemma_unsigned_without_underscores(s);
}

/// Without its underscores, an integer behind the letter of its base is one that Go spells.
proof fn lemma_based_is_go(s: Seq<char>)
    requires
        number_like(s),
        !special_float(s),
        announced_base(ascii_lowered(unsigned(s))) > 0,
    ensures
        go_based(without_underscores(s)),
{
    let d = unsigned(s);
    let lower = ascii_lowered(d);
    let base = announced_base(lower);
    let rest = without_underscores(lower.skip(2));
    let head = lower.take(2);
    assert(lower =~= head + lower.skip(2));
    lemma_without_underscores_add(head, lower.skip(2));
    assert(head[0] != '_' && head[1] != '_');
    lemma_no_underscores(head);
    let bare = without_underscores(d);
    lemma_lowered_without_underscores(d);
    assert(ascii_lowered(bare) == head + rest);
    assert(ascii_lowered(bare)[0] == '0');
    assert(ascii_lower(bare[0]) == '0');
    lemma_unsigned_without_underscores(s);
    assert forall|i: int| 2 <= i < (head + rest).len() implies digit_of_base(
        #[trigger] (head + rest)[i],
        base,
    ) by {
        assert((head + rest)[i] == rest[i - 2]);
    }
}

/// Nothing is taken for null, a boolean or a number but what the core schema resolves to one of
/// these and the numbers that Go spells in its own way.
pub proof fn nothing_else_is_taken_for_another_type(s: Seq<char>)
    requires
        non_string(s),
    ensures
        core_non_string(s) || go_number(s),
{
    if !core_non_string(s) {
        assert(number_like(s) && !special_float(s));
        let lower = ascii_lowered(unsigned(s));
        if announced_base(lower) > 0 {
            lemma_based_is_go(s);
        } else {
            lemma_decimal_is_core(s);
        }
        if !s.contains('_') {
            lemma_no_underscores(s);
        }
    }
}

/// A string is written in quotes only where it needs escapes, where it would be read as something
/// else, or where it collides with the syntax.
pub proof fn a_string_is_quoted_only_where_it_has_to_be(s: Seq<char>)
    requires
        scalar_text(s) != s,
    ensures
        unprintable(s) || core_non_string(s) || go_number(s) || !plain_safe(s),
{
    if non_string(s) {
        nothing_else_is_taken_for_another_type(s);
    }
}

} // verus!
