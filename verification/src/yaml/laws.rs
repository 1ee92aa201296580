//! What is written how: the style of a string, the lines of a collection, the text of a number.

use vstd::prelude::*;
use crate::document::laws::{a_number_is_written_in_decimal, spells};
use crate::text::laws::trimming_leaves_trimmed_texts_alone;
use crate::text::{ascii_lower, ascii_lowered, lemma_trimmed_ends, trimmed, whitespace};
use crate::yaml::core_schema::{
    core_decimal, core_non_string, exponent_at, go_based, go_number, lemma_exponent_is_decimal,
    lemma_lowered_without_underscores, lemma_no_underscores, lemma_unsigned_without_underscores,
    lemma_without_underscores_add, nothing_else_is_taken_for_another_type,
    whatever_the_core_schema_resolves_is_quoted,
};
use crate::yaml::layout::{
    block_lines, dashed, document_text, flow_entries, flow_items, flow_text, indented,
    lemma_block_lines_nonempty, lemma_lines_text_add, lemma_lines_text_one, lines_text,
    mapping_lines, sequence_lines,
};
use crate::yaml::scalar::{
    announced_base, comment_mark, digit_of_base, double_quoted_text, escape, escaped, hex_digit,
    hex_text, indicator, key_mark, must_escape, non_string, number_like, plain_safe, quotes_doubled,
    reserved_word, scalar_text, single_quoted_text, special_float, unsigned, without_underscores,
};
use crate::yaml::value::{
    lemma_entries_of, lemma_nodes_of, natural_text, tag_text, Node, Number, Value,
};

verus! {

// ---------------------------------------------------------------------------------------------
// The style of a string
// ---------------------------------------------------------------------------------------------

/// What has to be escaped: the control characters, the two separators, and everything above the
/// basic multilingual plane; nothing else.
pub proof fn control_characters_and_separators_are_escaped(c: char)
    ensures
        must_escape(c) <==> c as u32 <= 0x1F || 0x7F <= c as u32 <= 0x9F || c as u32 == 0x2028
            || c as u32 == 0x2029 || c as u32 >= 0x10000,
{
}

/// A character that opens something else than a plain scalar.
pub open spec fn opens_something(c: char) -> bool {
    "-?:,[]{}#&*!|>'\"%@`"@.contains(c)
}

/// A text that collides with YAML's syntax when it stands without quotes: it has whitespace at an
/// end, begins with a character that opens something, ends in a colon, or has a colon before a
/// space or a `#` behind one.
pub open spec fn collides(s: Seq<char>) -> bool {
    ||| s.len() > 0 && (whitespace(s[0]) || whitespace(s.last()))
    ||| s.len() > 0 && opens_something(s[0])
    ||| s.len() > 0 && s.last() == ':'
    ||| exists|i: int| 0 <= i < s.len() - 1 && #[trigger] s[i] == ':' && s[i + 1] == ' '
    ||| exists|i: int| 0 <= i < s.len() - 1 && #[trigger] s[i] == ' ' && s[i + 1] == '#'
}

/// A text with a character in it that has to be escaped.
pub open spec fn needs_escape(s: Seq<char>) -> bool {
    exists|i: int| 0 <= i < s.len() && must_escape(#[trigger] s[i])
}

proof fn lemma_indicator(c: char)
    ensures
        indicator(c) <==> opens_something(c),
{
    reveal_strlit("-?:,[]{}#&*!|>'\"%@`");
    let list = "-?:,[]{}#&*!|>'\"%@`"@;
    assert(list.len() == 19);
    assert(list[0] == '-' && list[1] == '?' && list[2] == ':' && list[3] == ',' && list[4] == '['
        && list[5] == ']' && list[6] == '{' && list[7] == '}' && list[8] == '#' && list[9] == '&'
        && list[10] == '*' && list[11] == '!' && list[12] == '|' && list[13] == '>' && list[14]
        == '\'' && list[15] == '"' && list[16] == '%' && list[17] == '@' && list[18] == '`');
    if list.contains(c) {
        let i = choose|i: int| 0 <= i < list.len() && list[i] == c;
        assert(indicator(list[i]));
    }
}

proof fn lemma_collides(s: Seq<char>)
    requires
        s.len() > 0,
    ensures
        plain_safe(s) <==> !collides(s),
{
    lemma_indicator(s[0]);
    if plain_safe(s) {
        lemma_trimmed_ends(s);
        assert(trimmed(s) == s);
        assert(!key_mark(s, s.len() - 1));
        assert forall|i: int| 0 <= i < s.len() - 1 && #[trigger] s[i] == ':' implies s[i + 1]
            != ' ' by {
            assert(!key_mark(s, i));
        }
        assert forall|i: int| 0 <= i < s.len() - 1 && #[trigger] s[i] == ' ' implies s[i + 1]
            != '#' by {
            assert(!comment_mark(s, i));
        }
    }
    if !collides(s) {
        trimming_leaves_trimmed_texts_alone(s);
        assert forall|i: int| 0 <= i < s.len() implies !#[trigger] key_mark(s, i) by {
            if s[i] == ':' && i < s.len() - 1 {
                assert(s[i + 1] != ' ');
            }
        }
        assert forall|i: int| 0 <= i < s.len() implies !#[trigger] comment_mark(s, i) by {
            if s[i] == ' ' && i < s.len() - 1 {
                assert(s[i + 1] != '#');
            }
        }
    }
}

/// A text that needs no escape, would not be read as another type and does not collide with the
/// syntax is written as it is.
pub proof fn ordinary_texts_are_written_as_they_are(s: Seq<char>)
    requires
        s.len() > 0,
        !needs_escape(s),
        !core_non_string(s),
        !go_number(s),
        !collides(s),
    ensures
        scalar_text(s) == s,
{
    lemma_collides(s);
    if non_string(s) {
        nothing_else_is_taken_for_another_type(s);
    }
}

/// A text that only collides with the syntax stands between single quotes, with its own doubled.
pub proof fn collisions_are_put_in_single_quotes(s: Seq<char>)
    requires
        s.len() > 0,
        !needs_escape(s),
        !core_non_string(s),
        !go_number(s),
        collides(s),
    ensures
        scalar_text(s) == single_quoted_text(s),
        scalar_text(s) == seq!['\''] + quotes_doubled(s) + seq!['\''],
        scalar_text(s).len() >= s.len() + 2,
        scalar_text(s)[0] == '\'',
        scalar_text(s).last() == '\'',
        !s.contains('\'') ==> scalar_text(s) == seq!['\''] + s + seq!['\''],
{
    lemma_collides(s);
    if non_string(s) {
        nothing_else_is_taken_for_another_type(s);
    }
    lemma_doubled_at_least(s);
    if !s.contains('\'') {
        lemma_nothing_doubled(s);
    }
}

proof fn lemma_doubled_at_least(s: Seq<char>)
    ensures
        quotes_doubled(s).len() >= s.len(),
    decreases s.len(),
{
    if s.len() > 0 {
        lemma_doubled_at_least(s.drop_first());
    }
}

proof fn lemma_nothing_doubled(s: Seq<char>)
    requires
        !s.contains('\''),
    ensures
        quotes_doubled(s) == s,
    decreases s.len(),
{
    if s.len() > 0 {
        let t = s.drop_first();
        assert(s[0] != '\'') by {
            assert(s.contains(s[0]));
        }
        if t.contains('\'') {
            let i = choose|i: int| 0 <= i < t.len() && t[i] == '\'';
            assert(s[i + 1] == '\'');
        }
        lemma_nothing_doubled(t);
        assert(s =~= seq![s[0]] + t);
    } else {
        assert(quotes_doubled(s) =~= s);
    }
}

/// What stands between single quotes is put together from its characters: a quote twice, any other
/// once.
pub proof fn quotes_are_doubled(a: Seq<char>, b: Seq<char>, c: char)
    ensures
        quotes_doubled(a + b) == quotes_doubled(a) + quotes_doubled(b),
        quotes_doubled(seq!['\'']) == seq!['\'', '\''],
        c != '\'' ==> quotes_doubled(seq![c]) == seq![c],
    decreases a.len(),
{
    reveal_with_fuel(quotes_doubled, 2);
    assert(seq![c].drop_first() =~= Seq::<char>::empty());
    assert(seq!['\''].drop_first() =~= Seq::<char>::empty());
    assert(quotes_doubled(seq!['\'']) =~= seq!['\'', '\'']);
    if c != '\'' {
        assert(quotes_doubled(seq![c]) =~= seq![c]);
    }
    if a.len() == 0 {
        assert(a + b =~= b);
        assert(quotes_doubled(a) + quotes_doubled(b) =~= quotes_doubled(b));
    } else {
        assert((a + b).drop_first() =~= a.drop_first() + b);
        quotes_are_doubled(a.drop_first(), b, c);
        assert(quotes_doubled(a + b) =~= quotes_doubled(a) + quotes_doubled(b));
    }
}

/// A text that needs an escape or would be read as another type stands between double quotes.
pub proof fn other_types_and_escapes_are_put_in_double_quotes(s: Seq<char>)
    requires
        needs_escape(s) || core_non_string(s) || go_based(s),
    ensures
        scalar_text(s) == double_quoted_text(s),
        scalar_text(s) == seq!['"'] + escaped(s) + seq!['"'],
        scalar_text(s).len() >= 2,
        scalar_text(s)[0] == '"',
        scalar_text(s).last() == '"',
{
    if !needs_escape(s) {
        if core_non_string(s) {
            whatever_the_core_schema_resolves_is_quoted(s);
        } else {
            lemma_go_based_is_number(s);
        }
    }
}

proof fn lemma_go_based_is_number(s: Seq<char>)
    requires
        go_based(s),
    ensures
        number_like(s),
{
    let lower = ascii_lowered(unsigned(s));
    let rest = lower.skip(2);
    assert forall|i: int| 0 <= i < rest.len() implies #[trigger] rest[i] != '_' && digit_of_base(
        rest[i],
        announced_base(lower),
    ) by {
        assert(digit_of_base(lower[i + 2], announced_base(lower)));
    }
    lemma_no_underscores(rest);
}

/// Underscores between the digits of a number do not make it a string: a text that is a decimal
/// without them, and does not begin with one, stands between double quotes.
pub proof fn underscores_do_not_hide_a_number(s: Seq<char>)
    requires
        core_decimal(without_underscores(s)),
        s.len() > 0,
        s[0] != '_',
    ensures
        number_like(s),
        scalar_text(s)[0] == '"',
{
    let d = unsigned(s);
    let bare = without_underscores(d);
    let w = without_underscores(s);
    if d == s {
        lemma_first_kept(s);
        assert(w[0] != '-' && w[0] != '+');
    } else {
        let sign = seq![s[0]];
        assert(s =~= sign + d);
        lemma_without_underscores_add(sign, d);
        lemma_no_underscores(sign);
        assert(unsigned(w) =~= bare);
    }
    let e = choose|e: int| #[trigger] exponent_at(unsigned(w), e);
    lemma_exponent_is_decimal(bare, e);
    lemma_lowered_without_underscores(d);
    lemma_base_stays_announced(ascii_lowered(d));
}

/// The letter of a base is still there without the underscores.
proof fn lemma_base_stays_announced(lower: Seq<char>)
    requires
        announced_base(without_underscores(lower)) == 0,
    ensures
        announced_base(lower) == 0,
{
    if announced_base(lower) > 0 {
        let head = lower.take(2);
        assert(lower =~= head + lower.skip(2));
        lemma_without_underscores_add(head, lower.skip(2));
        assert(head[0] != '_' && head[1] != '_');
        lemma_no_underscores(head);
        assert(without_underscores(lower)[0] == lower[0]);
        assert(without_underscores(lower)[1] == lower[1]);
    }
}

proof fn lemma_first_kept(s: Seq<char>)
    requires
        s.len() > 0,
        s[0] != '_',
    ensures
        without_underscores(s).len() > 0,
        without_underscores(s)[0] == s[0],
{
    let first = seq![s[0]];
    assert(s =~= first + s.drop_first());
    lemma_without_underscores_add(first, s.drop_first());
    lemma_no_underscores(first);
}

/// Underscores behind the letter of a base do not make a number a string either.
pub proof fn underscores_do_not_hide_a_based_number(s: Seq<char>)
    requires
        go_based(without_underscores(s)),
        announced_base(ascii_lowered(unsigned(s))) > 0,
    ensures
        number_like(s),
        scalar_text(s)[0] == '"',
{
    let d = unsigned(s);
    let lower = ascii_lowered(d);
    let (head, tail) = (lower.take(2), lower.skip(2));
    assert(lower =~= head + tail);
    lemma_without_underscores_add(head, tail);
    assert(head[0] != '_' && head[1] != '_');
    lemma_no_underscores(head);
    lemma_lowered_without_underscores(d);
    let bare = without_underscores(d);
    assert(ascii_lowered(bare) =~= head + without_underscores(tail));
    assert(bare.len() == ascii_lowered(bare).len());
    assert(ascii_lowered(bare)[0] == head[0]);
    assert(ascii_lower(bare[0]) == '0');
    lemma_unsigned_without_underscores(s);
    let all = ascii_lowered(bare);
    assert(all == head + without_underscores(tail));
    let rest = without_underscores(tail);
    assert forall|i: int| 0 <= i < rest.len() implies digit_of_base(
        #[trigger] rest[i],
        announced_base(lower),
    ) by {
        assert(rest[i] == all[i + 2]);
    }
}

// ---------------------------------------------------------------------------------------------
// Words and numbers
// ---------------------------------------------------------------------------------------------

/// A word in one of the three ways to spell it: in small letters, in capitals, or in small letters
/// behind a capital.
pub open spec fn spelled_in_a_usual_case(s: Seq<char>, word: Seq<char>) -> bool {
    &&& ascii_lowered(s) == word
    &&& {
        ||| forall|i: int| 0 <= i < s.len() ==> 'a' <= #[trigger] s[i] <= 'z'
        ||| forall|i: int| 0 <= i < s.len() ==> 'A' <= #[trigger] s[i] <= 'Z'
        ||| 'A' <= s[0] <= 'Z' && forall|i: int| 0 < i < s.len() ==> 'a' <= #[trigger] s[i] <= 'z'
    }
}

proof fn lemma_null(s: Seq<char>)
    ensures
        spelled_in_a_usual_case(s, "null"@) <==> s == "null"@ || s == "Null"@ || s == "NULL"@,
{
    reveal_strlit("null");
    reveal_strlit("Null");
    reveal_strlit("NULL");
    assert(ascii_lowered("null"@) =~= "null"@);
    assert(ascii_lowered("Null"@) =~= "null"@);
    assert(ascii_lowered("NULL"@) =~= "null"@);
    if spelled_in_a_usual_case(s, "null"@) {
        let lower = ascii_lowered(s);
        assert(lower[0] == 'n' && lower[1] == 'u' && lower[2] == 'l' && lower[3] == 'l');
        assert(s.len() == 4);
        assert(s =~= "null"@ || s =~= "Null"@ || s =~= "NULL"@);
    }
}

proof fn lemma_true(s: Seq<char>)
    ensures
        spelled_in_a_usual_case(s, "true"@) <==> s == "true"@ || s == "True"@ || s == "TRUE"@,
{
    reveal_strlit("true");
    reveal_strlit("True");
    reveal_strlit("TRUE");
    assert(ascii_lowered("true"@) =~= "true"@);
    assert(ascii_lowered("True"@) =~= "true"@);
    assert(ascii_lowered("TRUE"@) =~= "true"@);
    if spelled_in_a_usual_case(s, "true"@) {
        let lower = ascii_lowered(s);
        assert(lower[0] == 't' && lower[1] == 'r' && lower[2] == 'u' && lower[3] == 'e');
        assert(s.len() == 4);
        assert(s =~= "true"@ || s =~= "True"@ || s =~= "TRUE"@);
    }
}

proof fn lemma_false(s: Seq<char>)
    ensures
        spelled_in_a_usual_case(s, "false"@) <==> s == "false"@ || s == "False"@ || s == "FALSE"@,
{
    reveal_strlit("false");
    reveal_strlit("False");
    reveal_strlit("FALSE");
    assert(ascii_lowered("false"@) =~= "false"@);
    assert(ascii_lowered("False"@) =~= "false"@);
    assert(ascii_lowered("FALSE"@) =~= "false"@);
    if spelled_in_a_usual_case(s, "false"@) {
        let lower = ascii_lowered(s);
        assert(lower[0] == 'f' && lower[1] == 'a' && lower[2] == 'l' && lower[3] == 's');
        assert(lower[4] == 'e');
        assert(s.len() == 5);
        assert(s =~= "false"@ || s =~= "False"@ || s =~= "FALSE"@);
    }
}

/// The words for null and for the booleans, in each of the usual cases, the tilde and the empty
/// text are reserved, and nothing else is.
pub proof fn the_words_for_null_and_booleans_are_reserved(s: Seq<char>)
    ensures
        reserved_word(s) <==> {
            ||| s.len() == 0
            ||| s == seq!['~']
            ||| spelled_in_a_usual_case(s, "null"@)
            ||| spelled_in_a_usual_case(s, "true"@)
            ||| spelled_in_a_usual_case(s, "false"@)
        },
        reserved_word(s) ==> scalar_text(s) == seq!['"'] + escaped(s) + seq!['"'],
{
    reveal_strlit("");
    reveal_strlit("~");
    assert("~"@ =~= seq!['~']);
    if s.len() == 0 {
        assert(s =~= ""@);
    }
    lemma_null(s);
    lemma_true(s);
    lemma_false(s);
}

/// The words for infinity are reserved with and without a sign, those for not a number without one,
/// and nothing else is reserved for a float.
pub proof fn the_words_for_floats_are_reserved(s: Seq<char>)
    ensures
        special_float(s) <==> {
            ||| s == ".inf"@ || s == ".Inf"@ || s == ".INF"@
            ||| s == "+.inf"@ || s == "+.Inf"@ || s == "+.INF"@
            ||| s == "-.inf"@ || s == "-.Inf"@ || s == "-.INF"@
            ||| s == ".nan"@ || s == ".NaN"@ || s == ".NAN"@
        },
        special_float(s) ==> scalar_text(s) == seq!['"'] + escaped(s) + seq!['"'],
{
    reveal_strlit(".inf");
    reveal_strlit(".Inf");
    reveal_strlit(".INF");
    reveal_strlit("+.inf");
    reveal_strlit("+.Inf");
    reveal_strlit("+.INF");
    reveal_strlit("-.inf");
    reveal_strlit("-.Inf");
    reveal_strlit("-.INF");
    assert("+.inf"@.drop_first() =~= ".inf"@ && "-.inf"@.drop_first() =~= ".inf"@);
    assert("+.Inf"@.drop_first() =~= ".Inf"@ && "-.Inf"@.drop_first() =~= ".Inf"@);
    assert("+.INF"@.drop_first() =~= ".INF"@ && "-.INF"@.drop_first() =~= ".INF"@);
    if s.len() > 0 && (s[0] == '-' || s[0] == '+') {
        assert(s =~= seq![s[0]] + s.drop_first());
        assert("+.inf"@ =~= seq!['+'] + ".inf"@ && "-.inf"@ =~= seq!['-'] + ".inf"@);
        assert("+.Inf"@ =~= seq!['+'] + ".Inf"@ && "-.Inf"@ =~= seq!['-'] + ".Inf"@);
        assert("+.INF"@ =~= seq!['+'] + ".INF"@ && "-.INF"@ =~= seq!['-'] + ".INF"@);
    }
}

/// One sign in front is dropped, and nothing else.
pub proof fn one_sign_is_dropped(s: Seq<char>)
    ensures
        unsigned(seq!['-'] + s) == s,
        unsigned(seq!['+'] + s) == s,
        s.len() > 0 && s[0] != '-' && s[0] != '+' ==> unsigned(s) == s,
        s.len() == 0 ==> unsigned(s) == s,
{
    assert((seq!['-'] + s).drop_first() =~= s);
    assert((seq!['+'] + s).drop_first() =~= s);
}

/// Underscores are dropped, and nothing else.
pub proof fn only_underscores_are_dropped(a: Seq<char>, b: Seq<char>, c: char)
    ensures
        without_underscores(a + b) == without_underscores(a) + without_underscores(b),
        without_underscores(seq!['_']) == Seq::<char>::empty(),
        c != '_' ==> without_underscores(seq![c]) == seq![c],
{
    lemma_without_underscores_add(a, b);
    reveal_with_fuel(Seq::filter, 2);
    assert(seq!['_'].drop_last() =~= Seq::<char>::empty());
    assert(without_underscores(seq!['_']) =~= Seq::<char>::empty());
    if c != '_' {
        lemma_no_underscores(seq![c]);
    }
}

/// A base is announced by a zero and its letter, and each base has its own digits.
pub proof fn a_base_is_announced_by_its_letter(s: Seq<char>, c: char)
    ensures
        announced_base(seq!['0', 'x'] + s) == 16,
        announced_base(seq!['0', 'o'] + s) == 8,
        announced_base(seq!['0', 'b'] + s) == 2,
        announced_base(s) > 0 ==> s.len() >= 2 && s[0] == '0' && (s[1] == 'x' || s[1] == 'o'
            || s[1] == 'b'),
        digit_of_base(c, 16) <==> "0123456789abcdef"@.contains(c),
        digit_of_base(c, 8) <==> "01234567"@.contains(c),
        digit_of_base(c, 2) <==> "01"@.contains(c),
{
    reveal_strlit("0123456789abcdef");
    reveal_strlit("01234567");
    reveal_strlit("01");
    let (x, o, b) = ("0123456789abcdef"@, "01234567"@, "01"@);
    if '0' <= c <= '9' {
        assert(x[c as int - '0' as int] == c);
    }
    if 'a' <= c <= 'f' {
        assert(x[c as int - 'a' as int + 10] == c);
    }
    if '0' <= c <= '7' {
        assert(o[c as int - '0' as int] == c);
    }
    if c == '0' || c == '1' {
        assert(b[c as int - '0' as int] == c);
    }
}

// ---------------------------------------------------------------------------------------------
// Escapes
// ---------------------------------------------------------------------------------------------

/// A character that does not have to be escaped stands for itself, but for the quote and the
/// backslash.
pub proof fn ordinary_characters_stand_for_themselves(c: char)
    requires
        !must_escape(c),
        c != '"',
        c != '\\',
    ensures
        escape(c) == seq![c],
{
}

/// A hexadecimal digit in upper case.
pub open spec fn upper_hex(c: char) -> bool {
    '0' <= c <= '9' || 'A' <= c <= 'F'
}

proof fn lemma_hex(n: int, width: nat)
    requires
        n >= 0,
    ensures
        hex_text(n, width).len() == width,
        forall|i: int| 0 <= i < width ==> upper_hex(#[trigger] hex_text(n, width)[i]),
    decreases width,
{
    if width > 0 {
        lemma_hex(n / 16, (width - 1) as nat);
        assert(upper_hex(hex_digit(n % 16)));
    }
}

/// What a hexadecimal digit in upper case is worth.
pub open spec fn hex_worth(c: char) -> int {
    if c <= '9' {
        c as int - '0' as int
    } else {
        c as int - 'A' as int + 10
    }
}

/// The number that hexadecimal digits spell.
pub open spec fn hex_value(text: Seq<char>) -> int
    decreases text.len(),
{
    if text.len() == 0 {
        0
    } else {
        16 * hex_value(text.drop_last()) + hex_worth(text.last())
    }
}

/// How many numbers a width of hexadecimal digits can tell apart.
spec fn hex_limit(width: nat) -> int
    decreases width,
{
    if width == 0 {
        1
    } else {
        16 * hex_limit((width - 1) as nat)
    }
}

proof fn lemma_hex_value(n: int, width: nat)
    requires
        0 <= n < hex_limit(width),
    ensures
        hex_value(hex_text(n, width)) == n,
    decreases width,
{
    if width > 0 {
        lemma_hex_value(n / 16, (width - 1) as nat);
        let text = hex_text(n, width);
        assert(text.drop_last() =~= hex_text(n / 16, (width - 1) as nat));
        assert(hex_worth(hex_digit(n % 16)) == n % 16);
    }
}

/// The characters with an escape of one letter.
pub open spec fn named_escape(c: char) -> Option<char> {
    if c as u32 == 0 {
        Some('0')
    } else if c as u32 == 0x07 {
        Some('a')
    } else if c as u32 == 0x08 {
        Some('b')
    } else if c as u32 == 0x09 {
        Some('t')
    } else if c as u32 == 0x0A {
        Some('n')
    } else if c as u32 == 0x0B {
        Some('v')
    } else if c as u32 == 0x0C {
        Some('f')
    } else if c as u32 == 0x0D {
        Some('r')
    } else if c as u32 == 0x1B {
        Some('e')
    } else if c as u32 == 0x85 {
        Some('N')
    } else if c as u32 == 0x2028 {
        Some('L')
    } else if c as u32 == 0x2029 {
        Some('P')
    } else if c == '"' || c == '\\' {
        Some(c)
    } else {
        None
    }
}

/// A character with a name is escaped by its name; any other that has to be is escaped by its
/// number, in two hexadecimal digits up to 255 and in eight above.
pub proof fn an_escape_is_a_name_or_a_number(c: char)
    requires
        must_escape(c) || c == '"' || c == '\\',
    ensures
        escape(c)[0] == '\\',
        named_escape(c) matches Some(name) ==> escape(c) == seq!['\\', name],
        named_escape(c) is None && c as u32 <= 0xFF ==> escape(c).len() == 4 && escape(c)[1] == 'x',
        named_escape(c) is None && c as u32 > 0xFF ==> escape(c).len() == 10 && escape(c)[1] == 'U',
        forall|i: int| 2 <= i < escape(c).len() ==> upper_hex(#[trigger] escape(c)[i]),
        named_escape(c) is None ==> hex_value(escape(c).skip(2)) == c as int,
{
    lemma_hex(c as int, 2);
    lemma_hex(c as int, 8);
    reveal_with_fuel(hex_limit, 9);
    if named_escape(c) is None {
        if c as u32 <= 0xFF {
            lemma_hex_value(c as int, 2);
            assert(escape(c).skip(2) =~= hex_text(c as int, 2));
        } else {
            lemma_hex_value(c as int, 8);
            assert(escape(c).skip(2) =~= hex_text(c as int, 8));
        }
    }
    assert forall|i: int| 2 <= i < escape(c).len() implies upper_hex(#[trigger] escape(c)[i]) by {
        if named_escape(c) is None && c as u32 <= 0xFF {
            assert(escape(c)[i] == hex_text(c as int, 2)[i - 2]);
        } else if named_escape(c) is None {
            assert(escape(c)[i] == hex_text(c as int, 8)[i - 2]);
        }
    }
}

/// What stands between double quotes is put together from its characters, one by one.
pub proof fn escapes_add_up(a: Seq<char>, b: Seq<char>, c: char)
    ensures
        escaped(a + b) == escaped(a) + escaped(b),
        escaped(seq![c]) == escape(c),
    decreases a.len(),
{
    reveal_with_fuel(escaped, 2);
    assert(seq![c].drop_first() =~= Seq::<char>::empty());
    assert(escaped(seq![c]) =~= escape(c));
    if a.len() == 0 {
        assert(a + b =~= b);
        assert(escaped(a) + escaped(b) =~= escaped(b));
    } else {
        assert((a + b).drop_first() =~= a.drop_first() + b);
        escapes_add_up(a.drop_first(), b, c);
        assert(escaped(a + b) =~= escaped(a) + escaped(b));
    }
}

// ---------------------------------------------------------------------------------------------
// The lines of a collection
// ---------------------------------------------------------------------------------------------

/// A collection with something in it.
pub open spec fn holds_something(n: Node) -> bool {
    match n {
        Node::Sequence(items) => items.len() > 0,
        Node::Mapping(entries) => entries.len() > 0,
        _ => false,
    }
}

/// Anything but a collection with something in it takes one line.
pub proof fn anything_else_takes_one_line(n: Node)
    requires
        !holds_something(n),
    ensures
        block_lines(n) == seq![flow_text(n)],
{
}

/// The items of a sequence take their lines one after another.
pub proof fn items_follow_one_another(a: Seq<Node>, b: Seq<Node>)
    requires
        a.len() > 0,
        b.len() > 0,
    ensures
        block_lines(Node::Sequence(a + b)) == block_lines(Node::Sequence(a)) + block_lines(
            Node::Sequence(b),
        ),
{
    lemma_sequence_add(a, b);
}

proof fn lemma_sequence_add(a: Seq<Node>, b: Seq<Node>)
    ensures
        sequence_lines(a + b) == sequence_lines(a) + sequence_lines(b),
    decreases a.len(),
{
    if a.len() == 0 {
        assert(a + b =~= b);
        assert(sequence_lines(a) + sequence_lines(b) =~= sequence_lines(b));
    } else {
        lemma_sequence_add(a.drop_first(), b);
        assert((a + b).drop_first() =~= a.drop_first() + b);
        assert(sequence_lines(a + b) =~= sequence_lines(a) + sequence_lines(b));
    }
}

/// An item stands behind a dash, with its further lines in the column of its first.
pub proof fn an_item_stands_behind_a_dash(item: Node)
    ensures
        ({
            let lines = block_lines(Node::Sequence(seq![item]));
            let own = block_lines(item);
            &&& lines.len() == own.len()
            &&& own.len() > 0
            &&& lines[0] == seq!['-', ' '] + own[0]
            &&& forall|i: int| 0 < i < own.len() ==> #[trigger] lines[i] == seq![' ', ' '] + own[i]
        }),
{
    lemma_block_lines_nonempty(item);
    let items = seq![item];
    assert(items.drop_first() =~= Seq::<Node>::empty());
    assert(sequence_lines(Seq::empty()) == Seq::<Seq<char>>::empty());
    assert(sequence_lines(items) == dashed(block_lines(items[0])) + sequence_lines(
        items.drop_first(),
    ));
    assert(block_lines(Node::Sequence(items)) =~= dashed(block_lines(item)));
}

/// The entries of a mapping take their lines one after another.
pub proof fn entries_follow_one_another(a: Seq<(Node, Node)>, b: Seq<(Node, Node)>)
    requires
        a.len() > 0,
        b.len() > 0,
    ensures
        block_lines(Node::Mapping(a + b)) == block_lines(Node::Mapping(a)) + block_lines(
            Node::Mapping(b),
        ),
{
    lemma_mapping_add(a, b);
}

proof fn lemma_mapping_add(a: Seq<(Node, Node)>, b: Seq<(Node, Node)>)
    ensures
        mapping_lines(a + b) == mapping_lines(a) + mapping_lines(b),
    decreases a.len(),
{
    if a.len() == 0 {
        assert(a + b =~= b);
        assert(mapping_lines(a) + mapping_lines(b) =~= mapping_lines(b));
    } else {
        lemma_mapping_add(a.drop_first(), b);
        assert((a + b).drop_first() =~= a.drop_first() + b);
        assert((a + b)[0] == a[0]);
        assert(mapping_lines(a + b) =~= mapping_lines(a) + mapping_lines(b));
    }
}

/// A value stands behind its key and a colon: on the same line if it takes one line, and otherwise
/// on lines of its own below, two columns further in.
pub proof fn a_value_stands_behind_its_key(key: Node, value: Node)
    ensures
        ({
            let lines = block_lines(Node::Mapping(seq![(key, value)]));
            let own = block_lines(value);
            if holds_something(value) {
                &&& lines.len() == own.len() + 1
                &&& lines[0] == flow_text(key) + seq![':']
                &&& forall|i: int|
                    0 <= i < own.len() ==> #[trigger] lines[i + 1] == seq![' ', ' '] + own[i]
            } else {
                lines == seq![flow_text(key) + seq![':', ' '] + flow_text(value)]
            }
        }),
{
    let entries = seq![(key, value)];
    assert(entries.drop_first() =~= Seq::<(Node, Node)>::empty());
    assert(mapping_lines(Seq::empty()) == Seq::<Seq<char>>::empty());
    let lines = block_lines(Node::Mapping(entries));
    assert(lines == mapping_lines(entries));
    assert(entries[0] == (key, value));
    if holds_something(value) {
        let inner = indented(block_lines(value));
        assert(lines =~= seq![flow_text(key) + seq![':']] + inner);
        assert forall|i: int| 0 <= i < inner.len() implies #[trigger] lines[i + 1] == seq![
            ' ',
            ' ',
        ] + block_lines(value)[i] by {
            assert(lines[i + 1] == inner[i]);
        }
    } else {
        assert(lines =~= seq![flow_text(key) + seq![':', ' '] + flow_text(value)]);
    }
}

/// A document is its lines, each ended by a line feed.
pub proof fn a_document_is_its_lines(n: Node, a: Seq<Seq<char>>, b: Seq<Seq<char>>, line: Seq<char>)
    ensures
        document_text(n) == lines_text(block_lines(n), Seq::empty()),
        lines_text(a + b, Seq::empty()) == lines_text(a, Seq::empty()) + lines_text(
            b,
            Seq::empty(),
        ),
        lines_text(seq![line], Seq::empty()) == line.push('\n'),
{
    lemma_lines_text_add(a, b, Seq::empty());
    lemma_lines_text_one(line, Seq::empty());
    assert(Seq::<char>::empty() + line + seq!['\n'] =~= line.push('\n'));
}

// ---------------------------------------------------------------------------------------------
// One line
// ---------------------------------------------------------------------------------------------

/// Null and the booleans are written as the words for them, numbers as they are spelled, strings in
/// their style, and tags before their values.
pub proof fn scalars_are_written_as_words(b: bool, text: Seq<char>, tag: Seq<char>, inner: Node)
    ensures
        flow_text(Node::Null) == "null"@,
        flow_text(Node::Bool(b)) == (if b {
            "true"@
        } else {
            "false"@
        }),
        flow_text(Node::Number(text)) == text,
        flow_text(Node::Str(text)) == scalar_text(text),
        flow_text(Node::Tagged(tag, Box::new(inner))) == tag.push(' ') + flow_text(inner),
{
    assert(tag + seq![' '] =~= tag.push(' '));
}

/// The items of a sequence on one line stand between brackets, with a comma and a space between
/// them.
pub proof fn items_stand_between_brackets(a: Seq<Node>, b: Seq<Node>, item: Node)
    requires
        a.len() > 0,
        b.len() > 0,
    ensures
        flow_text(Node::Sequence(Seq::empty())) == seq!['[', ']'],
        flow_text(Node::Sequence(seq![item])) == seq!['['] + flow_text(item) + seq![']'],
        flow_text(Node::Sequence(a + b)) == flow_text(Node::Sequence(a)).drop_last() + seq![
            ',',
            ' ',
        ] + flow_text(Node::Sequence(b)).drop_first(),
{
    assert(flow_items(Seq::empty()) == Seq::<char>::empty());
    assert(flow_text(Node::Sequence(Seq::empty())) =~= seq!['[', ']']);
    assert(flow_items(seq![item]) == flow_text(seq![item][0]));
    lemma_items_add(a, b);
    let (x, y) = (flow_items(a), flow_items(b));
    assert((seq!['['] + x + seq![']']).drop_last() =~= seq!['['] + x);
    assert((seq!['['] + y + seq![']']).drop_first() =~= y + seq![']']);
    assert(flow_text(Node::Sequence(a + b)) =~= seq!['['] + x + seq![',', ' '] + (y + seq![']']));
}

proof fn lemma_items_add(a: Seq<Node>, b: Seq<Node>)
    requires
        a.len() > 0,
        b.len() > 0,
    ensures
        flow_items(a + b) == flow_items(a) + seq![',', ' '] + flow_items(b),
    decreases a.len(),
{
    assert((a + b).drop_first() =~= a.drop_first() + b);
    assert((a + b)[0] == a[0]);
    if a.len() == 1 {
        assert(a.drop_first() + b =~= b);
    } else {
        lemma_items_add(a.drop_first(), b);
    }
    assert(flow_items(a + b) =~= flow_items(a) + seq![',', ' '] + flow_items(b));
}

/// The entries of a mapping on one line stand between braces, each value behind its key, a colon
/// and a space, with a comma and a space between them.
pub proof fn entries_stand_between_braces(
    a: Seq<(Node, Node)>,
    b: Seq<(Node, Node)>,
    key: Node,
    value: Node,
)
    requires
        a.len() > 0,
        b.len() > 0,
    ensures
        flow_text(Node::Mapping(Seq::empty())) == seq!['{', '}'],
        flow_text(Node::Mapping(seq![(key, value)])) == seq!['{'] + flow_text(key) + seq![':', ' ']
            + flow_text(value) + seq!['}'],
        flow_text(Node::Mapping(a + b)) == flow_text(Node::Mapping(a)).drop_last() + seq![',', ' ']
            + flow_text(Node::Mapping(b)).drop_first(),
{
    assert(flow_entries(Seq::empty()) == Seq::<char>::empty());
    assert(flow_text(Node::Mapping(Seq::empty())) =~= seq!['{', '}']);
    let one = seq![(key, value)];
    assert(flow_entries(one) == flow_text(one[0].0) + seq![':', ' '] + flow_text(one[0].1));
    assert(flow_text(Node::Mapping(one)) =~= seq!['{'] + flow_text(key) + seq![
        ':',
        ' ',
    ] + flow_text(value) + seq!['}']);
    lemma_flow_entries_add(a, b);
    let (x, y) = (flow_entries(a), flow_entries(b));
    assert((seq!['{'] + x + seq!['}']).drop_last() =~= seq!['{'] + x);
    assert((seq!['{'] + y + seq!['}']).drop_first() =~= y + seq!['}']);
    assert(flow_text(Node::Mapping(a + b)) =~= seq!['{'] + x + seq![',', ' '] + (y + seq!['}']));
}

proof fn lemma_flow_entries_add(a: Seq<(Node, Node)>, b: Seq<(Node, Node)>)
    requires
        a.len() > 0,
        b.len() > 0,
    ensures
        flow_entries(a + b) == flow_entries(a) + seq![',', ' '] + flow_entries(b),
    decreases a.len(),
{
    assert((a + b).drop_first() =~= a.drop_first() + b);
    assert((a + b)[0] == a[0]);
    if a.len() == 1 {
        assert(a.drop_first() + b =~= b);
    } else {
        lemma_flow_entries_add(a.drop_first(), b);
    }
    assert(flow_entries(a + b) =~= flow_entries(a) + seq![',', ' '] + flow_entries(b));
}

// ---------------------------------------------------------------------------------------------
// Values
// ---------------------------------------------------------------------------------------------

/// A value denotes what it holds: a scalar itself, a sequence what its items denote, in order, a
/// mapping what its keys and values denote, in order.
pub proof fn a_value_denotes_what_it_holds(
    b: bool,
    s: String,
    items: Vec<Value>,
    entries: Vec<(Value, Value)>,
    n: Number,
)
    ensures
        Value::Null@ == Node::Null,
        Value::Bool(b)@ == Node::Bool(b),
        Value::String(s)@ == Node::Str(s@),
        Value::Number(n)@ == Node::Number(n@),
        Value::Sequence(items)@ matches Node::Sequence(nodes) && nodes.len() == items@.len()
            && forall|i: int| 0 <= i < items@.len() ==> #[trigger] nodes[i] == items@[i]@,
        Value::Mapping(entries)@ matches Node::Mapping(pairs) && pairs.len() == entries@.len()
            && forall|i: int|
            0 <= i < entries@.len() ==> #[trigger] pairs[i] == (entries@[i].0@, entries@[i].1@),
{
    lemma_nodes_of(items@);
    lemma_entries_of(entries@);
}

/// A number is spelled in decimal, with a sign in front exactly if it is negative.
pub proof fn an_integer_is_spelled_in_decimal(u: u64, i: i64, text: String)
    ensures
        spells(Number::Unsigned(u)@, u as nat),
        i >= 0 ==> spells(Number::Signed(i)@, i as nat),
        i < 0 ==> Number::Signed(i)@[0] == '-' && spells(
            Number::Signed(i)@.drop_first(),
            (-(i as int)) as nat,
        ),
        Number::Float(text)@ == text@,
{
    a_number_is_written_in_decimal(u as nat);
    if i >= 0 {
        a_number_is_written_in_decimal(i as nat);
    } else {
        a_number_is_written_in_decimal((-(i as int)) as nat);
        assert(Number::Signed(i)@.drop_first() =~= natural_text((-(i as int)) as nat));
    }
}

/// A tag is spelled with one mark in front of its name, whether or not the name brings one.
pub proof fn a_tag_has_one_mark_in_front(name: Seq<char>)
    requires
        name.len() > 0,
        name[0] != '!',
    ensures
        tag_text(name) == seq!['!'] + name,
        tag_text(seq!['!'] + name) == seq!['!'] + name,
{
}

} // verus!
