//! What is written reads back: the text of a document determines the value that it was written
//! from.

use vstd::prelude::*;
use crate::text::{ascii_lower, ascii_lowered, control, digit, lemma_trimmed_ends};
use crate::yaml::core_schema::{core_decimal, core_number, lemma_decimal};
use crate::yaml::layout::{
    block_lines, dashed, document_text, flow_entries, flow_items, flow_text, indented, is_block,
    lemma_block_lines_nonempty, lines_text, mapping_lines, sequence_lines,
};
use crate::yaml::reader::{
    all_printable, dash_line, distinct_keys, document_end, flow_mark, hex_number, hex_value,
    inner_end, inner_line, line_end, outdented, plain_len, plain_start, plain_stop, printable,
    read_block, read_document, read_double, read_entries, read_escape, read_flow, read_items,
    read_mapping, read_sequence, read_single, read_untagged, resolved, split_lines, tag_char,
    tag_len, LONGEST_KEY,
};
use crate::yaml::scalar::{
    all_are, announced_base, basic, basics_are, comment_mark, decimal, digit_of_base, escape,
    escaped, first_index, hex_digit, hex_text, infinity, key_mark, lemma_first_index, lemma_scalar_chars,
    must_escape, non_string, number_like, plain_safe, quotes_doubled, scalar_text, special_float,
    unescaped_are, unprintable, unsigned, without_underscores,
};
use crate::yaml::value::Node;

verus! {

// ---------------------------------------------------------------------------------------------
// Which values read back
// ---------------------------------------------------------------------------------------------

/// A text without the two code points that YAML lets stand neither raw nor, here, escaped.
pub open spec fn readable_text(s: Seq<char>) -> bool {
    forall|i: int|
        0 <= i < s.len() ==> (#[trigger] s[i]) as u32 != 0xFFFE && s[i] as u32 != 0xFFFF
}

/// A tag that is a `!` before characters that need no escapes.
pub open spec fn readable_tag(t: Seq<char>) -> bool {
    &&& t.len() > 1
    &&& t[0] == '!'
    &&& forall|i: int| 1 <= i < t.len() ==> tag_char(#[trigger] t[i])
}

/// A string that is written without quotes.
pub open spec fn plain(s: Seq<char>) -> bool {
    !unprintable(s) && !non_string(s) && plain_safe(s)
}

/// Keys that read back: each of them takes one line that is not too long, and none occurs twice.
pub open spec fn readable_keys(entries: Seq<(Node, Node)>) -> bool {
    &&& distinct_keys(entries)
    &&& forall|i: int|
        0 <= i < entries.len() ==> flow_text((#[trigger] entries[i]).0).len() <= LONGEST_KEY
}

/// A value that reads back from one line. A number is spelled as such. Inside a flow collection, a
/// string without quotes must be free of the marks that delimit the collection.
pub open spec fn readable_flow(n: Node, in_flow: bool) -> bool
    decreases n,
{
    match n {
        Node::Null => true,
        Node::Bool(_) => true,
        Node::Number(text) => core_number(text),
        Node::Str(s) => readable_text(s) && (in_flow && plain(s) ==> forall|i: int|
            0 <= i < s.len() ==> !flow_mark(#[trigger] s[i])),
        Node::Sequence(items) => forall|i: int|
            0 <= i < items.len() ==> readable_flow(#[trigger] items[i], true),
        Node::Mapping(entries) => readable_keys(entries) && forall|i: int|
            0 <= i < entries.len() ==> readable_flow((#[trigger] entries[i]).0, true)
                && readable_flow(entries[i].1, true),
        Node::Tagged(tag, inner) => readable_tag(tag) && !(*inner is Tagged) && readable_flow(
            *inner,
            in_flow,
        ),
    }
}

/// A value that reads back from its lines.
pub open spec fn readable_block(n: Node) -> bool
    decreases n,
{
    if !is_block(n) {
        readable_flow(n, false)
    } else {
        match n {
            Node::Sequence(items) => forall|i: int|
                0 <= i < items.len() ==> readable_block(#[trigger] items[i]),
            Node::Mapping(entries) => readable_keys(entries) && forall|i: int|
                0 <= i < entries.len() ==> readable_flow((#[trigger] entries[i]).0, false)
                    && readable_block(entries[i].1),
            _ => false,
        }
    }
}

/// A value that reads back from a document of its own: moreover, the document does not begin with a
/// byte order mark, and none of its lines ends it.
pub open spec fn readable(n: Node) -> bool {
    &&& readable_block(n)
    &&& document_text(n)[0] != '\u{feff}'
    &&& forall|i: int|
        0 <= i < block_lines(n).len() ==> !document_end(#[trigger] block_lines(n)[i])
}

// ---------------------------------------------------------------------------------------------
// Quoted scalars
// ---------------------------------------------------------------------------------------------

proof fn lemma_read_single(s: Seq<char>, rest: Seq<char>)
    requires
        rest.len() == 0 || rest[0] != '\'',
    ensures
        read_single(quotes_doubled(s) + seq!['\''] + rest) == Some((s, rest)),
    decreases s.len(),
{
    let t = quotes_doubled(s) + seq!['\''] + rest;
    if s.len() == 0 {
        assert(t == seq!['\''] + rest);
        assert(t.drop_first() =~= rest);
        assert(s =~= Seq::<char>::empty());
    } else {
        let more = quotes_doubled(s.drop_first()) + seq!['\''] + rest;
        lemma_read_single(s.drop_first(), rest);
        assert(s =~= seq![s[0]] + s.drop_first());
        if s[0] == '\'' {
            assert(t =~= seq!['\'', '\''] + more);
            assert(t.skip(2) =~= more);
        } else {
            assert(t =~= seq![s[0]] + more);
            assert(t.drop_first() =~= more);
        }
    }
}

spec fn power16(w: nat) -> int
    decreases w,
{
    if w == 0 {
        1
    } else {
        16 * power16((w - 1) as nat)
    }
}

proof fn lemma_hex(n: int, w: nat)
    requires
        0 <= n < power16(w),
    ensures
        hex_text(n, w).len() == w,
        hex_number(hex_text(n, w)) == n,
    decreases w,
{
    if w > 0 {
        lemma_hex(n / 16, (w - 1) as nat);
        let t = hex_text(n, w);
        assert(t.drop_last() =~= hex_text(n / 16, (w - 1) as nat));
        assert(t.last() == hex_digit(n % 16));
        assert(hex_value(hex_digit(n % 16)) == n % 16);
    }
}

/// Reading an escape gives back the character, whatever follows.
proof fn lemma_read_escape(c: char, t: Seq<char>)
    ensures
        escape(c).len() > 0,
        escape(c)[0] == '\\' ==> read_escape((escape(c) + t).drop_first()) == Some(
            (c, escape(c).len() - 1),
        ),
        escape(c)[0] != '\\' ==> escape(c) == seq![c] && c != '"',
{
    let e = escape(c);
    let u = (e + t).drop_first();
    if e[0] == '\\' && e.len() == 2 {
        assert(u[0] == e[1]);
    } else if e[0] == '\\' {
        let n = c as int;
        if control(c) {
            assert(power16(2) == 256) by {
                reveal_with_fuel(power16, 3);
            }
            lemma_hex(n, 2);
            assert(u[0] == 'x');
            assert(u.subrange(1, 3) =~= hex_text(n, 2));
        } else {
            assert(power16(8) == 0x1_0000_0000) by {
                reveal_with_fuel(power16, 9);
            }
            lemma_hex(n, 8);
            assert(u[0] == 'U');
            assert(u.subrange(1, 9) =~= hex_text(n, 8));
        }
    }
}

proof fn lemma_read_double(s: Seq<char>, rest: Seq<char>)
    ensures
        read_double(escaped(s) + seq!['"'] + rest) == Some((s, rest)),
    decreases s.len(),
{
    let t = escaped(s) + seq!['"'] + rest;
    if s.len() == 0 {
        assert(t == seq!['"'] + rest);
        assert(t.drop_first() =~= rest);
        assert(s =~= Seq::<char>::empty());
    } else {
        let e = escape(s[0]);
        let more = escaped(s.drop_first()) + seq!['"'] + rest;
        lemma_read_double(s.drop_first(), rest);
        lemma_read_escape(s[0], more);
        assert(s =~= seq![s[0]] + s.drop_first());
        assert(t =~= e + more);
        if e[0] == '\\' {
            assert(t.skip(e.len() as int) =~= more);
        } else {
            assert(t.drop_first() =~= more);
        }
    }
}

// ---------------------------------------------------------------------------------------------
// Plain scalars
// ---------------------------------------------------------------------------------------------

/// A plain scalar ends at its first stop.
proof fn lemma_plain_len(t: Seq<char>, from: int, n: int, in_flow: bool)
    requires
        0 <= from <= n <= t.len(),
        forall|i: int| from <= i < n ==> !#[trigger] plain_stop(t, i, in_flow),
        n < t.len() ==> plain_stop(t, n, in_flow),
    ensures
        plain_len(t, from, in_flow) == n,
    decreases n - from,
{
    if from < n {
        assert(!plain_stop(t, from, in_flow));
        lemma_plain_len(t, from + 1, n, in_flow);
    }
}

/// A text that begins as a plain scalar may, and that nothing inside ends.
spec fn unbroken(s: Seq<char>, in_flow: bool) -> bool {
    &&& plain_start(s)
    &&& s[0] != '!' && s[0] != '"' && s[0] != '\'' && s[0] != '[' && s[0] != '{'
    &&& s.last() != ' '
    &&& s.last() != ':'
    &&& forall|i: int| 0 <= i < s.len() ==> !#[trigger] key_mark(s, i)
    &&& forall|i: int| 0 <= i < s.len() ==> !#[trigger] comment_mark(s, i)
    &&& in_flow ==> forall|i: int| 0 <= i < s.len() ==> !flow_mark(#[trigger] s[i])
}

/// What may follow a value: nothing, a colon that ends a key, or the mark that ends an item.
spec fn follows(rest: Seq<char>, in_flow: bool) -> bool {
    ||| rest.len() == 0
    ||| key_mark(rest, 0)
    ||| in_flow && (rest[0] == ',' || rest[0] == ']' || rest[0] == '}')
}

proof fn lemma_read_plain(s: Seq<char>, rest: Seq<char>, in_flow: bool)
    requires
        unbroken(s, in_flow),
        follows(rest, in_flow),
    ensures
        read_flow(s + rest, in_flow) == Some((resolved(s), rest)),
{
    let t = s + rest;
    let n = s.len() as int;
    assert forall|i: int| 0 <= i < n implies !#[trigger] plain_stop(t, i, in_flow) by {
        assert(t[i] == s[i]);
        assert(!key_mark(s, i));
        assert(!comment_mark(s, i));
        if i + 1 < n {
            assert(t[i + 1] == s[i + 1]);
        } else {
            assert(s.last() == s[i]);
        }
    }
    if n < t.len() {
        assert(t[n] == rest[0]);
        if rest.len() > 1 {
            assert(t[n + 1] == rest[1]);
        }
        assert(plain_stop(t, n, in_flow));
    }
    lemma_plain_len(t, 0, n, in_flow);
    assert(t[0] == s[0]);
    assert(plain_start(t)) by {
        if s.len() > 1 {
            assert(t[1] == s[1]);
        }
    }
    assert(t.take(n) =~= s);
    assert(t.skip(n) =~= rest);
}

/// A string that is written plain reads back.
proof fn lemma_plain_unbroken(s: Seq<char>, in_flow: bool)
    requires
        plain(s),
        in_flow ==> forall|i: int| 0 <= i < s.len() ==> !flow_mark(#[trigger] s[i]),
    ensures
        unbroken(s, in_flow),
        resolved(s) == Node::Str(s),
{
    lemma_trimmed_ends(s);
    let last = s.len() - 1;
    assert(!key_mark(s, last));
    assert(s.last() == s[last]);
}

/// What a number is spelled with.
spec fn number_char(c: char) -> bool {
    digit(c) || 'a' <= c <= 'z' || 'A' <= c <= 'Z' || c == '.' || c == '_' || c == '+' || c == '-'
}

/// Dropping the underscores drops nothing else.
proof fn lemma_without_underscores(s: Seq<char>, i: int)
    requires
        0 <= i < s.len(),
        s[i] != '_',
    ensures
        without_underscores(s).contains(s[i]),
{
    s.lemma_filter_contains(|c: char| c != '_', i);
}

proof fn lemma_decimal_chars(s: Seq<char>, i: int)
    requires
        decimal(s),
        0 <= i < s.len(),
    ensures
        digit(s[i]) || s[i] == '.' || s[i] == 'e' || s[i] == '+' || s[i] == '-',
{
    let e = first_index(s, 'e');
    lemma_first_index(s, 'e');
    if i < e {
        assert(s.take(e)[i] == s[i]);
    } else if i > e {
        let after = s.skip(e + 1);
        let power = unsigned(after);
        assert(s[i] == after[i - e - 1]);
        if power == after {
            assert(digit(power[i - e - 1]));
        } else if i - e - 1 > 0 {
            assert(power[i - e - 2] == after[i - e - 1]);
            assert(digit(power[i - e - 2]));
        }
    }
}

proof fn lemma_special_float_chars(s: Seq<char>)
    requires
        special_float(s),
    ensures
        s.len() > 1,
        forall|i: int| 0 <= i < s.len() ==> number_char(#[trigger] s[i]),
{
    reveal_strlit(".inf");
    reveal_strlit(".Inf");
    reveal_strlit(".INF");
    reveal_strlit(".nan");
    reveal_strlit(".NaN");
    reveal_strlit(".NAN");
    let d = unsigned(s);
    let word = if infinity(d) {
        d
    } else {
        s
    };
    assert(word.len() == 4);
    assert(number_char(word[0]) && number_char(word[1]) && number_char(word[2]) && number_char(
        word[3],
    ));
    assert forall|i: int| 0 <= i < s.len() implies number_char(#[trigger] s[i]) by {
        if word == s {
            assert(number_char(word[i]));
        } else if i > 0 {
            assert(word[i - 1] == s[i]);
        }
    }
}

proof fn lemma_number_chars(s: Seq<char>)
    requires
        number_like(s),
    ensures
        s.len() > 0,
        forall|i: int| 0 <= i < s.len() ==> number_char(#[trigger] s[i]),
        s[0] == '-' ==> s.len() > 1,
{
    let d = unsigned(s);
    let lower = ascii_lowered(d);
    let base = announced_base(lower);
    if special_float(s) {
        lemma_special_float_chars(s);
    }
    assert forall|j: int| 0 <= j < d.len() implies number_char(#[trigger] d[j]) by {
        assert(lower[j] == ascii_lower(d[j]));
        if special_float(s) {
            assert(d[j] == s[j + s.len() - d.len()]);
        } else if lower[j] == '_' {
        } else if base > 0 {
            if j >= 2 {
                let after = lower.skip(2);
                assert(after[j - 2] == lower[j]);
                lemma_without_underscores(after, j - 2);
                let rest = without_underscores(after);
                let k = choose|k: int| 0 <= k < rest.len() && rest[k] == lower[j];
                assert(digit_of_base(rest[k], base));
            }
        } else {
            lemma_without_underscores(lower, j);
            let rest = without_underscores(lower);
            let k = choose|k: int| 0 <= k < rest.len() && rest[k] == lower[j];
            lemma_decimal_chars(rest, k);
        }
    }
    assert forall|i: int| 0 <= i < s.len() implies number_char(#[trigger] s[i]) by {
        if d == s {
            assert(number_char(d[i]));
        } else if i > 0 {
            assert(d[i - 1] == s[i]);
        }
    }
}

proof fn lemma_core_number(s: Seq<char>)
    requires
        core_number(s),
    ensures
        number_like(s),
{
    if core_decimal(s) {
        lemma_decimal(s);
    }
}

/// A number reads back.
proof fn lemma_number_unbroken(s: Seq<char>, in_flow: bool)
    requires
        number_like(s),
    ensures
        unbroken(s, in_flow),
        resolved(s) == Node::Number(s),
{
    lemma_number_chars(s);
    assert(number_char(s[0]));
    assert(number_char(s.last()));
    if s.len() > 1 {
        assert(number_char(s[1]));
    }
    assert forall|i: int| 0 <= i < s.len() implies !#[trigger] key_mark(s, i) by {
        assert(number_char(s[i]));
    }
    assert forall|i: int| 0 <= i < s.len() implies !#[trigger] comment_mark(s, i) by {
        assert(number_char(s[i]));
    }
    assert forall|i: int| 0 <= i < s.len() implies !flow_mark(#[trigger] s[i]) by {
        assert(number_char(s[i]));
    }
}

/// A text of letters other than `e` is no number.
proof fn lemma_letters_are_no_number(s: Seq<char>)
    requires
        s.len() > 1,
        forall|i: int| 0 <= i < s.len() ==> 'a' <= #[trigger] s[i] <= 'z',
    ensures
        !number_like(s),
{
    let lower = ascii_lowered(s);
    assert(unsigned(s) == s) by {
        assert('a' <= s[0]);
    }
    reveal_strlit(".inf");
    reveal_strlit(".Inf");
    reveal_strlit(".INF");
    reveal_strlit(".nan");
    reveal_strlit(".NaN");
    reveal_strlit(".NAN");
    assert(lower[0] == s[0] && 'a' <= s[0]);
    let rest = without_underscores(lower);
    assert forall|k: int| 0 <= k < rest.len() implies !digit(#[trigger] rest[k]) by {
        assert(rest.contains(rest[k]));
        lower.lemma_filter_contains_rev(|c: char| c != '_', rest[k]);
        let j = choose|j: int| 0 <= j < lower.len() && lower[j] == rest[k];
        assert('a' <= s[j]);
    }
    lemma_first_index(rest, 'e');
}

/// The words for null and the booleans read back.
proof fn lemma_words(in_flow: bool)
    ensures
        unbroken("null"@, in_flow) && resolved("null"@) == Node::Null,
        unbroken("true"@, in_flow) && resolved("true"@) == Node::Bool(true),
        unbroken("false"@, in_flow) && resolved("false"@) == Node::Bool(false),
{
    reveal_strlit("null");
    reveal_strlit("true");
    reveal_strlit("false");
    reveal_strlit("~");
    reveal_strlit("Null");
    reveal_strlit("NULL");
    reveal_strlit("True");
    reveal_strlit("TRUE");
    reveal_strlit("False");
    reveal_strlit("FALSE");
    lemma_letters_are_no_number("null"@);
    lemma_letters_are_no_number("true"@);
    lemma_letters_are_no_number("false"@);
    assert("true"@[0] != "null"@[0]);
    assert("true"@[0] == 't' && "Null"@[0] == 'N' && "NULL"@[0] == 'N' && "~"@[0] == '~');
    assert("false"@[0] == 'f' && "True"@[0] == 'T' && "TRUE"@[0] == 'T');
}

// ---------------------------------------------------------------------------------------------
// Values on one line
// ---------------------------------------------------------------------------------------------

/// How the text of a value on one line begins.
proof fn lemma_flow_head(n: Node, in_flow: bool)
    requires
        readable_flow(n, in_flow),
    ensures
        flow_text(n).len() > 0,
        flow_text(n)[0] != ']' && flow_text(n)[0] != '}',
        !(n is Tagged) ==> flow_text(n)[0] != '!',
        flow_text(n)[0] != ' ',
        !dash_line(flow_text(n)),
        !dash_line(flow_text(n) + seq![':']),
        flow_text(n).len() >= 2 ==> forall|t: Seq<char>| !dash_line(#[trigger] (flow_text(n) + t)),
        flow_text(n).len() == 1 ==> flow_text(n)[0] != '-',
{
    match n {
        Node::Number(text) => {
            lemma_core_number(text);
            lemma_number_chars(text);
            assert(number_char(text[0]));
            if text.len() > 1 {
                assert(number_char(text[1]));
            }
        },
        Node::Str(s) => {
            if plain(s) {
                lemma_trimmed_ends(s);
            }
        },
        Node::Null => {
            reveal_strlit("null");
        },
        Node::Bool(b) => {
            reveal_strlit("true");
            reveal_strlit("false");
        },
        _ => {},
    }
}

proof fn lemma_read_str(s: Seq<char>, in_flow: bool, rest: Seq<char>)
    requires
        readable_flow(Node::Str(s), in_flow),
        follows(rest, in_flow),
    ensures
        read_flow(scalar_text(s) + rest, in_flow) == Some((Node::Str(s), rest)),
{
    let t = scalar_text(s) + rest;
    if unprintable(s) || non_string(s) {
        lemma_read_double(s, rest);
        assert(t.drop_first() =~= escaped(s) + seq!['"'] + rest);
    } else if plain_safe(s) {
        lemma_plain_unbroken(s, in_flow);
        lemma_read_plain(s, rest, in_flow);
    } else {
        lemma_read_single(s, rest);
        assert(t.drop_first() =~= quotes_doubled(s) + seq!['\''] + rest);
    }
}

/// The brackets around a sequence whose items read back.
proof fn lemma_read_brackets(items: Seq<Node>, in_flow: bool, rest: Seq<char>)
    requires
        items.len() > 0 ==> readable_flow(items[0], true),
        items.len() > 0 ==> read_items(flow_items(items) + seq![']'] + rest) == Some((items, rest)),
    ensures
        read_flow(seq!['['] + flow_items(items) + seq![']'] + rest, in_flow) == Some(
            (Node::Sequence(items), rest),
        ),
{
    let t = seq!['['] + flow_items(items) + seq![']'] + rest;
    if items.len() == 0 {
        assert(flow_items(items) == Seq::<char>::empty());
        assert(t =~= seq!['[', ']'] + rest);
        assert(t.skip(2) =~= rest);
        assert(items =~= Seq::<Node>::empty());
    } else {
        assert(t.drop_first() =~= flow_items(items) + seq![']'] + rest);
        lemma_flow_head(items[0], true);
        assert(flow_items(items)[0] == flow_text(items[0])[0]);
        assert(t[1] == flow_text(items[0])[0]);
    }
}

/// The braces around a mapping whose entries read back.
proof fn lemma_read_braces(entries: Seq<(Node, Node)>, in_flow: bool, rest: Seq<char>)
    requires
        distinct_keys(entries),
        entries.len() > 0 ==> readable_flow(entries[0].0, true),
        entries.len() > 0 ==> read_entries(flow_entries(entries) + seq!['}'] + rest) == Some(
            (entries, rest),
        ),
    ensures
        read_flow(seq!['{'] + flow_entries(entries) + seq!['}'] + rest, in_flow) == Some(
            (Node::Mapping(entries), rest),
        ),
{
    let t = seq!['{'] + flow_entries(entries) + seq!['}'] + rest;
    if entries.len() == 0 {
        assert(flow_entries(entries) == Seq::<char>::empty());
        assert(t =~= seq!['{', '}'] + rest);
        assert(t.skip(2) =~= rest);
        assert(entries =~= Seq::<(Node, Node)>::empty());
    } else {
        assert(t.drop_first() =~= flow_entries(entries) + seq!['}'] + rest);
        lemma_flow_head(entries[0].0, true);
        assert(flow_entries(entries)[0] == flow_text(entries[0].0)[0]);
        assert(t[1] == flow_text(entries[0].0)[0]);
    }
}

/// A tag before a value that reads back.
proof fn lemma_read_tag(tag: Seq<char>, inner: Node, in_flow: bool, rest: Seq<char>)
    requires
        readable_tag(tag),
        !(inner is Tagged),
        readable_flow(inner, in_flow),
        read_flow(flow_text(inner) + rest, in_flow) == Some((inner, rest)),
    ensures
        read_flow(tag + seq![' '] + flow_text(inner) + rest, in_flow) == Some(
            (Node::Tagged(tag, Box::new(inner)), rest),
        ),
{
    let t = tag + seq![' '] + flow_text(inner) + rest;
    let more = flow_text(inner) + rest;
    lemma_flow_head(inner, in_flow);
    assert(more[0] == flow_text(inner)[0]);
    assert(read_flow(more, in_flow) == read_untagged(more, in_flow));
    let k = tag.len() as int;
    assert(t =~= tag + seq![' '] + more);
    assert forall|i: int| 1 <= i < k implies tag_char(#[trigger] t[i]) by {
        assert(t[i] == tag[i]);
    }
    assert(t[k] == ' ');
    lemma_tag_len(t, 1, k);
    assert(t.take(k) =~= tag);
    assert(t.skip(k + 1) =~= more);
    assert(t[0] == tag[0]);
}

/// A value on one line reads back, whatever follows that may follow it.
proof fn lemma_read_flow(n: Node, in_flow: bool, rest: Seq<char>)
    requires
        readable_flow(n, in_flow),
        follows(rest, in_flow),
    ensures
        read_flow(flow_text(n) + rest, in_flow) == Some((n, rest)),
    decreases n,
{
    match n {
        Node::Null => {
            lemma_words(in_flow);
            lemma_read_plain("null"@, rest, in_flow);
        },
        Node::Bool(b) => {
            lemma_words(in_flow);
            if b {
                lemma_read_plain("true"@, rest, in_flow);
            } else {
                lemma_read_plain("false"@, rest, in_flow);
            }
        },
        Node::Number(text) => {
            lemma_core_number(text);
            lemma_number_unbroken(text, in_flow);
            lemma_read_plain(text, rest, in_flow);
        },
        Node::Str(s) => {
            lemma_read_str(s, in_flow, rest);
        },
        Node::Sequence(items) => {
            if items.len() > 0 {
                lemma_read_items(items, rest);
            }
            lemma_read_brackets(items, in_flow, rest);
        },
        Node::Mapping(entries) => {
            if entries.len() > 0 {
                assert(readable_flow(entries[0].0, true));
                lemma_read_entries(entries, rest);
            }
            lemma_read_braces(entries, in_flow, rest);
        },
        Node::Tagged(tag, inner) => {
            lemma_read_flow(*inner, in_flow, rest);
            lemma_read_tag(tag, *inner, in_flow, rest);
        },
    }
}

proof fn lemma_tag_len(t: Seq<char>, from: int, n: int)
    requires
        0 <= from <= n < t.len(),
        forall|i: int| from <= i < n ==> tag_char(#[trigger] t[i]),
        !tag_char(t[n]),
    ensures
        tag_len(t, from) == n,
    decreases n - from,
{
    if from < n {
        lemma_tag_len(t, from + 1, n);
    }
}

proof fn lemma_read_items(items: Seq<Node>, rest: Seq<char>)
    requires
        items.len() > 0,
        forall|i: int| 0 <= i < items.len() ==> readable_flow(#[trigger] items[i], true),
    ensures
        read_items(flow_items(items) + seq![']'] + rest) == Some((items, rest)),
    decreases items,
{
    let t = flow_items(items) + seq![']'] + rest;
    let first = flow_text(items[0]);
    lemma_flow_head(items[0], true);
    if items.len() == 1 {
        let after = seq![']'] + rest;
        assert(t =~= first + after);
        lemma_read_flow(items[0], true, after);
        assert(after.drop_first() =~= rest);
        assert(items =~= seq![items[0]]);
    } else {
        let others = items.drop_first();
        let more = flow_items(others) + seq![']'] + rest;
        let after = seq![',', ' '] + more;
        assert(t =~= first + after);
        lemma_read_flow(items[0], true, after);
        assert forall|i: int| 0 <= i < others.len() implies readable_flow(
            #[trigger] others[i],
            true,
        ) by {
            assert(others[i] == items[i + 1]);
        }
        lemma_read_items(others, rest);
        assert(after.skip(2) =~= more);
        assert(items =~= seq![items[0]] + others);
    }
}

/// Without the first of them, keys still read back.
proof fn lemma_fewer_keys(entries: Seq<(Node, Node)>)
    requires
        entries.len() > 0,
        readable_keys(entries),
    ensures
        readable_keys(entries.drop_first()),
{
    let others = entries.drop_first();
    assert forall|i: int, j: int| 0 <= i < j < others.len() implies (#[trigger] others[i]).0
        != (#[trigger] others[j]).0 by {
        assert(others[i] == entries[i + 1] && others[j] == entries[j + 1]);
    }
    assert forall|i: int| 0 <= i < others.len() implies flow_text((#[trigger] others[i]).0).len()
        <= LONGEST_KEY by {
        assert(others[i] == entries[i + 1]);
    }
}

/// One entry, and the brace or the comma behind it.
proof fn lemma_read_entry(key: Node, value: Node, after: Seq<char>)
    requires
        readable_flow(key, true),
        flow_text(key).len() <= LONGEST_KEY,
        readable_flow(value, true),
        after.len() > 0,
        after[0] == '}' || (after.len() >= 2 && after[0] == ',' && after[1] == ' '),
        read_flow(flow_text(value) + after, true) == Some((value, after)),
        forall|rest: Seq<char>|
            follows(rest, true) ==> #[trigger] read_flow(flow_text(key) + rest, true) == Some(
                (key, rest),
            ),
    ensures
        ({
            let t = flow_text(key) + seq![':', ' '] + flow_text(value) + after;
            read_entries(t) == if after[0] == '}' {
                Some((seq![(key, value)], after.drop_first()))
            } else {
                match read_entries(after.skip(2)) {
                    Some((others, end)) => Some((seq![(key, value)] + others, end)),
                    None => None,
                }
            }
        }),
{
    let t = flow_text(key) + seq![':', ' '] + flow_text(value) + after;
    let after_key = seq![':', ' '] + (flow_text(value) + after);
    lemma_flow_head(key, true);
    lemma_flow_head(value, true);
    assert(t =~= flow_text(key) + after_key);
    assert(follows(after_key, true));
    assert(read_flow(flow_text(key) + after_key, true) == Some((key, after_key)));
    assert(after_key.skip(2) =~= flow_text(value) + after);
}

proof fn lemma_read_entries(entries: Seq<(Node, Node)>, rest: Seq<char>)
    requires
        entries.len() > 0,
        readable_keys(entries),
        forall|i: int|
            0 <= i < entries.len() ==> readable_flow((#[trigger] entries[i]).0, true)
                && readable_flow(entries[i].1, true),
    ensures
        read_entries(flow_entries(entries) + seq!['}'] + rest) == Some((entries, rest)),
    decreases entries,
{
    let t = flow_entries(entries) + seq!['}'] + rest;
    let (key, value) = (entries[0].0, entries[0].1);
    assert(readable_flow(entries[0].0, true));
    let first = flow_text(key) + seq![':', ' '] + flow_text(value);
    assert forall|more: Seq<char>| follows(more, true) implies #[trigger] read_flow(
        flow_text(key) + more,
        true,
    ) == Some((key, more)) by {
        lemma_read_flow(key, true, more);
    }
    if entries.len() == 1 {
        let after = seq!['}'] + rest;
        assert(t =~= first + after);
        lemma_read_flow(value, true, after);
        lemma_read_entry(key, value, after);
        assert(after.drop_first() =~= rest);
        assert(entries =~= seq![(key, value)]);
    } else {
        let others = entries.drop_first();
        let more = flow_entries(others) + seq!['}'] + rest;
        let after = seq![',', ' '] + more;
        assert(t =~= first + after);
        lemma_read_flow(value, true, after);
        assert forall|i: int| 0 <= i < others.len() implies readable_flow(
            (#[trigger] others[i]).0,
            true,
        ) && readable_flow(others[i].1, true) by {
            assert(others[i] == entries[i + 1]);
        }
        lemma_fewer_keys(entries);
        lemma_read_entries(others, rest);
        assert(after.skip(2) =~= more);
        lemma_read_entry(key, value, after);
        assert(entries =~= seq![(key, value)] + others);
    }
}

// ---------------------------------------------------------------------------------------------
// Blocks
// ---------------------------------------------------------------------------------------------

proof fn lemma_inner_end(lines: Seq<Seq<char>>, from: int, n: int)
    requires
        0 <= from <= n <= lines.len(),
        forall|i: int| from <= i < n ==> inner_line(#[trigger] lines[i]),
        n < lines.len() ==> !inner_line(lines[n]),
    ensures
        inner_end(lines, from) == n,
    decreases n - from,
{
    if from < n {
        lemma_inner_end(lines, from + 1, n);
    }
}

proof fn lemma_outdented_dashed(lines: Seq<Seq<char>>)
    ensures
        outdented(dashed(lines)) == lines,
{
    let d = dashed(lines);
    assert forall|i: int| 0 <= i < lines.len() implies #[trigger] outdented(d)[i] == lines[i] by {
        assert(d[i].skip(2) =~= lines[i]);
    }
    assert(outdented(d) =~= lines);
}

proof fn lemma_outdented_indented(lines: Seq<Seq<char>>)
    ensures
        outdented(indented(lines)) == lines,
{
    let d = indented(lines);
    assert forall|i: int| 0 <= i < lines.len() implies #[trigger] outdented(d)[i] == lines[i] by {
        assert(d[i].skip(2) =~= lines[i]);
    }
    assert(outdented(d) =~= lines);
}

/// The first line of a mapping begins with its key, and is neither an inner line nor a dash line.
proof fn lemma_mapping_head(entries: Seq<(Node, Node)>)
    requires
        entries.len() > 0,
        readable_flow(entries[0].0, false),
    ensures
        mapping_lines(entries).len() > 0,
        !inner_line(mapping_lines(entries)[0]),
        !dash_line(mapping_lines(entries)[0]),
        ({
            let rest = mapping_lines(entries)[0].skip(flow_text(entries[0].0).len() as int);
            &&& mapping_lines(entries)[0] == flow_text(entries[0].0) + rest
            &&& follows(rest, false)
            &&& rest == if is_block(entries[0].1) {
                seq![':']
            } else {
                seq![':', ' '] + flow_text(entries[0].1)
            }
        }),
{
    let (key, value) = (entries[0].0, entries[0].1);
    lemma_flow_head(key, false);
    let rest = if is_block(value) {
        seq![':']
    } else {
        seq![':', ' '] + flow_text(value)
    };
    let line = mapping_lines(entries)[0];
    assert(line =~= flow_text(key) + rest);
    assert(line.skip(flow_text(key).len() as int) =~= rest);
    assert(line[0] == flow_text(key)[0]);
}

/// The first line of a sequence is a dash line.
proof fn lemma_sequence_head(items: Seq<Node>)
    requires
        items.len() > 0,
    ensures
        sequence_lines(items).len() > 0,
        dash_line(sequence_lines(items)[0]),
        !inner_line(sequence_lines(items)[0]),
{
    lemma_block_lines_nonempty(items[0]);
    assert(sequence_lines(items)[0] == dashed(block_lines(items[0]))[0]);
}

/// A value reads back from its lines.
proof fn lemma_read_block(n: Node)
    requires
        readable_block(n),
    ensures
        read_block(block_lines(n)) == Some(n),
    decreases n,
{
    if !is_block(n) {
        lemma_flow_head(n, false);
        lemma_read_flow(n, false, Seq::empty());
        assert(flow_text(n) + Seq::<char>::empty() =~= flow_text(n));
    } else {
        match n {
            Node::Sequence(items) => {
                lemma_sequence_head(items);
                lemma_read_sequence(items);
            },
            Node::Mapping(entries) => {
                assert(readable_flow(entries[0].0, false));
                lemma_mapping_head(entries);
                let line = mapping_lines(entries)[0];
                let rest = line.skip(flow_text(entries[0].0).len() as int);
                lemma_read_flow(entries[0].0, false, rest);
                lemma_read_mapping(entries);
            },
            _ => {},
        }
    }
}

proof fn lemma_read_sequence(items: Seq<Node>)
    requires
        forall|i: int| 0 <= i < items.len() ==> readable_block(#[trigger] items[i]),
    ensures
        read_sequence(sequence_lines(items)) == Some(items),
    decreases items,
{
    if items.len() == 0 {
        assert(items =~= Seq::<Node>::empty());
    } else {
        let others = items.drop_first();
        let lines = sequence_lines(items);
        let first = dashed(block_lines(items[0]));
        let more = sequence_lines(others);
        let end = first.len() as int;
        lemma_block_lines_nonempty(items[0]);
        lemma_sequence_head(items);
        assert(lines == first + more);
        assert forall|i: int| 1 <= i < end implies inner_line(#[trigger] lines[i]) by {
            assert(lines[i] == first[i]);
        }
        if end < lines.len() {
            assert(others.len() > 0);
            lemma_sequence_head(others);
            assert(lines[end] == more[0]);
        }
        lemma_inner_end(lines, 1, end);
        assert(lines.take(end) =~= first);
        assert(lines.skip(end) =~= more);
        lemma_outdented_dashed(block_lines(items[0]));
        lemma_read_block(items[0]);
        assert forall|i: int| 0 <= i < others.len() implies readable_block(#[trigger] others[i]) by {
            assert(others[i] == items[i + 1]);
        }
        lemma_read_sequence(others);
        assert(items =~= seq![items[0]] + others);
    }
}

/// An entry whose value stands below its key, and the entries behind it.
proof fn lemma_read_entry_below(entries: Seq<(Node, Node)>)
    requires
        entries.len() > 0,
        readable_flow(entries[0].0, false),
        flow_text(entries[0].0).len() <= LONGEST_KEY,
        entries.len() > 1 ==> readable_flow(entries[1].0, false),
        is_block(entries[0].1),
        read_block(block_lines(entries[0].1)) == Some(entries[0].1),
        read_mapping(mapping_lines(entries.drop_first())) == Some(entries.drop_first()),
    ensures
        read_mapping(mapping_lines(entries)) == Some(entries),
{
    let others = entries.drop_first();
    let lines = mapping_lines(entries);
    let more = mapping_lines(others);
    let (key, value) = (entries[0].0, entries[0].1);
    lemma_mapping_head(entries);
    lemma_read_flow(key, false, seq![':']);
    let inner = indented(block_lines(value));
    let end = 1 + inner.len() as int;
    assert(lines =~= seq![lines[0]] + inner + more);
    assert forall|i: int| 1 <= i < end implies inner_line(#[trigger] lines[i]) by {
        assert(lines[i] == inner[i - 1]);
    }
    if end < lines.len() {
        assert(others.len() > 0);
        assert(others[0] == entries[1]);
        lemma_mapping_head(others);
        assert(lines[end] == more[0]);
    }
    lemma_inner_end(lines, 1, end);
    lemma_block_lines_nonempty(value);
    assert(lines.subrange(1, end) =~= inner);
    assert(lines.skip(end) =~= more);
    lemma_outdented_indented(block_lines(value));
    assert(entries =~= seq![(key, value)] + others);
}

/// A line with a key and its value, and the lines of the entries behind it.
proof fn lemma_read_line(lines: Seq<Seq<char>>, key: Node, value: Node, others: Seq<(Node, Node)>)
    requires
        lines.len() > 0,
        ({
            let rest = seq![':', ' '] + flow_text(value);
            &&& read_flow(lines[0], false) == Some((key, rest))
            &&& lines[0].len() - rest.len() <= LONGEST_KEY
        }),
        read_flow(flow_text(value), false) == Some((value, Seq::<char>::empty())),
        read_mapping(lines.drop_first()) == Some(others),
    ensures
        read_mapping(lines) == Some(seq![(key, value)] + others),
{
    let rest = seq![':', ' '] + flow_text(value);
    assert(rest.skip(2) =~= flow_text(value));
    assert(rest.len() > seq![':'].len());
}

/// An entry whose value stands beside its key, and the entries behind it.
proof fn lemma_read_entry_beside(entries: Seq<(Node, Node)>)
    requires
        entries.len() > 0,
        readable_flow(entries[0].0, false),
        flow_text(entries[0].0).len() <= LONGEST_KEY,
        readable_flow(entries[0].1, false),
        !is_block(entries[0].1),
        read_mapping(mapping_lines(entries.drop_first())) == Some(entries.drop_first()),
    ensures
        read_mapping(mapping_lines(entries)) == Some(entries),
{
    let others = entries.drop_first();
    let lines = mapping_lines(entries);
    let (key, value) = (entries[0].0, entries[0].1);
    let rest = seq![':', ' '] + flow_text(value);
    assert(read_flow(lines[0], false) == Some((key, rest)) && lines[0].len() - rest.len()
        <= LONGEST_KEY && lines.len() > 0) by {
        lemma_mapping_head(entries);
        lemma_read_flow(key, false, rest);
    }
    assert(read_flow(flow_text(value), false) == Some((value, Seq::<char>::empty()))) by {
        lemma_read_flow(value, false, Seq::empty());
        assert(flow_text(value) + Seq::<char>::empty() =~= flow_text(value));
    }
    assert(lines.drop_first() =~= mapping_lines(others));
    lemma_read_line(lines, key, value, others);
    assert(entries =~= seq![(key, value)] + others);
}

proof fn lemma_read_mapping(entries: Seq<(Node, Node)>)
    requires
        readable_keys(entries),
        forall|i: int|
            0 <= i < entries.len() ==> readable_flow((#[trigger] entries[i]).0, false)
                && readable_block(entries[i].1),
    ensures
        read_mapping(mapping_lines(entries)) == Some(entries),
    decreases entries,
{
    if entries.len() == 0 {
        assert(entries =~= Seq::<(Node, Node)>::empty());
    } else {
        let others = entries.drop_first();
        assert forall|i: int| 0 <= i < others.len() implies readable_flow(
            (#[trigger] others[i]).0,
            false,
        ) && readable_block(others[i].1) by {
            assert(others[i] == entries[i + 1]);
        }
        lemma_fewer_keys(entries);
        lemma_read_mapping(others);
        assert(readable_flow(entries[0].0, false));
        if entries.len() > 1 {
            assert(readable_flow(entries[1].0, false));
        }
        if is_block(entries[0].1) {
            lemma_read_block(entries[0].1);
            lemma_read_entry_below(entries);
        } else {
            lemma_read_entry_beside(entries);
        }
    }
}

// ---------------------------------------------------------------------------------------------
// Documents
// ---------------------------------------------------------------------------------------------

/// The characters that a value is written with: those of numbers and tags, and those of strings
/// that need no escape.
pub open spec fn made_of(n: Node, p: spec_fn(char) -> bool) -> bool
    decreases n,
{
    match n {
        Node::Null => true,
        Node::Bool(_) => true,
        Node::Number(text) => all_are(text, p),
        Node::Str(s) => unescaped_are(s, p),
        Node::Sequence(items) => forall|i: int|
            0 <= i < items.len() ==> made_of(#[trigger] items[i], p),
        Node::Mapping(entries) => forall|i: int|
            0 <= i < entries.len() ==> made_of((#[trigger] entries[i]).0, p) && made_of(
                entries[i].1,
                p,
            ),
        Node::Tagged(tag, inner) => all_are(tag, p) && made_of(*inner, p),
    }
}

proof fn lemma_flow_chars(n: Node, p: spec_fn(char) -> bool)
    requires
        basics_are(p),
        made_of(n, p),
    ensures
        all_are(flow_text(n), p),
    decreases n,
{
    assert(basic(' ') && basic('[') && basic(']') && basic('{') && basic('}'));
    assert(p(' ') && p('[') && p(']') && p('{') && p('}'));
    match n {
        Node::Null => {
            reveal_strlit("null");
            assert(all_are("null"@, |c: char| basic(c)));
        },
        Node::Bool(b) => {
            reveal_strlit("true");
            reveal_strlit("false");
            assert(all_are("true"@, |c: char| basic(c)));
            assert(all_are("false"@, |c: char| basic(c)));
        },
        Node::Number(_) => {},
        Node::Str(s) => {
            lemma_scalar_chars(s, p);
        },
        Node::Sequence(items) => {
            lemma_items_chars(items, p);
        },
        Node::Mapping(entries) => {
            lemma_entries_chars(entries, p);
        },
        Node::Tagged(tag, inner) => {
            lemma_flow_chars(*inner, p);
        },
    }
}

proof fn lemma_items_chars(items: Seq<Node>, p: spec_fn(char) -> bool)
    requires
        basics_are(p),
        forall|i: int| 0 <= i < items.len() ==> made_of(#[trigger] items[i], p),
    ensures
        all_are(flow_items(items), p),
    decreases items,
{
    if items.len() > 0 {
        lemma_flow_chars(items[0], p);
        let others = items.drop_first();
        assert forall|i: int| 0 <= i < others.len() implies made_of(#[trigger] others[i], p) by {
            assert(others[i] == items[i + 1]);
        }
        lemma_items_chars(others, p);
        assert(basic(',') && basic(' '));
        assert(p(',') && p(' '));
    }
}

proof fn lemma_entries_chars(entries: Seq<(Node, Node)>, p: spec_fn(char) -> bool)
    requires
        basics_are(p),
        forall|i: int|
            0 <= i < entries.len() ==> made_of((#[trigger] entries[i]).0, p) && made_of(
                entries[i].1,
                p,
            ),
    ensures
        all_are(flow_entries(entries), p),
    decreases entries,
{
    if entries.len() > 0 {
        assert(made_of(entries[0].0, p));
        lemma_flow_chars(entries[0].0, p);
        lemma_flow_chars(entries[0].1, p);
        let others = entries.drop_first();
        assert forall|i: int| 0 <= i < others.len() implies made_of((#[trigger] others[i]).0, p)
            && made_of(others[i].1, p) by {
            assert(others[i] == entries[i + 1]);
        }
        lemma_entries_chars(others, p);
        assert(basic(',') && basic(' ') && basic(':'));
        assert(p(',') && p(' ') && p(':'));
    }
}

spec fn lines_are(lines: Seq<Seq<char>>, p: spec_fn(char) -> bool) -> bool {
    forall|i: int| 0 <= i < lines.len() ==> all_are(#[trigger] lines[i], p)
}

proof fn lemma_block_chars(n: Node, p: spec_fn(char) -> bool)
    requires
        basics_are(p),
        made_of(n, p),
    ensures
        lines_are(block_lines(n), p),
    decreases n,
{
    if !is_block(n) {
        lemma_flow_chars(n, p);
    } else {
        match n {
            Node::Sequence(items) => {
                lemma_sequence_chars(items, p);
            },
            Node::Mapping(entries) => {
                lemma_mapping_chars(entries, p);
            },
            _ => {},
        }
    }
}

proof fn lemma_sequence_chars(items: Seq<Node>, p: spec_fn(char) -> bool)
    requires
        basics_are(p),
        forall|i: int| 0 <= i < items.len() ==> made_of(#[trigger] items[i], p),
    ensures
        lines_are(sequence_lines(items), p),
    decreases items,
{
    if items.len() > 0 {
        let others = items.drop_first();
        assert forall|i: int| 0 <= i < others.len() implies made_of(#[trigger] others[i], p) by {
            assert(others[i] == items[i + 1]);
        }
        lemma_block_chars(items[0], p);
        lemma_sequence_chars(others, p);
        let first = block_lines(items[0]);
        assert(basic('-') && basic(' '));
        assert(p('-') && p(' '));
        assert forall|i: int| 0 <= i < first.len() implies all_are(
            #[trigger] dashed(first)[i],
            p,
        ) by {
            assert(all_are(first[i], p));
        }
    }
}

proof fn lemma_mapping_chars(entries: Seq<(Node, Node)>, p: spec_fn(char) -> bool)
    requires
        basics_are(p),
        forall|i: int|
            0 <= i < entries.len() ==> made_of((#[trigger] entries[i]).0, p) && made_of(
                entries[i].1,
                p,
            ),
    ensures
        lines_are(mapping_lines(entries), p),
    decreases entries,
{
    if entries.len() > 0 {
        let others = entries.drop_first();
        assert forall|i: int| 0 <= i < others.len() implies made_of((#[trigger] others[i]).0, p)
            && made_of(others[i].1, p) by {
            assert(others[i] == entries[i + 1]);
        }
        lemma_mapping_chars(others, p);
        let (key, value) = (entries[0].0, entries[0].1);
        assert(made_of(entries[0].0, p));
        lemma_flow_chars(key, p);
        assert(basic(':') && basic(' '));
        assert(p(':') && p(' '));
        if is_block(value) {
            lemma_block_chars(value, p);
            let inner = block_lines(value);
            assert forall|i: int| 0 <= i < inner.len() implies all_are(
                #[trigger] indented(inner)[i],
                p,
            ) by {
                assert(all_are(inner[i], p));
            }
            assert(all_are(flow_text(key) + seq![':'], p));
        } else {
            lemma_flow_chars(value, p);
            assert(all_are(flow_text(key) + seq![':', ' '] + flow_text(value), p));
        }
    }
}

/// Lines put together end in a line feed, and hold nothing else besides what is in them.
proof fn lemma_text_chars(lines: Seq<Seq<char>>, p: spec_fn(char) -> bool)
    requires
        lines_are(lines, p),
    ensures
        all_are(lines_text(lines, Seq::empty()), |c: char| c == '\n' || p(c)),
        lines.len() > 0 ==> lines_text(lines, Seq::empty()).len() > 0 && lines_text(
            lines,
            Seq::empty(),
        ).last() == '\n',
    decreases lines.len(),
{
    if lines.len() > 0 {
        let others = lines.drop_first();
        assert forall|i: int| 0 <= i < others.len() implies all_are(#[trigger] others[i], p) by {
            assert(others[i] == lines[i + 1]);
        }
        lemma_text_chars(others, p);
        let text = lines_text(lines, Seq::empty());
        let rest = lines_text(others, Seq::empty());
        let end = lines[0].len() as int;
        assert(all_are(lines[0], p));
        assert(text =~= lines[0] + seq!['\n'] + rest);
        let q = |c: char| c == '\n' || p(c);
        assert forall|i: int| 0 <= i < text.len() implies q(#[trigger] text[i]) by {
            if i < end {
                assert(text[i] == lines[0][i]);
            } else if i > end {
                assert(text[i] == rest[i - end - 1]);
                assert(q(rest[i - end - 1]));
            }
        }
        if rest.len() > 0 {
            assert(text.last() == rest.last());
        }
    }
}

/// Numbers and tags are spelled without anything that would have to be escaped.
pub open spec fn spelled_plainly(n: Node) -> bool {
    made_of(n, |c: char| !must_escape(c))
}

/// A document ends in a line feed, and nothing else in it has to be escaped: there is no other
/// control character.
pub proof fn a_document_is_made_of_lines(n: Node)
    requires
        spelled_plainly(n),
    ensures
        document_text(n).len() > 0 && document_text(n).last() == '\n',
        forall|i: int|
            0 <= i < document_text(n).len() && must_escape(
                #[trigger] document_text(n)[i],
            ) ==> document_text(n)[i] == '\n',
{
    let p = |c: char| !must_escape(c);
    lemma_block_lines_nonempty(n);
    lemma_block_chars(n, p);
    lemma_text_chars(block_lines(n), p);
    let q = |c: char| c == '\n' || p(c);
    assert forall|i: int|
        0 <= i < document_text(n).len() && must_escape(
            #[trigger] document_text(n)[i],
        ) implies document_text(n)[i] == '\n' by {
        assert(q(document_text(n)[i]));
    }
}

/// Printable, and nothing that would have to be escaped.
spec fn inline(c: char) -> bool {
    printable(c) && !must_escape(c)
}

proof fn lemma_flow_readable_is_inline(n: Node, in_flow: bool)
    requires
        readable_flow(n, in_flow),
    ensures
        made_of(n, |c: char| inline(c)),
    decreases n,
{
    let p = |c: char| inline(c);
    match n {
        Node::Number(text) => {
            lemma_core_number(text);
            lemma_number_chars(text);
            assert forall|i: int| 0 <= i < text.len() implies p(#[trigger] text[i]) by {
                assert(number_char(text[i]));
            }
        },
        Node::Str(s) => {
            assert forall|i: int| 0 <= i < s.len() implies must_escape(#[trigger] s[i]) || p(
                s[i],
            ) by {
                assert(s[i] as u32 != 0xFFFE && s[i] as u32 != 0xFFFF);
            }
        },
        Node::Sequence(items) => {
            assert forall|i: int| 0 <= i < items.len() implies made_of(#[trigger] items[i], p) by {
                lemma_flow_readable_is_inline(items[i], true);
            }
        },
        Node::Mapping(entries) => {
            assert forall|i: int| 0 <= i < entries.len() implies made_of(
                (#[trigger] entries[i]).0,
                p,
            ) && made_of(entries[i].1, p) by {
                lemma_flow_readable_is_inline(entries[i].0, true);
                lemma_flow_readable_is_inline(entries[i].1, true);
            }
        },
        Node::Tagged(tag, inner) => {
            lemma_flow_readable_is_inline(*inner, in_flow);
            assert forall|i: int| 0 <= i < tag.len() implies p(#[trigger] tag[i]) by {
                if i > 0 {
                    assert(tag_char(tag[i]));
                }
            }
        },
        _ => {},
    }
}

proof fn lemma_block_readable_is_inline(n: Node)
    requires
        readable_block(n),
    ensures
        made_of(n, |c: char| inline(c)),
    decreases n,
{
    let p = |c: char| inline(c);
    if !is_block(n) {
        lemma_flow_readable_is_inline(n, false);
    } else {
        match n {
            Node::Sequence(items) => {
                assert forall|i: int| 0 <= i < items.len() implies made_of(
                    #[trigger] items[i],
                    p,
                ) by {
                    lemma_block_readable_is_inline(items[i]);
                }
            },
            Node::Mapping(entries) => {
                assert forall|i: int| 0 <= i < entries.len() implies made_of(
                    (#[trigger] entries[i]).0,
                    p,
                ) && made_of(entries[i].1, p) by {
                    lemma_flow_readable_is_inline(entries[i].0, false);
                    lemma_block_readable_is_inline(entries[i].1);
                }
            },
            _ => {},
        }
    }
}

proof fn lemma_made_of_more(n: Node, p: spec_fn(char) -> bool, q: spec_fn(char) -> bool)
    requires
        made_of(n, p),
        forall|c: char| p(c) ==> #[trigger] q(c),
    ensures
        made_of(n, q),
    decreases n,
{
    match n {
        Node::Sequence(items) => {
            assert forall|i: int| 0 <= i < items.len() implies made_of(#[trigger] items[i], q) by {
                lemma_made_of_more(items[i], p, q);
            }
        },
        Node::Mapping(entries) => {
            assert forall|i: int| 0 <= i < entries.len() implies made_of(
                (#[trigger] entries[i]).0,
                q,
            ) && made_of(entries[i].1, q) by {
                lemma_made_of_more(entries[i].0, p, q);
                lemma_made_of_more(entries[i].1, p, q);
            }
        },
        Node::Tagged(_, inner) => {
            lemma_made_of_more(*inner, p, q);
        },
        _ => {},
    }
}

/// What reads back is spelled plainly.
pub proof fn readable_values_are_spelled_plainly(n: Node)
    requires
        readable_block(n),
    ensures
        spelled_plainly(n),
{
    lemma_block_readable_is_inline(n);
    lemma_made_of_more(n, |c: char| inline(c), |c: char| !must_escape(c));
}

spec fn all_inline(s: Seq<char>) -> bool {
    forall|i: int| 0 <= i < s.len() ==> inline(#[trigger] s[i])
}

spec fn lines_inline(lines: Seq<Seq<char>>) -> bool {
    forall|i: int| 0 <= i < lines.len() ==> all_inline(#[trigger] lines[i])
}

proof fn lemma_block_inline(n: Node)
    requires
        readable_block(n),
    ensures
        lines_inline(block_lines(n)),
{
    let p = |c: char| inline(c);
    lemma_block_readable_is_inline(n);
    lemma_block_chars(n, p);
    assert forall|i: int| 0 <= i < block_lines(n).len() implies all_inline(
        #[trigger] block_lines(n)[i],
    ) by {
        let line = block_lines(n)[i];
        assert(all_are(line, p));
        assert forall|j: int| 0 <= j < line.len() implies inline(#[trigger] line[j]) by {
            assert(p(line[j]));
        }
    }
}

proof fn lemma_line_end(line: Seq<char>, rest: Seq<char>)
    requires
        all_inline(line),
    ensures
        line_end(line + seq!['\n'] + rest) == line.len(),
    decreases line.len(),
{
    let t = line + seq!['\n'] + rest;
    if line.len() == 0 {
        assert(t[0] == '\n');
    } else {
        assert(inline(line[0]));
        assert(t[0] == line[0]);
        assert(t.drop_first() =~= line.drop_first() + seq!['\n'] + rest);
        assert forall|i: int| 0 <= i < line.drop_first().len() implies inline(
            #[trigger] line.drop_first()[i],
        ) by {
            assert(line.drop_first()[i] == line[i + 1]);
        }
        lemma_line_end(line.drop_first(), rest);
    }
}

/// Lines come apart as they were put together.
proof fn lemma_split_lines(lines: Seq<Seq<char>>)
    requires
        lines_inline(lines),
    ensures
        split_lines(lines_text(lines, Seq::empty())) == Some(lines),
        all_printable(lines_text(lines, Seq::empty())),
    decreases lines.len(),
{
    let text = lines_text(lines, Seq::empty());
    if lines.len() == 0 {
        assert(lines =~= Seq::<Seq<char>>::empty());
    } else {
        let others = lines.drop_first();
        let rest = lines_text(others, Seq::empty());
        assert(all_inline(lines[0]));
        assert forall|i: int| 0 <= i < others.len() implies all_inline(#[trigger] others[i]) by {
            assert(others[i] == lines[i + 1]);
        }
        lemma_split_lines(others);
        assert(text =~= lines[0] + seq!['\n'] + rest);
        lemma_line_end(lines[0], rest);
        let end = lines[0].len() as int;
        assert(text.take(end) =~= lines[0]);
        assert(text.skip(end + 1) =~= rest);
        assert(lines =~= seq![lines[0]] + others);
        assert forall|i: int| 0 <= i < text.len() implies printable(#[trigger] text[i]) by {
            if i < end {
                assert(text[i] == lines[0][i]);
                assert(inline(lines[0][i]));
            } else if i > end {
                assert(text[i] == rest[i - end - 1]);
            }
        }
    }
}

/// Writing a value and reading the text gives the value back.
pub proof fn document_reads_back(n: Node)
    requires
        readable(n),
    ensures
        read_document(document_text(n)) == Some(n),
{
    lemma_block_inline(n);
    lemma_split_lines(block_lines(n));
    lemma_read_block(n);
}

/// No two values have the same text.
pub proof fn document_determines_value(a: Node, b: Node)
    requires
        readable(a),
        readable(b),
        document_text(a) == document_text(b),
    ensures
        a == b,
{
    document_reads_back(a);
    document_reads_back(b);
}

/// Writing what was read from a document gives the same document.
pub proof fn rewriting_changes_nothing(n: Node)
    requires
        readable(n),
    ensures
        read_document(document_text(n)) matches Some(m) && document_text(m) == document_text(n),
{
    document_reads_back(n);
}

/// A string on one line reads back as that string, whichever style it took.
pub proof fn string_scalar_reads_back(s: Seq<char>)
    requires
        readable_text(s),
    ensures
        read_flow(scalar_text(s), false) == Some((Node::Str(s), Seq::<char>::empty())),
{
    lemma_read_str(s, false, Seq::empty());
    assert(scalar_text(s) + Seq::<char>::empty() =~= scalar_text(s));
}

} // verus!
