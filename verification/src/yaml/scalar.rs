//! How a string is written on one line: plain, in single quotes, or in double quotes.

use vstd::prelude::*;
use crate::text::{
    ascii_lower, ascii_lowered, chars_of, control, digit, is_control, is_digit, same_text,
    to_ascii_lower, trim, trimmed,
};

verus! {

// ---------------------------------------------------------------------------------------------
// Which style a string takes
// ---------------------------------------------------------------------------------------------

/// Characters that cannot stand unescaped: control characters, the separators that YAML reads as
/// line breaks, and everything above the basic multilingual plane.
pub open spec fn must_escape(c: char) -> bool {
    control(c) || c as u32 > 0xFFFF || c == '\u{2028}' || c == '\u{2029}'
}

/// Some character of `s` has to be escaped.
pub open spec fn unprintable(s: Seq<char>) -> bool {
    exists|i: int| 0 <= i < s.len() && must_escape(#[trigger] s[i])
}

/// Characters that open something other than a plain scalar when they come first.
pub open spec fn indicator(c: char) -> bool {
    ||| c == '-' || c == '?' || c == ':' || c == ',' || c == '[' || c == ']'
    ||| c == '{' || c == '}' || c == '#' || c == '&' || c == '*' || c == '!'
    ||| c == '|' || c == '>' || c == '\'' || c == '"' || c == '%' || c == '@' || c == '`'
}

/// A colon at `i` that ends a key: the last character, or one before a space.
pub open spec fn key_mark(s: Seq<char>, i: int) -> bool {
    s[i] == ':' && (i + 1 == s.len() || s[i + 1] == ' ')
}

/// A space at `i` with the `#` of a comment behind it.
pub open spec fn comment_mark(s: Seq<char>, i: int) -> bool {
    s[i] == ' ' && i + 1 < s.len() && s[i + 1] == '#'
}

/// YAML's syntax leaves `s` alone when it is written without quotes.
pub open spec fn plain_safe(s: Seq<char>) -> bool {
    &&& s.len() > 0
    &&& trimmed(s) == s
    &&& !indicator(s[0])
    &&& forall|i: int| 0 <= i < s.len() ==> !#[trigger] key_mark(s, i)
    &&& forall|i: int| 0 <= i < s.len() ==> !#[trigger] comment_mark(s, i)
}

/// The words that read as null or as a boolean.
pub open spec fn reserved_word(s: Seq<char>) -> bool {
    ||| s == ""@ || s == "~"@
    ||| s == "null"@ || s == "Null"@ || s == "NULL"@
    ||| s == "true"@ || s == "True"@ || s == "TRUE"@
    ||| s == "false"@ || s == "False"@ || s == "FALSE"@
}

/// `s` without one leading sign.
pub open spec fn unsigned(s: Seq<char>) -> Seq<char> {
    if s.len() > 0 && (s[0] == '-' || s[0] == '+') {
        s.drop_first()
    } else {
        s
    }
}

/// The words that read as infinity, behind an optional sign.
pub open spec fn infinity(s: Seq<char>) -> bool {
    s == ".inf"@ || s == ".Inf"@ || s == ".INF"@
}

/// The words that read as not a number; they take no sign.
pub open spec fn not_a_number(s: Seq<char>) -> bool {
    s == ".nan"@ || s == ".NaN"@ || s == ".NAN"@
}

/// The words that read as a float.
pub open spec fn special_float(s: Seq<char>) -> bool {
    infinity(unsigned(s)) || not_a_number(s)
}

/// The base that a `0x`, `0o` or `0b` at the start of `s` announces, or zero.
pub open spec fn announced_base(s: Seq<char>) -> int {
    if s.len() < 2 || s[0] != '0' {
        0
    } else if s[1] == 'x' {
        16
    } else if s[1] == 'o' {
        8
    } else if s[1] == 'b' {
        2
    } else {
        0
    }
}

/// A lowercase digit of base 16, 8 or 2.
pub open spec fn digit_of_base(c: char, base: int) -> bool {
    if base == 16 {
        digit(c) || 'a' <= c <= 'f'
    } else if base == 8 {
        '0' <= c <= '7'
    } else {
        c == '0' || c == '1'
    }
}

/// `s` without its underscores.
pub open spec fn without_underscores(s: Seq<char>) -> Seq<char> {
    s.filter(|c: char| c != '_')
}

/// Where `c` first occurs in `s`, or the length of `s`.
pub open spec fn first_index(s: Seq<char>, c: char) -> int
    decreases s.len(),
{
    if s.len() == 0 || s[0] == c {
        0
    } else {
        1 + first_index(s.drop_first(), c)
    }
}

pub open spec fn all_digits(s: Seq<char>) -> bool {
    forall|i: int| 0 <= i < s.len() ==> digit(#[trigger] s[i])
}

/// Nothing but digits and at most one dot.
pub open spec fn mantissa(s: Seq<char>) -> bool {
    &&& forall|i: int| 0 <= i < s.len() ==> digit(#[trigger] s[i]) || s[i] == '.'
    &&& forall|i: int, j: int|
        0 <= i < j < s.len() ==> !(#[trigger] s[i] == '.' && #[trigger] s[j] == '.')
}

/// A decimal integer or float: a mantissa with a digit in it, and a whole exponent behind the first
/// `e`, if there is one.
pub open spec fn decimal(s: Seq<char>) -> bool {
    let e = first_index(s, 'e');
    &&& exists|i: int| 0 <= i < e && digit(#[trigger] s[i])
    &&& mantissa(s.take(e))
    &&& e < s.len() ==> {
        let power = unsigned(s.skip(e + 1));
        power.len() > 0 && all_digits(power)
    }
}

/// `s` reads as a number: one of the words for a float, or behind an optional sign an integer in
/// one of the announced bases or a decimal, whose digits underscores may separate.
pub open spec fn number_like(s: Seq<char>) -> bool {
    let d = unsigned(s);
    let lower = ascii_lowered(d);
    let base = announced_base(lower);
    special_float(s) || (d.len() > 0 && if base > 0 {
        let rest = without_underscores(lower.skip(2));
        rest.len() > 0 && forall|i: int|
            0 <= i < rest.len() ==> digit_of_base(#[trigger] rest[i], base)
    } else {
        decimal(without_underscores(lower))
    })
}

/// Written without quotes, `s` would come back as something other than a string.
pub open spec fn non_string(s: Seq<char>) -> bool {
    reserved_word(s) || number_like(s)
}

// ---------------------------------------------------------------------------------------------
// The three styles
// ---------------------------------------------------------------------------------------------

/// `s` with every single quote doubled.
pub open spec fn quotes_doubled(s: Seq<char>) -> Seq<char>
    decreases s.len(),
{
    if s.len() == 0 {
        Seq::empty()
    } else if s[0] == '\'' {
        seq!['\'', '\''] + quotes_doubled(s.drop_first())
    } else {
        seq![s[0]] + quotes_doubled(s.drop_first())
    }
}

/// A hexadecimal digit in upper case.
pub open spec fn hex_digit(d: int) -> char {
    if d < 10 {
        (d + 48) as char
    } else {
        (d + 55) as char
    }
}

/// The last `width` hexadecimal digits of `n`.
pub open spec fn hex_text(n: int, width: nat) -> Seq<char>
    decreases width,
{
    if width == 0 {
        Seq::empty()
    } else {
        hex_text(n / 16, (width - 1) as nat).push(hex_digit(n % 16))
    }
}

/// A character as it stands between double quotes.
pub open spec fn escape(c: char) -> Seq<char> {
    if c == '"' {
        seq!['\\', '"']
    } else if c == '\\' {
        seq!['\\', '\\']
    } else if c == '\0' {
        seq!['\\', '0']
    } else if c == '\u{7}' {
        seq!['\\', 'a']
    } else if c == '\u{8}' {
        seq!['\\', 'b']
    } else if c == '\t' {
        seq!['\\', 't']
    } else if c == '\n' {
        seq!['\\', 'n']
    } else if c == '\u{b}' {
        seq!['\\', 'v']
    } else if c == '\u{c}' {
        seq!['\\', 'f']
    } else if c == '\r' {
        seq!['\\', 'r']
    } else if c == '\u{1b}' {
        seq!['\\', 'e']
    } else if c == '\u{85}' {
        seq!['\\', 'N']
    } else if c == '\u{2028}' {
        seq!['\\', 'L']
    } else if c == '\u{2029}' {
        seq!['\\', 'P']
    } else if control(c) {
        seq!['\\', 'x'] + hex_text(c as int, 2)
    } else if c as u32 > 0xFFFF {
        seq!['\\', 'U'] + hex_text(c as int, 8)
    } else {
        seq![c]
    }
}

/// `s` as it stands between double quotes.
pub open spec fn escaped(s: Seq<char>) -> Seq<char>
    decreases s.len(),
{
    if s.len() == 0 {
        Seq::empty()
    } else {
        escape(s[0]) + escaped(s.drop_first())
    }
}

/// `s` between single quotes.
pub open spec fn single_quoted_text(s: Seq<char>) -> Seq<char> {
    seq!['\''] + quotes_doubled(s) + seq!['\'']
}

/// `s` between double quotes.
pub open spec fn double_quoted_text(s: Seq<char>) -> Seq<char> {
    seq!['"'] + escaped(s) + seq!['"']
}

/// A string on one line: in double quotes where it needs escapes or would come back as something
/// else, otherwise plain where the syntax allows it, otherwise in single quotes.
pub open spec fn scalar_text(s: Seq<char>) -> Seq<char> {
    if unprintable(s) || non_string(s) {
        double_quoted_text(s)
    } else if plain_safe(s) {
        s
    } else {
        single_quoted_text(s)
    }
}

// ---------------------------------------------------------------------------------------------
// Choosing the style
// ---------------------------------------------------------------------------------------------

/// Whether some character of the text has to be escaped.
pub fn needs_escaping(s: &str) -> (res: bool)
    ensures
        res == unprintable(s@),
{
    let chars = chars_of(s);
    let mut i: usize = 0;
    while i < chars.len()
        invariant
            i <= chars@.len(),
            chars@ == s@,
            forall|j: int| 0 <= j < i ==> !must_escape(#[trigger] chars@[j]),
        decreases chars@.len() - i,
    {
        let c = chars[i];
        if is_control(c) || c as u32 > 0xFFFF || c == '\u{2028}' || c == '\u{2029}' {
            assert(must_escape(s@[i as int]));
            return true;
        }
        assert(!must_escape(chars@[i as int]));
        i += 1;
    }
    false
}

fn is_indicator(c: char) -> (res: bool)
    ensures
        res == indicator(c),
{
    matches!(
        c,
        '-' | '?' | ':' | ',' | '[' | ']' | '{' | '}' | '#' | '&' | '*' | '!' | '|' | '>' | '\''
            | '"' | '%' | '@' | '`'
    )
}

/// Whether the text can be written without quotes as far as YAML's syntax goes.
pub fn is_plain_safe(s: &str) -> (res: bool)
    ensures
        res == plain_safe(s@),
{
    let chars = chars_of(s);
    if chars.len() == 0 {
        return false;
    }
    if !same_text(trim(s).as_str(), s) {
        return false;
    }
    if is_indicator(chars[0]) {
        return false;
    }
    let mut i: usize = 0;
    while i < chars.len()
        invariant
            i <= chars@.len(),
            chars@ == s@,
            forall|j: int| 0 <= j < i ==> !#[trigger] key_mark(chars@, j),
            forall|j: int| 0 <= j < i ==> !#[trigger] comment_mark(chars@, j),
        decreases chars@.len() - i,
    {
        if chars[i] == ':' && (i == chars.len() - 1 || chars[i + 1] == ' ') {
            assert(key_mark(s@, i as int));
            return false;
        }
        if chars[i] == ' ' && i < chars.len() - 1 && chars[i + 1] == '#' {
            assert(comment_mark(s@, i as int));
            return false;
        }
        i += 1;
    }
    true
}

fn is_infinity(s: &str) -> (res: bool)
    ensures
        res == infinity(s@),
{
    same_text(s, ".inf") || same_text(s, ".Inf") || same_text(s, ".INF")
}

fn is_not_a_number(s: &str) -> (res: bool)
    ensures
        res == not_a_number(s@),
{
    same_text(s, ".nan") || same_text(s, ".NaN") || same_text(s, ".NAN")
}

/// Where the text starts behind an optional sign at `from`.
fn behind_sign(chars: &Vec<char>, from: usize) -> (res: usize)
    requires
        from <= chars@.len(),
    ensures
        from <= res <= chars@.len(),
        unsigned(chars@.skip(from as int)) == chars@.skip(res as int),
{
    if from < chars.len() && (chars[from] == '-' || chars[from] == '+') {
        assert(chars@.skip(from as int).drop_first() == chars@.skip(from + 1));
        from + 1
    } else {
        from
    }
}

/// The characters from `from` on without underscores.
fn drop_underscores(chars: &Vec<char>, from: usize) -> (res: Vec<char>)
    requires
        from <= chars@.len(),
    ensures
        res@ == without_underscores(chars@.skip(from as int)),
{
    let ghost p = |c: char| c != '_';
    let mut res: Vec<char> = Vec::new();
    let mut i: usize = from;
    assert(chars@.subrange(from as int, from as int) == Seq::<char>::empty());
    reveal(Seq::filter);
    while i < chars.len()
        invariant
            from <= i <= chars@.len(),
            p == (|c: char| c != '_'),
            res@ == chars@.subrange(from as int, i as int).filter(p),
        decreases chars@.len() - i,
    {
        reveal(Seq::filter);
        assert(chars@.subrange(from as int, i + 1).drop_last() == chars@.subrange(
            from as int,
            i as int,
        ));
        if chars[i] != '_' {
            res.push(chars[i]);
        }
        i += 1;
    }
    assert(chars@.subrange(from as int, i as int) == chars@.skip(from as int));
    res
}

fn base_announced_by(chars: &Vec<char>) -> (res: u32)
    ensures
        res == announced_base(chars@),
{
    if chars.len() < 2 || chars[0] != '0' {
        0
    } else if chars[1] == 'x' {
        16
    } else if chars[1] == 'o' {
        8
    } else if chars[1] == 'b' {
        2
    } else {
        0
    }
}

fn is_digit_of_base(c: char, base: u32) -> (res: bool)
    ensures
        res == digit_of_base(c, base as int),
{
    if base == 16 {
        is_digit(c) || ('a' <= c && c <= 'f')
    } else if base == 8 {
        '0' <= c && c <= '7'
    } else {
        c == '0' || c == '1'
    }
}

fn all_digits_of_base(chars: &Vec<char>, base: u32) -> (res: bool)
    ensures
        res == forall|i: int|
            0 <= i < chars@.len() ==> digit_of_base(#[trigger] chars@[i], base as int),
{
    let mut i: usize = 0;
    while i < chars.len()
        invariant
            i <= chars@.len(),
            forall|j: int| 0 <= j < i ==> digit_of_base(#[trigger] chars@[j], base as int),
        decreases chars@.len() - i,
    {
        if !is_digit_of_base(chars[i], base) {
            return false;
        }
        i += 1;
    }
    true
}

/// Where a character first occurs.
pub proof fn lemma_first_index(s: Seq<char>, c: char)
    ensures
        0 <= first_index(s, c) <= s.len(),
        first_index(s, c) < s.len() ==> s[first_index(s, c)] == c,
        forall|i: int| 0 <= i < first_index(s, c) ==> #[trigger] s[i] != c,
    decreases s.len(),
{
    if s.len() > 0 && s[0] != c {
        let t = s.drop_first();
        lemma_first_index(t, c);
        assert forall|i: int| 0 <= i < first_index(s, c) implies #[trigger] s[i] != c by {
            if i > 0 {
                assert(t[i - 1] != c);
            }
        }
    }
}

/// Whether the text is a decimal integer or float; the sign, if any, is gone.
fn is_decimal(chars: &Vec<char>) -> (res: bool)
    ensures
        res == decimal(chars@),
{
    let ghost e_at = first_index(chars@, 'e');
    proof {
        lemma_first_index(chars@, 'e');
    }
    let mut e: usize = 0;
    let mut dots: usize = 0;
    let mut digits = false;
    let mut clean = true;
    while e < chars.len() && chars[e] != 'e'
        invariant
            e <= e_at <= chars@.len(),
            e_at < chars@.len() ==> chars@[e_at] == 'e',
            forall|i: int| 0 <= i < e_at ==> #[trigger] chars@[i] != 'e',
            digits == exists|i: int| 0 <= i < e && digit(#[trigger] chars@[i]),
            clean == forall|i: int|
                0 <= i < e ==> digit(#[trigger] chars@[i]) || chars@[i] == '.',
            dots <= e,
            dots == 0 ==> forall|i: int| 0 <= i < e ==> #[trigger] chars@[i] != '.',
            dots >= 1 ==> exists|i: int| 0 <= i < e && #[trigger] chars@[i] == '.',
            dots <= 1 ==> forall|i: int, j: int|
                0 <= i < j < e ==> !(#[trigger] chars@[i] == '.' && #[trigger] chars@[j] == '.'),
            dots >= 2 ==> exists|i: int, j: int|
                0 <= i < j < e && #[trigger] chars@[i] == '.' && #[trigger] chars@[j] == '.',
        ensures
            e == e_at,
        decreases chars@.len() - e,
    {
        let c = chars[e];
        if is_digit(c) {
            digits = true;
        } else if c == '.' {
            dots += 1;
        } else {
            clean = false;
        }
        e += 1;
    }
    let ghost whole = chars@.take(e as int);
    proof {
        if clean && dots <= 1 {
            assert(mantissa(whole));
        } else if clean {
            let (i, j) = choose|i: int, j: int|
                0 <= i < j < e && #[trigger] chars@[i] == '.' && #[trigger] chars@[j] == '.';
            assert(whole[i] == '.' && whole[j] == '.');
            assert(!mantissa(whole));
        } else {
            let i = choose|i: int|
                0 <= i < e && !(digit(#[trigger] chars@[i]) || chars@[i] == '.');
            assert(!(digit(whole[i]) || whole[i] == '.'));
            assert(!mantissa(whole));
        }
    }
    if !clean || dots > 1 || !digits {
        return false;
    }
    if e == chars.len() {
        return true;
    }
    let start: usize = behind_sign(chars, e + 1);
    let ghost power = unsigned(chars@.skip(e + 1));
    if start == chars.len() {
        return false;
    }
    let mut i: usize = start;
    while i < chars.len()
        invariant
            start <= i <= chars@.len(),
            power == chars@.skip(start as int),
            forall|j: int| start <= j < i ==> digit(#[trigger] chars@[j]),
            start < chars@.len(),
            e == e_at,
            e_at == first_index(chars@, 'e'),
            e < chars@.len(),
            power == unsigned(chars@.skip(e + 1)),
        decreases chars@.len() - i,
    {
        if !is_digit(chars[i]) {
            assert(!digit(power[i - start]));
            return false;
        }
        i += 1;
    }
    assert forall|j: int| 0 <= j < power.len() implies digit(#[trigger] power[j]) by {
        assert(digit(chars@[start + j]));
    }
    true
}

/// Whether the text would come back as a number.
pub fn is_number_like(s: &str) -> (res: bool)
    ensures
        res == number_like(s@),
{
    let chars = chars_of(s);
    assert(chars@.skip(0) == chars@);
    let start: usize = behind_sign(&chars, 0);
    if start == chars.len() {
        proof {
            reveal_strlit(".inf");
            reveal_strlit(".Inf");
            reveal_strlit(".INF");
            reveal_strlit(".nan");
            reveal_strlit(".NaN");
            reveal_strlit(".NAN");
            assert(unsigned(s@).len() == 0);
            assert(not_a_number(s@) ==> s@.len() == 4 && s@[0] == '.');
        }
        return false;
    }
    let mut lower: Vec<char> = Vec::new();
    let mut digits = String::new();
    let ghost d = chars@.skip(start as int);
    let mut i: usize = start;
    while i < chars.len()
        invariant
            start <= i <= chars@.len(),
            d == chars@.skip(start as int),
            digits@ == d.take(i - start),
            lower@ == ascii_lowered(d.take(i - start)),
        decreases chars@.len() - i,
    {
        digits.push(chars[i]);
        lower.push(to_ascii_lower(chars[i]));
        assert(d.take(i + 1 - start) == d.take(i - start).push(chars@[i as int]));
        assert(ascii_lowered(d.take(i + 1 - start)) =~= ascii_lowered(d.take(i - start)).push(
            ascii_lower(chars@[i as int]),
        ));
        i += 1;
    }
    assert(d.take(d.len() as int) == d);
    if is_infinity(digits.as_str()) || is_not_a_number(s) {
        return true;
    }
    let base: u32 = base_announced_by(&lower);
    if base > 0 {
        let rest = drop_underscores(&lower, 2);
        rest.len() > 0 && all_digits_of_base(&rest, base)
    } else {
        assert(lower@.skip(0) == lower@);
        let plain = drop_underscores(&lower, 0);
        is_decimal(&plain)
    }
}

/// Whether the text, written without quotes, would come back as a boolean, as null or as a number.
pub fn resolves_to_non_string(s: &str) -> (res: bool)
    ensures
        res == non_string(s@),
{
    if same_text(s, "") || same_text(s, "~") || same_text(s, "null") || same_text(s, "Null")
        || same_text(s, "NULL") || same_text(s, "true") || same_text(s, "True") || same_text(
        s,
        "TRUE",
    ) || same_text(s, "false") || same_text(s, "False") || same_text(s, "FALSE") {
        return true;
    }
    is_number_like(s)
}

// ---------------------------------------------------------------------------------------------
// Writing the styles
// ---------------------------------------------------------------------------------------------

/// The text between single quotes, its own single quotes doubled.
pub fn single_quoted(s: &str) -> (res: String)
    ensures
        res@ == single_quoted_text(s@),
{
    let chars = chars_of(s);
    let mut out = String::new();
    out.push('\'');
    let mut i: usize = 0;
    assert(chars@.skip(0) == chars@);
    while i < chars.len()
        invariant
            i <= chars@.len(),
            out@ + quotes_doubled(chars@.skip(i as int)) == seq!['\''] + quotes_doubled(chars@),
        decreases chars@.len() - i,
    {
        let ghost before = out@;
        let ghost rest = chars@.skip(i as int);
        assert(rest.drop_first() == chars@.skip(i + 1));
        out.push(chars[i]);
        if chars[i] == '\'' {
            out.push('\'');
        }
        assert(out@ + quotes_doubled(chars@.skip(i + 1)) =~= before + quotes_doubled(rest));
        i += 1;
    }
    assert(quotes_doubled(chars@.skip(i as int)) == Seq::<char>::empty());
    out.push('\'');
    assert(out@ =~= single_quoted_text(s@));
    out
}

fn hex_digit_char(d: u32) -> (res: char)
    requires
        d < 16,
    ensures
        res == hex_digit(d as int),
{
    if d < 10 {
        (d as u8 + 48) as char
    } else {
        (d as u8 + 55) as char
    }
}

/// Appends the last `width` hexadecimal digits of `n`.
fn push_hex(n: u32, width: usize, out: &mut String)
    ensures
        final(out)@ == old(out)@ + hex_text(n as int, width as nat),
    decreases width,
{
    if width > 0 {
        push_hex(n / 16, width - 1, out);
        out.push(hex_digit_char(n % 16));
    }
}

/// Appends a character as it stands between double quotes.
fn push_escaped(c: char, out: &mut String)
    ensures
        final(out)@ == old(out)@ + escape(c),
{
    let short = match c {
        '"' => '"',
        '\\' => '\\',
        '\0' => '0',
        '\u{7}' => 'a',
        '\u{8}' => 'b',
        '\t' => 't',
        '\n' => 'n',
        '\u{b}' => 'v',
        '\u{c}' => 'f',
        '\r' => 'r',
        '\u{1b}' => 'e',
        '\u{85}' => 'N',
        '\u{2028}' => 'L',
        '\u{2029}' => 'P',
        _ => ' ',
    };
    if short != ' ' {
        out.push('\\');
        out.push(short);
    } else if is_control(c) {
        out.push('\\');
        out.push('x');
        push_hex(c as u32, 2, out);
    } else if c as u32 > 0xFFFF {
        out.push('\\');
        out.push('U');
        push_hex(c as u32, 8, out);
    } else {
        out.push(c);
    }
}

/// The text between double quotes, with escapes.
pub fn double_quoted(s: &str) -> (res: String)
    ensures
        res@ == double_quoted_text(s@),
{
    let chars = chars_of(s);
    let mut out = String::new();
    out.push('"');
    let mut i: usize = 0;
    assert(chars@.skip(0) == chars@);
    while i < chars.len()
        invariant
            i <= chars@.len(),
            out@ + escaped(chars@.skip(i as int)) == seq!['"'] + escaped(chars@),
        decreases chars@.len() - i,
    {
        let ghost before = out@;
        let ghost rest = chars@.skip(i as int);
        assert(rest.drop_first() == chars@.skip(i + 1));
        push_escaped(chars[i], &mut out);
        assert(out@ + escaped(chars@.skip(i + 1)) =~= before + escaped(rest));
        i += 1;
    }
    assert(escaped(chars@.skip(i as int)) == Seq::<char>::empty());
    out.push('"');
    assert(out@ =~= double_quoted_text(s@));
    out
}

/// A string on one line, in the style it needs.
pub fn string_scalar(s: &str) -> (res: String)
    ensures
        res@ == scalar_text(s@),
{
    if needs_escaping(s) || resolves_to_non_string(s) {
        double_quoted(s)
    } else if is_plain_safe(s) {
        s.to_owned()
    } else {
        single_quoted(s)
    }
}

// ---------------------------------------------------------------------------------------------
// How long a string gets
// ---------------------------------------------------------------------------------------------

proof fn lemma_hex_len(n: int, width: nat)
    ensures
        hex_text(n, width).len() == width,
    decreases width,
{
    if width > 0 {
        lemma_hex_len(n / 16, (width - 1) as nat);
    }
}

proof fn lemma_escaped_len(s: Seq<char>)
    ensures
        escaped(s).len() <= 10 * s.len(),
    decreases s.len(),
{
    if s.len() > 0 {
        lemma_hex_len(s[0] as int, 2);
        lemma_hex_len(s[0] as int, 8);
        lemma_escaped_len(s.drop_first());
    }
}

proof fn lemma_doubled_len(s: Seq<char>)
    ensures
        quotes_doubled(s).len() <= 2 * s.len(),
    decreases s.len(),
{
    if s.len() > 0 {
        lemma_doubled_len(s.drop_first());
    }
}

/// No character takes more than ten, and the quotes take two.
pub proof fn lemma_scalar_len(s: Seq<char>)
    ensures
        scalar_text(s).len() <= 10 * s.len() + 2,
{
    lemma_escaped_len(s);
    lemma_doubled_len(s);
}

// ---------------------------------------------------------------------------------------------
// One line
// ---------------------------------------------------------------------------------------------

/// Nothing in `s` has to be escaped.
pub open spec fn escape_free(s: Seq<char>) -> bool {
    forall|i: int| 0 <= i < s.len() ==> !must_escape(#[trigger] s[i])
}

/// The characters that every text may be written with: printable ASCII.
pub open spec fn basic(c: char) -> bool {
    ' ' <= c <= '~'
}

/// Every character satisfies `p`.
pub open spec fn all_are(s: Seq<char>, p: spec_fn(char) -> bool) -> bool {
    forall|i: int| 0 <= i < s.len() ==> p(#[trigger] s[i])
}

/// Every character that needs no escape satisfies `p`.
pub open spec fn unescaped_are(s: Seq<char>, p: spec_fn(char) -> bool) -> bool {
    forall|i: int| 0 <= i < s.len() ==> must_escape(#[trigger] s[i]) || p(s[i])
}

/// Every basic character satisfies `p`.
pub open spec fn basics_are(p: spec_fn(char) -> bool) -> bool {
    forall|c: char| basic(c) ==> #[trigger] p(c)
}

proof fn lemma_hex_basic(n: int, width: nat)
    requires
        n >= 0,
    ensures
        all_are(hex_text(n, width), |c: char| basic(c)),
    decreases width,
{
    if width > 0 {
        lemma_hex_basic(n / 16, (width - 1) as nat);
        assert(basic(hex_digit(n % 16)));
    }
}

/// An escape is written with basic characters, and what needs none stands for itself.
proof fn lemma_escape_chars(c: char, p: spec_fn(char) -> bool)
    requires
        basics_are(p),
        must_escape(c) || p(c),
    ensures
        all_are(escape(c), p),
{
    lemma_hex_basic(c as int, 2);
    lemma_hex_basic(c as int, 8);
    assert forall|i: int| 0 <= i < escape(c).len() implies p(#[trigger] escape(c)[i]) by {
        if must_escape(c) {
            let (x, u) = (hex_text(c as int, 2), hex_text(c as int, 8));
            assert(i >= 2 && i - 2 < x.len() ==> basic(x[i - 2]));
            assert(i >= 2 && i - 2 < u.len() ==> basic(u[i - 2]));
            assert(basic(escape(c)[i]));
        } else if c == '"' || c == '\\' {
            assert(basic(escape(c)[i]));
        } else {
            assert(escape(c)[i] == c);
        }
    }
}

proof fn lemma_escaped_chars(s: Seq<char>, p: spec_fn(char) -> bool)
    requires
        basics_are(p),
        unescaped_are(s, p),
    ensures
        all_are(escaped(s), p),
    decreases s.len(),
{
    if s.len() > 0 {
        lemma_escape_chars(s[0], p);
        assert forall|i: int| 0 <= i < s.drop_first().len() implies must_escape(
            #[trigger] s.drop_first()[i],
        ) || p(s.drop_first()[i]) by {
            assert(s.drop_first()[i] == s[i + 1]);
        }
        lemma_escaped_chars(s.drop_first(), p);
    }
}

proof fn lemma_doubled_chars(s: Seq<char>, p: spec_fn(char) -> bool)
    requires
        basics_are(p),
        all_are(s, p),
    ensures
        all_are(quotes_doubled(s), p),
    decreases s.len(),
{
    if s.len() > 0 {
        assert(p(s[0]));
        assert(basic('\''));
        assert forall|i: int| 0 <= i < s.drop_first().len() implies p(
            #[trigger] s.drop_first()[i],
        ) by {
            assert(s.drop_first()[i] == s[i + 1]);
        }
        lemma_doubled_chars(s.drop_first(), p);
    }
}

/// A string is written with basic characters and with those of its own that need no escape.
pub proof fn lemma_scalar_chars(s: Seq<char>, p: spec_fn(char) -> bool)
    requires
        basics_are(p),
        unescaped_are(s, p),
    ensures
        all_are(scalar_text(s), p),
{
    lemma_escaped_chars(s, p);
    assert(basic('"') && basic('\''));
    if !unprintable(s) {
        assert forall|i: int| 0 <= i < s.len() implies p(#[trigger] s[i]) by {
            assert(!must_escape(s[i]));
        }
        lemma_doubled_chars(s, p);
    }
}

/// A string is written on one line whatever is in it: the text holds no line break, no other
/// control character and nothing above the basic multilingual plane.
pub proof fn a_string_stays_on_one_line(s: Seq<char>)
    ensures
        escape_free(scalar_text(s)),
{
    let p = |c: char| !must_escape(c);
    lemma_scalar_chars(s, p);
    assert forall|i: int| 0 <= i < scalar_text(s).len() implies !must_escape(
        #[trigger] scalar_text(s)[i],
    ) by {
        assert(p(scalar_text(s)[i]));
    }
}

} // verus!
