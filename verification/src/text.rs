//! Characters and strings: the classes of characters the exporter asks about, trimming, and the
//! comparisons it makes.

pub mod laws;

use vstd::prelude::*;

verus! {

/// `String::push` appends one character.
pub assume_specification[ std::string::String::push ](s: &mut std::string::String, c: char)
    ensures
        final(s)@ == old(s)@.push(c),
;

/// The Unicode lowercase form of a text, as `str::to_lowercase` computes it.
pub uninterp spec fn lowercase(s: Seq<char>) -> Seq<char>;

/// `str::to_lowercase` returns the lowercase form of its argument, which depends on nothing but
/// the text.
pub assume_specification[ str::to_lowercase ](s: &str) -> (res: std::string::String)
    ensures
        res@ == lowercase(s@),
;

// ---------------------------------------------------------------------------------------------
// Classes of characters
// ---------------------------------------------------------------------------------------------

/// Unicode's `White_Space` property.
pub open spec fn whitespace(c: char) -> bool {
    ||| 0x09 <= c as u32 <= 0x0D
    ||| c as u32 == 0x20
    ||| c as u32 == 0x85
    ||| c as u32 == 0xA0
    ||| c as u32 == 0x1680
    ||| 0x2000 <= c as u32 <= 0x200A
    ||| c as u32 == 0x2028
    ||| c as u32 == 0x2029
    ||| c as u32 == 0x202F
    ||| c as u32 == 0x205F
    ||| c as u32 == 0x3000
}

/// Whether `c` has Unicode's `White_Space` property.
pub fn is_whitespace(c: char) -> (res: bool)
    ensures
        res == whitespace(c),
{
    let n: u32 = c as u32;
    (0x09 <= n && n <= 0x0D) || n == 0x20 || n == 0x85 || n == 0xA0 || n == 0x1680 || (0x2000 <= n
        && n <= 0x200A) || n == 0x2028 || n == 0x2029 || n == 0x202F || n == 0x205F || n == 0x3000
}

/// Unicode's general category `Cc`: the C0 controls, delete, and the C1 controls.
pub open spec fn control(c: char) -> bool {
    c as u32 <= 0x1F || 0x7F <= c as u32 <= 0x9F
}

/// Whether `c` is a control character.
pub fn is_control(c: char) -> (res: bool)
    ensures
        res == control(c),
{
    let n: u32 = c as u32;
    n <= 0x1F || (0x7F <= n && n <= 0x9F)
}

/// `0` to `9`.
pub open spec fn digit(c: char) -> bool {
    '0' <= c <= '9'
}

pub fn is_digit(c: char) -> (res: bool)
    ensures
        res == digit(c),
{
    '0' <= c && c <= '9'
}

/// `A` to `Z` as `a` to `z`, and every other character as it is.
pub open spec fn ascii_lower(c: char) -> char {
    if 'A' <= c <= 'Z' {
        (c as u32 + 32) as char
    } else {
        c
    }
}

pub fn to_ascii_lower(c: char) -> (res: char)
    ensures
        res == ascii_lower(c),
{
    if 'A' <= c && c <= 'Z' {
        ((c as u8) + 32) as char
    } else {
        c
    }
}

/// Each character of `s` in ASCII lowercase.
pub open spec fn ascii_lowered(s: Seq<char>) -> Seq<char> {
    s.map_values(|c: char| ascii_lower(c))
}

// ---------------------------------------------------------------------------------------------
// Strings as sequences of characters
// ---------------------------------------------------------------------------------------------

/// The characters of a string, in order.
pub fn chars_of(s: &str) -> (res: Vec<char>)
    ensures
        res@ == s@,
{
    let mut res: Vec<char> = Vec::new();
    for c in it: s.chars()
        invariant
            res@ == s@.take(it.index()),
            it.seq() == s@,
    {
        res.push(c);
        assert(s@.take(it.index() + 1) == s@.take(it.index()).push(c));
    }
    assert(s@.take(s@.len() as int) == s@);
    res
}

/// The string made of the characters from `from` up to, and without, `to`.
pub fn string_of(chars: &Vec<char>, from: usize, to: usize) -> (res: String)
    requires
        from <= to <= chars@.len(),
    ensures
        res@ == chars@.subrange(from as int, to as int),
{
    let mut res = String::new();
    let mut i: usize = from;
    while i < to
        invariant
            from <= i <= to <= chars@.len(),
            res@ == chars@.subrange(from as int, i as int),
        decreases to - i,
    {
        res.push(chars[i]);
        assert(chars@.subrange(from as int, i + 1) == chars@.subrange(from as int, i as int).push(
            chars@[i as int],
        ));
        i += 1;
    }
    res
}

/// Whether two strings hold the same characters.
pub fn same_text(a: &str, b: &str) -> (res: bool)
    ensures
        res == (a@ == b@),
{
    let x = chars_of(a);
    let y = chars_of(b);
    if x.len() != y.len() {
        return false;
    }
    let mut i: usize = 0;
    while i < x.len()
        invariant
            i <= x@.len() == y@.len(),
            x@ == a@,
            y@ == b@,
            forall|j: int| 0 <= j < i ==> x@[j] == y@[j],
        decreases x@.len() - i,
    {
        if x[i] != y[i] {
            return false;
        }
        i += 1;
    }
    assert(x@ =~= y@);
    true
}

/// Whether two strings are the same once `A` to `Z` are read as `a` to `z`.
pub fn same_text_ignoring_ascii_case(a: &str, b: &str) -> (res: bool)
    ensures
        res == (ascii_lowered(a@) == ascii_lowered(b@)),
{
    let x = chars_of(a);
    let y = chars_of(b);
    if x.len() != y.len() {
        assert(ascii_lowered(a@).len() != ascii_lowered(b@).len());
        return false;
    }
    let mut i: usize = 0;
    while i < x.len()
        invariant
            i <= x@.len() == y@.len(),
            x@ == a@,
            y@ == b@,
            forall|j: int| 0 <= j < i ==> ascii_lowered(x@)[j] == ascii_lowered(y@)[j],
        decreases x@.len() - i,
    {
        if to_ascii_lower(x[i]) != to_ascii_lower(y[i]) {
            assert(ascii_lowered(x@)[i as int] != ascii_lowered(y@)[i as int]);
            return false;
        }
        i += 1;
    }
    assert(ascii_lowered(x@) =~= ascii_lowered(y@));
    true
}

/// Whether `c` occurs in `s`.
pub fn has_char(s: &str, c: char) -> (res: bool)
    ensures
        res == s@.contains(c),
{
    let chars = chars_of(s);
    let mut i: usize = 0;
    while i < chars.len()
        invariant
            i <= chars@.len(),
            chars@ == s@,
            forall|j: int| 0 <= j < i ==> chars@[j] != c,
        decreases chars@.len() - i,
    {
        if chars[i] == c {
            assert(s@[i as int] == c);
            return true;
        }
        i += 1;
    }
    false
}

/// Whether `s` begins with `prefix`.
pub fn has_prefix(s: &str, prefix: &str) -> (res: bool)
    ensures
        res == prefix@.is_prefix_of(s@),
{
    let x = chars_of(s);
    let y = chars_of(prefix);
    if x.len() < y.len() {
        return false;
    }
    let mut i: usize = 0;
    while i < y.len()
        invariant
            i <= y@.len() <= x@.len(),
            x@ == s@,
            y@ == prefix@,
            forall|j: int| 0 <= j < i ==> x@[j] == y@[j],
        decreases y@.len() - i,
    {
        if x[i] != y[i] {
            assert(s@.subrange(0, prefix@.len() as int)[i as int] != prefix@[i as int]);
            return false;
        }
        i += 1;
    }
    assert(prefix@ =~= s@.subrange(0, prefix@.len() as int));
    true
}

/// `part` stands in `s` from `i` on.
pub open spec fn stands_at(s: Seq<char>, part: Seq<char>, i: int) -> bool {
    0 <= i && i + part.len() <= s.len() && s.subrange(i, i + part.len()) == part
}

/// Whether `part` stands somewhere in `s`.
pub fn has_text(s: &str, part: &str) -> (res: bool)
    ensures
        res == exists|i: int| stands_at(s@, part@, i),
{
    let x = chars_of(s);
    let y = chars_of(part);
    let end: usize = x.len();
    let mut i: usize = 0;
    while i <= end && y.len() <= end - i
        invariant
            i <= end + 1,
            end == x@.len(),
            x@ == s@,
            y@ == part@,
            forall|k: int| 0 <= k < i ==> !stands_at(s@, part@, k),
        decreases x@.len() + 1 - i,
    {
        let mut j: usize = 0;
        while j < y.len() && x[i + j] == y[j]
            invariant
                j <= y@.len(),
                i + y@.len() <= end,
                end == x@.len(),
                forall|k: int| 0 <= k < j ==> x@[i + k] == y@[k],
            ensures
                j <= y@.len(),
                forall|k: int| 0 <= k < j ==> x@[i + k] == y@[k],
                j < y@.len() ==> x@[i + j] != y@[j as int],
            decreases y@.len() - j,
        {
            j += 1;
        }
        if j == y.len() {
            assert(s@.subrange(i as int, i + part@.len()) =~= part@);
            assert(stands_at(s@, part@, i as int));
            return true;
        }
        assert(s@.subrange(i as int, i + part@.len())[j as int] != part@[j as int]);
        i += 1;
    }
    false
}

// ---------------------------------------------------------------------------------------------
// Trimming
// ---------------------------------------------------------------------------------------------

/// `s` without the leading characters that satisfy `p`.
pub open spec fn trim_start_by(s: Seq<char>, p: spec_fn(char) -> bool) -> Seq<char>
    decreases s.len(),
{
    if s.len() > 0 && p(s.first()) {
        trim_start_by(s.drop_first(), p)
    } else {
        s
    }
}

/// `s` without the trailing characters that satisfy `p`.
pub open spec fn trim_end_by(s: Seq<char>, p: spec_fn(char) -> bool) -> Seq<char>
    decreases s.len(),
{
    if s.len() > 0 && p(s.last()) {
        trim_end_by(s.drop_last(), p)
    } else {
        s
    }
}

/// `s` without leading and trailing whitespace.
pub open spec fn trimmed(s: Seq<char>) -> Seq<char> {
    trim_end_by(trim_start_by(s, |c: char| whitespace(c)), |c: char| whitespace(c))
}

/// `s` without trailing slashes.
pub open spec fn without_trailing_slashes(s: Seq<char>) -> Seq<char> {
    trim_end_by(s, |c: char| c == '/')
}

/// `s` without leading and trailing slashes.
pub open spec fn without_outer_slashes(s: Seq<char>) -> Seq<char> {
    without_trailing_slashes(trim_start_by(s, |c: char| c == '/'))
}

proof fn lemma_trim_start(s: Seq<char>, p: spec_fn(char) -> bool)
    ensures
        trim_start_by(s, p).len() > 0 ==> !p(trim_start_by(s, p)[0]),
    decreases s.len(),
{
    if s.len() > 0 && p(s.first()) {
        lemma_trim_start(s.drop_first(), p);
    }
}

proof fn lemma_trim_end(s: Seq<char>, p: spec_fn(char) -> bool)
    ensures
        trim_end_by(s, p).len() > 0 ==> !p(trim_end_by(s, p).last()) && trim_end_by(s, p)[0]
            == s[0],
    decreases s.len(),
{
    if s.len() > 0 && p(s.last()) {
        lemma_trim_end(s.drop_last(), p);
    }
}

/// What trimming leaves has whitespace at neither end.
pub proof fn lemma_trimmed_ends(s: Seq<char>)
    ensures
        trimmed(s).len() > 0 ==> !whitespace(trimmed(s)[0]) && !whitespace(trimmed(s).last()),
{
    let p = |c: char| whitespace(c);
    lemma_trim_start(s, p);
    lemma_trim_end(trim_start_by(s, p), p);
}

fn is_slash(c: char) -> (res: bool)
    ensures
        res == (c == '/'),
{
    c == '/'
}

/// How many leading characters satisfy the predicate.
fn leading<F: Fn(char) -> bool>(chars: &Vec<char>, f: F, Ghost(p): Ghost<
    spec_fn(char) -> bool,
>) -> (n: usize)
    requires
        forall|c: char| #[trigger] f.requires((c,)),
        forall|c: char, r: bool| #[trigger] f.ensures((c,), r) ==> r == p(c),
    ensures
        n <= chars@.len(),
        trim_start_by(chars@, p) == chars@.skip(n as int),
{
    let mut n: usize = 0;
    assert(chars@.skip(0) == chars@);
    while n < chars.len() && f(chars[n])
        invariant
            n <= chars@.len(),
            trim_start_by(chars@, p) == trim_start_by(chars@.skip(n as int), p),
            forall|c: char| #[trigger] f.requires((c,)),
            forall|c: char, r: bool| #[trigger] f.ensures((c,), r) ==> r == p(c),
        ensures
            n <= chars@.len(),
            trim_start_by(chars@, p) == trim_start_by(chars@.skip(n as int), p),
            n < chars@.len() ==> !p(chars@[n as int]),
        decreases chars@.len() - n,
    {
        assert(chars@.skip(n as int).drop_first() == chars@.skip(n + 1));
        n += 1;
    }
    n
}

/// Where the characters from `from` end once those at the end that satisfy the predicate are
/// left out.
fn trailing<F: Fn(char) -> bool>(chars: &Vec<char>, from: usize, f: F, Ghost(p): Ghost<
    spec_fn(char) -> bool,
>) -> (n: usize)
    requires
        from <= chars@.len(),
        forall|c: char| #[trigger] f.requires((c,)),
        forall|c: char, r: bool| #[trigger] f.ensures((c,), r) ==> r == p(c),
    ensures
        from <= n <= chars@.len(),
        trim_end_by(chars@.skip(from as int), p) == chars@.subrange(from as int, n as int),
{
    let mut n: usize = chars.len();
    assert(chars@.skip(from as int) == chars@.subrange(from as int, n as int));
    while n > from && f(chars[n - 1])
        invariant
            from <= n <= chars@.len(),
            trim_end_by(chars@.skip(from as int), p) == trim_end_by(
                chars@.subrange(from as int, n as int),
                p,
            ),
            forall|c: char| #[trigger] f.requires((c,)),
            forall|c: char, r: bool| #[trigger] f.ensures((c,), r) ==> r == p(c),
        ensures
            from <= n <= chars@.len(),
            trim_end_by(chars@.skip(from as int), p) == trim_end_by(
                chars@.subrange(from as int, n as int),
                p,
            ),
            n > from ==> !p(chars@[n - 1]),
        decreases n,
    {
        assert(chars@.subrange(from as int, n as int).drop_last() == chars@.subrange(
            from as int,
            n - 1,
        ));
        n -= 1;
    }
    n
}

/// The text without leading and trailing whitespace.
pub fn trim(s: &str) -> (res: String)
    ensures
        res@ == trimmed(s@),
{
    let chars = chars_of(s);
    let ghost p = |c: char| whitespace(c);
    let from: usize = leading(&chars, is_whitespace, Ghost(p));
    let to: usize = trailing(&chars, from, is_whitespace, Ghost(p));
    string_of(&chars, from, to)
}

/// The text without trailing slashes.
pub fn trim_trailing_slashes(s: &str) -> (res: String)
    ensures
        res@ == without_trailing_slashes(s@),
{
    let chars = chars_of(s);
    let to: usize = trailing(&chars, 0, is_slash, Ghost(|c: char| c == '/'));
    assert(chars@.skip(0) == chars@);
    string_of(&chars, 0, to)
}

/// The text without leading and trailing slashes.
pub fn trim_slashes(s: &str) -> (res: String)
    ensures
        res@ == without_outer_slashes(s@),
{
    let chars = chars_of(s);
    let ghost p = |c: char| c == '/';
    let from: usize = leading(&chars, is_slash, Ghost(p));
    let to: usize = trailing(&chars, from, is_slash, Ghost(p));
    string_of(&chars, from, to)
}

// ---------------------------------------------------------------------------------------------
// Order
// ---------------------------------------------------------------------------------------------

/// Lexicographic order by code point.
pub open spec fn text_le(a: Seq<char>, b: Seq<char>) -> bool
    decreases a.len(),
{
    a.len() == 0 || (b.len() > 0 && (a[0] < b[0] || (a[0] == b[0] && text_le(
        a.drop_first(),
        b.drop_first(),
    ))))
}

pub proof fn lemma_text_le_total(a: Seq<char>, b: Seq<char>)
    ensures
        text_le(a, b) || text_le(b, a),
    decreases a.len(),
{
    if a.len() > 0 && b.len() > 0 {
        lemma_text_le_total(a.drop_first(), b.drop_first());
    }
}

pub proof fn lemma_text_le_antisymmetric(a: Seq<char>, b: Seq<char>)
    requires
        text_le(a, b),
        text_le(b, a),
    ensures
        a == b,
    decreases a.len(),
{
    if a.len() > 0 {
        lemma_text_le_antisymmetric(a.drop_first(), b.drop_first());
        assert(a =~= seq![a[0]] + a.drop_first());
        assert(b =~= seq![b[0]] + b.drop_first());
    } else {
        assert(a =~= b);
    }
}

pub proof fn lemma_text_le_transitive(a: Seq<char>, b: Seq<char>, c: Seq<char>)
    requires
        text_le(a, b),
        text_le(b, c),
    ensures
        text_le(a, c),
    decreases a.len(),
{
    if a.len() > 0 && a[0] == b[0] && b[0] == c[0] {
        lemma_text_le_transitive(a.drop_first(), b.drop_first(), c.drop_first());
    }
}

/// Whether `a` is `b` or comes before it in code-point order.
pub fn not_after(a: &str, b: &str) -> (res: bool)
    ensures
        res == text_le(a@, b@),
{
    let x = chars_of(a);
    let y = chars_of(b);
    let mut i: usize = 0;
    assert(x@.skip(0) == x@ && y@.skip(0) == y@);
    while i < x.len()
        invariant
            i <= x@.len(),
            i <= y@.len(),
            x@ == a@,
            y@ == b@,
            text_le(a@, b@) == text_le(x@.skip(i as int), y@.skip(i as int)),
        decreases x@.len() - i,
    {
        if i == y.len() {
            return false;
        }
        if x[i] < y[i] {
            return true;
        }
        if x[i] > y[i] {
            return false;
        }
        assert(x@.skip(i as int).drop_first() == x@.skip(i + 1));
        assert(y@.skip(i as int).drop_first() == y@.skip(i + 1));
        i += 1;
    }
    true
}

/// Three texts, one after the other.
pub fn joined(a: &str, b: &str, c: &str) -> (res: String)
    ensures
        res@ == a@ + b@ + c@,
{
    let mut res = a.to_owned();
    res.append(b);
    res.append(c);
    res
}

} // verus!
