//! How a document reads back: the part of YAML's grammar that the writer keeps to.
//!
//! The functions here say what a text means. They take the line structure, the indentation, the
//! quoting styles and the escapes from YAML 1.2, and accept a collection only in the block layout
//! with two columns per level or in the flow layout with one space behind each comma and colon. As
//! YAML has it, a key on one line takes no more than 1024 characters, no mapping has a key twice,
//! and a byte order mark at the start of a document belongs to none of its values.

use vstd::prelude::*;
use crate::yaml::scalar::{comment_mark, indicator, key_mark, number_like};
use crate::yaml::value::Node;

verus! {

// ---------------------------------------------------------------------------------------------
// Characters
// ---------------------------------------------------------------------------------------------

/// The characters that may stand in a document as they are.
pub open spec fn printable(c: char) -> bool {
    ||| c as u32 == 0x09 || c as u32 == 0x0A || c as u32 == 0x0D || c as u32 == 0x85
    ||| 0x20 <= c as u32 <= 0x7E
    ||| 0xA0 <= c as u32 <= 0xFFFD
    ||| 0x10000 <= c as u32
}

pub open spec fn all_printable(s: Seq<char>) -> bool {
    forall|i: int| 0 <= i < s.len() ==> printable(#[trigger] s[i])
}

/// The characters that delimit the parts of a flow collection.
pub open spec fn flow_mark(c: char) -> bool {
    c == ',' || c == '[' || c == ']' || c == '{' || c == '}'
}

/// The characters that the name of a tag is read from.
pub open spec fn tag_char(c: char) -> bool {
    ||| '0' <= c <= '9' || 'A' <= c <= 'Z' || 'a' <= c <= 'z'
    ||| c == '-' || c == '_' || c == '.' || c == '/' || c == ':'
}

// ---------------------------------------------------------------------------------------------
// Keys
// ---------------------------------------------------------------------------------------------

/// How many characters a key on one line may take.
pub const LONGEST_KEY: usize = 1024;

/// No key occurs twice.
pub open spec fn distinct_keys(entries: Seq<(Node, Node)>) -> bool {
    forall|i: int, j: int|
        0 <= i < j < entries.len() ==> (#[trigger] entries[i]).0 != (#[trigger] entries[j]).0
}

// ---------------------------------------------------------------------------------------------
// Scalars
// ---------------------------------------------------------------------------------------------

/// What stands for itself: the rest of a single-quoted scalar behind its opening quote, as the text
/// between the quotes and what follows the closing one.
pub open spec fn read_single(t: Seq<char>) -> Option<(Seq<char>, Seq<char>)>
    decreases t.len(),
{
    if t.len() == 0 {
        None
    } else if t[0] != '\'' {
        match read_single(t.drop_first()) {
            Some((s, rest)) => Some((seq![t[0]] + s, rest)),
            None => None,
        }
    } else if t.len() > 1 && t[1] == '\'' {
        match read_single(t.skip(2)) {
            Some((s, rest)) => Some((seq!['\''] + s, rest)),
            None => None,
        }
    } else {
        Some((Seq::empty(), t.drop_first()))
    }
}

/// The value of a hexadecimal digit, or -1.
pub open spec fn hex_value(c: char) -> int {
    if '0' <= c <= '9' {
        c as int - 48
    } else if 'A' <= c <= 'F' {
        c as int - 55
    } else if 'a' <= c <= 'f' {
        c as int - 87
    } else {
        -1
    }
}

/// The number that hexadecimal digits spell, or -1.
pub open spec fn hex_number(s: Seq<char>) -> int
    decreases s.len(),
{
    if s.len() == 0 {
        0
    } else if hex_value(s.last()) < 0 || hex_number(s.drop_last()) < 0 {
        -1
    } else {
        16 * hex_number(s.drop_last()) + hex_value(s.last())
    }
}

/// A code point as a character.
pub open spec fn character(n: int) -> Option<char> {
    if 0 <= n <= 0xD7FF || 0xE000 <= n <= 0x10FFFF {
        Some(n as char)
    } else {
        None
    }
}

/// What a backslash and `t` behind it stand for: the character, and how many characters of `t` it
/// takes.
pub open spec fn read_escape(t: Seq<char>) -> Option<(char, int)> {
    if t.len() == 0 {
        None
    } else if t[0] == '"' {
        Some(('"', 1))
    } else if t[0] == '\\' {
        Some(('\\', 1))
    } else if t[0] == '0' {
        Some(('\0', 1))
    } else if t[0] == 'a' {
        Some(('\u{7}', 1))
    } else if t[0] == 'b' {
        Some(('\u{8}', 1))
    } else if t[0] == 't' {
        Some(('\t', 1))
    } else if t[0] == 'n' {
        Some(('\n', 1))
    } else if t[0] == 'v' {
        Some(('\u{b}', 1))
    } else if t[0] == 'f' {
        Some(('\u{c}', 1))
    } else if t[0] == 'r' {
        Some(('\r', 1))
    } else if t[0] == 'e' {
        Some(('\u{1b}', 1))
    } else if t[0] == 'N' {
        Some(('\u{85}', 1))
    } else if t[0] == 'L' {
        Some(('\u{2028}', 1))
    } else if t[0] == 'P' {
        Some(('\u{2029}', 1))
    } else if t[0] == 'x' && t.len() >= 3 {
        match character(hex_number(t.subrange(1, 3))) {
            Some(c) => Some((c, 3)),
            None => None,
        }
    } else if t[0] == 'U' && t.len() >= 9 {
        match character(hex_number(t.subrange(1, 9))) {
            Some(c) => Some((c, 9)),
            None => None,
        }
    } else {
        None
    }
}

/// The rest of a double-quoted scalar behind its opening quote, as the text that it stands for and
/// what follows the closing quote.
pub open spec fn read_double(t: Seq<char>) -> Option<(Seq<char>, Seq<char>)>
    decreases t.len(),
{
    if t.len() == 0 {
        None
    } else if t[0] == '"' {
        Some((Seq::empty(), t.drop_first()))
    } else if t[0] == '\\' {
        match read_escape(t.drop_first()) {
            Some((c, n)) => match read_double(t.skip(1 + n)) {
                Some((s, rest)) => Some((seq![c] + s, rest)),
                None => None,
            },
            None => None,
        }
    } else {
        match read_double(t.drop_first()) {
            Some((s, rest)) => Some((seq![t[0]] + s, rest)),
            None => None,
        }
    }
}

/// Where a plain scalar ends at the latest: at a colon that ends a key, at a comment, or, inside a
/// flow collection, at one of its marks.
pub open spec fn plain_stop(t: Seq<char>, i: int, in_flow: bool) -> bool {
    key_mark(t, i) || comment_mark(t, i) || (in_flow && flow_mark(t[i]))
}

/// How many characters a plain scalar takes.
pub open spec fn plain_len(t: Seq<char>, from: int, in_flow: bool) -> int
    decreases t.len() - from,
{
    if from < 0 || from >= t.len() || plain_stop(t, from, in_flow) {
        from
    } else {
        plain_len(t, from + 1, in_flow)
    }
}

/// Whether a plain scalar may begin like this: not with an indicator, except for a dash, a question
/// mark or a colon with something other than a space behind it.
pub open spec fn plain_start(t: Seq<char>) -> bool {
    t.len() > 0 && (!indicator(t[0]) || ((t[0] == '-' || t[0] == '?' || t[0] == ':') && t.len() > 1
        && t[1] != ' '))
}

/// What a plain scalar means.
pub open spec fn resolved(s: Seq<char>) -> Node {
    if number_like(s) {
        Node::Number(s)
    } else if s == "~"@ || s == "null"@ || s == "Null"@ || s == "NULL"@ {
        Node::Null
    } else if s == "true"@ || s == "True"@ || s == "TRUE"@ {
        Node::Bool(true)
    } else if s == "false"@ || s == "False"@ || s == "FALSE"@ {
        Node::Bool(false)
    } else {
        Node::Str(s)
    }
}

// ---------------------------------------------------------------------------------------------
// Values on one line
// ---------------------------------------------------------------------------------------------

/// How many characters of `t` belong to a tag.
pub open spec fn tag_len(t: Seq<char>, from: int) -> int
    decreases t.len() - from,
{
    if from < 0 || from >= t.len() || !tag_char(t[from]) {
        from
    } else {
        tag_len(t, from + 1)
    }
}

/// The value at the start of `t`, and what follows it.
pub open spec fn read_flow(t: Seq<char>, in_flow: bool) -> Option<(Node, Seq<char>)>
    decreases t.len(), 1int,
{
    if t.len() > 0 && t[0] == '!' {
        let n = tag_len(t, 1);
        if 1 < n < t.len() && t[n] == ' ' {
            match read_untagged(t.skip(n + 1), in_flow) {
                Some((node, rest)) => Some((Node::Tagged(t.take(n), Box::new(node)), rest)),
                None => None,
            }
        } else {
            None
        }
    } else {
        read_untagged(t, in_flow)
    }
}

/// The value without a tag at the start of `t`, and what follows it.
pub open spec fn read_untagged(t: Seq<char>, in_flow: bool) -> Option<(Node, Seq<char>)>
    decreases t.len(), 0int,
{
    if t.len() == 0 {
        None
    } else if t[0] == '"' {
        match read_double(t.drop_first()) {
            Some((s, rest)) => Some((Node::Str(s), rest)),
            None => None,
        }
    } else if t[0] == '\'' {
        match read_single(t.drop_first()) {
            Some((s, rest)) => Some((Node::Str(s), rest)),
            None => None,
        }
    } else if t[0] == '[' {
        if t.len() > 1 && t[1] == ']' {
            Some((Node::Sequence(Seq::empty()), t.skip(2)))
        } else {
            match read_items(t.drop_first()) {
                Some((items, rest)) => Some((Node::Sequence(items), rest)),
                None => None,
            }
        }
    } else if t[0] == '{' {
        if t.len() > 1 && t[1] == '}' {
            Some((Node::Mapping(Seq::empty()), t.skip(2)))
        } else {
            match read_entries(t.drop_first()) {
                Some((entries, rest)) => if distinct_keys(entries) {
                    Some((Node::Mapping(entries), rest))
                } else {
                    None
                },
                None => None,
            }
        }
    } else if plain_start(t) {
        let n = plain_len(t, 0, in_flow);
        if 0 < n <= t.len() {
            Some((resolved(t.take(n)), t.skip(n)))
        } else {
            None
        }
    } else {
        None
    }
}

/// The items of a flow sequence up to its closing bracket, and what follows it.
pub open spec fn read_items(t: Seq<char>) -> Option<(Seq<Node>, Seq<char>)>
    decreases t.len(), 2int,
{
    match read_flow(t, true) {
        None => None,
        Some((first, rest)) => if rest.len() == 0 || rest.len() >= t.len() {
            None
        } else if rest[0] == ']' {
            Some((seq![first], rest.drop_first()))
        } else if rest.len() >= 2 && rest[0] == ',' && rest[1] == ' ' {
            match read_items(rest.skip(2)) {
                Some((others, end)) => Some((seq![first] + others, end)),
                None => None,
            }
        } else {
            None
        },
    }
}

/// The entries of a flow mapping up to its closing brace, and what follows it.
pub open spec fn read_entries(t: Seq<char>) -> Option<(Seq<(Node, Node)>, Seq<char>)>
    decreases t.len(), 2int,
{
    match read_flow(t, true) {
        None => None,
        Some((key, after_key)) => if after_key.len() < 2 || after_key.len() >= t.len()
            || t.len() - after_key.len() > LONGEST_KEY || after_key[0] != ':' || after_key[1]
            != ' ' {
            None
        } else {
            match read_flow(after_key.skip(2), true) {
                None => None,
                Some((value, rest)) => if rest.len() == 0 || rest.len() >= t.len() {
                    None
                } else if rest[0] == '}' {
                    Some((seq![(key, value)], rest.drop_first()))
                } else if rest.len() >= 2 && rest[0] == ',' && rest[1] == ' ' {
                    match read_entries(rest.skip(2)) {
                        Some((others, end)) => Some((seq![(key, value)] + others, end)),
                        None => None,
                    }
                } else {
                    None
                },
            }
        },
    }
}

// ---------------------------------------------------------------------------------------------
// Blocks
// ---------------------------------------------------------------------------------------------

/// A line that begins an item of a block sequence.
pub open spec fn dash_line(line: Seq<char>) -> bool {
    line.len() >= 2 && line[0] == '-' && line[1] == ' '
}

/// A line that belongs to what stands above it.
pub open spec fn inner_line(line: Seq<char>) -> bool {
    line.len() >= 2 && line[0] == ' ' && line[1] == ' '
}

/// Where the inner lines from `from` on end.
pub open spec fn inner_end(lines: Seq<Seq<char>>, from: int) -> int
    decreases lines.len() - from,
{
    if from < 0 || from >= lines.len() || !inner_line(lines[from]) {
        from
    } else {
        inner_end(lines, from + 1)
    }
}

/// Lines moved two columns to the left.
pub open spec fn outdented(lines: Seq<Seq<char>>) -> Seq<Seq<char>> {
    lines.map_values(|line: Seq<char>| line.skip(2))
}

/// How long the first line is.
pub open spec fn first_len(lines: Seq<Seq<char>>) -> nat {
    if lines.len() == 0 {
        0
    } else {
        lines[0].len()
    }
}

/// The value that takes exactly these lines.
pub open spec fn read_block(lines: Seq<Seq<char>>) -> Option<Node>
    decreases lines.len(), first_len(lines), 1int,
{
    if lines.len() == 0 {
        None
    } else if dash_line(lines[0]) {
        match read_sequence(lines) {
            Some(items) => Some(Node::Sequence(items)),
            None => None,
        }
    } else {
        match read_flow(lines[0], false) {
            None => None,
            Some((node, rest)) => if rest.len() == 0 {
                if lines.len() == 1 {
                    Some(node)
                } else {
                    None
                }
            } else {
                match read_mapping(lines) {
                    Some(entries) => if distinct_keys(entries) {
                        Some(Node::Mapping(entries))
                    } else {
                        None
                    },
                    None => None,
                }
            },
        }
    }
}

/// The items of a block sequence that takes exactly these lines.
pub open spec fn read_sequence(lines: Seq<Seq<char>>) -> Option<Seq<Node>>
    decreases lines.len(), first_len(lines), 0int,
{
    if lines.len() == 0 {
        Some(Seq::empty())
    } else if !dash_line(lines[0]) {
        None
    } else {
        let end = inner_end(lines, 1);
        if !(1 <= end <= lines.len()) {
            None
        } else {
            match (read_block(outdented(lines.take(end))), read_sequence(lines.skip(end))) {
                (Some(first), Some(others)) => Some(seq![first] + others),
                _ => None,
            }
        }
    }
}

/// The entries of a block mapping that takes exactly these lines.
pub open spec fn read_mapping(lines: Seq<Seq<char>>) -> Option<Seq<(Node, Node)>>
    decreases lines.len(), first_len(lines), 0int,
{
    if lines.len() == 0 {
        Some(Seq::empty())
    } else {
        match read_flow(lines[0], false) {
            None => None,
            Some((key, rest)) => if lines[0].len() - rest.len() > LONGEST_KEY {
                None
            } else if rest == seq![':'] {
                let end = inner_end(lines, 1);
                if !(1 < end <= lines.len()) {
                    None
                } else {
                    match (
                        read_block(outdented(lines.subrange(1, end))),
                        read_mapping(lines.skip(end)),
                    ) {
                        (Some(value), Some(others)) => Some(seq![(key, value)] + others),
                        _ => None,
                    }
                }
            } else if rest.len() >= 2 && rest[0] == ':' && rest[1] == ' ' {
                match (read_flow(rest.skip(2), false), read_mapping(lines.drop_first())) {
                    (Some((value, end)), Some(others)) => if end.len() == 0 {
                        Some(seq![(key, value)] + others)
                    } else {
                        None
                    },
                    _ => None,
                }
            } else {
                None
            },
        }
    }
}

// ---------------------------------------------------------------------------------------------
// Documents
// ---------------------------------------------------------------------------------------------

/// Where the first line ends.
pub open spec fn line_end(text: Seq<char>) -> int
    decreases text.len(),
{
    if text.len() == 0 || text[0] == '\n' {
        0
    } else {
        1 + line_end(text.drop_first())
    }
}

/// The lines of a text, each ended by a line feed.
pub open spec fn split_lines(text: Seq<char>) -> Option<Seq<Seq<char>>>
    decreases text.len(),
{
    let end = line_end(text);
    if text.len() == 0 {
        Some(Seq::empty())
    } else if !(0 <= end < text.len()) {
        None
    } else {
        match split_lines(text.skip(end + 1)) {
            Some(others) => Some(seq![text.take(end)] + others),
            None => None,
        }
    }
}

/// A line that ends a document: three dots, alone or before a space.
pub open spec fn document_end(line: Seq<char>) -> bool {
    line.len() >= 3 && line[0] == '.' && line[1] == '.' && line[2] == '.' && (line.len() == 3
        || line[3] == ' ')
}

/// A text without the byte order mark that it begins with, if it does.
pub open spec fn without_mark(text: Seq<char>) -> Seq<char> {
    if text.len() > 0 && text[0] == '\u{feff}' {
        text.drop_first()
    } else {
        text
    }
}

/// What a document means.
pub open spec fn read_document(text: Seq<char>) -> Option<Node> {
    if !all_printable(text) {
        None
    } else {
        match split_lines(without_mark(text)) {
            None => None,
            Some(lines) => if exists|i: int| 0 <= i < lines.len() && document_end(
                #[trigger] lines[i],
            ) {
                None
            } else {
                read_block(lines)
            },
        }
    }
}

} // verus!
