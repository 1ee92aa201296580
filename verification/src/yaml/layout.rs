//! What a document looks like: the lines that a value takes, and how values are written on one
//! line.

use vstd::prelude::*;
use crate::yaml::scalar::scalar_text;
use crate::yaml::value::Node;

verus! {

// ---------------------------------------------------------------------------------------------
// On one line
// ---------------------------------------------------------------------------------------------

/// A value on one line: a scalar, or a flow collection.
pub open spec fn flow_text(n: Node) -> Seq<char>
    decreases n,
{
    match n {
        Node::Null => "null"@,
        Node::Bool(b) => if b {
            "true"@
        } else {
            "false"@
        },
        Node::Number(text) => text,
        Node::Str(s) => scalar_text(s),
        Node::Sequence(items) => seq!['['] + flow_items(items) + seq![']'],
        Node::Mapping(entries) => seq!['{'] + flow_entries(entries) + seq!['}'],
        Node::Tagged(tag, inner) => tag + seq![' '] + flow_text(*inner),
    }
}

/// Values on one line, with a comma and a space between them.
pub open spec fn flow_items(items: Seq<Node>) -> Seq<char>
    decreases items,
{
    if items.len() == 0 {
        Seq::empty()
    } else if items.len() == 1 {
        flow_text(items[0])
    } else {
        flow_text(items[0]) + seq![',', ' '] + flow_items(items.drop_first())
    }
}

/// Entries on one line, with a comma and a space between them.
pub open spec fn flow_entries(entries: Seq<(Node, Node)>) -> Seq<char>
    decreases entries,
{
    if entries.len() == 0 {
        Seq::empty()
    } else if entries.len() == 1 {
        flow_text(entries[0].0) + seq![':', ' '] + flow_text(entries[0].1)
    } else {
        flow_text(entries[0].0) + seq![':', ' '] + flow_text(entries[0].1) + seq![',', ' ']
            + flow_entries(entries.drop_first())
    }
}

// ---------------------------------------------------------------------------------------------
// In blocks
// ---------------------------------------------------------------------------------------------

/// Whether a value takes lines of its own: a sequence or a mapping that is not empty.
pub open spec fn is_block(n: Node) -> bool {
    match n {
        Node::Sequence(items) => items.len() > 0,
        Node::Mapping(entries) => entries.len() > 0,
        _ => false,
    }
}

/// The lines of a value, without the indentation of what it stands under.
pub open spec fn block_lines(n: Node) -> Seq<Seq<char>>
    decreases n,
{
    if !is_block(n) {
        seq![flow_text(n)]
    } else {
        match n {
            Node::Sequence(items) => sequence_lines(items),
            Node::Mapping(entries) => mapping_lines(entries),
            _ => Seq::empty(),
        }
    }
}

/// Each item behind a dash, its further lines below its first.
pub open spec fn sequence_lines(items: Seq<Node>) -> Seq<Seq<char>>
    decreases items,
{
    if items.len() == 0 {
        Seq::empty()
    } else {
        dashed(block_lines(items[0])) + sequence_lines(items.drop_first())
    }
}

/// Each entry behind its key: on the same line if it takes one line, and otherwise below,
/// indented.
pub open spec fn mapping_lines(entries: Seq<(Node, Node)>) -> Seq<Seq<char>>
    decreases entries,
{
    if entries.len() == 0 {
        Seq::empty()
    } else {
        let (key, value) = (entries[0].0, entries[0].1);
        let first = if is_block(value) {
            seq![flow_text(key) + seq![':']] + indented(block_lines(value))
        } else {
            seq![flow_text(key) + seq![':', ' '] + flow_text(value)]
        };
        first + mapping_lines(entries.drop_first())
    }
}

/// Lines moved two columns to the right.
pub open spec fn indented(lines: Seq<Seq<char>>) -> Seq<Seq<char>> {
    lines.map_values(|line: Seq<char>| seq![' ', ' '] + line)
}

/// Lines moved two columns to the right, with a dash in the room that this makes on the first.
pub open spec fn dashed(lines: Seq<Seq<char>>) -> Seq<Seq<char>> {
    Seq::new(
        lines.len(),
        |i: int|
            if i == 0 {
                seq!['-', ' '] + lines[i]
            } else {
                seq![' ', ' '] + lines[i]
            },
    )
}

/// Lines as text, each behind a margin and ended by a line feed.
pub open spec fn lines_text(lines: Seq<Seq<char>>, margin: Seq<char>) -> Seq<char>
    decreases lines.len(),
{
    if lines.len() == 0 {
        Seq::empty()
    } else {
        margin + lines[0] + seq!['\n'] + lines_text(lines.drop_first(), margin)
    }
}

/// The text of a whole document.
pub open spec fn document_text(n: Node) -> Seq<char> {
    lines_text(block_lines(n), Seq::empty())
}

// ---------------------------------------------------------------------------------------------
// How lines and text go together
// ---------------------------------------------------------------------------------------------

pub proof fn lemma_lines_text_add(a: Seq<Seq<char>>, b: Seq<Seq<char>>, margin: Seq<char>)
    ensures
        lines_text(a + b, margin) == lines_text(a, margin) + lines_text(b, margin),
    decreases a.len(),
{
    if a.len() == 0 {
        assert(a + b == b);
    } else {
        assert((a + b).drop_first() == a.drop_first() + b);
        lemma_lines_text_add(a.drop_first(), b, margin);
        assert(lines_text(a + b, margin) =~= lines_text(a, margin) + lines_text(b, margin));
    }
}

pub proof fn lemma_lines_text_one(line: Seq<char>, margin: Seq<char>)
    ensures
        lines_text(seq![line], margin) == margin + line + seq!['\n'],
{
    reveal_with_fuel(lines_text, 2);
    assert(seq![line].drop_first() == Seq::<Seq<char>>::empty());
    assert(lines_text(seq![line], margin) =~= margin + line + seq!['\n']);
}

/// Indenting the lines is the same as widening the margin.
pub proof fn lemma_lines_text_indented(lines: Seq<Seq<char>>, margin: Seq<char>)
    ensures
        lines_text(indented(lines), margin) == lines_text(lines, margin + seq![' ', ' ']),
    decreases lines.len(),
{
    if lines.len() > 0 {
        assert(indented(lines).drop_first() == indented(lines.drop_first()));
        lemma_lines_text_indented(lines.drop_first(), margin);
        assert(margin + (seq![' ', ' '] + lines[0]) =~= margin + seq![' ', ' '] + lines[0]);
    }
}

/// A dash takes the place of the last two columns of the widened margin on the first line.
pub proof fn lemma_lines_text_dashed(lines: Seq<Seq<char>>, margin: Seq<char>)
    requires
        lines.len() > 0,
    ensures
        (margin + seq![' ', ' ']).is_prefix_of(lines_text(lines, margin + seq![' ', ' '])),
        lines_text(dashed(lines), margin) == margin + seq!['-', ' '] + lines_text(
            lines,
            margin + seq![' ', ' '],
        ).skip(margin.len() as int + 2),
{
    let wide = margin + seq![' ', ' '];
    let rest = lines.drop_first();
    assert(dashed(lines).drop_first() =~= indented(rest));
    lemma_lines_text_indented(rest, margin);
    let whole = lines_text(lines, wide);
    assert(whole == wide + lines[0] + seq!['\n'] + lines_text(rest, wide));
    assert(whole.skip(margin.len() as int + 2) =~= lines[0] + seq!['\n'] + lines_text(rest, wide));
    assert(wide =~= whole.subrange(0, wide.len() as int));
    assert(lines_text(dashed(lines), margin) =~= margin + seq!['-', ' '] + whole.skip(
        margin.len() as int + 2,
    ));
}

/// A value takes at least one line.
pub proof fn lemma_block_lines_nonempty(n: Node)
    ensures
        block_lines(n).len() > 0,
    decreases n,
{
    if is_block(n) {
        match n {
            Node::Sequence(items) => {
                lemma_block_lines_nonempty(items[0]);
            },
            _ => {},
        }
    }
}

} // verus!
