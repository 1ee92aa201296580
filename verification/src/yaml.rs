//! A small block-style YAML writer that lays a document out as `yq .` prints it.
//!
//! Block sequences are indented under the key that owns them, strings are quoted only where they
//! have to be, and every scalar stays on one line.

pub mod core_schema;
pub mod laws;
pub mod layout;
pub mod reader;
pub mod round_trip;
pub mod scalar;
pub mod value;

use vstd::prelude::*;
use crate::text::chars_of;
use crate::yaml::layout::{
    block_lines, dashed, document_text, flow_entries, flow_items, flow_text, indented, is_block,
    lemma_block_lines_nonempty, lemma_lines_text_add, lemma_lines_text_dashed,
    lemma_lines_text_indented, lemma_lines_text_one, lines_text, mapping_lines, sequence_lines,
};
use crate::yaml::scalar::string_scalar;
use crate::yaml::value::{entries_of, lemma_entries_of, lemma_nodes_of, nodes_of, Value};

verus! {

/// The document for `value`: block YAML, indented by two columns per level.
pub fn to_string(value: &Value) -> (res: String)
    ensures
        res@ == document_text(value@),
{
    let mut out = String::new();
    proof {
        reveal_strlit("");
        assert(""@ =~= Seq::<char>::empty());
    }
    match value {
        Value::Mapping(map) if map.len() > 0 => write_mapping(map, "", &mut out),
        Value::Sequence(seq) if seq.len() > 0 => write_sequence(seq, "", &mut out),
        other => {
            proof {
                lemma_takes_block(*other);
                lemma_lines_text_one(flow_text(other@), Seq::empty());
            }
            let text = flow(other);
            out.append(text.as_str());
            out.push('\n');
        },
    }
    assert(out@ =~= document_text(value@));
    out
}

/// A value takes lines of its own exactly if it is a sequence or a mapping that is not empty.
proof fn lemma_takes_block(value: Value)
    ensures
        is_block(value@) == match value {
            Value::Sequence(items) => items@.len() > 0,
            Value::Mapping(entries) => entries@.len() > 0,
            _ => false,
        },
{
    match value {
        Value::Sequence(items) => lemma_nodes_of(items@),
        Value::Mapping(entries) => lemma_entries_of(entries@),
        _ => {},
    }
}

/// Nothing but spaces.
pub open spec fn blank(s: Seq<char>) -> bool {
    forall|i: int| 0 <= i < s.len() ==> #[trigger] s[i] == ' '
}

/// Appends the entries of a mapping, each line behind `margin`.
pub fn write_mapping(map: &Vec<(Value, Value)>, margin: &str, out: &mut String)
    requires
        blank(margin@),
    ensures
        final(out)@ == old(out)@ + lines_text(mapping_lines(entries_of(map@)), margin@),
    decreases map,
{
    let ghost entries = entries_of(map@);
    let ghost start = out@;
    let mut i: usize = 0;
    assert(entries.skip(0) == entries);
    while i < map.len()
        invariant
            i <= map@.len(),
            blank(margin@),
            entries == entries_of(map@),
            out@ + lines_text(mapping_lines(entries.skip(i as int)), margin@) == start
                + lines_text(mapping_lines(entries), margin@),
        decreases map@.len() - i,
    {
        let ghost before = out@;
        let ghost (key, value) = (entries[i as int].0, entries[i as int].1);
        let ghost rest = entries.skip(i as int);
        assert(rest.drop_first() == entries.skip(i + 1));
        assert(decreases_to!(map => map[i as int]));
        proof {
            lemma_takes_block(map[i as int].1);
            assert(value == map[i as int].1@);
        }
        pad(margin, out);
        let text = flow(&map[i].0);
        out.append(text.as_str());
        out.push(':');
        let ghost first = if is_block(value) {
            seq![flow_text(key) + seq![':']] + indented(block_lines(value))
        } else {
            seq![flow_text(key) + seq![':', ' '] + flow_text(value)]
        };
        match &map[i].1 {
            Value::Mapping(child) if child.len() > 0 => {
                out.push('\n');
                let wide = widened(margin);
                write_mapping(child, wide.as_str(), out);
                assert(block_lines(value) == mapping_lines(entries_of(child@)));
            },
            Value::Sequence(child) if child.len() > 0 => {
                out.push('\n');
                let wide = widened(margin);
                write_sequence(child, wide.as_str(), out);
                assert(block_lines(value) == sequence_lines(nodes_of(child@)));
            },
            scalar => {
                out.push(' ');
                let text = flow(scalar);
                out.append(text.as_str());
                out.push('\n');
            },
        }
        proof {
            if is_block(value) {
                let head = seq![flow_text(key) + seq![':']];
                lemma_lines_text_add(head, indented(block_lines(value)), margin@);
                lemma_lines_text_one(head[0], margin@);
                lemma_lines_text_indented(block_lines(value), margin@);
            } else {
                lemma_lines_text_one(first[0], margin@);
            }
            assert(out@ =~= before + lines_text(first, margin@));
            lemma_lines_text_add(first, mapping_lines(entries.skip(i + 1)), margin@);
            assert(out@ + lines_text(mapping_lines(entries.skip(i + 1)), margin@) =~= before
                + lines_text(mapping_lines(rest), margin@));
        }
        i += 1;
    }
    assert(mapping_lines(entries.skip(i as int)) == Seq::<Seq<char>>::empty());
    assert(out@ =~= start + lines_text(mapping_lines(entries), margin@));
}

/// Appends the items of a sequence, each line behind `margin`.
pub fn write_sequence(seq: &Vec<Value>, margin: &str, out: &mut String)
    requires
        blank(margin@),
    ensures
        final(out)@ == old(out)@ + lines_text(sequence_lines(nodes_of(seq@)), margin@),
    decreases seq,
{
    let ghost items = nodes_of(seq@);
    let ghost start = out@;
    let mut i: usize = 0;
    assert(items.skip(0) == items);
    while i < seq.len()
        invariant
            i <= seq@.len(),
            blank(margin@),
            items == nodes_of(seq@),
            out@ + lines_text(sequence_lines(items.skip(i as int)), margin@) == start
                + lines_text(sequence_lines(items), margin@),
        decreases seq@.len() - i,
    {
        let ghost before = out@;
        let ghost item = items[i as int];
        let ghost rest = items.skip(i as int);
        assert(rest.drop_first() == items.skip(i + 1));
        assert(decreases_to!(seq => seq[i as int]));
        proof {
            lemma_takes_block(seq[i as int]);
            assert(item == seq[i as int]@);
            lemma_block_lines_nonempty(item);
            lemma_lines_text_dashed(block_lines(item), margin@);
        }
        match &seq[i] {
            Value::Mapping(child) if child.len() > 0 => {
                let mut block = String::new();
                let wide = widened(margin);
                write_mapping(child, wide.as_str(), &mut block);
                assert(block@ =~= lines_text(block_lines(item), wide@));
                push_dashed(block.as_str(), margin, out);
            },
            Value::Sequence(child) if child.len() > 0 => {
                let mut block = String::new();
                let wide = widened(margin);
                write_sequence(child, wide.as_str(), &mut block);
                assert(block@ =~= lines_text(block_lines(item), wide@));
                push_dashed(block.as_str(), margin, out);
            },
            scalar => {
                pad(margin, out);
                out.append("- ");
                let text = flow(scalar);
                out.append(text.as_str());
                out.push('\n');
                proof {
                    reveal_strlit("- ");
                    assert("- "@ =~= seq!['-', ' ']);
                    lemma_lines_text_one(seq!['-', ' '] + flow_text(item), margin@);
                    assert(dashed(block_lines(item)) =~= seq![seq!['-', ' '] + flow_text(item)]);
                }
            },
        }
        proof {
            assert(out@ =~= before + lines_text(dashed(block_lines(item)), margin@));
            lemma_lines_text_add(
                dashed(block_lines(item)),
                sequence_lines(items.skip(i + 1)),
                margin@,
            );
            assert(out@ + lines_text(sequence_lines(items.skip(i + 1)), margin@) =~= before
                + lines_text(sequence_lines(rest), margin@));
        }
        i += 1;
    }
    assert(sequence_lines(items.skip(i as int)) == Seq::<Seq<char>>::empty());
    assert(out@ =~= start + lines_text(sequence_lines(items), margin@));
}

/// Appends a block that was written two columns further in than `margin`, with a dash in place of
/// those columns on its first line.
pub fn push_dashed(block: &str, margin: &str, out: &mut String)
    requires
        blank(margin@),
        (margin@ + seq![' ', ' ']).is_prefix_of(block@),
    ensures
        final(out)@ == old(out)@ + margin@ + seq!['-', ' '] + block@.skip(
            margin@.len() as int + 2,
        ),
{
    pad(margin, out);
    out.append("- ");
    proof {
        reveal_strlit("- ");
        assert("- "@ =~= seq!['-', ' ']);
    }
    let chars = chars_of(block);
    let total: usize = chars.len();
    assert(margin@.len() + 2 <= total);
    let start: usize = margin.unicode_len() + 2;
    let ghost before = out@;
    let mut i: usize = start;
    while i < chars.len()
        invariant
            start <= i <= chars@.len(),
            out@ == before + chars@.subrange(start as int, i as int),
        decreases chars@.len() - i,
    {
        out.push(chars[i]);
        assert(chars@.subrange(start as int, i + 1) == chars@.subrange(start as int, i as int).push(
            chars@[i as int],
        ));
        i += 1;
    }
    assert(chars@.subrange(start as int, i as int) == block@.skip(margin@.len() as int + 2));
}

/// Appends the margin of a line.
pub fn pad(margin: &str, out: &mut String)
    requires
        blank(margin@),
    ensures
        final(out)@ == old(out)@ + margin@,
{
    out.append(margin);
}

/// The margin of what stands one level below.
fn widened(margin: &str) -> (res: String)
    requires
        blank(margin@),
    ensures
        res@ == margin@ + seq![' ', ' '],
        blank(res@),
{
    let mut wide = margin.to_owned();
    wide.push(' ');
    wide.push(' ');
    assert(wide@ =~= margin@ + seq![' ', ' ']);
    wide
}

/// A value on one line: a scalar, or a flow collection where a block cannot stand.
pub fn flow(value: &Value) -> (res: String)
    ensures
        res@ == flow_text(value@),
    decreases value,
{
    match value {
        Value::Null => "null".to_owned(),
        Value::Bool(b) => if *b {
            "true".to_owned()
        } else {
            "false".to_owned()
        },
        Value::Number(n) => n.text(),
        Value::String(s) => string_scalar(s.as_str()),
        Value::Sequence(seq) => {
            let ghost items = nodes_of(seq@);
            let mut out = String::new();
            out.push('[');
            let mut i: usize = 0;
            assert(items.skip(0) == items);
            while i < seq.len()
                invariant
                    i <= seq@.len(),
                    items == nodes_of(seq@),
                    value == Value::Sequence(*seq),
                    out@ + (if i > 0 && i < items.len() {
                        seq![',', ' ']
                    } else {
                        Seq::empty()
                    }) + flow_items(items.skip(i as int)) == seq!['['] + flow_items(items),
                decreases seq@.len() - i,
            {
                let ghost before = out@;
                let ghost rest = items.skip(i as int);
                assert(rest.drop_first() == items.skip(i + 1));
                assert(decreases_to!(value => value->Sequence_0));
                assert(decreases_to!(seq => seq[i as int]));
                if i > 0 {
                    out.append(", ");
                    proof {
                        reveal_strlit(", ");
                        assert(", "@ =~= seq![',', ' ']);
                    }
                }
                let text = flow(&seq[i]);
                out.append(text.as_str());
                i += 1;
                assert(out@ + (if i < items.len() {
                    seq![',', ' ']
                } else {
                    Seq::empty()
                }) + flow_items(items.skip(i as int)) =~= before + (if i > 1 {
                    seq![',', ' ']
                } else {
                    Seq::empty()
                }) + flow_items(rest));
            }
            assert(flow_items(items.skip(i as int)) == Seq::<char>::empty());
            out.push(']');
            assert(out@ =~= flow_text(value@));
            out
        },
        Value::Mapping(map) => {
            let ghost entries = entries_of(map@);
            let mut out = String::new();
            out.push('{');
            let mut i: usize = 0;
            assert(entries.skip(0) == entries);
            while i < map.len()
                invariant
                    i <= map@.len(),
                    entries == entries_of(map@),
                    value == Value::Mapping(*map),
                    out@ + (if i > 0 && i < entries.len() {
                        seq![',', ' ']
                    } else {
                        Seq::empty()
                    }) + flow_entries(entries.skip(i as int)) == seq!['{'] + flow_entries(entries),
                decreases map@.len() - i,
            {
                let ghost before = out@;
                let ghost rest = entries.skip(i as int);
                assert(rest.drop_first() == entries.skip(i + 1));
                assert(decreases_to!(value => value->Mapping_0));
                assert(decreases_to!(map => map[i as int]));
                assert(decreases_to!(map[i as int] => map[i as int].0));
                assert(decreases_to!(map[i as int] => map[i as int].1));
                if i > 0 {
                    out.append(", ");
                    proof {
                        reveal_strlit(", ");
                        assert(", "@ =~= seq![',', ' ']);
                    }
                }
                let key = flow(&map[i].0);
                out.append(key.as_str());
                out.append(": ");
                proof {
                    reveal_strlit(": ");
                    assert(": "@ =~= seq![':', ' ']);
                }
                let text = flow(&map[i].1);
                out.append(text.as_str());
                i += 1;
                assert(out@ + (if i < entries.len() {
                    seq![',', ' ']
                } else {
                    Seq::empty()
                }) + flow_entries(entries.skip(i as int)) =~= before + (if i > 1 {
                    seq![',', ' ']
                } else {
                    Seq::empty()
                }) + flow_entries(rest));
            }
            assert(flow_entries(entries.skip(i as int)) == Seq::<char>::empty());
            out.push('}');
            assert(out@ =~= flow_text(value@));
            out
        },
        Value::Tagged(tagged) => {
            let mut out = tagged.tag.text();
            out.push(' ');
            let text = flow(&tagged.value);
            out.append(text.as_str());
            assert(out@ =~= flow_text(value@));
            out
        },
    }
}

} // verus!
