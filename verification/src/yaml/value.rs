//! The values that a document is made of, and what they denote.

use vstd::prelude::*;

verus! {

/// A YAML value.
#[derive(Debug)]
pub enum Value {
    Null,
    Bool(bool),
    Number(Number),
    String(String),
    Sequence(Vec<Value>),
    /// The entries in order, key first. A mapping reads back only if no key occurs twice.
    Mapping(Vec<(Value, Value)>),
    Tagged(Box<TaggedValue>),
}

/// A number, of which only its spelling matters here.
#[derive(Debug)]
pub enum Number {
    Unsigned(u64),
    Signed(i64),
    /// A float, as it is spelled: in decimal, or as one of the words for infinity and not a number.
    /// It reads back only if that is what it holds.
    Float(String),
}

/// A value under a tag.
#[derive(Debug)]
pub struct TaggedValue {
    pub tag: Tag,
    pub value: Value,
}

/// The name of a tag, which is never empty. A leading `!` is not significant.
#[derive(Debug)]
pub struct Tag {
    string: String,
}

/// What a value denotes.
pub enum Node {
    Null,
    Bool(bool),
    /// A number, as it is spelled.
    Number(Seq<char>),
    Str(Seq<char>),
    Sequence(Seq<Node>),
    Mapping(Seq<(Node, Node)>),
    /// A tag, with its `!`, and what stands under it.
    Tagged(Seq<char>, Box<Node>),
}

// ---------------------------------------------------------------------------------------------
// Numbers
// ---------------------------------------------------------------------------------------------

/// The decimal digits of a natural number.
pub open spec fn natural_text(n: nat) -> Seq<char>
    decreases n,
{
    if n < 10 {
        seq![(n + 48) as char]
    } else {
        natural_text(n / 10).push((n % 10 + 48) as char)
    }
}

/// An integer in decimal, with a minus sign if it is negative.
pub open spec fn integer_text(n: int) -> Seq<char> {
    if n < 0 {
        seq!['-'] + natural_text((-n) as nat)
    } else {
        natural_text(n as nat)
    }
}

/// A `serde_yaml_ng::Number` made from a `u64` is displayed as that integer in decimal.
#[verifier::external_body]
fn unsigned_text(n: u64) -> (res: String)
    ensures
        res@ == integer_text(n as int),
{
    serde_yaml_ng::Number::from(n).to_string()
}

/// A `serde_yaml_ng::Number` made from an `i64` is displayed as that integer in decimal, with a
/// minus sign if it is negative.
#[verifier::external_body]
fn signed_text(n: i64) -> (res: String)
    ensures
        res@ == integer_text(n as int),
{
    serde_yaml_ng::Number::from(n).to_string()
}

impl View for Number {
    type V = Seq<char>;

    open spec fn view(&self) -> Seq<char> {
        match self {
            Number::Unsigned(n) => integer_text(*n as int),
            Number::Signed(n) => integer_text(*n as int),
            Number::Float(text) => text@,
        }
    }
}

impl Number {
    /// The number as it is spelled.
    pub fn text(&self) -> (res: String)
        ensures
            res@ == self@,
    {
        match self {
            Number::Unsigned(n) => unsigned_text(*n),
            Number::Signed(n) => signed_text(*n),
            Number::Float(text) => text.clone(),
        }
    }
}

// ---------------------------------------------------------------------------------------------
// Tags
// ---------------------------------------------------------------------------------------------

/// A tag as it is spelled: its name behind a `!`, unless the name has one of its own in front of
/// something.
pub open spec fn tag_text(name: Seq<char>) -> Seq<char> {
    if name.len() > 1 && name[0] == '!' {
        name
    } else {
        seq!['!'] + name
    }
}

/// A `serde_yaml_ng::value::Tag` is displayed as its name behind a `!`, where one that the name
/// begins with is not repeated unless the name is nothing else. An empty name makes the constructor
/// panic.
#[verifier::external_body]
fn displayed_tag(name: &str) -> (res: String)
    requires
        name@.len() > 0,
    ensures
        res@ == tag_text(name@),
{
    serde_yaml_ng::value::Tag::new(name).to_string()
}

impl View for Tag {
    type V = Seq<char>;

    closed spec fn view(&self) -> Seq<char> {
        tag_text(self.string@)
    }
}

impl Tag {
    #[verifier::type_invariant]
    spec fn named(self) -> bool {
        self.string@.len() > 0
    }

    /// A tag with the given name.
    pub fn new(string: String) -> (res: Tag)
        requires
            string@.len() > 0,
        ensures
            res@ == tag_text(string@),
    {
        Tag { string }
    }

    /// The tag as it is spelled.
    pub fn text(&self) -> (res: String)
        ensures
            res@ == self@,
    {
        proof {
            use_type_invariant(self);
        }
        displayed_tag(self.string.as_str())
    }
}

// ---------------------------------------------------------------------------------------------
// Values
// ---------------------------------------------------------------------------------------------

/// What a value denotes.
pub open spec fn node_of(v: Value) -> Node
    decreases v,
{
    match v {
        Value::Null => Node::Null,
        Value::Bool(b) => Node::Bool(b),
        Value::Number(n) => Node::Number(n@),
        Value::String(s) => Node::Str(s@),
        Value::Sequence(items) => Node::Sequence(nodes_of(items@)),
        Value::Mapping(entries) => Node::Mapping(entries_of(entries@)),
        Value::Tagged(tagged) => Node::Tagged(tagged.tag@, Box::new(node_of(tagged.value))),
    }
}

/// What the values of a sequence denote.
pub open spec fn nodes_of(items: Seq<Value>) -> Seq<Node>
    decreases items,
{
    Seq::new(
        items.len(),
        |i: int|
            if 0 <= i < items.len() {
                node_of(items[i])
            } else {
                Node::Null
            },
    )
}

/// What the entries of a mapping denote.
pub open spec fn entries_of(entries: Seq<(Value, Value)>) -> Seq<(Node, Node)>
    decreases entries,
{
    Seq::new(
        entries.len(),
        |i: int|
            if 0 <= i < entries.len() {
                (node_of(entries[i].0), node_of(entries[i].1))
            } else {
                (Node::Null, Node::Null)
            },
    )
}

impl View for Value {
    type V = Node;

    open spec fn view(&self) -> Node {
        node_of(*self)
    }
}

pub proof fn lemma_nodes_of(items: Seq<Value>)
    ensures
        nodes_of(items).len() == items.len(),
        forall|i: int| 0 <= i < items.len() ==> #[trigger] nodes_of(items)[i] == node_of(items[i]),
{
}

pub proof fn lemma_entries_of(entries: Seq<(Value, Value)>)
    ensures
        entries_of(entries).len() == entries.len(),
        forall|i: int|
            0 <= i < entries.len() ==> #[trigger] entries_of(entries)[i] == (
                node_of(entries[i].0),
                node_of(entries[i].1),
            ),
{
}

} // verus!
