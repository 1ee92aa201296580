//! A report as a YAML document: which fields it has, in which order, and which are left out.

pub mod laws;

use vstd::prelude::*;
use crate::model::{
    is_false, opt_text, repository_views, Filters, FiltersView, Report, ReportView, Repository,
    RepositoryView, Source, SourceView, Totals,
};
use crate::sort::texts;
use crate::text::{control, digit};
use crate::yaml::core_schema::{core_number, exponent_at, splits_at};
use crate::yaml::layout::{
    block_lines, document_text, flow_text, indented, is_block, mapping_lines,
};
use crate::yaml::reader::{distinct_keys, document_end, read_document, LONGEST_KEY};
use crate::yaml::round_trip::{
    a_document_is_made_of_lines, document_reads_back, readable, readable_block, readable_flow,
    readable_text, readable_values_are_spelled_plainly,
};
use crate::yaml::scalar::{all_digits, lemma_scalar_len, scalar_text, unsigned};
use crate::yaml::to_string;
use crate::yaml::value::{
    entries_of, integer_text, natural_text, node_of, nodes_of, Node, Number, Value,
};

verus! {

// ---------------------------------------------------------------------------------------------
// What the document says
// ---------------------------------------------------------------------------------------------

/// An entry of a mapping.
pub open spec fn entry(key: Seq<char>, value: Node) -> Seq<(Node, Node)> {
    seq![(Node::Str(key), value)]
}

/// An entry for a text, if there is one.
pub open spec fn text_entry(key: Seq<char>, value: Option<Seq<char>>) -> Seq<(Node, Node)> {
    match value {
        Some(s) => entry(key, Node::Str(s)),
        None => Seq::empty(),
    }
}

/// An entry for a number, if there is one.
pub open spec fn number_entry(key: Seq<char>, value: Option<u64>) -> Seq<(Node, Node)> {
    match value {
        Some(n) => entry(key, number_node(n as int)),
        None => Seq::empty(),
    }
}

/// An entry for a flag, if it is set.
pub open spec fn flag_entry(key: Seq<char>, value: bool) -> Seq<(Node, Node)> {
    if value {
        entry(key, Node::Bool(true))
    } else {
        Seq::empty()
    }
}

/// An entry for a list of texts, if it is not empty.
pub open spec fn list_entry(key: Seq<char>, value: Seq<Seq<char>>) -> Seq<(Node, Node)> {
    if value.len() > 0 {
        entry(key, list_node(value))
    } else {
        Seq::empty()
    }
}

pub open spec fn number_node(n: int) -> Node {
    Node::Number(integer_text(n))
}

pub open spec fn list_node(items: Seq<Seq<char>>) -> Node {
    Node::Sequence(items.map_values(|s: Seq<char>| Node::Str(s)))
}

pub open spec fn filters_node(filters: FiltersView) -> Node {
    Node::Mapping(
        entry("visibility"@, Node::Str(filters.visibility)) + entry(
            "archived"@,
            Node::Str(filters.archived),
        ) + entry("forks"@, Node::Str(filters.forks)),
    )
}

pub open spec fn source_node(source: SourceView) -> Node {
    Node::Mapping(
        entry("api_url"@, Node::Str(source.api_url)) + entry(
            "enterprise"@,
            Node::Str(source.enterprise),
        ) + entry("filters"@, filters_node(source.filters)),
    )
}

pub open spec fn totals_node(totals: (nat, nat)) -> Node {
    Node::Mapping(
        entry("organizations"@, number_node(totals.0 as int)) + entry(
            "repositories"@,
            number_node(totals.1 as int),
        ),
    )
}

/// A repository: a field that it does not have is absent rather than null, and the flags `template`
/// and `empty` appear only when they are set.
pub open spec fn repository_node(r: RepositoryView) -> Node {
    Node::Mapping(
        entry("org"@, Node::Str(r.org)) + entry("name"@, Node::Str(r.name)) + text_entry(
            "full_name"@,
            r.full_name,
        ) + text_entry("url"@, r.url) + text_entry("description"@, r.description) + text_entry(
            "visibility"@,
            r.visibility,
        ) + entry("archived"@, Node::Bool(r.archived)) + entry("fork"@, Node::Bool(r.fork))
            + flag_entry("template"@, r.template) + flag_entry("empty"@, r.empty) + text_entry(
            "default_branch"@,
            r.default_branch,
        ) + text_entry("language"@, r.language) + text_entry("license"@, r.license) + number_entry(
            "stars"@,
            r.stars,
        ) + number_entry("forks"@, r.forks) + list_entry("topics"@, r.topics) + text_entry(
            "created_at"@,
            r.created_at,
        ) + text_entry("updated_at"@, r.updated_at) + text_entry("pushed_at"@, r.pushed_at),
    )
}

/// A report. The list of unreadable organizations appears only when there are any.
pub open spec fn report_node(r: ReportView) -> Node {
    Node::Mapping(
        entry("source"@, source_node(r.source)) + entry("organizations"@, list_node(r.organizations))
            + list_entry(
            "organizations_without_repository_data"@,
            r.organizations_without_repository_data,
        ) + entry("totals"@, totals_node(r.totals)) + entry(
            "repositories"@,
            Node::Sequence(r.repositories.map_values(|r: RepositoryView| repository_node(r))),
        ),
    )
}

// ---------------------------------------------------------------------------------------------
// Building it
// ---------------------------------------------------------------------------------------------

type Entries = Vec<(Value, Value)>;

fn push(entries: &mut Entries, key: &str, value: Value)
    ensures
        entries_of(final(entries)@) == entries_of(old(entries)@) + entry(key@, value@),
{
    let ghost before = entries@;
    let name = Value::String(key.to_owned());
    entries.push((name, value));
    proof {
        assert(node_of(name) == Node::Str(key@));
        assert(entries_of(entries@) =~= entries_of(before) + entry(key@, value@));
    }
}

fn push_text(entries: &mut Entries, key: &str, value: &Option<String>)
    ensures
        entries_of(final(entries)@) == entries_of(old(entries)@) + text_entry(
            key@,
            opt_text(*value),
        ),
{
    let ghost before = entries_of(entries@);
    match value {
        Some(s) => push(entries, key, Value::String(s.clone())),
        None => {
            assert(before + Seq::<(Node, Node)>::empty() =~= before);
        },
    }
}

fn push_number(entries: &mut Entries, key: &str, value: Option<u64>)
    ensures
        entries_of(final(entries)@) == entries_of(old(entries)@) + number_entry(key@, value),
{
    let ghost before = entries_of(entries@);
    match value {
        Some(n) => push(entries, key, Value::Number(Number::Unsigned(n))),
        None => {
            assert(before + Seq::<(Node, Node)>::empty() =~= before);
        },
    }
}

fn push_flag(entries: &mut Entries, key: &str, value: bool)
    ensures
        entries_of(final(entries)@) == entries_of(old(entries)@) + flag_entry(key@, value),
{
    let ghost before = entries_of(entries@);
    if is_false(&value) {
        assert(before + Seq::<(Node, Node)>::empty() =~= before);
    } else {
        push(entries, key, Value::Bool(value));
    }
}

fn push_list(entries: &mut Entries, key: &str, value: &Vec<String>)
    ensures
        entries_of(final(entries)@) == entries_of(old(entries)@) + list_entry(key@, texts(value@)),
{
    let ghost before = entries_of(entries@);
    if value.len() == 0 {
        assert(before + Seq::<(Node, Node)>::empty() =~= before);
    } else {
        push(entries, key, list_value(value));
    }
}

fn list_value(items: &Vec<String>) -> (res: Value)
    ensures
        res@ == list_node(texts(items@)),
{
    let mut values: Vec<Value> = Vec::new();
    let mut i: usize = 0;
    while i < items.len()
        invariant
            i <= items@.len(),
            values@.len() == i,
            forall|j: int| 0 <= j < i ==> node_of(#[trigger] values@[j]) == Node::Str(items@[j]@),
        decreases items@.len() - i,
    {
        let v = Value::String(items[i].clone());
        assert(node_of(v) == Node::Str(items@[i as int]@));
        values.push(v);
        i += 1;
    }
    proof {
        let want = texts(items@).map_values(|s: Seq<char>| Node::Str(s));
        assert(nodes_of(values@) =~= want);
    }
    Value::Sequence(values)
}

fn filters_value(filters: &Filters) -> (res: Value)
    ensures
        res@ == filters_node(filters@),
{
    let mut entries: Entries = Vec::new();
    assert(entries_of(entries@) =~= Seq::<(Node, Node)>::empty());
    push(&mut entries, "visibility", Value::String(filters.visibility.clone()));
    push(&mut entries, "archived", Value::String(filters.archived.clone()));
    push(&mut entries, "forks", Value::String(filters.forks.clone()));
    assert(entries_of(entries@) =~= filters_node(filters@)->Mapping_0);
    Value::Mapping(entries)
}

fn source_value(source: &Source) -> (res: Value)
    ensures
        res@ == source_node(source@),
{
    let mut entries: Entries = Vec::new();
    assert(entries_of(entries@) =~= Seq::<(Node, Node)>::empty());
    push(&mut entries, "api_url", Value::String(source.api_url.clone()));
    push(&mut entries, "enterprise", Value::String(source.enterprise.clone()));
    push(&mut entries, "filters", filters_value(&source.filters));
    assert(entries_of(entries@) =~= source_node(source@)->Mapping_0);
    Value::Mapping(entries)
}

fn totals_value(totals: &Totals) -> (res: Value)
    ensures
        res@ == totals_node(totals@),
{
    let mut entries: Entries = Vec::new();
    assert(entries_of(entries@) =~= Seq::<(Node, Node)>::empty());
    push(
        &mut entries,
        "organizations",
        Value::Number(Number::Unsigned(totals.organizations as u64)),
    );
    push(
        &mut entries,
        "repositories",
        Value::Number(Number::Unsigned(totals.repositories as u64)),
    );
    assert(entries_of(entries@) =~= totals_node(totals@)->Mapping_0);
    Value::Mapping(entries)
}

impl Repository {
    /// The repository as a YAML value.
    pub fn to_value(&self) -> (res: Value)
        ensures
            res@ == repository_node(self@),
    {
        let mut entries: Entries = Vec::new();
        assert(entries_of(entries@) =~= Seq::<(Node, Node)>::empty());
        push(&mut entries, "org", Value::String(self.org.clone()));
        assert(entries_of(entries@) =~= entry("org"@, Node::Str(self.org@)));
        push(&mut entries, "name", Value::String(self.name.clone()));
        push_text(&mut entries, "full_name", &self.full_name);
        push_text(&mut entries, "url", &self.url);
        push_text(&mut entries, "description", &self.description);
        push_text(&mut entries, "visibility", &self.visibility);
        push(&mut entries, "archived", Value::Bool(self.archived));
        push(&mut entries, "fork", Value::Bool(self.fork));
        push_flag(&mut entries, "template", self.template);
        push_flag(&mut entries, "empty", self.empty);
        push_text(&mut entries, "default_branch", &self.default_branch);
        push_text(&mut entries, "language", &self.language);
        push_text(&mut entries, "license", &self.license);
        push_number(&mut entries, "stars", self.stars);
        push_number(&mut entries, "forks", self.forks);
        push_list(&mut entries, "topics", &self.topics);
        push_text(&mut entries, "created_at", &self.created_at);
        push_text(&mut entries, "updated_at", &self.updated_at);
        push_text(&mut entries, "pushed_at", &self.pushed_at);
        Value::Mapping(entries)
    }
}

impl Report {
    /// The report as a YAML value.
    pub fn to_value(&self) -> (res: Value)
        ensures
            res@ == report_node(self@),
    {
        let mut listed: Vec<Value> = Vec::new();
        let mut i: usize = 0;
        while i < self.repositories.len()
            invariant
                i <= self.repositories@.len(),
                listed@.len() == i,
                forall|j: int|
                    0 <= j < i ==> node_of(#[trigger] listed@[j]) == repository_node(
                        self.repositories@[j]@,
                    ),
            decreases self.repositories@.len() - i,
        {
            let v = self.repositories[i].to_value();
            assert(node_of(v) == repository_node(self.repositories@[i as int]@));
            listed.push(v);
            i += 1;
        }
        proof {
            let want = repository_views(self.repositories@).map_values(
                |r: RepositoryView| repository_node(r),
            );
            assert(nodes_of(listed@) =~= want);
        }
        let mut entries: Entries = Vec::new();
        assert(entries_of(entries@) =~= Seq::<(Node, Node)>::empty());
        push(&mut entries, "source", source_value(&self.source));
        assert(entries_of(entries@) =~= entry("source"@, source_node(self.source@)));
        push(&mut entries, "organizations", list_value(&self.organizations));
        push_list(
            &mut entries,
            "organizations_without_repository_data",
            &self.organizations_without_repository_data,
        );
        push(&mut entries, "totals", totals_value(&self.totals));
        push(&mut entries, "repositories", Value::Sequence(listed));
        Value::Mapping(entries)
    }

    /// The report as a YAML document.
    pub fn to_yaml(&self) -> (res: String)
        ensures
            res@ == document_text(report_node(self@)),
    {
        to_string(&self.to_value())
    }
}

// ---------------------------------------------------------------------------------------------
// The document reads back
// ---------------------------------------------------------------------------------------------

pub open spec fn readable_option(s: Option<Seq<char>>) -> bool {
    s matches Some(s) ==> readable_text(s)
}

pub open spec fn readable_list(items: Seq<Seq<char>>) -> bool {
    forall|i: int| 0 <= i < items.len() ==> readable_text(#[trigger] items[i])
}

/// A repository all of whose texts can stand in a YAML document.
pub open spec fn readable_repository(r: RepositoryView) -> bool {
    &&& readable_text(r.org) && readable_text(r.name)
    &&& readable_option(r.full_name) && readable_option(r.url) && readable_option(r.description)
    &&& readable_option(r.visibility) && readable_option(r.default_branch)
    &&& readable_option(r.language) && readable_option(r.license)
    &&& readable_list(r.topics)
    &&& readable_option(r.created_at) && readable_option(r.updated_at)
    &&& readable_option(r.pushed_at)
}

/// A report all of whose texts can stand in a YAML document.
pub open spec fn readable_report(r: ReportView) -> bool {
    &&& readable_text(r.source.api_url) && readable_text(r.source.enterprise)
    &&& readable_text(r.source.filters.visibility)
    &&& readable_text(r.source.filters.archived)
    &&& readable_text(r.source.filters.forks)
    &&& readable_list(r.organizations)
    &&& readable_list(r.organizations_without_repository_data)
    &&& forall|i: int|
        0 <= i < r.repositories.len() ==> readable_repository(#[trigger] r.repositories[i])
}

/// A short word in lower case.
spec fn is_word(k: Seq<char>) -> bool {
    &&& 0 < k.len() <= 40
    &&& forall|i: int| 0 <= i < k.len() ==> 'a' <= #[trigger] k[i] <= 'z' || k[i] == '_'
    &&& k[0] != '_'
}

/// What the keys of a mapping are told apart by here: their length and their first letter.
spec fn mark_of(k: Seq<char>) -> (int, char) {
    (k.len() as int, k[0])
}

/// A key that is a word with one of these marks.
spec fn good_key(key: Node, marks: Set<(int, char)>) -> bool {
    key matches Node::Str(k) && is_word(k) && marks.contains(mark_of(k))
}

/// Entries whose keys are words with these marks, no two alike, and whose values read back.
#[verifier::opaque]
spec fn good_entries(entries: Seq<(Node, Node)>, marks: Set<(int, char)>) -> bool {
    &&& distinct_keys(entries)
    &&& forall|i: int|
        0 <= i < entries.len() ==> good_key((#[trigger] entries[i]).0, marks) && readable_block(
            entries[i].1,
        )
}

/// An entry for a key, or none, whose value reads back.
#[verifier::opaque]
spec fn good_part(key: Seq<char>, part: Seq<(Node, Node)>) -> bool {
    &&& part.len() <= 1
    &&& forall|i: int|
        0 <= i < part.len() ==> (#[trigger] part[i]).0 == Node::Str(key) && readable_block(
            part[i].1,
        )
}

proof fn lemma_good_start(key: Seq<char>, part: Seq<(Node, Node)>) -> (marks: Set<(int, char)>)
    requires
        is_word(key),
        good_part(key, part),
    ensures
        marks == set![mark_of(key)],
        good_entries(part, marks),
{
    reveal(good_entries);
    reveal(good_part);
    set![mark_of(key)]
}

proof fn lemma_good_add(
    entries: Seq<(Node, Node)>,
    marks: Set<(int, char)>,
    key: Seq<char>,
    part: Seq<(Node, Node)>,
) -> (more: Set<(int, char)>)
    requires
        good_entries(entries, marks),
        is_word(key),
        !marks.contains(mark_of(key)),
        good_part(key, part),
    ensures
        more == marks.insert(mark_of(key)),
        good_entries(entries + part, more),
{
    reveal(good_entries);
    reveal(good_part);
    let all = entries + part;
    let more = marks.insert(mark_of(key));
    assert forall|i: int| 0 <= i < all.len() implies good_key((#[trigger] all[i]).0, more)
        && readable_block(all[i].1) by {
        if i < entries.len() {
            assert(all[i] == entries[i]);
        } else {
            assert(all[i] == part[i - entries.len()]);
        }
    }
    assert forall|i: int, j: int| 0 <= i < j < all.len() implies (#[trigger] all[i]).0
        != (#[trigger] all[j]).0 by {
        assert(all[i] == entries[i]);
        assert(good_key(entries[i].0, marks));
        if j < entries.len() {
            assert(all[j] == entries[j]);
        } else {
            assert(all[j] == part[j - entries.len()]);
        }
    }
    more
}

proof fn lemma_good_mapping(entries: Seq<(Node, Node)>, marks: Set<(int, char)>)
    requires
        good_entries(entries, marks),
        entries.len() > 0,
    ensures
        readable_block(Node::Mapping(entries)),
{
    reveal(good_entries);
    assert forall|i: int| 0 <= i < entries.len() implies readable_flow(
        (#[trigger] entries[i]).0,
        false,
    ) && readable_block(entries[i].1) && flow_text(entries[i].0).len() <= LONGEST_KEY by {
        assert(good_key(entries[i].0, marks));
        let k = entries[i].0->Str_0;
        lemma_scalar_len(k);
        assert forall|j: int| 0 <= j < k.len() implies (#[trigger] k[j]) as u32 != 0xFFFE
            && k[j] as u32 != 0xFFFF by {
            assert('a' <= k[j] <= 'z' || k[j] == '_');
        }
    }
}

/// Each line of a mapping with such keys begins with a space, a quote or a letter.
proof fn lemma_mapping_line_heads(entries: Seq<(Node, Node)>, marks: Set<(int, char)>)
    requires
        good_entries(entries, marks),
    ensures
        forall|i: int|
            0 <= i < mapping_lines(entries).len() ==> (#[trigger] mapping_lines(entries)[i]).len()
                > 0 && mapping_lines(entries)[i][0] != '.' && mapping_lines(entries)[i][0]
                != '\u{feff}',
    decreases entries.len(),
{
    reveal(good_entries);
    if entries.len() > 0 {
        let others = entries.drop_first();
        assert forall|i: int| 0 <= i < others.len() implies good_key(
            (#[trigger] others[i]).0,
            marks,
        ) && readable_block(others[i].1) by {
            assert(others[i] == entries[i + 1]);
        }
        assert forall|i: int, j: int| 0 <= i < j < others.len() implies (#[trigger] others[i]).0
            != (#[trigger] others[j]).0 by {
            assert(others[i] == entries[i + 1] && others[j] == entries[j + 1]);
        }
        lemma_mapping_line_heads(others, marks);
        let (key, value) = (entries[0].0, entries[0].1);
        assert(good_key(entries[0].0, marks));
        let k = key->Str_0;
        assert('a' <= k[0] <= 'z');
        assert(flow_text(key) == scalar_text(k));
        assert(scalar_text(k).len() > 0 && (scalar_text(k)[0] == k[0] || scalar_text(k)[0] == '"'
            || scalar_text(k)[0] == '\''));
        let first = if is_block(value) {
            seq![flow_text(key) + seq![':']] + indented(block_lines(value))
        } else {
            seq![flow_text(key) + seq![':', ' '] + flow_text(value)]
        };
        let lines = mapping_lines(entries);
        assert(lines == first + mapping_lines(others));
        assert forall|i: int| 0 <= i < lines.len() implies (#[trigger] lines[i]).len() > 0
            && lines[i][0] != '.' && lines[i][0] != '\u{feff}' by {
            if i == 0 {
                assert(lines[0] == first[0]);
                assert(lines[0][0] == flow_text(key)[0]);
            } else if i < first.len() {
                assert(lines[i] == first[i]);
                assert(first[i] == indented(block_lines(value))[i - 1]);
            } else {
                assert(lines[i] == mapping_lines(others)[i - first.len()]);
            }
        }
    }
}

proof fn lemma_natural_digits(n: nat)
    ensures
        natural_text(n).len() > 0,
        all_digits(natural_text(n)),
    decreases n,
{
    if n >= 10 {
        lemma_natural_digits(n / 10);
    }
}

/// A natural number in decimal is spelled as a number.
proof fn lemma_natural_is_number(n: nat)
    ensures
        core_number(natural_text(n)),
{
    let s = natural_text(n);
    lemma_natural_digits(n);
    assert(digit(s[0]));
    assert(s.take(s.len() as int) =~= s);
    assert(splits_at(s, s.len() as int));
    assert(exponent_at(unsigned(s), s.len() as int));
}

proof fn lemma_good_entry(key: Seq<char>, value: Node)
    requires
        readable_block(value),
    ensures
        good_part(key, entry(key, value)),
{
    reveal(good_part);
}

proof fn lemma_good_flag(key: Seq<char>, value: bool)
    ensures
        good_part(key, flag_entry(key, value)),
{
    reveal(good_part);
}

proof fn lemma_good_list(key: Seq<char>, items: Seq<Seq<char>>)
    requires
        readable_list(items),
    ensures
        good_part(key, list_entry(key, items)),
{
    reveal(good_part);
    lemma_list_reads_back(items);
}

proof fn lemma_good_text(key: Seq<char>, value: Option<Seq<char>>)
    requires
        readable_option(value),
    ensures
        good_part(key, text_entry(key, value)),
{
    reveal(good_part);
}

proof fn lemma_good_number(key: Seq<char>, value: Option<u64>)
    ensures
        good_part(key, number_entry(key, value)),
{
    reveal(good_part);
    if let Some(n) = value {
        lemma_natural_is_number(n as nat);
    }
}

proof fn lemma_list_reads_back(items: Seq<Seq<char>>)
    requires
        readable_list(items),
    ensures
        readable_block(list_node(items)),
{
    let nodes = items.map_values(|s: Seq<char>| Node::Str(s));
    assert forall|i: int| 0 <= i < nodes.len() implies readable_block(#[trigger] nodes[i]) by {
        assert(readable_text(items[i]));
    }
}

/// The keys of a report and of what it holds.
proof fn lemma_keys()
    ensures
        is_word("source"@) && mark_of("source"@) == (6int, 's'),
        is_word("organizations"@) && mark_of("organizations"@) == (13int, 'o'),
        is_word("organizations_without_repository_data"@) && mark_of("organizations_without_repository_data"@) == (37int, 'o'),
        is_word("totals"@) && mark_of("totals"@) == (6int, 't'),
        is_word("repositories"@) && mark_of("repositories"@) == (12int, 'r'),
        is_word("api_url"@) && mark_of("api_url"@) == (7int, 'a'),
        is_word("enterprise"@) && mark_of("enterprise"@) == (10int, 'e'),
        is_word("filters"@) && mark_of("filters"@) == (7int, 'f'),
        is_word("visibility"@) && mark_of("visibility"@) == (10int, 'v'),
        is_word("archived"@) && mark_of("archived"@) == (8int, 'a'),
        is_word("forks"@) && mark_of("forks"@) == (5int, 'f'),
        is_word("org"@) && mark_of("org"@) == (3int, 'o'),
        is_word("name"@) && mark_of("name"@) == (4int, 'n'),
        is_word("full_name"@) && mark_of("full_name"@) == (9int, 'f'),
        is_word("url"@) && mark_of("url"@) == (3int, 'u'),
        is_word("description"@) && mark_of("description"@) == (11int, 'd'),
        is_word("fork"@) && mark_of("fork"@) == (4int, 'f'),
        is_word("template"@) && mark_of("template"@) == (8int, 't'),
        is_word("empty"@) && mark_of("empty"@) == (5int, 'e'),
        is_word("default_branch"@) && mark_of("default_branch"@) == (14int, 'd'),
        is_word("language"@) && mark_of("language"@) == (8int, 'l'),
        is_word("license"@) && mark_of("license"@) == (7int, 'l'),
        is_word("stars"@) && mark_of("stars"@) == (5int, 's'),
        is_word("topics"@) && mark_of("topics"@) == (6int, 't'),
        is_word("created_at"@) && mark_of("created_at"@) == (10int, 'c'),
        is_word("updated_at"@) && mark_of("updated_at"@) == (10int, 'u'),
        is_word("pushed_at"@) && mark_of("pushed_at"@) == (9int, 'p'),
{
    reveal_strlit("source");
    reveal_strlit("organizations");
    reveal_strlit("organizations_without_repository_data");
    reveal_strlit("totals");
    reveal_strlit("repositories");
    reveal_strlit("api_url");
    reveal_strlit("enterprise");
    reveal_strlit("filters");
    reveal_strlit("visibility");
    reveal_strlit("archived");
    reveal_strlit("forks");
    reveal_strlit("org");
    reveal_strlit("name");
    reveal_strlit("full_name");
    reveal_strlit("url");
    reveal_strlit("description");
    reveal_strlit("fork");
    reveal_strlit("template");
    reveal_strlit("empty");
    reveal_strlit("default_branch");
    reveal_strlit("language");
    reveal_strlit("license");
    reveal_strlit("stars");
    reveal_strlit("topics");
    reveal_strlit("created_at");
    reveal_strlit("updated_at");
    reveal_strlit("pushed_at");
}

proof fn lemma_repository_reads_back(r: RepositoryView)
    requires
        readable_repository(r),
    ensures
        readable_block(repository_node(r)),
{
    lemma_keys();
    lemma_good_entry("org"@, Node::Str(r.org));
    let e1 = entry("org"@, Node::Str(r.org));
    let m1 = lemma_good_start("org"@, e1);
    lemma_good_entry("name"@, Node::Str(r.name));
    let e2 = e1 + entry("name"@, Node::Str(r.name));
    let m2 = lemma_good_add(e1, m1, "name"@, entry("name"@, Node::Str(r.name)));
    lemma_good_text("full_name"@, r.full_name);
    let e3 = e2 + text_entry("full_name"@, r.full_name);
    let m3 = lemma_good_add(e2, m2, "full_name"@, text_entry("full_name"@, r.full_name));
    lemma_good_text("url"@, r.url);
    let e4 = e3 + text_entry("url"@, r.url);
    let m4 = lemma_good_add(e3, m3, "url"@, text_entry("url"@, r.url));
    lemma_good_text("description"@, r.description);
    let e5 = e4 + text_entry("description"@, r.description);
    let m5 = lemma_good_add(e4, m4, "description"@, text_entry("description"@, r.description));
    lemma_good_text("visibility"@, r.visibility);
    let e6 = e5 + text_entry("visibility"@, r.visibility);
    let m6 = lemma_good_add(e5, m5, "visibility"@, text_entry("visibility"@, r.visibility));
    lemma_good_entry("archived"@, Node::Bool(r.archived));
    let e7 = e6 + entry("archived"@, Node::Bool(r.archived));
    let m7 = lemma_good_add(e6, m6, "archived"@, entry("archived"@, Node::Bool(r.archived)));
    lemma_good_entry("fork"@, Node::Bool(r.fork));
    let e8 = e7 + entry("fork"@, Node::Bool(r.fork));
    let m8 = lemma_good_add(e7, m7, "fork"@, entry("fork"@, Node::Bool(r.fork)));
    lemma_good_flag("template"@, r.template);
    let e9 = e8 + flag_entry("template"@, r.template);
    let m9 = lemma_good_add(e8, m8, "template"@, flag_entry("template"@, r.template));
    lemma_good_flag("empty"@, r.empty);
    let e10 = e9 + flag_entry("empty"@, r.empty);
    let m10 = lemma_good_add(e9, m9, "empty"@, flag_entry("empty"@, r.empty));
    lemma_good_text("default_branch"@, r.default_branch);
    let e11 = e10 + text_entry("default_branch"@, r.default_branch);
    let m11 = lemma_good_add(e10, m10, "default_branch"@, text_entry("default_branch"@, r.default_branch));
    lemma_good_text("language"@, r.language);
    let e12 = e11 + text_entry("language"@, r.language);
    let m12 = lemma_good_add(e11, m11, "language"@, text_entry("language"@, r.language));
    lemma_good_text("license"@, r.license);
    let e13 = e12 + text_entry("license"@, r.license);
    let m13 = lemma_good_add(e12, m12, "license"@, text_entry("license"@, r.license));
    lemma_good_number("stars"@, r.stars);
    let e14 = e13 + number_entry("stars"@, r.stars);
    let m14 = lemma_good_add(e13, m13, "stars"@, number_entry("stars"@, r.stars));
    lemma_good_number("forks"@, r.forks);
    let e15 = e14 + number_entry("forks"@, r.forks);
    let m15 = lemma_good_add(e14, m14, "forks"@, number_entry("forks"@, r.forks));
    lemma_good_list("topics"@, r.topics);
    let e16 = e15 + list_entry("topics"@, r.topics);
    let m16 = lemma_good_add(e15, m15, "topics"@, list_entry("topics"@, r.topics));
    lemma_good_text("created_at"@, r.created_at);
    let e17 = e16 + text_entry("created_at"@, r.created_at);
    let m17 = lemma_good_add(e16, m16, "created_at"@, text_entry("created_at"@, r.created_at));
    lemma_good_text("updated_at"@, r.updated_at);
    let e18 = e17 + text_entry("updated_at"@, r.updated_at);
    let m18 = lemma_good_add(e17, m17, "updated_at"@, text_entry("updated_at"@, r.updated_at));
    lemma_good_text("pushed_at"@, r.pushed_at);
    let e19 = e18 + text_entry("pushed_at"@, r.pushed_at);
    let m19 = lemma_good_add(e18, m18, "pushed_at"@, text_entry("pushed_at"@, r.pushed_at));
    lemma_good_mapping(e19, m19);
}

proof fn lemma_filters_read_back(f: FiltersView)
    requires
        readable_text(f.visibility),
        readable_text(f.archived),
        readable_text(f.forks),
    ensures
        readable_block(filters_node(f)),
{
    lemma_keys();
    lemma_good_entry("visibility"@, Node::Str(f.visibility));
    let e1 = entry("visibility"@, Node::Str(f.visibility));
    let m1 = lemma_good_start("visibility"@, e1);
    lemma_good_entry("archived"@, Node::Str(f.archived));
    let e2 = e1 + entry("archived"@, Node::Str(f.archived));
    let m2 = lemma_good_add(e1, m1, "archived"@, entry("archived"@, Node::Str(f.archived)));
    lemma_good_entry("forks"@, Node::Str(f.forks));
    let e3 = e2 + entry("forks"@, Node::Str(f.forks));
    let m3 = lemma_good_add(e2, m2, "forks"@, entry("forks"@, Node::Str(f.forks)));
    lemma_good_mapping(e3, m3);
}

proof fn lemma_source_reads_back(source: SourceView)
    requires
        readable_text(source.api_url),
        readable_text(source.enterprise),
        readable_text(source.filters.visibility),
        readable_text(source.filters.archived),
        readable_text(source.filters.forks),
    ensures
        readable_block(source_node(source)),
{
    lemma_keys();
    lemma_filters_read_back(source.filters);
    lemma_good_entry("api_url"@, Node::Str(source.api_url));
    let e1 = entry("api_url"@, Node::Str(source.api_url));
    let m1 = lemma_good_start("api_url"@, e1);
    lemma_good_entry("enterprise"@, Node::Str(source.enterprise));
    let e2 = e1 + entry("enterprise"@, Node::Str(source.enterprise));
    let m2 = lemma_good_add(e1, m1, "enterprise"@, entry("enterprise"@, Node::Str(source.enterprise)));
    lemma_good_entry("filters"@, filters_node(source.filters));
    let e3 = e2 + entry("filters"@, filters_node(source.filters));
    let m3 = lemma_good_add(e2, m2, "filters"@, entry("filters"@, filters_node(source.filters)));
    lemma_good_mapping(e3, m3);
}

proof fn lemma_totals_read_back(totals: (nat, nat))
    ensures
        readable_block(totals_node(totals)),
{
    lemma_keys();
    lemma_natural_is_number(totals.0);
    lemma_natural_is_number(totals.1);
    lemma_good_entry("organizations"@, number_node(totals.0 as int));
    let e1 = entry("organizations"@, number_node(totals.0 as int));
    let m1 = lemma_good_start("organizations"@, e1);
    lemma_good_entry("repositories"@, number_node(totals.1 as int));
    let e2 = e1 + entry("repositories"@, number_node(totals.1 as int));
    let m2 = lemma_good_add(e1, m1, "repositories"@, entry("repositories"@, number_node(totals.1 as int)));
    lemma_good_mapping(e2, m2);
}

/// A report whose texts can stand in a YAML document is a value that reads back.
pub proof fn lemma_report_is_readable(r: ReportView)
    requires
        readable_report(r),
    ensures
        readable(report_node(r)),
{
    lemma_keys();
    lemma_source_reads_back(r.source);
    lemma_list_reads_back(r.organizations);
    lemma_totals_read_back(r.totals);
    let nodes = r.repositories.map_values(|r: RepositoryView| repository_node(r));
    assert forall|i: int| 0 <= i < nodes.len() implies readable_block(#[trigger] nodes[i]) by {
        lemma_repository_reads_back(r.repositories[i]);
    }
    assert(readable_block(Node::Sequence(nodes)));
    lemma_good_entry("source"@, source_node(r.source));
    let e1 = entry("source"@, source_node(r.source));
    let m1 = lemma_good_start("source"@, e1);
    lemma_good_entry("organizations"@, list_node(r.organizations));
    let e2 = e1 + entry("organizations"@, list_node(r.organizations));
    let m2 = lemma_good_add(e1, m1, "organizations"@, entry("organizations"@, list_node(r.organizations)));
    lemma_good_list("organizations_without_repository_data"@, r.organizations_without_repository_data);
    let e3 = e2 + list_entry("organizations_without_repository_data"@, r.organizations_without_repository_data);
    let m3 = lemma_good_add(e2, m2, "organizations_without_repository_data"@, list_entry("organizations_without_repository_data"@, r.organizations_without_repository_data));
    lemma_good_entry("totals"@, totals_node(r.totals));
    let e4 = e3 + entry("totals"@, totals_node(r.totals));
    let m4 = lemma_good_add(e3, m3, "totals"@, entry("totals"@, totals_node(r.totals)));
    lemma_good_entry("repositories"@, Node::Sequence(nodes));
    let e5 = e4 + entry("repositories"@, Node::Sequence(nodes));
    let m5 = lemma_good_add(e4, m4, "repositories"@, entry("repositories"@, Node::Sequence(nodes)));
    lemma_good_mapping(e5, m5);
    lemma_mapping_line_heads(e5, m5);
    let n = Node::Mapping(e5);
    assert(report_node(r) == n);
    let lines = block_lines(n);
    assert(lines == mapping_lines(e5));
    assert(lines.len() > 0 && lines[0].len() > 0);
    assert(document_text(n)[0] == lines[0][0]);
    assert forall|i: int| 0 <= i < lines.len() implies !document_end(#[trigger] lines[i]) by {
        assert(lines[i][0] != '.');
    }
}

/// Every report whose texts can stand in a YAML document is written as a document that reads back
/// as exactly what the report says.
pub proof fn report_reads_back(r: ReportView)
    requires
        readable_report(r),
    ensures
        read_document(document_text(report_node(r))) == Some(report_node(r)),
{
    lemma_report_is_readable(r);
    document_reads_back(report_node(r));
}

/// The document of such a report ends in a line feed and holds no other control character.
pub proof fn a_report_is_made_of_lines(r: ReportView)
    requires
        readable_report(r),
    ensures
        ({
            let text = document_text(report_node(r));
            &&& text.len() > 0 && text.last() == '\n'
            &&& forall|i: int|
                0 <= i < text.len() && control(#[trigger] text[i]) ==> text[i] == '\n'
        }),
{
    lemma_report_is_readable(r);
    readable_values_are_spelled_plainly(report_node(r));
    a_document_is_made_of_lines(report_node(r));
}

// ---------------------------------------------------------------------------------------------
// Absent rather than null
// ---------------------------------------------------------------------------------------------

/// No value in the entries is null.
pub open spec fn no_nulls(entries: Seq<(Node, Node)>) -> bool {
    forall|i: int| 0 <= i < entries.len() ==> !((#[trigger] entries[i]).1 is Null)
}

proof fn lemma_no_nulls_add(a: Seq<(Node, Node)>, b: Seq<(Node, Node)>) -> (c: Seq<(Node, Node)>)
    requires
        no_nulls(a),
        no_nulls(b),
    ensures
        c == a + b,
        no_nulls(c),
{
    assert forall|i: int| 0 <= i < (a + b).len() implies !((#[trigger] (a + b)[i]).1 is Null) by {
        if i < a.len() {
            assert((a + b)[i] == a[i]);
        } else {
            assert((a + b)[i] == b[i - a.len()]);
        }
    }
    a + b
}

/// What a repository does not have is absent from the document: no field of it is null.
pub proof fn a_repository_has_no_null_fields(r: RepositoryView)
    ensures
        repository_node(r) matches Node::Mapping(entries) && no_nulls(entries),
{
    let e1 = entry("org"@, Node::Str(r.org));
    let e2 = lemma_no_nulls_add(e1, entry("name"@, Node::Str(r.name)));
    let e3 = lemma_no_nulls_add(e2, text_entry("full_name"@, r.full_name));
    let e4 = lemma_no_nulls_add(e3, text_entry("url"@, r.url));
    let e5 = lemma_no_nulls_add(e4, text_entry("description"@, r.description));
    let e6 = lemma_no_nulls_add(e5, text_entry("visibility"@, r.visibility));
    let e7 = lemma_no_nulls_add(e6, entry("archived"@, Node::Bool(r.archived)));
    let e8 = lemma_no_nulls_add(e7, entry("fork"@, Node::Bool(r.fork)));
    let e9 = lemma_no_nulls_add(e8, flag_entry("template"@, r.template));
    let e10 = lemma_no_nulls_add(e9, flag_entry("empty"@, r.empty));
    let e11 = lemma_no_nulls_add(e10, text_entry("default_branch"@, r.default_branch));
    let e12 = lemma_no_nulls_add(e11, text_entry("language"@, r.language));
    let e13 = lemma_no_nulls_add(e12, text_entry("license"@, r.license));
    let e14 = lemma_no_nulls_add(e13, number_entry("stars"@, r.stars));
    let e15 = lemma_no_nulls_add(e14, number_entry("forks"@, r.forks));
    let e16 = lemma_no_nulls_add(e15, list_entry("topics"@, r.topics));
    let e17 = lemma_no_nulls_add(e16, text_entry("created_at"@, r.created_at));
    let e18 = lemma_no_nulls_add(e17, text_entry("updated_at"@, r.updated_at));
    lemma_no_nulls_add(e18, text_entry("pushed_at"@, r.pushed_at));
}

} // verus!
