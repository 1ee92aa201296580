//! What the document of a report says: which keys it has, in which order, and with which values.

use vstd::prelude::*;
use crate::document::{
    entry, filters_node, flag_entry, list_entry, list_node, number_entry, number_node, report_node,
    repository_node, source_node, text_entry, totals_node,
};
use crate::model::{FiltersView, ReportView, RepositoryView, SourceView};
use crate::text::digit;
use crate::yaml::value::{natural_text, Node};

verus! {

// ---------------------------------------------------------------------------------------------
// Numbers
// ---------------------------------------------------------------------------------------------

/// The number that decimal digits spell.
pub open spec fn spelled(digits: Seq<char>) -> int
    decreases digits.len(),
{
    if digits.len() == 0 {
        0
    } else {
        10 * spelled(digits.drop_last()) + (digits.last() as int - '0' as int)
    }
}

/// Decimal digits for a number, without a zero in front of others.
pub open spec fn spells(digits: Seq<char>, n: nat) -> bool {
    &&& digits.len() > 0
    &&& forall|i: int| 0 <= i < digits.len() ==> digit(#[trigger] digits[i])
    &&& spelled(digits) == n
    &&& digits.len() > 1 ==> digits[0] != '0'
}

/// A natural number is written with the decimal digits that spell it.
pub proof fn a_number_is_written_in_decimal(n: nat)
    ensures
        spells(natural_text(n), n),
    decreases n,
{
    let t = natural_text(n);
    if n >= 10 {
        a_number_is_written_in_decimal(n / 10);
        let front = natural_text(n / 10);
        assert(t.drop_last() =~= front);
        assert(t[0] == front[0]);
        if front.len() == 1 && front[0] == '0' {
            reveal_with_fuel(spelled, 2);
        }
    } else {
        reveal_with_fuel(spelled, 2);
    }
}

// ---------------------------------------------------------------------------------------------
// Fields
// ---------------------------------------------------------------------------------------------

/// A key, and the value under it if there is one.
pub type Field = (Seq<char>, Option<Node>);

/// The entries for those fields that have a value, in order.
pub open spec fn entries_for(fields: Seq<Field>) -> Seq<(Node, Node)>
    decreases fields.len(),
{
    if fields.len() == 0 {
        Seq::empty()
    } else {
        let before = entries_for(fields.drop_last());
        match fields.last().1 {
            Some(value) => before.push((Node::Str(fields.last().0), value)),
            None => before,
        }
    }
}

/// The value under a key, if the key is there.
pub open spec fn value_in(entries: Seq<(Node, Node)>, key: Seq<char>) -> Option<Node>
    decreases entries.len(),
{
    if entries.len() == 0 {
        None
    } else if entries.last().0 == Node::Str(key) {
        Some(entries.last().1)
    } else {
        value_in(entries.drop_last(), key)
    }
}

/// The value under a key of a mapping, if the key is there.
pub open spec fn value_under(node: Node, key: Seq<char>) -> Option<Node> {
    match node {
        Node::Mapping(entries) => value_in(entries, key),
        _ => None,
    }
}

/// No two fields have the same key.
pub open spec fn keys_are_distinct(fields: Seq<Field>) -> bool {
    forall|i: int, j: int|
        0 <= i < j < fields.len() ==> (#[trigger] fields[i]).0 != (#[trigger] fields[j]).0
}

proof fn lemma_no_such_key(fields: Seq<Field>, key: Seq<char>)
    requires
        forall|i: int| 0 <= i < fields.len() ==> (#[trigger] fields[i]).0 != key,
    ensures
        value_in(entries_for(fields), key) is None,
    decreases fields.len(),
{
    if fields.len() > 0 {
        let front = fields.drop_last();
        assert forall|i: int| 0 <= i < front.len() implies (#[trigger] front[i]).0 != key by {
            assert(front[i] == fields[i]);
        }
        lemma_no_such_key(front, key);
        assert(fields[fields.len() - 1].0 != key);
        if fields.last().1 is Some {
            assert(entries_for(fields).drop_last() =~= entries_for(front));
        }
    }
}

/// Under the key of a field stands its value, and the key is there only if there is a value.
proof fn lemma_value_of_field(fields: Seq<Field>, i: int)
    requires
        keys_are_distinct(fields),
        0 <= i < fields.len(),
    ensures
        value_in(entries_for(fields), fields[i].0) == fields[i].1,
    decreases fields.len(),
{
    let front = fields.drop_last();
    let n = fields.len() - 1;
    if fields[n].1 is Some {
        assert(entries_for(fields).drop_last() =~= entries_for(front));
    }
    if i < n {
        assert forall|a: int, b: int| 0 <= a < b < front.len() implies (#[trigger] front[a]).0
            != (#[trigger] front[b]).0 by {
            assert(front[a] == fields[a] && front[b] == fields[b]);
        }
        assert(front[i] == fields[i]);
        lemma_value_of_field(front, i);
        assert(fields[i].0 != fields[n].0);
    } else if fields[n].1 is None {
        assert forall|a: int| 0 <= a < front.len() implies (#[trigger] front[a]).0
            != fields[n].0 by {
            assert(front[a] == fields[a]);
        }
        lemma_no_such_key(front, fields[n].0);
    }
}

/// The entries for one more field.
proof fn lemma_one_more(
    fields: Seq<Field>,
    i: int,
    before: Seq<(Node, Node)>,
    part: Seq<(Node, Node)>,
) -> (after: Seq<(Node, Node)>)
    requires
        0 <= i < fields.len(),
        before == entries_for(fields.take(i)),
        part == match fields[i].1 {
            Some(value) => seq![(Node::Str(fields[i].0), value)],
            None => Seq::empty(),
        },
    ensures
        after == before + part,
        after == entries_for(fields.take(i + 1)),
{
    let t = fields.take(i + 1);
    assert(t.drop_last() =~= fields.take(i));
    assert(t.last() == fields[i]);
    assert(before + part =~= entries_for(t));
    before + part
}

// ---------------------------------------------------------------------------------------------
// A repository
// ---------------------------------------------------------------------------------------------

/// A text is written exactly if there is one.
pub open spec fn written_text(s: Option<Seq<char>>) -> Option<Node> {
    match s {
        Some(s) => Some(Node::Str(s)),
        None => None,
    }
}

/// A count is written exactly if there is one, zero too.
pub open spec fn written_count(n: Option<u64>) -> Option<Node> {
    match n {
        Some(n) => Some(Node::Number(natural_text(n as nat))),
        None => None,
    }
}

/// A flag is written exactly if it is set.
pub open spec fn written_flag(b: bool) -> Option<Node> {
    if b {
        Some(Node::Bool(true))
    } else {
        None
    }
}

/// Names as a sequence, each as a string, in order.
pub open spec fn written_names(names: Seq<Seq<char>>) -> Node {
    Node::Sequence(Seq::new(names.len(), |i: int| Node::Str(names[i])))
}

/// Names are written exactly if there are any.
pub open spec fn written_list(names: Seq<Seq<char>>) -> Option<Node> {
    if names.len() == 0 {
        None
    } else {
        Some(written_names(names))
    }
}

/// The fields of a repository, in order.
pub open spec fn repository_fields(r: RepositoryView) -> Seq<Field> {
    seq![
        ("org"@, Some(Node::Str(r.org))),
        ("name"@, Some(Node::Str(r.name))),
        ("full_name"@, written_text(r.full_name)),
        ("url"@, written_text(r.url)),
        ("description"@, written_text(r.description)),
        ("visibility"@, written_text(r.visibility)),
        ("archived"@, Some(Node::Bool(r.archived))),
        ("fork"@, Some(Node::Bool(r.fork))),
        ("template"@, written_flag(r.template)),
        ("empty"@, written_flag(r.empty)),
        ("default_branch"@, written_text(r.default_branch)),
        ("language"@, written_text(r.language)),
        ("license"@, written_text(r.license)),
        ("stars"@, written_count(r.stars)),
        ("forks"@, written_count(r.forks)),
        ("topics"@, written_list(r.topics)),
        ("created_at"@, written_text(r.created_at)),
        ("updated_at"@, written_text(r.updated_at)),
        ("pushed_at"@, written_text(r.pushed_at)),
    ]
}

/// Where a key of a repository stands among the others.
spec fn key_place(k: Seq<char>) -> int {
    if k.len() == 3 && k[0] == 'o' {
        0
    } else if k.len() == 4 && k[0] == 'n' {
        1
    } else if k.len() == 9 && k[0] == 'f' {
        2
    } else if k.len() == 3 && k[0] == 'u' {
        3
    } else if k.len() == 11 && k[0] == 'd' {
        4
    } else if k.len() == 10 && k[0] == 'v' {
        5
    } else if k.len() == 8 && k[0] == 'a' {
        6
    } else if k.len() == 4 && k[0] == 'f' {
        7
    } else if k.len() == 8 && k[0] == 't' {
        8
    } else if k.len() == 5 && k[0] == 'e' {
        9
    } else if k.len() == 14 && k[0] == 'd' {
        10
    } else if k.len() == 8 && k[0] == 'l' {
        11
    } else if k.len() == 7 && k[0] == 'l' {
        12
    } else if k.len() == 5 && k[0] == 's' {
        13
    } else if k.len() == 5 && k[0] == 'f' {
        14
    } else if k.len() == 6 && k[0] == 't' {
        15
    } else if k.len() == 10 && k[0] == 'c' {
        16
    } else if k.len() == 10 && k[0] == 'u' {
        17
    } else if k.len() == 9 && k[0] == 'p' {
        18
    } else {
        -1
    }
}

proof fn lemma_key_places()
    ensures
        key_place("org"@) == 0,
        key_place("name"@) == 1,
        key_place("full_name"@) == 2,
        key_place("url"@) == 3,
        key_place("description"@) == 4,
        key_place("visibility"@) == 5,
        key_place("archived"@) == 6,
        key_place("fork"@) == 7,
        key_place("template"@) == 8,
        key_place("empty"@) == 9,
        key_place("default_branch"@) == 10,
        key_place("language"@) == 11,
        key_place("license"@) == 12,
        key_place("stars"@) == 13,
        key_place("forks"@) == 14,
        key_place("topics"@) == 15,
        key_place("created_at"@) == 16,
        key_place("updated_at"@) == 17,
        key_place("pushed_at"@) == 18,
{
    reveal_strlit("org");
    reveal_strlit("name");
    reveal_strlit("full_name");
    reveal_strlit("url");
    reveal_strlit("description");
    reveal_strlit("visibility");
    reveal_strlit("archived");
    reveal_strlit("fork");
    reveal_strlit("template");
    reveal_strlit("empty");
    reveal_strlit("default_branch");
    reveal_strlit("language");
    reveal_strlit("license");
    reveal_strlit("stars");
    reveal_strlit("forks");
    reveal_strlit("topics");
    reveal_strlit("created_at");
    reveal_strlit("updated_at");
    reveal_strlit("pushed_at");
}

proof fn lemma_repository_keys(r: RepositoryView)
    ensures
        keys_are_distinct(repository_fields(r)),
{
    lemma_key_places();
    let fields = repository_fields(r);
    assert forall|i: int| 0 <= i < fields.len() implies key_place(
        (#[trigger] fields[i]).0,
    ) == i by {}
    assert forall|i: int, j: int| 0 <= i < j < fields.len() implies (#[trigger] fields[i]).0
        != (#[trigger] fields[j]).0 by {
        assert(key_place(fields[i].0) == i && key_place(fields[j].0) == j);
    }
}

proof fn lemma_list(names: Seq<Seq<char>>)
    ensures
        list_node(names) == written_names(names),
{
    assert(names.map_values(|s: Seq<char>| Node::Str(s)) =~= Seq::new(
        names.len(),
        |i: int| Node::Str(names[i]),
    ));
}

/// The document of a repository has its fields in order, and of these exactly those that have a
/// value.
pub proof fn a_repository_is_written_field_by_field(r: RepositoryView)
    ensures
        repository_node(r) == Node::Mapping(entries_for(repository_fields(r))),
{
    let fields = repository_fields(r);
    lemma_list(r.topics);
    assert(fields.take(0) =~= Seq::<Field>::empty());
    let e0 = Seq::<(Node, Node)>::empty();
    let e1 = lemma_one_more(fields, 0, e0, entry("org"@, Node::Str(r.org)));
    let e2 = lemma_one_more(fields, 1, e1, entry("name"@, Node::Str(r.name)));
    let e3 = lemma_one_more(fields, 2, e2, text_entry("full_name"@, r.full_name));
    let e4 = lemma_one_more(fields, 3, e3, text_entry("url"@, r.url));
    let e5 = lemma_one_more(fields, 4, e4, text_entry("description"@, r.description));
    let e6 = lemma_one_more(fields, 5, e5, text_entry("visibility"@, r.visibility));
    let e7 = lemma_one_more(fields, 6, e6, entry("archived"@, Node::Bool(r.archived)));
    let e8 = lemma_one_more(fields, 7, e7, entry("fork"@, Node::Bool(r.fork)));
    let e9 = lemma_one_more(fields, 8, e8, flag_entry("template"@, r.template));
    let e10 = lemma_one_more(fields, 9, e9, flag_entry("empty"@, r.empty));
    let e11 = lemma_one_more(fields, 10, e10, text_entry("default_branch"@, r.default_branch));
    let e12 = lemma_one_more(fields, 11, e11, text_entry("language"@, r.language));
    let e13 = lemma_one_more(fields, 12, e12, text_entry("license"@, r.license));
    let e14 = lemma_one_more(fields, 13, e13, number_entry("stars"@, r.stars));
    let e15 = lemma_one_more(fields, 14, e14, number_entry("forks"@, r.forks));
    let e16 = lemma_one_more(fields, 15, e15, list_entry("topics"@, r.topics));
    let e17 = lemma_one_more(fields, 16, e16, text_entry("created_at"@, r.created_at));
    let e18 = lemma_one_more(fields, 17, e17, text_entry("updated_at"@, r.updated_at));
    let e19 = lemma_one_more(fields, 18, e18, text_entry("pushed_at"@, r.pushed_at));
    assert(fields.take(19) =~= fields);
    assert(repository_node(r)->Mapping_0 =~= e19);
}

/// Under each key of a repository stands its value, and the key is there only if there is one.
pub proof fn a_key_is_there_exactly_with_its_value(r: RepositoryView, i: int)
    requires
        0 <= i < repository_fields(r).len(),
    ensures
        value_under(repository_node(r), repository_fields(r)[i].0) == repository_fields(r)[i].1,
{
    a_repository_is_written_field_by_field(r);
    lemma_repository_keys(r);
    lemma_value_of_field(repository_fields(r), i);
}

/// A count under a key: there exactly if it could be read, and then in decimal.
pub open spec fn count_stands_under(node: Node, key: Seq<char>, count: Option<u64>) -> bool {
    match count {
        Some(n) => value_under(node, key) matches Some(Node::Number(digits)) && spells(
            digits,
            n as nat,
        ),
        None => value_under(node, key) is None,
    }
}

/// The stars and the forks of a repository are in its document exactly if they could be read, zero
/// too, and then in decimal.
pub proof fn counts_are_written_exactly_if_they_were_read(r: RepositoryView)
    ensures
        count_stands_under(repository_node(r), "stars"@, r.stars),
        count_stands_under(repository_node(r), "forks"@, r.forks),
{
    a_key_is_there_exactly_with_its_value(r, 13);
    a_key_is_there_exactly_with_its_value(r, 14);
    if let Some(n) = r.stars {
        a_number_is_written_in_decimal(n as nat);
    }
    if let Some(n) = r.forks {
        a_number_is_written_in_decimal(n as nat);
    }
}

/// The flags of a repository are in its document as they are: whether it is archived or a fork
/// always, and whether it is a template or empty exactly if it is.
pub proof fn flags_are_written_as_they_are(r: RepositoryView)
    ensures
        value_under(repository_node(r), "archived"@) == Some(Node::Bool(r.archived)),
        value_under(repository_node(r), "fork"@) == Some(Node::Bool(r.fork)),
        r.template ==> value_under(repository_node(r), "template"@) == Some(Node::Bool(true)),
        !r.template ==> value_under(repository_node(r), "template"@) is None,
        r.empty ==> value_under(repository_node(r), "empty"@) == Some(Node::Bool(true)),
        !r.empty ==> value_under(repository_node(r), "empty"@) is None,
{
    a_key_is_there_exactly_with_its_value(r, 6);
    a_key_is_there_exactly_with_its_value(r, 7);
    a_key_is_there_exactly_with_its_value(r, 8);
    a_key_is_there_exactly_with_its_value(r, 9);
}

/// A text under a key: there exactly if there is one, and then that text.
pub open spec fn text_stands_under(node: Node, key: Seq<char>, text: Option<Seq<char>>) -> bool {
    match text {
        Some(s) => value_under(node, key) == Some(Node::Str(s)),
        None => value_under(node, key) is None,
    }
}

/// The texts of a repository are in its document exactly if it has them, each under its own key,
/// and its topics exactly if it has any.
pub proof fn texts_are_written_exactly_if_they_are_there(r: RepositoryView)
    ensures
        text_stands_under(repository_node(r), "org"@, Some(r.org)),
        text_stands_under(repository_node(r), "name"@, Some(r.name)),
        text_stands_under(repository_node(r), "full_name"@, r.full_name),
        text_stands_under(repository_node(r), "url"@, r.url),
        text_stands_under(repository_node(r), "description"@, r.description),
        text_stands_under(repository_node(r), "visibility"@, r.visibility),
        text_stands_under(repository_node(r), "default_branch"@, r.default_branch),
        text_stands_under(repository_node(r), "language"@, r.language),
        text_stands_under(repository_node(r), "license"@, r.license),
        text_stands_under(repository_node(r), "created_at"@, r.created_at),
        text_stands_under(repository_node(r), "updated_at"@, r.updated_at),
        text_stands_under(repository_node(r), "pushed_at"@, r.pushed_at),
        r.topics.len() == 0 ==> value_under(repository_node(r), "topics"@) is None,
        r.topics.len() > 0 ==> value_under(repository_node(r), "topics"@) == Some(
            written_names(r.topics),
        ),
{
    a_key_is_there_exactly_with_its_value(r, 0);
    a_key_is_there_exactly_with_its_value(r, 1);
    a_key_is_there_exactly_with_its_value(r, 2);
    a_key_is_there_exactly_with_its_value(r, 3);
    a_key_is_there_exactly_with_its_value(r, 4);
    a_key_is_there_exactly_with_its_value(r, 5);
    a_key_is_there_exactly_with_its_value(r, 10);
    a_key_is_there_exactly_with_its_value(r, 11);
    a_key_is_there_exactly_with_its_value(r, 12);
    a_key_is_there_exactly_with_its_value(r, 15);
    a_key_is_there_exactly_with_its_value(r, 16);
    a_key_is_there_exactly_with_its_value(r, 17);
    a_key_is_there_exactly_with_its_value(r, 18);
}

/// Repositories with the same document agree in every field.
pub proof fn a_document_tells_repositories_apart(a: RepositoryView, b: RepositoryView)
    requires
        repository_node(a) == repository_node(b),
    ensures
        a == b,
{
    texts_are_written_exactly_if_they_are_there(a);
    texts_are_written_exactly_if_they_are_there(b);
    flags_are_written_as_they_are(a);
    flags_are_written_as_they_are(b);
    counts_are_written_exactly_if_they_were_read(a);
    counts_are_written_exactly_if_they_were_read(b);
    if a.topics.len() > 0 {
        let (x, y) = (written_names(a.topics)->Sequence_0, written_names(b.topics)->Sequence_0);
        assert(x == y);
        assert forall|i: int| 0 <= i < a.topics.len() implies a.topics[i] == b.topics[i] by {
            assert(x[i] == Node::Str(a.topics[i]) && y[i] == Node::Str(b.topics[i]));
        }
    }
    assert(a.topics =~= b.topics);
}

// ---------------------------------------------------------------------------------------------
// A report
// ---------------------------------------------------------------------------------------------

/// Repositories as a sequence, each with its fields, in order.
pub open spec fn written_repositories(repositories: Seq<RepositoryView>) -> Node {
    Node::Sequence(
        Seq::new(
            repositories.len(),
            |i: int| Node::Mapping(entries_for(repository_fields(repositories[i]))),
        ),
    )
}

/// The fields of a report, in order.
pub open spec fn report_fields(r: ReportView) -> Seq<Field> {
    seq![
        ("source"@, Some(source_node(r.source))),
        ("organizations"@, Some(written_names(r.organizations))),
        (
            "organizations_without_repository_data"@,
            written_list(r.organizations_without_repository_data),
        ),
        ("totals"@, Some(totals_node(r.totals))),
        ("repositories"@, Some(written_repositories(r.repositories))),
    ]
}

/// The document of a report has its fields in order, and the list of unreadable organizations
/// exactly if there are any. It lists every organization and every repository, in order.
pub proof fn a_report_is_written_field_by_field(r: ReportView)
    ensures
        report_node(r) == Node::Mapping(entries_for(report_fields(r))),
{
    let fields = report_fields(r);
    lemma_list(r.organizations);
    lemma_list(r.organizations_without_repository_data);
    let nodes = r.repositories.map_values(|r: RepositoryView| repository_node(r));
    let written = written_repositories(r.repositories)->Sequence_0;
    assert forall|i: int| 0 <= i < nodes.len() implies #[trigger] nodes[i] == written[i] by {
        a_repository_is_written_field_by_field(r.repositories[i]);
    }
    assert(nodes =~= written);
    assert(fields.take(0) =~= Seq::<Field>::empty());
    let e0 = Seq::<(Node, Node)>::empty();
    let e1 = lemma_one_more(fields, 0, e0, entry("source"@, source_node(r.source)));
    let e2 = lemma_one_more(fields, 1, e1, entry("organizations"@, list_node(r.organizations)));
    let e3 = lemma_one_more(
        fields,
        2,
        e2,
        list_entry(
            "organizations_without_repository_data"@,
            r.organizations_without_repository_data,
        ),
    );
    let e4 = lemma_one_more(fields, 3, e3, entry("totals"@, totals_node(r.totals)));
    let e5 = lemma_one_more(fields, 4, e4, entry("repositories"@, Node::Sequence(nodes)));
    assert(fields.take(5) =~= fields);
    assert(report_node(r)->Mapping_0 =~= e5);
}

/// What a report says of where it came from, with which filters, and of how much it lists, stands
/// under its keys, in order.
pub proof fn the_parts_of_a_report_are_written_field_by_field(
    source: SourceView,
    filters: FiltersView,
    totals: (nat, nat),
)
    ensures
        source_node(source) == Node::Mapping(
            entries_for(
                seq![
                    ("api_url"@, Some(Node::Str(source.api_url))),
                    ("enterprise"@, Some(Node::Str(source.enterprise))),
                    ("filters"@, Some(filters_node(source.filters))),
                ],
            ),
        ),
        filters_node(filters) == Node::Mapping(
            entries_for(
                seq![
                    ("visibility"@, Some(Node::Str(filters.visibility))),
                    ("archived"@, Some(Node::Str(filters.archived))),
                    ("forks"@, Some(Node::Str(filters.forks))),
                ],
            ),
        ),
        totals_node(totals) == Node::Mapping(
            entries_for(
                seq![
                    ("organizations"@, Some(Node::Number(natural_text(totals.0)))),
                    ("repositories"@, Some(Node::Number(natural_text(totals.1)))),
                ],
            ),
        ),
        spells(natural_text(totals.0), totals.0),
        spells(natural_text(totals.1), totals.1),
{
    a_number_is_written_in_decimal(totals.0);
    a_number_is_written_in_decimal(totals.1);
    let e0 = Seq::<(Node, Node)>::empty();
    let f: Seq<Field> = seq![
        ("api_url"@, Some(Node::Str(source.api_url))),
        ("enterprise"@, Some(Node::Str(source.enterprise))),
        ("filters"@, Some(filters_node(source.filters))),
    ];
    assert(f.take(0) =~= Seq::<Field>::empty());
    let e1 = lemma_one_more(f, 0, e0, entry("api_url"@, Node::Str(source.api_url)));
    let e2 = lemma_one_more(f, 1, e1, entry("enterprise"@, Node::Str(source.enterprise)));
    let e3 = lemma_one_more(f, 2, e2, entry("filters"@, filters_node(source.filters)));
    assert(f.take(3) =~= f);
    assert(source_node(source)->Mapping_0 =~= e3);
    let g: Seq<Field> = seq![
        ("visibility"@, Some(Node::Str(filters.visibility))),
        ("archived"@, Some(Node::Str(filters.archived))),
        ("forks"@, Some(Node::Str(filters.forks))),
    ];
    assert(g.take(0) =~= Seq::<Field>::empty());
    let h1 = lemma_one_more(g, 0, e0, entry("visibility"@, Node::Str(filters.visibility)));
    let h2 = lemma_one_more(g, 1, h1, entry("archived"@, Node::Str(filters.archived)));
    let h3 = lemma_one_more(g, 2, h2, entry("forks"@, Node::Str(filters.forks)));
    assert(g.take(3) =~= g);
    assert(filters_node(filters)->Mapping_0 =~= h3);
    let t: Seq<Field> = seq![
        ("organizations"@, Some(Node::Number(natural_text(totals.0)))),
        ("repositories"@, Some(Node::Number(natural_text(totals.1)))),
    ];
    assert(t.take(0) =~= Seq::<Field>::empty());
    let k1 = lemma_one_more(t, 0, e0, entry("organizations"@, number_node(totals.0 as int)));
    let k2 = lemma_one_more(t, 1, k1, entry("repositories"@, number_node(totals.1 as int)));
    assert(t.take(2) =~= t);
    assert(totals_node(totals)->Mapping_0 =~= k2);
}

} // verus!
