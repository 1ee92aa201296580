//! What the views of reports show.

use vstd::prelude::*;
use crate::model::{opt_text, repository_views, Filters, Report, Repository, Source, Totals};
use crate::sort::texts;

verus! {

/// The text of an optional string is there exactly if the string is, and is its text.
pub proof fn an_optional_text_is_that_of_its_string(s: Option<String>)
    ensures
        s is None <==> opt_text(s) is None,
        s is Some ==> opt_text(s)->0 == s->0@,
{
}

/// The texts of a list are those of its strings, in order.
pub proof fn a_list_of_texts_is_that_of_its_strings(v: Seq<String>)
    ensures
        texts(v).len() == v.len(),
        forall|i: int| 0 <= i < v.len() ==> #[trigger] texts(v)[i] == v[i]@,
{
}

/// What is said of a repository is said of each of its fields.
pub proof fn a_repository_is_seen_field_by_field(r: Repository)
    ensures
        r@.org == r.org@,
        r@.name == r.name@,
        r@.archived == r.archived,
        r@.fork == r.fork,
        r@.template == r.template,
        r@.empty == r.empty,
        r@.stars == r.stars,
        r@.forks == r.forks,
        r@.topics == texts(r.topics@),
        r@.full_name == opt_text(r.full_name),
        r@.url == opt_text(r.url),
        r@.description == opt_text(r.description),
        r@.visibility == opt_text(r.visibility),
        r@.default_branch == opt_text(r.default_branch),
        r@.language == opt_text(r.language),
        r@.license == opt_text(r.license),
        r@.created_at == opt_text(r.created_at),
        r@.updated_at == opt_text(r.updated_at),
        r@.pushed_at == opt_text(r.pushed_at),
{
}

/// What is said of a report is said of each of its fields.
pub proof fn a_report_is_seen_field_by_field(r: Report)
    ensures
        r@.source.api_url == r.source.api_url@,
        r@.source.enterprise == r.source.enterprise@,
        r@.source.filters.visibility == r.source.filters.visibility@,
        r@.source.filters.archived == r.source.filters.archived@,
        r@.source.filters.forks == r.source.filters.forks@,
        r@.organizations == texts(r.organizations@),
        r@.organizations_without_repository_data == texts(
            r.organizations_without_repository_data@,
        ),
        r@.totals.0 == r.totals.organizations,
        r@.totals.1 == r.totals.repositories,
        r@.repositories.len() == r.repositories@.len(),
        forall|i: int|
            0 <= i < r.repositories@.len() ==> #[trigger] r@.repositories[i]
                == r.repositories@[i]@,
{
}

/// What is said of the parts of a report is said of each of their fields.
pub proof fn the_parts_of_a_report_are_seen_field_by_field(
    source: Source,
    filters: Filters,
    totals: Totals,
    repositories: Seq<Repository>,
)
    ensures
        source@.api_url == source.api_url@,
        source@.enterprise == source.enterprise@,
        source@.filters == source.filters@,
        filters@.visibility == filters.visibility@,
        filters@.archived == filters.archived@,
        filters@.forks == filters.forks@,
        totals@.0 == totals.organizations,
        totals@.1 == totals.repositories,
        repository_views(repositories).len() == repositories.len(),
        forall|i: int|
            0 <= i < repositories.len() ==> #[trigger] repository_views(repositories)[i]
                == repositories[i]@,
{
}

} // verus!
