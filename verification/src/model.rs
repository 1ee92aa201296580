//! What GitHub's GraphQL API answers, and what a report holds.

pub mod laws;

use vstd::prelude::*;
use crate::sort::texts;

verus! {

// ---------------------------------------------------------------------------------------------
// GraphQL response shapes
// ---------------------------------------------------------------------------------------------

#[derive(Debug)]
pub struct PageInfo {
    pub has_next_page: bool,
    pub end_cursor: Option<String>,
}

#[derive(Debug)]
pub struct ViewerData {
    pub viewer: ViewerNode,
}

#[derive(Debug)]
pub struct ViewerNode {
    pub login: String,
}

#[derive(Debug)]
pub struct OrgNode {
    pub login: String,
}

#[derive(Debug)]
pub struct OrgConnection {
    pub page_info: PageInfo,
    pub nodes: Vec<Option<OrgNode>>,
}

#[derive(Debug)]
pub struct EnterpriseOrgsData {
    pub enterprise: Option<EnterpriseNode>,
}

#[derive(Debug)]
pub struct EnterpriseNode {
    pub organizations: OrgConnection,
}

#[derive(Debug)]
pub struct OrgReposData {
    pub organization: Option<OrgReposNode>,
}

#[derive(Debug)]
pub struct OrgReposNode {
    pub repositories: RepoConnection,
}

#[derive(Debug)]
pub struct RepoConnection {
    pub page_info: PageInfo,
    pub nodes: Vec<Option<RepoNode>>,
}

/// One repository as GitHub returns it. Everything past `name` is optional, so a field that the
/// token cannot see is missing instead of failing the whole page.
#[derive(Debug)]
pub struct RepoNode {
    pub name: String,
    pub name_with_owner: Option<String>,
    pub url: Option<String>,
    pub description: Option<String>,
    /// `PUBLIC`, `PRIVATE` or `INTERNAL`.
    pub visibility: Option<String>,
    pub is_archived: Option<bool>,
    pub is_fork: Option<bool>,
    pub is_template: Option<bool>,
    pub is_empty: Option<bool>,
    pub stargazer_count: Option<u64>,
    pub fork_count: Option<u64>,
    pub created_at: Option<String>,
    pub updated_at: Option<String>,
    pub pushed_at: Option<String>,
    pub default_branch_ref: Option<RefNode>,
    pub primary_language: Option<NamedNode>,
    pub license_info: Option<LicenseNode>,
    /// Absent entirely when topics were not requested.
    pub repository_topics: Option<TopicConnection>,
}

#[derive(Debug)]
pub struct RefNode {
    pub name: String,
}

#[derive(Debug)]
pub struct NamedNode {
    pub name: String,
}

#[derive(Debug)]
pub struct LicenseNode {
    pub spdx_id: Option<String>,
    pub name: Option<String>,
}

#[derive(Debug)]
pub struct TopicConnection {
    pub nodes: Vec<Option<RepositoryTopic>>,
}

#[derive(Debug)]
pub struct RepositoryTopic {
    pub topic: Option<NamedNode>,
}

// ---------------------------------------------------------------------------------------------
// Report shapes
// ---------------------------------------------------------------------------------------------

#[derive(Debug)]
pub struct Report {
    pub source: Source,
    /// Organization logins, ascending.
    pub organizations: Vec<String>,
    /// Organizations that could not be read at all, so none of their repositories are listed.
    pub organizations_without_repository_data: Vec<String>,
    pub totals: Totals,
    /// Repositories, ordered by organization login and then by repository name, both ascending
    /// and without regard to case.
    pub repositories: Vec<Repository>,
}

#[derive(Debug)]
pub struct Source {
    pub api_url: String,
    pub enterprise: String,
    /// The filters that the run applied.
    pub filters: Filters,
}

#[derive(Debug)]
pub struct Filters {
    /// `public`, `private`, `internal` or `all`.
    pub visibility: String,
    /// `exclude`, `include` or `only`.
    pub archived: String,
    /// `include`, `exclude` or `only`.
    pub forks: String,
}

#[derive(Debug)]
pub struct Totals {
    pub organizations: usize,
    pub repositories: usize,
}

#[derive(Debug)]
pub struct Repository {
    pub org: String,
    pub name: String,
    pub full_name: Option<String>,
    pub url: Option<String>,
    pub description: Option<String>,
    /// `PUBLIC`, `PRIVATE` or `INTERNAL`.
    pub visibility: Option<String>,
    pub archived: bool,
    pub fork: bool,
    pub template: bool,
    pub empty: bool,
    pub default_branch: Option<String>,
    pub language: Option<String>,
    pub license: Option<String>,
    pub stars: Option<u64>,
    pub forks: Option<u64>,
    /// Ascending; empty when topics were not requested, or when the repository has none.
    pub topics: Vec<String>,
    pub created_at: Option<String>,
    pub updated_at: Option<String>,
    pub pushed_at: Option<String>,
}

// ---------------------------------------------------------------------------------------------
// Reports as mathematical values
// ---------------------------------------------------------------------------------------------

/// The text of an optional string.
pub open spec fn opt_text(s: Option<String>) -> Option<Seq<char>> {
    match s {
        Some(s) => Some(s@),
        None => None,
    }
}

/// What a [`Report`] holds.
pub struct ReportView {
    pub source: SourceView,
    pub organizations: Seq<Seq<char>>,
    pub organizations_without_repository_data: Seq<Seq<char>>,
    pub totals: (nat, nat),
    pub repositories: Seq<RepositoryView>,
}

/// What a [`Source`] holds.
pub struct SourceView {
    pub api_url: Seq<char>,
    pub enterprise: Seq<char>,
    pub filters: FiltersView,
}

/// What [`Filters`] hold.
pub struct FiltersView {
    pub visibility: Seq<char>,
    pub archived: Seq<char>,
    pub forks: Seq<char>,
}

/// What a [`Repository`] holds.
pub struct RepositoryView {
    pub org: Seq<char>,
    pub name: Seq<char>,
    pub full_name: Option<Seq<char>>,
    pub url: Option<Seq<char>>,
    pub description: Option<Seq<char>>,
    pub visibility: Option<Seq<char>>,
    pub archived: bool,
    pub fork: bool,
    pub template: bool,
    pub empty: bool,
    pub default_branch: Option<Seq<char>>,
    pub language: Option<Seq<char>>,
    pub license: Option<Seq<char>>,
    pub stars: Option<u64>,
    pub forks: Option<u64>,
    pub topics: Seq<Seq<char>>,
    pub created_at: Option<Seq<char>>,
    pub updated_at: Option<Seq<char>>,
    pub pushed_at: Option<Seq<char>>,
}

impl View for Filters {
    type V = FiltersView;

    open spec fn view(&self) -> FiltersView {
        FiltersView {
            visibility: self.visibility@,
            archived: self.archived@,
            forks: self.forks@,
        }
    }
}

impl View for Source {
    type V = SourceView;

    open spec fn view(&self) -> SourceView {
        SourceView {
            api_url: self.api_url@,
            enterprise: self.enterprise@,
            filters: self.filters@,
        }
    }
}

impl View for Totals {
    type V = (nat, nat);

    open spec fn view(&self) -> (nat, nat) {
        (self.organizations as nat, self.repositories as nat)
    }
}

impl View for Repository {
    type V = RepositoryView;

    open spec fn view(&self) -> RepositoryView {
        RepositoryView {
            org: self.org@,
            name: self.name@,
            full_name: opt_text(self.full_name),
            url: opt_text(self.url),
            description: opt_text(self.description),
            visibility: opt_text(self.visibility),
            archived: self.archived,
            fork: self.fork,
            template: self.template,
            empty: self.empty,
            default_branch: opt_text(self.default_branch),
            language: opt_text(self.language),
            license: opt_text(self.license),
            stars: self.stars,
            forks: self.forks,
            topics: texts(self.topics@),
            created_at: opt_text(self.created_at),
            updated_at: opt_text(self.updated_at),
            pushed_at: opt_text(self.pushed_at),
        }
    }
}

/// What the repositories of a list hold.
pub open spec fn repository_views(v: Seq<Repository>) -> Seq<RepositoryView> {
    v.map_values(|r: Repository| r@)
}

impl View for Report {
    type V = ReportView;

    open spec fn view(&self) -> ReportView {
        ReportView {
            source: self.source@,
            organizations: texts(self.organizations@),
            organizations_without_repository_data: texts(
                self.organizations_without_repository_data@,
            ),
            totals: self.totals@,
            repositories: repository_views(self.repositories@),
        }
    }
}

/// Whether a flag is not set, so that the report leaves it out.
pub fn is_false(value: &bool) -> (res: bool)
    ensures
        res == !*value,
{
    !*value
}

} // verus!
