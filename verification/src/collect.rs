//! What to ask GitHub for, and what to make of the answers.

pub mod laws;

use vstd::prelude::*;
use crate::collect::laws::the_visibility_sent_is_the_one_recorded;
use crate::model::{
    opt_text, EnterpriseOrgsData, Filters, FiltersView, OrgNode, OrgReposData, RepoNode, ViewerData,
};
use crate::paging::{next_cursor, next_page, run, Outcome, Page, Progress};
use crate::sort::texts;
use crate::text::{ascii_lowered, joined, same_text_ignoring_ascii_case};

verus! {

/// Which repositories to ask for. The same values are sent to GitHub as query arguments and
/// checked again on what comes back, so a server that ignores an argument cannot widen the result.
#[derive(Debug, Clone, Copy, PartialEq, Eq, Structural)]
pub struct Filter {
    pub visibility: Visibility,
    pub archived: Archived,
    pub forks: Forks,
}

#[derive(Debug, Clone, Copy, PartialEq, Eq, Structural)]
pub enum Visibility {
    Public,
    Private,
    Internal,
    All,
}

#[derive(Debug, Clone, Copy, PartialEq, Eq, Structural)]
pub enum Archived {
    Exclude,
    Include,
    Only,
}

#[derive(Debug, Clone, Copy, PartialEq, Eq, Structural)]
pub enum Forks {
    Include,
    Exclude,
    Only,
}

impl Default for Visibility {
    fn default() -> (res: Self)
        ensures
            res == Visibility::Public,
    {
        Visibility::Public
    }
}

impl Default for Archived {
    fn default() -> (res: Self)
        ensures
            res == Archived::Exclude,
    {
        Archived::Exclude
    }
}

impl Default for Forks {
    fn default() -> (res: Self)
        ensures
            res == Forks::Include,
    {
        Forks::Include
    }
}

impl Visibility {
    /// The `RepositoryVisibility` that a repository has to have; nothing to require for `All`.
    pub open spec fn required(self) -> Option<Seq<char>> {
        match self {
            Visibility::Public => Some("PUBLIC"@),
            Visibility::Private => Some("PRIVATE"@),
            Visibility::Internal => Some("INTERNAL"@),
            Visibility::All => None,
        }
    }

    pub open spec fn word(self) -> Seq<char> {
        match self {
            Visibility::Public => "public"@,
            Visibility::Private => "private"@,
            Visibility::Internal => "internal"@,
            Visibility::All => "all"@,
        }
    }
}

impl Archived {
    /// Whether a repository has to be archived, or must not be.
    pub open spec fn required(self) -> Option<bool> {
        match self {
            Archived::Exclude => Some(false),
            Archived::Include => None,
            Archived::Only => Some(true),
        }
    }

    pub open spec fn word(self) -> Seq<char> {
        match self {
            Archived::Exclude => "exclude"@,
            Archived::Include => "include"@,
            Archived::Only => "only"@,
        }
    }
}

impl Forks {
    /// Whether a repository has to be a fork, or must not be.
    pub open spec fn required(self) -> Option<bool> {
        match self {
            Forks::Include => None,
            Forks::Exclude => Some(false),
            Forks::Only => Some(true),
        }
    }

    pub open spec fn word(self) -> Seq<char> {
        match self {
            Forks::Include => "include"@,
            Forks::Exclude => "exclude"@,
            Forks::Only => "only"@,
        }
    }
}

impl Filter {
    /// Whether a repository belongs in the output.
    ///
    /// Visibility is compared without regard to ASCII case, and one that could not be read is let
    /// through. A flag that could not be read counts as not set.
    pub open spec fn admits(self, repo: RepoNode) -> bool {
        &&& (self.visibility.required() matches Some(expected) ==> (
        repo.visibility matches Some(actual) ==> ascii_lowered(actual@) == ascii_lowered(expected)))
        &&& (self.archived.required() matches Some(expected) ==> (repo.is_archived == Some(true))
            == expected)
        &&& (self.forks.required() matches Some(expected) ==> (repo.is_fork == Some(true))
            == expected)
    }

    /// The `RepositoryVisibility` argument of the query; `None` means not to filter.
    pub fn visibility_arg(&self) -> (res: Option<&'static str>)
        ensures
            match res {
                Some(arg) => self.visibility.required() == Some(arg@),
                None => self.visibility.required() is None,
            },
            res is None <==> self.visibility is All,
            res matches Some(arg) ==> ascii_lowered(arg@) == self.words().visibility,
    {
        proof {
            the_visibility_sent_is_the_one_recorded(*self);
        }
        match self.visibility {
            Visibility::Public => Some("PUBLIC"),
            Visibility::Private => Some("PRIVATE"),
            Visibility::Internal => Some("INTERNAL"),
            Visibility::All => None,
        }
    }

    /// The `isArchived` argument of the query; `None` means not to filter.
    pub fn is_archived_arg(&self) -> (res: Option<bool>)
        ensures
            res == self.archived.required(),
    {
        match self.archived {
            Archived::Exclude => Some(false),
            Archived::Include => None,
            Archived::Only => Some(true),
        }
    }

    /// The `isFork` argument of the query; `None` means not to filter.
    pub fn is_fork_arg(&self) -> (res: Option<bool>)
        ensures
            res == self.forks.required(),
    {
        match self.forks {
            Forks::Include => None,
            Forks::Exclude => Some(false),
            Forks::Only => Some(true),
        }
    }

    /// Whether a repository that GitHub returned really belongs in the output.
    pub fn keep(&self, repo: &RepoNode) -> (res: bool)
        ensures
            res == self.admits(*repo),
    {
        if let Some(expected) = self.visibility_arg() {
            if let Some(actual) = &repo.visibility {
                if !same_text_ignoring_ascii_case(actual.as_str(), expected) {
                    return false;
                }
            }
        }
        if let Some(expected) = self.is_archived_arg() {
            if repo.is_archived.unwrap_or(false) != expected {
                return false;
            }
        }
        if let Some(expected) = self.is_fork_arg() {
            if repo.is_fork.unwrap_or(false) != expected {
                return false;
            }
        }
        true
    }

    /// The filter in words.
    pub open spec fn words(self) -> FiltersView {
        FiltersView {
            visibility: self.visibility.word(),
            archived: self.archived.word(),
            forks: self.forks.word(),
        }
    }

    /// The filter in words, for the report.
    pub fn describe(&self) -> (res: Filters)
        ensures
            res@ == self.words(),
    {
        Filters {
            visibility: (match self.visibility {
                Visibility::Public => "public",
                Visibility::Private => "private",
                Visibility::Internal => "internal",
                Visibility::All => "all",
            }).to_owned(),
            archived: (match self.archived {
                Archived::Exclude => "exclude",
                Archived::Include => "include",
                Archived::Only => "only",
            }).to_owned(),
            forks: (match self.forks {
                Forks::Include => "include",
                Forks::Exclude => "exclude",
                Forks::Only => "only",
            }).to_owned(),
        }
    }
}

/// Everything read out of a single organization.
#[derive(Debug)]
pub struct OrgSnapshot {
    pub login: String,
    pub repositories: Vec<RepoNode>,
}

// ---------------------------------------------------------------------------------------------
// Queries
// ---------------------------------------------------------------------------------------------

/// Asks who the token belongs to.
pub const VIEWER: &'static str = "query { viewer { login } }";

/// Asks for a page of the organizations of an enterprise.
pub const ENTERPRISE_ORGS: &'static str = "
query($slug: String!, $cursor: String, $batchSize: Int!) {
  enterprise(slug: $slug) {
    organizations(first: $batchSize, after: $cursor, orderBy: {field: LOGIN, direction: ASC}) {
      pageInfo { hasNextPage endCursor }
      nodes { login }
    }
  }
}
";

/// Asks for a page of the repositories of an organization.
pub const ORG_REPOS: &'static str = "
query(
  $login: String!
  $cursor: String
  $batchSize: Int!
  $visibility: RepositoryVisibility
  $isArchived: Boolean
  $isFork: Boolean
  $withTopics: Boolean!
) {
  organization(login: $login) {
    repositories(
      first: $batchSize
      after: $cursor
      orderBy: {field: NAME, direction: ASC}
      ownerAffiliations: [OWNER]
      visibility: $visibility
      isArchived: $isArchived
      isFork: $isFork
    ) {
      pageInfo { hasNextPage endCursor }
      nodes {
        name
        nameWithOwner
        url
        description
        visibility
        isArchived
        isFork
        isTemplate
        isEmpty
        stargazerCount
        forkCount
        createdAt
        updatedAt
        pushedAt
        defaultBranchRef { name }
        primaryLanguage { name }
        licenseInfo { spdxId name }
        repositoryTopics(first: 20) @include(if: $withTopics) {
          nodes { topic { name } }
        }
      }
    }
  }
}
";

/// What failed when the token turned out not to work.
pub const AUTHENTICATING: &'static str = "could not authenticate to the GraphQL endpoint";

/// The value of a query variable.
#[derive(Debug)]
pub enum Argument {
    Null,
    Flag(bool),
    Number(u32),
    Text(String),
}

/// A query and the values of its variables.
#[derive(Debug)]
pub struct Request {
    pub query: &'static str,
    pub variables: Vec<(&'static str, Argument)>,
}

/// What an [`Argument`] holds.
pub enum ArgumentView {
    Null,
    Flag(bool),
    Number(u32),
    Text(Seq<char>),
}

/// What a [`Request`] holds.
pub struct RequestView {
    pub query: Seq<char>,
    pub variables: Seq<(Seq<char>, ArgumentView)>,
}

impl View for Argument {
    type V = ArgumentView;

    open spec fn view(&self) -> ArgumentView {
        match *self {
            Argument::Null => ArgumentView::Null,
            Argument::Flag(b) => ArgumentView::Flag(b),
            Argument::Number(n) => ArgumentView::Number(n),
            Argument::Text(s) => ArgumentView::Text(s@),
        }
    }
}

impl View for Request {
    type V = RequestView;

    open spec fn view(&self) -> RequestView {
        RequestView {
            query: self.query@,
            variables: self.variables@.map_values(|v: (&'static str, Argument)| (v.0@, v.1@)),
        }
    }
}

/// A text to send, or null.
pub open spec fn text_argument(s: Option<Seq<char>>) -> ArgumentView {
    match s {
        Some(s) => ArgumentView::Text(s),
        None => ArgumentView::Null,
    }
}

/// A flag to send, or null.
pub open spec fn flag_argument(b: Option<bool>) -> ArgumentView {
    match b {
        Some(b) => ArgumentView::Flag(b),
        None => ArgumentView::Null,
    }
}

fn text_or_null(s: Option<&str>) -> (res: Argument)
    ensures
        match s {
            Some(s) => res@ == ArgumentView::Text(s@),
            None => res@ == ArgumentView::Null,
        },
{
    match s {
        Some(s) => Argument::Text(s.to_owned()),
        None => Argument::Null,
    }
}

fn cursor_or_null(s: &Option<String>) -> (res: Argument)
    ensures
        res@ == text_argument(opt_text(*s)),
{
    match s {
        Some(s) => Argument::Text(s.clone()),
        None => Argument::Null,
    }
}

fn flag_or_null(b: Option<bool>) -> (res: Argument)
    ensures
        res@ == flag_argument(b),
{
    match b {
        Some(b) => Argument::Flag(b),
        None => Argument::Null,
    }
}

// ---------------------------------------------------------------------------------------------
// Collecting
// ---------------------------------------------------------------------------------------------

/// What could not be listed.
#[derive(Debug)]
pub enum CollectError {
    NoEnterprise(String),
    NoOrganization(String),
}

impl CollectError {
    pub open spec fn text(self) -> Seq<char> {
        match self {
            CollectError::NoEnterprise(slug) => "no enterprise named `"@ + slug@
                + "` is visible to this token"@,
            CollectError::NoOrganization(login) => "no organization named `"@ + login@
                + "` is visible to this token"@,
        }
    }

    pub fn message(&self) -> (res: String)
        ensures
            res@ == self.text(),
    {
        match self {
            CollectError::NoEnterprise(slug) => joined(
                "no enterprise named `",
                slug.as_str(),
                "` is visible to this token",
            ),
            CollectError::NoOrganization(login) => joined(
                "no organization named `",
                login.as_str(),
                "` is visible to this token",
            ),
        }
    }
}

/// What to do after an answer: ask for more, or be done.
#[derive(Debug)]
pub enum Step<S, R> {
    More(S),
    Done(R),
}

/// Turns a filter into queries and their answers into listings.
#[derive(Debug)]
pub struct Collector {
    filter: Filter,
    with_topics: bool,
    batch_size: u32,
}

impl Collector {
    /// Which repositories are collected.
    pub closed spec fn selection(self) -> Filter {
        self.filter
    }

    /// Whether topics are asked for.
    pub closed spec fn asks_for_topics(self) -> bool {
        self.with_topics
    }

    /// How many items a page may have.
    pub closed spec fn page_size(self) -> u32 {
        self.batch_size
    }

    #[verifier::type_invariant]
    spec fn asks_for_something(self) -> bool {
        1 <= self.batch_size <= 100
    }

    /// A collector; the number of items in a page is brought into what GitHub accepts.
    pub fn new(filter: Filter, with_topics: bool, batch_size: u32) -> (res: Self)
        ensures
            res.selection() == filter,
            res.asks_for_topics() == with_topics,
            res.page_size() == (if batch_size < 1 {
                1
            } else if batch_size > 100 {
                100
            } else {
                batch_size
            }),
    {
        let batch_size: u32 = if batch_size < 1 {
            1
        } else if batch_size > 100 {
            100
        } else {
            batch_size
        };
        Collector { filter, with_topics, batch_size }
    }

    /// The request that tells whether the endpoint and the token work, before a long run is spent
    /// on them.
    pub fn viewer(&self) -> (res: Request)
        ensures
            res@ == (RequestView { query: VIEWER@, variables: Seq::empty() }),
    {
        let res = Request { query: VIEWER, variables: Vec::new() };
        assert(res@.variables =~= Seq::empty());
        res
    }

    /// Who the token belongs to.
    pub fn viewer_login(&self, data: ViewerData) -> (res: String)
        ensures
            res@ == data.viewer.login@,
    {
        data.viewer.login
    }

    /// Begins to list the organizations of an enterprise, ordered by login.
    pub fn enterprise_orgs(&self, slug: &str) -> (res: OrgListing)
        ensures
            res.slug() == slug@,
            res.page_size() == self.page_size(),
            1 <= res.page_size() <= 100,
            res.progress() == Progress::<Seq<char>>::start(),
    {
        proof {
            use_type_invariant(self);
        }
        let res = OrgListing {
            enterprise: slug.to_owned(),
            batch_size: self.batch_size,
            cursor: None,
            logins: Vec::new(),
        };
        assert(res.progress().items =~= Seq::empty());
        res
    }

    /// Begins to list the repositories of an organization that pass the filter.
    pub fn org_snapshot(&self, login: &str) -> (res: RepoListing)
        ensures
            res.login() == login@,
            res.selection() == self.selection(),
            res.asks_for_topics() == self.asks_for_topics(),
            res.page_size() == self.page_size(),
            1 <= res.page_size() <= 100,
            res.progress() == Progress::<RepoNode>::start(),
    {
        proof {
            use_type_invariant(self);
        }
        RepoListing {
            organization: login.to_owned(),
            filter: self.filter,
            with_topics: self.with_topics,
            batch_size: self.batch_size,
            cursor: None,
            repositories: Vec::new(),
        }
    }
}

// ---------------------------------------------------------------------------------------------
// The organizations of an enterprise
// ---------------------------------------------------------------------------------------------

/// The login of an organization that could be read.
pub open spec fn readable_login(node: Option<OrgNode>) -> Option<Seq<char>> {
    match node {
        Some(node) => Some(node.login@),
        None => None,
    }
}

/// What a listing of organizations picks from a page.
pub open spec fn pick_login() -> spec_fn(Option<OrgNode>) -> Option<Seq<char>> {
    |node: Option<OrgNode>| readable_login(node)
}

/// A page of organizations; none if the enterprise is not visible.
pub open spec fn org_page(data: EnterpriseOrgsData) -> Option<Page<Option<OrgNode>>> {
    match data.enterprise {
        Some(e) => Some(
            Page { nodes: e.organizations.nodes@, next: next_page(e.organizations.page_info) },
        ),
        None => None,
    }
}

/// How far the listing of an enterprise's organizations has come.
#[derive(Debug)]
pub struct OrgListing {
    enterprise: String,
    batch_size: u32,
    cursor: Option<String>,
    logins: Vec<String>,
}

impl OrgListing {
    /// The enterprise whose organizations are listed.
    pub closed spec fn slug(self) -> Seq<char> {
        self.enterprise@
    }

    /// How many items a page may have.
    pub closed spec fn page_size(self) -> u32 {
        self.batch_size
    }

    /// The logins listed so far, and where the next page starts.
    pub closed spec fn progress(self) -> Progress<Seq<char>> {
        Progress { items: texts(self.logins@), cursor: opt_text(self.cursor) }
    }

    /// What is being done, for when the request fails.
    pub fn activity(&self) -> (res: String)
        ensures
            res@ == "listing organizations in enterprise `"@ + self.slug() + "`"@,
    {
        joined("listing organizations in enterprise `", self.enterprise.as_str(), "`")
    }

    /// The request for the next page.
    pub fn request(&self) -> (res: Request)
        ensures
            res@ == (RequestView {
                query: ENTERPRISE_ORGS@,
                variables: seq![
                    ("slug"@, ArgumentView::Text(self.slug())),
                    ("cursor"@, text_argument(self.progress().cursor)),
                    ("batchSize"@, ArgumentView::Number(self.page_size())),
                ],
            }),
    {
        let mut variables: Vec<(&'static str, Argument)> = Vec::new();
        variables.push(("slug", Argument::Text(self.enterprise.clone())));
        variables.push(("cursor", cursor_or_null(&self.cursor)));
        variables.push(("batchSize", Argument::Number(self.batch_size)));
        let res = Request { query: ENTERPRISE_ORGS, variables };
        assert(res@.variables =~= seq![
            ("slug"@, ArgumentView::Text(self.slug())),
            ("cursor"@, text_argument(self.progress().cursor)),
            ("batchSize"@, ArgumentView::Number(self.page_size())),
        ]);
        res
    }

    /// Takes the answer to the request.
    pub fn accept(self, data: EnterpriseOrgsData) -> (res: Result<
        Step<OrgListing, Vec<String>>,
        CollectError,
    >)
        ensures
            match self.progress().after(org_page(data), pick_login()) {
                Outcome::Invisible => res matches Err(CollectError::NoEnterprise(slug)) && slug@
                    == self.slug(),
                Outcome::More(progress) => res matches Ok(Step::More(next)) && next.slug()
                    == self.slug() && next.page_size() == self.page_size() && next.progress()
                    == progress,
                Outcome::Done(logins) => res matches Ok(Step::Done(all)) && texts(all@) == logins,
            },
    {
        let OrgListing { enterprise, batch_size, cursor: _, logins } = self;
        match data.enterprise {
            None => Err(CollectError::NoEnterprise(enterprise)),
            Some(e) => {
                let logins = with_logins(logins, e.organizations.nodes);
                match next_cursor(e.organizations.page_info) {
                    Some(cursor) => Ok(
                        Step::More(
                            OrgListing { enterprise, batch_size, cursor: Some(cursor), logins },
                        ),
                    ),
                    None => Ok(Step::Done(logins)),
                }
            },
        }
    }
}

fn with_logins(logins: Vec<String>, nodes: Vec<Option<OrgNode>>) -> (res: Vec<String>)
    ensures
        texts(res@) == texts(logins@) + nodes@.filter_map(pick_login()),
{
    let ghost start = texts(logins@);
    let ghost all = nodes@;
    let mut logins = logins;
    for node in it: nodes.into_iter()
        invariant
            it.seq() == all,
            texts(logins@) == start + all.take(it.index()).filter_map(pick_login()),
    {
        let ghost before = logins@;
        proof {
            all.lemma_filter_map_take_succ(pick_login(), it.index());
        }
        if let Some(node) = node {
            logins.push(node.login);
            assert(texts(logins@) =~= texts(before).push(node.login@));
        }
        assert(texts(logins@) =~= start + all.take(it.index() + 1).filter_map(pick_login()));
    }
    assert(all.take(all.len() as int) == all);
    logins
}

// ---------------------------------------------------------------------------------------------
// The repositories of an organization
// ---------------------------------------------------------------------------------------------

/// A repository that could be read and that the filter admits.
pub open spec fn admitted(filter: Filter, node: Option<RepoNode>) -> Option<RepoNode> {
    match node {
        Some(repo) => if filter.admits(repo) {
            Some(repo)
        } else {
            None
        },
        None => None,
    }
}

/// What a listing of repositories picks from a page.
pub open spec fn pick_repository(filter: Filter) -> spec_fn(Option<RepoNode>) -> Option<RepoNode> {
    |node: Option<RepoNode>| admitted(filter, node)
}

/// A page of repositories; none if the organization is not visible.
pub open spec fn repo_page(data: OrgReposData) -> Option<Page<Option<RepoNode>>> {
    match data.organization {
        Some(o) => Some(
            Page { nodes: o.repositories.nodes@, next: next_page(o.repositories.page_info) },
        ),
        None => None,
    }
}

/// How far the listing of an organization's repositories has come.
#[derive(Debug)]
pub struct RepoListing {
    organization: String,
    filter: Filter,
    with_topics: bool,
    batch_size: u32,
    cursor: Option<String>,
    repositories: Vec<RepoNode>,
}

impl RepoListing {
    /// The organization whose repositories are listed.
    pub closed spec fn login(self) -> Seq<char> {
        self.organization@
    }

    /// Which repositories are listed.
    pub closed spec fn selection(self) -> Filter {
        self.filter
    }

    /// Whether topics are asked for.
    pub closed spec fn asks_for_topics(self) -> bool {
        self.with_topics
    }

    /// How many items a page may have.
    pub closed spec fn page_size(self) -> u32 {
        self.batch_size
    }

    /// The repositories listed so far, and where the next page starts.
    pub closed spec fn progress(self) -> Progress<RepoNode> {
        Progress { items: self.repositories@, cursor: opt_text(self.cursor) }
    }

    /// What is being done, for when the request fails.
    pub fn activity(&self) -> (res: String)
        ensures
            res@ == "listing repositories of `"@ + self.login() + "`"@,
    {
        joined("listing repositories of `", self.organization.as_str(), "`")
    }

    /// The request for the next page.
    pub fn request(&self) -> (res: Request)
        ensures
            res@ == (RequestView {
                query: ORG_REPOS@,
                variables: seq![
                    ("login"@, ArgumentView::Text(self.login())),
                    ("cursor"@, text_argument(self.progress().cursor)),
                    ("batchSize"@, ArgumentView::Number(self.page_size())),
                    ("visibility"@, text_argument(self.selection().visibility.required())),
                    ("isArchived"@, flag_argument(self.selection().archived.required())),
                    ("isFork"@, flag_argument(self.selection().forks.required())),
                    ("withTopics"@, ArgumentView::Flag(self.asks_for_topics())),
                ],
            }),
    {
        let mut variables: Vec<(&'static str, Argument)> = Vec::new();
        variables.push(("login", Argument::Text(self.organization.clone())));
        variables.push(("cursor", cursor_or_null(&self.cursor)));
        variables.push(("batchSize", Argument::Number(self.batch_size)));
        variables.push(("visibility", text_or_null(self.filter.visibility_arg())));
        variables.push(("isArchived", flag_or_null(self.filter.is_archived_arg())));
        variables.push(("isFork", flag_or_null(self.filter.is_fork_arg())));
        variables.push(("withTopics", Argument::Flag(self.with_topics)));
        let res = Request { query: ORG_REPOS, variables };
        assert(res@.variables =~= seq![
            ("login"@, ArgumentView::Text(self.login())),
            ("cursor"@, text_argument(self.progress().cursor)),
            ("batchSize"@, ArgumentView::Number(self.page_size())),
            ("visibility"@, text_argument(self.selection().visibility.required())),
            ("isArchived"@, flag_argument(self.selection().archived.required())),
            ("isFork"@, flag_argument(self.selection().forks.required())),
            ("withTopics"@, ArgumentView::Flag(self.asks_for_topics())),
        ]);
        res
    }

    /// Takes the answer to the request. What comes back is checked against the filter once more.
    pub fn accept(self, data: OrgReposData) -> (res: Result<
        Step<RepoListing, OrgSnapshot>,
        CollectError,
    >)
        ensures
            match self.progress().after(repo_page(data), pick_repository(self.selection())) {
                Outcome::Invisible => res matches Err(CollectError::NoOrganization(login))
                    && login@ == self.login(),
                Outcome::More(progress) => res matches Ok(Step::More(next)) && next.login()
                    == self.login() && next.selection() == self.selection()
                    && next.asks_for_topics() == self.asks_for_topics() && next.page_size()
                    == self.page_size() && next.progress() == progress,
                Outcome::Done(repositories) => res matches Ok(Step::Done(snapshot))
                    && snapshot.login@ == self.login() && snapshot.repositories@ == repositories,
            },
    {
        let RepoListing {
            organization,
            filter,
            with_topics,
            batch_size,
            cursor: _,
            repositories,
        } = self;
        match data.organization {
            None => Err(CollectError::NoOrganization(organization)),
            Some(o) => {
                let repositories = with_repositories(&filter, repositories, o.repositories.nodes);
                match next_cursor(o.repositories.page_info) {
                    Some(cursor) => Ok(
                        Step::More(
                            RepoListing {
                                organization,
                                filter,
                                with_topics,
                                batch_size,
                                cursor: Some(cursor),
                                repositories,
                            },
                        ),
                    ),
                    None => Ok(Step::Done(OrgSnapshot { login: organization, repositories })),
                }
            },
        }
    }
}

fn with_repositories(
    filter: &Filter,
    repositories: Vec<RepoNode>,
    nodes: Vec<Option<RepoNode>>,
) -> (res: Vec<RepoNode>)
    ensures
        res@ == repositories@ + nodes@.filter_map(pick_repository(*filter)),
{
    let ghost start = repositories@;
    let ghost all = nodes@;
    let mut repositories = repositories;
    for node in it: nodes.into_iter()
        invariant
            it.seq() == all,
            repositories@ == start + all.take(it.index()).filter_map(pick_repository(*filter)),
    {
        proof {
            all.lemma_filter_map_take_succ(pick_repository(*filter), it.index());
        }
        if let Some(repo) = node {
            if filter.keep(&repo) {
                repositories.push(repo);
            }
        }
        assert(repositories@ =~= start + all.take(it.index() + 1).filter_map(
            pick_repository(*filter),
        ));
    }
    assert(all.take(all.len() as int) == all);
    repositories
}

proof fn lemma_only_admitted(filter: Filter, nodes: Seq<Option<RepoNode>>)
    ensures
        forall|i: int|
            0 <= i < nodes.filter_map(pick_repository(filter)).len() ==> filter.admits(
                #[trigger] nodes.filter_map(pick_repository(filter))[i],
            ),
    decreases nodes.len(),
{
    let picked = nodes.filter_map(pick_repository(filter));
    if nodes.len() > 0 {
        let before = nodes.drop_last().filter_map(pick_repository(filter));
        lemma_only_admitted(filter, nodes.drop_last());
        assert forall|i: int| 0 <= i < picked.len() implies filter.admits(#[trigger] picked[i]) by {
            if i < before.len() {
                assert(picked[i] == before[i]);
            }
        }
    }
}

/// Whatever a server answers, only repositories that the filter admits are listed.
pub proof fn only_admitted_repositories_are_listed(
    filter: Filter,
    from: Progress<RepoNode>,
    answers: Seq<Option<Page<Option<RepoNode>>>>,
)
    requires
        forall|i: int| 0 <= i < from.items.len() ==> filter.admits(#[trigger] from.items[i]),
    ensures
        match run(from, answers, pick_repository(filter)) {
            Outcome::Invisible => true,
            Outcome::More(progress) => forall|i: int|
                0 <= i < progress.items.len() ==> filter.admits(#[trigger] progress.items[i]),
            Outcome::Done(repositories) => forall|i: int|
                0 <= i < repositories.len() ==> filter.admits(#[trigger] repositories[i]),
        },
    decreases answers.len(),
{
    if answers.len() > 0 {
        if let Some(page) = answers[0] {
            lemma_only_admitted(filter, page.nodes);
            let items = from.items + page.nodes.filter_map(pick_repository(filter));
            assert forall|i: int| 0 <= i < items.len() implies filter.admits(#[trigger] items[i]) by {
                if i < from.items.len() {
                    assert(items[i] == from.items[i]);
                } else {
                    assert(items[i] == page.nodes.filter_map(pick_repository(filter))[i
                        - from.items.len()]);
                }
            }
            if page.next is Some {
                let progress = Progress { items, cursor: page.next };
                only_admitted_repositories_are_listed(filter, progress, answers.drop_first());
            }
        }
    }
}

// ---------------------------------------------------------------------------------------------
// What a filter admits
// ---------------------------------------------------------------------------------------------

/// A filter that sends no argument admits every repository.
pub proof fn an_open_filter_admits_everything(repo: RepoNode)
    ensures
        (Filter {
            visibility: Visibility::All,
            archived: Archived::Include,
            forks: Forks::Include,
        }).admits(repo),
{
}

/// Of the repositories that a filter admits archived or not, `Only` admits those that `Exclude`
/// does not.
pub proof fn only_archived_is_the_opposite_of_none_archived(filter: Filter, repo: RepoNode)
    requires
        (Filter { archived: Archived::Include, ..filter }).admits(repo),
    ensures
        (Filter { archived: Archived::Only, ..filter }).admits(repo) == !(Filter {
            archived: Archived::Exclude,
            ..filter
        }).admits(repo),
{
}

/// Of the repositories that a filter admits forked or not, `Only` admits those that `Exclude` does
/// not.
pub proof fn only_forks_is_the_opposite_of_no_forks(filter: Filter, repo: RepoNode)
    requires
        (Filter { forks: Forks::Include, ..filter }).admits(repo),
    ensures
        (Filter { forks: Forks::Only, ..filter }).admits(repo) == !(Filter {
            forks: Forks::Exclude,
            ..filter
        }).admits(repo),
{
}

/// A repository of which nothing can be read but its name is left out only where it would have to
/// be archived or a fork.
pub proof fn unreadable_fields_do_not_drop_a_repository(filter: Filter, repo: RepoNode)
    requires
        repo.visibility is None,
        repo.is_archived is None,
        repo.is_fork is None,
    ensures
        filter.admits(repo) == (filter.archived != Archived::Only && filter.forks != Forks::Only),
{
}

} // verus!
