//! What a filter admits, what it sends, and what a listing comes to.

use vstd::prelude::*;
use crate::collect::{
    flag_argument, org_page, pick_login, pick_repository, repo_page, text_argument, Argument,
    ArgumentView, Filter, Request, Visibility, ENTERPRISE_ORGS, ORG_REPOS,
};
use crate::model::{EnterpriseOrgsData, OrgNode, OrgReposData, RepoNode};
use crate::paging::{run, Outcome, Page, Progress};
use crate::text::{ascii_lowered, stands_at};

verus! {

// ---------------------------------------------------------------------------------------------
// What a filter admits
// ---------------------------------------------------------------------------------------------

/// A repository whose visibility reads like `word`, in whatever case.
pub open spec fn reads_as(repo: RepoNode, word: Seq<char>) -> bool {
    repo.visibility matches Some(v) && ascii_lowered(v@) == word
}

/// Whether the archived condition of a filter lets a repository through: one that is archived
/// unless archived ones are excluded, and one that is not unless only archived ones are wanted.
pub open spec fn archived_lets_through(filter: Filter, repo: RepoNode) -> bool {
    if repo.is_archived == Some(true) {
        !(filter.archived is Exclude)
    } else {
        !(filter.archived is Only)
    }
}

/// Whether the fork condition of a filter lets a repository through: a fork unless forks are
/// excluded, and any other unless only forks are wanted.
pub open spec fn forks_let_through(filter: Filter, repo: RepoNode) -> bool {
    if repo.is_fork == Some(true) {
        !(filter.forks is Exclude)
    } else {
        !(filter.forks is Only)
    }
}

/// The words for the three visibilities, and that they differ.
proof fn lemma_words()
    ensures
        ascii_lowered("PUBLIC"@) == "public"@,
        ascii_lowered("PRIVATE"@) == "private"@,
        ascii_lowered("INTERNAL"@) == "internal"@,
        "public"@ != "private"@,
        "public"@ != "internal"@,
        "private"@ != "internal"@,
        "all"@ != "public"@,
        "all"@ != "private"@,
        "all"@ != "internal"@,
{
    reveal_strlit("PUBLIC");
    reveal_strlit("PRIVATE");
    reveal_strlit("INTERNAL");
    reveal_strlit("public");
    reveal_strlit("private");
    reveal_strlit("internal");
    reveal_strlit("all");
    assert(ascii_lowered("PUBLIC"@) =~= "public"@);
    assert(ascii_lowered("PRIVATE"@) =~= "private"@);
    assert(ascii_lowered("INTERNAL"@) =~= "internal"@);
    assert("public"@.len() == 6 && "private"@.len() == 7 && "internal"@.len() == 8);
    assert("all"@.len() == 3);
}

/// A public repository that the other conditions let through is admitted by `Public` and `All`, and
/// by no other visibility.
pub proof fn public_repositories_are_admitted_as_public(filter: Filter, repo: RepoNode)
    requires
        reads_as(repo, "public"@),
        archived_lets_through(filter, repo),
        forks_let_through(filter, repo),
    ensures
        filter.admits(repo) <==> filter.visibility is Public || filter.visibility is All,
{
    lemma_words();
}

/// A private repository that the other conditions let through is admitted by `Private` and `All`,
/// and by no other visibility.
pub proof fn private_repositories_are_admitted_as_private(filter: Filter, repo: RepoNode)
    requires
        reads_as(repo, "private"@),
        archived_lets_through(filter, repo),
        forks_let_through(filter, repo),
    ensures
        filter.admits(repo) <==> filter.visibility is Private || filter.visibility is All,
{
    lemma_words();
}

/// An internal repository that the other conditions let through is admitted by `Internal` and
/// `All`, and by no other visibility.
pub proof fn internal_repositories_are_admitted_as_internal(filter: Filter, repo: RepoNode)
    requires
        reads_as(repo, "internal"@),
        archived_lets_through(filter, repo),
        forks_let_through(filter, repo),
    ensures
        filter.admits(repo) <==> filter.visibility is Internal || filter.visibility is All,
{
    lemma_words();
}

/// A repository whose visibility reads like none of the three is admitted by `All` only, and one
/// whose visibility could not be read is admitted by every visibility.
pub proof fn other_visibilities_are_admitted_by_all_only(filter: Filter, repo: RepoNode)
    requires
        !reads_as(repo, "public"@),
        !reads_as(repo, "private"@),
        !reads_as(repo, "internal"@),
        archived_lets_through(filter, repo),
        forks_let_through(filter, repo),
    ensures
        filter.admits(repo) <==> repo.visibility is None || filter.visibility is All,
{
    lemma_words();
}

/// A filter admits nothing that its archived condition or its fork condition does not let through.
pub proof fn every_condition_has_to_let_through(filter: Filter, repo: RepoNode)
    requires
        filter.admits(repo),
    ensures
        archived_lets_through(filter, repo),
        forks_let_through(filter, repo),
{
}

/// Of two repositories that agree in visibility, archived state and fork state, a filter admits
/// both or neither: nothing else counts.
pub proof fn nothing_else_counts(filter: Filter, a: RepoNode, b: RepoNode)
    requires
        match (a.visibility, b.visibility) {
            (Some(v), Some(w)) => ascii_lowered(v@) == ascii_lowered(w@),
            (None, None) => true,
            _ => false,
        },
        (a.is_archived == Some(true)) == (b.is_archived == Some(true)),
        (a.is_fork == Some(true)) == (b.is_fork == Some(true)),
    ensures
        filter.admits(a) == filter.admits(b),
{
}

// ---------------------------------------------------------------------------------------------
// What a filter sends and records
// ---------------------------------------------------------------------------------------------

/// The visibility that a filter sends is the word that it records, in capitals; it sends none
/// exactly if it records that all are wanted.
pub proof fn the_visibility_sent_is_the_one_recorded(filter: Filter)
    ensures
        match filter.visibility.required() {
            Some(sent) => ascii_lowered(sent) == filter.words().visibility && forall|i: int|
                0 <= i < sent.len() ==> 'A' <= #[trigger] sent[i] <= 'Z',
            None => filter.words().visibility == "all"@,
        },
        filter.visibility is All <==> filter.visibility.required() is None,
        filter.words().visibility == "public"@ <==> filter.visibility is Public,
        filter.words().visibility == "private"@ <==> filter.visibility is Private,
        filter.words().visibility == "internal"@ <==> filter.visibility is Internal,
        filter.words().visibility == "all"@ <==> filter.visibility is All,
{
    lemma_words();
    reveal_strlit("PUBLIC");
    reveal_strlit("PRIVATE");
    reveal_strlit("INTERNAL");
}

/// A repository that has the visibility that a filter sends, and the flags that it sends, is
/// admitted, and no repository is admitted that has another flag or, where it could be read,
/// another visibility: what is checked is what was asked for.
pub proof fn what_is_checked_is_what_was_asked_for(filter: Filter, repo: RepoNode)
    ensures
        filter.admits(repo) <==> {
            &&& match (filter.visibility.required(), repo.visibility) {
                (Some(sent), Some(v)) => ascii_lowered(v@) == ascii_lowered(sent),
                _ => true,
            }
            &&& match filter.archived.required() {
                Some(sent) => repo.is_archived == Some(true) <==> sent,
                None => true,
            }
            &&& match filter.forks.required() {
                Some(sent) => repo.is_fork == Some(true) <==> sent,
                None => true,
            }
        },
{
}

/// The archived state that a filter sends is the one that its word stands for.
pub proof fn the_archived_state_sent_is_the_one_recorded(filter: Filter)
    ensures
        filter.archived is Exclude <==> filter.words().archived == "exclude"@,
        filter.archived is Include <==> filter.words().archived == "include"@,
        filter.archived is Only <==> filter.words().archived == "only"@,
        filter.archived.required() == Some(false) <==> filter.archived is Exclude,
        filter.archived.required() == Some(true) <==> filter.archived is Only,
        filter.archived.required() is None <==> filter.archived is Include,
{
    reveal_strlit("exclude");
    reveal_strlit("include");
    reveal_strlit("only");
    assert("exclude"@[0] == 'e' && "include"@[0] == 'i' && "only"@[0] == 'o');
}

/// The fork state that a filter sends is the one that its word stands for.
pub proof fn the_fork_state_sent_is_the_one_recorded(filter: Filter)
    ensures
        filter.forks is Exclude <==> filter.words().forks == "exclude"@,
        filter.forks is Include <==> filter.words().forks == "include"@,
        filter.forks is Only <==> filter.words().forks == "only"@,
        filter.forks.required() == Some(false) <==> filter.forks is Exclude,
        filter.forks.required() == Some(true) <==> filter.forks is Only,
        filter.forks.required() is None <==> filter.forks is Include,
{
    reveal_strlit("exclude");
    reveal_strlit("include");
    reveal_strlit("only");
    assert("exclude"@[0] == 'e' && "include"@[0] == 'i' && "only"@[0] == 'o');
}

/// What is sent for an argument tells what it was: different values are sent differently, and
/// nothing but the lack of a value is sent as null.
pub proof fn arguments_tell_values_apart(
    a: Option<Seq<char>>,
    b: Option<Seq<char>>,
    x: Option<bool>,
    y: Option<bool>,
)
    ensures
        text_argument(a) == text_argument(b) ==> a == b,
        flag_argument(x) == flag_argument(y) ==> x == y,
        text_argument(a) is Null <==> a is None,
        flag_argument(x) is Null <==> x is None,
        a matches Some(s) ==> text_argument(a) == ArgumentView::Text(s),
        x matches Some(f) ==> flag_argument(x) == ArgumentView::Flag(f),
{
}

/// What is said of a request is said of its query and of each of its variables, in order, and what
/// is said of an argument is said of the value in it.
pub proof fn a_request_is_seen_as_it_is(request: Request, b: bool, n: u32, s: String)
    ensures
        request@.query == request.query@,
        request@.variables.len() == request.variables@.len(),
        forall|i: int|
            0 <= i < request.variables@.len() ==> (#[trigger] request@.variables[i]).0
                == request.variables@[i].0@ && request@.variables[i].1
                == request.variables@[i].1@,
        Argument::Null@ == ArgumentView::Null,
        Argument::Flag(b)@ == ArgumentView::Flag(b),
        Argument::Number(n)@ == ArgumentView::Number(n),
        Argument::Text(s)@ == ArgumentView::Text(s@),
{
}

// ---------------------------------------------------------------------------------------------
// What the queries ask for
// ---------------------------------------------------------------------------------------------

/// A query with these words in it.
pub open spec fn asks_for(query: Seq<char>, words: Seq<char>) -> bool {
    exists|i: int| #[trigger] stands_at(query, words, i)
}

/// The query for repositories asks for every field that a repository is reported with, topics only
/// where they are wanted.
pub proof fn every_field_of_a_repository_is_asked_for()
    ensures
        asks_for(ORG_REPOS@, "\n        name\n"@),
        asks_for(ORG_REPOS@, "\n        nameWithOwner\n"@),
        asks_for(ORG_REPOS@, "\n        url\n"@),
        asks_for(ORG_REPOS@, "\n        description\n"@),
        asks_for(ORG_REPOS@, "\n        visibility\n"@),
        asks_for(ORG_REPOS@, "\n        isArchived\n"@),
        asks_for(ORG_REPOS@, "\n        isFork\n"@),
        asks_for(ORG_REPOS@, "\n        isTemplate\n"@),
        asks_for(ORG_REPOS@, "\n        isEmpty\n"@),
        asks_for(ORG_REPOS@, "\n        stargazerCount\n"@),
        asks_for(ORG_REPOS@, "\n        forkCount\n"@),
        asks_for(ORG_REPOS@, "\n        createdAt\n"@),
        asks_for(ORG_REPOS@, "\n        updatedAt\n"@),
        asks_for(ORG_REPOS@, "\n        pushedAt\n"@),
        asks_for(ORG_REPOS@, "defaultBranchRef { name }"@),
        asks_for(ORG_REPOS@, "primaryLanguage { name }"@),
        asks_for(ORG_REPOS@, "licenseInfo { spdxId name }"@),
        asks_for(ORG_REPOS@, "repositoryTopics(first: 20) @include(if: $withTopics)"@),
        asks_for(ORG_REPOS@, "nodes { topic { name } }"@),
{
    reveal_strlit("
query(
  $login: String!
  $cursor: String
  $batchSize: Int!
  $visibility: RepositoryVisibility
  $isArchived: Boolean
  $isFork: Boolean
  $withTopics: Boolean!
) {
  organization(login: $login) {
    repositories(
      first: $batchSize
      after: $cursor
      orderBy: {field: NAME, direction: ASC}
      ownerAffiliations: [OWNER]
      visibility: $visibility
      isArchived: $isArchived
      isFork: $isFork
    ) {
      pageInfo { hasNextPage endCursor }
      nodes {
        name
        nameWithOwner
        url
        description
        visibility
        isArchived
        isFork
        isTemplate
        isEmpty
        stargazerCount
        forkCount
        createdAt
        updatedAt
        pushedAt
        defaultBranchRef { name }
        primaryLanguage { name }
        licenseInfo { spdxId name }
        repositoryTopics(first: 20) @include(if: $withTopics) {
          nodes { topic { name } }
        }
      }
    }
  }
}
");
    let query = ORG_REPOS@;
    reveal_strlit("\n        name\n");
    assert(query.subrange(486, 500) =~= "\n        name\n"@);
    assert(stands_at(query, "\n        name\n"@, 486));
    reveal_strlit("\n        nameWithOwner\n");
    assert(query.subrange(499, 522) =~= "\n        nameWithOwner\n"@);
    assert(stands_at(query, "\n        nameWithOwner\n"@, 499));
    reveal_strlit("\n        url\n");
    assert(query.subrange(521, 534) =~= "\n        url\n"@);
    assert(stands_at(query, "\n        url\n"@, 521));
    reveal_strlit("\n        description\n");
    assert(query.subrange(533, 554) =~= "\n        description\n"@);
    assert(stands_at(query, "\n        description\n"@, 533));
    reveal_strlit("\n        visibility\n");
    assert(query.subrange(553, 573) =~= "\n        visibility\n"@);
    assert(stands_at(query, "\n        visibility\n"@, 553));
    reveal_strlit("\n        isArchived\n");
    assert(query.subrange(572, 592) =~= "\n        isArchived\n"@);
    assert(stands_at(query, "\n        isArchived\n"@, 572));
    reveal_strlit("\n        isFork\n");
    assert(query.subrange(591, 607) =~= "\n        isFork\n"@);
    assert(stands_at(query, "\n        isFork\n"@, 591));
    reveal_strlit("\n        isTemplate\n");
    assert(query.subrange(606, 626) =~= "\n        isTemplate\n"@);
    assert(stands_at(query, "\n        isTemplate\n"@, 606));
    reveal_strlit("\n        isEmpty\n");
    assert(query.subrange(625, 642) =~= "\n        isEmpty\n"@);
    assert(stands_at(query, "\n        isEmpty\n"@, 625));
    reveal_strlit("\n        stargazerCount\n");
    assert(query.subrange(641, 665) =~= "\n        stargazerCount\n"@);
    assert(stands_at(query, "\n        stargazerCount\n"@, 641));
    reveal_strlit("\n        forkCount\n");
    assert(query.subrange(664, 683) =~= "\n        forkCount\n"@);
    assert(stands_at(query, "\n        forkCount\n"@, 664));
    reveal_strlit("\n        createdAt\n");
    assert(query.subrange(682, 701) =~= "\n        createdAt\n"@);
    assert(stands_at(query, "\n        createdAt\n"@, 682));
    reveal_strlit("\n        updatedAt\n");
    assert(query.subrange(700, 719) =~= "\n        updatedAt\n"@);
    assert(stands_at(query, "\n        updatedAt\n"@, 700));
    reveal_strlit("\n        pushedAt\n");
    assert(query.subrange(718, 736) =~= "\n        pushedAt\n"@);
    assert(stands_at(query, "\n        pushedAt\n"@, 718));
    reveal_strlit("defaultBranchRef { name }");
    assert(query.subrange(744, 769) =~= "defaultBranchRef { name }"@);
    assert(stands_at(query, "defaultBranchRef { name }"@, 744));
    reveal_strlit("primaryLanguage { name }");
    assert(query.subrange(778, 802) =~= "primaryLanguage { name }"@);
    assert(stands_at(query, "primaryLanguage { name }"@, 778));
    reveal_strlit("licenseInfo { spdxId name }");
    assert(query.subrange(811, 838) =~= "licenseInfo { spdxId name }"@);
    assert(stands_at(query, "licenseInfo { spdxId name }"@, 811));
    reveal_strlit("repositoryTopics(first: 20) @include(if: $withTopics)");
    assert(query.subrange(847, 900) =~= "repositoryTopics(first: 20) @include(if: $withTopics)"@);
    assert(stands_at(query, "repositoryTopics(first: 20) @include(if: $withTopics)"@, 847));
    reveal_strlit("nodes { topic { name } }");
    assert(query.subrange(913, 937) =~= "nodes { topic { name } }"@);
    assert(stands_at(query, "nodes { topic { name } }"@, 913));
}

/// The query for repositories asks for those that an organization owns, by name, page by page, and
/// hands each argument of the filter on under its own name.
pub proof fn repositories_are_asked_for_as_filtered()
    ensures
        asks_for(ORG_REPOS@, "organization(login: $login)"@),
        asks_for(ORG_REPOS@, "first: $batchSize"@),
        asks_for(ORG_REPOS@, "after: $cursor"@),
        asks_for(ORG_REPOS@, "orderBy: {field: NAME, direction: ASC}"@),
        asks_for(ORG_REPOS@, "ownerAffiliations: [OWNER]"@),
        asks_for(ORG_REPOS@, "\n      visibility: $visibility\n"@),
        asks_for(ORG_REPOS@, "isArchived: $isArchived"@),
        asks_for(ORG_REPOS@, "isFork: $isFork"@),
        asks_for(ORG_REPOS@, "pageInfo { hasNextPage endCursor }"@),
{
    reveal_strlit("
query(
  $login: String!
  $cursor: String
  $batchSize: Int!
  $visibility: RepositoryVisibility
  $isArchived: Boolean
  $isFork: Boolean
  $withTopics: Boolean!
) {
  organization(login: $login) {
    repositories(
      first: $batchSize
      after: $cursor
      orderBy: {field: NAME, direction: ASC}
      ownerAffiliations: [OWNER]
      visibility: $visibility
      isArchived: $isArchived
      isFork: $isFork
    ) {
      pageInfo { hasNextPage endCursor }
      nodes {
        name
        nameWithOwner
        url
        description
        visibility
        isArchived
        isFork
        isTemplate
        isEmpty
        stargazerCount
        forkCount
        createdAt
        updatedAt
        pushedAt
        defaultBranchRef { name }
        primaryLanguage { name }
        licenseInfo { spdxId name }
        repositoryTopics(first: 20) @include(if: $withTopics) {
          nodes { topic { name } }
        }
      }
    }
  }
}
");
    let query = ORG_REPOS@;
    reveal_strlit("organization(login: $login)");
    assert(query.subrange(171, 198) =~= "organization(login: $login)"@);
    assert(stands_at(query, "organization(login: $login)"@, 171));
    reveal_strlit("first: $batchSize");
    assert(query.subrange(225, 242) =~= "first: $batchSize"@);
    assert(stands_at(query, "first: $batchSize"@, 225));
    reveal_strlit("after: $cursor");
    assert(query.subrange(249, 263) =~= "after: $cursor"@);
    assert(stands_at(query, "after: $cursor"@, 249));
    reveal_strlit("orderBy: {field: NAME, direction: ASC}");
    assert(query.subrange(270, 308) =~= "orderBy: {field: NAME, direction: ASC}"@);
    assert(stands_at(query, "orderBy: {field: NAME, direction: ASC}"@, 270));
    reveal_strlit("ownerAffiliations: [OWNER]");
    assert(query.subrange(315, 341) =~= "ownerAffiliations: [OWNER]"@);
    assert(stands_at(query, "ownerAffiliations: [OWNER]"@, 315));
    reveal_strlit("\n      visibility: $visibility\n");
    assert(query.subrange(341, 372) =~= "\n      visibility: $visibility\n"@);
    assert(stands_at(query, "\n      visibility: $visibility\n"@, 341));
    reveal_strlit("isArchived: $isArchived");
    assert(query.subrange(378, 401) =~= "isArchived: $isArchived"@);
    assert(stands_at(query, "isArchived: $isArchived"@, 378));
    reveal_strlit("isFork: $isFork");
    assert(query.subrange(408, 423) =~= "isFork: $isFork"@);
    assert(stands_at(query, "isFork: $isFork"@, 408));
    reveal_strlit("pageInfo { hasNextPage endCursor }");
    assert(query.subrange(438, 472) =~= "pageInfo { hasNextPage endCursor }"@);
    assert(stands_at(query, "pageInfo { hasNextPage endCursor }"@, 438));
}

/// The query for organizations asks for those of an enterprise, by login, page by page.
pub proof fn organizations_are_asked_for_by_login()
    ensures
        asks_for(ENTERPRISE_ORGS@, "enterprise(slug: $slug)"@),
        asks_for(ENTERPRISE_ORGS@, "first: $batchSize"@),
        asks_for(ENTERPRISE_ORGS@, "after: $cursor"@),
        asks_for(ENTERPRISE_ORGS@, "orderBy: {field: LOGIN, direction: ASC}"@),
        asks_for(ENTERPRISE_ORGS@, "pageInfo { hasNextPage endCursor }"@),
        asks_for(ENTERPRISE_ORGS@, "nodes { login }"@),
{
    reveal_strlit("
query($slug: String!, $cursor: String, $batchSize: Int!) {
  enterprise(slug: $slug) {
    organizations(first: $batchSize, after: $cursor, orderBy: {field: LOGIN, direction: ASC}) {
      pageInfo { hasNextPage endCursor }
      nodes { login }
    }
  }
}
");
    let query = ENTERPRISE_ORGS@;
    reveal_strlit("enterprise(slug: $slug)");
    assert(query.subrange(62, 85) =~= "enterprise(slug: $slug)"@);
    assert(stands_at(query, "enterprise(slug: $slug)"@, 62));
    reveal_strlit("first: $batchSize");
    assert(query.subrange(106, 123) =~= "first: $batchSize"@);
    assert(stands_at(query, "first: $batchSize"@, 106));
    reveal_strlit("after: $cursor");
    assert(query.subrange(125, 139) =~= "after: $cursor"@);
    assert(stands_at(query, "after: $cursor"@, 125));
    reveal_strlit("orderBy: {field: LOGIN, direction: ASC}");
    assert(query.subrange(141, 180) =~= "orderBy: {field: LOGIN, direction: ASC}"@);
    assert(stands_at(query, "orderBy: {field: LOGIN, direction: ASC}"@, 141));
    reveal_strlit("pageInfo { hasNextPage endCursor }");
    assert(query.subrange(190, 224) =~= "pageInfo { hasNextPage endCursor }"@);
    assert(stands_at(query, "pageInfo { hasNextPage endCursor }"@, 190));
    reveal_strlit("nodes { login }");
    assert(query.subrange(231, 246) =~= "nodes { login }"@);
    assert(stands_at(query, "nodes { login }"@, 231));
}

// ---------------------------------------------------------------------------------------------
// What a listing comes to
// ---------------------------------------------------------------------------------------------

/// The logins of the organizations of a page that could be read.
pub open spec fn logins_in(nodes: Seq<Option<OrgNode>>) -> Seq<Seq<char>>
    decreases nodes.len(),
{
    if nodes.len() == 0 {
        Seq::empty()
    } else {
        let before = logins_in(nodes.drop_last());
        match nodes.last() {
            Some(node) => before.push(node.login@),
            None => before,
        }
    }
}

/// The repositories of a page that could be read and that the conditions of a filter let through.
pub open spec fn repositories_in(filter: Filter, nodes: Seq<Option<RepoNode>>) -> Seq<RepoNode>
    decreases nodes.len(),
{
    if nodes.len() == 0 {
        Seq::empty()
    } else {
        let before = repositories_in(filter, nodes.drop_last());
        match nodes.last() {
            Some(repo) => if wanted(filter, repo) {
                before.push(repo)
            } else {
                before
            },
            None => before,
        }
    }
}

/// A repository that a filter is for: all of its conditions let it through.
pub open spec fn wanted(filter: Filter, repo: RepoNode) -> bool {
    &&& archived_lets_through(filter, repo)
    &&& forks_let_through(filter, repo)
    &&& match filter.visibility {
        Visibility::Public => repo.visibility is None || reads_as(repo, "public"@),
        Visibility::Private => repo.visibility is None || reads_as(repo, "private"@),
        Visibility::Internal => repo.visibility is None || reads_as(repo, "internal"@),
        Visibility::All => true,
    }
}

/// A filter admits exactly what it is for.
pub proof fn a_filter_admits_what_is_wanted(filter: Filter, repo: RepoNode)
    ensures
        filter.admits(repo) <==> wanted(filter, repo),
{
    lemma_words();
}

proof fn lemma_picked_logins(nodes: Seq<Option<OrgNode>>)
    ensures
        nodes.filter_map(pick_login()) == logins_in(nodes),
    decreases nodes.len(),
{
    if nodes.len() > 0 {
        lemma_picked_logins(nodes.drop_last());
    }
    assert(nodes.filter_map(pick_login()) =~= logins_in(nodes));
}

proof fn lemma_picked_repositories(filter: Filter, nodes: Seq<Option<RepoNode>>)
    ensures
        nodes.filter_map(pick_repository(filter)) == repositories_in(filter, nodes),
    decreases nodes.len(),
{
    if nodes.len() > 0 {
        lemma_picked_repositories(filter, nodes.drop_last());
        if let Some(repo) = nodes.last() {
            a_filter_admits_what_is_wanted(filter, repo);
        }
    }
    assert(nodes.filter_map(pick_repository(filter)) =~= repositories_in(filter, nodes));
}

/// A listing of organizations is over after an answer exactly if the answer has no next page or no
/// cursor to it; otherwise it goes on from that cursor. Either way it has gained the organizations
/// of the page that could be read. It fails exactly if there is no enterprise in the answer.
pub proof fn a_listing_of_organizations_goes_on_while_there_are_pages(
    from: Progress<Seq<char>>,
    data: EnterpriseOrgsData,
)
    ensures
        match data.enterprise {
            None => from.after(org_page(data), pick_login()) is Invisible,
            Some(e) => {
                let info = e.organizations.page_info;
                let items = from.items + logins_in(e.organizations.nodes@);
                match from.after(org_page(data), pick_login()) {
                    Outcome::Invisible => false,
                    Outcome::More(p) => info.has_next_page && info.end_cursor is Some && p.cursor
                        == Some(info.end_cursor->0@) && p.items == items,
                    Outcome::Done(all) => !(info.has_next_page && info.end_cursor is Some) && all
                        == items,
                }
            },
        },
{
    if let Some(e) = data.enterprise {
        lemma_picked_logins(e.organizations.nodes@);
    }
}

/// A listing of repositories is over after an answer exactly if the answer has no next page or no
/// cursor to it; otherwise it goes on from that cursor. Either way it has gained the repositories
/// of the page that could be read and are wanted. It fails exactly if there is no organization in
/// the answer.
pub proof fn a_listing_of_repositories_goes_on_while_there_are_pages(
    filter: Filter,
    from: Progress<RepoNode>,
    data: OrgReposData,
)
    ensures
        match data.organization {
            None => from.after(repo_page(data), pick_repository(filter)) is Invisible,
            Some(o) => {
                let info = o.repositories.page_info;
                let items = from.items + repositories_in(filter, o.repositories.nodes@);
                match from.after(repo_page(data), pick_repository(filter)) {
                    Outcome::Invisible => false,
                    Outcome::More(p) => info.has_next_page && info.end_cursor is Some && p.cursor
                        == Some(info.end_cursor->0@) && p.items == items,
                    Outcome::Done(all) => !(info.has_next_page && info.end_cursor is Some) && all
                        == items,
                }
            },
        },
{
    if let Some(o) = data.organization {
        lemma_picked_repositories(filter, o.repositories.nodes@);
    }
}

/// Answers that list an enterprise in full.
pub open spec fn lists_enterprise(answers: Seq<EnterpriseOrgsData>) -> bool {
    &&& answers.len() > 0
    &&& forall|i: int|
        0 <= i < answers.len() ==> ((#[trigger] answers[i]).enterprise matches Some(e) && (
        e.organizations.page_info.has_next_page && e.organizations.page_info.end_cursor is Some
            <==> i < answers.len() - 1))
}

/// The logins in some answers, in order.
pub open spec fn all_logins(answers: Seq<EnterpriseOrgsData>) -> Seq<Seq<char>>
    decreases answers.len(),
{
    if answers.len() == 0 {
        Seq::empty()
    } else {
        logins_in(answers[0].enterprise->0.organizations.nodes@) + all_logins(answers.drop_first())
    }
}

/// Answers as the pages of a listing.
pub open spec fn org_pages(
    answers: Seq<EnterpriseOrgsData>,
) -> Seq<Option<Page<Option<OrgNode>>>> {
    answers.map_values(|d: EnterpriseOrgsData| org_page(d))
}

proof fn lemma_every_organization(from: Progress<Seq<char>>, answers: Seq<EnterpriseOrgsData>)
    requires
        lists_enterprise(answers),
    ensures
        run(from, org_pages(answers), pick_login()) == Outcome::Done(
            from.items + all_logins(answers),
        ),
    decreases answers.len(),
{
    let pages = org_pages(answers);
    assert(pages[0] == org_page(answers[0]));
    assert(answers[0].enterprise is Some);
    a_listing_of_organizations_goes_on_while_there_are_pages(from, answers[0]);
    let first = logins_in(answers[0].enterprise->0.organizations.nodes@);
    let rest = answers.drop_first();
    if answers.len() == 1 {
        assert(all_logins(rest) == Seq::<Seq<char>>::empty());
        assert(from.items + all_logins(answers) =~= from.items + first);
    } else {
        assert forall|i: int| 0 <= i < rest.len() implies ((#[trigger] rest[i]).enterprise matches
            Some(e) && (e.organizations.page_info.has_next_page
            && e.organizations.page_info.end_cursor is Some <==> i < rest.len() - 1)) by {
            assert(rest[i] == answers[i + 1]);
        }
        assert(pages.drop_first() =~= org_pages(rest));
        if let Outcome::More(p) = from.after(pages[0], pick_login()) {
            lemma_every_organization(p, rest);
            assert(p.items + all_logins(rest) =~= from.items + all_logins(answers));
        }
    }
}

/// A listing of the organizations of an enterprise ends with every login of every page that could
/// be read, in order.
pub proof fn every_organization_of_every_page_is_listed(answers: Seq<EnterpriseOrgsData>)
    requires
        lists_enterprise(answers),
    ensures
        run(Progress::start(), org_pages(answers), pick_login()) == Outcome::Done(
            all_logins(answers),
        ),
{
    let start = Progress::<Seq<char>>::start();
    lemma_every_organization(start, answers);
    assert(start.items + all_logins(answers) =~= all_logins(answers));
}

/// Answers that list an organization in full.
pub open spec fn lists_organization(answers: Seq<OrgReposData>) -> bool {
    &&& answers.len() > 0
    &&& forall|i: int|
        0 <= i < answers.len() ==> ((#[trigger] answers[i]).organization matches Some(o) && (
        o.repositories.page_info.has_next_page && o.repositories.page_info.end_cursor is Some
            <==> i < answers.len() - 1))
}

/// The wanted repositories in some answers, in order.
pub open spec fn all_repositories(filter: Filter, answers: Seq<OrgReposData>) -> Seq<RepoNode>
    decreases answers.len(),
{
    if answers.len() == 0 {
        Seq::empty()
    } else {
        repositories_in(filter, answers[0].organization->0.repositories.nodes@) + all_repositories(
            filter,
            answers.drop_first(),
        )
    }
}

/// Answers as the pages of a listing.
pub open spec fn repo_pages(answers: Seq<OrgReposData>) -> Seq<Option<Page<Option<RepoNode>>>> {
    answers.map_values(|d: OrgReposData| repo_page(d))
}

proof fn lemma_every_repository(
    filter: Filter,
    from: Progress<RepoNode>,
    answers: Seq<OrgReposData>,
)
    requires
        lists_organization(answers),
    ensures
        run(from, repo_pages(answers), pick_repository(filter)) == Outcome::Done(
            from.items + all_repositories(filter, answers),
        ),
    decreases answers.len(),
{
    let pages = repo_pages(answers);
    assert(pages[0] == repo_page(answers[0]));
    assert(answers[0].organization is Some);
    a_listing_of_repositories_goes_on_while_there_are_pages(filter, from, answers[0]);
    let first = repositories_in(filter, answers[0].organization->0.repositories.nodes@);
    let rest = answers.drop_first();
    if answers.len() == 1 {
        assert(all_repositories(filter, rest) == Seq::<RepoNode>::empty());
        assert(from.items + all_repositories(filter, answers) =~= from.items + first);
    } else {
        assert forall|i: int| 0 <= i < rest.len() implies ((#[trigger] rest[i]).organization matches
            Some(o) && (o.repositories.page_info.has_next_page
            && o.repositories.page_info.end_cursor is Some <==> i < rest.len() - 1)) by {
            assert(rest[i] == answers[i + 1]);
        }
        assert(pages.drop_first() =~= repo_pages(rest));
        if let Outcome::More(p) = from.after(pages[0], pick_repository(filter)) {
            lemma_every_repository(filter, p, rest);
            assert(p.items + all_repositories(filter, rest) =~= from.items + all_repositories(
                filter,
                answers,
            ));
        }
    }
}

/// A listing of the repositories of an organization ends with every repository of every page that
/// could be read and is wanted, in order.
pub proof fn every_repository_of_every_page_is_listed(filter: Filter, answers: Seq<OrgReposData>)
    requires
        lists_organization(answers),
    ensures
        run(Progress::start(), repo_pages(answers), pick_repository(filter)) == Outcome::Done(
            all_repositories(filter, answers),
        ),
{
    let start = Progress::<RepoNode>::start();
    lemma_every_repository(filter, start, answers);
    assert(start.items + all_repositories(filter, answers) =~= all_repositories(filter, answers));
}

} // verus!
