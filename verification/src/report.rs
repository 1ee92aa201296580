//! Putting a report together.

pub mod laws;

use vstd::prelude::*;
use crate::args::Args;
use crate::collect::{Filter, OrgSnapshot};
use crate::model::{
    opt_text, repository_views, LicenseNode, RepoNode, Report, ReportView, Repository,
    RepositoryTopic, RepositoryView, Source, SourceView, TopicConnection, Totals,
};
use crate::report::laws::{
    as_many_repositories_are_listed_as_were_read, count_read, every_repository_read_is_listed,
};
use crate::sort::{
    carried_key, dedup, folded, itself, lemma_is_sorted_by, lemma_stable_sort_map,
    lemma_stable_sort_unpair, sort_by_key, sort_ignoring_case, sorted_by, texts, without_repeats,
    Keyed, SortKey,
};
use crate::text::{lowercase, same_text, trim, trimmed};

verus! {

// ---------------------------------------------------------------------------------------------
// One repository
// ---------------------------------------------------------------------------------------------

/// A text without the whitespace around it, if anything is left.
pub open spec fn present(s: Option<Seq<char>>) -> Option<Seq<char>> {
    match s {
        Some(s) => if trimmed(s).len() > 0 {
            Some(trimmed(s))
        } else {
            None
        },
        None => None,
    }
}

/// The SPDX id of a license, or its name if there is no id or GitHub reports `NOASSERTION`, which
/// is what it has for a license that it recognizes but cannot map.
pub open spec fn license_text(license: Option<LicenseNode>) -> Option<Seq<char>> {
    match license {
        Some(license) => match license.spdx_id {
            Some(id) => if id@ != "NOASSERTION"@ {
                Some(id@)
            } else {
                opt_text(license.name)
            },
            None => opt_text(license.name),
        },
        None => None,
    }
}

/// The name of a topic, where it could be read.
pub open spec fn topic_name(node: Option<RepositoryTopic>) -> Option<Seq<char>> {
    match node {
        Some(node) => match node.topic {
            Some(topic) => Some(topic.name@),
            None => None,
        },
        None => None,
    }
}

/// The names of the topics that could be read.
pub open spec fn topic_names(topics: Option<TopicConnection>) -> Seq<Seq<char>> {
    match topics {
        Some(topics) => topics.nodes@.filter_map(|n: Option<RepositoryTopic>| topic_name(n)),
        None => Seq::empty(),
    }
}

/// A repository of the organization `org` as the report has it.
pub open spec fn repository_of(org: Seq<char>, repo: RepoNode) -> RepositoryView {
    RepositoryView {
        org,
        name: repo.name@,
        full_name: present(opt_text(repo.name_with_owner)),
        url: present(opt_text(repo.url)),
        description: present(opt_text(repo.description)),
        visibility: present(opt_text(repo.visibility)),
        archived: repo.is_archived == Some(true),
        fork: repo.is_fork == Some(true),
        template: repo.is_template == Some(true),
        empty: repo.is_empty == Some(true),
        default_branch: match repo.default_branch_ref {
            Some(r) => Some(r.name@),
            None => None,
        },
        language: match repo.primary_language {
            Some(l) => Some(l.name@),
            None => None,
        },
        license: license_text(repo.license_info),
        stars: repo.stargazer_count,
        forks: repo.fork_count,
        topics: without_repeats(
            sorted_by(topic_names(repo.repository_topics), folded()),
            itself(),
        ),
        created_at: opt_text(repo.created_at),
        updated_at: opt_text(repo.updated_at),
        pushed_at: opt_text(repo.pushed_at),
    }
}

/// A blank text is absent rather than empty.
pub fn text(value: Option<String>) -> (res: Option<String>)
    ensures
        opt_text(res) == present(opt_text(value)),
{
    match value {
        Some(v) => {
            let v = trim(v.as_str());
            if v.as_str().is_empty() {
                None
            } else {
                Some(v)
            }
        },
        None => None,
    }
}

fn license(info: Option<LicenseNode>) -> (res: Option<String>)
    ensures
        opt_text(res) == license_text(info),
{
    match info {
        Some(license) => match license.spdx_id {
            Some(id) => if !same_text(id.as_str(), "NOASSERTION") {
                Some(id)
            } else {
                license.name
            },
            None => license.name,
        },
        None => None,
    }
}

fn topics(connection: Option<TopicConnection>) -> (res: Vec<String>)
    ensures
        texts(res@) == without_repeats(sorted_by(topic_names(connection), folded()), itself()),
{
    let mut names: Vec<String> = Vec::new();
    match connection {
        Some(connection) => {
            let ghost nodes = connection.nodes@;
            let ghost f = |n: Option<RepositoryTopic>| topic_name(n);
            for node in it: connection.nodes.into_iter()
                invariant
                    it.seq() == nodes,
                    f == (|n: Option<RepositoryTopic>| topic_name(n)),
                    texts(names@) == nodes.take(it.index()).filter_map(f),
            {
                let ghost before = names@;
                proof {
                    nodes.lemma_filter_map_take_succ(f, it.index());
                }
                if let Some(node) = node {
                    if let Some(topic) = node.topic {
                        names.push(topic.name);
                        assert(texts(names@) == texts(before).push(topic.name@));
                    }
                }
            }
            assert(nodes.take(nodes.len() as int) == nodes);
        },
        None => {},
    }
    assert(texts(names@) =~= topic_names(connection));
    dedup(sort_ignoring_case(names))
}

/// A repository of the organization `org` as the report lists it.
pub fn repository(org: &str, repo: RepoNode) -> (res: Repository)
    ensures
        res@ == repository_of(org@, repo),
        res.org@ == org@,
        res.name@ == repo.name@,
        res.archived <==> repo.is_archived == Some(true),
        res.fork <==> repo.is_fork == Some(true),
        res.template <==> repo.is_template == Some(true),
        res.empty <==> repo.is_empty == Some(true),
        res.stars == repo.stargazer_count,
        res.forks == repo.fork_count,
{
    Repository {
        org: org.to_owned(),
        name: repo.name,
        full_name: text(repo.name_with_owner),
        url: text(repo.url),
        description: text(repo.description),
        visibility: text(repo.visibility),
        archived: repo.is_archived.unwrap_or(false),
        fork: repo.is_fork.unwrap_or(false),
        template: repo.is_template.unwrap_or(false),
        empty: repo.is_empty.unwrap_or(false),
        default_branch: match repo.default_branch_ref {
            Some(r) => Some(r.name),
            None => None,
        },
        language: match repo.primary_language {
            Some(l) => Some(l.name),
            None => None,
        },
        license: license(repo.license_info),
        stars: repo.stargazer_count,
        forks: repo.fork_count,
        topics: topics(repo.repository_topics),
        created_at: repo.created_at,
        updated_at: repo.updated_at,
        pushed_at: repo.pushed_at,
    }
}

// ---------------------------------------------------------------------------------------------
// The whole report
// ---------------------------------------------------------------------------------------------

/// The logins of the organizations that were read.
pub open spec fn logins(snapshots: Seq<OrgSnapshot>) -> Seq<Seq<char>> {
    snapshots.map_values(|s: OrgSnapshot| s.login@)
}

/// The repositories of an organization, in the order in which they were read.
pub open spec fn listing(snapshot: OrgSnapshot) -> Seq<RepositoryView> {
    snapshot.repositories@.map_values(|r: RepoNode| repository_of(snapshot.login@, r))
}

/// The repositories of all organizations, in the order in which they were read.
pub open spec fn listings(snapshots: Seq<OrgSnapshot>) -> Seq<RepositoryView>
    decreases snapshots.len(),
{
    if snapshots.len() == 0 {
        Seq::empty()
    } else {
        listings(snapshots.drop_last()) + listing(snapshots.last())
    }
}

/// What repositories are ordered by: the login of the organization and then the name, without
/// regard to case.
pub open spec fn repository_key() -> spec_fn(RepositoryView) -> SortKey {
    |r: RepositoryView| (lowercase(r.org), lowercase(r.name))
}

/// The report on an enterprise.
pub open spec fn report_of(
    filter: Filter,
    api_url: Seq<char>,
    enterprise: Seq<char>,
    snapshots: Seq<OrgSnapshot>,
    failed: Seq<Seq<char>>,
) -> ReportView {
    let organizations = sorted_by(logins(snapshots) + failed, folded());
    let repositories = sorted_by(listings(snapshots), repository_key());
    ReportView {
        source: SourceView { api_url, enterprise, filters: filter.words() },
        organizations,
        organizations_without_repository_data: sorted_by(failed, folded()),
        totals: (organizations.len(), repositories.len()),
        repositories,
    }
}

/// A list with a repository of this organization and this name in it.
pub open spec fn lists(repositories: Seq<Repository>, org: Seq<char>, name: Seq<char>) -> bool {
    exists|k: int|
        0 <= k < repositories.len() && (#[trigger] repositories[k]).org@ == org
            && repositories[k].name@ == name
}

/// Sorts repositories by organization and then by name, without regard to case.
fn sort_repositories(items: Vec<Repository>) -> (res: Vec<Repository>)
    ensures
        repository_views(res@) == sorted_by(repository_views(items@), repository_key()),
{
    let ghost input = items@;
    let mut keyed: Vec<Keyed<Repository>> = Vec::new();
    for r in it: items.into_iter()
        invariant
            it.seq() == input,
            keyed@.len() == it.index(),
            forall|i: int|
                0 <= i < keyed@.len() ==> (#[trigger] keyed@[i]).item == input[i]
                    && keyed@[i].key() == repository_key()(input[i]@),
    {
        let major = r.org.as_str().to_lowercase();
        let minor = r.name.as_str().to_lowercase();
        keyed.push(Keyed { major, minor, item: r });
    }
    let ghost unsorted = keyed@;
    let keyed = sort_by_key(keyed);
    let ghost sorted = keyed@;
    let mut res: Vec<Repository> = Vec::new();
    for k in it: keyed.into_iter()
        invariant
            it.seq() == sorted,
            res@.len() == it.index(),
            forall|i: int| 0 <= i < res@.len() ==> #[trigger] res@[i] == sorted[i].item,
    {
        res.push(k.item);
    }
    proof {
        let f = |k: Keyed<Repository>| (k.item@, k.key());
        let pair_key = |p: (RepositoryView, SortKey)| p.1;
        lemma_stable_sort_map(sorted, unsorted, carried_key::<Repository>(), f, pair_key);
        lemma_stable_sort_unpair(
            sorted.map_values(f),
            unsorted.map_values(f),
            repository_views(res@),
            repository_views(input),
            repository_key(),
        );
        lemma_is_sorted_by(repository_views(res@), repository_views(input), repository_key());
    }
    res
}

/// The report on what was read of an enterprise. Organizations that failed are still part of the
/// enterprise: they stay in the listing, with a note that their repositories are missing.
pub fn build_report(
    args: &Args,
    api_url: &str,
    enterprise: &str,
    snapshots: Vec<OrgSnapshot>,
    failed_orgs: Vec<String>,
) -> (res: Report)
    ensures
        res@ == report_of(
            args.selection(),
            api_url@,
            enterprise@,
            snapshots@,
            texts(failed_orgs@),
        ),
        res.totals.organizations == snapshots@.len() + failed_orgs@.len(),
        res.totals.repositories == count_read(snapshots@),
        res.repositories@.len() == count_read(snapshots@),
        forall|i: int, j: int|
            0 <= i < snapshots@.len() && 0 <= j < snapshots@[i].repositories@.len() ==> lists(
                res.repositories@,
                snapshots@[i].login@,
                (#[trigger] snapshots@[i].repositories@[j]).name@,
            ),
{
    let ghost all = snapshots@;
    let ghost failed = texts(failed_orgs@);
    let mut org_logins: Vec<String> = Vec::new();
    let mut repositories: Vec<Repository> = Vec::new();
    for snapshot in it: snapshots.into_iter()
        invariant
            it.seq() == all,
            texts(org_logins@) == logins(all.take(it.index())),
            repository_views(repositories@) == listings(all.take(it.index())),
    {
        let ghost i = it.index();
        let ghost logins_before = org_logins@;
        let ghost listed_before = repositories@;
        proof {
            assert(all.take(i + 1).drop_last() == all.take(i));
            assert(all.take(i + 1).last() == snapshot);
            assert(logins(all.take(i + 1)) =~= logins(all.take(i)).push(snapshot.login@));
        }
        org_logins.push(snapshot.login.clone());
        assert(texts(org_logins@) =~= texts(logins_before).push(snapshot.login@));
        let ghost repos = snapshot.repositories@;
        let login = snapshot.login;
        let ghost list = listing(snapshot);
        for repo in inner: snapshot.repositories.into_iter()
            invariant
                inner.seq() == repos,
                list == repos.map_values(|r: RepoNode| repository_of(login@, r)),
                repository_views(repositories@) == repository_views(listed_before) + list.take(
                    inner.index(),
                ),
        {
            let ghost before = repositories@;
            let r = repository(login.as_str(), repo);
            repositories.push(r);
            assert(repository_views(repositories@) =~= repository_views(before).push(r@));
            assert(list.take(inner.index() + 1) == list.take(inner.index()).push(r@));
        }
        assert(list.take(list.len() as int) == list);
    }
    assert(all.take(all.len() as int) == all);
    let mut i: usize = 0;
    while i < failed_orgs.len()
        invariant
            i <= failed_orgs@.len(),
            failed == texts(failed_orgs@),
            texts(org_logins@) == logins(all) + failed.take(i as int),
        decreases failed_orgs@.len() - i,
    {
        let ghost before = org_logins@;
        org_logins.push(failed_orgs[i].clone());
        assert(texts(org_logins@) =~= texts(before).push(failed[i as int]));
        assert(failed.take(i + 1) == failed.take(i as int).push(failed[i as int]));
        i += 1;
    }
    assert(failed.take(i as int) == failed);
    let org_logins = sort_ignoring_case(org_logins);
    let failed_orgs = sort_ignoring_case(failed_orgs);
    let repositories = sort_repositories(repositories);
    let res = Report {
        source: Source {
            api_url: api_url.to_owned(),
            enterprise: enterprise.to_owned(),
            filters: args.filter().describe(),
        },
        totals: Totals { organizations: org_logins.len(), repositories: repositories.len() },
        organizations: org_logins,
        organizations_without_repository_data: failed_orgs,
        repositories,
    };
    proof {
        let (filter, url, slug) = (args.selection(), api_url@, enterprise@);
        assert(res@ == report_of(filter, url, slug, all, failed));
        as_many_repositories_are_listed_as_were_read(filter, url, slug, all, failed);
        assert forall|i: int, j: int|
            0 <= i < all.len() && 0 <= j < all[i].repositories@.len() implies lists(
            res.repositories@,
            all[i].login@,
            (#[trigger] all[i].repositories@[j]).name@,
        ) by {
            every_repository_read_is_listed(filter, url, slug, all, failed, i, j);
            let k = choose|k: int|
                0 <= k < res@.repositories.len() && (#[trigger] res@.repositories[k]).org
                    == all[i].login@ && res@.repositories[k].name
                    == all[i].repositories@[j].name@;
            assert(res@.repositories[k] == res.repositories@[k]@);
        }
    }
    res
}

} // verus!
