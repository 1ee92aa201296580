//! What the operations of this library give back, stated of their arguments and results alone.

use vstd::prelude::*;
use crate::args::{Args, Output};
use crate::collect::laws::{
    a_filter_admits_what_is_wanted, a_listing_of_organizations_goes_on_while_there_are_pages,
    a_listing_of_repositories_goes_on_while_there_are_pages, logins_in, repositories_in,
    the_archived_state_sent_is_the_one_recorded, the_fork_state_sent_is_the_one_recorded,
    the_visibility_sent_is_the_one_recorded, wanted,
};
use crate::collect::{
    Archived, ArgumentView, CollectError, Collector, Filter, Forks, OrgListing, OrgSnapshot,
    RepoListing, Request, Step, Visibility, ENTERPRISE_ORGS, ORG_REPOS, VIEWER,
};
use crate::document::laws::{
    count_stands_under, counts_are_written_exactly_if_they_were_read, flags_are_written_as_they_are,
    text_stands_under, texts_are_written_exactly_if_they_are_there, value_under, written_names,
};
use crate::document::{readable_report, report_node, report_reads_back};
use crate::model::{
    opt_text, EnterpriseOrgsData, Filters, OrgReposData, RepoNode, Report, Repository, ViewerData,
};
use crate::report::laws::{
    a_license_is_its_id_or_else_its_name, a_report_says_where_it_came_from, count_read,
    every_repository_read_is_listed, has_topic, names_counts_and_times_are_reported_as_read,
    organizations_are_those_read_and_those_that_failed, organizations_never_descend,
    reported_trimmed, repositories_never_descend, same_text_or_none, texts_are_reported_trimmed,
    topics_are_those_that_could_be_read, topics_never_descend,
};
use crate::report::{build_report, lists, repository};
use crate::retry::{backoff, reply, verdict, RateState, Reply, Verdict};
use crate::run::laws::{
    enterprises_are_exported_once_and_in_order, every_named_enterprise_is_exported,
    no_answer_is_lost, the_first_unusable_slug_is_named, was_given,
};
use crate::run::{
    a_run_fails_only_if_every_enterprise_fails, all_exported, all_read, all_unread, destination,
    endpoint, enterprises, export, finish, none_exported, organizations, slug_of, slugs_of, token,
    usable, Destination, ExportError, Finish, UsageError,
};
use crate::sort::laws::{kept_texts_are_given, kept_texts_differ_in_more_than_case, times};
use crate::sort::{folded, occurs, one_of_each, sorting_then_dedup_keeps_one_of_each, texts};
use crate::text::laws::{amid_whitespace, only_blank_texts_vanish, trimming_takes_whitespace_only};
use crate::text::{lowercase, text_le, whitespace};
use crate::yaml::reader::read_document;

verus! {

// ---------------------------------------------------------------------------------------------
// The arguments of a run
// ---------------------------------------------------------------------------------------------

/// Whenever an API URL is given, the endpoint is that URL, whatever the hostname is and also if
/// there is none.
pub proof fn endpoint_is_a_given_url(args: &Args, chosen: String)
    requires
        call_ensures(endpoint, (args,), chosen),
    ensures
        args.api_url matches Some(url) ==> chosen@ == url@,
{
}

/// A text with something in it besides whitespace.
pub open spec fn says_something(s: Seq<char>) -> bool {
    exists|i: int| 0 <= i < s.len() && !whitespace(#[trigger] s[i])
}

/// The token is the first variable that is set, without the whitespace around it. The second counts
/// only where the first is not set at all; a variable with nothing in it is not passed over.
pub proof fn token_is_that_of_the_first_variable(
    github_token: Option<String>,
    gh_token: Option<String>,
    res: Result<String, UsageError>,
)
    requires
        call_ensures(token, (github_token, gh_token), res),
    ensures
        res matches Err(e) ==> e is NoToken || e is EmptyToken,
        res matches Err(UsageError::NoToken) <==> github_token is None && gh_token is None,
        github_token matches Some(set) ==> (res is Ok <==> says_something(set@)),
        github_token is None ==> (gh_token matches Some(set) ==> (res is Ok <==> says_something(
            set@,
        ))),
        res matches Ok(t) ==> t@.len() > 0 && !whitespace(t@[0]) && !whitespace(t@.last()),
        res matches Ok(t) ==> (github_token matches Some(set) ==> exists|i: int, j: int| #[trigger]
            amid_whitespace(t@, set@, i, j)),
        res matches Ok(t) ==> (github_token is None ==> gh_token is Some && exists|
            i: int,
            j: int,
        | #[trigger] amid_whitespace(t@, gh_token->0@, i, j)),
{
    if let Some(set) = github_token {
        only_blank_texts_vanish(set@);
        trimming_takes_whitespace_only(set@);
    } else if let Some(set) = gh_token {
        only_blank_texts_vanish(set@);
        trimming_takes_whitespace_only(set@);
    }
}

/// A report goes where the arguments say, and into a file named by its enterprise if they say
/// nothing.
pub proof fn a_report_goes_where_it_was_asked_to(args: &Args, slug: &str, res: Destination)
    requires
        call_ensures(destination, (args, slug), res),
    ensures
        res is Stdout <==> args.output == Some(Output::Stdout),
        res is Given <==> args.output == Some(Output::File),
        res is Named <==> args.output is None,
        res matches Destination::Named(name) ==> name@ == slug@ + ".yaml"@,
{
}

/// A run that begins exports every enterprise that was named, under a slug that differs at most in
/// case, and no other; each once, under a usable slug, and only one if one file was named.
pub proof fn a_run_begins_with_every_enterprise_named(args: &Args, planned: Vec<String>)
    requires
        call_ensures(enterprises, (args,), Ok(planned)),
    ensures
        planned@.len() > 0,
        args.output is Some ==> planned@.len() == 1,
        forall|k: int|
            0 <= k < planned@.len() ==> usable((#[trigger] planned@[k])@) && was_given(
                texts(args.enterprise@),
                planned@[k]@,
            ),
        forall|i: int|
            0 <= i < args.enterprise@.len() ==> (slug_of(
                (#[trigger] args.enterprise@[i])@,
            ) matches Some(slug) ==> names_enterprise(planned@, slug)),
        forall|k: int, l: int|
            0 <= k < l < planned@.len() ==> lowercase((#[trigger] planned@[k])@) != lowercase(
                (#[trigger] planned@[l])@,
            ),
{
    let given = texts(args.enterprise@);
    let slugs = slugs_of(given);
    assert(texts(planned@) == slugs);
    assert forall|k: int| 0 <= k < planned@.len() implies usable((#[trigger] planned@[k])@)
        && was_given(given, planned@[k]@) by {
        assert(slugs[k] == planned@[k]@);
        assert(was_given(given, slugs[k])) by {
            every_named_enterprise_is_exported(given);
        }
        the_first_unusable_slug_is_named(slugs);
    }
    assert forall|i: int| 0 <= i < args.enterprise@.len() implies (slug_of(
        (#[trigger] args.enterprise@[i])@,
    ) matches Some(slug) ==> names_enterprise(planned@, slug)) by {
        assert(given[i] == args.enterprise@[i]@);
        if let Some(slug) = slug_of(given[i]) {
            every_named_enterprise_is_exported(given);
            let k = choose|k: int|
                0 <= k < slugs.len() && lowercase(#[trigger] slugs[k]) == lowercase(slug);
            assert(slugs[k] == planned@[k]@);
        }
    }
    assert forall|k: int, l: int| 0 <= k < l < planned@.len() implies lowercase(
        (#[trigger] planned@[k])@,
    ) != lowercase((#[trigger] planned@[l])@) by {
        assert(slugs[k] == planned@[k]@ && slugs[l] == planned@[l]@);
        enterprises_are_exported_once_and_in_order(given, k, l);
    }
}

/// A run is refused for want of an enterprise only if none was named, for the sake of its file only
/// if one was named, and for a slug only if that slug was given and is not usable.
pub proof fn a_run_is_refused_for_a_reason(args: &Args, error: UsageError)
    requires
        call_ensures(enterprises, (args,), Err(error)),
    ensures
        !(error is NoToken) && !(error is EmptyToken),
        error is NoEnterprise ==> forall|i: int|
            0 <= i < args.enterprise@.len() ==> slug_of((#[trigger] args.enterprise@[i])@) is None,
        error is SeveralForOneFile ==> args.output is Some && slugs_of(
            texts(args.enterprise@),
        ).len() > 1,
        error matches UsageError::UnusableSlug(slug) ==> !usable(slug@) && was_given(
            texts(args.enterprise@),
            slug@,
        ),
{
    let given = texts(args.enterprise@);
    let slugs = slugs_of(given);
    every_named_enterprise_is_exported(given);
    the_first_unusable_slug_is_named(slugs);
    if error is NoEnterprise {
        assert forall|i: int| 0 <= i < args.enterprise@.len() implies slug_of(
            (#[trigger] args.enterprise@[i])@,
        ) is None by {
            assert(given[i] == args.enterprise@[i]@);
        }
    }
}

/// A list with this slug in it, in whatever case.
pub open spec fn names_enterprise(planned: Seq<String>, slug: Seq<char>) -> bool {
    exists|k: int|
        0 <= k < planned.len() && lowercase((#[trigger] planned[k])@) == lowercase(slug)
}

/// Every organization that was listed is queried, once without regard to case, and no other; there
/// is an error exactly if none was listed.
pub proof fn every_listed_organization_is_queried(
    slug: &str,
    listed: Vec<String>,
    res: Result<Vec<String>, ExportError>,
)
    requires
        call_ensures(organizations, (slug, listed), res),
    ensures
        res is Err <==> listed@.len() == 0,
        res matches Err(e) ==> (e matches ExportError::NoOrganizations(s) && s@ == slug@),
        res matches Ok(planned) ==> {
            &&& forall|i: int|
                0 <= i < listed@.len() ==> names_enterprise(planned@, (#[trigger] listed@[i])@)
            &&& forall|k: int|
                0 <= k < planned@.len() ==> texts(listed@).contains((#[trigger] planned@[k])@)
            &&& forall|k: int, l: int|
                0 <= k < l < planned@.len() ==> lowercase((#[trigger] planned@[k])@) != lowercase(
                    (#[trigger] planned@[l])@,
                ) && text_le(lowercase(planned@[k]@), lowercase(planned@[l]@))
        },
{
    let all = texts(listed@);
    let kept = crate::sort::distinct(all);
    sorting_then_dedup_keeps_one_of_each(all, folded());
    assert(one_of_each(kept, all, folded()));
    if listed@.len() > 0 {
        assert(occurs(kept, folded(), folded()(all[0])));
    }
    if kept.len() > 0 {
        kept_texts_are_given(all, 0);
    }
    if let Ok(planned) = res {
        assert forall|i: int| 0 <= i < listed@.len() implies names_enterprise(
            planned@,
            (#[trigger] listed@[i])@,
        ) by {
            assert(all[i] == listed@[i]@);
            assert(occurs(kept, folded(), folded()(all[i])));
            let k = choose|k: int|
                0 <= k < kept.len() && folded()(#[trigger] kept[k]) == folded()(all[i]);
            assert(kept[k] == planned@[k]@);
        }
        assert forall|k: int| 0 <= k < planned@.len() implies all.contains(
            (#[trigger] planned@[k])@,
        ) by {
            assert(kept[k] == planned@[k]@);
            kept_texts_are_given(all, k);
        }
        assert forall|k: int, l: int| 0 <= k < l < planned@.len() implies lowercase(
            (#[trigger] planned@[k])@,
        ) != lowercase((#[trigger] planned@[l])@) && text_le(
            lowercase(planned@[k]@),
            lowercase(planned@[l]@),
        ) by {
            assert(kept[k] == planned@[k]@ && kept[l] == planned@[l]@);
            kept_texts_differ_in_more_than_case(all, k, l);
        }
    }
}

/// A run fails exactly if every enterprise fails, is complete exactly if none does, and otherwise
/// says how many did.
pub proof fn a_run_ends_as_its_enterprises_did(exported: &Vec<bool>, res: Finish)
    requires
        call_ensures(finish, (exported,), res),
    ensures
        res is Failed <==> none_exported(exported@),
        res is Complete <==> exported@.len() > 0 && all_exported(exported@),
        res matches Finish::Partial(n) ==> n == times(exported@, false),
{
    a_run_fails_only_if_every_enterprise_fails(exported@);
    lemma_failures(exported@);
    assert(exported.len() == exported@.len());
}

proof fn lemma_failures(exported: Seq<bool>)
    ensures
        crate::run::failures(exported) == times(exported, false),
    decreases exported.len(),
{
    if exported.len() > 0 {
        lemma_failures(exported.drop_last());
    }
}

// ---------------------------------------------------------------------------------------------
// Reports
// ---------------------------------------------------------------------------------------------

/// A repository is described by what GitHub said of it: its flags exactly as far as they are set,
/// its names, counts and times as they are, its other texts without the whitespace around them.
pub proof fn a_repository_is_described_as_read(org: &str, repo: RepoNode, res: Repository)
    requires
        call_ensures(repository, (org, repo), res),
    ensures
        res.org@ == org@,
        res.name@ == repo.name@,
        res.archived <==> repo.is_archived == Some(true),
        res.fork <==> repo.is_fork == Some(true),
        res.template <==> repo.is_template == Some(true),
        res.empty <==> repo.is_empty == Some(true),
        res.stars == repo.stargazer_count,
        res.forks == repo.fork_count,
        same_text_or_none(opt_text(res.created_at), repo.created_at),
        same_text_or_none(opt_text(res.updated_at), repo.updated_at),
        same_text_or_none(opt_text(res.pushed_at), repo.pushed_at),
        reported_trimmed(opt_text(res.full_name), repo.name_with_owner),
        reported_trimmed(opt_text(res.url), repo.url),
        reported_trimmed(opt_text(res.description), repo.description),
        reported_trimmed(opt_text(res.visibility), repo.visibility),
        match repo.default_branch_ref {
            Some(branch) => opt_text(res.default_branch) == Some(branch.name@),
            None => res.default_branch is None,
        },
        match repo.primary_language {
            Some(language) => opt_text(res.language) == Some(language.name@),
            None => res.language is None,
        },
        match repo.license_info {
            None => res.license is None,
            Some(info) => if info.spdx_id is Some && info.spdx_id->0@ != "NOASSERTION"@ {
                opt_text(res.license) == Some(info.spdx_id->0@)
            } else {
                same_text_or_none(opt_text(res.license), info.name)
            },
        },
        forall|name: Seq<char>| #[trigger]
            texts(res.topics@).contains(name) <==> has_topic(repo, name),
        forall|i: int, j: int|
            0 <= i < j < res.topics@.len() ==> text_le(
                lowercase((#[trigger] res.topics@[i])@),
                lowercase((#[trigger] res.topics@[j])@),
            ),
{
    names_counts_and_times_are_reported_as_read(org@, repo);
    texts_are_reported_trimmed(org@, repo);
    a_license_is_its_id_or_else_its_name(org@, repo);
    assert forall|name: Seq<char>| #[trigger]
        texts(res.topics@).contains(name) <==> has_topic(repo, name) by {
        topics_are_those_that_could_be_read(org@, repo, name);
    }
    assert forall|i: int, j: int| 0 <= i < j < res.topics@.len() implies text_le(
        lowercase((#[trigger] res.topics@[i])@),
        lowercase((#[trigger] res.topics@[j])@),
    ) by {
        topics_never_descend(org@, repo, i, j);
        assert(res@.topics[i] == res.topics@[i]@ && res@.topics[j] == res.topics@[j]@);
    }
}

/// A report lists every repository of every snapshot under its organization and its name, and as
/// many as there are in the snapshots together; it lists every organization that was read or
/// failed, and apart those that failed; it counts what it lists, and says where it came from.
pub proof fn a_report_lists_everything_that_was_read(
    args: &Args,
    api_url: &str,
    enterprise: &str,
    snapshots: Vec<OrgSnapshot>,
    failed: Vec<String>,
    res: Report,
)
    requires
        call_ensures(build_report, (args, api_url, enterprise, snapshots, failed), res),
    ensures
        forall|i: int, j: int|
            0 <= i < snapshots@.len() && 0 <= j < snapshots@[i].repositories@.len() ==> lists(
                res.repositories@,
                snapshots@[i].login@,
                (#[trigger] snapshots@[i].repositories@[j]).name@,
            ),
        res.repositories@.len() == count_read(snapshots@),
        res.totals.repositories == res.repositories@.len(),
        forall|i: int|
            0 <= i < snapshots@.len() ==> texts(res.organizations@).contains(
                (#[trigger] snapshots@[i]).login@,
            ),
        forall|i: int|
            0 <= i < failed@.len() ==> texts(res.organizations@).contains((#[trigger] failed@[i])@)
                && texts(res.organizations_without_repository_data@).contains(failed@[i]@),
        res.organizations@.len() == snapshots@.len() + failed@.len(),
        res.organizations_without_repository_data@.len() == failed@.len(),
        res.totals.organizations == res.organizations@.len(),
        res.source.api_url@ == api_url@,
        res.source.enterprise@ == enterprise@,
        forall|k: int, l: int|
            0 <= k < l < res.repositories@.len() ==> comes_before(
                #[trigger] res.repositories@[k],
                #[trigger] res.repositories@[l],
            ),
        forall|k: int, l: int|
            0 <= k < l < res.organizations@.len() ==> text_le(
                lowercase((#[trigger] res.organizations@[k])@),
                lowercase((#[trigger] res.organizations@[l])@),
            ),
{
    let (filter, url, slug) = (args.selection(), api_url@, enterprise@);
    let (all, bad) = (snapshots@, texts(failed@));
    organizations_are_those_read_and_those_that_failed(filter, url, slug, all, bad);
    a_report_says_where_it_came_from(filter, url, slug, all, bad);
    assert forall|i: int| 0 <= i < failed@.len() implies texts(res.organizations@).contains(
        (#[trigger] failed@[i])@,
    ) && texts(res.organizations_without_repository_data@).contains(failed@[i]@) by {
        assert(bad[i] == failed@[i]@);
    }
    assert(res@.organizations.len() == res.organizations@.len());
    assert(res@.repositories.len() == res.repositories@.len());
    assert forall|k: int, l: int| 0 <= k < l < res.repositories@.len() implies comes_before(
        #[trigger] res.repositories@[k],
        #[trigger] res.repositories@[l],
    ) by {
        repositories_never_descend(filter, url, slug, all, bad, k, l);
        assert(res@.repositories[k] == res.repositories@[k]@);
        assert(res@.repositories[l] == res.repositories@[l]@);
    }
    assert forall|k: int, l: int| 0 <= k < l < res.organizations@.len() implies text_le(
        lowercase((#[trigger] res.organizations@[k])@),
        lowercase((#[trigger] res.organizations@[l])@),
    ) by {
        organizations_never_descend(filter, url, slug, all, bad, k, l);
        assert(res@.organizations[k] == res.organizations@[k]@);
        assert(res@.organizations[l] == res.organizations@[l]@);
    }
}

/// A repository that comes before another, or with it: by the organization and then by the name,
/// without regard to case.
pub open spec fn comes_before(a: Repository, b: Repository) -> bool {
    &&& text_le(lowercase(a.org@), lowercase(b.org@))
    &&& lowercase(a.org@) == lowercase(b.org@) ==> text_le(lowercase(a.name@), lowercase(b.name@))
}

/// An export fails exactly if no organization could be read. Otherwise every repository of every
/// organization that was read is listed, and every organization that failed is listed apart.
pub proof fn an_export_lists_everything_that_was_read<E>(
    args: &Args,
    api_url: &str,
    slug: &str,
    answers: Vec<(String, Result<OrgSnapshot, E>)>,
    res: Result<Report, ExportError>,
)
    requires
        call_ensures(export::<E>, (args, api_url, slug, answers), res),
    ensures
        res is Err <==> forall|i: int|
            0 <= i < answers@.len() ==> (#[trigger] answers@[i]).1 is Err,
        res matches Ok(report) ==> forall|i: int|
            0 <= i < answers@.len() ==> ((#[trigger] answers@[i]).1 matches Err(_) ==> texts(
                report.organizations_without_repository_data@,
            ).contains(answers@[i].0@)),
        res matches Ok(report) ==> forall|i: int|
            0 <= i < answers@.len() ==> ((#[trigger] answers@[i]).1 matches Ok(snapshot)
                ==> texts(report.organizations@).contains(snapshot.login@)),
        res matches Ok(report) ==> forall|i: int, j: int|
            0 <= i < answers@.len() && answers@[i].1 is Ok && 0 <= j
                < answers@[i].1->Ok_0.repositories@.len() ==> lists(
                report.repositories@,
                answers@[i].1->Ok_0.login@,
                (#[trigger] answers@[i].1->Ok_0.repositories@[j]).name@,
            ),
        res matches Ok(report) ==> report.source.enterprise@ == slug@ && report.source.api_url@
            == api_url@,
{
    crate::run::an_export_fails_only_if_every_organization_fails(answers@);
    if let Ok(report) = res {
        let (read, bad) = (all_read(answers@), all_unread(answers@));
        organizations_are_those_read_and_those_that_failed(
            args.selection(),
            api_url@,
            slug@,
            read,
            bad,
        );
        assert forall|i: int| 0 <= i < answers@.len() implies ((
        #[trigger] answers@[i]).1 matches Err(_) ==> texts(report.organizations_without_repository_data@).contains(answers@[i].0@)) by {
            no_answer_is_lost(answers@, i);
            if answers@[i].1 is Err {
                let k = choose|k: int| 0 <= k < bad.len() && bad[k] == answers@[i].0@;
                assert(bad[k] == answers@[i].0@);
            }
        }
        assert forall|i: int| 0 <= i < answers@.len() implies ((
        #[trigger] answers@[i]).1 matches Ok(snapshot) ==> texts(report.organizations@).contains(snapshot.login@)) by {
            no_answer_is_lost(answers@, i);
            if let Ok(snapshot) = answers@[i].1 {
                let k = choose|k: int| 0 <= k < read.len() && read[k] == snapshot;
                assert(read[k].login@ == snapshot.login@);
            }
        }
        assert forall|i: int, j: int|
            0 <= i < answers@.len() && answers@[i].1 is Ok && 0 <= j
                < answers@[i].1->Ok_0.repositories@.len() implies lists(
            report.repositories@,
            answers@[i].1->Ok_0.login@,
            (#[trigger] answers@[i].1->Ok_0.repositories@[j]).name@,
        ) by {
            no_answer_is_lost(answers@, i);
            let snapshot = answers@[i].1->Ok_0;
            let k = choose|k: int| 0 <= k < read.len() && read[k] == snapshot;
            every_repository_read_is_listed(
                args.selection(),
                api_url@,
                slug@,
                read,
                bad,
                k,
                j,
            );
            let l = choose|l: int|
                0 <= l < report@.repositories.len() && (#[trigger] report@.repositories[l]).org
                    == snapshot.login@ && report@.repositories[l].name
                    == snapshot.repositories@[j].name@;
            assert(report@.repositories[l] == report.repositories@[l]@);
        }
    }
}

/// The document of a report whose texts can stand in YAML reads back as what the report says.
pub proof fn a_written_report_reads_back(report: &Report, res: String)
    requires
        readable_report(report@),
        call_ensures(Report::to_yaml, (report,), res),
    ensures
        read_document(res@) == Some(report_node(report@)),
{
    report_reads_back(report@);
}

/// A repository is written with its flags, with its counts exactly if they could be read, zero too,
/// and with its texts exactly if they are there.
pub proof fn a_repository_is_written_as_it_is(r: &Repository, res: crate::yaml::value::Value)
    requires
        call_ensures(Repository::to_value, (r,), res),
    ensures
        count_stands_under(res@, "stars"@, r.stars),
        count_stands_under(res@, "forks"@, r.forks),
        value_under(res@, "archived"@) == Some(crate::yaml::value::Node::Bool(r.archived)),
        value_under(res@, "fork"@) == Some(crate::yaml::value::Node::Bool(r.fork)),
        value_under(res@, "template"@) is Some <==> r.template,
        value_under(res@, "empty"@) is Some <==> r.empty,
        text_stands_under(res@, "org"@, Some(r.org@)),
        text_stands_under(res@, "name"@, Some(r.name@)),
        text_stands_under(res@, "full_name"@, opt_text(r.full_name)),
        text_stands_under(res@, "url"@, opt_text(r.url)),
        text_stands_under(res@, "description"@, opt_text(r.description)),
        text_stands_under(res@, "visibility"@, opt_text(r.visibility)),
        text_stands_under(res@, "default_branch"@, opt_text(r.default_branch)),
        text_stands_under(res@, "language"@, opt_text(r.language)),
        text_stands_under(res@, "license"@, opt_text(r.license)),
        text_stands_under(res@, "created_at"@, opt_text(r.created_at)),
        text_stands_under(res@, "updated_at"@, opt_text(r.updated_at)),
        text_stands_under(res@, "pushed_at"@, opt_text(r.pushed_at)),
        r.topics@.len() == 0 <==> value_under(res@, "topics"@) is None,
        r.topics@.len() > 0 ==> value_under(res@, "topics"@) == Some(
            written_names(texts(r.topics@)),
        ),
{
    counts_are_written_exactly_if_they_were_read(r@);
    flags_are_written_as_they_are(r@);
    texts_are_written_exactly_if_they_are_there(r@);
    assert(r@.topics.len() == r.topics@.len());
}

// ---------------------------------------------------------------------------------------------
// Filters and listings
// ---------------------------------------------------------------------------------------------

/// A filter sends the visibility that it is for, and none if it is for all.
pub proof fn a_filter_sends_what_it_is_for(
    filter: &Filter,
    visibility: Option<&'static str>,
    archived: Option<bool>,
    fork: Option<bool>,
)
    requires
        call_ensures(Filter::visibility_arg, (filter,), visibility),
        call_ensures(Filter::is_archived_arg, (filter,), archived),
        call_ensures(Filter::is_fork_arg, (filter,), fork),
    ensures
        match filter.visibility {
            Visibility::Public => visibility matches Some(v) && v@ == "PUBLIC"@,
            Visibility::Private => visibility matches Some(v) && v@ == "PRIVATE"@,
            Visibility::Internal => visibility matches Some(v) && v@ == "INTERNAL"@,
            Visibility::All => visibility is None,
        },
        match filter.archived {
            Archived::Exclude => archived == Some(false),
            Archived::Include => archived is None,
            Archived::Only => archived == Some(true),
        },
        match filter.forks {
            Forks::Exclude => fork == Some(false),
            Forks::Include => fork is None,
            Forks::Only => fork == Some(true),
        },
{
}

/// A filter keeps exactly the repositories that it is for, in whatever case their visibility is
/// spelled.
pub proof fn a_filter_keeps_what_it_is_for(filter: &Filter, repo: &RepoNode, kept: bool)
    requires
        call_ensures(Filter::keep, (filter, repo), kept),
    ensures
        kept <==> wanted(*filter, *repo),
{
    a_filter_admits_what_is_wanted(*filter, *repo);
}

/// A filter is recorded by the words for what it is for.
pub proof fn a_filter_is_recorded_in_words(filter: &Filter, res: Filters)
    requires
        call_ensures(Filter::describe, (filter,), res),
    ensures
        filter.visibility is Public <==> res.visibility@ == "public"@,
        filter.visibility is Private <==> res.visibility@ == "private"@,
        filter.visibility is Internal <==> res.visibility@ == "internal"@,
        filter.visibility is All <==> res.visibility@ == "all"@,
        filter.archived is Exclude <==> res.archived@ == "exclude"@,
        filter.archived is Include <==> res.archived@ == "include"@,
        filter.archived is Only <==> res.archived@ == "only"@,
        filter.forks is Exclude <==> res.forks@ == "exclude"@,
        filter.forks is Include <==> res.forks@ == "include"@,
        filter.forks is Only <==> res.forks@ == "only"@,
{
    the_visibility_sent_is_the_one_recorded(*filter);
    the_archived_state_sent_is_the_one_recorded(*filter);
    the_fork_state_sent_is_the_one_recorded(*filter);
}

/// A collector asks for as many items as it was told to, as far as GitHub accepts that many, and
/// for what its filter says.
pub proof fn a_collector_keeps_to_its_arguments(
    filter: Filter,
    with_topics: bool,
    batch_size: u32,
    res: Collector,
)
    requires
        call_ensures(Collector::new, (filter, with_topics, batch_size), res),
    ensures
        res.selection() == filter,
        res.asks_for_topics() == with_topics,
        1 <= res.page_size() <= 100,
        1 <= batch_size <= 100 ==> res.page_size() == batch_size,
        batch_size > 100 ==> res.page_size() == 100,
        batch_size == 0 ==> res.page_size() == 1,
{
}

/// A variable of this name is sent with this value.
pub open spec fn sends(request: Request, name: Seq<char>, value: ArgumentView) -> bool {
    exists|i: int|
        0 <= i < request@.variables.len() && #[trigger] request@.variables[i] == (name, value)
}

/// Each request for repositories sends the organization, where to go on, the page size, what the
/// filter is for, and whether topics are wanted, and nothing else.
pub proof fn a_request_for_repositories_sends_its_filter(listing: &RepoListing, res: Request)
    requires
        call_ensures(RepoListing::request, (listing,), res),
    ensures
        res.query@ == ORG_REPOS@,
        res@.variables.len() == 7,
        sends(res, "login"@, ArgumentView::Text(listing.login())),
        sends(
            res,
            "cursor"@,
            match listing.progress().cursor {
                Some(cursor) => ArgumentView::Text(cursor),
                None => ArgumentView::Null,
            },
        ),
        sends(res, "batchSize"@, ArgumentView::Number(listing.page_size())),
        sends(
            res,
            "visibility"@,
            match listing.selection().visibility {
                Visibility::Public => ArgumentView::Text("PUBLIC"@),
                Visibility::Private => ArgumentView::Text("PRIVATE"@),
                Visibility::Internal => ArgumentView::Text("INTERNAL"@),
                Visibility::All => ArgumentView::Null,
            },
        ),
        sends(
            res,
            "isArchived"@,
            match listing.selection().archived {
                Archived::Exclude => ArgumentView::Flag(false),
                Archived::Include => ArgumentView::Null,
                Archived::Only => ArgumentView::Flag(true),
            },
        ),
        sends(
            res,
            "isFork"@,
            match listing.selection().forks {
                Forks::Exclude => ArgumentView::Flag(false),
                Forks::Include => ArgumentView::Null,
                Forks::Only => ArgumentView::Flag(true),
            },
        ),
        sends(res, "withTopics"@, ArgumentView::Flag(listing.asks_for_topics())),
{
    let v = res@.variables;
    assert(v[0].0 == "login"@ && v[1].0 == "cursor"@ && v[2].0 == "batchSize"@);
    assert(v[3].0 == "visibility"@ && v[4].0 == "isArchived"@ && v[5].0 == "isFork"@);
    assert(v[6].0 == "withTopics"@);
}

/// Each request for organizations sends the enterprise, where to go on and the page size, and
/// nothing else.
pub proof fn a_request_for_organizations_sends_its_enterprise(listing: &OrgListing, res: Request)
    requires
        call_ensures(OrgListing::request, (listing,), res),
    ensures
        res.query@ == ENTERPRISE_ORGS@,
        res@.variables.len() == 3,
        sends(res, "slug"@, ArgumentView::Text(listing.slug())),
        sends(
            res,
            "cursor"@,
            match listing.progress().cursor {
                Some(cursor) => ArgumentView::Text(cursor),
                None => ArgumentView::Null,
            },
        ),
        sends(res, "batchSize"@, ArgumentView::Number(listing.page_size())),
{
    let v = res@.variables;
    assert(v[0].0 == "slug"@ && v[1].0 == "cursor"@ && v[2].0 == "batchSize"@);
}

/// The first request asks for the first page and carries the collector's arguments on.
pub proof fn a_listing_begins_with_the_first_page(
    collector: &Collector,
    name: &str,
    orgs: OrgListing,
    repos: RepoListing,
)
    requires
        call_ensures(Collector::enterprise_orgs, (collector, name), orgs),
        call_ensures(Collector::org_snapshot, (collector, name), repos),
    ensures
        orgs.slug() == name@,
        orgs.page_size() == collector.page_size(),
        orgs.progress().cursor is None,
        orgs.progress().items.len() == 0,
        repos.login() == name@,
        repos.selection() == collector.selection(),
        repos.asks_for_topics() == collector.asks_for_topics(),
        repos.page_size() == collector.page_size(),
        repos.progress().cursor is None,
        repos.progress().items.len() == 0,
{
}

/// An answer with a page of repositories adds those that could be read and are wanted to the
/// listing. The listing goes on from the cursor of the page if there is a next page, and is done
/// otherwise; nothing else about it changes. It fails exactly if there is no organization.
pub proof fn a_page_of_repositories_is_added(
    listing: RepoListing,
    data: OrgReposData,
    res: Result<Step<RepoListing, OrgSnapshot>, CollectError>,
)
    requires
        call_ensures(RepoListing::accept, (listing, data), res),
    ensures
        match data.organization {
            None => res matches Err(CollectError::NoOrganization(login)) && login@
                == listing.login(),
            Some(o) => {
                let info = o.repositories.page_info;
                let items = listing.progress().items + repositories_in(
                    listing.selection(),
                    o.repositories.nodes@,
                );
                match res {
                    Err(_) => false,
                    Ok(Step::More(next)) => {
                        &&& info.has_next_page && info.end_cursor is Some
                        &&& next.progress().cursor == Some(info.end_cursor->0@)
                        &&& next.progress().items == items
                        &&& next.login() == listing.login()
                        &&& next.selection() == listing.selection()
                        &&& next.asks_for_topics() == listing.asks_for_topics()
                        &&& next.page_size() == listing.page_size()
                    },
                    Ok(Step::Done(snapshot)) => {
                        &&& !(info.has_next_page && info.end_cursor is Some)
                        &&& snapshot.login@ == listing.login()
                        &&& snapshot.repositories@ == items
                    },
                }
            },
        },
{
    a_listing_of_repositories_goes_on_while_there_are_pages(
        listing.selection(),
        listing.progress(),
        data,
    );
}

/// An answer with a page of organizations adds those that could be read to the listing. The listing
/// goes on from the cursor of the page if there is a next page, and is done otherwise. It fails
/// exactly if there is no enterprise.
pub proof fn a_page_of_organizations_is_added(
    listing: OrgListing,
    data: EnterpriseOrgsData,
    res: Result<Step<OrgListing, Vec<String>>, CollectError>,
)
    requires
        call_ensures(OrgListing::accept, (listing, data), res),
    ensures
        match data.enterprise {
            None => res matches Err(CollectError::NoEnterprise(slug)) && slug@ == listing.slug(),
            Some(e) => {
                let info = e.organizations.page_info;
                let items = listing.progress().items + logins_in(e.organizations.nodes@);
                match res {
                    Err(_) => false,
                    Ok(Step::More(next)) => {
                        &&& info.has_next_page && info.end_cursor is Some
                        &&& next.progress().cursor == Some(info.end_cursor->0@)
                        &&& next.progress().items == items
                        &&& next.slug() == listing.slug()
                        &&& next.page_size() == listing.page_size()
                    },
                    Ok(Step::Done(all)) => {
                        &&& !(info.has_next_page && info.end_cursor is Some)
                        &&& texts(all@) == items
                    },
                }
            },
        },
{
    a_listing_of_organizations_goes_on_while_there_are_pages(listing.progress(), data);
}

/// The login of the viewer is the one in the answer to the query for it.
pub proof fn the_viewer_is_the_one_answered(
    collector: &Collector,
    request: Request,
    data: ViewerData,
    login: String,
)
    requires
        call_ensures(Collector::viewer, (collector,), request),
        call_ensures(Collector::viewer_login, (collector, data), login),
    ensures
        request.query@ == VIEWER@,
        request@.variables.len() == 0,
        login@ == data.viewer.login@,
{
}

// ---------------------------------------------------------------------------------------------
// Tries
// ---------------------------------------------------------------------------------------------

/// A reply is an answer exactly for a successful response that does not speak of a limit, a rate
/// limit where one is spoken of or asked for, unavailability for a failure of the server, and a
/// refusal otherwise; the pause that it carries is the one of the response.
pub proof fn a_response_is_recognized(
    status: u16,
    retry_after: Option<u64>,
    spent: bool,
    limited: bool,
    res: Reply,
)
    requires
        call_ensures(reply, (status, retry_after, spent, limited), res),
    ensures
        res is Answer <==> 200 <= status <= 299 && !limited,
        res is RateLimited <==> {
            ||| 200 <= status <= 299 && limited
            ||| status == 429
            ||| status == 403 && (retry_after is Some || spent || limited)
        },
        res is Unavailable <==> 500 <= status <= 599,
        res matches Reply::RateLimited(pause) ==> pause == retry_after,
        res matches Reply::Unavailable(pause) ==> pause == retry_after,
{
}

/// A request is tried again exactly as long as tries are left and the reply calls for it. It waits
/// as long as the server asks; otherwise a limited one waits for the reset, if the last of the
/// budget is to be kept for it, and all others back off.
pub proof fn a_request_is_tried_again_as_called_for(
    reply: Reply,
    attempt: u32,
    max_retries: u32,
    rate: &RateState,
    now: u64,
    pause: u64,
    step: u64,
    res: Verdict,
)
    requires
        call_ensures(RateState::pause, (rate, now), pause),
        call_ensures(backoff, (attempt,), step),
        call_ensures(verdict, (reply, attempt, max_retries, rate, now), res),
    ensures
        res is Accept <==> reply is Answer,
        res is Retry <==> attempt < max_retries && (reply is RateLimited || reply is Unavailable),
        res is Retry ==> match reply {
            Reply::RateLimited(Some(asked)) => res == Verdict::Retry(asked),
            Reply::Unavailable(Some(asked)) => res == Verdict::Retry(asked),
            Reply::RateLimited(None) => res == Verdict::Retry(
                if pause > 0 {
                    pause
                } else {
                    step
                },
            ),
            _ => res == Verdict::Retry(step),
        },
        pause > 0 <==> rate.remaining is Some && rate.remaining->0 <= 1 && rate.reset is Some
            && rate.reset->0 > now,
        pause > 0 ==> now + pause == rate.reset->0,
{
}

/// A pause is a second at first, doubles with every try, and stays at sixty seconds from there on.
pub proof fn backing_off_doubles(attempt: u32, step: u64, next: u64)
    requires
        attempt < u32::MAX,
        call_ensures(backoff, (attempt,), step),
        call_ensures(backoff, ((attempt + 1) as u32,), next),
    ensures
        attempt == 0 ==> step == 1,
        next == (if 2 * step <= 60 {
            2 * step
        } else {
            60
        }),
{
    crate::retry::laws::pauses_double(attempt);
}

} // verus!
