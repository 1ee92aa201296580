//! What a run does around the requests: which enterprises it exports, with which token and from
//! where, what becomes of each enterprise, and how the run ends.

pub mod laws;

use vstd::prelude::*;
use crate::args::{Args, Output};
use crate::collect::OrgSnapshot;
use crate::model::{opt_text, Report};
use crate::report::{build_report, report_of};
use crate::sort::{
    distinct, distinct_ignoring_case, folded, one_of_each, sorting_then_dedup_keeps_one_of_each,
    texts,
};
use crate::text::{
    has_char, has_prefix, joined, trim, trim_slashes, trim_trailing_slashes, trimmed,
    without_outer_slashes, without_trailing_slashes,
};

verus! {

/// A run that cannot begin.
#[derive(Debug)]
pub enum UsageError {
    /// No enterprise was named.
    NoEnterprise,
    /// A single file was named for several enterprises.
    SeveralForOneFile,
    /// An enterprise was named that cannot be the name of a file.
    UnusableSlug(String),
    /// There is no token.
    NoToken,
    /// There is a token with nothing in it.
    EmptyToken,
}

impl UsageError {
    pub open spec fn text(self) -> Seq<char> {
        match self {
            UsageError::NoEnterprise => "pass --enterprise <slug>"@,
            UsageError::SeveralForOneFile =>
                "--output writes one file; use --output-dir for several enterprises"@,
            UsageError::UnusableSlug(slug) => "`"@ + slug@ + "` is not a usable enterprise slug"@,
            UsageError::NoToken =>
                "set GITHUB_TOKEN (or GH_TOKEN) to a token with read:enterprise"@,
            UsageError::EmptyToken => "GITHUB_TOKEN is set but empty"@,
        }
    }

    pub fn message(&self) -> (res: String)
        ensures
            res@ == self.text(),
    {
        match self {
            UsageError::NoEnterprise => "pass --enterprise <slug>".to_owned(),
            UsageError::SeveralForOneFile => (
            "--output writes one file; use --output-dir for several enterprises").to_owned(),
            UsageError::UnusableSlug(slug) => joined(
                "`",
                slug.as_str(),
                "` is not a usable enterprise slug",
            ),
            UsageError::NoToken => (
            "set GITHUB_TOKEN (or GH_TOKEN) to a token with read:enterprise").to_owned(),
            UsageError::EmptyToken => "GITHUB_TOKEN is set but empty".to_owned(),
        }
    }
}

// ---------------------------------------------------------------------------------------------
// Which enterprises
// ---------------------------------------------------------------------------------------------

/// The slug that was meant, without whitespace and slashes around it, if anything is left.
pub open spec fn slug_of(given: Seq<char>) -> Option<Seq<char>> {
    let slug = without_outer_slashes(trimmed(given));
    if slug.len() > 0 {
        Some(slug)
    } else {
        None
    }
}

/// The slugs that were meant: in order, and each once without regard to case.
pub open spec fn slugs_of(given: Seq<Seq<char>>) -> Seq<Seq<char>> {
    distinct(given.filter_map(|s: Seq<char>| slug_of(s)))
}

/// Whether a slug can be the name of a file.
pub open spec fn usable(slug: Seq<char>) -> bool {
    !slug.contains('/') && !slug.contains('\\') && !(slug.len() > 0 && slug[0] == '.')
}

/// The first slug that cannot be the name of a file.
pub open spec fn first_unusable(slugs: Seq<Seq<char>>) -> Option<Seq<char>>
    decreases slugs.len(),
{
    if slugs.len() == 0 {
        None
    } else if !usable(slugs[0]) {
        Some(slugs[0])
    } else {
        first_unusable(slugs.drop_first())
    }
}

fn is_usable(slug: &str) -> (res: bool)
    ensures
        res == usable(slug@),
{
    proof {
        reveal_strlit(".");
        let dot = "."@;
        if dot.is_prefix_of(slug@) {
            assert(slug@[0] == slug@.subrange(0, 1)[0]);
        } else if slug@.len() > 0 && slug@[0] == '.' {
            assert(slug@.subrange(0, 1) =~= dot);
        }
    }
    !has_char(slug, '/') && !has_char(slug, '\\') && !has_prefix(slug, ".")
}

/// The enterprises to export.
pub fn enterprises(args: &Args) -> (res: Result<Vec<String>, UsageError>)
    ensures
        ({
            let slugs = slugs_of(texts(args.enterprise@));
            let several = args.output is Some && slugs.len() > 1;
            match res {
                Ok(planned) => texts(planned@) == slugs && slugs.len() > 0 && !several
                    && first_unusable(slugs) is None,
                Err(UsageError::NoEnterprise) => slugs.len() == 0,
                Err(UsageError::SeveralForOneFile) => several,
                Err(UsageError::UnusableSlug(slug)) => !several && first_unusable(slugs) == Some(
                    slug@,
                ),
                Err(_) => false,
            }
        }),
{
    let ghost given = texts(args.enterprise@);
    let ghost meant = |s: Seq<char>| slug_of(s);
    let mut named: Vec<String> = Vec::new();
    let mut i: usize = 0;
    while i < args.enterprise.len()
        invariant
            i <= args.enterprise@.len(),
            given == texts(args.enterprise@),
            meant == (|s: Seq<char>| slug_of(s)),
            texts(named@) == given.take(i as int).filter_map(meant),
        decreases args.enterprise@.len() - i,
    {
        let ghost before = named@;
        proof {
            given.lemma_filter_map_take_succ(meant, i as int);
        }
        let slug = trim_slashes(trim(args.enterprise[i].as_str()).as_str());
        if !slug.as_str().is_empty() {
            let ghost text = slug@;
            named.push(slug);
            assert(texts(named@) =~= texts(before).push(text));
        }
        assert(texts(named@) =~= given.take(i + 1).filter_map(meant));
        i += 1;
    }
    assert(given.take(i as int) == given);
    let slugs = distinct_ignoring_case(named);
    let ghost planned = texts(slugs@);
    if slugs.len() == 0 {
        return Err(UsageError::NoEnterprise);
    }
    if args.output.is_some() && slugs.len() > 1 {
        return Err(UsageError::SeveralForOneFile);
    }
    let mut i: usize = 0;
    assert(planned.skip(0) == planned);
    while i < slugs.len()
        invariant
            i <= slugs@.len(),
            planned == texts(slugs@),
            planned == slugs_of(texts(args.enterprise@)),
            planned.len() > 0,
            !(args.output is Some && planned.len() > 1),
            first_unusable(planned) == first_unusable(planned.skip(i as int)),
        decreases slugs@.len() - i,
    {
        if !is_usable(slugs[i].as_str()) {
            return Err(UsageError::UnusableSlug(slugs[i].clone()));
        }
        assert(planned.skip(i as int).drop_first() == planned.skip(i + 1));
        i += 1;
    }
    Ok(slugs)
}

/// The name of the file that the report on an enterprise goes into.
pub open spec fn file_name_of(slug: Seq<char>) -> Seq<char> {
    slug + ".yaml"@
}

/// The name of the file that the report on an enterprise goes into.
pub fn file_name(slug: &str) -> (res: String)
    ensures
        res@ == file_name_of(slug@),
{
    let mut res = slug.to_owned();
    res.append(".yaml");
    res
}

/// Each enterprise of a run has a file of its own.
pub proof fn every_enterprise_has_its_own_file(given: Seq<Seq<char>>, i: int, j: int)
    requires
        0 <= i < j < slugs_of(given).len(),
    ensures
        file_name_of(slugs_of(given)[i]) != file_name_of(slugs_of(given)[j]),
{
    let slugs = slugs_of(given);
    let named = given.filter_map(|s: Seq<char>| slug_of(s));
    sorting_then_dedup_keeps_one_of_each(named, folded());
    assert(one_of_each(slugs, named, folded()));
    assert(folded()(slugs[i]) != folded()(slugs[j]));
    let (a, b) = (slugs[i], slugs[j]);
    if file_name_of(a) == file_name_of(b) {
        assert(file_name_of(a).len() == a.len() + ".yaml"@.len());
        assert(file_name_of(b).len() == b.len() + ".yaml"@.len());
        assert forall|k: int| 0 <= k < a.len() implies a[k] == b[k] by {
            assert(file_name_of(a)[k] == a[k]);
            assert(file_name_of(b)[k] == b[k]);
        }
        assert(a =~= b);
    }
}

/// Where a report goes.
#[derive(Debug)]
pub enum Destination {
    Stdout,
    /// The file that was named.
    Given,
    /// A file of this name in the directory for reports.
    Named(String),
}

/// Where the report on an enterprise goes.
pub fn destination(args: &Args, slug: &str) -> (res: Destination)
    ensures
        match args.output {
            Some(Output::Stdout) => res is Stdout,
            Some(Output::File) => res is Given,
            None => res matches Destination::Named(name) && name@ == file_name_of(slug@),
        },
{
    match args.output {
        Some(Output::Stdout) => Destination::Stdout,
        Some(Output::File) => Destination::Given,
        None => Destination::Named(file_name(slug)),
    }
}

// ---------------------------------------------------------------------------------------------
// With which token, and from where
// ---------------------------------------------------------------------------------------------

/// The token to use, given the values of `GITHUB_TOKEN` and `GH_TOKEN`. The second counts only
/// where the first is not set at all.
pub fn token(github_token: Option<String>, gh_token: Option<String>) -> (res: Result<
    String,
    UsageError,
>)
    ensures
        ({
            let chosen = if github_token is Some {
                github_token
            } else {
                gh_token
            };
            match res {
                Ok(token) => chosen matches Some(set) && trimmed(set@).len() > 0 && token@
                    == trimmed(set@),
                Err(UsageError::NoToken) => chosen is None,
                Err(UsageError::EmptyToken) => chosen matches Some(set) && trimmed(set@).len() == 0,
                Err(_) => false,
            }
        }),
{
    let chosen = match github_token {
        Some(set) => Some(set),
        None => gh_token,
    };
    match chosen {
        Some(set) => {
            let token = trim(set.as_str());
            if token.as_str().is_empty() {
                Err(UsageError::EmptyToken)
            } else {
                Ok(token)
            }
        },
        None => Err(UsageError::NoToken),
    }
}

/// The GraphQL endpoint: the one given in full, that of the given host, or that of github.com.
pub open spec fn endpoint_of(
    api_url: Option<Seq<char>>,
    hostname: Option<Seq<char>>,
) -> Seq<char> {
    match (api_url, hostname) {
        (Some(url), _) => url,
        (None, Some(host)) => {
            let host = without_trailing_slashes(host);
            if "http://"@.is_prefix_of(host) || "https://"@.is_prefix_of(host) {
                host + "/api/graphql"@
            } else {
                "https://"@ + host + "/api/graphql"@
            }
        },
        (None, None) => "https://api.github.com/graphql"@,
    }
}

/// The GraphQL endpoint of a run.
pub fn endpoint(args: &Args) -> (res: String)
    ensures
        res@ == endpoint_of(opt_text(args.api_url), opt_text(args.hostname)),
        args.api_url matches Some(url) ==> res@ == url@,
{
    match &args.api_url {
        Some(url) => url.clone(),
        None => match &args.hostname {
            Some(host) => {
                let host = trim_trailing_slashes(host.as_str());
                if has_prefix(host.as_str(), "http://") || has_prefix(host.as_str(), "https://") {
                    let mut res = host;
                    res.append("/api/graphql");
                    res
                } else {
                    joined("https://", host.as_str(), "/api/graphql")
                }
            },
            None => "https://api.github.com/graphql".to_owned(),
        },
    }
}

// ---------------------------------------------------------------------------------------------
// What becomes of an enterprise
// ---------------------------------------------------------------------------------------------

/// An enterprise that cannot be exported.
#[derive(Debug)]
pub enum ExportError {
    /// No organization of the enterprise is visible.
    NoOrganizations(String),
    /// No organization of the enterprise could be read.
    EveryOrganizationFailed(String),
}

impl ExportError {
    pub open spec fn text(self) -> Seq<char> {
        match self {
            ExportError::NoOrganizations(slug) => "enterprise `"@ + slug@
                + "` has no organizations visible to this token"@,
            ExportError::EveryOrganizationFailed(slug) => "every organization in `"@ + slug@
                + "` failed to query"@,
        }
    }

    pub fn message(&self) -> (res: String)
        ensures
            res@ == self.text(),
    {
        match self {
            ExportError::NoOrganizations(slug) => joined(
                "enterprise `",
                slug.as_str(),
                "` has no organizations visible to this token",
            ),
            ExportError::EveryOrganizationFailed(slug) => joined(
                "every organization in `",
                slug.as_str(),
                "` failed to query",
            ),
        }
    }
}

/// The organizations to query, given those that were listed.
pub fn organizations(slug: &str, listed: Vec<String>) -> (res: Result<Vec<String>, ExportError>)
    ensures
        ({
            let orgs = distinct(texts(listed@));
            match res {
                Ok(planned) => orgs.len() > 0 && texts(planned@) == orgs,
                Err(ExportError::NoOrganizations(s)) => orgs.len() == 0 && s@ == slug@,
                Err(_) => false,
            }
        }),
{
    let orgs = distinct_ignoring_case(listed);
    if orgs.len() == 0 {
        Err(ExportError::NoOrganizations(slug.to_owned()))
    } else {
        Ok(orgs)
    }
}

/// What was read of an organization, if it could be read.
pub open spec fn read<E>(answer: (String, Result<OrgSnapshot, E>)) -> Option<OrgSnapshot> {
    match answer.1 {
        Ok(snapshot) => Some(snapshot),
        Err(_) => None,
    }
}

/// The login of an organization that could not be read.
pub open spec fn unread<E>(answer: (String, Result<OrgSnapshot, E>)) -> Option<Seq<char>> {
    match answer.1 {
        Ok(_) => None,
        Err(_) => Some(answer.0@),
    }
}

/// What was read of the organizations, in the order of the answers.
pub open spec fn all_read<E>(answers: Seq<(String, Result<OrgSnapshot, E>)>) -> Seq<OrgSnapshot> {
    answers.filter_map(|a: (String, Result<OrgSnapshot, E>)| read(a))
}

/// The organizations that could not be read, in the order of the answers.
pub open spec fn all_unread<E>(answers: Seq<(String, Result<OrgSnapshot, E>)>) -> Seq<Seq<char>> {
    answers.filter_map(|a: (String, Result<OrgSnapshot, E>)| unread(a))
}

/// The report on an enterprise, given what came back for each of its organizations. One that could
/// not be read is recorded and the rest still count; none that could be read is an error.
pub fn export<E>(
    args: &Args,
    api_url: &str,
    slug: &str,
    answers: Vec<(String, Result<OrgSnapshot, E>)>,
) -> (res: Result<Report, ExportError>)
    ensures
        match res {
            Ok(report) => all_read(answers@).len() > 0 && report@ == report_of(
                args.selection(),
                api_url@,
                slug@,
                all_read(answers@),
                all_unread(answers@),
            ),
            Err(ExportError::EveryOrganizationFailed(s)) => all_read(answers@).len() == 0 && s@
                == slug@,
            Err(_) => false,
        },
{
    let ghost all = answers@;
    let ghost f = |a: (String, Result<OrgSnapshot, E>)| read(a);
    let ghost g = |a: (String, Result<OrgSnapshot, E>)| unread(a);
    let mut succeeded: Vec<OrgSnapshot> = Vec::new();
    let mut failed: Vec<String> = Vec::new();
    for answer in it: answers.into_iter()
        invariant
            it.seq() == all,
            f == (|a: (String, Result<OrgSnapshot, E>)| read(a)),
            g == (|a: (String, Result<OrgSnapshot, E>)| unread(a)),
            succeeded@ == all.take(it.index()).filter_map(f),
            texts(failed@) == all.take(it.index()).filter_map(g),
    {
        let ghost before = failed@;
        proof {
            all.lemma_filter_map_take_succ(f, it.index());
            all.lemma_filter_map_take_succ(g, it.index());
        }
        let (login, snapshot) = answer;
        match snapshot {
            Ok(snapshot) => {
                succeeded.push(snapshot);
            },
            Err(_) => {
                let ghost text = login@;
                failed.push(login);
                assert(texts(failed@) =~= texts(before).push(text));
            },
        }
    }
    assert(all.take(all.len() as int) == all);
    if succeeded.len() == 0 {
        return Err(ExportError::EveryOrganizationFailed(slug.to_owned()));
    }
    Ok(build_report(args, api_url, slug, succeeded, failed))
}

/// However they are listed, organizations that differ in more than case are queried once each, in
/// order, and no others are.
pub proof fn each_organization_is_queried_once(listed: Seq<Seq<char>>)
    ensures
        one_of_each(distinct(listed), listed, folded()),
{
    sorting_then_dedup_keeps_one_of_each(listed, folded());
}

/// An export fails for want of readable organizations only if none of them could be read.
pub proof fn an_export_fails_only_if_every_organization_fails<E>(
    answers: Seq<(String, Result<OrgSnapshot, E>)>,
)
    ensures
        all_read(answers).len() == 0 <==> forall|i: int|
            0 <= i < answers.len() ==> (#[trigger] answers[i]).1 is Err,
        all_read(answers).len() + all_unread(answers).len() == answers.len(),
    decreases answers.len(),
{
    if answers.len() > 0 {
        let front = answers.drop_last();
        an_export_fails_only_if_every_organization_fails(front);
        if all_read(answers).len() == 0 {
            assert forall|i: int| 0 <= i < answers.len() implies (#[trigger] answers[i]).1 is Err by {
                if i < front.len() {
                    assert(front[i] == answers[i]);
                }
            }
        } else if forall|i: int| 0 <= i < answers.len() ==> (#[trigger] answers[i]).1 is Err {
            assert forall|i: int| 0 <= i < front.len() implies (#[trigger] front[i]).1 is Err by {
                assert(front[i] == answers[i]);
            }
            assert(answers[answers.len() - 1].1 is Err);
        }
    }
}

// ---------------------------------------------------------------------------------------------
// How the run ends
// ---------------------------------------------------------------------------------------------

/// How a run ends.
#[derive(Debug, Clone, Copy, PartialEq, Eq, Structural)]
pub enum Finish {
    /// Every enterprise was exported.
    Complete,
    /// This many enterprises failed, but not all.
    Partial(usize),
    /// Every enterprise failed.
    Failed,
}

/// How many enterprises failed.
pub open spec fn failures(exported: Seq<bool>) -> nat
    decreases exported.len(),
{
    if exported.len() == 0 {
        0
    } else {
        failures(exported.drop_last()) + if exported.last() {
            0nat
        } else {
            1nat
        }
    }
}

/// How a run ends in which these enterprises were exported and the others were not.
pub fn finish(exported: &Vec<bool>) -> (res: Finish)
    ensures
        res == (if failures(exported@) == exported@.len() {
            Finish::Failed
        } else if failures(exported@) > 0 {
            Finish::Partial(failures(exported@) as usize)
        } else {
            Finish::Complete
        }),
{
    let mut failed: usize = 0;
    let mut i: usize = 0;
    while i < exported.len()
        invariant
            i <= exported@.len(),
            failed <= i,
            failed == failures(exported@.take(i as int)),
        decreases exported@.len() - i,
    {
        assert(exported@.take(i + 1).drop_last() == exported@.take(i as int));
        if !exported[i] {
            failed += 1;
        }
        i += 1;
    }
    assert(exported@.take(i as int) == exported@);
    if failed == exported.len() {
        Finish::Failed
    } else if failed > 0 {
        Finish::Partial(failed)
    } else {
        Finish::Complete
    }
}

/// Every enterprise was exported.
pub open spec fn all_exported(exported: Seq<bool>) -> bool {
    forall|i: int| 0 <= i < exported.len() ==> #[trigger] exported[i]
}

/// No enterprise was exported.
pub open spec fn none_exported(exported: Seq<bool>) -> bool {
    forall|i: int| 0 <= i < exported.len() ==> !(#[trigger] exported[i])
}

/// A run fails exactly when every enterprise fails, and is complete exactly when none does.
pub proof fn a_run_fails_only_if_every_enterprise_fails(exported: Seq<bool>)
    ensures
        failures(exported) <= exported.len(),
        failures(exported) == exported.len() <==> none_exported(exported),
        failures(exported) == 0 <==> all_exported(exported),
    decreases exported.len(),
{
    if exported.len() > 0 {
        let front = exported.drop_last();
        a_run_fails_only_if_every_enterprise_fails(front);
        assert(exported == front.push(exported.last()));
        if none_exported(front) && !exported.last() {
            assert forall|i: int| 0 <= i < exported.len() implies !(#[trigger] exported[i]) by {
                assert(i < front.len() ==> exported[i] == front[i]);
            }
        }
        if all_exported(front) && exported.last() {
            assert forall|i: int| 0 <= i < exported.len() implies #[trigger] exported[i] by {
                assert(i < front.len() ==> exported[i] == front[i]);
            }
        }
        if none_exported(exported) {
            assert forall|i: int| 0 <= i < front.len() implies !(#[trigger] front[i]) by {
                assert(exported[i] == front[i]);
            }
            assert(!exported[exported.len() - 1]);
        }
        if all_exported(exported) {
            assert forall|i: int| 0 <= i < front.len() implies #[trigger] front[i] by {
                assert(exported[i] == front[i]);
            }
            assert(exported[exported.len() - 1]);
        }
    }
}

} // verus!
