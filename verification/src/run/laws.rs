//! What a run comes to.

use vstd::prelude::*;
use crate::args::Args;
use crate::collect::{CollectError, OrgSnapshot};
use crate::run::{
    all_read, all_unread, endpoint_of, failures, file_name_of, first_unusable, slug_of, slugs_of,
    usable, ExportError, UsageError,
};
use crate::sort::laws::{kept_texts_are_given, kept_texts_differ_in_more_than_case};
use crate::sort::{folded, occurs, one_of_each, sorting_then_dedup_keeps_one_of_each};
use crate::text::laws::{
    amid_slashes, amid_whitespace, outer_slashes_are_cut_off, texts_without_outer_slashes_stay,
    trailing_slashes_are_cut_off, trimming_leaves_trimmed_texts_alone,
    trimming_takes_whitespace_only,
};
use crate::text::{
    lowercase, stands_at, text_le, trimmed, whitespace, without_outer_slashes,
    without_trailing_slashes,
};

verus! {

// ---------------------------------------------------------------------------------------------
// The endpoint
// ---------------------------------------------------------------------------------------------

/// Whenever an API URL is given, it is the endpoint, as it was given and whatever the hostname is.
pub proof fn a_given_url_is_the_endpoint(url: Seq<char>, hostname: Option<Seq<char>>)
    ensures
        endpoint_of(Some(url), hostname) == url,
{
}

/// Where nothing is given, the endpoint is that of github.com.
pub proof fn the_endpoint_is_that_of_github_unless_given()
    ensures
        endpoint_of(None, None) == "https://api.github.com/graphql"@,
{
}

/// A host that begins with a scheme.
pub open spec fn has_scheme(host: Seq<char>) -> bool {
    "http://"@.is_prefix_of(host) || "https://"@.is_prefix_of(host)
}

/// A host without slashes at its end is reached by HTTPS at its GraphQL path, unless it brings a
/// scheme of its own.
pub proof fn a_host_is_reached_at_its_graphql_path(host: Seq<char>)
    requires
        host.len() > 0 ==> host.last() != '/',
    ensures
        has_scheme(host) ==> endpoint_of(None, Some(host)) == host + "/api/graphql"@,
        !has_scheme(host) ==> endpoint_of(None, Some(host)) == "https://"@ + host
            + "/api/graphql"@,
{
    trailing_slashes_are_cut_off(host);
    let j = choose|j: int| #[trigger] amid_slashes(without_trailing_slashes(host), host, 0, j);
    let p = |c: char| c == '/';
    if j < host.len() {
        assert(p(host[host.len() - 1]));
    }
    assert(without_trailing_slashes(host) =~= host);
}

/// Slashes at the end of a host make no difference.
pub proof fn slashes_behind_a_host_make_no_difference(host: Seq<char>)
    ensures
        endpoint_of(None, Some(host.push('/'))) == endpoint_of(None, Some(host)),
{
    let p = |c: char| c == '/';
    assert(host.push('/').drop_last() =~= host);
    assert(without_trailing_slashes(host.push('/')) == without_trailing_slashes(host));
}

// ---------------------------------------------------------------------------------------------
// The enterprises
// ---------------------------------------------------------------------------------------------

/// A slug that was given is taken without the whitespace around it and then without the slashes
/// around it, and is left out exactly if nothing remains.
pub proof fn a_slug_is_what_is_between_whitespace_and_slashes(given: Seq<char>)
    ensures
        match slug_of(given) {
            Some(slug) => {
                &&& slug.len() > 0 && slug[0] != '/' && slug.last() != '/'
                &&& exists|i: int, j: int| #[trigger] amid_slashes(slug, trimmed(given), i, j)
                &&& exists|i: int, j: int| #[trigger] amid_whitespace(trimmed(given), given, i, j)
            },
            None => forall|k: int|
                0 <= k < trimmed(given).len() ==> #[trigger] trimmed(given)[k] == '/',
        },
{
    trimming_takes_whitespace_only(given);
    let t = trimmed(given);
    outer_slashes_are_cut_off(t);
    let slug = without_outer_slashes(t);
    let (i, j) = choose|i: int, j: int| #[trigger] amid_slashes(slug, t, i, j);
    if slug.len() == 0 {
        assert(i == j);
        let p = |c: char| c == '/';
        assert forall|k: int| 0 <= k < t.len() implies #[trigger] t[k] == '/' by {
            assert(p(t[k]));
        }
    } else {
        assert(amid_slashes(slug, t, i, j));
    }
}

/// A slug without whitespace or slashes around it is taken as it is.
pub proof fn a_clean_slug_is_taken_as_it_is(given: Seq<char>)
    requires
        given.len() > 0,
        !whitespace(given[0]) && given[0] != '/',
        !whitespace(given.last()) && given.last() != '/',
    ensures
        slug_of(given) == Some(given),
{
    trimming_leaves_trimmed_texts_alone(given);
    texts_without_outer_slashes_stay(given);
}

/// Some slug that was given.
pub open spec fn was_given(given: Seq<Seq<char>>, slug: Seq<char>) -> bool {
    exists|i: int| 0 <= i < given.len() && slug_of(#[trigger] given[i]) == Some(slug)
}

proof fn lemma_slugs_given(given: Seq<Seq<char>>, slug: Seq<char>)
    ensures
        given.filter_map(|s: Seq<char>| slug_of(s)).contains(slug) <==> was_given(given, slug),
    decreases given.len(),
{
    let f = |s: Seq<char>| slug_of(s);
    let named = given.filter_map(f);
    if given.len() > 0 {
        let front = given.drop_last();
        let before = front.filter_map(f);
        lemma_slugs_given(front, slug);
        if named.contains(slug) {
            let k = choose|k: int| 0 <= k < named.len() && named[k] == slug;
            if k < before.len() {
                assert(before[k] == slug);
                let i = choose|i: int|
                    0 <= i < front.len() && slug_of(#[trigger] front[i]) == Some(slug);
                assert(given[i] == front[i]);
            } else {
                assert(slug_of(given[given.len() - 1]) == Some(slug));
            }
        }
        if was_given(given, slug) {
            let i = choose|i: int|
                0 <= i < given.len() && slug_of(#[trigger] given[i]) == Some(slug);
            if i < front.len() {
                assert(front[i] == given[i]);
                let k = choose|k: int| 0 <= k < before.len() && before[k] == slug;
                assert(named[k] == slug);
            } else {
                assert(named[named.len() - 1] == slug);
            }
        }
    }
}

/// Every enterprise that was named is exported, under a slug that differs from the one given at
/// most in case, and no enterprise is exported that was not named.
pub proof fn every_named_enterprise_is_exported(given: Seq<Seq<char>>)
    ensures
        forall|i: int|
            0 <= i < given.len() ==> (slug_of(#[trigger] given[i]) matches Some(slug)
                ==> exists|k: int|
                0 <= k < slugs_of(given).len() && lowercase(#[trigger] slugs_of(given)[k])
                    == lowercase(slug)),
        forall|k: int|
            0 <= k < slugs_of(given).len() ==> was_given(given, #[trigger] slugs_of(given)[k]),
{
    let named = given.filter_map(|s: Seq<char>| slug_of(s));
    let slugs = slugs_of(given);
    sorting_then_dedup_keeps_one_of_each(named, folded());
    assert(one_of_each(slugs, named, folded()));
    assert forall|i: int| 0 <= i < given.len() implies (slug_of(#[trigger] given[i]) matches Some(
        slug,
    ) ==> exists|k: int|
        0 <= k < slugs.len() && lowercase(#[trigger] slugs[k]) == lowercase(slug)) by {
        if let Some(slug) = slug_of(given[i]) {
            lemma_slugs_given(given, slug);
            assert(was_given(given, slug));
            let n = choose|n: int| 0 <= n < named.len() && named[n] == slug;
            assert(occurs(slugs, folded(), folded()(named[n])));
            let k = choose|k: int|
                0 <= k < slugs.len() && folded()(#[trigger] slugs[k]) == folded()(named[n]);
            assert(lowercase(slugs[k]) == lowercase(slug));
        }
    }
    assert forall|k: int| 0 <= k < slugs.len() implies was_given(given, #[trigger] slugs[k]) by {
        kept_texts_are_given(named, k);
        lemma_slugs_given(given, slugs[k]);
    }
}

/// Enterprises are exported in order, and each once without regard to case.
pub proof fn enterprises_are_exported_once_and_in_order(given: Seq<Seq<char>>, i: int, j: int)
    requires
        0 <= i < j < slugs_of(given).len(),
    ensures
        lowercase(slugs_of(given)[i]) != lowercase(slugs_of(given)[j]),
        text_le(lowercase(slugs_of(given)[i]), lowercase(slugs_of(given)[j])),
{
    kept_texts_differ_in_more_than_case(given.filter_map(|s: Seq<char>| slug_of(s)), i, j);
}

/// A slug is usable exactly if it begins with something other than a dot and has neither kind of
/// slash in it.
pub proof fn usable_slugs_have_no_slash_and_no_dot_in_front(slug: Seq<char>)
    ensures
        usable(slug) <==> (slug.len() > 0 ==> slug[0] != '.') && forall|i: int|
            0 <= i < slug.len() ==> #[trigger] slug[i] != '/' && slug[i] != '\\',
{
    if usable(slug) {
        assert forall|i: int| 0 <= i < slug.len() implies #[trigger] slug[i] != '/' && slug[i]
            != '\\' by {
            assert(slug.contains(slug[i]));
        }
    }
}

/// A run is refused for a slug exactly if some slug is not usable, and then for the first.
pub proof fn the_first_unusable_slug_is_named(slugs: Seq<Seq<char>>)
    ensures
        match first_unusable(slugs) {
            None => forall|i: int| 0 <= i < slugs.len() ==> usable(#[trigger] slugs[i]),
            Some(slug) => exists|i: int|
                0 <= i < slugs.len() && #[trigger] slugs[i] == slug && !usable(slug) && forall|
                    k: int,
                | 0 <= k < i ==> usable(#[trigger] slugs[k]),
        },
    decreases slugs.len(),
{
    if slugs.len() > 0 {
        let rest = slugs.drop_first();
        if usable(slugs[0]) {
            the_first_unusable_slug_is_named(rest);
            match first_unusable(rest) {
                None => {
                    assert forall|i: int| 0 <= i < slugs.len() implies usable(
                        #[trigger] slugs[i],
                    ) by {
                        if i > 0 {
                            assert(rest[i - 1] == slugs[i]);
                        }
                    }
                },
                Some(slug) => {
                    let i = choose|i: int|
                        0 <= i < rest.len() && #[trigger] rest[i] == slug && !usable(slug)
                            && forall|k: int| 0 <= k < i ==> usable(#[trigger] rest[k]);
                    assert(slugs[i + 1] == slug);
                    assert forall|k: int| 0 <= k < i + 1 implies usable(#[trigger] slugs[k]) by {
                        if k > 0 {
                            assert(rest[k - 1] == slugs[k]);
                        }
                    }
                },
            }
        } else {
            assert(slugs[0] == slugs[0]);
        }
    }
}

/// The file of an enterprise is named by its slug and the ending for YAML.
pub proof fn a_file_is_named_by_its_enterprise(slug: Seq<char>)
    ensures
        file_name_of(slug).len() == slug.len() + 5,
        file_name_of(slug).take(slug.len() as int) == slug,
        file_name_of(slug).skip(slug.len() as int) == ".yaml"@,
{
    reveal_strlit(".yaml");
    assert(file_name_of(slug).take(slug.len() as int) =~= slug);
    assert(file_name_of(slug).skip(slug.len() as int) =~= ".yaml"@);
}

// ---------------------------------------------------------------------------------------------
// The organizations
// ---------------------------------------------------------------------------------------------

/// Answers add up: what was read and what was not of some answers and then of others is what was
/// read and what was not of both.
pub proof fn answers_add_up<E>(
    a: Seq<(String, Result<OrgSnapshot, E>)>,
    b: Seq<(String, Result<OrgSnapshot, E>)>,
)
    ensures
        all_read(a + b) == all_read(a) + all_read(b),
        all_unread(a + b) == all_unread(a) + all_unread(b),
    decreases b.len(),
{
    if b.len() == 0 {
        assert(a + b =~= a);
        assert(all_read(a) + all_read(b) =~= all_read(a));
        assert(all_unread(a) + all_unread(b) =~= all_unread(a));
    } else {
        answers_add_up(a, b.drop_last());
        assert((a + b).drop_last() =~= a + b.drop_last());
        assert((a + b).last() == b.last());
        assert(all_read(a + b) =~= all_read(a) + all_read(b));
        assert(all_unread(a + b) =~= all_unread(a) + all_unread(b));
    }
}

/// An answer is either what was read of an organization, which is kept, or a failure, of which the
/// login is kept.
pub proof fn an_answer_is_read_or_failed<E>(login: String, snapshot: OrgSnapshot, error: E)
    ensures
        all_read(seq![(login, Ok::<OrgSnapshot, E>(snapshot))]) == seq![snapshot],
        all_unread(seq![(login, Ok::<OrgSnapshot, E>(snapshot))]) == Seq::<Seq<char>>::empty(),
        all_read(seq![(login, Err::<OrgSnapshot, E>(error))]) == Seq::<OrgSnapshot>::empty(),
        all_unread(seq![(login, Err::<OrgSnapshot, E>(error))]) == seq![login@],
{
    reveal_with_fuel(Seq::filter_map, 2);
    let ok = seq![(login, Ok::<OrgSnapshot, E>(snapshot))];
    let bad = seq![(login, Err::<OrgSnapshot, E>(error))];
    assert(all_read(ok) =~= seq![snapshot]);
    assert(all_unread(ok) =~= Seq::<Seq<char>>::empty());
    assert(all_read(bad) =~= Seq::<OrgSnapshot>::empty());
    assert(all_unread(bad) =~= seq![login@]);
}

/// Every organization that was read or failed is among those that were read or failed.
pub proof fn no_answer_is_lost<E>(answers: Seq<(String, Result<OrgSnapshot, E>)>, i: int)
    requires
        0 <= i < answers.len(),
    ensures
        answers[i].1 matches Ok(snapshot) ==> all_read(answers).contains(snapshot),
        answers[i].1 is Err ==> all_unread(answers).contains(answers[i].0@),
        all_read(answers).len() + all_unread(answers).len() == answers.len(),
    decreases answers.len(),
{
    let front = answers.drop_last();
    if i < front.len() {
        no_answer_is_lost(front, i);
        assert(front[i] == answers[i]);
        if let Ok(snapshot) = answers[i].1 {
            let k = choose|k: int| 0 <= k < all_read(front).len() && all_read(front)[k] == snapshot;
            assert(all_read(answers)[k] == snapshot);
        } else {
            let k = choose|k: int|
                0 <= k < all_unread(front).len() && all_unread(front)[k] == answers[i].0@;
            assert(all_unread(answers)[k] == answers[i].0@);
        }
    } else {
        if let Ok(snapshot) = answers[i].1 {
            assert(all_read(answers)[all_read(answers).len() - 1] == snapshot);
        } else {
            assert(all_unread(answers)[all_unread(answers).len() - 1] == answers[i].0@);
        }
        if front.len() > 0 {
            no_answer_is_lost(front, 0);
        }
    }
}

// ---------------------------------------------------------------------------------------------
// The end
// ---------------------------------------------------------------------------------------------

/// Failures add up: each enterprise that was not exported counts one, and no other counts.
pub proof fn failures_add_up(a: Seq<bool>, b: Seq<bool>)
    ensures
        failures(a + b) == failures(a) + failures(b),
        failures(seq![true]) == 0,
        failures(seq![false]) == 1,
    decreases b.len(),
{
    reveal_with_fuel(failures, 2);
    assert(seq![true].drop_last() =~= Seq::<bool>::empty());
    assert(seq![false].drop_last() =~= Seq::<bool>::empty());
    if b.len() == 0 {
        assert(a + b =~= a);
    } else {
        failures_add_up(a, b.drop_last());
        assert((a + b).drop_last() =~= a + b.drop_last());
        assert((a + b).last() == b.last());
    }
}

/// A run is filtered by what its arguments say.
pub proof fn a_run_is_filtered_by_its_arguments(args: Args)
    ensures
        args.selection().visibility == args.visibility,
        args.selection().archived == args.archived,
        args.selection().forks == args.forks,
{
}

// ---------------------------------------------------------------------------------------------
// Messages
// ---------------------------------------------------------------------------------------------

/// A name stands between backquotes in a message.
pub open spec fn names(message: Seq<char>, name: Seq<char>) -> bool {
    exists|i: int| #[trigger] stands_at(message, seq!['`'] + name + seq!['`'], i)
}

proof fn lemma_names(before: Seq<char>, name: Seq<char>, after: Seq<char>)
    requires
        before.len() > 0 && before.last() == '`',
        after.len() > 0 && after[0] == '`',
    ensures
        names(before + name + after, name),
{
    let message = before + name + after;
    let quoted = seq!['`'] + name + seq!['`'];
    let i = before.len() - 1;
    assert(message.subrange(i, i + quoted.len()) =~= quoted);
    assert(stands_at(message, quoted, i));
}

/// A message about a slug or a login names it as it is.
pub proof fn messages_name_what_they_are_about(name: String)
    ensures
        names(UsageError::UnusableSlug(name).text(), name@),
        names(ExportError::NoOrganizations(name).text(), name@),
        names(ExportError::EveryOrganizationFailed(name).text(), name@),
        names(CollectError::NoEnterprise(name).text(), name@),
        names(CollectError::NoOrganization(name).text(), name@),
{
    reveal_strlit("`");
    reveal_strlit("` is not a usable enterprise slug");
    reveal_strlit("enterprise `");
    reveal_strlit("` has no organizations visible to this token");
    reveal_strlit("every organization in `");
    reveal_strlit("` failed to query");
    reveal_strlit("no enterprise named `");
    reveal_strlit("no organization named `");
    reveal_strlit("` is visible to this token");
    lemma_names("`"@, name@, "` is not a usable enterprise slug"@);
    lemma_names("enterprise `"@, name@, "` has no organizations visible to this token"@);
    lemma_names("every organization in `"@, name@, "` failed to query"@);
    lemma_names("no enterprise named `"@, name@, "` is visible to this token"@);
    lemma_names("no organization named `"@, name@, "` is visible to this token"@);
}

/// Messages about different slugs or logins differ.
pub proof fn messages_tell_names_apart(a: String, b: String)
    requires
        a@ != b@,
    ensures
        UsageError::UnusableSlug(a).text() != UsageError::UnusableSlug(b).text(),
        ExportError::NoOrganizations(a).text() != ExportError::NoOrganizations(b).text(),
        ExportError::EveryOrganizationFailed(a).text() != ExportError::EveryOrganizationFailed(
            b,
        ).text(),
        CollectError::NoEnterprise(a).text() != CollectError::NoEnterprise(b).text(),
        CollectError::NoOrganization(a).text() != CollectError::NoOrganization(b).text(),
{
    lemma_around("`"@, a@, b@, "` is not a usable enterprise slug"@);
    lemma_around("enterprise `"@, a@, b@, "` has no organizations visible to this token"@);
    lemma_around("every organization in `"@, a@, b@, "` failed to query"@);
    lemma_around("no enterprise named `"@, a@, b@, "` is visible to this token"@);
    lemma_around("no organization named `"@, a@, b@, "` is visible to this token"@);
}

proof fn lemma_around(before: Seq<char>, a: Seq<char>, b: Seq<char>, after: Seq<char>)
    requires
        a != b,
    ensures
        before + a + after != before + b + after,
{
    let (x, y) = (before + a + after, before + b + after);
    if x == y {
        assert(a.len() == b.len()) by {
            assert(x.len() == before.len() + a.len() + after.len());
            assert(y.len() == before.len() + b.len() + after.len());
        }
        assert forall|i: int| 0 <= i < a.len() implies a[i] == b[i] by {
            assert(x[before.len() + i] == a[i]);
            assert(y[before.len() + i] == b[i]);
        }
        assert(a =~= b);
    }
}

} // verus!
