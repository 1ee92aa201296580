//! What holds of every report.

use vstd::prelude::*;
use crate::collect::laws::{
    every_condition_has_to_let_through, the_archived_state_sent_is_the_one_recorded,
    the_fork_state_sent_is_the_one_recorded, the_visibility_sent_is_the_one_recorded,
};
use crate::collect::{Filter, OrgSnapshot};
use crate::model::{opt_text, RepoNode, RepositoryTopic, RepositoryView};
use crate::report::{
    listing, listings, logins, present, report_of, repository_key, repository_of, topic_name,
    topic_names,
};
use crate::run::{all_read, all_unread, read, unread};
use crate::sort::laws::{
    changes, lemma_times_add, only_repetitions_are_dropped, sorted_texts_never_descend,
    sorting_keeps_every_item_as_often, times,
};
use crate::sort::{
    arrival_order_does_not_matter, ascending, dropping_repeats_keeps_the_order, folded, itself,
    key_le, keyed_by, keys_differ, lemma_keyed_by_add, lemma_keyed_by_none, lemma_sorted_alike,
    lemma_sorted_by, lemma_sorted_len, same_items, sorted_by, sorting_keeps_the_items, SortKey,
};
use crate::text::laws::{
    amid_whitespace, only_blank_texts_vanish, trimming_leaves_trimmed_texts_alone,
    trimming_takes_whitespace_only,
};
use crate::text::{lemma_trimmed_ends, lowercase, text_le, whitespace};

verus! {

/// Every organization of the enterprise is listed, whether or not it has repositories and whether
/// or not it could be read. Those that could not be read, and no others, are also listed apart, so
/// that they do not look like organizations without repositories.
pub proof fn every_organization_is_listed(
    filter: Filter,
    api_url: Seq<char>,
    enterprise: Seq<char>,
    snapshots: Seq<OrgSnapshot>,
    failed: Seq<Seq<char>>,
    login: Seq<char>,
)
    ensures
        ({
            let r = report_of(filter, api_url, enterprise, snapshots, failed);
            &&& r.organizations.contains(login) <==> logins(snapshots).contains(login)
                || failed.contains(login)
            &&& r.organizations_without_repository_data.contains(login) <==> failed.contains(login)
        }),
{
    let all = logins(snapshots) + failed;
    sorting_keeps_the_items(all, folded());
    sorting_keeps_the_items(failed, folded());
    let sorted = sorted_by(all, folded());
    assert(sorted.contains(login) <==> all.contains(login));
    if logins(snapshots).contains(login) {
        let i = choose|i: int| 0 <= i < logins(snapshots).len() && logins(snapshots)[i] == login;
        assert(all[i] == login);
    }
    if failed.contains(login) {
        let i = choose|i: int| 0 <= i < failed.len() && failed[i] == login;
        assert(all[logins(snapshots).len() + i] == login);
    }
    if all.contains(login) {
        let i = choose|i: int| 0 <= i < all.len() && all[i] == login;
        if i < logins(snapshots).len() {
            assert(logins(snapshots)[i] == login);
        } else {
            assert(failed[i - logins(snapshots).len()] == login);
        }
    }
}

/// A repository that was read of one of the organizations.
pub open spec fn was_read(snapshots: Seq<OrgSnapshot>, r: RepositoryView) -> bool {
    exists|i: int| 0 <= i < snapshots.len() && listing(#[trigger] snapshots[i]).contains(r)
}

proof fn lemma_listings(snapshots: Seq<OrgSnapshot>, r: RepositoryView)
    ensures
        listings(snapshots).contains(r) <==> was_read(snapshots, r),
    decreases snapshots.len(),
{
    let all = listings(snapshots);
    if snapshots.len() > 0 {
        let front = snapshots.drop_last();
        let last = snapshots.last();
        lemma_listings(front, r);
        if all.contains(r) {
            let i = choose|i: int| 0 <= i < all.len() && all[i] == r;
            if i < listings(front).len() {
                assert(listings(front)[i] == r);
                let j = choose|j: int| 0 <= j < front.len() && listing(#[trigger] front[j]).contains(r);
                assert(snapshots[j] == front[j]);
            } else {
                assert(listing(last)[i - listings(front).len()] == r);
                assert(snapshots[snapshots.len() - 1] == last);
            }
        }
        if was_read(snapshots, r) {
            let j = choose|j: int|
                0 <= j < snapshots.len() && listing(#[trigger] snapshots[j]).contains(r);
            if j < front.len() {
                assert(front[j] == snapshots[j]);
                let i = choose|i: int| 0 <= i < listings(front).len() && listings(front)[i] == r;
                assert(all[i] == r);
            } else {
                let i = choose|i: int| 0 <= i < listing(last).len() && listing(last)[i] == r;
                assert(all[listings(front).len() + i] == r);
            }
        }
    }
}

/// A report lists the repositories that were read, and no others.
pub proof fn every_repository_is_listed(
    filter: Filter,
    api_url: Seq<char>,
    enterprise: Seq<char>,
    snapshots: Seq<OrgSnapshot>,
    failed: Seq<Seq<char>>,
    repository: RepositoryView,
)
    ensures
        report_of(filter, api_url, enterprise, snapshots, failed).repositories.contains(repository)
            <==> was_read(snapshots, repository),
{
    lemma_listings(snapshots, repository);
    sorting_keeps_the_items(listings(snapshots), repository_key());
    assert(sorted_by(listings(snapshots), repository_key()).contains(repository)
        <==> listings(snapshots).contains(repository));
}

/// The totals are those of the lists, and the lists have an entry for each organization and for
/// each repository that was read.
pub proof fn totals_count_the_lists(
    filter: Filter,
    api_url: Seq<char>,
    enterprise: Seq<char>,
    snapshots: Seq<OrgSnapshot>,
    failed: Seq<Seq<char>>,
)
    ensures
        ({
            let r = report_of(filter, api_url, enterprise, snapshots, failed);
            &&& r.totals == (r.organizations.len(), r.repositories.len())
            &&& r.organizations.len() == snapshots.len() + failed.len()
            &&& r.organizations_without_repository_data.len() == failed.len()
            &&& r.repositories.len() == listings(snapshots).len()
        }),
{
    sorting_keeps_the_items(logins(snapshots) + failed, folded());
    sorting_keeps_the_items(failed, folded());
    sorting_keeps_the_items(listings(snapshots), repository_key());
}

/// Organizations are in order of their logins, repositories in order of organization and name, all
/// without regard to case.
pub proof fn a_report_is_in_order(
    filter: Filter,
    api_url: Seq<char>,
    enterprise: Seq<char>,
    snapshots: Seq<OrgSnapshot>,
    failed: Seq<Seq<char>>,
)
    ensures
        ({
            let r = report_of(filter, api_url, enterprise, snapshots, failed);
            &&& ascending(r.organizations, folded())
            &&& ascending(r.organizations_without_repository_data, folded())
            &&& ascending(r.repositories, repository_key())
        }),
{
    lemma_sorted_by(logins(snapshots) + failed, folded());
    lemma_sorted_by(failed, folded());
    lemma_sorted_by(listings(snapshots), repository_key());
}

/// The topics of a repository are those that could be read, in order without regard to case, and
/// none of them twice in a row.
pub proof fn topics_are_in_order(org: Seq<char>, repo: RepoNode)
    ensures
        ({
            let topics = repository_of(org, repo).topics;
            &&& ascending(topics, folded())
            &&& same_items(topics, topic_names(repo.repository_topics))
            &&& forall|i: int| 0 < i < topics.len() ==> #[trigger] topics[i] != topics[i - 1]
            &&& repo.repository_topics is None ==> topics.len() == 0
        }),
{
    let names = topic_names(repo.repository_topics);
    let sorted = sorted_by(names, folded());
    lemma_sorted_by(names, folded());
    sorting_keeps_the_items(names, folded());
    dropping_repeats_keeps_the_order(sorted, folded());
    let topics = repository_of(org, repo).topics;
    assert forall|t: Seq<char>| #[trigger] topics.contains(t) <==> names.contains(t) by {
        assert(topics.contains(t) <==> sorted.contains(t));
        assert(sorted.contains(t) <==> names.contains(t));
    }
}

/// A text that a report keeps is not blank and has no whitespace around it.
pub proof fn a_kept_text_is_not_blank(s: Option<Seq<char>>)
    ensures
        present(s) matches Some(kept) ==> kept.len() > 0 && !whitespace(kept[0]) && !whitespace(
            kept.last(),
        ),
{
    if let Some(s) = s {
        lemma_trimmed_ends(s);
    }
}

// ---------------------------------------------------------------------------------------------
// The order in which answers arrive
// ---------------------------------------------------------------------------------------------

/// What tells organizations apart: their logins without regard to case.
pub open spec fn org_key() -> spec_fn(OrgSnapshot) -> Seq<char> {
    |s: OrgSnapshot| lowercase(s.login@)
}

/// What tells answers apart: the logins asked for, without regard to case.
pub open spec fn answer_key<E>() -> spec_fn((String, Result<OrgSnapshot, E>)) -> Seq<char> {
    |a: (String, Result<OrgSnapshot, E>)| lowercase(a.0@)
}

/// Each organization was asked for once, and what was read is of the organization asked for.
pub open spec fn one_answer_each<E>(answers: Seq<(String, Result<OrgSnapshot, E>)>) -> bool {
    &&& keys_differ(answers, answer_key())
    &&& forall|i: int|
        0 <= i < answers.len() ==> ((#[trigger] answers[i]).1 matches Ok(snapshot)
            ==> snapshot.login@ == answers[i].0@)
}

proof fn lemma_no_match(s: OrgSnapshot, k: SortKey)
    requires
        lowercase(s.login@) != k.0,
    ensures
        keyed_by(listing(s), repository_key(), k) == Seq::<RepositoryView>::empty(),
{
    assert forall|i: int| 0 <= i < listing(s).len() implies repository_key()(
        #[trigger] listing(s)[i],
    ) != k by {
        assert(listing(s)[i].org == s.login@);
    }
    lemma_keyed_by_none(listing(s), repository_key(), k);
}

/// The repositories with a key are those of the one organization that can have them.
proof fn lemma_keyed_listings(snapshots: Seq<OrgSnapshot>, k: SortKey, i: int)
    requires
        keys_differ(snapshots, org_key()),
        0 <= i < snapshots.len() ==> lowercase(snapshots[i].login@) == k.0,
        !(0 <= i < snapshots.len()) ==> forall|j: int|
            0 <= j < snapshots.len() ==> lowercase((#[trigger] snapshots[j]).login@) != k.0,
    ensures
        keyed_by(listings(snapshots), repository_key(), k) == (if 0 <= i < snapshots.len() {
            keyed_by(listing(snapshots[i]), repository_key(), k)
        } else {
            Seq::<RepositoryView>::empty()
        }),
    decreases snapshots.len(),
{
    if snapshots.len() == 0 {
        lemma_keyed_by_none(listings(snapshots), repository_key(), k);
    } else {
        let n = snapshots.len() - 1;
        let front = snapshots.drop_last();
        let last = snapshots.last();
        lemma_keyed_by_add(listings(front), listing(last), repository_key(), k);
        assert(keys_differ(front, org_key()));
        if i == n {
            assert forall|j: int| 0 <= j < front.len() implies lowercase(
                (#[trigger] front[j]).login@,
            ) != k.0 by {
                assert(org_key()(snapshots[j]) != org_key()(snapshots[n]));
            }
            lemma_keyed_listings(front, k, -1);
            assert(keyed_by(listings(snapshots), repository_key(), k) =~= keyed_by(
                listing(last),
                repository_key(),
                k,
            ));
        } else {
            if 0 <= i < n {
                assert(org_key()(snapshots[i]) != org_key()(snapshots[n]));
                assert(front[i] == snapshots[i]);
                lemma_keyed_listings(front, k, i);
            } else {
                assert forall|j: int| 0 <= j < front.len() implies lowercase(
                    (#[trigger] front[j]).login@,
                ) != k.0 by {
                    assert(front[j] == snapshots[j]);
                }
                assert(lowercase(snapshots[n].login@) != k.0);
                lemma_keyed_listings(front, k, -1);
            }
            lemma_no_match(last, k);
            assert(keyed_by(listings(snapshots), repository_key(), k) =~= keyed_by(
                listings(front),
                repository_key(),
                k,
            ));
        }
    }
}

proof fn lemma_listings_arrival(a: Seq<OrgSnapshot>, b: Seq<OrgSnapshot>)
    requires
        keys_differ(a, org_key()),
        keys_differ(b, org_key()),
        same_items(a, b),
    ensures
        sorted_by(listings(a), repository_key()) == sorted_by(listings(b), repository_key()),
{
    assert forall|k: SortKey| #[trigger] keyed_by(listings(a), repository_key(), k) == keyed_by(
        listings(b),
        repository_key(),
        k,
    ) by {
        if exists|i: int| 0 <= i < a.len() && lowercase((#[trigger] a[i]).login@) == k.0 {
            let i = choose|i: int| 0 <= i < a.len() && lowercase((#[trigger] a[i]).login@) == k.0;
            assert(a.contains(a[i]));
            assert(b.contains(a[i]));
            let j = choose|j: int| 0 <= j < b.len() && b[j] == a[i];
            lemma_keyed_listings(a, k, i);
            lemma_keyed_listings(b, k, j);
        } else {
            assert forall|j: int| 0 <= j < b.len() implies lowercase((#[trigger] b[j]).login@)
                != k.0 by {
                assert(b.contains(b[j]));
                assert(a.contains(b[j]));
                let i = choose|i: int| 0 <= i < a.len() && a[i] == b[j];
                assert(lowercase(a[i].login@) != k.0);
            }
            lemma_keyed_listings(a, k, -1);
            lemma_keyed_listings(b, k, -1);
        }
    }
    lemma_sorted_alike(listings(a), listings(b), repository_key());
}

/// What is picked from a sequence comes from one of its items.
proof fn lemma_picked<A, B>(s: Seq<A>, f: spec_fn(A) -> Option<B>, y: B)
    ensures
        s.filter_map(f).contains(y) <==> exists|i: int|
            0 <= i < s.len() && f(#[trigger] s[i]) == Some(y),
    decreases s.len(),
{
    let out = s.filter_map(f);
    if s.len() > 0 {
        let front = s.drop_last();
        let before = front.filter_map(f);
        lemma_picked(front, f, y);
        if out.contains(y) {
            let i = choose|i: int| 0 <= i < out.len() && out[i] == y;
            if i < before.len() {
                assert(before[i] == y);
                let j = choose|j: int| 0 <= j < front.len() && f(#[trigger] front[j]) == Some(y);
                assert(f(s[j]) == Some(y));
            } else {
                assert(f(s[s.len() - 1]) == Some(y));
            }
        }
        if exists|i: int| 0 <= i < s.len() && f(#[trigger] s[i]) == Some(y) {
            let i = choose|i: int| 0 <= i < s.len() && f(#[trigger] s[i]) == Some(y);
            if i < front.len() {
                assert(f(front[i]) == Some(y));
                let j = choose|j: int| 0 <= j < before.len() && before[j] == y;
                assert(out[j] == y);
            } else {
                assert(out[out.len() - 1] == y);
            }
        }
    }
}

/// What is picked from items that differ differs too, if it can be told where it came from.
proof fn lemma_picked_differ<A, B, K>(
    s: Seq<A>,
    f: spec_fn(A) -> Option<B>,
    key: spec_fn(A) -> K,
    picked_key: spec_fn(B) -> K,
)
    requires
        keys_differ(s, key),
        forall|i: int|
            0 <= i < s.len() ==> (f(#[trigger] s[i]) matches Some(y) ==> picked_key(y) == key(
                s[i],
            )),
    ensures
        keys_differ(s.filter_map(f), picked_key),
    decreases s.len(),
{
    if s.len() > 0 {
        let n = s.len() - 1;
        let front = s.drop_last();
        let before = front.filter_map(f);
        let out = s.filter_map(f);
        assert forall|i: int| 0 <= i < front.len() implies (f(#[trigger] front[i]) matches Some(y)
            ==> picked_key(y) == key(front[i])) by {
            assert(front[i] == s[i]);
        }
        lemma_picked_differ(front, f, key, picked_key);
        assert forall|i: int, j: int| 0 <= i < j < out.len() implies picked_key(#[trigger] out[i])
            != picked_key(#[trigger] out[j]) by {
            if j < before.len() {
                assert(out[i] == before[i] && out[j] == before[j]);
            } else {
                assert(out[i] == before[i]);
                lemma_picked(front, f, before[i]);
                assert(before.contains(before[i]));
                let m = choose|m: int|
                    0 <= m < front.len() && f(#[trigger] front[m]) == Some(before[i]);
                assert(front[m] == s[m]);
                assert(f(s[n]) == Some(out[j]));
                assert(key(s[m]) != key(s[n]));
            }
        }
    }
}

/// The logins in the answers are those that were read and those that were not.
proof fn lemma_logins<E>(answers: Seq<(String, Result<OrgSnapshot, E>)>)
    requires
        one_answer_each(answers),
    ensures
        keys_differ(logins(all_read(answers)) + all_unread(answers), folded()),
        keys_differ(all_read(answers), org_key()),
        keys_differ(all_unread(answers), folded()),
{
    let f = |a: (String, Result<OrgSnapshot, E>)| read(a);
    let g = |a: (String, Result<OrgSnapshot, E>)| unread(a);
    let plain = |s: Seq<char>| lowercase(s);
    lemma_picked_differ(answers, f, answer_key(), org_key());
    lemma_picked_differ(answers, g, answer_key(), plain);
    let ok = all_read(answers);
    let bad = all_unread(answers);
    let all = logins(ok) + bad;
    assert forall|i: int, j: int| 0 <= i < j < bad.len() implies folded()(#[trigger] bad[i])
        != folded()(#[trigger] bad[j]) by {
        assert(plain(bad[i]) != plain(bad[j]));
    }
    assert forall|i: int, j: int| 0 <= i < j < all.len() implies folded()(#[trigger] all[i])
        != folded()(#[trigger] all[j]) by {
        if j < ok.len() {
            assert(all[i] == ok[i].login@ && all[j] == ok[j].login@);
            assert(org_key()(ok[i]) != org_key()(ok[j]));
        } else if i >= ok.len() {
            let (x, y) = (i - ok.len(), j - ok.len());
            assert(all[i] == bad[x] && all[j] == bad[y]);
        } else {
            let y = j - ok.len();
            assert(all[i] == ok[i].login@ && all[j] == bad[y]);
            lemma_picked(answers, f, ok[i]);
            lemma_picked(answers, g, bad[y]);
            assert(ok.contains(ok[i]));
            assert(bad.contains(bad[y]));
            let m = choose|m: int| 0 <= m < answers.len() && f(#[trigger] answers[m]) == Some(ok[i]);
            let n = choose|n: int| 0 <= n < answers.len() && g(#[trigger] answers[n]) == Some(bad[y]);
            assert(answers[m].0@ == ok[i].login@);
            assert(m != n);
            if m < n {
                assert(answer_key()(answers[m]) != answer_key()(answers[n]));
            } else {
                assert(answer_key()(answers[n]) != answer_key()(answers[m]));
            }
        }
    }
}

proof fn lemma_picked_same<A, B>(a: Seq<A>, b: Seq<A>, f: spec_fn(A) -> Option<B>)
    requires
        same_items(a, b),
    ensures
        same_items(a.filter_map(f), b.filter_map(f)),
{
    assert forall|y: B| #[trigger] a.filter_map(f).contains(y) <==> b.filter_map(f).contains(y) by {
        lemma_picked(a, f, y);
        lemma_picked(b, f, y);
        if a.filter_map(f).contains(y) {
            let i = choose|i: int| 0 <= i < a.len() && f(#[trigger] a[i]) == Some(y);
            assert(a.contains(a[i]));
            let j = choose|j: int| 0 <= j < b.len() && b[j] == a[i];
            assert(f(b[j]) == Some(y));
        }
        if b.filter_map(f).contains(y) {
            let j = choose|j: int| 0 <= j < b.len() && f(#[trigger] b[j]) == Some(y);
            assert(b.contains(b[j]));
            assert(a.contains(b[j]));
            let i = choose|i: int| 0 <= i < a.len() && a[i] == b[j];
            assert(f(a[i]) == Some(y));
        }
    }
}

proof fn lemma_logins_same(
    a: Seq<OrgSnapshot>,
    b: Seq<OrgSnapshot>,
    failed_a: Seq<Seq<char>>,
    failed_b: Seq<Seq<char>>,
)
    requires
        same_items(a, b),
        same_items(failed_a, failed_b),
    ensures
        same_items(logins(a) + failed_a, logins(b) + failed_b),
{
    assert forall|x: Seq<char>| #[trigger]
        (logins(a) + failed_a).contains(x) implies (logins(b) + failed_b).contains(x) by {
        lemma_login_carries_over(a, b, failed_a, failed_b, x);
    }
    assert forall|x: Seq<char>| #[trigger]
        (logins(b) + failed_b).contains(x) implies (logins(a) + failed_a).contains(x) by {
        assert forall|s: OrgSnapshot| #[trigger] b.contains(s) <==> a.contains(s) by {
            assert(a.contains(s) <==> b.contains(s));
        }
        assert forall|s: Seq<char>| #[trigger] failed_b.contains(s) <==> failed_a.contains(s) by {
            assert(failed_a.contains(s) <==> failed_b.contains(s));
        }
        lemma_login_carries_over(b, a, failed_b, failed_a, x);
    }
}

proof fn lemma_login_carries_over(
    a: Seq<OrgSnapshot>,
    b: Seq<OrgSnapshot>,
    failed_a: Seq<Seq<char>>,
    failed_b: Seq<Seq<char>>,
    x: Seq<char>,
)
    requires
        same_items(a, b),
        same_items(failed_a, failed_b),
        (logins(a) + failed_a).contains(x),
    ensures
        (logins(b) + failed_b).contains(x),
{
    let all = logins(a) + failed_a;
    let i = choose|i: int| 0 <= i < all.len() && all[i] == x;
    if i < a.len() {
        assert(a.contains(a[i]));
        let j = choose|j: int| 0 <= j < b.len() && b[j] == a[i];
        assert((logins(b) + failed_b)[j] == x);
    } else {
        assert(failed_a[i - a.len()] == x);
        assert(failed_a.contains(x));
        let j = choose|j: int| 0 <= j < failed_b.len() && failed_b[j] == x;
        assert((logins(b) + failed_b)[b.len() + j] == x);
    }
}

/// The order in which organizations were read makes no difference to the report.
pub proof fn arrival_order_does_not_show<E>(
    filter: Filter,
    api_url: Seq<char>,
    enterprise: Seq<char>,
    a: Seq<(String, Result<OrgSnapshot, E>)>,
    b: Seq<(String, Result<OrgSnapshot, E>)>,
)
    requires
        one_answer_each(a),
        one_answer_each(b),
        same_items(a, b),
    ensures
        report_of(filter, api_url, enterprise, all_read(a), all_unread(a)) == report_of(
            filter,
            api_url,
            enterprise,
            all_read(b),
            all_unread(b),
        ),
{
    lemma_logins(a);
    lemma_logins(b);
    lemma_picked_same(a, b, |x: (String, Result<OrgSnapshot, E>)| read(x));
    lemma_picked_same(a, b, |x: (String, Result<OrgSnapshot, E>)| unread(x));
    lemma_logins_same(all_read(a), all_read(b), all_unread(a), all_unread(b));
    arrival_order_does_not_matter(
        logins(all_read(a)) + all_unread(a),
        logins(all_read(b)) + all_unread(b),
        folded(),
    );
    arrival_order_does_not_matter(all_unread(a), all_unread(b), folded());
    lemma_listings_arrival(all_read(a), all_read(b));
}

// ---------------------------------------------------------------------------------------------
// One repository
// ---------------------------------------------------------------------------------------------

/// A flag of a repository is set in the report exactly if GitHub says that it is; one that could
/// not be read counts as not set.
pub proof fn flags_are_reported_as_read(org: Seq<char>, repo: RepoNode)
    ensures
        repository_of(org, repo).archived <==> repo.is_archived == Some(true),
        repository_of(org, repo).fork <==> repo.is_fork == Some(true),
        repository_of(org, repo).template <==> repo.is_template == Some(true),
        repository_of(org, repo).empty <==> repo.is_empty == Some(true),
{
}

/// The names of a repository, of its organization, of its branch and of its language, its counts
/// and its times are reported exactly as read.
pub proof fn names_counts_and_times_are_reported_as_read(org: Seq<char>, repo: RepoNode)
    ensures
        repository_of(org, repo).org == org,
        repository_of(org, repo).name == repo.name@,
        repository_of(org, repo).stars == repo.stargazer_count,
        repository_of(org, repo).forks == repo.fork_count,
        match repo.default_branch_ref {
            Some(branch) => repository_of(org, repo).default_branch == Some(branch.name@),
            None => repository_of(org, repo).default_branch is None,
        },
        match repo.primary_language {
            Some(language) => repository_of(org, repo).language == Some(language.name@),
            None => repository_of(org, repo).language is None,
        },
        same_text_or_none(repository_of(org, repo).created_at, repo.created_at),
        same_text_or_none(repository_of(org, repo).updated_at, repo.updated_at),
        same_text_or_none(repository_of(org, repo).pushed_at, repo.pushed_at),
{
}

/// The text of a string, or none for none.
pub open spec fn same_text_or_none(text: Option<Seq<char>>, s: Option<String>) -> bool {
    match s {
        Some(s) => text == Some(s@),
        None => text is None,
    }
}

/// A text as it is reported: none if there was none or nothing but whitespace, and otherwise what
/// is left between the whitespace around it.
pub open spec fn reported_trimmed(text: Option<Seq<char>>, s: Option<String>) -> bool {
    match (text, s) {
        (None, None) => true,
        (None, Some(s)) => forall|i: int| 0 <= i < s@.len() ==> whitespace(#[trigger] s@[i]),
        (Some(_), None) => false,
        (Some(t), Some(s)) => {
            &&& exists|i: int, j: int| #[trigger] amid_whitespace(t, s@, i, j)
            &&& t.len() > 0 && !whitespace(t[0]) && !whitespace(t.last())
        },
    }
}

proof fn lemma_reported_trimmed(s: Option<String>)
    ensures
        reported_trimmed(present(opt_text(s)), s),
{
    if let Some(s) = s {
        trimming_takes_whitespace_only(s@);
        only_blank_texts_vanish(s@);
    }
}

/// Full name, URL, description and visibility are reported without the whitespace around them, and
/// not at all if that is all there is.
pub proof fn texts_are_reported_trimmed(org: Seq<char>, repo: RepoNode)
    ensures
        reported_trimmed(repository_of(org, repo).full_name, repo.name_with_owner),
        reported_trimmed(repository_of(org, repo).url, repo.url),
        reported_trimmed(repository_of(org, repo).description, repo.description),
        reported_trimmed(repository_of(org, repo).visibility, repo.visibility),
{
    lemma_reported_trimmed(repo.name_with_owner);
    lemma_reported_trimmed(repo.url);
    lemma_reported_trimmed(repo.description);
    lemma_reported_trimmed(repo.visibility);
}

/// A text that has no whitespace around it is reported as it is.
pub proof fn trimmed_texts_are_reported_as_read(org: Seq<char>, repo: RepoNode, s: String)
    requires
        s@.len() > 0,
        !whitespace(s@[0]),
        !whitespace(s@.last()),
    ensures
        repo.name_with_owner == Some(s) ==> repository_of(org, repo).full_name == Some(s@),
        repo.url == Some(s) ==> repository_of(org, repo).url == Some(s@),
        repo.description == Some(s) ==> repository_of(org, repo).description == Some(s@),
        repo.visibility == Some(s) ==> repository_of(org, repo).visibility == Some(s@),
{
    trimming_leaves_trimmed_texts_alone(s@);
}

/// The license of a repository is the SPDX id if there is one that says something, else the name.
pub proof fn a_license_is_its_id_or_else_its_name(org: Seq<char>, repo: RepoNode)
    ensures
        match repo.license_info {
            None => repository_of(org, repo).license is None,
            Some(info) => if info.spdx_id is Some && info.spdx_id->0@ != "NOASSERTION"@ {
                repository_of(org, repo).license == Some(info.spdx_id->0@)
            } else {
                same_text_or_none(repository_of(org, repo).license, info.name)
            },
        },
{
}

/// A topic of that name could be read.
pub open spec fn has_topic(repo: RepoNode, name: Seq<char>) -> bool {
    repo.repository_topics matches Some(topics) && exists|i: int|
        0 <= i < topics.nodes@.len() && names_topic(#[trigger] topics.nodes@[i], name)
}

/// A node for a topic of that name.
pub open spec fn names_topic(node: Option<RepositoryTopic>, name: Seq<char>) -> bool {
    node matches Some(node) && node.topic matches Some(topic) && topic.name@ == name
}

/// The topics of a repository are those that could be read, all of them and no others.
pub proof fn topics_are_those_that_could_be_read(org: Seq<char>, repo: RepoNode, name: Seq<char>)
    ensures
        repository_of(org, repo).topics.contains(name) <==> has_topic(repo, name),
{
    topics_are_in_order(org, repo);
    let names = topic_names(repo.repository_topics);
    assert(repository_of(org, repo).topics.contains(name) <==> names.contains(name));
    if let Some(topics) = repo.repository_topics {
        let f = |n: Option<RepositoryTopic>| topic_name(n);
        lemma_picked(topics.nodes@, f, name);
        if names.contains(name) {
            let i = choose|i: int|
                0 <= i < topics.nodes@.len() && f(#[trigger] topics.nodes@[i]) == Some(name);
            assert(names_topic(topics.nodes@[i], name));
        }
        if has_topic(repo, name) {
            let i = choose|i: int|
                0 <= i < topics.nodes@.len() && names_topic(#[trigger] topics.nodes@[i], name);
            assert(f(topics.nodes@[i]) == Some(name));
        }
    }
}

/// The topics of a repository never descend in their lowercase forms, and none comes twice in a
/// row.
pub proof fn topics_never_descend(org: Seq<char>, repo: RepoNode, i: int, j: int)
    requires
        0 <= i < j < repository_of(org, repo).topics.len(),
    ensures
        text_le(
            lowercase(repository_of(org, repo).topics[i]),
            lowercase(repository_of(org, repo).topics[j]),
        ),
        j == i + 1 ==> repository_of(org, repo).topics[i] != repository_of(org, repo).topics[j],
{
    topics_are_in_order(org, repo);
    let topics = repository_of(org, repo).topics;
    assert(key_le(folded()(topics[i]), folded()(topics[j])));
}

/// A topic is dropped only if it comes right behind itself in the order of the report: any other
/// comes out behind as many as came out before it.
pub proof fn a_topic_is_dropped_only_behind_itself(org: Seq<char>, repo: RepoNode, i: int)
    requires
        0 <= i < topic_names(repo.repository_topics).len(),
    ensures
        ({
            let all = sorted_by(topic_names(repo.repository_topics), folded());
            let topics = repository_of(org, repo).topics;
            &&& all.len() == topic_names(repo.repository_topics).len()
            &&& i == 0 || all[i] != all[i - 1] ==> changes(all, itself(), i) < topics.len()
                && topics[changes(all, itself(), i) as int] == all[i]
            &&& topics.len() == changes(all, itself(), all.len() as int)
        }),
{
    let names = topic_names(repo.repository_topics);
    let all = sorted_by(names, folded());
    lemma_sorted_by(names, folded());
    lemma_sorted_len(all, names, folded());
    only_repetitions_are_dropped(all, itself(), 0);
    if i == 0 || all[i] != all[i - 1] {
        only_repetitions_are_dropped(all, itself(), i);
    }
}

// ---------------------------------------------------------------------------------------------
// All repositories
// ---------------------------------------------------------------------------------------------

/// How many repositories were read.
pub open spec fn count_read(snapshots: Seq<OrgSnapshot>) -> nat
    decreases snapshots.len(),
{
    if snapshots.len() == 0 {
        0
    } else {
        snapshots[0].repositories@.len() + count_read(snapshots.drop_first())
    }
}

proof fn lemma_count_push(snapshots: Seq<OrgSnapshot>)
    requires
        snapshots.len() > 0,
    ensures
        count_read(snapshots) == count_read(snapshots.drop_last())
            + snapshots.last().repositories@.len(),
    decreases snapshots.len(),
{
    if snapshots.len() == 1 {
        reveal_with_fuel(count_read, 2);
    } else {
        let rest = snapshots.drop_first();
        lemma_count_push(rest);
        assert(rest.drop_last() =~= snapshots.drop_last().drop_first());
    }
}

proof fn lemma_listings_len(snapshots: Seq<OrgSnapshot>)
    ensures
        listings(snapshots).len() == count_read(snapshots),
    decreases snapshots.len(),
{
    if snapshots.len() > 0 {
        lemma_listings_len(snapshots.drop_last());
        lemma_count_push(snapshots);
    }
}

/// Every repository that was read of every organization is listed, under its organization and its
/// name and as it is described, and as many are listed and counted as were read.
pub proof fn every_repository_read_is_listed(
    filter: Filter,
    api_url: Seq<char>,
    enterprise: Seq<char>,
    snapshots: Seq<OrgSnapshot>,
    failed: Seq<Seq<char>>,
    i: int,
    j: int,
)
    requires
        0 <= i < snapshots.len(),
        0 <= j < snapshots[i].repositories@.len(),
    ensures
        ({
            let r = report_of(filter, api_url, enterprise, snapshots, failed);
            let node = snapshots[i].repositories@[j];
            exists|k: int|
                0 <= k < r.repositories.len() && (#[trigger] r.repositories[k]).org
                    == snapshots[i].login@ && r.repositories[k].name == node.name@
                    && r.repositories[k] == repository_of(snapshots[i].login@, node)
        }),
{
    let r = report_of(filter, api_url, enterprise, snapshots, failed);
    let node = snapshots[i].repositories@[j];
    let v = repository_of(snapshots[i].login@, node);
    assert(listing(snapshots[i])[j] == v);
    assert(was_read(snapshots, v));
    every_repository_is_listed(filter, api_url, enterprise, snapshots, failed, v);
    let k = choose|k: int| 0 <= k < r.repositories.len() && r.repositories[k] == v;
    assert(r.repositories[k].org == snapshots[i].login@);
}

/// As many repositories are listed, and counted, as were read.
pub proof fn as_many_repositories_are_listed_as_were_read(
    filter: Filter,
    api_url: Seq<char>,
    enterprise: Seq<char>,
    snapshots: Seq<OrgSnapshot>,
    failed: Seq<Seq<char>>,
)
    ensures
        report_of(filter, api_url, enterprise, snapshots, failed).repositories.len() == count_read(
            snapshots,
        ),
        report_of(filter, api_url, enterprise, snapshots, failed).totals.1 == count_read(snapshots),
        report_of(filter, api_url, enterprise, snapshots, failed).totals.0 == snapshots.len()
            + failed.len(),
{
    totals_count_the_lists(filter, api_url, enterprise, snapshots, failed);
    lemma_listings_len(snapshots);
}

/// How often a repository that is described like this was read.
pub open spec fn times_read(snapshots: Seq<OrgSnapshot>, r: RepositoryView) -> nat
    decreases snapshots.len(),
{
    if snapshots.len() == 0 {
        0
    } else {
        let last = snapshots.last();
        let described = Seq::new(
            last.repositories@.len(),
            |j: int| repository_of(last.login@, last.repositories@[j]),
        );
        times_read(snapshots.drop_last(), r) + times(described, r)
    }
}

proof fn lemma_times_read(snapshots: Seq<OrgSnapshot>, r: RepositoryView)
    ensures
        times(listings(snapshots), r) == times_read(snapshots, r),
    decreases snapshots.len(),
{
    if snapshots.len() > 0 {
        let last = snapshots.last();
        lemma_times_read(snapshots.drop_last(), r);
        let described = Seq::new(
            last.repositories@.len(),
            |j: int| repository_of(last.login@, last.repositories@[j]),
        );
        assert(listing(last) =~= described);
        lemma_times_add(listings(snapshots.drop_last()), listing(last), r);
    }
}

/// Every repository is listed as often as it was read.
pub proof fn repositories_are_listed_as_often_as_they_were_read(
    filter: Filter,
    api_url: Seq<char>,
    enterprise: Seq<char>,
    snapshots: Seq<OrgSnapshot>,
    failed: Seq<Seq<char>>,
    r: RepositoryView,
)
    ensures
        times(report_of(filter, api_url, enterprise, snapshots, failed).repositories, r)
            == times_read(snapshots, r),
{
    sorting_keeps_every_item_as_often(listings(snapshots), repository_key(), r);
    lemma_times_read(snapshots, r);
}

/// Nothing is listed that was not read: every listed repository is one of those of an organization
/// that was read.
pub proof fn every_listed_repository_was_read(
    filter: Filter,
    api_url: Seq<char>,
    enterprise: Seq<char>,
    snapshots: Seq<OrgSnapshot>,
    failed: Seq<Seq<char>>,
    k: int,
)
    requires
        0 <= k < report_of(filter, api_url, enterprise, snapshots, failed).repositories.len(),
    ensures
        ({
            let r = report_of(filter, api_url, enterprise, snapshots, failed);
            exists|i: int, j: int|
                0 <= i < snapshots.len() && 0 <= j < snapshots[i].repositories@.len()
                    && r.repositories[k] == repository_of(
                    snapshots[i].login@,
                    #[trigger] snapshots[i].repositories@[j],
                )
        }),
{
    let r = report_of(filter, api_url, enterprise, snapshots, failed);
    let v = r.repositories[k];
    assert(r.repositories.contains(v));
    every_repository_is_listed(filter, api_url, enterprise, snapshots, failed, v);
    let i = choose|i: int| 0 <= i < snapshots.len() && listing(#[trigger] snapshots[i]).contains(v);
    let j = choose|j: int| 0 <= j < listing(snapshots[i]).len() && listing(snapshots[i])[j] == v;
    assert(snapshots[i].repositories@[j] == snapshots[i].repositories@[j]);
}

/// Reading more organizations adds their repositories to those listed: none of the others goes.
pub proof fn repositories_add_up(a: Seq<OrgSnapshot>, b: Seq<OrgSnapshot>)
    ensures
        listings(a + b) == listings(a) + listings(b),
        count_read(a + b) == count_read(a) + count_read(b),
    decreases b.len(),
{
    if b.len() == 0 {
        assert(a + b =~= a);
        assert(listings(a) + listings(b) =~= listings(a));
    } else {
        repositories_add_up(a, b.drop_last());
        assert((a + b).drop_last() =~= a + b.drop_last());
        assert((a + b).last() == b.last());
        lemma_count_push(a + b);
        lemma_count_push(b);
        assert(listings(a + b) =~= listings(a) + listings(b));
    }
}

/// Where every repository that was read is one that the filter admits, the report says of each of
/// them what the filter asks for: only archived ones, or none; only forks, or none.
pub proof fn a_report_keeps_to_its_filter(
    filter: Filter,
    api_url: Seq<char>,
    enterprise: Seq<char>,
    snapshots: Seq<OrgSnapshot>,
    failed: Seq<Seq<char>>,
    k: int,
)
    requires
        forall|i: int, j: int|
            0 <= i < snapshots.len() && 0 <= j < snapshots[i].repositories@.len()
                ==> filter.admits(#[trigger] snapshots[i].repositories@[j]),
        0 <= k < report_of(filter, api_url, enterprise, snapshots, failed).repositories.len(),
    ensures
        ({
            let listed = report_of(
                filter,
                api_url,
                enterprise,
                snapshots,
                failed,
            ).repositories[k];
            &&& filter.archived is Only ==> listed.archived
            &&& filter.archived is Exclude ==> !listed.archived
            &&& filter.forks is Only ==> listed.fork
            &&& filter.forks is Exclude ==> !listed.fork
        }),
{
    every_listed_repository_was_read(filter, api_url, enterprise, snapshots, failed, k);
    let r = report_of(filter, api_url, enterprise, snapshots, failed);
    let (i, j) = choose|i: int, j: int|
        0 <= i < snapshots.len() && 0 <= j < snapshots[i].repositories@.len() && r.repositories[k]
            == repository_of(snapshots[i].login@, #[trigger] snapshots[i].repositories@[j]);
    let node = snapshots[i].repositories@[j];
    assert(filter.admits(node));
    every_condition_has_to_let_through(filter, node);
    flags_are_reported_as_read(snapshots[i].login@, node);
}

/// Listed repositories never descend: by the lowercase forms of their organizations, and of those
/// with the same by the lowercase forms of their names.
pub proof fn repositories_never_descend(
    filter: Filter,
    api_url: Seq<char>,
    enterprise: Seq<char>,
    snapshots: Seq<OrgSnapshot>,
    failed: Seq<Seq<char>>,
    i: int,
    j: int,
)
    requires
        0 <= i < j < report_of(filter, api_url, enterprise, snapshots, failed).repositories.len(),
    ensures
        ({
            let r = report_of(filter, api_url, enterprise, snapshots, failed).repositories;
            &&& text_le(lowercase(r[i].org), lowercase(r[j].org))
            &&& lowercase(r[i].org) == lowercase(r[j].org) ==> text_le(
                lowercase(r[i].name),
                lowercase(r[j].name),
            )
        }),
{
    lemma_sorted_by(listings(snapshots), repository_key());
    let r = sorted_by(listings(snapshots), repository_key());
    assert(key_le(repository_key()(r[i]), repository_key()(r[j])));
}

// ---------------------------------------------------------------------------------------------
// All organizations
// ---------------------------------------------------------------------------------------------

/// Every organization that was read and every one that failed is listed; every listed one is one of
/// these; those that failed, and no others, are listed apart.
pub proof fn organizations_are_those_read_and_those_that_failed(
    filter: Filter,
    api_url: Seq<char>,
    enterprise: Seq<char>,
    snapshots: Seq<OrgSnapshot>,
    failed: Seq<Seq<char>>,
)
    ensures
        ({
            let r = report_of(filter, api_url, enterprise, snapshots, failed);
            &&& forall|i: int|
                0 <= i < snapshots.len() ==> r.organizations.contains(
                    (#[trigger] snapshots[i]).login@,
                )
            &&& forall|i: int|
                0 <= i < failed.len() ==> r.organizations.contains(#[trigger] failed[i])
                    && r.organizations_without_repository_data.contains(failed[i])
            &&& forall|k: int|
                0 <= k < r.organizations_without_repository_data.len() ==> failed.contains(
                    #[trigger] r.organizations_without_repository_data[k],
                )
            &&& r.organizations.len() == snapshots.len() + failed.len()
            &&& r.organizations_without_repository_data.len() == failed.len()
        }),
{
    let r = report_of(filter, api_url, enterprise, snapshots, failed);
    totals_count_the_lists(filter, api_url, enterprise, snapshots, failed);
    assert forall|i: int| 0 <= i < snapshots.len() implies r.organizations.contains(
        (#[trigger] snapshots[i]).login@,
    ) by {
        assert(logins(snapshots)[i] == snapshots[i].login@);
        every_organization_is_listed(
            filter,
            api_url,
            enterprise,
            snapshots,
            failed,
            snapshots[i].login@,
        );
    }
    assert forall|i: int| 0 <= i < failed.len() implies r.organizations.contains(
        #[trigger] failed[i],
    ) && r.organizations_without_repository_data.contains(failed[i]) by {
        every_organization_is_listed(filter, api_url, enterprise, snapshots, failed, failed[i]);
    }
    assert forall|k: int|
        0 <= k < r.organizations_without_repository_data.len() implies failed.contains(
        #[trigger] r.organizations_without_repository_data[k],
    ) by {
        let x = r.organizations_without_repository_data[k];
        assert(r.organizations_without_repository_data.contains(x));
        every_organization_is_listed(filter, api_url, enterprise, snapshots, failed, x);
    }
}

/// Every organization is listed as often as it was read or failed.
pub proof fn organizations_are_listed_as_often_as_they_came(
    filter: Filter,
    api_url: Seq<char>,
    enterprise: Seq<char>,
    snapshots: Seq<OrgSnapshot>,
    failed: Seq<Seq<char>>,
    login: Seq<char>,
)
    ensures
        ({
            let r = report_of(filter, api_url, enterprise, snapshots, failed);
            let read = Seq::new(snapshots.len(), |i: int| snapshots[i].login@);
            &&& times(r.organizations, login) == times(read + failed, login)
            &&& times(r.organizations_without_repository_data, login) == times(failed, login)
        }),
{
    let read = Seq::new(snapshots.len(), |i: int| snapshots[i].login@);
    assert(logins(snapshots) =~= read);
    sorting_keeps_every_item_as_often(read + failed, folded(), login);
    sorting_keeps_every_item_as_often(failed, folded(), login);
}

/// Listed organizations never descend in the lowercase forms of their logins.
pub proof fn organizations_never_descend(
    filter: Filter,
    api_url: Seq<char>,
    enterprise: Seq<char>,
    snapshots: Seq<OrgSnapshot>,
    failed: Seq<Seq<char>>,
    i: int,
    j: int,
)
    requires
        0 <= i < j,
    ensures
        ({
            let r = report_of(filter, api_url, enterprise, snapshots, failed);
            &&& j < r.organizations.len() ==> text_le(
                lowercase(r.organizations[i]),
                lowercase(r.organizations[j]),
            )
            &&& j < r.organizations_without_repository_data.len() ==> text_le(
                lowercase(r.organizations_without_repository_data[i]),
                lowercase(r.organizations_without_repository_data[j]),
            )
        }),
{
    let all = logins(snapshots) + failed;
    if j < sorted_by(all, folded()).len() {
        sorted_texts_never_descend(all, i, j);
    }
    if j < sorted_by(failed, folded()).len() {
        sorted_texts_never_descend(failed, i, j);
    }
}

/// A report says where it came from, and with which filter.
pub proof fn a_report_says_where_it_came_from(
    filter: Filter,
    api_url: Seq<char>,
    enterprise: Seq<char>,
    snapshots: Seq<OrgSnapshot>,
    failed: Seq<Seq<char>>,
)
    ensures
        ({
            let source = report_of(filter, api_url, enterprise, snapshots, failed).source;
            &&& source.api_url == api_url
            &&& source.enterprise == enterprise
            &&& source.filters.visibility == "public"@ <==> filter.visibility is Public
            &&& source.filters.visibility == "private"@ <==> filter.visibility is Private
            &&& source.filters.visibility == "internal"@ <==> filter.visibility is Internal
            &&& source.filters.visibility == "all"@ <==> filter.visibility is All
            &&& source.filters.archived == "exclude"@ <==> filter.archived is Exclude
            &&& source.filters.archived == "include"@ <==> filter.archived is Include
            &&& source.filters.archived == "only"@ <==> filter.archived is Only
            &&& source.filters.forks == "exclude"@ <==> filter.forks is Exclude
            &&& source.filters.forks == "include"@ <==> filter.forks is Include
            &&& source.filters.forks == "only"@ <==> filter.forks is Only
        }),
{
    the_visibility_sent_is_the_one_recorded(filter);
    the_archived_state_sent_is_the_one_recorded(filter);
    the_fork_state_sent_is_the_one_recorded(filter);
}

} // verus!
