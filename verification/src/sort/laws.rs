//! What sorting and dropping repetitions come to.

use vstd::prelude::*;
use crate::sort::{
    distinct, folded, keyed_by, lemma_first_keyed, lemma_sorted_by, one_of_each, sorted_by,
    sorting_keeps_the_items, sorting_then_dedup_keeps_one_of_each, without_repeats, SortKey,
};
use crate::text::{lowercase, text_le};

verus! {

/// How often an item occurs.
pub open spec fn times<T>(s: Seq<T>, x: T) -> nat
    decreases s.len(),
{
    if s.len() == 0 {
        0
    } else {
        times(s.drop_last(), x) + if s.last() == x {
            1nat
        } else {
            0nat
        }
    }
}

pub proof fn lemma_times_add<T>(a: Seq<T>, b: Seq<T>, x: T)
    ensures
        times(a + b, x) == times(a, x) + times(b, x),
    decreases b.len(),
{
    if b.len() == 0 {
        assert(a + b =~= a);
    } else {
        lemma_times_add(a, b.drop_last(), x);
        assert((a + b).drop_last() =~= a + b.drop_last());
        assert((a + b).last() == b.last());
    }
}

/// Items with the same key as `x` that are `x`.
proof fn lemma_times_keyed<T>(s: Seq<T>, key: spec_fn(T) -> SortKey, x: T)
    ensures
        times(s, x) == times(keyed_by(s, key, key(x)), x),
    decreases s.len(),
{
    reveal(Seq::filter);
    if s.len() > 0 {
        lemma_times_keyed(s.drop_last(), key, x);
        let k = keyed_by(s, key, key(x));
        let before = keyed_by(s.drop_last(), key, key(x));
        if key(s.last()) == key(x) {
            assert(k == before.push(s.last()));
            assert(k.drop_last() =~= before);
        } else {
            assert(k == before);
        }
    }
}

/// Sorting keeps every item as often as it occurs.
pub proof fn sorting_keeps_every_item_as_often<T>(s: Seq<T>, key: spec_fn(T) -> SortKey, x: T)
    ensures
        times(sorted_by(s, key), x) == times(s, x),
        sorted_by(s, key).len() == s.len(),
{
    lemma_sorted_by(s, key);
    sorting_keeps_the_items(s, key);
    assert(keyed_by(sorted_by(s, key), key, key(x)) == keyed_by(s, key, key(x)));
    lemma_times_keyed(s, key, x);
    lemma_times_keyed(sorted_by(s, key), key, x);
}

/// Texts sorted without regard to case never descend in their lowercase forms.
pub proof fn sorted_texts_never_descend(s: Seq<Seq<char>>, i: int, j: int)
    requires
        0 <= i <= j < sorted_by(s, folded()).len(),
    ensures
        text_le(lowercase(sorted_by(s, folded())[i]), lowercase(sorted_by(s, folded())[j])),
{
    lemma_sorted_by(s, folded());
    let out = sorted_by(s, folded());
    assert(crate::sort::key_le(folded()(out[i]), folded()(out[j])));
}

/// Texts that agree in their lowercase forms stay in their order: what is sorted already does not
/// change, whatever the cases of its letters are.
pub proof fn what_is_in_order_stays(s: Seq<Seq<char>>)
    requires
        forall|i: int, j: int|
            0 <= i <= j < s.len() ==> text_le(
                lowercase(#[trigger] s[i]),
                lowercase(#[trigger] s[j]),
            ),
    ensures
        sorted_by(s, folded()) == s,
{
    assert forall|i: int, j: int| 0 <= i <= j < s.len() implies crate::sort::key_le(
        #[trigger] folded()(s[i]),
        #[trigger] folded()(s[j]),
    ) by {
        assert(text_le(lowercase(s[i]), lowercase(s[j])));
    }
    crate::sort::lemma_is_sorted_by(s, s, folded());
}

/// Of texts that agree in their lowercase forms, all that were sorted come out in their order.
pub proof fn sorting_is_stable(s: Seq<Seq<char>>, low: Seq<char>)
    ensures
        sorted_by(s, folded()).filter(|t: Seq<char>| lowercase(t) == low) == s.filter(
            |t: Seq<char>| lowercase(t) == low,
        ),
{
    lemma_sorted_by(s, folded());
    let k = (low, Seq::<char>::empty());
    let p = |t: Seq<char>| lowercase(t) == low;
    let out = sorted_by(s, folded());
    assert(keyed_by(out, folded(), k) == keyed_by(s, folded(), k));
    let q = crate::sort::has_key(folded(), k);
    assert forall|t: Seq<char>| #[trigger] p(t) == q(t) by {}
    lemma_same_filter(out, p, q);
    lemma_same_filter(s, p, q);
}

proof fn lemma_same_filter<T>(s: Seq<T>, p: spec_fn(T) -> bool, q: spec_fn(T) -> bool)
    requires
        forall|x: T| #[trigger] p(x) == q(x),
    ensures
        s.filter(p) == s.filter(q),
    decreases s.len(),
{
    reveal(Seq::filter);
    if s.len() > 0 {
        lemma_same_filter(s.drop_last(), p, q);
        assert(p(s.last()) == q(s.last()));
    }
}

// ---------------------------------------------------------------------------------------------
// Repetitions
// ---------------------------------------------------------------------------------------------

/// How many items before `n` differ from the one just before them, the first counted in.
pub open spec fn changes<T, K>(s: Seq<T>, key: spec_fn(T) -> K, n: int) -> nat
    decreases n,
{
    if n <= 0 {
        0
    } else {
        changes(s, key, n - 1) + if n == 1 || key(s[n - 1]) != key(s[n - 2]) {
            1nat
        } else {
            0nat
        }
    }
}

proof fn lemma_changes_prefix<T, K>(s: Seq<T>, t: Seq<T>, key: spec_fn(T) -> K, n: int)
    requires
        n <= s.len(),
        n <= t.len(),
        forall|i: int| 0 <= i < n ==> #[trigger] s[i] == t[i],
    ensures
        changes(s, key, n) == changes(t, key, n),
    decreases n,
{
    if n > 0 {
        lemma_changes_prefix(s, t, key, n - 1);
        assert(s[n - 1] == t[n - 1]);
        if n > 1 {
            assert(s[n - 2] == t[n - 2]);
        }
    }
}

/// Dropping repetitions keeps an item exactly if it differs from the one just before it, and keeps
/// the order: the item at `i` that does so comes out behind as many others as did so before it.
pub proof fn only_repetitions_are_dropped<T, K>(s: Seq<T>, key: spec_fn(T) -> K, i: int)
    requires
        0 <= i < s.len(),
        i == 0 || key(s[i]) != key(s[i - 1]),
    ensures
        changes(s, key, i) < without_repeats(s, key).len(),
        without_repeats(s, key)[changes(s, key, i) as int] == s[i],
        without_repeats(s, key).len() == changes(s, key, s.len() as int),
    decreases s.len(),
{
    lemma_kept_count(s, key);
    let n = s.len() as int;
    if n > 1 {
        let front = s.drop_last();
        lemma_kept_count(front, key);
        lemma_changes_prefix(s, front, key, i);
        lemma_changes_prefix(s, front, key, n - 1);
        if i < n - 1 {
            assert(front[i] == s[i]);
            if i > 0 {
                assert(front[i - 1] == s[i - 1]);
            }
            only_repetitions_are_dropped(front, key, i);
        }
    }
}

proof fn lemma_kept_count<T, K>(s: Seq<T>, key: spec_fn(T) -> K)
    ensures
        without_repeats(s, key).len() == changes(s, key, s.len() as int),
    decreases s.len(),
{
    let n = s.len() as int;
    if n > 1 {
        let front = s.drop_last();
        lemma_kept_count(front, key);
        lemma_changes_prefix(s, front, key, n - 1);
    } else if n == 1 {
        reveal_with_fuel(changes, 2);
    }
}

/// Each text is represented once, without regard to case, by the first of those that agree with it:
/// two of the texts that are kept differ in their lowercase forms.
pub proof fn kept_texts_differ_in_more_than_case(s: Seq<Seq<char>>, i: int, j: int)
    requires
        0 <= i < j < distinct(s).len(),
    ensures
        lowercase(distinct(s)[i]) != lowercase(distinct(s)[j]),
        text_le(lowercase(distinct(s)[i]), lowercase(distinct(s)[j])),
{
    sorting_then_dedup_keeps_one_of_each(s, folded());
    let r = distinct(s);
    assert(one_of_each(r, s, folded()));
    assert(folded()(r[i]) != folded()(r[j]));
    assert(crate::sort::key_le(folded()(r[i]), folded()(r[j])));
}

/// The first text of those that agree in their lowercase forms is kept.
pub proof fn the_first_of_its_kind_is_kept(s: Seq<Seq<char>>, i: int)
    requires
        0 <= i < s.len(),
        forall|k: int| 0 <= k < i ==> lowercase(#[trigger] s[k]) != lowercase(s[i]),
    ensures
        distinct(s).contains(s[i]),
{
    sorting_then_dedup_keeps_one_of_each(s, folded());
    let r = distinct(s);
    let k = folded()(s[i]);
    assert(crate::sort::occurs(r, folded(), folded()(s[i])));
    let j = choose|j: int| 0 <= j < r.len() && folded()(#[trigger] r[j]) == k;
    assert(keyed_by(s, folded(), folded()(r[j]))[0] == r[j]);
    let f = lemma_first_keyed(s, folded(), k);
    if f < i {
        assert(folded()(s[f]) == k);
        assert(lowercase(s[f]) == lowercase(s[i]));
    } else if f > i {
        assert(folded()(s[i]) != k);
    }
}

/// Nothing is kept that is not there.
pub proof fn kept_texts_are_given(s: Seq<Seq<char>>, j: int)
    requires
        0 <= j < distinct(s).len(),
    ensures
        s.contains(distinct(s)[j]),
{
    sorting_then_dedup_keeps_one_of_each(s, folded());
    let r = distinct(s);
    let k = folded()(r[j]);
    assert(keyed_by(s, folded(), folded()(r[j]))[0] == r[j]);
    let f = lemma_first_keyed(s, folded(), k);
    assert(s[f] == r[j]);
}

} // verus!
