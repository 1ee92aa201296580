//! Stable sorting by lowercase text, and dropping adjacent repetitions.

pub mod laws;

use vstd::prelude::*;
use crate::text::{lowercase, not_after, same_text, text_le};
use crate::text::{lemma_text_le_antisymmetric, lemma_text_le_total, lemma_text_le_transitive};

verus! {

/// What items are ordered by: a text, and a second one among items that agree on the first.
pub type SortKey = (Seq<char>, Seq<char>);

pub open spec fn key_le(a: SortKey, b: SortKey) -> bool {
    text_le(a.0, b.0) && (a.0 == b.0 ==> text_le(a.1, b.1))
}

/// The keys of `s` never descend.
pub open spec fn ascending<T>(s: Seq<T>, key: spec_fn(T) -> SortKey) -> bool {
    forall|i: int, j: int|
        0 <= i <= j < s.len() ==> key_le(#[trigger] key(s[i]), #[trigger] key(s[j]))
}

/// Whether an item has the key `k`.
pub open spec fn has_key<T>(key: spec_fn(T) -> SortKey, k: SortKey) -> spec_fn(T) -> bool {
    |x: T| key(x) == k
}

/// The items of `s` whose key is `k`, in the order in which `s` has them.
pub open spec fn keyed_by<T>(s: Seq<T>, key: spec_fn(T) -> SortKey, k: SortKey) -> Seq<T> {
    s.filter(has_key(key, k))
}

/// `out` holds the items of `input` in ascending order of their keys, and items with the same key
/// in the order in which `input` has them.
pub open spec fn stable_sort_of<T>(
    out: Seq<T>,
    input: Seq<T>,
    key: spec_fn(T) -> SortKey,
) -> bool {
    &&& ascending(out, key)
    &&& forall|k: SortKey| #[trigger] keyed_by(out, key, k) == keyed_by(input, key, k)
}

pub proof fn lemma_key_le_total(a: SortKey, b: SortKey)
    ensures
        key_le(a, b) || key_le(b, a),
{
    lemma_text_le_total(a.0, b.0);
    lemma_text_le_total(a.1, b.1);
    lemma_text_le_total(a.0, a.0);
    if text_le(a.0, b.0) && text_le(b.0, a.0) {
        lemma_text_le_antisymmetric(a.0, b.0);
    }
}

pub proof fn lemma_key_le_antisymmetric(a: SortKey, b: SortKey)
    requires
        key_le(a, b),
        key_le(b, a),
    ensures
        a == b,
{
    lemma_text_le_antisymmetric(a.0, b.0);
    lemma_text_le_antisymmetric(a.1, b.1);
}

pub proof fn lemma_key_le_transitive(a: SortKey, b: SortKey, c: SortKey)
    requires
        key_le(a, b),
        key_le(b, c),
    ensures
        key_le(a, c),
{
    lemma_text_le_transitive(a.0, b.0, c.0);
    if a.0 == c.0 {
        lemma_text_le_antisymmetric(a.0, b.0);
        lemma_text_le_transitive(a.1, b.1, c.1);
    }
}

pub proof fn lemma_keyed_by_add<T>(a: Seq<T>, b: Seq<T>, key: spec_fn(T) -> SortKey, k: SortKey)
    ensures
        keyed_by(a + b, key, k) == keyed_by(a, key, k) + keyed_by(b, key, k),
{
    Seq::filter_distributes_over_add(a, b, has_key(key, k));
}

pub proof fn lemma_keyed_by_one<T>(x: T, key: spec_fn(T) -> SortKey, k: SortKey)
    ensures
        keyed_by(seq![x], key, k) == (if key(x) == k {
            seq![x]
        } else {
            Seq::empty()
        }),
{
    reveal_with_fuel(Seq::filter, 2);
    assert(seq![x].drop_last() == Seq::<T>::empty());
    assert(Seq::<T>::empty().push(x) == seq![x]);
}

/// A key that no item has selects nothing.
pub proof fn lemma_keyed_by_none<T>(s: Seq<T>, key: spec_fn(T) -> SortKey, k: SortKey)
    requires
        forall|i: int| 0 <= i < s.len() ==> key(#[trigger] s[i]) != k,
    ensures
        keyed_by(s, key, k) == Seq::<T>::empty(),
    decreases s.len(),
{
    reveal(Seq::filter);
    if s.len() > 0 {
        lemma_keyed_by_none(s.drop_last(), key, k);
    }
}

/// The first item with a key is in the selection for that key.
proof fn lemma_keyed_by_first<T>(s: Seq<T>, key: spec_fn(T) -> SortKey)
    requires
        s.len() > 0,
    ensures
        keyed_by(s, key, key(s[0])) == seq![s[0]] + keyed_by(s.drop_first(), key, key(s[0])),
{
    assert(s == seq![s[0]] + s.drop_first());
    lemma_keyed_by_add(seq![s[0]], s.drop_first(), key, key(s[0]));
    lemma_keyed_by_one(s[0], key, key(s[0]));
}

/// A stable sort has one outcome.
pub proof fn stable_sort_is_unique<T>(
    a: Seq<T>,
    b: Seq<T>,
    input: Seq<T>,
    key: spec_fn(T) -> SortKey,
)
    requires
        stable_sort_of(a, input, key),
        stable_sort_of(b, input, key),
    ensures
        a == b,
{
    assert forall|k: SortKey| keyed_by(a, key, k) == keyed_by(b, key, k) by {
        assert(keyed_by(a, key, k) == keyed_by(input, key, k));
        assert(keyed_by(b, key, k) == keyed_by(input, key, k));
    }
    lemma_ascending_determined(a, b, key);
}

/// The stable sort of `s`.
pub open spec fn sorted_by<T>(s: Seq<T>, key: spec_fn(T) -> SortKey) -> Seq<T> {
    choose|out: Seq<T>| stable_sort_of(out, s, key)
}

/// Every sequence has a stable sort.
pub proof fn lemma_sorted_by<T>(s: Seq<T>, key: spec_fn(T) -> SortKey)
    ensures
        stable_sort_of(sorted_by(s, key), s, key),
    decreases s.len(),
{
    if s.len() == 0 {
        assert(stable_sort_of(s, s, key));
    } else {
        let x = s.last();
        let front = s.drop_last();
        lemma_sorted_by(front, key);
        let out = sorted_by(front, key);
        let p = lemma_insertion_point(out, key, key(x));
        let (l, r) = (out.take(p), out.skip(p));
        assert(out == l + r);
        let t = l + seq![x] + r;
        assert(s == front + seq![x]);
        assert forall|k: SortKey| #[trigger] keyed_by(t, key, k) == keyed_by(s, key, k) by {
            lemma_keyed_by_add(l + seq![x], r, key, k);
            lemma_keyed_by_add(l, seq![x], key, k);
            lemma_keyed_by_add(l, r, key, k);
            lemma_keyed_by_add(front, seq![x], key, k);
            lemma_keyed_by_one(x, key, k);
            assert(keyed_by(out, key, k) == keyed_by(front, key, k));
            if k == key(x) {
                lemma_keyed_by_none(r, key, k);
            }
            assert(keyed_by(t, key, k) =~= keyed_by(s, key, k));
        }
        lemma_key_le_total(key(x), key(x));
        assert forall|i: int, j: int| 0 <= i <= j < t.len() implies key_le(
            #[trigger] key(t[i]),
            #[trigger] key(t[j]),
        ) by {
            let a = if i < p {
                i
            } else {
                i - 1
            };
            let b = if j < p {
                j
            } else {
                j - 1
            };
            if i != p && j != p {
                assert(key_le(key(out[a]), key(out[b])));
            }
        }
        assert(stable_sort_of(t, s, key));
    }
}

/// Where an item with the key `k` goes so that those that are not after it stay before it.
proof fn lemma_insertion_point<T>(s: Seq<T>, key: spec_fn(T) -> SortKey, k: SortKey) -> (p: int)
    requires
        ascending(s, key),
    ensures
        0 <= p <= s.len(),
        forall|i: int| 0 <= i < p ==> key_le(key(#[trigger] s[i]), k),
        forall|i: int| p <= i < s.len() ==> key_le(k, key(#[trigger] s[i])) && key(s[i]) != k,
    decreases s.len(),
{
    if s.len() == 0 {
        0
    } else if key_le(key(s.last()), k) {
        assert forall|i: int| 0 <= i < s.len() implies key_le(key(#[trigger] s[i]), k) by {
            assert(key_le(key(s[i]), key(s[s.len() - 1])));
            lemma_key_le_transitive(key(s[i]), key(s.last()), k);
        }
        s.len() as int
    } else {
        lemma_ascending_drop_last(s, key);
        let p = lemma_insertion_point(s.drop_last(), key, k);
        lemma_key_le_total(key(s.last()), k);
        lemma_key_le_total(k, k);
        assert forall|i: int| 0 <= i < p implies key_le(key(#[trigger] s[i]), k) by {
            assert(s[i] == s.drop_last()[i]);
        }
        assert forall|i: int| p <= i < s.len() implies key_le(k, key(#[trigger] s[i])) && key(s[i])
            != k by {
            if i < s.len() - 1 {
                assert(s[i] == s.drop_last()[i]);
            }
        }
        p
    }
}

/// A stable sort of `s` is the stable sort of `s`.
pub proof fn lemma_is_sorted_by<T>(out: Seq<T>, s: Seq<T>, key: spec_fn(T) -> SortKey)
    requires
        stable_sort_of(out, s, key),
    ensures
        out == sorted_by(s, key),
{
    lemma_sorted_by(s, key);
    stable_sort_is_unique(out, sorted_by(s, key), s, key);
}

/// Two ascending sequences that agree on every key are the same.
pub proof fn lemma_ascending_determined<T>(a: Seq<T>, b: Seq<T>, key: spec_fn(T) -> SortKey)
    requires
        ascending(a, key),
        ascending(b, key),
        forall|k: SortKey| #[trigger] keyed_by(a, key, k) == keyed_by(b, key, k),
    ensures
        a == b,
    decreases a.len(),
{
    if a.len() == 0 {
        if b.len() > 0 {
            lemma_keyed_by_first(b, key);
            assert(keyed_by(a, key, key(b[0])) == keyed_by(b, key, key(b[0])));
            reveal(Seq::filter);
        }
        assert(a =~= b);
    } else {
        lemma_keyed_by_first(a, key);
        assert(keyed_by(a, key, key(a[0])) == keyed_by(b, key, key(a[0])));
        if b.len() == 0 {
            reveal(Seq::filter);
        }
        lemma_keyed_by_first(b, key);
        assert(keyed_by(a, key, key(b[0])) == keyed_by(b, key, key(b[0])));
        if forall|i: int| 0 <= i < a.len() ==> key(#[trigger] a[i]) != key(b[0]) {
            lemma_keyed_by_none(a, key, key(b[0]));
        }
        if forall|i: int| 0 <= i < b.len() ==> key(#[trigger] b[i]) != key(a[0]) {
            lemma_keyed_by_none(b, key, key(a[0]));
        }
        let i = choose|i: int| 0 <= i < a.len() && key(#[trigger] a[i]) == key(b[0]);
        let j = choose|j: int| 0 <= j < b.len() && key(#[trigger] b[j]) == key(a[0]);
        assert(key_le(key(a[0]), key(a[i])));
        assert(key_le(key(b[0]), key(b[j])));
        lemma_key_le_antisymmetric(key(a[0]), key(b[0]));
        assert(keyed_by(a, key, key(a[0]))[0] == a[0]);
        assert(keyed_by(b, key, key(b[0]))[0] == b[0]);
        let x = a[0];
        let (ra, rb) = (a.drop_first(), b.drop_first());
        assert(a == seq![x] + ra && b == seq![x] + rb);
        assert forall|k: SortKey| #[trigger] keyed_by(ra, key, k) == keyed_by(rb, key, k) by {
            lemma_keyed_by_add(seq![x], ra, key, k);
            lemma_keyed_by_add(seq![x], rb, key, k);
            lemma_keyed_by_one(x, key, k);
            assert(keyed_by(a, key, k) == keyed_by(b, key, k));
            let n = keyed_by(seq![x], key, k).len() as int;
            assert(keyed_by(ra, key, k) == keyed_by(a, key, k).skip(n));
            assert(keyed_by(rb, key, k) == keyed_by(b, key, k).skip(n));
        }
        assert(ascending(ra, key)) by {
            assert forall|i: int, j: int| 0 <= i <= j < ra.len() implies key_le(
                #[trigger] key(ra[i]),
                #[trigger] key(ra[j]),
            ) by {
                assert(key_le(key(a[i + 1]), key(a[j + 1])));
            }
        }
        assert(ascending(rb, key)) by {
            assert forall|i: int, j: int| 0 <= i <= j < rb.len() implies key_le(
                #[trigger] key(rb[i]),
                #[trigger] key(rb[j]),
            ) by {
                assert(key_le(key(b[i + 1]), key(b[j + 1])));
            }
        }
        lemma_ascending_determined(ra, rb, key);
    }
}

/// Renaming the items of a stable sort by a function that keeps their keys.
pub proof fn lemma_stable_sort_map<T, U>(
    out: Seq<T>,
    input: Seq<T>,
    key: spec_fn(T) -> SortKey,
    f: spec_fn(T) -> U,
    key_after: spec_fn(U) -> SortKey,
)
    requires
        stable_sort_of(out, input, key),
        forall|x: T| #[trigger] key(x) == key_after(f(x)),
    ensures
        stable_sort_of(out.map_values(f), input.map_values(f), key_after),
{
    let (fo, fi) = (out.map_values(f), input.map_values(f));
    assert forall|i: int, j: int| 0 <= i <= j < fo.len() implies key_le(
        #[trigger] key_after(fo[i]),
        #[trigger] key_after(fo[j]),
    ) by {
        assert(key_le(key(out[i]), key(out[j])));
    }
    assert forall|k: SortKey| #[trigger] keyed_by(fo, key_after, k) == keyed_by(fi, key_after, k) by {
        lemma_keyed_by_map(out, key, f, key_after, k);
        lemma_keyed_by_map(input, key, f, key_after, k);
        assert(keyed_by(out, key, k) == keyed_by(input, key, k));
    }
}

proof fn lemma_keyed_by_map<T, U>(
    s: Seq<T>,
    key: spec_fn(T) -> SortKey,
    f: spec_fn(T) -> U,
    key_after: spec_fn(U) -> SortKey,
    k: SortKey,
)
    requires
        forall|x: T| #[trigger] key(x) == key_after(f(x)),
    ensures
        keyed_by(s.map_values(f), key_after, k) == keyed_by(s, key, k).map_values(f),
    decreases s.len(),
{
    reveal(Seq::filter);
    if s.len() > 0 {
        lemma_keyed_by_map(s.drop_last(), key, f, key_after, k);
        assert(s.map_values(f).drop_last() == s.drop_last().map_values(f));
        assert(key(s.last()) == key_after(f(s.last())));
    }
    assert(keyed_by(s.map_values(f), key_after, k) =~= keyed_by(s, key, k).map_values(f));
}

// ---------------------------------------------------------------------------------------------
// The sort
// ---------------------------------------------------------------------------------------------

/// An item together with what it is ordered by.
pub struct Keyed<T> {
    pub major: String,
    pub minor: String,
    pub item: T,
}

impl<T> Keyed<T> {
    pub open spec fn key(self) -> SortKey {
        (self.major@, self.minor@)
    }
}

/// The key that an item carries.
pub open spec fn carried_key<T>() -> spec_fn(Keyed<T>) -> SortKey {
    |x: Keyed<T>| x.key()
}

fn key_not_after<T>(a: &Keyed<T>, b: &Keyed<T>) -> (res: bool)
    ensures
        res == key_le(a.key(), b.key()),
{
    if !not_after(a.major.as_str(), b.major.as_str()) {
        return false;
    }
    if same_text(a.major.as_str(), b.major.as_str()) {
        not_after(a.minor.as_str(), b.minor.as_str())
    } else {
        true
    }
}

/// The items back to front.
fn reversed<T>(items: Vec<T>) -> (res: Vec<T>)
    ensures
        res@ == items@.reverse(),
{
    let mut items = items;
    let ghost all = items@;
    let mut res: Vec<T> = Vec::new();
    while items.len() > 0
        invariant
            items@ == all.take(items@.len() as int),
            items@.len() <= all.len(),
            res@ == all.skip(items@.len() as int).reverse(),
        decreases items@.len(),
    {
        let ghost before = items@;
        if let Some(x) = items.pop() {
            res.push(x);
            assert(all.skip(items@.len() as int).reverse() == all.skip(
                before.len() as int,
            ).reverse().push(x));
        }
    }
    assert(all.skip(0) == all);
    res
}

/// One ascending sequence out of two, those of the first before those of the second where the
/// keys are the same.
fn merge<T>(first: Vec<Keyed<T>>, second: Vec<Keyed<T>>) -> (res: Vec<Keyed<T>>)
    requires
        ascending(first@, carried_key::<T>()),
        ascending(second@, carried_key::<T>()),
    ensures
        stable_sort_of(res@, first@ + second@, carried_key::<T>()),
{
    let mut a = first;
    let mut b = second;
    let mut back: Vec<Keyed<T>> = Vec::new();
    let ghost key = carried_key::<T>();
    let ghost (fa, fb) = (first@, second@);
    let ghost mut done: Seq<Keyed<T>> = Seq::empty();
    assert forall|k: SortKey| #[trigger]
        keyed_by(a@, key, k) + keyed_by(b@, key, k) + keyed_by(done, key, k) == keyed_by(
            fa,
            key,
            k,
        ) + keyed_by(fb, key, k) by {
        reveal(Seq::filter);
        assert(keyed_by(done, key, k) == Seq::<Keyed<T>>::empty());
    }
    while a.len() > 0 || b.len() > 0
        invariant
            key == carried_key::<T>(),
            ascending(a@, key),
            ascending(b@, key),
            ascending(done, key),
            done == back@.reverse(),
            forall|i: int, j: int|
                0 <= i < a@.len() && 0 <= j < done.len() ==> key_le(
                    #[trigger] key(a@[i]),
                    #[trigger] key(done[j]),
                ),
            forall|i: int, j: int|
                0 <= i < b@.len() && 0 <= j < done.len() ==> key_le(
                    #[trigger] key(b@[i]),
                    #[trigger] key(done[j]),
                ),
            forall|k: SortKey| #[trigger]
                keyed_by(a@, key, k) + keyed_by(b@, key, k) + keyed_by(done, key, k) == keyed_by(
                    fa,
                    key,
                    k,
                ) + keyed_by(fb, key, k),
        decreases a@.len() + b@.len(),
    {
        let ghost (a0, b0, done0) = (a@, b@, done);
        let from_b = b.len() > 0 && (a.len() == 0 || key_not_after(
            &a[a.len() - 1],
            &b[b.len() - 1],
        ));
        if from_b {
            if let Some(x) = b.pop() {
                back.push(x);
                proof {
                    done = seq![x] + done0;
                    assert(b0 == b@ + seq![x]);
                    assert(done == back@.reverse());
                    assert forall|i: int| 0 <= i < a@.len() implies key_le(
                        #[trigger] key(a@[i]),
                        key(x),
                    ) by {
                        assert(key_le(key(a@[i]), key(a0[a0.len() - 1])));
                        lemma_key_le_transitive(key(a@[i]), key(a0[a0.len() - 1]), key(x));
                    }
                    assert forall|i: int| 0 <= i < b@.len() implies key_le(
                        #[trigger] key(b@[i]),
                        key(x),
                    ) by {
                        assert(key_le(key(b0[i]), key(b0[b0.len() - 1])));
                    }
                    assert forall|k: SortKey| #[trigger]
                        keyed_by(a@, key, k) + keyed_by(b@, key, k) + keyed_by(done, key, k)
                            == keyed_by(fa, key, k) + keyed_by(fb, key, k) by {
                        lemma_keyed_by_add(b@, seq![x], key, k);
                        lemma_keyed_by_add(seq![x], done0, key, k);
                        assert(keyed_by(a@, key, k) + keyed_by(b@, key, k) + keyed_by(done, key, k)
                            == keyed_by(a0, key, k) + keyed_by(b0, key, k) + keyed_by(
                            done0,
                            key,
                            k,
                        ));
                    }
                    lemma_ascending_prepend(x, done0, b0, key);
                    lemma_ascending_drop_last(b0, key);
                }
            }
        } else {
            if let Some(x) = a.pop() {
                back.push(x);
                proof {
                    done = seq![x] + done0;
                    assert(a0 == a@ + seq![x]);
                    assert(done == back@.reverse());
                    assert forall|i: int| 0 <= i < b@.len() implies key_le(
                        #[trigger] key(b@[i]),
                        key(x),
                    ) && key(b@[i]) != key(x) by {
                        assert(key_le(key(b@[i]), key(b0[b0.len() - 1])));
                        lemma_key_le_total(key(x), key(b0[b0.len() - 1]));
                        lemma_key_le_transitive(key(b@[i]), key(b0[b0.len() - 1]), key(x));
                    }
                    assert forall|i: int| 0 <= i < a@.len() implies key_le(
                        #[trigger] key(a@[i]),
                        key(x),
                    ) by {
                        assert(key_le(key(a0[i]), key(a0[a0.len() - 1])));
                    }
                    assert forall|k: SortKey| #[trigger]
                        keyed_by(a@, key, k) + keyed_by(b@, key, k) + keyed_by(done, key, k)
                            == keyed_by(fa, key, k) + keyed_by(fb, key, k) by {
                        lemma_keyed_by_add(a@, seq![x], key, k);
                        lemma_keyed_by_add(seq![x], done0, key, k);
                        lemma_keyed_by_one(x, key, k);
                        if key(x) == k {
                            lemma_keyed_by_none(b@, key, k);
                        }
                        assert(keyed_by(a@, key, k) + keyed_by(b@, key, k) + keyed_by(done, key, k)
                            == keyed_by(a0, key, k) + keyed_by(b0, key, k) + keyed_by(
                            done0,
                            key,
                            k,
                        ));
                    }
                    lemma_ascending_prepend(x, done0, a0, key);
                    lemma_ascending_drop_last(a0, key);
                }
            }
        }
    }
    let res = reversed(back);
    assert forall|k: SortKey| #[trigger] keyed_by(res@, key, k) == keyed_by(fa + fb, key, k) by {
        lemma_keyed_by_add(fa, fb, key, k);
        assert(keyed_by(a@, key, k) + keyed_by(b@, key, k) + keyed_by(done, key, k) == keyed_by(
            fa,
            key,
            k,
        ) + keyed_by(fb, key, k));
        reveal(Seq::filter);
        assert(keyed_by(a@, key, k) == Seq::<Keyed<T>>::empty());
        assert(keyed_by(b@, key, k) == Seq::<Keyed<T>>::empty());
    }
    res
}

proof fn lemma_ascending_drop_last<T>(s: Seq<T>, key: spec_fn(T) -> SortKey)
    requires
        ascending(s, key),
        s.len() > 0,
    ensures
        ascending(s.drop_last(), key),
        ascending(s.subrange(0, s.len() - 1), key),
{
    assert(s.drop_last() == s.subrange(0, s.len() - 1));
    assert forall|i: int, j: int| 0 <= i <= j < s.drop_last().len() implies key_le(
        #[trigger] key(s.drop_last()[i]),
        #[trigger] key(s.drop_last()[j]),
    ) by {
        assert(key_le(key(s[i]), key(s[j])));
    }
}

/// Putting the last item of one ascending sequence before another that starts no earlier.
proof fn lemma_ascending_prepend<T>(x: T, s: Seq<T>, from: Seq<T>, key: spec_fn(T) -> SortKey)
    requires
        ascending(s, key),
        from.len() > 0,
        from.last() == x,
        forall|i: int, j: int|
            0 <= i < from.len() && 0 <= j < s.len() ==> key_le(
                #[trigger] key(from[i]),
                #[trigger] key(s[j]),
            ),
    ensures
        ascending(seq![x] + s, key),
{
    let t = seq![x] + s;
    lemma_key_le_total(key(x), key(x));
    assert forall|i: int, j: int| 0 <= i <= j < t.len() implies key_le(
        #[trigger] key(t[i]),
        #[trigger] key(t[j]),
    ) by {
        if i > 0 {
            assert(key_le(key(s[i - 1]), key(s[j - 1])));
        } else if j > 0 {
            assert(key_le(key(from[from.len() - 1]), key(s[j - 1])));
        }
    }
}

/// Sorts by the keys that the items carry.
pub fn sort_by_key<T>(items: Vec<Keyed<T>>) -> (res: Vec<Keyed<T>>)
    ensures
        stable_sort_of(res@, items@, carried_key::<T>()),
    decreases items@.len(),
{
    let mut first = items;
    let ghost key = carried_key::<T>();
    if first.len() < 2 {
        proof {
            if first@.len() == 1 {
                lemma_key_le_total(key(first@[0]), key(first@[0]));
            }
        }
        return first;
    }
    let half: usize = first.len() / 2;
    let second = first.split_off(half);
    let ghost (x, y) = (first@, second@);
    assert(items@ == x + y);
    let first = sort_by_key(first);
    let second = sort_by_key(second);
    let res = merge(first, second);
    assert forall|k: SortKey| #[trigger] keyed_by(res@, key, k) == keyed_by(items@, key, k) by {
        lemma_keyed_by_add(x, y, key, k);
        lemma_keyed_by_add(first@, second@, key, k);
        assert(keyed_by(res@, key, k) == keyed_by(first@ + second@, key, k));
        assert(keyed_by(first@, key, k) == keyed_by(x, key, k));
        assert(keyed_by(second@, key, k) == keyed_by(y, key, k));
    }
    res
}

// ---------------------------------------------------------------------------------------------
// Lists of strings
// ---------------------------------------------------------------------------------------------

/// The texts of a list of strings.
pub open spec fn texts(v: Seq<String>) -> Seq<Seq<char>> {
    v.map_values(|s: String| s@)
}

/// What a text is ordered by when case does not count: its lowercase form.
pub open spec fn folded() -> spec_fn(Seq<char>) -> SortKey {
    |s: Seq<char>| (lowercase(s), Seq::<char>::empty())
}

/// Sorts strings by their lowercase forms; strings that share one stay in their order.
pub fn sort_ignoring_case(items: Vec<String>) -> (res: Vec<String>)
    ensures
        texts(res@) == sorted_by(texts(items@), folded()),
{
    let ghost input = items@;
    let mut keyed: Vec<Keyed<String>> = Vec::new();
    for s in it: items.into_iter()
        invariant
            it.seq() == input,
            keyed@.len() == it.index(),
            forall|i: int|
                0 <= i < keyed@.len() ==> (#[trigger] keyed@[i]).item == input[i]
                    && keyed@[i].key() == folded()(input[i]@),
    {
        let major = s.as_str().to_lowercase();
        keyed.push(Keyed { major, minor: String::new(), item: s });
    }
    let ghost unsorted = keyed@;
    let keyed = sort_by_key(keyed);
    let ghost sorted = keyed@;
    let mut res: Vec<String> = Vec::new();
    for k in it: keyed.into_iter()
        invariant
            it.seq() == sorted,
            res@.len() == it.index(),
            forall|i: int| 0 <= i < res@.len() ==> #[trigger] res@[i] == sorted[i].item,
    {
        res.push(k.item);
    }
    proof {
        let f = |k: Keyed<String>| (k.item@, k.key());
        let pair_key = |p: (Seq<char>, SortKey)| p.1;
        lemma_stable_sort_map(sorted, unsorted, carried_key::<String>(), f, pair_key);
        lemma_stable_sort_unpair(
            sorted.map_values(f),
            unsorted.map_values(f),
            texts(res@),
            texts(input),
            folded(),
        );
        lemma_is_sorted_by(texts(res@), texts(input), folded());
    }
    res
}

/// Forgetting the keys that were carried along, where they are those that the items have.
pub proof fn lemma_stable_sort_unpair<U>(
    out: Seq<(U, SortKey)>,
    input: Seq<(U, SortKey)>,
    plain_out: Seq<U>,
    plain_input: Seq<U>,
    key: spec_fn(U) -> SortKey,
)
    requires
        stable_sort_of(out, input, |p: (U, SortKey)| p.1),
        plain_out.len() == out.len(),
        plain_input.len() == input.len(),
        forall|i: int| 0 <= i < out.len() ==> (#[trigger] out[i]).0 == plain_out[i],
        forall|i: int|
            0 <= i < input.len() ==> (#[trigger] input[i]).0 == plain_input[i] && input[i].1 == key(
                plain_input[i],
            ),
    ensures
        stable_sort_of(plain_out, plain_input, key),
{
    let carried = |p: (U, SortKey)| p.1;
    let own = |p: (U, SortKey)| key(p.0);
    assert forall|i: int| 0 <= i < out.len() implies (#[trigger] out[i]).1 == key(out[i].0) by {
        lemma_sorted_item_is_input(out, input, carried, i);
        let j = choose|j: int| 0 <= j < input.len() && input[j] == out[i];
        assert(input[j].0 == plain_input[j]);
    }
    assert forall|k: SortKey| #[trigger] keyed_by(out, own, k) == keyed_by(input, own, k) by {
        lemma_keyed_by_same(out, carried, own, k);
        lemma_keyed_by_same(input, carried, own, k);
        assert(keyed_by(out, carried, k) == keyed_by(input, carried, k));
    }
    assert forall|i: int, j: int| 0 <= i <= j < out.len() implies key_le(
        #[trigger] own(out[i]),
        #[trigger] own(out[j]),
    ) by {
        assert(key_le(carried(out[i]), carried(out[j])));
    }
    let f = |p: (U, SortKey)| p.0;
    lemma_stable_sort_map(out, input, own, f, key);
    assert(out.map_values(f) == plain_out);
    assert(input.map_values(f) == plain_input);
}

/// Two ways to compute a key that agree on every item select the same items.
proof fn lemma_keyed_by_same<T>(
    s: Seq<T>,
    key: spec_fn(T) -> SortKey,
    other: spec_fn(T) -> SortKey,
    k: SortKey,
)
    requires
        forall|i: int| 0 <= i < s.len() ==> key(#[trigger] s[i]) == other(s[i]),
    ensures
        keyed_by(s, key, k) == keyed_by(s, other, k),
    decreases s.len(),
{
    reveal(Seq::filter);
    if s.len() > 0 {
        lemma_keyed_by_same(s.drop_last(), key, other, k);
        assert(key(s[s.len() - 1]) == other(s[s.len() - 1]));
    }
}

/// A stable sort invents nothing.
pub proof fn lemma_sorted_item_is_input<T>(
    out: Seq<T>,
    input: Seq<T>,
    key: spec_fn(T) -> SortKey,
    i: int,
)
    requires
        stable_sort_of(out, input, key),
        0 <= i < out.len(),
    ensures
        input.contains(out[i]),
{
    let k = key(out[i]);
    let p = has_key(key, k);
    out.lemma_filter_contains(p, i);
    assert(keyed_by(out, key, k) == keyed_by(input, key, k));
    input.lemma_filter_contains_rev(p, out[i]);
}

/// A stable sort loses nothing.
pub proof fn lemma_input_item_is_sorted<T>(
    out: Seq<T>,
    input: Seq<T>,
    key: spec_fn(T) -> SortKey,
    i: int,
)
    requires
        stable_sort_of(out, input, key),
        0 <= i < input.len(),
    ensures
        out.contains(input[i]),
{
    let k = key(input[i]);
    let p = has_key(key, k);
    input.lemma_filter_contains(p, i);
    assert(keyed_by(out, key, k) == keyed_by(input, key, k));
    out.lemma_filter_contains_rev(p, input[i]);
}

/// A stable sort of `s` has as many items as `s`.
pub proof fn lemma_sorted_len<T>(out: Seq<T>, input: Seq<T>, key: spec_fn(T) -> SortKey)
    requires
        stable_sort_of(out, input, key),
    ensures
        out.len() == input.len(),
    decreases out.len(),
{
    if out.len() == 0 {
        if input.len() > 0 {
            lemma_input_item_is_sorted(out, input, key, 0);
        }
    } else {
        // Take the first of `out` from both.
        lemma_sorted_item_is_input(out, input, key, 0);
        let k = key(out[0]);
        lemma_keyed_by_first(out, key);
        assert(keyed_by(out, key, k) == keyed_by(input, key, k));
        let j = lemma_first_keyed(input, key, k);
        let rest = input.remove(j);
        let tail = out.drop_first();
        assert forall|q: SortKey| #[trigger] keyed_by(tail, key, q) == keyed_by(rest, key, q) by {
            assert(keyed_by(out, key, q) == keyed_by(input, key, q));
            lemma_keyed_by_without_first(out, key, 0, q);
            lemma_keyed_by_without_first(input, key, j, q);
            assert(out.remove(0) == tail);
        }
        assert forall|a: int, b: int| 0 <= a <= b < tail.len() implies key_le(
            #[trigger] key(tail[a]),
            #[trigger] key(tail[b]),
        ) by {
            assert(key_le(key(out[a + 1]), key(out[b + 1])));
        }
        lemma_sorted_len(tail, rest, key);
    }
}

/// Removing the first item with its key drops the first of the selection for that key, and leaves
/// the selections for other keys.
proof fn lemma_keyed_by_without_first<T>(s: Seq<T>, key: spec_fn(T) -> SortKey, j: int, q: SortKey)
    requires
        0 <= j < s.len(),
        forall|i: int| 0 <= i < j ==> key(#[trigger] s[i]) != key(s[j]),
    ensures
        keyed_by(s.remove(j), key, q) == (if key(s[j]) == q {
            keyed_by(s, key, q).skip(1)
        } else {
            keyed_by(s, key, q)
        }),
{
    let (l, r) = (s.take(j), s.skip(j + 1));
    assert(s == l + seq![s[j]] + r);
    assert(s.remove(j) == l + r);
    lemma_keyed_by_add(l + seq![s[j]], r, key, q);
    lemma_keyed_by_add(l, seq![s[j]], key, q);
    lemma_keyed_by_add(l, r, key, q);
    lemma_keyed_by_one(s[j], key, q);
    if key(s[j]) == q {
        lemma_keyed_by_none(l, key, q);
    }
    assert(keyed_by(s.remove(j), key, q) =~= (if key(s[j]) == q {
        keyed_by(s, key, q).skip(1)
    } else {
        keyed_by(s, key, q)
    }));
}

/// Where the first item with a key stands.
pub proof fn lemma_first_keyed<T>(s: Seq<T>, key: spec_fn(T) -> SortKey, k: SortKey) -> (j: int)
    requires
        keyed_by(s, key, k).len() > 0,
    ensures
        0 <= j < s.len(),
        key(s[j]) == k,
        s[j] == keyed_by(s, key, k)[0],
        forall|i: int| 0 <= i < j ==> key(#[trigger] s[i]) != k,
    decreases s.len(),
{
    if s.len() == 0 {
        lemma_keyed_by_none(s, key, k);
        0
    } else if key(s[0]) == k {
        lemma_keyed_by_first(s, key);
        0
    } else {
        let t = s.drop_first();
        assert(s == seq![s[0]] + t);
        lemma_keyed_by_add(seq![s[0]], t, key, k);
        lemma_keyed_by_one(s[0], key, k);
        assert(keyed_by(s, key, k) == keyed_by(t, key, k));
        let j = lemma_first_keyed(t, key, k);
        assert forall|i: int| 0 <= i < j + 1 implies key(#[trigger] s[i]) != k by {
            if i > 0 {
                assert(key(t[i - 1]) != k);
            }
        }
        j + 1
    }
}

// ---------------------------------------------------------------------------------------------
// Repetitions
// ---------------------------------------------------------------------------------------------

/// `s` without the items whose key is that of the item just before them.
pub open spec fn without_repeats<T, K>(s: Seq<T>, key: spec_fn(T) -> K) -> Seq<T>
    decreases s.len(),
{
    if s.len() <= 1 {
        s
    } else if key(s[s.len() - 1]) == key(s[s.len() - 2]) {
        without_repeats(s.drop_last(), key)
    } else {
        without_repeats(s.drop_last(), key).push(s.last())
    }
}

/// A text itself.
pub open spec fn itself() -> spec_fn(Seq<char>) -> Seq<char> {
    |s: Seq<char>| s
}

/// Drops the strings that equal the one just before them.
pub fn dedup(items: Vec<String>) -> (res: Vec<String>)
    ensures
        texts(res@) == without_repeats(texts(items@), itself()),
{
    let ghost input = items@;
    let mut res: Vec<String> = Vec::new();
    let mut last: Option<String> = None;
    for s in it: items.into_iter()
        invariant
            it.seq() == input,
            texts(res@) == without_repeats(texts(input.take(it.index())), itself()),
            it.index() == 0 ==> last is None,
            it.index() > 0 ==> (last matches Some(l) && l@ == input[it.index() - 1]@),
    {
        let ghost i = it.index();
        let repeat = match &last {
            Some(l) => same_text(l.as_str(), s.as_str()),
            None => false,
        };
        proof {
            let before = texts(input.take(i));
            let after = texts(input.take(i + 1));
            assert(after.drop_last() == before);
            assert(after == before.push(s@));
        }
        let copy = s.clone();
        if !repeat {
            let ghost kept = res@;
            res.push(s);
            assert(texts(res@) == texts(kept).push(s@));
        }
        last = Some(copy);
    }
    assert(input.take(input.len() as int) == input);
    res
}

/// Drops the strings whose lowercase form is that of the string just before them.
pub fn dedup_ignoring_case(items: Vec<String>) -> (res: Vec<String>)
    ensures
        texts(res@) == without_repeats(texts(items@), folded()),
{
    let ghost input = items@;
    let mut res: Vec<String> = Vec::new();
    let mut last: Option<String> = None;
    for s in it: items.into_iter()
        invariant
            it.seq() == input,
            texts(res@) == without_repeats(texts(input.take(it.index())), folded()),
            it.index() == 0 ==> last is None,
            it.index() > 0 ==> (last matches Some(l) && l@ == lowercase(input[it.index() - 1]@)),
    {
        let ghost i = it.index();
        let lower = s.as_str().to_lowercase();
        let repeat = match &last {
            Some(l) => same_text(l.as_str(), lower.as_str()),
            None => false,
        };
        proof {
            let before = texts(input.take(i));
            let after = texts(input.take(i + 1));
            assert(after.drop_last() == before);
            assert(after == before.push(s@));
        }
        if !repeat {
            let ghost kept = res@;
            res.push(s);
            assert(texts(res@) == texts(kept).push(s@));
        }
        last = Some(lower);
    }
    assert(input.take(input.len() as int) == input);
    res
}

// ---------------------------------------------------------------------------------------------
// Sorted, and each key once
// ---------------------------------------------------------------------------------------------

/// Some item of `s` has the key `k`.
pub open spec fn occurs<T>(s: Seq<T>, key: spec_fn(T) -> SortKey, k: SortKey) -> bool {
    exists|j: int| 0 <= j < s.len() && key(#[trigger] s[j]) == k
}

/// One item for each key that occurs in `s`, the first that has it, in ascending order.
pub open spec fn one_of_each<T>(r: Seq<T>, s: Seq<T>, key: spec_fn(T) -> SortKey) -> bool {
    &&& ascending(r, key)
    &&& forall|i: int, j: int| 0 <= i < j < r.len() ==> #[trigger] key(r[i]) != #[trigger] key(r[j])
    &&& forall|j: int|
        0 <= j < r.len() ==> keyed_by(s, key, key(#[trigger] r[j])).len() > 0 && keyed_by(
            s,
            key,
            key(r[j]),
        )[0] == r[j]
    &&& forall|i: int| 0 <= i < s.len() ==> occurs(r, key, key(#[trigger] s[i]))
}

/// One more item, whose key is greater than those before it.
proof fn lemma_one_of_each_push<T>(q: Seq<T>, front: Seq<T>, x: T, key: spec_fn(T) -> SortKey)
    requires
        one_of_each(q, front, key),
        forall|i: int|
            0 <= i < front.len() ==> key(#[trigger] front[i]) != key(x) && key_le(
                key(front[i]),
                key(x),
            ),
    ensures
        one_of_each(q.push(x), front.push(x), key),
{
    let s = front.push(x);
    let r = q.push(x);
    assert(s == front + seq![x]);
    lemma_keyed_by_none(front, key, key(x));
    lemma_keyed_by_add(front, seq![x], key, key(x));
    lemma_keyed_by_one(x, key, key(x));
    lemma_key_le_total(key(x), key(x));
    assert forall|j: int| 0 <= j < q.len() implies key(#[trigger] q[j]) != key(x) && key_le(
        key(q[j]),
        key(x),
    ) by {
        assert(keyed_by(front, key, key(q[j]))[0] == q[j]);
        let i = lemma_first_keyed(front, key, key(q[j]));
        assert(key(front[i]) != key(x));
    }
    assert forall|i: int, j: int| 0 <= i <= j < r.len() implies key_le(
        #[trigger] key(r[i]),
        #[trigger] key(r[j]),
    ) by {
        if j < q.len() {
            assert(key_le(key(q[i]), key(q[j])));
        } else if i < q.len() {
            assert(key_le(key(q[i]), key(x)));
        }
    }
    assert forall|i: int, j: int| 0 <= i < j < r.len() implies #[trigger] key(r[i])
        != #[trigger] key(r[j]) by {
        if j < q.len() {
            assert(key(q[i]) != key(q[j]));
        } else {
            assert(key(q[i]) != key(x));
        }
    }
    assert forall|j: int| 0 <= j < r.len() implies keyed_by(s, key, key(#[trigger] r[j])).len() > 0
        && keyed_by(s, key, key(r[j]))[0] == r[j] by {
        if j < q.len() {
            assert(r[j] == q[j]);
            lemma_keyed_by_add(front, seq![x], key, key(q[j]));
            let before = keyed_by(front, key, key(q[j]));
            assert(before.len() > 0 && before[0] == q[j]);
            assert(keyed_by(s, key, key(q[j])) == before + keyed_by(seq![x], key, key(q[j])));
        } else {
            assert(r[j] == x);
            assert(keyed_by(s, key, key(x)) =~= seq![x]);
        }
        let found = keyed_by(s, key, key(r[j]));
        assert(found.len() > 0);
        assert(found[0] == r[j]);
    }
    assert forall|i: int| 0 <= i < s.len() implies occurs(r, key, key(#[trigger] s[i])) by {
        if i < front.len() {
            assert(s[i] == front[i]);
            let j = choose|j: int| 0 <= j < q.len() && key(#[trigger] q[j]) == key(s[i]);
            assert(r[j] == q[j]);
        } else {
            assert(key(r[r.len() - 1]) == key(s[i]));
        }
    }
}

/// One more item, with the key of the last.
proof fn lemma_one_of_each_repeat<T>(q: Seq<T>, front: Seq<T>, x: T, key: spec_fn(T) -> SortKey)
    requires
        one_of_each(q, front, key),
        occurs(q, key, key(x)),
    ensures
        one_of_each(q, front.push(x), key),
{
    let s = front.push(x);
    assert(s == front + seq![x]);
    assert forall|j: int| 0 <= j < q.len() implies keyed_by(s, key, key(#[trigger] q[j])).len() > 0
        && keyed_by(s, key, key(q[j]))[0] == q[j] by {
        lemma_keyed_by_add(front, seq![x], key, key(q[j]));
    }
    assert forall|i: int| 0 <= i < s.len() implies occurs(q, key, key(#[trigger] s[i])) by {
        if i < front.len() {
            assert(s[i] == front[i]);
        }
    }
}

proof fn lemma_ascending_without_repeats<T>(s: Seq<T>, key: spec_fn(T) -> SortKey)
    requires
        ascending(s, key),
    ensures
        one_of_each(without_repeats(s, key), s, key),
        s.len() > 0 ==> without_repeats(s, key).len() > 0 && key(without_repeats(s, key).last())
            == key(s.last()),
    decreases s.len(),
{
    let r = without_repeats(s, key);
    if s.len() == 1 {
        lemma_keyed_by_first(s, key);
        assert(key(r[0]) == key(s[0]));
    } else if s.len() > 1 {
        let front = s.drop_last();
        let x = s.last();
        lemma_ascending_drop_last(s, key);
        lemma_ascending_without_repeats(front, key);
        let q = without_repeats(front, key);
        assert(s == front.push(x));
        assert(front.last() == s[s.len() - 2]);
        if key(x) == key(front.last()) {
            assert(key(q[q.len() - 1]) == key(x));
            lemma_one_of_each_repeat(q, front, x, key);
        } else {
            // Everything before the last item has a smaller key.
            assert forall|i: int| 0 <= i < front.len() implies key(#[trigger] front[i]) != key(x)
                && key_le(key(front[i]), key(x)) by {
                assert(key_le(key(s[i]), key(s[s.len() - 1])));
                assert(key_le(key(s[i]), key(s[s.len() - 2])));
                assert(key_le(key(s[s.len() - 2]), key(s[s.len() - 1])));
                if key(front[i]) == key(x) {
                    lemma_key_le_antisymmetric(key(front.last()), key(x));
                }
            }
            lemma_one_of_each_push(q, front, x, key);
        }
    }
}

/// Sorting and then dropping repetitions leaves one item for each key, the first that has it.
pub proof fn sorting_then_dedup_keeps_one_of_each<T>(s: Seq<T>, key: spec_fn(T) -> SortKey)
    ensures
        one_of_each(without_repeats(sorted_by(s, key), key), s, key),
{
    let out = sorted_by(s, key);
    lemma_sorted_by(s, key);
    lemma_ascending_without_repeats(out, key);
    let r = without_repeats(out, key);
    assert forall|j: int| 0 <= j < r.len() implies keyed_by(s, key, key(#[trigger] r[j])).len() > 0
        && keyed_by(s, key, key(r[j]))[0] == r[j] by {
        assert(keyed_by(out, key, key(r[j])) == keyed_by(s, key, key(r[j])));
    }
    assert forall|i: int| 0 <= i < s.len() implies occurs(r, key, key(#[trigger] s[i])) by {
        lemma_input_item_is_sorted(out, s, key, i);
        let m = choose|m: int| 0 <= m < out.len() && out[m] == s[i];
        assert(occurs(r, key, key(out[m])));
    }
}

/// Texts in order and without those that differ from an earlier one in case alone.
pub open spec fn distinct(s: Seq<Seq<char>>) -> Seq<Seq<char>> {
    without_repeats(sorted_by(s, folded()), folded())
}

/// Sorts strings without regard to case and keeps the first of those that differ in case alone.
pub fn distinct_ignoring_case(items: Vec<String>) -> (res: Vec<String>)
    ensures
        texts(res@) == distinct(texts(items@)),
{
    dedup_ignoring_case(sort_ignoring_case(items))
}

// ---------------------------------------------------------------------------------------------
// The order in which items arrive
// ---------------------------------------------------------------------------------------------

/// No two items have the same key.
pub open spec fn keys_differ<T, K>(s: Seq<T>, key: spec_fn(T) -> K) -> bool {
    forall|i: int, j: int| 0 <= i < j < s.len() ==> key(#[trigger] s[i]) != key(#[trigger] s[j])
}

/// The same items, whatever their order.
pub open spec fn same_items<T>(a: Seq<T>, b: Seq<T>) -> bool {
    forall|x: T| #[trigger] a.contains(x) <==> b.contains(x)
}

proof fn lemma_keyed_by_only<T>(s: Seq<T>, key: spec_fn(T) -> SortKey, i: int)
    requires
        keys_differ(s, key),
        0 <= i < s.len(),
    ensures
        keyed_by(s, key, key(s[i])) == seq![s[i]],
{
    let k = key(s[i]);
    let (l, r) = (s.take(i), s.skip(i + 1));
    assert(s == l + seq![s[i]] + r);
    assert forall|j: int| 0 <= j < l.len() implies key(#[trigger] l[j]) != k by {
        assert(l[j] == s[j]);
    }
    assert forall|j: int| 0 <= j < r.len() implies key(#[trigger] r[j]) != k by {
        assert(r[j] == s[i + 1 + j]);
    }
    lemma_keyed_by_none(l, key, k);
    lemma_keyed_by_none(r, key, k);
    lemma_keyed_by_one(s[i], key, k);
    lemma_keyed_by_add(l + seq![s[i]], r, key, k);
    lemma_keyed_by_add(l, seq![s[i]], key, k);
    assert(keyed_by(s, key, k) =~= seq![s[i]]);
}

/// Sequences that agree on the items of every key are sorted alike.
pub proof fn lemma_sorted_alike<T>(a: Seq<T>, b: Seq<T>, key: spec_fn(T) -> SortKey)
    requires
        forall|k: SortKey| #[trigger] keyed_by(a, key, k) == keyed_by(b, key, k),
    ensures
        sorted_by(a, key) == sorted_by(b, key),
{
    lemma_sorted_by(b, key);
    let out = sorted_by(b, key);
    assert forall|k: SortKey| #[trigger] keyed_by(out, key, k) == keyed_by(a, key, k) by {
        assert(keyed_by(out, key, k) == keyed_by(b, key, k));
        assert(keyed_by(a, key, k) == keyed_by(b, key, k));
    }
    lemma_is_sorted_by(out, a, key);
}

/// Where no two items have the same key, the order in which they arrive makes no difference.
pub proof fn arrival_order_does_not_matter<T>(a: Seq<T>, b: Seq<T>, key: spec_fn(T) -> SortKey)
    requires
        keys_differ(a, key),
        keys_differ(b, key),
        same_items(a, b),
    ensures
        sorted_by(a, key) == sorted_by(b, key),
{
    assert forall|k: SortKey| #[trigger] keyed_by(a, key, k) == keyed_by(b, key, k) by {
        if occurs(a, key, k) {
            let i = choose|i: int| 0 <= i < a.len() && key(#[trigger] a[i]) == k;
            assert(a.contains(a[i]));
            assert(b.contains(a[i]));
            let j = choose|j: int| 0 <= j < b.len() && b[j] == a[i];
            lemma_keyed_by_only(a, key, i);
            lemma_keyed_by_only(b, key, j);
        } else {
            if occurs(b, key, k) {
                let j = choose|j: int| 0 <= j < b.len() && key(#[trigger] b[j]) == k;
                assert(b.contains(b[j]));
                assert(a.contains(b[j]));
                let i = choose|i: int| 0 <= i < a.len() && a[i] == b[j];
                assert(key(a[i]) == k);
            }
            lemma_keyed_by_none(a, key, k);
            lemma_keyed_by_none(b, key, k);
        }
    }
    lemma_sorted_alike(a, b, key);
}

/// Sorting neither loses nor invents an item.
pub proof fn sorting_keeps_the_items<T>(s: Seq<T>, key: spec_fn(T) -> SortKey)
    ensures
        same_items(sorted_by(s, key), s),
        sorted_by(s, key).len() == s.len(),
{
    let out = sorted_by(s, key);
    lemma_sorted_by(s, key);
    lemma_sorted_len(out, s, key);
    assert forall|x: T| #[trigger] out.contains(x) <==> s.contains(x) by {
        if out.contains(x) {
            let i = choose|i: int| 0 <= i < out.len() && out[i] == x;
            lemma_sorted_item_is_input(out, s, key, i);
        }
        if s.contains(x) {
            let i = choose|i: int| 0 <= i < s.len() && s[i] == x;
            lemma_input_item_is_sorted(out, s, key, i);
        }
    }
}

/// Dropping the items that repeat the one before keeps the order, and one of what was repeated.
pub proof fn dropping_repeats_keeps_the_order(
    s: Seq<Seq<char>>,
    key: spec_fn(Seq<char>) -> SortKey,
)
    requires
        ascending(s, key),
    ensures
        ascending(without_repeats(s, itself()), key),
        same_items(without_repeats(s, itself()), s),
        forall|i: int|
            0 < i < without_repeats(s, itself()).len() ==> #[trigger] without_repeats(
                s,
                itself(),
            )[i] != without_repeats(s, itself())[i - 1],
        s.len() > 0 ==> without_repeats(s, itself()).len() > 0 && without_repeats(
            s,
            itself(),
        ).last() == s.last(),
    decreases s.len(),
{
    let r = without_repeats(s, itself());
    if s.len() > 1 {
        let front = s.drop_last();
        let x = s.last();
        let q = without_repeats(front, itself());
        lemma_ascending_drop_last(s, key);
        dropping_repeats_keeps_the_order(front, key);
        assert(s == front.push(x));
        assert(front.last() == s[s.len() - 2]);
        assert forall|y: Seq<char>| #[trigger] r.contains(y) <==> s.contains(y) by {
            assert(q.contains(y) <==> front.contains(y));
            if s.contains(y) && !front.contains(y) {
                let i = choose|i: int| 0 <= i < s.len() && s[i] == y;
                assert(i < front.len() ==> front[i] == y);
                assert(r[r.len() - 1] == y);
            }
            if front.contains(y) {
                let i = choose|i: int| 0 <= i < front.len() && front[i] == y;
                assert(s[i] == y);
                let j = choose|j: int| 0 <= j < q.len() && q[j] == y;
                assert(r[j] == y);
            }
            if r.contains(y) && !q.contains(y) {
                let i = choose|i: int| 0 <= i < r.len() && r[i] == y;
                assert(i < q.len() ==> q[i] == y);
                assert(s[s.len() - 1] == y);
            }
        }
        if x != front.last() {
            assert forall|i: int, j: int| 0 <= i <= j < r.len() implies key_le(
                #[trigger] key(r[i]),
                #[trigger] key(r[j]),
            ) by {
                if j < q.len() {
                    assert(key_le(key(q[i]), key(q[j])));
                } else if i < q.len() {
                    assert(q.contains(q[i]));
                    assert(front.contains(q[i]));
                    let m = choose|m: int| 0 <= m < front.len() && front[m] == q[i];
                    assert(key_le(key(s[m]), key(s[s.len() - 1])));
                } else {
                    lemma_key_le_total(key(x), key(x));
                }
            }
        }
    }
}

} // verus!
