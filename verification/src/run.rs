//! The vocabulary of a sorted run: its entries, the bounds of a range, and
//! what a sorted sequence of entries means as a map.

use vstd::prelude::*;
use crate::key::OrderedKey;

verus! {

/// One exported entry.
pub struct KVpair<K, V> {
    pub key: K,
    pub value: V,
}

/// One end of a range of keys.
pub enum Bound<K> {
    /// The range reaches this key and holds it.
    Included(K),
    /// The range reaches this key and leaves it out.
    Excluded(K),
    /// The range has no limit on this side.
    Unbounded,
}

/// Whether `key` lies at or above the lower bound `lo`.
pub open spec fn above<K: OrderedKey>(key: K, lo: Bound<K>) -> bool {
    match lo {
        Bound::Included(k) => k.ordinal() <= key.ordinal(),
        Bound::Excluded(k) => k.ordinal() < key.ordinal(),
        Bound::Unbounded => true,
    }
}

/// Whether `key` lies at or below the upper bound `hi`.
pub open spec fn below<K: OrderedKey>(key: K, hi: Bound<K>) -> bool {
    match hi {
        Bound::Included(k) => key.ordinal() <= k.ordinal(),
        Bound::Excluded(k) => key.ordinal() < k.ordinal(),
        Bound::Unbounded => true,
    }
}

/// Whether `key` lies between the two bounds.
pub open spec fn within<K: OrderedKey>(key: K, lo: Bound<K>, hi: Bound<K>) -> bool {
    above(key, lo) && below(key, hi)
}

/// The keys of `s` grow strictly from each entry to the next.
pub open spec fn strictly_sorted<K: OrderedKey, V>(s: Seq<(K, V)>) -> bool {
    forall|i: int, j: int|
        0 <= i < j < s.len() ==> (#[trigger] s[i]).0.ordinal() < (#[trigger] s[j]).0.ordinal()
}

/// Some entry of `s` has the key `key`.
pub open spec fn holds_key<K, V>(s: Seq<(K, V)>, key: K) -> bool {
    exists|i: int| 0 <= i < s.len() && (#[trigger] s[i]).0 == key
}

/// The index of an entry of `s` with the key `key`, where there is one.
pub open spec fn place_of<K, V>(s: Seq<(K, V)>, key: K) -> int {
    choose|i: int| 0 <= i < s.len() && (#[trigger] s[i]).0 == key
}

/// The entries of `s` as a map from key to value.
pub open spec fn as_map<K, V>(s: Seq<(K, V)>) -> Map<K, V> {
    Map::new(|k: K| holds_key(s, k), |k: K| s[place_of(s, k)].1)
}

/// How many entries of `s` have a key strictly before `key`.
pub open spec fn count_below<K: OrderedKey, V>(s: Seq<(K, V)>, key: K) -> int
    decreases s.len(),
{
    if s.len() == 0 {
        0
    } else {
        count_below(s.drop_last(), key) + (if s.last().0.ordinal() < key.ordinal() {
            1int
        } else {
            0int
        })
    }
}

/// The entries of `s` whose keys lie between the two bounds, in order.
pub open spec fn select<K: OrderedKey, V>(s: Seq<(K, V)>, lo: Bound<K>, hi: Bound<K>) -> Seq<(K, V)> {
    s.filter(|e: (K, V)| within(e.0, lo, hi))
}

/// What an exported sequence says, entry by entry.
pub open spec fn pairs<K, V>(out: Seq<KVpair<K, &V>>) -> Seq<(K, V)> {
    Seq::new(out.len(), |i: int| (out[i].key, *out[i].value))
}

/// `s` with `key` bound to `value`: in place where `s` holds the key, and
/// put in at the key's place where it does not.
pub open spec fn put<K: OrderedKey, V>(s: Seq<(K, V)>, key: K, value: V) -> Seq<(K, V)> {
    let i = count_below(s, key);
    if i < s.len() && s[i].0 == key {
        s.update(i, (key, value))
    } else {
        s.insert(i, (key, value))
    }
}

/// `s` without the entry for `key`, if it has one.
pub open spec fn cut<K: OrderedKey, V>(s: Seq<(K, V)>, key: K) -> Seq<(K, V)> {
    let i = count_below(s, key);
    if i < s.len() && s[i].0 == key {
        s.remove(i)
    } else {
        s
    }
}

/// In a sorted sequence an entry is found under its key.
pub proof fn lemma_map_at<K: OrderedKey, V>(s: Seq<(K, V)>, i: int)
    requires
        strictly_sorted(s),
        0 <= i < s.len(),
    ensures
        holds_key(s, s[i].0),
        place_of(s, s[i].0) == i,
        as_map(s).contains_key(s[i].0),
        as_map(s)[s[i].0] == s[i].1,
{
    let k = s[i].0;
    assert(holds_key(s, k));
    let j = place_of(s, k);
    assert(0 <= j < s.len() && s[j].0 == k);
    if j < i {
        assert(s[j].0.ordinal() < s[i].0.ordinal());
    } else if i < j {
        assert(s[i].0.ordinal() < s[j].0.ordinal());
    }
}

/// A key that falls strictly between two neighbours of a sorted sequence,
/// or at or before its first entry's place, counts exactly the entries
/// before that place as smaller.
pub proof fn lemma_count_below<K: OrderedKey, V>(s: Seq<(K, V)>, key: K, i: int)
    requires
        strictly_sorted(s),
        0 <= i <= s.len(),
        i > 0 ==> s[i - 1].0.ordinal() < key.ordinal(),
        i < s.len() ==> key.ordinal() <= s[i].0.ordinal(),
    ensures
        count_below(s, key) == i,
    decreases s.len(),
{
    if s.len() > 0 {
        let t = s.drop_last();
        assert forall|a: int, b: int| 0 <= a < b < t.len() implies (#[trigger] t[a]).0.ordinal() < (
        #[trigger] t[b]).0.ordinal() by {
            assert(t[a] == s[a] && t[b] == s[b]);
        }
        if i == s.len() {
            if i - 1 > 0 {
                assert(s[i - 2].0.ordinal() < s[i - 1].0.ordinal());
                assert(t[i - 2] == s[i - 2]);
            }
            lemma_count_below(t, key, i - 1);
        } else {
            if i < s.len() - 1 {
                assert(s[i].0.ordinal() < s[s.len() - 1].0.ordinal());
                assert(t[i] == s[i]);
            }
            if i > 0 {
                assert(t[i - 1] == s[i - 1]);
            }
            lemma_count_below(t, key, i);
        }
    }
}

/// A key with no equal at its place in a sorted sequence is not in it.
pub proof fn lemma_absent<K: OrderedKey, V>(s: Seq<(K, V)>, key: K, i: int)
    requires
        strictly_sorted(s),
        0 <= i <= s.len(),
        i > 0 ==> s[i - 1].0.ordinal() < key.ordinal(),
        i < s.len() ==> key.ordinal() < s[i].0.ordinal(),
    ensures
        !holds_key(s, key),
        !as_map(s).contains_key(key),
{
    if holds_key(s, key) {
        let j = place_of(s, key);
        assert(0 <= j < s.len() && s[j].0 == key);
        if j < i - 1 {
            assert(s[j].0.ordinal() < s[i - 1].0.ordinal());
        } else if j > i {
            assert(s[i].0.ordinal() < s[j].0.ordinal());
        }
    }
}

/// Putting a new key in at its place keeps the sequence sorted and adds
/// the entry to its map.
pub proof fn lemma_map_insert<K: OrderedKey, V>(s: Seq<(K, V)>, i: int, key: K, value: V)
    requires
        strictly_sorted(s),
        0 <= i <= s.len(),
        i > 0 ==> s[i - 1].0.ordinal() < key.ordinal(),
        i < s.len() ==> key.ordinal() < s[i].0.ordinal(),
    ensures
        strictly_sorted(s.insert(i, (key, value))),
        as_map(s.insert(i, (key, value))) == as_map(s).insert(key, value),
{
    let t = s.insert(i, (key, value));
    assert(t.len() == s.len() + 1);
    assert(t[i] == (key, value));
    assert(forall|m: int| 0 <= m < i ==> #[trigger] t[m] == s[m]);
    assert(forall|m: int| i < m < t.len() ==> #[trigger] t[m] == s[m - 1]);
    assert forall|a: int, b: int| 0 <= a < b < t.len() implies (#[trigger] t[a]).0.ordinal() < (
    #[trigger] t[b]).0.ordinal() by {
        let oa = if a < i { a } else { a - 1 };
        let ob = if b < i { b } else { b - 1 };
        if a == i {
            if ob > i {
                assert(s[i].0.ordinal() < s[ob].0.ordinal());
            }
        } else if b == i {
            if oa < i - 1 {
                assert(s[oa].0.ordinal() < s[i - 1].0.ordinal());
            }
        } else {
            assert(s[oa].0.ordinal() < s[ob].0.ordinal());
        }
    }
    assert forall|k: K| #[trigger] as_map(t).contains_key(k) <==> as_map(s).insert(key, value).contains_key(
        k,
    ) by {
        if holds_key(t, k) {
            let j = place_of(t, k);
            if j < i {
                assert(s[j].0 == k);
            } else if j > i {
                assert(s[j - 1].0 == k);
            }
        }
        if holds_key(s, k) {
            let j = place_of(s, k);
            if j < i {
                assert(t[j].0 == k);
            } else {
                assert(t[j + 1].0 == k);
            }
        }
        if k == key {
            assert(t[i].0 == k);
        }
    }
    assert forall|k: K| #[trigger] as_map(t).contains_key(k) implies as_map(t)[k] == as_map(s).insert(
        key,
        value,
    )[k] by {
        let j = place_of(t, k);
        lemma_map_at(t, j);
        if j < i {
            assert(s[j] == t[j]);
            lemma_map_at(s, j);
        } else if j > i {
            assert(s[j - 1] == t[j]);
            lemma_map_at(s, j - 1);
            lemma_absent(s, key, i);
        }
    }
    assert(as_map(t) =~= as_map(s).insert(key, value));
}

/// Changing the value of one entry keeps the sequence sorted and changes
/// that key's value in its map.
pub proof fn lemma_map_update<K: OrderedKey, V>(s: Seq<(K, V)>, i: int, value: V)
    requires
        strictly_sorted(s),
        0 <= i < s.len(),
    ensures
        strictly_sorted(s.update(i, (s[i].0, value))),
        as_map(s.update(i, (s[i].0, value))) == as_map(s).insert(s[i].0, value),
{
    let key = s[i].0;
    let t = s.update(i, (key, value));
    assert forall|a: int, b: int| 0 <= a < b < t.len() implies (#[trigger] t[a]).0.ordinal() < (
    #[trigger] t[b]).0.ordinal() by {
        assert(t[a].0 == s[a].0 && t[b].0 == s[b].0);
        assert(s[a].0.ordinal() < s[b].0.ordinal());
    }
    assert forall|k: K| #[trigger] as_map(t).contains_key(k) <==> as_map(s).insert(key, value).contains_key(
        k,
    ) by {
        if holds_key(t, k) {
            let j = place_of(t, k);
            assert(s[j].0 == k);
        }
        if holds_key(s, k) {
            let j = place_of(s, k);
            assert(t[j].0 == k);
        }
        if k == key {
            assert(t[i].0 == k);
        }
    }
    assert forall|k: K| #[trigger] as_map(t).contains_key(k) implies as_map(t)[k] == as_map(s).insert(
        key,
        value,
    )[k] by {
        let j = place_of(t, k);
        lemma_map_at(t, j);
        assert(s[j].0 == k);
        lemma_map_at(s, j);
    }
    assert(as_map(t) =~= as_map(s).insert(key, value));
}

/// Taking one entry out keeps the sequence sorted and takes its key out of
/// the map.
pub proof fn lemma_map_remove<K: OrderedKey, V>(s: Seq<(K, V)>, i: int)
    requires
        strictly_sorted(s),
        0 <= i < s.len(),
    ensures
        strictly_sorted(s.remove(i)),
        as_map(s.remove(i)) == as_map(s).remove(s[i].0),
{
    let key = s[i].0;
    let t = s.remove(i);
    assert(t.len() == s.len() - 1);
    assert(forall|m: int| 0 <= m < i ==> #[trigger] t[m] == s[m]);
    assert(forall|m: int| i <= m < t.len() ==> #[trigger] t[m] == s[m + 1]);
    assert forall|a: int, b: int| 0 <= a < b < t.len() implies (#[trigger] t[a]).0.ordinal() < (
    #[trigger] t[b]).0.ordinal() by {
        let oa = if a < i { a } else { a + 1 };
        let ob = if b < i { b } else { b + 1 };
        assert(s[oa].0.ordinal() < s[ob].0.ordinal());
    }
    assert forall|k: K| #[trigger] as_map(t).contains_key(k) <==> as_map(s).remove(key).contains_key(
        k,
    ) by {
        if holds_key(t, k) {
            let j = place_of(t, k);
            let oj = if j < i { j } else { j + 1 };
            assert(s[oj].0 == k);
            if oj < i {
                assert(s[oj].0.ordinal() < s[i].0.ordinal());
            } else {
                assert(s[i].0.ordinal() < s[oj].0.ordinal());
            }
        }
        if holds_key(s, k) && k != key {
            let j = place_of(s, k);
            if j < i {
                assert(t[j].0 == k);
            } else {
                assert(t[j - 1].0 == k);
            }
        }
    }
    assert forall|k: K| #[trigger] as_map(t).contains_key(k) implies as_map(t)[k] == as_map(s).remove(
        key,
    )[k] by {
        let j = place_of(t, k);
        lemma_map_at(t, j);
        let oj = if j < i { j } else { j + 1 };
        assert(s[oj] == t[j]);
        lemma_map_at(s, oj);
    }
    assert(as_map(t) =~= as_map(s).remove(key));
}

/// The entries of the first `m` of a sorted sequence that lie between two
/// bounds are those from where the lower bound starts to hold to where
/// the upper one stops.
proof fn lemma_select_prefix<K: OrderedKey, V>(
    s: Seq<(K, V)>,
    lo: Bound<K>,
    hi: Bound<K>,
    first: int,
    end: int,
    m: int,
)
    requires
        0 <= first <= s.len(),
        0 <= end <= s.len(),
        0 <= m <= s.len(),
        forall|i: int| 0 <= i < s.len() ==> (above((#[trigger] s[i]).0, lo) <==> i >= first),
        forall|i: int| 0 <= i < s.len() ==> (below((#[trigger] s[i]).0, hi) <==> i < end),
    ensures
        select(s.subrange(0, m), lo, hi) == ({
            let e = if end < m {
                end
            } else {
                m
            };
            s.subrange(if first < e { first } else { e }, e)
        }),
    decreases m,
{
    reveal(Seq::filter);
    let pred = |e: (K, V)| within(e.0, lo, hi);
    let t = s.subrange(0, m);
    let e = if end < m { end } else { m };
    let b = if first < e { first } else { e };
    if m == 0 {
        assert(t.filter(pred) =~= s.subrange(b, e));
    } else {
        lemma_select_prefix(s, lo, hi, first, end, m - 1);
        assert(t.drop_last() =~= s.subrange(0, m - 1));
        assert(t.last() == s[m - 1]);
        let e0 = if end < m - 1 { end } else { m - 1 };
        let b0 = if first < e0 { first } else { e0 };
        assert(t.drop_last().filter(pred) == s.subrange(b0, e0));
        if pred(s[m - 1]) {
            assert(s.subrange(b0, e0).push(s[m - 1]) =~= s.subrange(b, e));
        } else {
            assert(s.subrange(b0, e0) =~= s.subrange(b, e));
        }
    }
}

/// In a sorted sequence the entries between two bounds are one stretch:
/// from the first entry at or above the lower bound to the last entry at
/// or below the upper one.
pub proof fn lemma_select_is_stretch<K: OrderedKey, V>(
    s: Seq<(K, V)>,
    lo: Bound<K>,
    hi: Bound<K>,
    first: int,
    end: int,
)
    requires
        0 <= first <= s.len(),
        0 <= end <= s.len(),
        forall|i: int| 0 <= i < s.len() ==> (above((#[trigger] s[i]).0, lo) <==> i >= first),
        forall|i: int| 0 <= i < s.len() ==> (below((#[trigger] s[i]).0, hi) <==> i < end),
    ensures
        select(s, lo, hi) == (if first <= end {
            s.subrange(first, end)
        } else {
            Seq::empty()
        }),
{
    lemma_select_prefix(s, lo, hi, first, end, s.len() as int);
    assert(s.subrange(0, s.len() as int) =~= s);
    if first > end {
        assert(s.subrange(end, end) =~= Seq::<(K, V)>::empty());
    }
}

/// In a sorted sequence the entries with a key before `key` are exactly
/// the first `count_below` ones.
pub proof fn lemma_count_splits<K: OrderedKey, V>(s: Seq<(K, V)>, key: K)
    requires
        strictly_sorted(s),
    ensures
        0 <= count_below(s, key) <= s.len(),
        forall|i: int|
            0 <= i < s.len() ==> ((#[trigger] s[i]).0.ordinal() < key.ordinal() <==> i < count_below(
                s,
                key,
            )),
    decreases s.len(),
{
    if s.len() > 0 {
        let t = s.drop_last();
        let n = s.len() - 1;
        assert forall|a: int, b: int| 0 <= a < b < t.len() implies (#[trigger] t[a]).0.ordinal() < (
        #[trigger] t[b]).0.ordinal() by {
            assert(t[a] == s[a] && t[b] == s[b]);
        }
        lemma_count_splits(t, key);
        assert forall|i: int| 0 <= i < s.len() implies ((#[trigger] s[i]).0.ordinal() < key.ordinal() <==> i
            < count_below(s, key)) by {
            if i < n {
                assert(t[i] == s[i]);
                assert(s[i].0.ordinal() < s[n].0.ordinal());
                if count_below(t, key) < n {
                    let j = count_below(t, key);
                    assert(t[j] == s[j]);
                    assert(s[j].0.ordinal() < s[n].0.ordinal());
                }
            } else {
                if n > 0 && count_below(t, key) < n {
                    let j = count_below(t, key);
                    assert(t[j] == s[j]);
                    assert(s[j].0.ordinal() < s[n].0.ordinal());
                }
            }
        }
    }
}

/// The index of the first entry of `s` at or above the lower bound `lo`.
pub open spec fn first_index<K: OrderedKey, V>(s: Seq<(K, V)>, lo: Bound<K>) -> int {
    match lo {
        Bound::Included(k) => count_below(s, k),
        Bound::Excluded(k) => count_below(s, k) + (if holds_key(s, k) {
            1int
        } else {
            0int
        }),
        Bound::Unbounded => 0,
    }
}

/// The index just past the last entry of `s` at or below the upper bound
/// `hi`.
pub open spec fn end_index<K: OrderedKey, V>(s: Seq<(K, V)>, hi: Bound<K>) -> int {
    match hi {
        Bound::Included(k) => count_below(s, k) + (if holds_key(s, k) {
            1int
        } else {
            0int
        }),
        Bound::Excluded(k) => count_below(s, k),
        Bound::Unbounded => s.len() as int,
    }
}

/// In a sorted sequence the entry at index `count_below` is the one that
/// holds the key, if any does.
pub proof fn lemma_holder<K: OrderedKey, V>(s: Seq<(K, V)>, key: K)
    requires
        strictly_sorted(s),
    ensures
        holds_key(s, key) <==> (count_below(s, key) < s.len() && s[count_below(s, key)].0 == key),
{
    lemma_count_splits(s, key);
    let c = count_below(s, key);
    if holds_key(s, key) {
        let j = place_of(s, key);
        assert(s[j].0 == key);
        if j > c {
            assert(s[c].0.ordinal() < s[j].0.ordinal());
        }
    }
    if c < s.len() && s[c].0 == key {
        assert(holds_key(s, key));
    }
}

/// Range law: the entries of a sorted sequence that lie between two
/// bounds are the stretch from `first_index` to `end_index`, and nothing
/// where the two cross.
pub proof fn law_select_is_stretch<K: OrderedKey, V>(s: Seq<(K, V)>, lo: Bound<K>, hi: Bound<K>)
    requires
        strictly_sorted(s),
    ensures
        0 <= first_index(s, lo) <= s.len(),
        0 <= end_index(s, hi) <= s.len(),
        select(s, lo, hi) == (if first_index(s, lo) <= end_index(s, hi) {
            s.subrange(first_index(s, lo), end_index(s, hi))
        } else {
            Seq::empty()
        }),
        strictly_sorted(select(s, lo, hi)),
        forall|i: int|
            0 <= i < s.len() ==> (within((#[trigger] s[i]).0, lo, hi) <==> first_index(s, lo) <= i
                < end_index(s, hi)),
{
    let first = first_index(s, lo);
    let end = end_index(s, hi);
    match lo {
        Bound::Included(k) => {
            lemma_count_splits(s, k);
        },
        Bound::Excluded(k) => {
            lemma_count_splits(s, k);
            lemma_holder(s, k);
            let c = count_below(s, k);
            assert forall|i: int| 0 <= i < s.len() implies (above((#[trigger] s[i]).0, lo) <==> i
                >= first) by {
                if i == c && !holds_key(s, k) {
                    if s[c].0.ordinal() == k.ordinal() {
                        K::ordinal_is_injective(s[c].0, k);
                    }
                }
                if i > c {
                    assert(s[c].0.ordinal() < s[i].0.ordinal());
                }
            }
        },
        Bound::Unbounded => {},
    }
    match hi {
        Bound::Excluded(k) => {
            lemma_count_splits(s, k);
        },
        Bound::Included(k) => {
            lemma_count_splits(s, k);
            lemma_holder(s, k);
            let c = count_below(s, k);
            assert forall|i: int| 0 <= i < s.len() implies (below((#[trigger] s[i]).0, hi) <==> i
                < end) by {
                if i == c && !holds_key(s, k) {
                    if s[c].0.ordinal() == k.ordinal() {
                        K::ordinal_is_injective(s[c].0, k);
                    }
                }
                if i > c {
                    assert(s[c].0.ordinal() < s[i].0.ordinal());
                }
            }
        },
        Bound::Unbounded => {},
    }
    lemma_select_is_stretch(s, lo, hi, first, end);
    let r = select(s, lo, hi);
    assert forall|a: int, b: int| 0 <= a < b < r.len() implies (#[trigger] r[a]).0.ordinal() < (
    #[trigger] r[b]).0.ordinal() by {
        assert(r[a] == s[first + a] && r[b] == s[first + b]);
    }
}

/// Range law: leaving a bound's key out drops exactly the entry that
/// holds it, where the range with the key left in has one; and with no
/// bound on either side the range is the whole sequence.
pub proof fn law_bounds_narrow<K: OrderedKey, V>(s: Seq<(K, V)>, a: K, b: K)
    requires
        strictly_sorted(s),
    ensures
        select(s, Bound::Unbounded, Bound::Unbounded) == s,
        select(s, Bound::Excluded(a), Bound::Included(b)) == (if holds_key(s, a) && a.ordinal()
            <= b.ordinal() {
            select(s, Bound::Included(a), Bound::Included(b)).drop_first()
        } else {
            select(s, Bound::Included(a), Bound::Included(b))
        }),
        select(s, Bound::Included(a), Bound::Excluded(b)) == (if holds_key(s, b) && a.ordinal()
            <= b.ordinal() {
            select(s, Bound::Included(a), Bound::Included(b)).drop_last()
        } else {
            select(s, Bound::Included(a), Bound::Included(b))
        }),
{
    law_select_is_stretch::<K, V>(s, Bound::Unbounded, Bound::Unbounded);
    assert(s.subrange(0, s.len() as int) =~= s);
    law_select_is_stretch(s, Bound::Included(a), Bound::Included(b));
    law_select_is_stretch(s, Bound::Excluded(a), Bound::Included(b));
    law_select_is_stretch(s, Bound::Included(a), Bound::Excluded(b));
    lemma_count_splits(s, a);
    lemma_count_splits(s, b);
    lemma_holder(s, a);
    lemma_holder(s, b);
    let ca = count_below(s, a);
    let cb = count_below(s, b);
    let eb = end_index(s, Bound::Included(b));
    let full = select(s, Bound::Included(a), Bound::Included(b));
    // The two counts are ordered as the two keys are.
    if a.ordinal() <= b.ordinal() {
        if ca > cb {
            assert(s[cb].0.ordinal() < a.ordinal());
        }
        assert(ca <= cb);
    } else {
        if cb > ca {
            assert(s[ca].0.ordinal() < b.ordinal());
        }
        assert(cb <= ca);
        if holds_key(s, b) {
            assert(s[cb].0.ordinal() < a.ordinal());
            assert(cb < ca);
        }
        assert(eb <= ca);
    }
    if holds_key(s, a) && a.ordinal() <= b.ordinal() {
        if ca == cb {
            if a.ordinal() == b.ordinal() {
                K::ordinal_is_injective(a, b);
            }
            assert(holds_key(s, b));
        }
        assert(ca + 1 <= eb);
        assert(s.subrange(ca + 1, eb) =~= s.subrange(ca, eb).drop_first());
    } else {
        if ca > eb || ca + (if holds_key(s, a) { 1int } else { 0int }) > eb {
            assert(select(s, Bound::Excluded(a), Bound::Included(b)) =~= full);
        }
    }
    if holds_key(s, b) && a.ordinal() <= b.ordinal() {
        assert(s.subrange(ca, cb) =~= s.subrange(ca, cb + 1).drop_last());
    } else {
        if ca > cb || ca > eb {
            assert(select(s, Bound::Included(a), Bound::Excluded(b)) =~= full);
        }
    }
}

/// Insertion laws: binding a key in a sorted sequence keeps it sorted and
/// binds the key in its map; a key that was there keeps its place and the
/// length, a new key makes the sequence one longer.
pub proof fn law_put<K: OrderedKey, V>(s: Seq<(K, V)>, key: K, value: V)
    requires
        strictly_sorted(s),
    ensures
        strictly_sorted(put(s, key, value)),
        as_map(put(s, key, value)) == as_map(s).insert(key, value),
        as_map(put(s, key, value)).contains_key(key),
        as_map(put(s, key, value))[key] == value,
        put(s, key, value).len() == (if holds_key(s, key) {
            s.len()
        } else {
            s.len() + 1
        }),
        forall|other: K|
            other != key && #[trigger] as_map(s).contains_key(other) ==> as_map(put(s, key, value)).contains_key(
                other,
            ) && as_map(put(s, key, value))[other] == as_map(s)[other],
{
    lemma_count_splits(s, key);
    lemma_holder(s, key);
    let c = count_below(s, key);
    if c < s.len() && s[c].0 == key {
        lemma_map_update(s, c, value);
    } else {
        if c < s.len() && s[c].0.ordinal() == key.ordinal() {
            K::ordinal_is_injective(s[c].0, key);
        }
        lemma_map_insert(s, c, key, value);
    }
}

/// Deletion laws: taking a key out of a sorted sequence keeps it sorted
/// and takes the key out of its map; the sequence gets one shorter where
/// it held the key and is unchanged where it did not.
pub proof fn law_cut<K: OrderedKey, V>(s: Seq<(K, V)>, key: K)
    requires
        strictly_sorted(s),
    ensures
        strictly_sorted(cut(s, key)),
        as_map(cut(s, key)) == as_map(s).remove(key),
        !as_map(cut(s, key)).contains_key(key),
        !holds_key(s, key) ==> cut(s, key) == s,
        cut(s, key).len() == (if holds_key(s, key) {
            s.len() - 1
        } else {
            s.len() as int
        }),
        forall|other: K|
            other != key && #[trigger] as_map(s).contains_key(other) ==> as_map(cut(s, key)).contains_key(
                other,
            ) && as_map(cut(s, key))[other] == as_map(s)[other],
{
    lemma_count_splits(s, key);
    lemma_holder(s, key);
    let c = count_below(s, key);
    if c < s.len() && s[c].0 == key {
        lemma_map_remove(s, c);
    } else {
        assert(as_map(s).remove(key) =~= as_map(s));
    }
}

/// The map of a sorted sequence has as many keys as the sequence has
/// entries.
pub proof fn lemma_map_len<K: OrderedKey, V>(s: Seq<(K, V)>)
    requires
        strictly_sorted(s),
    ensures
        as_map(s).dom().finite(),
        as_map(s).len() == s.len(),
    decreases s.len(),
{
    if s.len() == 0 {
        assert(as_map(s) =~= Map::<K, V>::empty());
    } else {
        let n = s.len() - 1;
        let t = s.drop_last();
        assert forall|a: int, b: int| 0 <= a < b < t.len() implies (#[trigger] t[a]).0.ordinal() < (
        #[trigger] t[b]).0.ordinal() by {
            assert(t[a] == s[a] && t[b] == s[b]);
        }
        lemma_map_len(t);
        if n > 0 {
            assert(t[n - 1] == s[n - 1]);
            assert(s[n - 1].0.ordinal() < s[n].0.ordinal());
        }
        lemma_absent(t, s[n].0, n);
        lemma_map_insert(t, n, s[n].0, s[n].1);
        assert(t.insert(n, s[n]) =~= s);
    }
}

/// What a sorted run offers to the engine above it: a sequence of entries
/// in key order that can be added to, taken from, searched and exported.
pub trait Run<K: OrderedKey, V> {
    /// The run is in a state that its operations can work on.
    spec fn sound(&self) -> bool;

    /// The entries of the run, in key order.
    spec fn contents(&self) -> Seq<(K, V)>;

    /// The size that the engine has last advised, 0 before it has.
    spec fn advised_size(&self) -> int;

    /// The entries of a sound run are sorted by key, strictly.
    proof fn contents_are_sorted(&self)
        requires
            self.sound(),
        ensures
            strictly_sorted(self.contents()),
    ;

    /// Binds `key` to `value`.
    fn insert_key(&mut self, key: K, value: V)
        requires
            old(self).sound(),
        ensures
            final(self).sound(),
            final(self).contents() == put(old(self).contents(), key, value),
            final(self).advised_size() == old(self).advised_size(),
    ;

    /// Takes the entry for `key` out and returns its value, if there is
    /// one.
    fn delete_key(&mut self, key: &K) -> (r: Option<V>)
        requires
            old(self).sound(),
        ensures
            final(self).sound(),
            final(self).contents() == cut(old(self).contents(), *key),
            final(self).advised_size() == old(self).advised_size(),
            r == (if holds_key(old(self).contents(), *key) {
                Some(as_map(old(self).contents())[*key])
            } else {
                None
            }),
    ;

    /// The value bound to `key`, if there is one.
    fn lookup(&self, key: &K) -> (r: Option<&V>)
        requires
            self.sound(),
        ensures
            r.is_some() == holds_key(self.contents(), *key),
            r.is_some() ==> *r.unwrap() == as_map(self.contents())[*key],
    ;

    /// Whether the run holds `key`.
    fn contains_key(&self, key: &K) -> (b: bool)
        requires
            self.sound(),
        ensures
            b == holds_key(self.contents(), *key),
    ;

    /// All entries, in key order.
    fn get_all(&self) -> (out: Vec<KVpair<K, &V>>)
        requires
            self.sound(),
        ensures
            pairs(out@) == self.contents(),
    ;

    /// The entries with keys from `key1` to `key2`, both included, in key
    /// order.
    fn get_all_in_range(&self, key1: K, key2: K) -> (out: Vec<KVpair<K, &V>>)
        requires
            self.sound(),
        ensures
            pairs(out@) == select(self.contents(), Bound::Included(key1), Bound::Included(key2)),
    ;

    /// The number of entries.
    fn num_elements(&self) -> (n: usize)
        requires
            self.sound(),
        ensures
            n == self.contents().len(),
    ;

    /// Whether the run holds no entry.
    fn is_empty(&self) -> (b: bool)
        requires
            self.sound(),
        ensures
            b == (self.contents().len() == 0),
    ;

    /// Records the engine's advisory size. The entries are untouched.
    fn set_size(&mut self, size: usize)
        requires
            old(self).sound(),
        ensures
            final(self).sound(),
            final(self).advised_size() == size,
            final(self).contents() == old(self).contents(),
    ;
}

} // verus!
