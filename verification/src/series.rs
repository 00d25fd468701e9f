//! Counting integer keys: occurrence counts, key bounds, and dense series
//! with one entry per unit step.

use crate::order::Key;
use vstd::prelude::*;

verus! {

/// The number of occurrences of an event.
pub type Occurrences = usize;

/// How often `k` occurs in `keys`.
pub open spec fn occurrences(keys: Seq<i32>, k: int) -> nat
    decreases keys.len(),
{
    if keys.len() == 0 {
        0
    } else {
        occurrences(keys.drop_last(), k) + if keys.last() as int == k {
            1nat
        } else {
            0nat
        }
    }
}

/// The smallest key (0 for an empty sequence).
pub open spec fn min_key(keys: Seq<i32>) -> int
    decreases keys.len(),
{
    if keys.len() == 0 {
        0
    } else if keys.len() == 1 {
        keys[0] as int
    } else {
        let rest = min_key(keys.drop_last());
        if (keys.last() as int) < rest {
            keys.last() as int
        } else {
            rest
        }
    }
}

/// The largest key (0 for an empty sequence).
pub open spec fn max_key(keys: Seq<i32>) -> int
    decreases keys.len(),
{
    if keys.len() == 0 {
        0
    } else if keys.len() == 1 {
        keys[0] as int
    } else {
        let rest = max_key(keys.drop_last());
        if (keys.last() as int) > rest {
            keys.last() as int
        } else {
            rest
        }
    }
}

/// The series with one entry for every key from `lo` to `hi` inclusive, in
/// ascending order, each paired with its number of occurrences in `keys`.
pub open spec fn dense_series(keys: Seq<i32>, lo: int, hi: int) -> Seq<(i32, Occurrences)> {
    Seq::new(
        (hi - lo + 1) as nat,
        |i: int| ((lo + i) as i32, occurrences(keys, lo + i) as Occurrences),
    )
}

pub proof fn lemma_occurrences_take_succ(keys: Seq<i32>, n: int, k: int)
    requires
        0 <= n < keys.len(),
    ensures
        occurrences(keys.take(n + 1), k) == occurrences(keys.take(n), k) + if keys[n] as int == k {
            1nat
        } else {
            0nat
        },
{
    assert(keys.take(n + 1).drop_last() =~= keys.take(n));
}

/// A key cannot occur more often than there are keys.
pub proof fn lemma_occurrences_bounded(keys: Seq<i32>, k: int)
    ensures
        occurrences(keys, k) <= keys.len(),
    decreases keys.len(),
{
    if keys.len() > 0 {
        lemma_occurrences_bounded(keys.drop_last(), k);
    }
}

/// A key occurs at least once exactly if it is an element of the sequence.
pub proof fn lemma_occurrences_positive(keys: Seq<i32>, k: int)
    ensures
        occurrences(keys, k) > 0 <==> exists|i: int| 0 <= i < keys.len() && keys[i] as int == k,
    decreases keys.len(),
{
    if keys.len() > 0 {
        let front = keys.drop_last();
        lemma_occurrences_positive(front, k);
        if occurrences(keys, k) > 0 {
            if keys.last() as int == k {
                assert(keys[keys.len() - 1] as int == k);
            } else {
                let i = choose|i: int| 0 <= i < front.len() && front[i] as int == k;
                assert(keys[i] as int == k);
            }
        }
        if exists|i: int| 0 <= i < keys.len() && keys[i] as int == k {
            let i = choose|i: int| 0 <= i < keys.len() && keys[i] as int == k;
            if i < keys.len() - 1 {
                assert(front[i] as int == k);
            }
        }
    }
}

/// The smallest and largest key are elements of a non-empty sequence and
/// bound every other element.
pub proof fn lemma_key_bounds(keys: Seq<i32>)
    requires
        keys.len() > 0,
    ensures
        forall|i: int| 0 <= i < keys.len() ==> min_key(keys) <= #[trigger] keys[i] <= max_key(keys),
        exists|i: int| 0 <= i < keys.len() && keys[i] as int == min_key(keys),
        exists|i: int| 0 <= i < keys.len() && keys[i] as int == max_key(keys),
        min_key(keys) <= max_key(keys),
    decreases keys.len(),
{
    if keys.len() == 1 {
        assert(keys[0] as int == min_key(keys));
        assert(keys[0] as int == max_key(keys));
    } else {
        let front = keys.drop_last();
        lemma_key_bounds(front);
        let last = keys.len() - 1;
        assert forall|i: int| 0 <= i < keys.len() implies min_key(keys) <= #[trigger] keys[i]
            <= max_key(keys) by {
            if i < last {
                assert(front[i] == keys[i]);
            }
        }
        let a = choose|i: int| 0 <= i < front.len() && front[i] as int == min_key(front);
        let b = choose|i: int| 0 <= i < front.len() && front[i] as int == max_key(front);
        assert(keys[a] == front[a] && keys[b] == front[b]);
        if (keys.last() as int) < min_key(front) {
            assert(keys[last] as int == min_key(keys));
        } else {
            assert(keys[a] as int == min_key(keys));
        }
        if (keys.last() as int) > max_key(front) {
            assert(keys[last] as int == max_key(keys));
        } else {
            assert(keys[b] as int == max_key(keys));
        }
    }
}

/// In the dense series from the smallest to the largest key, every key of
/// the input has its entry with its exact count, which is at least one, and
/// every other entry counts zero.
pub proof fn lemma_dense_series_counts(keys: Seq<i32>)
    requires
        keys.len() > 0,
        keys.len() <= usize::MAX,
    ensures
        dense_series(keys, min_key(keys), max_key(keys)).len() == max_key(keys) - min_key(keys) + 1,
        forall|i: int|
            0 <= i < keys.len() ==> {
                let entry = dense_series(keys, min_key(keys), max_key(keys))[#[trigger] keys[i]
                    - min_key(keys)];
                entry.0 == keys[i] && entry.1 == occurrences(keys, keys[i] as int) && entry.1 >= 1
            },
        forall|k: int|
            min_key(keys) <= k <= max_key(keys) && !keys.contains(k as i32) ==> (
            #[trigger] dense_series(keys, min_key(keys), max_key(keys))[k - min_key(keys)]).1 == 0,
{
    lemma_key_bounds(keys);
    let lo = min_key(keys);
    let hi = max_key(keys);
    let series = dense_series(keys, lo, hi);
    assert forall|i: int| 0 <= i < keys.len() implies {
        let entry = series[#[trigger] keys[i] - lo];
        entry.0 == keys[i] && entry.1 == occurrences(keys, keys[i] as int) && entry.1 >= 1
    } by {
        let k = keys[i] as int;
        lemma_occurrences_positive(keys, k);
        lemma_occurrences_bounded(keys, k);
        assert(lo <= keys[i] <= hi);
    }
    assert forall|k: int| lo <= k <= hi && !keys.contains(k as i32) implies (#[trigger] series[k
        - lo]).1 == 0 by {
        lemma_occurrences_positive(keys, k);
        if occurrences(keys, k) > 0 {
            let i = choose|i: int| 0 <= i < keys.len() && keys[i] as int == k;
            assert(keys.contains(keys[i]));
        }
    }
}

/// The smallest and the largest key, or `None` when there are no keys.
pub fn key_bounds(keys: &Vec<i32>) -> (r: Option<(i32, i32)>)
    ensures
        r == if keys@.len() == 0 {
            None
        } else {
            Some((min_key(keys@) as i32, max_key(keys@) as i32))
        },
        r matches Some(b) ==> b.0 == min_key(keys@) && b.1 == max_key(keys@) && b.0 <= b.1,
{
    if keys.len() == 0 {
        return None;
    }
    let mut lo: i32 = keys[0];
    let mut hi: i32 = keys[0];
    let mut n: usize = 1;
    assert(keys@.take(1).len() == 1);
    while n < keys.len()
        invariant
            1 <= n <= keys.len(),
            lo == min_key(keys@.take(n as int)),
            hi == max_key(keys@.take(n as int)),
        decreases keys.len() - n,
    {
        let key: i32 = keys[n];
        proof {
            assert(keys@.take(n + 1).drop_last() =~= keys@.take(n as int));
            assert(keys@.take(n + 1).last() == key);
        }
        if key < lo {
            lo = key;
        }
        if key > hi {
            hi = key;
        }
        n += 1;
    }
    proof {
        assert(keys@.take(n as int) =~= keys@);
        lemma_key_bounds(keys@);
    }
    Some((lo, hi))
}

/// How often `key` occurs in `keys`.
pub fn count_key(keys: &Vec<i32>, key: i32) -> (count: Occurrences)
    ensures
        count == occurrences(keys@, key as int),
{
    let mut count: usize = 0;
    let mut n: usize = 0;
    while n < keys.len()
        invariant
            n <= keys.len(),
            count == occurrences(keys@.take(n as int), key as int),
            count <= n,
        decreases keys.len() - n,
    {
        proof {
            lemma_occurrences_take_succ(keys@, n as int, key as int);
        }
        if keys[n] == key {
            count += 1;
        }
        n += 1;
    }
    proof {
        assert(keys@.take(n as int) =~= keys@);
    }
    count
}

/// Counts the keys from `lo` to `hi` into a dense series: one entry per unit
/// step, zero where a key does not occur. Keys outside the range are ignored.
pub fn dense_counts_between(keys: &Vec<i32>, lo: i32, hi: i32) -> (series: Vec<(i32, Occurrences)>)
    requires
        lo <= hi,
        hi - lo < usize::MAX,
    ensures
        series@ == dense_series(keys@, lo as int, hi as int),
        series@.len() == hi - lo + 1,
        forall|i: int|
            0 <= i < series@.len() ==> (#[trigger] series@[i]).0 == lo + i && series@[i].1
                == occurrences(keys@, lo + i),
{
    let span: usize = ((hi as i64) - (lo as i64)) as usize + 1;
    let mut counts: Vec<usize> = Vec::new();
    let mut j: usize = 0;
    while j < span
        invariant
            j <= span,
            counts@.len() == j,
            forall|i: int| 0 <= i < j ==> counts@[i] == 0,
        decreases span - j,
    {
        counts.push(0);
        j += 1;
    }
    let mut n: usize = 0;
    while n < keys.len()
        invariant
            n <= keys.len(),
            lo <= hi,
            span == hi - lo + 1,
            counts@.len() == span,
            forall|k: int|
                lo <= k <= hi ==> counts@[k - lo] == #[trigger] occurrences(
                    keys@.take(n as int),
                    k,
                ),
        decreases keys.len() - n,
    {
        let key: i32 = keys[n];
        proof {
            assert forall|k: int| lo <= k <= hi implies #[trigger] occurrences(
                keys@.take(n + 1),
                k,
            ) == occurrences(keys@.take(n as int), k) + if key as int == k {
                1nat
            } else {
                0nat
            } by {
                lemma_occurrences_take_succ(keys@, n as int, k);
            }
        }
        if lo <= key && key <= hi {
            let at: usize = ((key as i64) - (lo as i64)) as usize;
            proof {
                lemma_occurrences_bounded(keys@.take(n as int), key as int);
            }
            let seen: usize = counts[at];
            counts.set(at, seen + 1);
        }
        n += 1;
    }
    proof {
        assert(keys@.take(n as int) =~= keys@);
    }
    let mut series: Vec<(i32, Occurrences)> = Vec::new();
    let mut j: usize = 0;
    while j < span
        invariant
            j <= span,
            lo <= hi,
            span == hi - lo + 1,
            counts@.len() == span,
            series@.len() == j,
            forall|k: int| lo <= k <= hi ==> counts@[k - lo] == #[trigger] occurrences(keys@, k),
            forall|i: int|
                0 <= i < j ==> (#[trigger] series@[i]).0 == lo + i && series@[i].1 == occurrences(
                    keys@,
                    lo + i,
                ),
        decreases span - j,
    {
        let key: i32 = ((lo as i64) + (j as i64)) as i32;
        series.push((key, counts[j]));
        j += 1;
    }
    proof {
        assert(series@ =~= dense_series(keys@, lo as int, hi as int));
    }
    series
}

/// Whether `bins` is the binning of `keys`: one entry for each distinct key,
/// in strictly ascending key order, each with the number of times that key
/// occurs.
pub open spec fn is_binning(keys: Seq<i32>, bins: Seq<(i32, Occurrences)>) -> bool {
    &&& forall|i: int, j: int| 0 <= i < j < bins.len() ==> (#[trigger] bins[i]).0 < (#[trigger] bins[j]).0
    &&& forall|i: int|
        0 <= i < bins.len() ==> (#[trigger] bins[i]).1 > 0 && bins[i].1 == occurrences(
            keys,
            bins[i].0 as int,
        )
    &&& forall|k: int| #[trigger]
        occurrences(keys, k) > 0 ==> exists|i: int| 0 <= i < bins.len() && (#[trigger] bins[i]).0 == k
}

/// How often `k` occurs in `keys`.
pub open spec fn count_of<K>(keys: Seq<K>, k: K) -> nat
    decreases keys.len(),
{
    if keys.len() == 0 {
        0
    } else {
        count_of(keys.drop_last(), k) + if keys.last() == k {
            1nat
        } else {
            0nat
        }
    }
}

/// The keys that the values stand for, in their order.
pub open spec fn key_views<K: Key>(keys: Seq<K>) -> Seq<K::V> {
    Seq::new(keys.len(), |i: int| keys[i].key())
}

/// Whether `bins` is the binning of `keys`: one entry for each distinct key,
/// in strictly ascending key order, each with the number of times that key
/// occurs.
pub open spec fn is_key_binning<K: Key>(keys: Seq<K::V>, bins: Seq<(K, Occurrences)>) -> bool {
    &&& forall|i: int, j: int|
        0 <= i < j < bins.len() ==> K::before(
            (#[trigger] bins[i]).0.key(),
            (#[trigger] bins[j]).0.key(),
        )
    &&& forall|i: int|
        0 <= i < bins.len() ==> (#[trigger] bins[i]).1 > 0 && bins[i].1 == count_of(
            keys,
            bins[i].0.key(),
        )
    &&& forall|k: K::V| #[trigger]
        count_of(keys, k) > 0 ==> exists|i: int|
            0 <= i < bins.len() && (#[trigger] bins[i]).0.key() == k
}

/// A key cannot occur more often than there are keys.
pub proof fn lemma_count_of_bounded<K>(keys: Seq<K>, k: K)
    ensures
        count_of(keys, k) <= keys.len(),
    decreases keys.len(),
{
    if keys.len() > 0 {
        lemma_count_of_bounded(keys.drop_last(), k);
    }
}

/// A key put in front counts like any other.
pub proof fn lemma_count_of_prepend<K>(keys: Seq<K>, first: K, k: K)
    ensures
        count_of(seq![first] + keys, k) == count_of(keys, k) + if first == k {
            1nat
        } else {
            0nat
        },
    decreases keys.len(),
{
    let all = seq![first] + keys;
    assert(all.len() == keys.len() + 1);
    if keys.len() == 0 {
        assert(all.drop_last() =~= Seq::<K>::empty());
        assert(all.last() == first);
        assert(count_of(all.drop_last(), k) == 0);
    } else {
        assert(all.drop_last() =~= seq![first] + keys.drop_last());
        assert(all.last() == keys.last());
        lemma_count_of_prepend(keys.drop_last(), first, k);
    }
}

/// Counting integer keys by value or by number gives the same.
pub proof fn lemma_count_of_integers(keys: Seq<i32>, k: i32)
    ensures
        count_of(keys, k) == occurrences(keys, k as int),
    decreases keys.len(),
{
    if keys.len() > 0 {
        lemma_count_of_integers(keys.drop_last(), k);
    }
}

/// Groups keys of any ordered kind into occurrence counts, sorted ascending
/// by key. No gaps are filled: a key that does not occur has no entry.
pub fn bin_by<K: Key>(keys: Vec<K>) -> (bins: Vec<(K, Occurrences)>)
    ensures
        is_key_binning(key_views(keys@), bins@),
        bins@.len() <= keys@.len(),
{
    let ghost all = key_views(keys@);
    let total: usize = keys.len();
    let mut rest = keys;
    let mut bins: Vec<(K, Occurrences)> = Vec::new();
    proof {
        assert(all.skip(all.len() as int) =~= Seq::<K::V>::empty());
        assert(key_views(rest@) =~= all.take(all.len() as int));
    }
    while rest.len() > 0
        invariant
            all.len() == total,
            rest@.len() <= all.len(),
            key_views(rest@) == all.take(rest@.len() as int),
            is_key_binning(all.skip(rest@.len() as int), bins@),
            bins@.len() + rest@.len() <= all.len(),
        decreases rest.len(),
    {
        let ghost rest_before = rest@;
        let key: K = rest.pop().unwrap();
        let ghost m = rest@.len() as int;
        let ghost seen = all.skip(m + 1);
        let ghost now = all.skip(m);
        let ghost kv = key.key();
        let mut p: usize = 0;
        while p < bins.len() && bins[p].0.precedes(&key)
            invariant
                p <= bins.len(),
                forall|i: int| 0 <= i < p ==> K::before((#[trigger] bins@[i]).0.key(), key.key()),
            decreases bins.len() - p,
        {
            p += 1;
        }
        let ghost before = bins@;
        proof {
            assert(key_views(rest_before)[m] == rest_before[m].key());
            assert(all[m] == kv);
            assert(now =~= seq![kv] + seen);
            assert(key_views(rest@) =~= all.take(m));
            assert forall|k: K::V| #[trigger] count_of(now, k) == count_of(seen, k) + if kv == k {
                1nat
            } else {
                0nat
            } by {
                lemma_count_of_prepend(seen, kv, k);
            }
            lemma_count_of_bounded(seen, kv);
            K::lemma_before_irreflexive(kv);
        }
        if p < bins.len() && !key.precedes(&bins[p].0) {
            let count: usize = bins[p].1;
            proof {
                K::lemma_before_total(kv, before[p as int].0.key());
            }
            bins.set(p, (key, count + 1));
            proof {
                assert forall|k: K::V| #[trigger] count_of(now, k) > 0 implies exists|i: int|
                    0 <= i < bins@.len() && (#[trigger] bins@[i]).0.key() == k by {
                    if k == kv {
                        assert(bins@[p as int].0.key() == k);
                    } else {
                        assert(count_of(seen, k) > 0);
                        let i = choose|i: int|
                            0 <= i < before.len() && (#[trigger] before[i]).0.key() == k;
                        assert(bins@[i].0.key() == k);
                    }
                }
                assert forall|i: int| 0 <= i < bins@.len() implies (#[trigger] bins@[i]).1 > 0
                    && bins@[i].1 == count_of(now, bins@[i].0.key()) by {
                    if i != p {
                        assert(bins@[i] == before[i]);
                        if i < p {
                            assert(K::before(before[i].0.key(), before[p as int].0.key()));
                        } else {
                            assert(K::before(before[p as int].0.key(), before[i].0.key()));
                        }
                    }
                }
                assert forall|i: int, j: int| 0 <= i < j < bins@.len() implies K::before(
                    (#[trigger] bins@[i]).0.key(),
                    (#[trigger] bins@[j]).0.key(),
                ) by {
                    assert(bins@[i].0.key() == before[i].0.key());
                    assert(bins@[j].0.key() == before[j].0.key());
                }
            }
        } else {
            proof {
                if count_of(seen, kv) > 0 {
                    let i = choose|i: int|
                        0 <= i < before.len() && (#[trigger] before[i]).0.key() == kv;
                    if i > p {
                        assert(K::before(before[p as int].0.key(), before[i].0.key()));
                        K::lemma_before_transitive(kv, before[p as int].0.key(), kv);
                    }
                    assert(false);
                }
            }
            bins.insert(p, (key, 1));
            proof {
                assert forall|i: int| 0 <= i < bins@.len() implies (#[trigger] bins@[i]).1 > 0
                    && bins@[i].1 == count_of(now, bins@[i].0.key()) by {
                    if i < p {
                        assert(bins@[i] == before[i]);
                    } else if i > p {
                        assert(bins@[i] == before[i - 1]);
                        if i - 1 > p {
                            assert(K::before(before[p as int].0.key(), before[i - 1].0.key()));
                            K::lemma_before_transitive(
                                kv,
                                before[p as int].0.key(),
                                before[i - 1].0.key(),
                            );
                        }
                    }
                }
                assert forall|i: int, j: int| 0 <= i < j < bins@.len() implies K::before(
                    (#[trigger] bins@[i]).0.key(),
                    (#[trigger] bins@[j]).0.key(),
                ) by {
                    if i < p {
                        assert(bins@[i] == before[i]);
                    } else if i > p {
                        assert(bins@[i] == before[i - 1]);
                    }
                    if j < p {
                        assert(bins@[j] == before[j]);
                    } else if j > p {
                        assert(bins@[j] == before[j - 1]);
                        if j - 1 > p {
                            assert(K::before(before[p as int].0.key(), before[j - 1].0.key()));
                            if i <= p {
                                K::lemma_before_transitive(
                                    kv,
                                    before[p as int].0.key(),
                                    before[j - 1].0.key(),
                                );
                            }
                        }
                        if i < p {
                            K::lemma_before_transitive(
                                before[i].0.key(),
                                kv,
                                before[j - 1].0.key(),
                            );
                        }
                    }
                }
                assert forall|k: K::V| #[trigger] count_of(now, k) > 0 implies exists|i: int|
                    0 <= i < bins@.len() && (#[trigger] bins@[i]).0.key() == k by {
                    if k == kv {
                        assert(bins@[p as int].0.key() == k);
                    } else {
                        assert(count_of(seen, k) > 0);
                        let i = choose|i: int|
                            0 <= i < before.len() && (#[trigger] before[i]).0.key() == k;
                        if i < p {
                            assert(bins@[i].0.key() == k);
                        } else {
                            assert(bins@[i + 1].0.key() == k);
                        }
                    }
                }
            }
        }
    }
    proof {
        assert(all.skip(0) =~= all);
    }
    bins
}

/// Groups integer keys into occurrence counts, sorted ascending by key. No
/// gaps are filled: a key that does not occur has no entry.
pub fn bin_keys(keys: &Vec<i32>) -> (bins: Vec<(i32, Occurrences)>)
    ensures
        is_binning(keys@, bins@),
        keys@.len() == 0 ==> bins@.len() == 0,
        bins@.len() <= keys@.len(),
{
    let mut copy: Vec<i32> = Vec::new();
    let mut n: usize = 0;
    while n < keys.len()
        invariant
            n <= keys.len(),
            copy@ == keys@.take(n as int),
        decreases keys.len() - n,
    {
        copy.push(keys[n]);
        proof {
            assert(copy@ =~= keys@.take(n + 1));
        }
        n += 1;
    }
    proof {
        assert(keys@.take(n as int) =~= keys@);
        assert(key_views(copy@) =~= keys@);
    }
    let bins = bin_by(copy);
    proof {
        assert forall|i: int| 0 <= i < bins@.len() implies (#[trigger] bins@[i]).1 > 0
            && bins@[i].1 == occurrences(keys@, bins@[i].0 as int) by {
            lemma_count_of_integers(keys@, bins@[i].0);
        }
        assert forall|k: int| #[trigger] occurrences(keys@, k) > 0 implies exists|i: int|
            0 <= i < bins@.len() && (#[trigger] bins@[i]).0 == k by {
            lemma_occurrences_positive(keys@, k);
            let at = choose|at: int| 0 <= at < keys@.len() && keys@[at] as int == k;
            lemma_count_of_integers(keys@, keys@[at]);
            assert(count_of(keys@, keys@[at]) > 0);
            let i = choose|i: int| 0 <= i < bins@.len() && (#[trigger] bins@[i]).0.key() == keys@[at];
            assert(bins@[i].0 == k);
        }
    }
    bins
}

} // verus!
