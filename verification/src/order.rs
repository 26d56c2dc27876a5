//! Sorted order, ranks with tie-averaging and the mode, over integer sort
//! keys.
//!
//! A sample is given by one key per observation; keys order the observations
//! and equal keys mean tied observations.

use vstd::prelude::*;

verus! {

/// How many keys of `data` are less than `v`.
pub open spec fn count_less(data: Seq<i64>, v: i64) -> nat
    decreases data.len(),
{
    if data.len() == 0 {
        0
    } else {
        count_less(data.drop_last(), v) + if data.last() < v {
            1nat
        } else {
            0nat
        }
    }
}

/// How many keys of `data` are equal to `v`.
pub open spec fn count_equal(data: Seq<i64>, v: i64) -> nat
    decreases data.len(),
{
    if data.len() == 0 {
        0
    } else {
        count_equal(data.drop_last(), v) + if data.last() == v {
            1nat
        } else {
            0nat
        }
    }
}

/// Twice the 1-based rank of observation `i`, ties averaged: the keys below
/// it fill the ranks `1..=less`, the keys equal to it share the ranks
/// `less + 1..=less + equal`, and the mean of those is
/// `less + (equal + 1) / 2`.
pub open spec fn doubled_rank(data: Seq<i64>, i: int) -> nat {
    2 * count_less(data, data[i]) + count_equal(data, data[i]) + 1
}

/// The keys below `v` and the keys equal to `v` never outnumber the sample,
/// and all of them lie below any greater key.
pub proof fn lemma_counts(data: Seq<i64>, v: i64, w: i64)
    ensures
        count_less(data, v) + count_equal(data, v) <= data.len(),
        v < w ==> count_less(data, v) + count_equal(data, v) <= count_less(data, w),
    decreases data.len(),
{
    if data.len() > 0 {
        lemma_counts(data.drop_last(), v, w);
    }
}

/// An observation counts among the keys equal to its own.
pub proof fn lemma_counts_itself(data: Seq<i64>, i: int)
    requires
        0 <= i < data.len(),
    ensures
        count_equal(data, data[i]) >= 1,
    decreases data.len(),
{
    if i < data.len() - 1 {
        lemma_counts_itself(data.drop_last(), i);
    }
}

/// Tied observations share one rank.
pub proof fn lemma_rank_ties(data: Seq<i64>, i: int, j: int)
    requires
        0 <= i < data.len(),
        0 <= j < data.len(),
        data[i] == data[j],
    ensures
        doubled_rank(data, i) == doubled_rank(data, j),
{
}

/// A smaller key has a smaller rank.
pub proof fn lemma_rank_monotone(data: Seq<i64>, i: int, j: int)
    requires
        0 <= i < data.len(),
        0 <= j < data.len(),
        data[i] < data[j],
    ensures
        doubled_rank(data, i) < doubled_rank(data, j),
{
    lemma_counts(data, data[i], data[j]);
    lemma_counts_itself(data, i);
}

/// Ranks run from 1 to the size of the sample.
pub proof fn lemma_rank_bounds(data: Seq<i64>, i: int)
    requires
        0 <= i < data.len(),
    ensures
        2 <= doubled_rank(data, i) <= 2 * data.len(),
{
    lemma_counts(data, data[i], data[i]);
    lemma_counts_itself(data, i);
}

/// An observation without ties has the whole rank one above the number of
/// keys below it.
pub proof fn lemma_rank_untied(data: Seq<i64>, i: int)
    requires
        0 <= i < data.len(),
        count_equal(data, data[i]) == 1,
    ensures
        doubled_rank(data, i) == 2 * (count_less(data, data[i]) + 1),
{
}

/// Two samples of the same size order their observations alike: wherever one
/// has a smaller key, so has the other.
pub open spec fn same_order(a: Seq<i64>, b: Seq<i64>) -> bool {
    &&& a.len() == b.len()
    &&& forall|i: int, j: int| 0 <= i < a.len() && 0 <= j < a.len() ==> (a[i] < a[j] <==> b[i] < b[j])
}

proof fn lemma_same_order_counts(a: Seq<i64>, b: Seq<i64>, i: int, m: int)
    requires
        same_order(a, b),
        0 <= i < a.len(),
        0 <= m <= a.len(),
    ensures
        count_less(a.take(m), a[i]) == count_less(b.take(m), b[i]),
        count_equal(a.take(m), a[i]) == count_equal(b.take(m), b[i]),
    decreases m,
{
    if m > 0 {
        lemma_same_order_counts(a, b, i, m - 1);
        assert(a.take(m).drop_last() =~= a.take(m - 1));
        assert(b.take(m).drop_last() =~= b.take(m - 1));
        assert(a.take(m).last() == a[m - 1]);
        assert(b.take(m).last() == b[m - 1]);
        assert(a[m - 1] < a[i] <==> b[m - 1] < b[i]);
        assert(a[i] < a[m - 1] <==> b[i] < b[m - 1]);
    } else {
        assert(a.take(0) =~= Seq::<i64>::empty());
        assert(b.take(0) =~= Seq::<i64>::empty());
    }
}

/// Ranks depend on the order of the keys alone: samples that order their
/// observations alike give every observation the same rank.
pub proof fn lemma_rank_depends_on_order(a: Seq<i64>, b: Seq<i64>, i: int)
    requires
        same_order(a, b),
        0 <= i < a.len(),
    ensures
        doubled_rank(a, i) == doubled_rank(b, i),
{
    lemma_same_order_counts(a, b, i, a.len() as int);
    assert(a.take(a.len() as int) =~= a);
    assert(b.take(b.len() as int) =~= b);
}

/// The sum of the doubled ranks of the observations `0..upto`.
pub open spec fn rank_sum(data: Seq<i64>, upto: int) -> nat
    decreases upto,
{
    if upto <= 0 {
        0
    } else {
        rank_sum(data, upto - 1) + doubled_rank(data, upto - 1)
    }
}

/// How many keys of `data` are greater than `v`.
pub open spec fn count_greater(data: Seq<i64>, v: i64) -> nat
    decreases data.len(),
{
    if data.len() == 0 {
        0
    } else {
        count_greater(data.drop_last(), v) + if data.last() > v {
            1nat
        } else {
            0nat
        }
    }
}

/// Every key is below, equal to or above a given key.
pub proof fn lemma_counts_split(data: Seq<i64>, v: i64)
    ensures
        count_less(data, v) + count_equal(data, v) + count_greater(data, v) == data.len(),
    decreases data.len(),
{
    if data.len() > 0 {
        lemma_counts_split(data.drop_last(), v);
    }
}

/// What one more observation `x` adds to the doubled ranks of the first `m`
/// observations before it: two for each greater key, one for each equal key.
proof fn lemma_rank_sum_push(data: Seq<i64>, x: i64, m: int)
    requires
        0 <= m <= data.len(),
    ensures
        rank_sum(data.push(x), m) == rank_sum(data, m) + 2 * count_greater(data.take(m), x)
            + count_equal(data.take(m), x),
    decreases m,
{
    if m > 0 {
        lemma_rank_sum_push(data, x, m - 1);
        let longer = data.push(x);
        assert(longer.drop_last() =~= data);
        assert(longer[m - 1] == data[m - 1]);
        assert(data.take(m).drop_last() =~= data.take(m - 1));
        assert(data.take(m).last() == data[m - 1]);
    } else {
        assert(data.take(0) =~= Seq::<i64>::empty());
    }
}

/// The ranks of a sample of `n` observations add up to `n (n + 1) / 2`,
/// whatever the ties: tie-averaging moves rank between tied observations and
/// never changes the total.
pub proof fn lemma_rank_sum(data: Seq<i64>)
    ensures
        rank_sum(data, data.len() as int) == data.len() * (data.len() + 1),
    decreases data.len(),
{
    if data.len() > 0 {
        let shorter = data.drop_last();
        let x = data.last();
        let n = shorter.len() as int;
        lemma_rank_sum(shorter);
        assert(shorter.push(x) =~= data);
        lemma_rank_sum_push(shorter, x, n);
        assert(shorter.take(n) =~= shorter);
        lemma_counts_split(shorter, x);
        assert(doubled_rank(data, n) == 2 * count_less(shorter, x) + count_equal(shorter, x) + 2);
        assert(rank_sum(data, n + 1) == n * (n + 1) + 2 * n + 2);
        assert(n * (n + 1) + 2 * n + 2 == (n + 1) * (n + 2)) by (nonlinear_arith);
    }
}

/// Lexicographic order on (key, index) pairs.
pub open spec fn pair_le(a: (i64, usize), b: (i64, usize)) -> bool {
    a.0 < b.0 || (a.0 == b.0 && a.1 <= b.1)
}

/// The observations of `data`, each with its index.
pub open spec fn indexed(data: Seq<i64>) -> Seq<(i64, usize)> {
    Seq::new(data.len(), |i: int| (data[i], i as usize))
}

/// How many pairs of `s` have a key less than `v` (`strict`) or equal to `v`.
spec fn pairs_count(s: Seq<(i64, usize)>, v: i64, strict: bool) -> nat
    decreases s.len(),
{
    if s.len() == 0 {
        0
    } else {
        pairs_count(s.drop_last(), v, strict) + if (strict && s.last().0 < v) || (!strict
            && s.last().0 == v) {
            1nat
        } else {
            0nat
        }
    }
}

proof fn lemma_pairs_count_indexed(data: Seq<i64>, v: i64)
    requires
        data.len() <= usize::MAX,
    ensures
        pairs_count(indexed(data), v, true) == count_less(data, v),
        pairs_count(indexed(data), v, false) == count_equal(data, v),
    decreases data.len(),
{
    if data.len() > 0 {
        lemma_pairs_count_indexed(data.drop_last(), v);
        assert(indexed(data).drop_last() =~= indexed(data.drop_last()));
    }
}

proof fn lemma_pairs_count_remove(s: Seq<(i64, usize)>, k: int, v: i64, strict: bool)
    requires
        0 <= k < s.len(),
    ensures
        pairs_count(s, v, strict) == pairs_count(s.remove(k), v, strict) + if (strict && s[k].0 < v)
            || (!strict && s[k].0 == v) {
            1nat
        } else {
            0nat
        },
    decreases s.len(),
{
    if k == s.len() - 1 {
        assert(s.remove(k) =~= s.drop_last());
    } else {
        lemma_pairs_count_remove(s.drop_last(), k, v, strict);
        assert(s.remove(k).drop_last() =~= s.drop_last().remove(k));
        assert(s.remove(k).last() == s.last());
    }
}

proof fn lemma_pairs_count_permutation(
    a: Seq<(i64, usize)>,
    b: Seq<(i64, usize)>,
    v: i64,
    strict: bool,
)
    requires
        a.to_multiset() == b.to_multiset(),
    ensures
        pairs_count(a, v, strict) == pairs_count(b, v, strict),
    decreases a.len(),
{
    broadcast use vstd::seq_lib::group_to_multiset_ensures;

    assert(a.len() == a.to_multiset().len());
    assert(b.len() == b.to_multiset().len());
    if a.len() > 0 {
        let x = a.last();
        assert(a.contains(x));
        assert(b.to_multiset().count(x) > 0);
        assert(b.contains(x));
        let k = choose|k: int| 0 <= k < b.len() && b[k] == x;
        assert(a.drop_last() =~= a.remove(a.len() - 1));
        assert(a.drop_last().to_multiset() =~= b.remove(k).to_multiset());
        lemma_pairs_count_permutation(a.drop_last(), b.remove(k), v, strict);
        lemma_pairs_count_remove(b, k, v, strict);
    }
}

proof fn lemma_pairs_count_less_sorted(s: Seq<(i64, usize)>, v: i64, lo: int, n: int)
    requires
        0 <= lo <= s.len(),
        0 <= n <= s.len(),
        forall|k: int| 0 <= k < lo ==> (#[trigger] s[k]).0 < v,
        forall|k: int| lo <= k < s.len() ==> (#[trigger] s[k]).0 >= v,
    ensures
        pairs_count(s.take(n), v, true) == if n <= lo {
            n
        } else {
            lo
        },
    decreases n,
{
    if n > 0 {
        lemma_pairs_count_less_sorted(s, v, lo, n - 1);
        assert(s.take(n).drop_last() =~= s.take(n - 1));
        assert(s.take(n).last() == s[n - 1]);
    }
}

proof fn lemma_pairs_count_equal_sorted(s: Seq<(i64, usize)>, v: i64, lo: int, hi: int, n: int)
    requires
        0 <= lo <= hi <= s.len(),
        0 <= n <= s.len(),
        forall|k: int| 0 <= k < lo ==> (#[trigger] s[k]).0 != v,
        forall|k: int| lo <= k < hi ==> (#[trigger] s[k]).0 == v,
        forall|k: int| hi <= k < s.len() ==> (#[trigger] s[k]).0 != v,
    ensures
        pairs_count(s.take(n), v, false) == if n <= lo {
            0
        } else if n <= hi {
            n - lo
        } else {
            hi - lo
        },
    decreases n,
{
    if n > 0 {
        lemma_pairs_count_equal_sorted(s, v, lo, hi, n - 1);
        assert(s.take(n).drop_last() =~= s.take(n - 1));
        assert(s.take(n).last() == s[n - 1]);
    }
}

/// In a sorted rearrangement of the indexed sample, a run of equal keys that
/// occupies the places `lo..hi` tells how many keys of the sample lie below
/// the run's key and how many equal it.
proof fn lemma_run_counts(data: Seq<i64>, sorted: Seq<(i64, usize)>, lo: int, hi: int)
    requires
        data.len() <= usize::MAX,
        sorted.to_multiset() == indexed(data).to_multiset(),
        forall|i: int, j: int| 0 <= i <= j < sorted.len() ==> pair_le(sorted[i], sorted[j]),
        0 <= lo < hi <= sorted.len(),
        forall|k: int| lo <= k < hi ==> (#[trigger] sorted[k]).0 == sorted[lo].0,
        lo > 0 ==> sorted[lo - 1].0 != sorted[lo].0,
        hi < sorted.len() ==> sorted[hi].0 != sorted[lo].0,
    ensures
        count_less(data, sorted[lo].0) == lo,
        count_equal(data, sorted[lo].0) == hi - lo,
{
    let v = sorted[lo].0;
    assert forall|k: int| 0 <= k < lo implies (#[trigger] sorted[k]).0 < v by {
        assert(pair_le(sorted[k], sorted[lo - 1]));
        assert(pair_le(sorted[lo - 1], sorted[lo]));
    }
    assert forall|k: int| hi <= k < sorted.len() implies (#[trigger] sorted[k]).0 > v by {
        assert(pair_le(sorted[lo], sorted[hi]));
        assert(pair_le(sorted[hi], sorted[k]));
    }
    assert forall|k: int| lo <= k < sorted.len() implies (#[trigger] sorted[k]).0 >= v by {}
    lemma_pairs_count_less_sorted(sorted, v, lo, sorted.len() as int);
    lemma_pairs_count_equal_sorted(sorted, v, lo, hi, sorted.len() as int);
    assert(sorted.take(sorted.len() as int) =~= sorted);
    lemma_pairs_count_permutation(sorted, indexed(data), v, true);
    lemma_pairs_count_permutation(sorted, indexed(data), v, false);
    lemma_pairs_count_indexed(data, v);
}

/// Every pair of a rearrangement of the indexed sample is an observation
/// with its own index.
proof fn lemma_sorted_pairs_are_observations(data: Seq<i64>, sorted: Seq<(i64, usize)>, k: int)
    requires
        data.len() <= usize::MAX,
        sorted.to_multiset() == indexed(data).to_multiset(),
        0 <= k < sorted.len(),
    ensures
        sorted[k].1 < data.len(),
        sorted[k].0 == data[sorted[k].1 as int],
{
    broadcast use vstd::seq_lib::group_to_multiset_ensures;

    assert(sorted.contains(sorted[k]));
    assert(indexed(data).to_multiset().count(sorted[k]) > 0);
    assert(indexed(data).contains(sorted[k]));
    let m = choose|m: int| 0 <= m < indexed(data).len() && indexed(data)[m] == sorted[k];
    assert(indexed(data)[m] == (data[m], m as usize));
}

/// Every observation occurs in a rearrangement of the indexed sample.
proof fn lemma_observation_is_sorted_pair(data: Seq<i64>, sorted: Seq<(i64, usize)>, m: int) -> (k:
    int)
    requires
        data.len() <= usize::MAX,
        sorted.to_multiset() == indexed(data).to_multiset(),
        0 <= m < data.len(),
    ensures
        0 <= k < sorted.len(),
        sorted[k] == (data[m], m as usize),
{
    broadcast use vstd::seq_lib::group_to_multiset_ensures;

    assert(indexed(data)[m] == (data[m], m as usize));
    assert(indexed(data).contains((data[m], m as usize)));
    assert(sorted.to_multiset().count((data[m], m as usize)) > 0);
    assert(sorted.contains((data[m], m as usize)));
    choose|k: int| 0 <= k < sorted.len() && sorted[k] == (data[m], m as usize)
}

/// Sorts (key, index) pairs with `sort` of std's slices, which orders tuples
/// lexicographically: the result is a rearrangement of the input in
/// non-decreasing order of key, equal keys in order of index. The body is
/// std's and is not verified; the contract is taken on trust.
#[verifier::external_body]
fn sort_pairs(pairs: &mut Vec<(i64, usize)>)
    ensures
        final(pairs)@.len() == old(pairs)@.len(),
        final(pairs)@.to_multiset() == old(pairs)@.to_multiset(),
        forall|i: int, j: int|
            0 <= i <= j < final(pairs)@.len() ==> pair_le(final(pairs)@[i], final(pairs)@[j]),
{
    pairs.sort();
}

/// Pairs every key with its index and sorts the pairs.
fn sorted_with_index(data: &[i64]) -> (sorted: Vec<(i64, usize)>)
    ensures
        sorted@.len() == data.len(),
        sorted@.to_multiset() == indexed(data@).to_multiset(),
        forall|i: int, j: int| 0 <= i <= j < sorted@.len() ==> pair_le(sorted@[i], sorted@[j]),
{
    let mut pairs: Vec<(i64, usize)> = Vec::with_capacity(data.len());
    let mut i: usize = 0;
    while i < data.len()
        invariant
            i <= data.len(),
            pairs@.len() == i,
            forall|k: int| 0 <= k < i ==> #[trigger] pairs@[k] == (data@[k], k as usize),
        decreases data.len() - i,
    {
        pairs.push((data[i], i));
        i = i + 1;
    }
    assert(pairs@ =~= indexed(data@));
    sort_pairs(&mut pairs);
    pairs
}

/// Calculates the ranks of the observations, averaging ties.
///
/// `result[i]` is twice the 1-based rank of observation `i`: a whole rank `r`
/// comes out as `2r`, and a rank of `r + 1/2`, which a tied block of even
/// length has, as `2r + 1`. An empty sample has no ranks.
pub fn rank(data: &[i64]) -> (result: Vec<usize>)
    requires
        2 * data.len() < usize::MAX,
    ensures
        result.len() == data.len(),
        forall|i: int| 0 <= i < data.len() ==> #[trigger] result[i] == doubled_rank(data@, i),
{
    let len = data.len();
    let sorted = sorted_with_index(data);
    let mut ranks: Vec<usize> = Vec::with_capacity(len);
    let mut f: usize = 0;
    while f < len
        invariant
            f <= len,
            ranks.len() == f,
        decreases len - f,
    {
        ranks.push(0);
        f = f + 1;
    }
    let mut i: usize = 0;
    while i < len
        invariant
            len == data.len(),
            2 * len < usize::MAX,
            sorted@.len() == len,
            ranks.len() == len,
            sorted@.to_multiset() == indexed(data@).to_multiset(),
            forall|a: int, b: int| 0 <= a <= b < sorted@.len() ==> pair_le(sorted@[a], sorted@[b]),
            i <= len,
            0 < i < len ==> sorted@[i - 1].0 != sorted@[i as int].0,
            forall|k: int|
                0 <= k < i ==> (#[trigger] sorted@[k]).1 < len && ranks[sorted@[k].1 as int]
                    == doubled_rank(data@, sorted@[k].1 as int),
        decreases len - i,
    {
        let value = sorted[i].0;
        let mut j: usize = i + 1;
        while j < len && sorted[j].0 == value
            invariant
                sorted@.len() == len,
                i < j <= len,
                value == sorted@[i as int].0,
                forall|k: int| i <= k < j ==> (#[trigger] sorted@[k]).0 == value,
            decreases len - j,
        {
            j = j + 1;
        }
        let doubled = i + j + 1;
        proof {
            lemma_run_counts(data@, sorted@, i as int, j as int);
        }
        let mut k: usize = i;
        while k < j
            invariant
                len == data.len(),
                sorted@.len() == len,
                ranks.len() == len,
                sorted@.to_multiset() == indexed(data@).to_multiset(),
                i <= k <= j <= len,
                doubled == i + j + 1,
                count_less(data@, sorted@[i as int].0) == i,
                count_equal(data@, sorted@[i as int].0) == j - i,
                forall|m: int| i <= m < j ==> (#[trigger] sorted@[m]).0 == sorted@[i as int].0,
                forall|m: int|
                    0 <= m < k ==> (#[trigger] sorted@[m]).1 < len && ranks[sorted@[m].1 as int]
                        == doubled_rank(data@, sorted@[m].1 as int),
            decreases j - k,
        {
            let target = sorted[k].1;
            proof {
                lemma_sorted_pairs_are_observations(data@, sorted@, k as int);
                assert forall|m: int| 0 <= m < k implies data@[sorted@[m].1 as int]
                    == sorted@[m].0 by {
                    lemma_sorted_pairs_are_observations(data@, sorted@, m);
                }
            }
            ranks[target] = doubled;
            proof {
                assert(doubled_rank(data@, target as int) == doubled);
                assert forall|m: int| 0 <= m < k + 1 implies (#[trigger] sorted@[m]).1 < len
                    && ranks[sorted@[m].1 as int] == doubled_rank(data@, sorted@[m].1 as int) by {
                    lemma_sorted_pairs_are_observations(data@, sorted@, m);
                }
            }
            k = k + 1;
        }
        i = j;
    }
    proof {
        assert forall|m: int| 0 <= m < data.len() implies #[trigger] ranks[m] == doubled_rank(
            data@,
            m,
        ) by {
            let k = lemma_observation_is_sorted_pair(data@, sorted@, m);
            assert(sorted@[k].1 == m);
        }
    }
    ranks
}

/// Whether `places` holds the place `m`.
pub open spec fn lists(places: Seq<usize>, m: int) -> bool {
    exists|k: int| 0 <= k < places.len() && #[trigger] places[k] == m
}

/// `places` lists every place of the sample once, in non-decreasing order of
/// key and, among equal keys, in order of place: the order that a stable sort
/// of the observations gives.
pub open spec fn sorts(data: Seq<i64>, places: Seq<usize>) -> bool {
    &&& places.len() == data.len()
    &&& forall|k: int| 0 <= k < places.len() ==> (#[trigger] places[k]) < data.len()
    &&& forall|a: int, b: int| 0 <= a < b < places.len() ==> places[a] != places[b]
    &&& forall|m: int| 0 <= m < data.len() ==> #[trigger] lists(places, m)
    &&& forall|a: int, b: int|
        0 <= a <= b < places.len() ==> pair_le(
            (data[places[a] as int], places[a]),
            (data[places[b] as int], places[b]),
        )
}

proof fn lemma_sorts_agree(data: Seq<i64>, p: Seq<usize>, q: Seq<usize>, k: int)
    requires
        sorts(data, p),
        sorts(data, q),
        0 <= k <= data.len(),
    ensures
        forall|j: int| 0 <= j < k ==> p[j] == q[j],
    decreases k,
{
    if k > 0 {
        lemma_sorts_agree(data, p, q, k - 1);
        let m = p[k - 1];
        let n = q[k - 1];
        assert(lists(q, m as int));
        let jq = choose|j: int| 0 <= j < q.len() && q[j] == m;
        assert(lists(p, n as int));
        let jp = choose|j: int| 0 <= j < p.len() && p[j] == n;
        if jq < k - 1 {
            assert(p[jq] == q[jq]);
            assert(p[jq] != p[k - 1]);
        }
        if jp < k - 1 {
            assert(q[jp] == p[jp]);
            assert(q[jp] != q[k - 1]);
        }
        assert(pair_le((data[q[k - 1] as int], q[k - 1]), (data[q[jq] as int], q[jq])));
        assert(pair_le((data[p[k - 1] as int], p[k - 1]), (data[p[jp] as int], p[jp])));
    }
}

/// A sample has one sorted order: two arrangements that both sort it are
/// the same.
pub proof fn lemma_sorts_is_unique(data: Seq<i64>, p: Seq<usize>, q: Seq<usize>)
    requires
        sorts(data, p),
        sorts(data, q),
    ensures
        p == q,
{
    lemma_sorts_agree(data, p, q, data.len() as int);
    assert(p =~= q);
}

/// The places of the observations in sorted order: `places[k]` is where the
/// observation with the `k`-th smallest key stands in the sample. Tied
/// observations keep the order in which they stand.
pub fn sorted_places(data: &[i64]) -> (places: Vec<usize>)
    ensures
        sorts(data@, places@),
{
    let len = data.len();
    let sorted = sorted_with_index(data);
    let mut places: Vec<usize> = Vec::with_capacity(len);
    let mut k: usize = 0;
    while k < len
        invariant
            len == data.len(),
            sorted@.len() == len,
            k <= len,
            places.len() == k,
            forall|j: int| 0 <= j < k ==> #[trigger] places[j] == sorted@[j].1,
        decreases len - k,
    {
        places.push(sorted[k].1);
        k = k + 1;
    }
    proof {
        let all = indexed(data@);
        assert(all.no_duplicates());
        all.lemma_multiset_has_no_duplicates();
        sorted@.lemma_multiset_has_no_duplicates_conv();
        assert forall|j: int| 0 <= j < len implies (#[trigger] places[j]) < len && data@[places[j] as int]
            == sorted@[j].0 by {
            lemma_sorted_pairs_are_observations(data@, sorted@, j);
        }
        assert forall|a: int, b: int| 0 <= a < b < len implies places[a] != places[b] by {
            lemma_sorted_pairs_are_observations(data@, sorted@, a);
            lemma_sorted_pairs_are_observations(data@, sorted@, b);
            if places[a] == places[b] {
                assert(sorted@[a] == sorted@[b]);
            }
        }
        assert forall|m: int| 0 <= m < len implies #[trigger] lists(places@, m) by {
            let j = lemma_observation_is_sorted_pair(data@, sorted@, m);
            assert(places[j] == m);
        }
        assert forall|a: int, b: int| 0 <= a <= b < len implies pair_le(
            (data@[places[a] as int], places[a]),
            (data@[places[b] as int], places[b]),
        ) by {
            lemma_sorted_pairs_are_observations(data@, sorted@, a);
            lemma_sorted_pairs_are_observations(data@, sorted@, b);
            assert(pair_le(sorted@[a], sorted@[b]));
        }
    }
    places
}

/// What `mode` returns for a sample: no place where no key occurs twice, and
/// else the place of the first observation whose key occurs most often; among
/// keys that occur equally often the smallest wins.
pub open spec fn is_mode(data: Seq<i64>, found: Option<usize>) -> bool {
    match found {
        None => forall|i: int| 0 <= i < data.len() ==> count_equal(data, #[trigger] data[i]) <= 1,
        Some(m) => {
            &&& m < data.len()
            &&& count_equal(data, data[m as int]) >= 2
            &&& forall|i: int|
                0 <= i < data.len() ==> count_equal(data, #[trigger] data[i]) <= count_equal(
                    data,
                    data[m as int],
                )
            &&& forall|i: int|
                0 <= i < data.len() && #[trigger] data[i] < data[m as int] ==> count_equal(
                    data,
                    data[i],
                ) < count_equal(data, data[m as int])
            &&& forall|i: int| 0 <= i < m ==> #[trigger] data[i] != data[m as int]
        },
    }
}

/// Finds the mode of a sample: the key that occurs most often, where some
/// key occurs at least twice. The result is the place of its first
/// occurrence, so that the observation itself can be found again.
pub fn mode(data: &[i64]) -> (found: Option<usize>)
    ensures
        is_mode(data@, found),
{
    let len = data.len();
    if len == 0 {
        return None;
    }
    let sorted = sorted_with_index(data);
    let mut best_at: usize = 0;
    let mut best_count: usize = 0;
    let mut i: usize = 0;
    while i < len
        invariant
            len == data.len(),
            len > 0,
            sorted@.len() == len,
            sorted@.to_multiset() == indexed(data@).to_multiset(),
            forall|a: int, b: int| 0 <= a <= b < sorted@.len() ==> pair_le(sorted@[a], sorted@[b]),
            i <= len,
            0 < i < len ==> sorted@[i - 1].0 != sorted@[i as int].0,
            best_at <= i,
            best_at < len,
            i == 0 ==> best_count == 0,
            i > 0 ==> best_at < i && best_count >= 1 && count_equal(data@, sorted@[best_at as int].0)
                == best_count,
            i > 0 ==> forall|p: int|
                0 <= p < sorted@.len() && (#[trigger] sorted@[p]).0 == sorted@[best_at as int].0
                    ==> best_at <= p,
            forall|p: int|
                0 <= p < i ==> count_equal(data@, (#[trigger] sorted@[p]).0) <= best_count,
            forall|p: int|
                0 <= p < i && (#[trigger] sorted@[p]).0 < sorted@[best_at as int].0 ==> count_equal(
                    data@,
                    sorted@[p].0,
                ) < best_count,
        decreases len - i,
    {
        let value = sorted[i].0;
        let mut j: usize = i + 1;
        while j < len && sorted[j].0 == value
            invariant
                sorted@.len() == len,
                i < j <= len,
                value == sorted@[i as int].0,
                forall|k: int| i <= k < j ==> (#[trigger] sorted@[k]).0 == value,
            decreases len - j,
        {
            j = j + 1;
        }
        proof {
            lemma_run_counts(data@, sorted@, i as int, j as int);
            assert forall|p: int| 0 <= p < i implies (#[trigger] sorted@[p]).0 < value by {
                assert(pair_le(sorted@[p], sorted@[i - 1]));
                assert(pair_le(sorted@[i - 1], sorted@[i as int]));
            }
            assert forall|p: int| j <= p < len implies (#[trigger] sorted@[p]).0 > value by {
                assert(pair_le(sorted@[i as int], sorted@[j as int]));
                assert(pair_le(sorted@[j as int], sorted@[p]));
            }
        }
        let count = j - i;
        if count > best_count {
            best_count = count;
            best_at = i;
        }
        i = j;
    }
    if best_count < 2 {
        proof {
            assert forall|m: int| 0 <= m < data.len() implies count_equal(
                data@,
                #[trigger] data@[m],
            ) <= 1 by {
                let p = lemma_observation_is_sorted_pair(data@, sorted@, m);
                assert(sorted@[p].0 == data@[m]);
            }
        }
        return None;
    }
    let place = sorted[best_at].1;
    proof {
        lemma_sorted_pairs_are_observations(data@, sorted@, best_at as int);
        let key = sorted@[best_at as int].0;
        assert forall|m: int| 0 <= m < data.len() implies count_equal(data@, #[trigger] data@[m])
            <= count_equal(data@, key) by {
            let p = lemma_observation_is_sorted_pair(data@, sorted@, m);
            assert(sorted@[p].0 == data@[m]);
        }
        assert forall|m: int| 0 <= m < data.len() && #[trigger] data@[m] < key implies count_equal(
            data@,
            data@[m],
        ) < count_equal(data@, key) by {
            let p = lemma_observation_is_sorted_pair(data@, sorted@, m);
            assert(sorted@[p].0 == data@[m]);
        }
        assert forall|m: int| 0 <= m < place implies #[trigger] data@[m] != key by {
            let p = lemma_observation_is_sorted_pair(data@, sorted@, m);
            if data@[m] == key {
                assert(sorted@[p].0 == sorted@[best_at as int].0);
                assert(best_at <= p);
                assert(pair_le(sorted@[best_at as int], sorted@[p]));
            }
        }
    }
    Some(place)
}

} // verus!
