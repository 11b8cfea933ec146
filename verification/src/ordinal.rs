//! Fractional ranks over order keys.
//!
//! A key is an integer that orders the observations the way the statistics
//! compare them: equal keys are ties, and a smaller key comes first. Ranks are
//! reported doubled, so that the average rank of a tie group (a half-integer
//! when the group has even size) stays an integer.

use vstd::prelude::*;
use crate::pairwise::{doubled_mann_whitney_u, lemma_mann_whitney_swap, lemma_rank_sum_counts_dominance, EmptyGroup};
use crate::counting::{count_where, lemma_count_stretch, lemma_sum_matching, lemma_sum_permutation, indicator, sum_of};

verus! {

/// Keys strictly below `v`.
pub open spec fn key_below(v: u64) -> spec_fn(u64) -> bool {
    |x: u64| x < v
}

/// Keys equal to `v`.
pub open spec fn key_equal(v: u64) -> spec_fn(u64) -> bool {
    |x: u64| x == v
}

/// How many keys lie strictly below `v`.
pub open spec fn count_below(keys: Seq<u64>, v: u64) -> int {
    count_where(keys, key_below(v))
}

/// How many keys equal `v`.
pub open spec fn count_equal(keys: Seq<u64>, v: u64) -> int {
    count_where(keys, key_equal(v))
}

/// Twice the fractional rank of `v` among `keys`: a tie group occupying the
/// 1-based ranks `b + 1 ..= b + e` (with `b` keys below it and `e` keys in
/// it) gets their average `b + (e + 1) / 2`, doubled.
pub open spec fn doubled_rank(keys: Seq<u64>, v: u64) -> int {
    2 * count_below(keys, v) + count_equal(keys, v) + 1
}

/// `(key, position)` pairs ordered by key.
pub open spec fn sorted_by_key(p: Seq<(u64, usize)>) -> bool {
    forall|a: int, b: int| 0 <= a <= b < p.len() ==> (#[trigger] p[a]).0 <= (#[trigger] p[b]).0
}

/// `a` comes no later than `b` in the order of tuples: by key, then by
/// position.
pub open spec fn pair_le(a: (u64, usize), b: (u64, usize)) -> bool {
    a.0 < b.0 || (a.0 == b.0 && a.1 <= b.1)
}

/// `<[(u64, usize)]>::sort_unstable`: orders the pairs ascending in the
/// lexicographic order of tuples (by key, then by position) and keeps every
/// pair, each as often as before.
#[verifier::external_body]
fn sort_pairs(v: &mut Vec<(u64, usize)>)
    ensures
        final(v)@.to_multiset() == old(v)@.to_multiset(),
        forall|a: int, b: int| 0 <= a <= b < final(v).len() ==> pair_le(#[trigger] final(v)@[a], #[trigger] final(v)@[b]),
{
    v.sort_unstable()
}

/// Each key paired with its position.
pub open spec fn keyed_positions(keys: Seq<u64>) -> Seq<(u64, usize)> {
    Seq::new(keys.len(), |k: int| (keys[k], k as usize))
}

/// The first component of a pair passes `pred`.
pub open spec fn on_key(pred: spec_fn(u64) -> bool) -> spec_fn((u64, usize)) -> bool {
    |q: (u64, usize)| pred(q.0)
}

/// A count over the keys equals the same count over any rearrangement of
/// their `(key, position)` pairs.
proof fn lemma_count_over_pairs(keys: Seq<u64>, p: Seq<(u64, usize)>, pred: spec_fn(u64) -> bool)
    requires
        p.to_multiset() == keyed_positions(keys).to_multiset(),
    ensures
        count_where(keys, pred) == count_where(p, on_key(pred)),
{
    let orig = keyed_positions(keys);
    assert forall|k: int| 0 <= k < keys.len() implies #[trigger] indicator(pred)(keys[k]) == indicator(
        on_key(pred),
    )(orig[k]) by {
        assert(orig[k].0 == keys[k]);
    }
    lemma_sum_matching(keys, orig, indicator(pred), indicator(on_key(pred)));
    lemma_sum_permutation(orig, p, indicator(on_key(pred)));
}

/// Position `k` appears in the rearranged pairs.
pub open spec fn holds_position(p: Seq<(u64, usize)>, k: int) -> bool {
    exists|t: int| 0 <= t < p.len() && (#[trigger] p[t]).1 == k
}

/// What a sorted rearrangement of the keyed positions holds at each place.
proof fn lemma_rearranged_pairs(keys: Seq<u64>, p: Seq<(u64, usize)>)
    requires
        keys.len() <= usize::MAX,
        p.to_multiset() == keyed_positions(keys).to_multiset(),
    ensures
        p.len() == keys.len(),
        forall|t: int| 0 <= t < p.len() ==> (#[trigger] p[t]).1 < keys.len() && p[t].0 == keys[p[t].1 as int],
        forall|k: int| 0 <= k < keys.len() ==> #[trigger] holds_position(p, k),
{
    broadcast use vstd::seq_lib::group_to_multiset_ensures;

    let orig = keyed_positions(keys);
    vstd::seq_lib::to_multiset_len(p);
    vstd::seq_lib::to_multiset_len(orig);
    assert(p.len() == orig.len());
    assert forall|t: int| 0 <= t < p.len() implies (#[trigger] p[t]).1 < keys.len() && p[t].0 == keys[p[t].1 as int] by {
        assert(p.contains(p[t]));
        assert(p.to_multiset().count(p[t]) > 0);
        assert(orig.to_multiset().count(p[t]) > 0);
        assert(orig.contains(p[t]));
        let m = choose|m: int| 0 <= m < orig.len() && orig[m] == p[t];
        assert(orig[m] == (keys[m], m as usize));
    }
    assert forall|k: int| 0 <= k < keys.len() implies #[trigger] holds_position(p, k) by {
        assert(orig.contains(orig[k]));
        assert(orig.to_multiset().count(orig[k]) > 0);
        assert(p.to_multiset().count(orig[k]) > 0);
        assert(p.contains(orig[k]));
        let t = choose|t: int| 0 <= t < p.len() && p[t] == orig[k];
        assert(p[t].1 == k);
    }
}

/// Within a key-sorted rearrangement, the tie group `lo..hi` of key `v` sits
/// above exactly `lo` keys and holds exactly `hi - lo`.
proof fn lemma_tie_group_counts(keys: Seq<u64>, p: Seq<(u64, usize)>, lo: int, hi: int)
    requires
        p.to_multiset() == keyed_positions(keys).to_multiset(),
        p.len() == keys.len(),
        sorted_by_key(p),
        0 <= lo < hi <= p.len(),
        lo == 0 || p[lo - 1].0 < p[lo].0,
        hi == p.len() || p[hi].0 != p[lo].0,
        forall|t: int| lo <= t < hi ==> (#[trigger] p[t]).0 == p[lo].0,
    ensures
        count_below(keys, p[lo].0) == lo,
        count_equal(keys, p[lo].0) == hi - lo,
{
    let v = p[lo].0;
    lemma_count_over_pairs(keys, p, key_below(v));
    lemma_count_over_pairs(keys, p, key_equal(v));
    assert forall|t: int| 0 <= t < p.len() implies (#[trigger] on_key(key_below(v))(p[t]) <==> 0 <= t < lo) by {
        if t < lo {
            assert(p[t].0 <= p[lo - 1].0);
        } else {
            assert(p[lo].0 <= p[t].0);
        }
    }
    lemma_count_stretch(p, on_key(key_below(v)), 0, lo);
    assert forall|t: int| 0 <= t < p.len() implies (#[trigger] on_key(key_equal(v))(p[t]) <==> lo <= t < hi) by {
        if t < lo {
            assert(p[t].0 <= p[lo - 1].0);
        } else if t >= hi {
            assert(p[lo].0 <= p[hi].0);
            assert(p[hi].0 <= p[t].0);
        }
    }
    lemma_count_stretch(p, on_key(key_equal(v)), lo, hi);
}

/// Sorts the keys once and walks the tie groups: for every key, twice its
/// fractional rank and the size of its tie group.
fn rank_groups(keys: &Vec<u64>) -> (r: (Vec<usize>, Vec<usize>))
    requires
        keys.len() < usize::MAX / 2,
    ensures
        r.0.len() == keys.len(),
        r.1.len() == keys.len(),
        forall|k: int| 0 <= k < keys.len() ==> #[trigger] r.0[k] == doubled_rank(keys@, keys[k]),
        forall|k: int| 0 <= k < keys.len() ==> #[trigger] r.1[k] == count_equal(keys@, keys[k]),
{
    let n = keys.len();
    let mut p: Vec<(u64, usize)> = Vec::with_capacity(n);
    let mut k: usize = 0;
    while k < n
        invariant
            n == keys.len(),
            k <= n,
            p.len() == k,
            forall|t: int| 0 <= t < k ==> #[trigger] p[t] == keyed_positions(keys@)[t],
        decreases n - k,
    {
        p.push((keys[k], k));
        k = k + 1;
    }
    assert(p@ =~= keyed_positions(keys@));
    sort_pairs(&mut p);
    proof {
        lemma_rearranged_pairs(keys@, p@);
        assert forall|a: int, b: int| 0 <= a <= b < p.len() implies (#[trigger] p@[a]).0 <= (#[trigger] p@[b]).0 by {
            assert(pair_le(p@[a], p@[b]));
        }
    }

    let mut ranks: Vec<usize> = vec![0usize; n];
    let mut sizes: Vec<usize> = vec![0usize; n];
    let mut i: usize = 0;
    while i < n
        invariant
            n == keys.len(),
            n < usize::MAX / 2,
            ranks.len() == n,
            sizes.len() == n,
            p.len() == n,
            i <= n,
            p@.to_multiset() == keyed_positions(keys@).to_multiset(),
            sorted_by_key(p@),
            forall|t: int| 0 <= t < n ==> (#[trigger] p[t]).1 < n && p[t].0 == keys[p[t].1 as int],
            0 < i < n ==> p[i - 1].0 < p[i as int].0,
            forall|k: int| 0 <= k < n ==> #[trigger] holds_position(p@, k),
            forall|t: int| 0 <= t < i ==> ranks[(#[trigger] p[t]).1 as int] == doubled_rank(keys@, p[t].0),
            forall|t: int| 0 <= t < i ==> sizes[(#[trigger] p[t]).1 as int] == count_equal(keys@, p[t].0),
        decreases n - i,
    {
        let v = p[i].0;
        let mut j: usize = i + 1;
        while j < n && p[j].0 == v
            invariant
                n == p.len(),
                i < j <= n,
                v == p[i as int].0,
                forall|t: int| i <= t < j ==> (#[trigger] p[t]).0 == v,
            decreases n - j,
        {
            j = j + 1;
        }
        proof {
            lemma_tie_group_counts(keys@, p@, i as int, j as int);
        }
        let avg = i + 1 + j;
        let size = j - i;
        let mut t: usize = i;
        while t < j
            invariant
                n == keys.len(),
                ranks.len() == n,
                sizes.len() == n,
                p.len() == n,
                i <= t <= j <= n,
                avg == doubled_rank(keys@, v),
                size == count_equal(keys@, v),
                forall|s: int| i <= s < j ==> (#[trigger] p[s]).0 == v,
                forall|s: int| 0 <= s < n ==> (#[trigger] p[s]).1 < n && p[s].0 == keys[p[s].1 as int],
                forall|s: int| 0 <= s < t ==> ranks[(#[trigger] p[s]).1 as int] == doubled_rank(keys@, p[s].0),
                forall|s: int| 0 <= s < t ==> sizes[(#[trigger] p[s]).1 as int] == count_equal(keys@, p[s].0),
            decreases j - t,
        {
            let pos = p[t].1;
            ranks.set(pos, avg);
            sizes.set(pos, size);
            proof {
                assert forall|s: int| 0 <= s < t + 1 implies ranks[(#[trigger] p[s]).1 as int] == doubled_rank(keys@, p[s].0)
                    && sizes[p[s].1 as int] == count_equal(keys@, p[s].0) by {
                    if p[s].1 == pos {
                        assert(p[s].0 == keys[pos as int]);
                        assert(p[t as int].0 == keys[pos as int]);
                    }
                }
            }
            t = t + 1;
        }
        i = j;
    }
    proof {
        assert forall|k: int| 0 <= k < n implies #[trigger] ranks[k] == doubled_rank(keys@, keys[k]) by {
            assert(holds_position(p@, k));
            let t = choose|t: int| 0 <= t < n && (#[trigger] p[t]).1 == k;
        }
        assert forall|k: int| 0 <= k < n implies #[trigger] sizes[k] == count_equal(keys@, keys[k]) by {
            assert(holds_position(p@, k));
            let t = choose|t: int| 0 <= t < n && (#[trigger] p[t]).1 == k;
        }
    }
    (ranks, sizes)
}

/// The keyed positions hold no pair twice, and neither does any
/// rearrangement of them.
proof fn lemma_rearranged_pairs_distinct(keys: Seq<u64>, p: Seq<(u64, usize)>)
    requires
        keys.len() <= usize::MAX,
        p.to_multiset() == keyed_positions(keys).to_multiset(),
    ensures
        p.no_duplicates(),
{
    let orig = keyed_positions(keys);
    assert(orig.no_duplicates());
    orig.lemma_multiset_has_no_duplicates();
    p.lemma_multiset_has_no_duplicates_conv();
}

/// The positions of the keys in ascending order of key, ties in ascending
/// order of position: the order a stable sort by key puts them in.
pub open spec fn is_ascending_order(keys: Seq<u64>, order: Seq<usize>) -> bool {
    &&& order.len() == keys.len()
    &&& forall|a: int| 0 <= a < order.len() ==> #[trigger] order[a] < keys.len()
    &&& forall|a: int, b: int|
        0 <= a < b < order.len() ==> {
            ||| keys[(#[trigger] order[a]) as int] < keys[(#[trigger] order[b]) as int]
            ||| (keys[order[a] as int] == keys[order[b] as int] && order[a] < order[b])
        }
}

/// Ranks the positions by key: the positions in ascending order of key, ties
/// in ascending order of position. Every position appears exactly once.
pub fn ascending_order(keys: &Vec<u64>) -> (r: Vec<usize>)
    ensures
        is_ascending_order(keys@, r@),
        r@.no_duplicates(),
        forall|k: int| 0 <= k < keys.len() ==> #[trigger] r@.contains(k as usize),
{
    let n = keys.len();
    let mut p: Vec<(u64, usize)> = Vec::with_capacity(n);
    let mut k: usize = 0;
    while k < n
        invariant
            n == keys.len(),
            k <= n,
            p.len() == k,
            forall|t: int| 0 <= t < k ==> #[trigger] p[t] == keyed_positions(keys@)[t],
        decreases n - k,
    {
        p.push((keys[k], k));
        k = k + 1;
    }
    assert(p@ =~= keyed_positions(keys@));
    sort_pairs(&mut p);
    proof {
        lemma_rearranged_pairs(keys@, p@);
        lemma_rearranged_pairs_distinct(keys@, p@);
    }
    let mut order: Vec<usize> = Vec::with_capacity(n);
    let mut t: usize = 0;
    while t < n
        invariant
            n == keys.len(),
            p.len() == n,
            t <= n,
            order.len() == t,
            forall|s: int| 0 <= s < t ==> #[trigger] order[s] == p[s].1,
        decreases n - t,
    {
        order.push(p[t].1);
        t = t + 1;
    }
    proof {
        assert forall|a: int, b: int| 0 <= a < b < order.len() implies {
            ||| keys[(#[trigger] order[a]) as int] < keys[(#[trigger] order[b]) as int]
            ||| (keys[order[a] as int] == keys[order[b] as int] && order[a] < order[b])
        } by {
            assert(pair_le(p@[a], p@[b]));
            assert(p@[a] != p@[b]);
            assert(p[a].0 == keys[p[a].1 as int]);
            assert(p[b].0 == keys[p[b].1 as int]);
        }
        assert forall|a: int, b: int| 0 <= a < order.len() && 0 <= b < order.len() && a != b implies order@[a]
            != order@[b] by {
            if a < b {
                assert(pair_le(p@[a], p@[b]));
                assert(p@[a] != p@[b]);
            } else {
                assert(pair_le(p@[b], p@[a]));
                assert(p@[a] != p@[b]);
            }
        }
        assert forall|k: int| 0 <= k < keys.len() implies #[trigger] order@.contains(k as usize) by {
            assert(holds_position(p@, k));
            let t = choose|t: int| 0 <= t < p.len() && (#[trigger] p[t]).1 == k;
            assert(order@[t] == k as usize);
        }
    }
    order
}

/// The keys in ascending order. Any count over them is the same count over
/// the keys as given.
pub fn sorted_keys(keys: &Vec<u64>) -> (r: Vec<u64>)
    ensures
        r.len() == keys.len(),
        forall|a: int, b: int| 0 <= a <= b < r.len() ==> #[trigger] r[a] <= #[trigger] r[b],
        forall|pred: spec_fn(u64) -> bool| #[trigger] count_where(r@, pred) == count_where(keys@, pred),
{
    let n = keys.len();
    let mut p: Vec<(u64, usize)> = Vec::with_capacity(n);
    let mut k: usize = 0;
    while k < n
        invariant
            n == keys.len(),
            k <= n,
            p.len() == k,
            forall|t: int| 0 <= t < k ==> #[trigger] p[t] == keyed_positions(keys@)[t],
        decreases n - k,
    {
        p.push((keys[k], k));
        k = k + 1;
    }
    assert(p@ =~= keyed_positions(keys@));
    sort_pairs(&mut p);
    proof {
        lemma_rearranged_pairs(keys@, p@);
    }
    let mut out: Vec<u64> = Vec::with_capacity(n);
    let mut t: usize = 0;
    while t < n
        invariant
            n == keys.len(),
            p.len() == n,
            t <= n,
            out.len() == t,
            forall|s: int| 0 <= s < t ==> #[trigger] out[s] == p[s].0,
        decreases n - t,
    {
        out.push(p[t].0);
        t = t + 1;
    }
    proof {
        assert forall|a: int, b: int| 0 <= a <= b < out.len() implies #[trigger] out[a] <= #[trigger] out[b] by {
            assert(pair_le(p@[a], p@[b]));
        }
        assert forall|pred: spec_fn(u64) -> bool| #[trigger] count_where(out@, pred) == count_where(keys@, pred) by {
            lemma_count_over_pairs(keys@, p@, pred);
            assert forall|k: int| 0 <= k < out.len() implies #[trigger] indicator(pred)(out@[k]) == indicator(
                on_key(pred),
            )(p@[k]) by {}
            lemma_sum_matching(out@, p@, indicator(pred), indicator(on_key(pred)));
        }
    }
    out
}

/// Twice the fractional rank of every key, in the order of the keys: ties
/// share the average of the ranks they occupy.
pub fn doubled_ranks(keys: &Vec<u64>) -> (r: Vec<usize>)
    requires
        keys.len() < usize::MAX / 2,
    ensures
        r.len() == keys.len(),
        forall|k: int| 0 <= k < keys.len() ==> #[trigger] r[k] == doubled_rank(keys@, keys[k]),
{
    rank_groups(keys).0
}

/// The rank data of the Mann-Whitney U test over two groups ranked together.
#[derive(Debug, PartialEq, Eq)]
pub struct MannWhitneyRanks {
    /// Twice the sum of the first group's ranks within the pooled sample.
    pub doubled_rank_sum: u128,
    /// `2 * U1`, with `U1 = R1 - n1 (n1 + 1) / 2`: twice the pairs the first
    /// group wins, plus the ties.
    pub doubled_u1: u128,
    /// For every pooled observation (the first group, then the second), the
    /// size of its tie group.
    pub tie_sizes: Vec<usize>,
}

/// Ranks `xs` and `ys` together and sums the ranks of `xs`. The statistic is
/// `U1 = R1 - n1 (n1 + 1) / 2`; the tie sizes feed the tie correction
/// `sum over groups of (t^3 - t)`, which is `sum over observations of
/// (t^2 - 1)`. Refuses an empty group.
pub fn mann_whitney_ranks(xs: &Vec<u64>, ys: &Vec<u64>) -> (r: Result<MannWhitneyRanks, EmptyGroup>)
    requires
        xs.len() + ys.len() < usize::MAX / 2,
    ensures
        r is Err <==> xs.len() == 0 || ys.len() == 0,
        r matches Ok(m) ==> {
            &&& m.doubled_rank_sum == sum_of(xs@, |x: u64| doubled_rank(xs@ + ys@, x))
            &&& m.doubled_u1 == m.doubled_rank_sum - xs.len() * (xs.len() + 1)
            &&& m.doubled_u1 == doubled_mann_whitney_u(xs@, ys@)
            &&& m.tie_sizes.len() == xs.len() + ys.len()
            &&& forall|k: int| 0 <= k < xs.len() + ys.len() ==> #[trigger] m.tie_sizes[k] == count_equal(
                xs@ + ys@,
                (xs@ + ys@)[k],
            )
        },
{
    if xs.len() == 0 || ys.len() == 0 {
        return Err(EmptyGroup);
    }
    let n1 = xs.len();
    let mut pooled: Vec<u64> = Vec::with_capacity(n1 + ys.len());
    let mut k: usize = 0;
    while k < n1
        invariant
            n1 == xs.len(),
            k <= n1,
            pooled@ == xs@.take(k as int),
        decreases n1 - k,
    {
        pooled.push(xs[k]);
        k = k + 1;
        assert(pooled@ =~= xs@.take(k as int));
    }
    let mut k: usize = 0;
    while k < ys.len()
        invariant
            n1 == xs.len(),
            k <= ys.len(),
            pooled@ == xs@ + ys@.take(k as int),
        decreases ys.len() - k,
    {
        pooled.push(ys[k]);
        k = k + 1;
        assert(pooled@ =~= xs@ + ys@.take(k as int));
    }
    assert(xs@.take(n1 as int) =~= xs@);
    assert(ys@.take(ys.len() as int) =~= ys@);
    assert(pooled@ =~= xs@ + ys@);
    let (ranks, sizes) = rank_groups(&pooled);
    let ghost all = xs@ + ys@;
    let ghost f = |x: u64| doubled_rank(all, x);
    let mut sum: u128 = 0;
    let mut k: usize = 0;
    while k < n1
        invariant
            n1 == xs.len(),
            pooled@ == all,
            all == xs@ + ys@,
            f == (|x: u64| doubled_rank(all, x)),
            ranks.len() == pooled.len(),
            pooled.len() < usize::MAX / 2,
            forall|t: int| 0 <= t < pooled.len() ==> #[trigger] ranks[t] == doubled_rank(pooled@, pooled[t]),
            k <= n1,
            sum == sum_of(xs@.take(k as int), f),
            sum <= k * (usize::MAX as int),
        decreases n1 - k,
    {
        assert(xs@.take(k + 1).drop_last() =~= xs@.take(k as int));
        assert(pooled[k as int] == xs[k as int]);
        assert(k * (usize::MAX as int) + usize::MAX <= (usize::MAX as int) * (usize::MAX as int)) by (nonlinear_arith)
            requires
                k < usize::MAX,
        ;
        assert((k + 1) * (usize::MAX as int) == k * (usize::MAX as int) + usize::MAX) by (nonlinear_arith);
        assert((usize::MAX as int) * (usize::MAX as int) < u128::MAX) by (nonlinear_arith)
            requires
                usize::MAX <= u64::MAX,
        ;
        sum = sum + ranks[k] as u128;
        k = k + 1;
    }
    assert(xs@.take(n1 as int) =~= xs@);
    proof {
        lemma_rank_sum_counts_dominance(xs@, ys@);
        lemma_mann_whitney_swap(xs@, ys@);
        assert(n1 * (n1 + 1) <= u128::MAX) by (nonlinear_arith)
            requires
                n1 < usize::MAX,
                usize::MAX <= u64::MAX,
        ;
    }
    let own: u128 = (n1 as u128) * ((n1 as u128) + 1);
    let doubled_u1 = sum - own;
    Ok(MannWhitneyRanks { doubled_rank_sum: sum, doubled_u1, tie_sizes: sizes })
}

} // verus!
