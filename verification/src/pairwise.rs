//! Counts over pairs of observations, compared by their order keys: the
//! dominance counts behind Cliff's delta and the pair classes behind
//! Kendall's tau-b.

use vstd::prelude::*;
use crate::counting::{count_where, indicator, lemma_sum_add, lemma_sum_constant, lemma_sum_matching, sum_of};
use crate::ordinal::{count_below, count_equal, doubled_rank, key_below, key_equal};

verus! {

/// Keys strictly above `v`.
pub open spec fn key_above(v: u64) -> spec_fn(u64) -> bool {
    |x: u64| x > v
}

/// How many keys lie strictly above `v`.
pub open spec fn count_above(keys: Seq<u64>, v: u64) -> int {
    count_where(keys, key_above(v))
}

/// Pairs `(x, y)` from `xs` and `ys` with `x > y`.
pub open spec fn pairs_greater(xs: Seq<u64>, ys: Seq<u64>) -> int {
    sum_of(xs, |x: u64| count_below(ys, x))
}

/// Pairs `(x, y)` from `xs` and `ys` with `x < y`.
pub open spec fn pairs_less(xs: Seq<u64>, ys: Seq<u64>) -> int {
    sum_of(xs, |x: u64| count_above(ys, x))
}

/// Pairs `(x, y)` from `xs` and `ys` with `x == y`.
pub open spec fn pairs_tied(xs: Seq<u64>, ys: Seq<u64>) -> int {
    sum_of(xs, |x: u64| count_equal(ys, x))
}

/// Each key of `s` is below, equal to or above `v`, and exactly one of them.
pub proof fn lemma_three_way_split(s: Seq<u64>, v: u64)
    ensures
        count_below(s, v) + count_equal(s, v) + count_above(s, v) == s.len(),
        count_below(s, v) >= 0,
        count_equal(s, v) >= 0,
        count_above(s, v) >= 0,
    decreases s.len(),
{
    if s.len() > 0 {
        lemma_three_way_split(s.drop_last(), v);
    }
}

/// Appending a key `y` to `ys` adds the keys of `xs` above `y` to the count
/// of pairs with the `xs` side greater.
proof fn lemma_pairs_greater_push(xs: Seq<u64>, ys: Seq<u64>, y: u64)
    ensures
        pairs_greater(xs, ys.push(y)) == pairs_greater(xs, ys) + count_above(xs, y),
{
    let zs = ys.push(y);
    assert(zs.drop_last() =~= ys);
    let f = |x: u64| count_below(ys, x);
    let g = indicator(key_above(y));
    let h = |x: u64| count_below(zs, x);
    assert forall|x: u64| #[trigger] h(x) == f(x) + g(x) by {
        assert(zs.last() == y);
    }
    lemma_sum_add(xs, f, g, h);
}

/// Counting the pairs with the first side greater is counting, from the other
/// side, the pairs with the first side smaller.
pub proof fn lemma_pairs_greater_is_pairs_less_reversed(xs: Seq<u64>, ys: Seq<u64>)
    ensures
        pairs_greater(xs, ys) == pairs_less(ys, xs),
    decreases ys.len(),
{
    if ys.len() == 0 {
        lemma_sum_constant(xs, |x: u64| count_below(ys, x), 0);
    } else {
        let d = ys.drop_last();
        lemma_pairs_greater_is_pairs_less_reversed(xs, d);
        assert(d.push(ys.last()) =~= ys);
        lemma_pairs_greater_push(xs, d, ys.last());
    }
}

proof fn lemma_pairs_tied_push(xs: Seq<u64>, ys: Seq<u64>, y: u64)
    ensures
        pairs_tied(xs, ys.push(y)) == pairs_tied(xs, ys) + count_equal(xs, y),
{
    let zs = ys.push(y);
    assert(zs.drop_last() =~= ys);
    let f = |x: u64| count_equal(ys, x);
    let g = indicator(key_equal(y));
    let h = |x: u64| count_equal(zs, x);
    assert forall|x: u64| #[trigger] h(x) == f(x) + g(x) by {
        assert(zs.last() == y);
    }
    lemma_sum_add(xs, f, g, h);
}

/// Tied pairs are the same from either side.
pub proof fn lemma_pairs_tied_symmetric(xs: Seq<u64>, ys: Seq<u64>)
    ensures
        pairs_tied(xs, ys) == pairs_tied(ys, xs),
    decreases ys.len(),
{
    if ys.len() == 0 {
        lemma_sum_constant(xs, |x: u64| count_equal(ys, x), 0);
    } else {
        let d = ys.drop_last();
        lemma_pairs_tied_symmetric(xs, d);
        assert(d.push(ys.last()) =~= ys);
        lemma_pairs_tied_push(xs, d, ys.last());
    }
}

/// Every pair is greater, less or tied: the three counts add up to
/// `|xs| * |ys|`.
pub proof fn lemma_pairs_partition(xs: Seq<u64>, ys: Seq<u64>)
    ensures
        pairs_greater(xs, ys) + pairs_less(xs, ys) + pairs_tied(xs, ys) == xs.len() * ys.len(),
{
    let f = |x: u64| count_below(ys, x);
    let g = |x: u64| count_above(ys, x);
    let e = |x: u64| count_equal(ys, x);
    let fg = |x: u64| count_below(ys, x) + count_above(ys, x);
    let all = |x: u64| count_below(ys, x) + count_above(ys, x) + count_equal(ys, x);
    lemma_sum_add(xs, f, g, fg);
    lemma_sum_add(xs, fg, e, all);
    assert forall|x: u64| #[trigger] all(x) == ys.len() by {
        lemma_three_way_split(ys, x);
    }
    lemma_sum_constant(xs, all, ys.len() as int);
}

/// Fractional ranks redistribute `1..=n` among tie groups without changing
/// their total: the doubled ranks of a sample of `n` keys sum to `n (n + 1)`.
pub proof fn lemma_rank_sum(keys: Seq<u64>)
    ensures
        sum_of(keys, |x: u64| doubled_rank(keys, x)) == keys.len() * (keys.len() + 1),
{
    let n = keys.len() as int;
    let below = |x: u64| count_below(keys, x);
    let equal = |x: u64| count_equal(keys, x);
    let one = |x: u64| 1int;
    let twice_below = |x: u64| 2 * count_below(keys, x);
    let ranked = |x: u64| 2 * count_below(keys, x) + count_equal(keys, x);
    let full = |x: u64| doubled_rank(keys, x);
    lemma_sum_add(keys, below, below, twice_below);
    lemma_sum_add(keys, twice_below, equal, ranked);
    lemma_sum_add(keys, ranked, one, full);
    lemma_sum_constant(keys, one, 1);
    lemma_pairs_greater_is_pairs_less_reversed(keys, keys);
    lemma_pairs_partition(keys, keys);
    assert(n * 1 == n);
    assert(n * n + n == n * (n + 1)) by (nonlinear_arith);
}

/// Ranked together with `ys`, the doubled ranks of `xs` sum to
/// `n1 (n1 + 1)` plus, for every pair `(x, y)`, 2 when `x > y` and 1 when
/// they tie: the Mann-Whitney `U1 = R1 - n1 (n1 + 1) / 2` is the number of
/// pairs the first group wins, ties counting half, which is the dominance
/// count behind Cliff's delta.
pub proof fn lemma_rank_sum_counts_dominance(xs: Seq<u64>, ys: Seq<u64>)
    ensures
        sum_of(xs, |x: u64| doubled_rank(xs + ys, x)) == xs.len() * (xs.len() + 1) + 2 * pairs_greater(xs, ys)
            + pairs_tied(xs, ys),
{
    let own = |x: u64| doubled_rank(xs, x);
    let gb = |x: u64| count_below(ys, x);
    let ge = |x: u64| count_equal(ys, x);
    let twice_gb = |x: u64| 2 * count_below(ys, x);
    let cross = |x: u64| 2 * count_below(ys, x) + count_equal(ys, x);
    let pooled = |x: u64| doubled_rank(xs + ys, x);
    assert forall|x: u64| #[trigger] pooled(x) == own(x) + cross(x) by {
        crate::counting::lemma_sum_append(xs, ys, indicator(key_below(x)));
        crate::counting::lemma_sum_append(xs, ys, indicator(key_equal(x)));
    }
    lemma_sum_add(xs, gb, gb, twice_gb);
    lemma_sum_add(xs, twice_gb, ge, cross);
    lemma_sum_add(xs, own, cross, pooled);
    lemma_rank_sum(xs);
}

/// The two Mann-Whitney statistics add up to the number of pairs: ranking
/// `xs` among `xs + ys` and `ys` among `ys + xs`, `U1 + U2 = n1 n2` (here
/// doubled).
pub proof fn lemma_mann_whitney_statistics_sum(xs: Seq<u64>, ys: Seq<u64>)
    ensures
        (sum_of(xs, |x: u64| doubled_rank(xs + ys, x)) - xs.len() * (xs.len() + 1)) + (sum_of(
            ys,
            |y: u64| doubled_rank(ys + xs, y),
        ) - ys.len() * (ys.len() + 1)) == 2 * (xs.len() * ys.len()),
{
    lemma_rank_sum_counts_dominance(xs, ys);
    lemma_rank_sum_counts_dominance(ys, xs);
    lemma_pairs_greater_is_pairs_less_reversed(ys, xs);
    lemma_pairs_tied_symmetric(xs, ys);
    lemma_pairs_partition(xs, ys);
}

/// `2 * U1`: twice the Mann-Whitney statistic of `xs` against `ys`, the
/// pairs `xs` wins counted twice and the ties once.
pub open spec fn doubled_mann_whitney_u(xs: Seq<u64>, ys: Seq<u64>) -> int {
    2 * pairs_greater(xs, ys) + pairs_tied(xs, ys)
}

/// Exchanging the groups turns `U1` into `n1 n2 - U1`, so the reported
/// `min(U1, n1 n2 - U1)`, and the z-score and p-value computed from it, do
/// not depend on which group comes first; and `0 <= U1 <= n1 n2`.
pub proof fn lemma_mann_whitney_swap(xs: Seq<u64>, ys: Seq<u64>)
    ensures
        doubled_mann_whitney_u(ys, xs) == 2 * (xs.len() * ys.len()) - doubled_mann_whitney_u(xs, ys),
        0 <= doubled_mann_whitney_u(xs, ys) <= 2 * (xs.len() * ys.len()),
{
    lemma_pairs_greater_is_pairs_less_reversed(ys, xs);
    lemma_pairs_greater_is_pairs_less_reversed(xs, ys);
    lemma_pairs_tied_symmetric(xs, ys);
    lemma_pairs_partition(xs, ys);
    lemma_pairs_nonnegative(xs, ys);
}

/// The three pair counts are never negative.
proof fn lemma_pairs_nonnegative(xs: Seq<u64>, ys: Seq<u64>)
    ensures
        pairs_greater(xs, ys) >= 0,
        pairs_less(xs, ys) >= 0,
        pairs_tied(xs, ys) >= 0,
    decreases xs.len(),
{
    if xs.len() > 0 {
        lemma_pairs_nonnegative(xs.drop_last(), ys);
        lemma_three_way_split(ys, xs.last());
    }
}

/// Cliff's delta `(#{x > y} - #{x < y}) / (n1 n2)` changes sign when the
/// groups are exchanged and lies in `[-1, 1]`.
pub proof fn lemma_cliffs_delta_antisymmetric_and_bounded(xs: Seq<u64>, ys: Seq<u64>)
    ensures
        pairs_greater(ys, xs) - pairs_less(ys, xs) == -(pairs_greater(xs, ys) - pairs_less(xs, ys)),
        -(xs.len() * ys.len()) <= pairs_greater(xs, ys) - pairs_less(xs, ys) <= xs.len() * ys.len(),
{
    lemma_pairs_greater_is_pairs_less_reversed(ys, xs);
    lemma_pairs_greater_is_pairs_less_reversed(xs, ys);
    lemma_pairs_partition(xs, ys);
    lemma_pairs_nonnegative(xs, ys);
}

/// `f` is strictly increasing.
pub open spec fn strictly_increasing(f: spec_fn(u64) -> u64) -> bool {
    forall|a: u64, b: u64| a < b ==> #[trigger] f(a) < #[trigger] f(b)
}

/// Counts of keys below, equal to or above a key are the same after a
/// strictly increasing map of every key.
proof fn lemma_counts_order_invariant(ys: Seq<u64>, x: u64, f: spec_fn(u64) -> u64)
    requires
        strictly_increasing(f),
    ensures
        count_below(ys.map_values(f), f(x)) == count_below(ys, x),
        count_equal(ys.map_values(f), f(x)) == count_equal(ys, x),
        count_above(ys.map_values(f), f(x)) == count_above(ys, x),
{
    let zs = ys.map_values(f);
    assert forall|k: int| 0 <= k < ys.len() implies #[trigger] indicator(key_below(x))(ys[k]) == indicator(
        key_below(f(x)),
    )(zs[k]) && indicator(key_equal(x))(ys[k]) == indicator(key_equal(f(x)))(zs[k]) && indicator(
        key_above(x),
    )(ys[k]) == indicator(key_above(f(x)))(zs[k]) by {
        assert(zs[k] == f(ys[k]));
        if ys[k] < x {
            assert(f(ys[k]) < f(x));
        } else if ys[k] > x {
            assert(f(x) < f(ys[k]));
        }
    }
    lemma_sum_matching(ys, zs, indicator(key_below(x)), indicator(key_below(f(x))));
    lemma_sum_matching(ys, zs, indicator(key_equal(x)), indicator(key_equal(f(x))));
    lemma_sum_matching(ys, zs, indicator(key_above(x)), indicator(key_above(f(x))));
}

/// The pair counts read only the order of the keys: mapping every key of
/// both groups through one strictly increasing map changes none of them, so
/// neither Cliff's delta nor the Mann-Whitney statistic changes.
pub proof fn lemma_pairs_order_invariant(xs: Seq<u64>, ys: Seq<u64>, f: spec_fn(u64) -> u64)
    requires
        strictly_increasing(f),
    ensures
        pairs_greater(xs.map_values(f), ys.map_values(f)) == pairs_greater(xs, ys),
        pairs_less(xs.map_values(f), ys.map_values(f)) == pairs_less(xs, ys),
        pairs_tied(xs.map_values(f), ys.map_values(f)) == pairs_tied(xs, ys),
{
    let mx = xs.map_values(f);
    let my = ys.map_values(f);
    assert forall|k: int| 0 <= k < xs.len() implies count_below(ys, #[trigger] xs[k]) == count_below(my, mx[k])
        && count_above(ys, xs[k]) == count_above(my, mx[k]) && count_equal(ys, xs[k]) == count_equal(
        my,
        mx[k],
    ) by {
        assert(mx[k] == f(xs[k]));
        lemma_counts_order_invariant(ys, xs[k], f);
    }
    lemma_sum_matching(xs, mx, |x: u64| count_below(ys, x), |x: u64| count_below(my, x));
    lemma_sum_matching(xs, mx, |x: u64| count_above(ys, x), |x: u64| count_above(my, x));
    lemma_sum_matching(xs, mx, |x: u64| count_equal(ys, x), |x: u64| count_equal(my, x));
}

/// Dominance counts between two groups.
#[derive(Debug, Clone, Copy, PartialEq, Eq)]
pub struct Dominance {
    /// Pairs with the first group's observation greater.
    pub greater: u64,
    /// Pairs with the first group's observation smaller.
    pub less: u64,
}

/// A comparison of two groups when one holds nothing.
#[derive(Debug, Clone, Copy, PartialEq, Eq)]
pub struct EmptyGroup;

/// How many of the `|xs| * |ys|` pairs have `x > y` and how many `x < y`;
/// Cliff's delta is `(greater - less) / (|xs| * |ys|)`. Refuses an empty group.
pub fn dominance_counts(xs: &Vec<u64>, ys: &Vec<u64>) -> (r: Result<Dominance, EmptyGroup>)
    requires
        xs.len() * ys.len() <= u64::MAX,
    ensures
        r is Err <==> xs.len() == 0 || ys.len() == 0,
        r matches Ok(d) ==> d.greater == pairs_greater(xs@, ys@) && d.less == pairs_less(xs@, ys@),
{
    if xs.len() == 0 || ys.len() == 0 {
        return Err(EmptyGroup);
    }
    let nx = xs.len();
    let ny = ys.len();
    let mut greater: u64 = 0;
    let mut less: u64 = 0;
    let mut i: usize = 0;
    while i < nx
        invariant
            nx == xs.len(),
            ny == ys.len(),
            nx * ny <= u64::MAX,
            i <= nx,
            greater == pairs_greater(xs@.take(i as int), ys@),
            less == pairs_less(xs@.take(i as int), ys@),
            greater + less <= i * ny,
        decreases nx - i,
    {
        let x = xs[i];
        let mut j: usize = 0;
        let ghost g0 = greater as int;
        let ghost l0 = less as int;
        assert(xs@.take(i + 1).drop_last() =~= xs@.take(i as int));
        assert(i * ny + ny <= nx * ny) by (nonlinear_arith)
            requires
                i < nx,
        ;
        while j < ny
            invariant
                nx == xs.len(),
                ny == ys.len(),
                nx * ny <= u64::MAX,
                i < nx,
                j <= ny,
                x == xs[i as int],
                i * ny + ny <= nx * ny,
                g0 + l0 <= i * ny,
                greater == g0 + count_below(ys@.take(j as int), x),
                less == l0 + count_above(ys@.take(j as int), x),
                greater + less <= i * ny + j,
            decreases ny - j,
        {
            let y = ys[j];
            assert(ys@.take(j + 1).drop_last() =~= ys@.take(j as int));
            assert(ys@.take(j + 1).last() == y);
            if x > y {
                greater = greater + 1;
            } else if x < y {
                less = less + 1;
            }
            j = j + 1;
        }
        assert(ys@.take(ny as int) =~= ys@);
        assert(xs@.take(i + 1).last() == x);
        assert((i + 1) * ny == i * ny + ny) by (nonlinear_arith);
        i = i + 1;
    }
    assert(xs@.take(nx as int) =~= xs@);
    Ok(Dominance { greater, less })
}

/// How a pair of observations `(x_i, y_i)`, `(x_j, y_j)` relates the two
/// orderings.
#[derive(Debug, Clone, Copy, PartialEq, Eq)]
pub enum PairClass {
    /// Both orderings put the pair the same way round.
    Concordant,
    /// The orderings disagree on the pair.
    Discordant,
    /// The first coordinates tie, the second do not.
    TiedFirst,
    /// The second coordinates tie, the first do not.
    TiedSecond,
    /// Both coordinates tie.
    TiedBoth,
}

/// The class of the pair `(xi, yi)`, `(xj, yj)`.
pub open spec fn pair_class(xi: u64, xj: u64, yi: u64, yj: u64) -> PairClass {
    if xi == xj && yi == yj {
        PairClass::TiedBoth
    } else if xi == xj {
        PairClass::TiedFirst
    } else if yi == yj {
        PairClass::TiedSecond
    } else if (xi < xj) == (yi < yj) {
        PairClass::Concordant
    } else {
        PairClass::Discordant
    }
}

/// Pairs `(i, j')` with `i < j' < j` in class `c`.
pub open spec fn row_class_count(xs: Seq<u64>, ys: Seq<u64>, c: PairClass, i: int, j: int) -> int
    decreases j - i,
{
    if j <= i + 1 {
        0
    } else {
        row_class_count(xs, ys, c, i, j - 1) + if pair_class(xs[i], xs[j - 1], ys[i], ys[j - 1]) == c {
            1int
        } else {
            0int
        }
    }
}

/// Pairs `(i', j)` with `i' < i` and `i' < j < |xs|` in class `c`.
pub open spec fn class_count_before(xs: Seq<u64>, ys: Seq<u64>, c: PairClass, i: int) -> int
    decreases i,
{
    if i <= 0 {
        0
    } else {
        class_count_before(xs, ys, c, i - 1) + row_class_count(xs, ys, c, i - 1, xs.len() as int)
    }
}

/// Pairs `i < j` of positions whose observations fall in class `c`.
pub open spec fn class_count(xs: Seq<u64>, ys: Seq<u64>, c: PairClass) -> int {
    class_count_before(xs, ys, c, xs.len() as int)
}

/// The five classes of a row add up to the row's length.
proof fn lemma_row_classes(xs: Seq<u64>, ys: Seq<u64>, i: int, j: int)
    ensures
        row_class_count(xs, ys, PairClass::Concordant, i, j) + row_class_count(xs, ys, PairClass::Discordant, i, j)
            + row_class_count(xs, ys, PairClass::TiedFirst, i, j) + row_class_count(xs, ys, PairClass::TiedSecond, i, j)
            + row_class_count(xs, ys, PairClass::TiedBoth, i, j) == if j <= i + 1 { 0 } else { j - i - 1 },
    decreases j - i,
{
    if j > i + 1 {
        lemma_row_classes(xs, ys, i, j - 1);
    }
}

/// Every pair `i < j` of `n` positions falls in exactly one class: the five
/// counts add up to `n (n - 1) / 2`.
pub proof fn lemma_pair_classes_partition(xs: Seq<u64>, ys: Seq<u64>)
    ensures
        2 * (class_count(xs, ys, PairClass::Concordant) + class_count(xs, ys, PairClass::Discordant)
            + class_count(xs, ys, PairClass::TiedFirst) + class_count(xs, ys, PairClass::TiedSecond)
            + class_count(xs, ys, PairClass::TiedBoth)) == (xs.len() as int) * (xs.len() - 1),
{
    lemma_pair_classes_partition_before(xs, ys, xs.len() as int);
}

proof fn lemma_pair_classes_partition_before(xs: Seq<u64>, ys: Seq<u64>, i: int)
    requires
        0 <= i <= xs.len(),
    ensures
        2 * (class_count_before(xs, ys, PairClass::Concordant, i) + class_count_before(xs, ys, PairClass::Discordant, i)
            + class_count_before(xs, ys, PairClass::TiedFirst, i) + class_count_before(xs, ys, PairClass::TiedSecond, i)
            + class_count_before(xs, ys, PairClass::TiedBoth, i)) == i * (2 * (xs.len() as int) - i - 1),
    decreases i,
{
    if i > 0 {
        lemma_pair_classes_partition_before(xs, ys, i - 1);
        lemma_row_classes(xs, ys, i - 1, xs.len() as int);
        let n = xs.len() as int;
        assert(row_class_count(xs, ys, PairClass::Concordant, i - 1, n) + row_class_count(xs, ys, PairClass::Discordant, i - 1, n)
            + row_class_count(xs, ys, PairClass::TiedFirst, i - 1, n) + row_class_count(xs, ys, PairClass::TiedSecond, i - 1, n)
            + row_class_count(xs, ys, PairClass::TiedBoth, i - 1, n) == n - i);
        assert((i - 1) * (2 * n - (i - 1) - 1) + 2 * (n - i) == i * (2 * n - i - 1)) by (nonlinear_arith);
        let prev = class_count_before(xs, ys, PairClass::Concordant, i - 1) + class_count_before(xs, ys, PairClass::Discordant, i - 1)
            + class_count_before(xs, ys, PairClass::TiedFirst, i - 1) + class_count_before(xs, ys, PairClass::TiedSecond, i - 1)
            + class_count_before(xs, ys, PairClass::TiedBoth, i - 1);
        let cur = class_count_before(xs, ys, PairClass::Concordant, i) + class_count_before(xs, ys, PairClass::Discordant, i)
            + class_count_before(xs, ys, PairClass::TiedFirst, i) + class_count_before(xs, ys, PairClass::TiedSecond, i)
            + class_count_before(xs, ys, PairClass::TiedBoth, i);
        assert(2 * prev == (i - 1) * (2 * n - (i - 1) - 1));
        assert(cur == prev + (n - i));
        assert(2 * cur == i * (2 * n - i - 1));
    } else {
        assert(i * (2 * (xs.len() as int) - i - 1) == 0) by (nonlinear_arith)
            requires
                i == 0,
        ;
    }
}

/// Exchanging the two coordinates keeps concordance and swaps which side ties.
pub open spec fn swap_sides(c: PairClass) -> PairClass {
    match c {
        PairClass::TiedFirst => PairClass::TiedSecond,
        PairClass::TiedSecond => PairClass::TiedFirst,
        other => other,
    }
}

proof fn lemma_row_class_swap(xs: Seq<u64>, ys: Seq<u64>, c: PairClass, i: int, j: int)
    ensures
        row_class_count(ys, xs, swap_sides(c), i, j) == row_class_count(xs, ys, c, i, j),
    decreases j - i,
{
    if j > i + 1 {
        lemma_row_class_swap(xs, ys, c, i, j - 1);
    }
}

proof fn lemma_class_count_swap_before(xs: Seq<u64>, ys: Seq<u64>, c: PairClass, i: int)
    requires
        xs.len() == ys.len(),
    ensures
        class_count_before(ys, xs, swap_sides(c), i) == class_count_before(xs, ys, c, i),
    decreases i,
{
    if i > 0 {
        lemma_class_count_swap_before(xs, ys, c, i - 1);
        lemma_row_class_swap(xs, ys, c, i - 1, xs.len() as int);
    }
}

/// Reading the pairs with the coordinates exchanged counts the same concordant
/// and discordant pairs and exchanges the two kinds of one-sided tie.
pub proof fn lemma_class_count_swap(xs: Seq<u64>, ys: Seq<u64>, c: PairClass)
    requires
        xs.len() == ys.len(),
    ensures
        class_count(ys, xs, swap_sides(c)) == class_count(xs, ys, c),
{
    lemma_class_count_swap_before(xs, ys, c, xs.len() as int);
}

/// Pairs `i < j` of `xs2`, `ys2` fall in class `c` exactly where the same
/// pairs of `xs`, `ys` fall in class `d`.
spec fn classes_correspond(
    xs: Seq<u64>,
    ys: Seq<u64>,
    d: PairClass,
    xs2: Seq<u64>,
    ys2: Seq<u64>,
    c: PairClass,
) -> bool {
    forall|i: int, j: int|
        0 <= i < j < xs.len() ==> (#[trigger] pair_class(xs2[i], xs2[j], ys2[i], ys2[j]) == c) == (
        #[trigger] pair_class(xs[i], xs[j], ys[i], ys[j]) == d)
}

proof fn lemma_row_classes_correspond(
    xs: Seq<u64>,
    ys: Seq<u64>,
    d: PairClass,
    xs2: Seq<u64>,
    ys2: Seq<u64>,
    c: PairClass,
    i: int,
    j: int,
)
    requires
        classes_correspond(xs, ys, d, xs2, ys2, c),
        0 <= i,
        j <= xs.len(),
    ensures
        row_class_count(xs2, ys2, c, i, j) == row_class_count(xs, ys, d, i, j),
    decreases j - i,
{
    if j > i + 1 {
        lemma_row_classes_correspond(xs, ys, d, xs2, ys2, c, i, j - 1);
        assert((pair_class(xs2[i], xs2[j - 1], ys2[i], ys2[j - 1]) == c) == (pair_class(
            xs[i],
            xs[j - 1],
            ys[i],
            ys[j - 1],
        ) == d));
    }
}

proof fn lemma_classes_correspond_before(
    xs: Seq<u64>,
    ys: Seq<u64>,
    d: PairClass,
    xs2: Seq<u64>,
    ys2: Seq<u64>,
    c: PairClass,
    i: int,
)
    requires
        classes_correspond(xs, ys, d, xs2, ys2, c),
        xs2.len() == xs.len(),
        i <= xs.len(),
    ensures
        class_count_before(xs2, ys2, c, i) == class_count_before(xs, ys, d, i),
    decreases i,
{
    if i > 0 {
        lemma_classes_correspond_before(xs, ys, d, xs2, ys2, c, i - 1);
        lemma_row_classes_correspond(xs, ys, d, xs2, ys2, c, i - 1, xs.len() as int);
    }
}

/// Two readings whose pairs fall in corresponding classes count them alike.
proof fn lemma_classes_correspond(
    xs: Seq<u64>,
    ys: Seq<u64>,
    d: PairClass,
    xs2: Seq<u64>,
    ys2: Seq<u64>,
    c: PairClass,
)
    requires
        classes_correspond(xs, ys, d, xs2, ys2, c),
        xs2.len() == xs.len(),
    ensures
        class_count(xs2, ys2, c) == class_count(xs, ys, d),
{
    lemma_classes_correspond_before(xs, ys, d, xs2, ys2, c, xs.len() as int);
}

/// No pair in class `c`: the count is zero.
proof fn lemma_class_count_none(xs: Seq<u64>, ys: Seq<u64>, c: PairClass)
    requires
        forall|i: int, j: int| 0 <= i < j < xs.len() ==> #[trigger] pair_class(xs[i], xs[j], ys[i], ys[j]) != c,
    ensures
        class_count(xs, ys, c) == 0,
{
    // Compare with a class that no pair of `xs` against itself falls in.
    let c2 = if c == PairClass::Discordant { PairClass::TiedFirst } else { PairClass::Discordant };
    assert forall|i: int, j: int| 0 <= i < j < xs.len() implies (#[trigger] pair_class(xs[i], xs[j], ys[i], ys[j])
        == c) == (#[trigger] pair_class(xs[i], xs[j], xs[i], xs[j]) == c2) by {}
    lemma_classes_correspond(xs, xs, c2, xs, ys, c);
    lemma_class_count_none_of_self(xs, c2);
}

proof fn lemma_row_none_of_self(xs: Seq<u64>, c: PairClass, i: int, j: int)
    requires
        c == PairClass::Discordant || c == PairClass::TiedFirst,
    ensures
        row_class_count(xs, xs, c, i, j) == 0,
    decreases j - i,
{
    if j > i + 1 {
        lemma_row_none_of_self(xs, c, i, j - 1);
    }
}

proof fn lemma_class_count_none_of_self_before(xs: Seq<u64>, c: PairClass, i: int)
    requires
        c == PairClass::Discordant || c == PairClass::TiedFirst,
    ensures
        class_count_before(xs, xs, c, i) == 0,
    decreases i,
{
    if i > 0 {
        lemma_class_count_none_of_self_before(xs, c, i - 1);
        lemma_row_none_of_self(xs, c, i - 1, xs.len() as int);
    }
}

/// A series against itself has no discordant pair and no one-sided tie.
proof fn lemma_class_count_none_of_self(xs: Seq<u64>, c: PairClass)
    requires
        c == PairClass::Discordant || c == PairClass::TiedFirst,
    ensures
        class_count(xs, xs, c) == 0,
{
    lemma_class_count_none_of_self_before(xs, c, xs.len() as int);
}

/// The classes read the signs of the two differences: a pair is concordant
/// exactly when `(x_i - x_j) (y_i - y_j) > 0`, discordant exactly when it is
/// negative, and otherwise tied on the coordinate (or both) whose
/// difference is zero.
pub proof fn lemma_pair_class_by_sign(xi: u64, xj: u64, yi: u64, yj: u64)
    ensures
        (pair_class(xi, xj, yi, yj) == PairClass::Concordant) == ((xi - xj) * (yi - yj) > 0),
        (pair_class(xi, xj, yi, yj) == PairClass::Discordant) == ((xi - xj) * (yi - yj) < 0),
        (pair_class(xi, xj, yi, yj) == PairClass::TiedBoth) == (xi == xj && yi == yj),
        (pair_class(xi, xj, yi, yj) == PairClass::TiedFirst) == (xi == xj && yi != yj),
        (pair_class(xi, xj, yi, yj) == PairClass::TiedSecond) == (xi != xj && yi == yj),
{
    let (a, b) = (xi - xj, yi - yj);
    if a > 0 && b > 0 {
        assert(a * b > 0) by (nonlinear_arith) requires a > 0, b > 0;
    } else if a < 0 && b < 0 {
        assert(a * b > 0) by (nonlinear_arith) requires a < 0, b < 0;
    } else if a > 0 && b < 0 {
        assert(a * b < 0) by (nonlinear_arith) requires a > 0, b < 0;
    } else if a < 0 && b > 0 {
        assert(a * b < 0) by (nonlinear_arith) requires a < 0, b > 0;
    } else {
        assert(a * b == 0) by (nonlinear_arith) requires a == 0 || b == 0;
    }
}

/// Kendall's tau-b of a series against itself is 1: no pair is discordant
/// or tied on one side only, every other pair is concordant, and when no
/// value repeats all `n (n - 1) / 2` pairs are concordant.
pub proof fn lemma_kendall_series_against_itself(xs: Seq<u64>)
    ensures
        class_count(xs, xs, PairClass::Discordant) == 0,
        class_count(xs, xs, PairClass::TiedFirst) == 0,
        class_count(xs, xs, PairClass::TiedSecond) == 0,
        2 * (class_count(xs, xs, PairClass::Concordant) + class_count(xs, xs, PairClass::TiedBoth)) == (xs.len() as int)
            * (xs.len() - 1),
        xs.no_duplicates() ==> 2 * class_count(xs, xs, PairClass::Concordant) == (xs.len() as int) * (xs.len() - 1),
{
    lemma_class_count_none_of_self(xs, PairClass::Discordant);
    lemma_class_count_none_of_self(xs, PairClass::TiedFirst);
    lemma_class_count_swap(xs, xs, PairClass::TiedFirst);
    lemma_pair_classes_partition(xs, xs);
    if xs.no_duplicates() {
        lemma_class_count_none(xs, xs, PairClass::TiedBoth);
    }
}

/// Reversing the order of the second series (mapping each `y` to
/// `u64::MAX - y`) exchanges the concordant and discordant pairs and keeps
/// every tie, so tau-b changes sign.
pub proof fn lemma_kendall_reversed(xs: Seq<u64>, ys: Seq<u64>)
    requires
        xs.len() == ys.len(),
    ensures
        class_count(xs, ys.map_values(|y: u64| (u64::MAX - y) as u64), PairClass::Concordant) == class_count(
            xs,
            ys,
            PairClass::Discordant,
        ),
        class_count(xs, ys.map_values(|y: u64| (u64::MAX - y) as u64), PairClass::Discordant) == class_count(
            xs,
            ys,
            PairClass::Concordant,
        ),
        class_count(xs, ys.map_values(|y: u64| (u64::MAX - y) as u64), PairClass::TiedFirst) == class_count(
            xs,
            ys,
            PairClass::TiedFirst,
        ),
        class_count(xs, ys.map_values(|y: u64| (u64::MAX - y) as u64), PairClass::TiedSecond) == class_count(
            xs,
            ys,
            PairClass::TiedSecond,
        ),
        class_count(xs, ys.map_values(|y: u64| (u64::MAX - y) as u64), PairClass::TiedBoth) == class_count(
            xs,
            ys,
            PairClass::TiedBoth,
        ),
{
    let rs = ys.map_values(|y: u64| (u64::MAX - y) as u64);
    assert forall|i: int, j: int| 0 <= i < j < xs.len() implies #[trigger] pair_class(xs[i], xs[j], rs[i], rs[j])
        == match #[trigger] pair_class(xs[i], xs[j], ys[i], ys[j]) {
        PairClass::Concordant => PairClass::Discordant,
        PairClass::Discordant => PairClass::Concordant,
        other => other,
    } by {
        assert(rs[i] == u64::MAX - ys[i] && rs[j] == u64::MAX - ys[j]);
    }
    let cls = seq![
        PairClass::Concordant,
        PairClass::Discordant,
        PairClass::TiedFirst,
        PairClass::TiedSecond,
        PairClass::TiedBoth,
    ];
    let partner = seq![
        PairClass::Discordant,
        PairClass::Concordant,
        PairClass::TiedFirst,
        PairClass::TiedSecond,
        PairClass::TiedBoth,
    ];
    assert forall|k: int| 0 <= k < 5 implies class_count(xs, rs, #[trigger] cls[k]) == class_count(xs, ys, partner[k]) by {
        assert forall|i: int, j: int| 0 <= i < j < xs.len() implies (#[trigger] pair_class(xs[i], xs[j], rs[i], rs[j])
            == cls[k]) == (#[trigger] pair_class(xs[i], xs[j], ys[i], ys[j]) == partner[k]) by {
            assert(pair_class(xs[i], xs[j], rs[i], rs[j]) == match pair_class(xs[i], xs[j], ys[i], ys[j]) {
                PairClass::Concordant => PairClass::Discordant,
                PairClass::Discordant => PairClass::Concordant,
                other => other,
            });
        }
        lemma_classes_correspond(xs, ys, partner[k], xs, rs, cls[k]);
    }
    assert(cls[0] == PairClass::Concordant && cls[1] == PairClass::Discordant && cls[2] == PairClass::TiedFirst
        && cls[3] == PairClass::TiedSecond && cls[4] == PairClass::TiedBoth);
}

/// Pair counts for Kendall's tau-b. A pair tied on both coordinates counts in
/// both tie counts.
#[derive(Debug, Clone, Copy, PartialEq, Eq)]
pub struct KendallCounts {
    pub concordant: u64,
    pub discordant: u64,
    /// Pairs whose first coordinates tie.
    pub ties_x: u64,
    /// Pairs whose second coordinates tie.
    pub ties_y: u64,
}

/// Why Kendall's tau cannot be computed.
#[derive(Debug, Clone, Copy, PartialEq, Eq)]
pub enum KendallError {
    /// The two sides have different lengths.
    LengthMismatch,
    /// Fewer than two observations: there is no pair.
    TooFew,
}

/// Concordant, discordant and tied pairs among `(xs[i], ys[i])`, over every
/// `i < j`; tau-b is `(C - D) / sqrt((P - ties_x) (P - ties_y))` with
/// `P = n (n - 1) / 2`.
pub fn kendall_counts(xs: &Vec<u64>, ys: &Vec<u64>) -> (r: Result<KendallCounts, KendallError>)
    requires
        xs.len() <= u32::MAX,
    ensures
        r == Err::<KendallCounts, _>(KendallError::LengthMismatch) <==> xs.len() != ys.len(),
        r == Err::<KendallCounts, _>(KendallError::TooFew) <==> xs.len() == ys.len() && xs.len() < 2,
        r matches Ok(k) ==> {
            &&& k.concordant == class_count(xs@, ys@, PairClass::Concordant)
            &&& k.discordant == class_count(xs@, ys@, PairClass::Discordant)
            &&& k.ties_x == class_count(xs@, ys@, PairClass::TiedFirst) + class_count(xs@, ys@, PairClass::TiedBoth)
            &&& k.ties_y == class_count(xs@, ys@, PairClass::TiedSecond) + class_count(xs@, ys@, PairClass::TiedBoth)
        },
{
    if xs.len() != ys.len() {
        return Err(KendallError::LengthMismatch);
    }
    let n = xs.len();
    if n < 2 {
        return Err(KendallError::TooFew);
    }
    assert(n * n + n <= u64::MAX) by (nonlinear_arith)
        requires
            n <= u32::MAX,
    ;
    let mut concordant: u64 = 0;
    let mut discordant: u64 = 0;
    let mut ties_x: u64 = 0;
    let mut ties_y: u64 = 0;
    let mut i: usize = 0;
    while i < n
        invariant
            n == xs.len(),
            n == ys.len(),
            n * n + n <= u64::MAX,
            i <= n,
            concordant == class_count_before(xs@, ys@, PairClass::Concordant, i as int),
            discordant == class_count_before(xs@, ys@, PairClass::Discordant, i as int),
            ties_x == class_count_before(xs@, ys@, PairClass::TiedFirst, i as int)
                + class_count_before(xs@, ys@, PairClass::TiedBoth, i as int),
            ties_y == class_count_before(xs@, ys@, PairClass::TiedSecond, i as int)
                + class_count_before(xs@, ys@, PairClass::TiedBoth, i as int),
            concordant <= i * n,
            discordant <= i * n,
            ties_x <= i * n,
            ties_y <= i * n,
        decreases n - i,
    {
        let mut j: usize = i + 1;
        let ghost (c0, d0, x0, y0) = (concordant as int, discordant as int, ties_x as int, ties_y as int);
        assert(i * n + n <= n * n + n) by (nonlinear_arith)
            requires
                i < n,
        ;
        while j < n
            invariant
                n == xs.len(),
                n == ys.len(),
                n * n + n <= u64::MAX,
                i < n,
                i + 1 <= j <= n,
                i * n + n <= n * n + n,
                c0 == class_count_before(xs@, ys@, PairClass::Concordant, i as int),
                d0 == class_count_before(xs@, ys@, PairClass::Discordant, i as int),
                x0 == class_count_before(xs@, ys@, PairClass::TiedFirst, i as int)
                    + class_count_before(xs@, ys@, PairClass::TiedBoth, i as int),
                y0 == class_count_before(xs@, ys@, PairClass::TiedSecond, i as int)
                    + class_count_before(xs@, ys@, PairClass::TiedBoth, i as int),
                concordant == c0 + row_class_count(xs@, ys@, PairClass::Concordant, i as int, j as int),
                discordant == d0 + row_class_count(xs@, ys@, PairClass::Discordant, i as int, j as int),
                ties_x == x0 + row_class_count(xs@, ys@, PairClass::TiedFirst, i as int, j as int)
                    + row_class_count(xs@, ys@, PairClass::TiedBoth, i as int, j as int),
                ties_y == y0 + row_class_count(xs@, ys@, PairClass::TiedSecond, i as int, j as int)
                    + row_class_count(xs@, ys@, PairClass::TiedBoth, i as int, j as int),
                concordant <= i * n + j,
                discordant <= i * n + j,
                ties_x <= i * n + j,
                ties_y <= i * n + j,
            decreases n - j,
        {
            let (xi, xj, yi, yj) = (xs[i], xs[j], ys[i], ys[j]);
            if xi == xj && yi == yj {
                ties_x = ties_x + 1;
                ties_y = ties_y + 1;
            } else if xi == xj {
                ties_x = ties_x + 1;
            } else if yi == yj {
                ties_y = ties_y + 1;
            } else if (xi < xj) == (yi < yj) {
                concordant = concordant + 1;
            } else {
                discordant = discordant + 1;
            }
            j = j + 1;
        }
        assert((i + 1) * n == i * n + n) by (nonlinear_arith);
        i = i + 1;
    }
    Ok(KendallCounts { concordant, discordant, ties_x, ties_y })
}

/// Whether every pair of the `n` observations ties in its first
/// coordinate, or every pair ties in its second: then the denominator of
/// tau-b, `sqrt((n0 - ties_x) (n0 - ties_y))` with `n0 = n (n - 1) / 2`, is
/// zero and the coefficient is undefined.
pub fn kendall_all_tied_on_a_side(counts: &KendallCounts, n: u64) -> (r: bool)
    requires
        n <= u32::MAX,
    ensures
        r == (2 * counts.ties_x == n * (n - 1) || 2 * counts.ties_y == n * (n - 1)),
{
    let pairs: u128 = if n == 0 {
        0
    } else {
        assert(n * (n - 1) <= u64::MAX) by (nonlinear_arith)
            requires
                1 <= n <= u32::MAX,
        ;
        (n as u128) * ((n - 1) as u128)
    };
    2 * (counts.ties_x as u128) == pairs || 2 * (counts.ties_y as u128) == pairs
}

} // verus!
