//! The two-sample Kolmogorov-Smirnov statistic: the largest gap between two
//! empirical distribution functions, over order keys.

use vstd::prelude::*;
use crate::counting::{count_where, lemma_count_at_least, lemma_count_bounded, lemma_count_stretch};
use crate::ordinal::sorted_keys;
use crate::pairwise::EmptyGroup;

verus! {

/// Keys at or below `t`.
pub open spec fn key_at_most(t: u64) -> spec_fn(u64) -> bool {
    |x: u64| x <= t
}

/// How many keys lie at or below `t`: `len * F(t)` for the empirical
/// distribution function `F` of the sample.
pub open spec fn count_at_most(s: Seq<u64>, t: u64) -> int {
    count_where(s, key_at_most(t))
}

/// `F_x(t) - F_y(t)`, scaled by `|xs| * |ys|` to stay an integer.
pub open spec fn ecdf_gap(xs: Seq<u64>, ys: Seq<u64>, t: u64) -> int {
    count_at_most(xs, t) * ys.len() - count_at_most(ys, t) * xs.len()
}

pub open spec fn abs_int(v: int) -> int {
    if v < 0 {
        -v
    } else {
        v
    }
}

pub open spec fn ascending(s: Seq<u64>) -> bool {
    forall|a: int, b: int| 0 <= a <= b < s.len() ==> #[trigger] s[a] <= #[trigger] s[b]
}

/// `t` lies below every key not yet walked past.
spec fn below_frontier(xs: Seq<u64>, i: int, ys: Seq<u64>, j: int, t: u64) -> bool {
    &&& (i >= xs.len() || t < xs[i])
    &&& (j >= ys.len() || t < ys[j])
}

/// In an ascending sample whose first `k` keys are at most `t` and the rest
/// above it, `k` keys are at most `t`.
proof fn lemma_count_at_most_split(s: Seq<u64>, k: int, t: u64)
    requires
        0 <= k <= s.len(),
        forall|a: int| 0 <= a < k ==> #[trigger] s[a] <= t,
        forall|a: int| k <= a < s.len() ==> #[trigger] s[a] > t,
    ensures
        count_at_most(s, t) == k,
{
    assert forall|a: int| 0 <= a < s.len() implies (#[trigger] key_at_most(t)(s[a]) <==> 0 <= a < k) by {}
    lemma_count_stretch(s, key_at_most(t), 0, k);
}

/// Past the end of the first sample, the gap only closes: it lies between
/// zero and the gap at the last key walked.
proof fn lemma_tail_gap_first_done(n1: int, n2: int, j: int, fy: int)
    requires
        0 <= j <= fy <= n2,
        n1 >= 0,
    ensures
        0 <= n1 * n2 - fy * n1 <= n1 * n2 - j * n1,
{
    assert(j * n1 <= fy * n1 <= n2 * n1) by (nonlinear_arith)
        requires
            0 <= j <= fy <= n2,
            n1 >= 0,
    ;
    assert(n1 * n2 == n2 * n1) by (nonlinear_arith);
}

/// Past the end of the second sample, likewise.
proof fn lemma_tail_gap_second_done(n1: int, n2: int, i: int, fx: int)
    requires
        0 <= i <= fx <= n1,
        n2 >= 0,
    ensures
        i * n2 - n1 * n2 <= fx * n2 - n2 * n1 <= 0,
{
    assert(i * n2 <= fx * n2 <= n1 * n2) by (nonlinear_arith)
        requires
            0 <= i <= fx <= n1,
            n2 >= 0,
    ;
    assert(n1 * n2 == n2 * n1) by (nonlinear_arith);
}

/// The gap is antisymmetric in the samples and never wider than
/// `|xs| * |ys|`: the statistic does not depend on which sample comes first
/// and lies in `[0, 1]`.
pub proof fn lemma_ecdf_gap_antisymmetric_and_bounded(xs: Seq<u64>, ys: Seq<u64>, t: u64)
    ensures
        ecdf_gap(ys, xs, t) == -ecdf_gap(xs, ys, t),
        abs_int(ecdf_gap(xs, ys, t)) <= xs.len() * ys.len(),
{
    let fx = count_at_most(xs, t);
    let fy = count_at_most(ys, t);
    lemma_count_bounded(xs, key_at_most(t));
    lemma_count_bounded(ys, key_at_most(t));
    let (n1, n2) = (xs.len() as int, ys.len() as int);
    assert(0 <= fx * n2 <= n1 * n2) by (nonlinear_arith)
        requires
            0 <= fx <= n1,
            n2 >= 0,
    ;
    assert(0 <= fy * n1 <= n2 * n1) by (nonlinear_arith)
        requires
            0 <= fy <= n2,
            n1 >= 0,
    ;
    assert(n1 * n2 == n2 * n1) by (nonlinear_arith);
}

/// Every key of `s` is at most `t`, or every key of `s` is above it: then
/// the count at `t` is all of `s` or none of it.
proof fn lemma_count_at_most_all_or_none(s: Seq<u64>, t: u64)
    ensures
        (forall|a: int| 0 <= a < s.len() ==> #[trigger] s[a] <= t) ==> count_at_most(s, t) == s.len(),
        (forall|a: int| 0 <= a < s.len() ==> #[trigger] s[a] > t) ==> count_at_most(s, t) == 0,
{
    if forall|a: int| 0 <= a < s.len() ==> #[trigger] s[a] <= t {
        lemma_count_stretch(s, key_at_most(t), 0, s.len() as int);
    }
    if forall|a: int| 0 <= a < s.len() ==> #[trigger] s[a] > t {
        lemma_count_stretch(s, key_at_most(t), 0, 0);
    }
}

/// The gap reads each sample only as a multiset: reordering either sample
/// changes no gap, so the statistic does not depend on the order of the
/// observations.
pub proof fn lemma_ecdf_gap_reorder(xs: Seq<u64>, xs2: Seq<u64>, ys: Seq<u64>, ys2: Seq<u64>, t: u64)
    requires
        xs2.to_multiset() == xs.to_multiset(),
        ys2.to_multiset() == ys.to_multiset(),
    ensures
        ecdf_gap(xs2, ys2, t) == ecdf_gap(xs, ys, t),
{
    vstd::seq_lib::to_multiset_len(xs);
    vstd::seq_lib::to_multiset_len(xs2);
    vstd::seq_lib::to_multiset_len(ys);
    vstd::seq_lib::to_multiset_len(ys2);
    crate::counting::lemma_sum_permutation(xs, xs2, crate::counting::indicator(key_at_most(t)));
    crate::counting::lemma_sum_permutation(ys, ys2, crate::counting::indicator(key_at_most(t)));
}

/// Two samples of one shared value have the same empirical distribution
/// function: every gap is zero, and so is the statistic.
pub proof fn lemma_ecdf_gap_one_shared_value(xs: Seq<u64>, ys: Seq<u64>, v: u64, t: u64)
    requires
        forall|a: int| 0 <= a < xs.len() ==> #[trigger] xs[a] == v,
        forall|b: int| 0 <= b < ys.len() ==> #[trigger] ys[b] == v,
    ensures
        ecdf_gap(xs, ys, t) == 0,
{
    lemma_count_at_most_all_or_none(xs, t);
    lemma_count_at_most_all_or_none(ys, t);
    if v <= t {
        assert(forall|a: int| 0 <= a < xs.len() ==> #[trigger] xs[a] <= t);
        assert(forall|b: int| 0 <= b < ys.len() ==> #[trigger] ys[b] <= t);
        assert(xs.len() * ys.len() == ys.len() * xs.len()) by (nonlinear_arith);
    } else {
        assert(forall|a: int| 0 <= a < xs.len() ==> #[trigger] xs[a] > t);
        assert(forall|b: int| 0 <= b < ys.len() ==> #[trigger] ys[b] > t);
    }
}

/// When every key of `xs` is at most `t` and every key of `ys` above it, the
/// gap at `t` is the whole `|xs| * |ys|`: fully separated samples have
/// statistic 1.
pub proof fn lemma_ecdf_gap_separated(xs: Seq<u64>, ys: Seq<u64>, t: u64)
    requires
        forall|a: int| 0 <= a < xs.len() ==> #[trigger] xs[a] <= t,
        forall|b: int| 0 <= b < ys.len() ==> #[trigger] ys[b] > t,
    ensures
        ecdf_gap(xs, ys, t) == xs.len() * ys.len(),
        abs_int(ecdf_gap(xs, ys, t)) == xs.len() * ys.len(),
{
    lemma_count_at_most_all_or_none(xs, t);
    lemma_count_at_most_all_or_none(ys, t);
    assert(xs.len() * ys.len() >= 0) by (nonlinear_arith);
}

/// The largest gap `max_t |F_x(t) - F_y(t)|` between the two empirical
/// distribution functions, scaled by `|xs| * |ys|`; the statistic is this
/// divided by `|xs| * |ys|`. The samples are walked together in key order,
/// each run of equal keys (within or across the samples) as one step.
/// Refuses an empty sample.
pub fn ks_scaled_statistic(xs: &Vec<u64>, ys: &Vec<u64>) -> (r: Result<u128, EmptyGroup>)
    ensures
        r is Err <==> xs.len() == 0 || ys.len() == 0,
        r matches Ok(d) ==> {
            &&& forall|t: u64| #[trigger] abs_int(ecdf_gap(xs@, ys@, t)) <= d
            &&& exists|t: u64| #[trigger] abs_int(ecdf_gap(xs@, ys@, t)) == d
        },
{
    if xs.len() == 0 || ys.len() == 0 {
        return Err(EmptyGroup);
    }
    let x = sorted_keys(xs);
    let y = sorted_keys(ys);
    let n1 = x.len();
    let n2 = y.len();
    proof {
        assert forall|t: u64| #[trigger] ecdf_gap(x@, y@, t) == ecdf_gap(xs@, ys@, t) by {
            assert(count_where(x@, key_at_most(t)) == count_where(xs@, key_at_most(t)));
            assert(count_where(y@, key_at_most(t)) == count_where(ys@, key_at_most(t)));
        }
        lemma_count_at_most_split(x@, n1 as int, u64::MAX);
        lemma_count_at_most_split(y@, n2 as int, u64::MAX);
        assert((n1 as int) * (n2 as int) == (n2 as int) * (n1 as int)) by (nonlinear_arith);
        assert(abs_int(ecdf_gap(x@, y@, u64::MAX)) == 0);
        assert forall|t: u64| below_frontier(x@, 0, y@, 0, t) implies #[trigger] abs_int(ecdf_gap(x@, y@, t)) <= 0 by {
            lemma_count_at_most_split(x@, 0, t);
            lemma_count_at_most_split(y@, 0, t);
        }
        assert((usize::MAX as int) * (usize::MAX as int) < u128::MAX) by (nonlinear_arith)
            requires
                usize::MAX <= u64::MAX,
        ;
        assert((n1 as int) * (n2 as int) <= (usize::MAX as int) * (usize::MAX as int)) by (nonlinear_arith)
            requires
                n1 <= usize::MAX,
                n2 <= usize::MAX,
        ;
    }
    let mut i: usize = 0;
    let mut j: usize = 0;
    let mut dmax: u128 = 0;
    let ghost mut last: u64 = 0;
    while i < n1 && j < n2
        invariant
            n1 == x.len(),
            n2 == y.len(),
            n1 > 0,
            n2 > 0,
            (n1 as int) * (n2 as int) < u128::MAX,
            ascending(x@),
            ascending(y@),
            i <= n1,
            j <= n2,
            (i == 0 && j == 0) || {
                &&& forall|a: int| 0 <= a < i ==> #[trigger] x[a] <= last
                &&& forall|a: int| i <= a < n1 ==> #[trigger] x[a] > last
                &&& forall|b: int| 0 <= b < j ==> #[trigger] y[b] <= last
                &&& forall|b: int| j <= b < n2 ==> #[trigger] y[b] > last
                &&& dmax >= abs_int(i * n2 - j * n1)
            },
            forall|t: u64| below_frontier(x@, i as int, y@, j as int, t) ==> #[trigger] abs_int(ecdf_gap(x@, y@, t)) <= dmax,
            exists|t: u64| #[trigger] abs_int(ecdf_gap(x@, y@, t)) == dmax,
        decreases (n1 - i) + (n2 - j),
    {
        let ghost (i0, j0, d0) = (i as int, j as int, dmax as int);
        let v = if x[i] <= y[j] { x[i] } else { y[j] };
        let mut ci: usize = i;
        while ci < n1 && x[ci] == v
            invariant
                n1 == x.len(),
                i <= ci <= n1,
                forall|a: int| i <= a < ci ==> #[trigger] x[a] == v,
            decreases n1 - ci,
        {
            ci = ci + 1;
        }
        let mut cj: usize = j;
        while cj < n2 && y[cj] == v
            invariant
                n2 == y.len(),
                j <= cj <= n2,
                forall|b: int| j <= b < cj ==> #[trigger] y[b] == v,
            decreases n2 - cj,
        {
            cj = cj + 1;
        }
        proof {
            assert(x[i as int] >= v && y[j as int] >= v);
            assert forall|a: int| 0 <= a < ci implies #[trigger] x[a] <= v by {
                if a < i {
                    assert(x[a] <= x[i as int]);
                }
            }
            assert forall|a: int| ci <= a < n1 implies #[trigger] x[a] > v by {
                assert(x[ci as int] >= x[i as int]);
                assert(x[a] >= x[ci as int]);
            }
            assert forall|b: int| 0 <= b < cj implies #[trigger] y[b] <= v by {
                if b < j {
                    assert(y[b] <= y[j as int]);
                }
            }
            assert forall|b: int| cj <= b < n2 implies #[trigger] y[b] > v by {
                assert(y[cj as int] >= y[j as int]);
                assert(y[b] >= y[cj as int]);
            }
            lemma_count_at_most_split(x@, ci as int, v);
            lemma_count_at_most_split(y@, cj as int, v);
            assert((ci as int) * (n2 as int) <= (n1 as int) * (n2 as int)) by (nonlinear_arith)
                requires
                    ci <= n1,
            ;
            assert((cj as int) * (n1 as int) <= (n2 as int) * (n1 as int)) by (nonlinear_arith)
                requires
                    cj <= n2,
            ;
            assert((n2 as int) * (n1 as int) == (n1 as int) * (n2 as int)) by (nonlinear_arith);
        }
        i = ci;
        j = cj;
        proof {
            last = v;
        }
        let ahead = (i as u128) * (n2 as u128);
        let behind = (j as u128) * (n1 as u128);
        let cur = if ahead >= behind { ahead - behind } else { behind - ahead };
        assert(cur == abs_int(ecdf_gap(x@, y@, v)));
        if cur > dmax {
            dmax = cur;
        }
        proof {
            assert forall|t: u64| below_frontier(x@, i as int, y@, j as int, t) implies #[trigger] abs_int(
                ecdf_gap(x@, y@, t),
            ) <= dmax by {
                if t < v {
                    assert(below_frontier(x@, i0, y@, j0, t));
                } else {
                    assert forall|a: int| 0 <= a < i implies #[trigger] x[a] <= t by {}
                    assert forall|a: int| i <= a < n1 implies #[trigger] x[a] > t by {
                        assert(x[a] >= x[i as int]);
                    }
                    assert forall|b: int| 0 <= b < j implies #[trigger] y[b] <= t by {}
                    assert forall|b: int| j <= b < n2 implies #[trigger] y[b] > t by {
                        assert(y[b] >= y[j as int]);
                    }
                    lemma_count_at_most_split(x@, i as int, t);
                    lemma_count_at_most_split(y@, j as int, t);
                }
            }
            if cur <= d0 {
                let w = choose|t: u64| #[trigger] abs_int(ecdf_gap(x@, y@, t)) == d0;
                assert(abs_int(ecdf_gap(x@, y@, w)) == dmax);
            } else {
                assert(abs_int(ecdf_gap(x@, y@, v)) == dmax);
            }
        }
    }
    proof {
        assert forall|t: u64| #[trigger] ecdf_gap(x@, y@, t) == ecdf_gap(xs@, ys@, t) by {
            assert(count_where(x@, key_at_most(t)) == count_where(xs@, key_at_most(t)));
            assert(count_where(y@, key_at_most(t)) == count_where(ys@, key_at_most(t)));
        }
        let w = choose|t: u64| #[trigger] abs_int(ecdf_gap(x@, y@, t)) == dmax;
        assert(abs_int(ecdf_gap(xs@, ys@, w)) == dmax);
        assert forall|t: u64| #[trigger] abs_int(ecdf_gap(x@, y@, t)) <= dmax by {
            if !below_frontier(x@, i as int, y@, j as int, t) {
                if i == n1 {
                    // Every key of the first sample is at most `t`; at least
                    // the walked keys of the second are.
                    assert(j < n2 && t >= y[j as int]);
                    assert forall|a: int| 0 <= a < n1 implies #[trigger] x[a] <= t by {
                        assert(x[a] <= last);
                        assert(y[j as int] > last);
                    }
                    assert forall|a: int| n1 <= a < n1 implies #[trigger] x[a] > t by {}
                    lemma_count_at_most_split(x@, n1 as int, t);
                    assert forall|b: int| 0 <= b < j implies #[trigger] key_at_most(t)(y[b]) by {
                        assert(y[b] <= last);
                    }
                    lemma_count_at_least(y@, key_at_most(t), j as int);
                    lemma_count_bounded(y@, key_at_most(t));
                    lemma_tail_gap_first_done(n1 as int, n2 as int, j as int, count_at_most(y@, t));
                } else {
                    assert(j == n2 && i < n1 && t >= x[i as int]);
                    assert forall|b: int| 0 <= b < n2 implies #[trigger] y[b] <= t by {
                        assert(y[b] <= last);
                        assert(x[i as int] > last);
                    }
                    assert forall|b: int| n2 <= b < n2 implies #[trigger] y[b] > t by {}
                    lemma_count_at_most_split(y@, n2 as int, t);
                    assert forall|a: int| 0 <= a < i implies #[trigger] key_at_most(t)(x[a]) by {
                        assert(x[a] <= last);
                    }
                    lemma_count_at_least(x@, key_at_most(t), i as int);
                    lemma_count_bounded(x@, key_at_most(t));
                    lemma_tail_gap_second_done(n1 as int, n2 as int, i as int, count_at_most(x@, t));
                }
            }
        }
    }
    proof {
        assert forall|t: u64| #[trigger] abs_int(ecdf_gap(xs@, ys@, t)) <= dmax by {
            assert(ecdf_gap(x@, y@, t) == ecdf_gap(xs@, ys@, t));
            assert(abs_int(ecdf_gap(x@, y@, t)) <= dmax);
        }
    }
    Ok(dmax)
}

} // verus!
