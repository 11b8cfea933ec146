//! Sums over sequences, and the facts about them that the ordinal statistics
//! rest on: a sum does not depend on the order of the items, and a count of a
//! predicate that holds exactly on a stretch of positions is that stretch's
//! length.

use vstd::prelude::*;

verus! {

/// `f` summed over the items of `s`.
pub open spec fn sum_of<A>(s: Seq<A>, f: spec_fn(A) -> int) -> int
    decreases s.len(),
{
    if s.len() == 0 {
        0
    } else {
        sum_of(s.drop_last(), f) + f(s.last())
    }
}

/// The indicator of a predicate, as a summand.
pub open spec fn indicator<A>(pred: spec_fn(A) -> bool) -> spec_fn(A) -> int {
    |a: A| if pred(a) { 1int } else { 0int }
}

/// How many items of `s` satisfy `pred`.
pub open spec fn count_where<A>(s: Seq<A>, pred: spec_fn(A) -> bool) -> int {
    sum_of(s, indicator(pred))
}

/// A sum over a sequence with a prefix split off is the sum of the parts.
pub proof fn lemma_sum_append<A>(s: Seq<A>, t: Seq<A>, f: spec_fn(A) -> int)
    ensures
        sum_of(s + t, f) == sum_of(s, f) + sum_of(t, f),
    decreases t.len(),
{
    if t.len() == 0 {
        assert(s + t =~= s);
    } else {
        lemma_sum_append(s, t.drop_last(), f);
        assert((s + t).drop_last() =~= s + t.drop_last());
    }
}

/// Removing the item at `i` takes exactly its term out of the sum.
pub proof fn lemma_sum_remove<A>(s: Seq<A>, i: int, f: spec_fn(A) -> int)
    requires
        0 <= i < s.len(),
    ensures
        sum_of(s, f) == sum_of(s.remove(i), f) + f(s[i]),
    decreases s.len(),
{
    if i == s.len() - 1 {
        assert(s.remove(i) =~= s.drop_last());
    } else {
        lemma_sum_remove(s.drop_last(), i, f);
        assert(s.remove(i).drop_last() =~= s.drop_last().remove(i));
        assert(s.remove(i).last() == s.last());
    }
}

/// Two sequences holding the same items, each as often, have the same sum.
pub proof fn lemma_sum_permutation<A>(s: Seq<A>, t: Seq<A>, f: spec_fn(A) -> int)
    requires
        s.to_multiset() == t.to_multiset(),
    ensures
        sum_of(s, f) == sum_of(t, f),
    decreases s.len(),
{
    broadcast use vstd::seq_lib::group_to_multiset_ensures;
    broadcast use vstd::multiset::group_multiset_axioms;

    if s.len() == 0 {
        assert(t.to_multiset().len() == 0);
        assert(t.len() == 0);
    } else {
        let x = s.last();
        assert(s.contains(x)) by {
            assert(s[s.len() - 1] == x);
        }
        assert(t.to_multiset().count(x) > 0);
        assert(t.contains(x));
        let m = choose|m: int| 0 <= m < t.len() && t[m] == x;
        let t2 = t.remove(m);
        vstd::seq_lib::to_multiset_remove(t, m);
        assert(s.drop_last().to_multiset() =~= s.to_multiset().remove(x)) by {
            assert(s =~= s.drop_last().push(x));
        }
        lemma_sum_permutation(s.drop_last(), t2, f);
        lemma_sum_remove(t, m, f);
    }
}

/// Sums over two sequences of one length agree when the summands agree
/// position by position.
pub proof fn lemma_sum_matching<A, B>(s: Seq<A>, t: Seq<B>, f: spec_fn(A) -> int, g: spec_fn(B) -> int)
    requires
        s.len() == t.len(),
        forall|k: int| 0 <= k < s.len() ==> #[trigger] f(s[k]) == g(t[k]),
    ensures
        sum_of(s, f) == sum_of(t, g),
    decreases s.len(),
{
    if s.len() > 0 {
        let (ds, dt) = (s.drop_last(), t.drop_last());
        assert forall|k: int| 0 <= k < ds.len() implies #[trigger] f(ds[k]) == g(dt[k]) by {
            assert(ds[k] == s[k] && dt[k] == t[k]);
            assert(f(s[k]) == g(t[k]));
        }
        lemma_sum_matching(ds, dt, f, g);
        assert(f(s[s.len() - 1]) == g(t[t.len() - 1]));
    }
}

/// A sum of pointwise sums is the sum of the two sums.
pub proof fn lemma_sum_add<A>(s: Seq<A>, f: spec_fn(A) -> int, g: spec_fn(A) -> int, h: spec_fn(A) -> int)
    requires
        forall|a: A| #[trigger] h(a) == f(a) + g(a),
    ensures
        sum_of(s, h) == sum_of(s, f) + sum_of(s, g),
    decreases s.len(),
{
    if s.len() > 0 {
        lemma_sum_add(s.drop_last(), f, g, h);
        assert(h(s.last()) == f(s.last()) + g(s.last()));
    }
}

/// A constant summand `c` over `s` sums to `c` times its length.
pub proof fn lemma_sum_constant<A>(s: Seq<A>, f: spec_fn(A) -> int, c: int)
    requires
        forall|a: A| #[trigger] f(a) == c,
    ensures
        sum_of(s, f) == s.len() * c,
    decreases s.len(),
{
    if s.len() > 0 {
        lemma_sum_constant(s.drop_last(), f, c);
        assert(f(s.last()) == c);
        assert((s.len() - 1) * c + c == s.len() * c) by (nonlinear_arith);
    }
}

/// A count lies between zero and the length.
pub proof fn lemma_count_bounded<A>(s: Seq<A>, pred: spec_fn(A) -> bool)
    ensures
        0 <= count_where(s, pred) <= s.len(),
    decreases s.len(),
{
    if s.len() > 0 {
        lemma_count_bounded(s.drop_last(), pred);
    }
}

/// A predicate that holds on the first `k` positions is counted at least
/// `k` times.
pub proof fn lemma_count_at_least<A>(s: Seq<A>, pred: spec_fn(A) -> bool, k: int)
    requires
        0 <= k <= s.len(),
        forall|t: int| 0 <= t < k ==> #[trigger] pred(s[t]),
    ensures
        count_where(s, pred) >= k,
    decreases s.len(),
{
    if s.len() > 0 {
        let d = s.drop_last();
        if k == s.len() {
            assert forall|t: int| 0 <= t < k - 1 implies #[trigger] pred(d[t]) by {
                assert(d[t] == s[t]);
            }
            lemma_count_at_least(d, pred, k - 1);
            assert(pred(s[s.len() - 1]));
        } else {
            assert forall|t: int| 0 <= t < k implies #[trigger] pred(d[t]) by {
                assert(d[t] == s[t]);
            }
            lemma_count_at_least(d, pred, k);
        }
    }
}

/// A predicate that holds on positions `lo..hi` of `s` and nowhere else is
/// counted `hi - lo` times.
pub proof fn lemma_count_stretch<A>(s: Seq<A>, pred: spec_fn(A) -> bool, lo: int, hi: int)
    requires
        0 <= lo <= hi <= s.len(),
        forall|t: int| 0 <= t < s.len() ==> (#[trigger] pred(s[t]) <==> lo <= t < hi),
    ensures
        count_where(s, pred) == hi - lo,
    decreases s.len(),
{
    if s.len() > 0 {
        let d = s.drop_last();
        assert forall|t: int| 0 <= t < d.len() implies (#[trigger] pred(d[t]) <==> lo <= t < hi) by {
            assert(d[t] == s[t]);
        }
        assert(pred(s[s.len() - 1]) <==> lo <= s.len() - 1 < hi);
        if hi == s.len() && lo < hi {
            lemma_count_stretch(d, pred, lo, hi - 1);
        } else if hi == s.len() {
            lemma_count_stretch(d, pred, hi - 1, hi - 1);
        } else {
            lemma_count_stretch(d, pred, lo, hi);
        }
    }
}

} // verus!
