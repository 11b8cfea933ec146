//! Tallies of observations into a fixed number of bins.

use vstd::prelude::*;
use crate::counting::{count_where, lemma_sum_remove, sum_of};

verus! {

/// The bin a raw index lands in: indices past the last bin are held in it,
/// so the top edge of the range belongs to the last bin.
pub open spec fn clamp_to_bins(raw: usize, bins: usize) -> usize {
    if raw < bins { raw } else { (bins - 1) as usize }
}

/// Raw indices that land in bin `b`.
pub open spec fn lands_in(bins: usize, b: int) -> spec_fn(usize) -> bool {
    |raw: usize| clamp_to_bins(raw, bins) == b
}

/// The bin a raw index lands in; see [`clamp_to_bins`].
pub fn bin_of(raw: usize, bins: usize) -> (b: usize)
    requires
        bins > 0,
    ensures
        b == clamp_to_bins(raw, bins),
        b < bins,
{
    if raw < bins {
        raw
    } else {
        bins - 1
    }
}

/// The total of a sequence of counts.
pub open spec fn total(counts: Seq<u64>) -> int {
    sum_of(counts, |c: u64| c as int)
}

proof fn lemma_total_update(s: Seq<u64>, i: int, v: u64)
    requires
        0 <= i < s.len(),
    ensures
        total(s.update(i, v)) == total(s) - s[i] + v,
{
    let f = |c: u64| c as int;
    lemma_sum_remove(s, i, f);
    lemma_sum_remove(s.update(i, v), i, f);
    assert(s.update(i, v).remove(i) =~= s.remove(i));
}

proof fn lemma_total_zeros(s: Seq<u64>)
    requires
        forall|t: int| 0 <= t < s.len() ==> s[t] == 0,
    ensures
        total(s) == 0,
    decreases s.len(),
{
    if s.len() > 0 {
        lemma_total_zeros(s.drop_last());
    }
}

/// Counts the observations of each bin, given for every observation the raw
/// bin index its value maps to. Every observation lands in exactly one bin,
/// so the counts add up to the number of observations.
pub fn bin_counts(raw: &Vec<usize>, bins: usize) -> (counts: Vec<u64>)
    requires
        bins > 0,
    ensures
        counts.len() == bins,
        forall|b: int| 0 <= b < bins ==> #[trigger] counts[b] == count_where(raw@, lands_in(bins, b)),
        total(counts@) == raw.len(),
{
    let mut counts: Vec<u64> = vec![0u64; bins];
    proof {
        lemma_total_zeros(counts@);
    }
    let mut k: usize = 0;
    while k < raw.len()
        invariant
            bins > 0,
            counts.len() == bins,
            k <= raw.len(),
            forall|b: int| 0 <= b < bins ==> #[trigger] counts[b] == count_where(raw@.take(k as int), lands_in(bins, b)),
            total(counts@) == k,
        decreases raw.len() - k,
    {
        let idx = bin_of(raw[k], bins);
        assert(raw@.take(k + 1).drop_last() =~= raw@.take(k as int));
        assert(raw@.take(k + 1).last() == raw[k as int]);
        let ghost before = counts@;
        proof {
            crate::counting::lemma_count_bounded(raw@.take(k as int), lands_in(bins, idx as int));
        }
        counts.set(idx, counts[idx] + 1);
        proof {
            lemma_total_update(before, idx as int, (before[idx as int] + 1) as u64);
        }
        k = k + 1;
    }
    assert(raw@.take(raw.len() as int) =~= raw@);
    counts
}

} // verus!
