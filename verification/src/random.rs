//! Seeded random draws: uniform integers, Fisher-Yates shuffles and draws of
//! positions with replacement.

use rand::rngs::StdRng;
use rand::seq::SliceRandom;
use rand::{Rng, SeedableRng};
use vstd::prelude::*;

verus! {

/// The generator behind every draw: ChaCha12, seeded from a `u64`.
#[verifier::external_type_specification]
#[verifier::external_body]
pub struct ExStdRng(StdRng);

/// The generator `StdRng::seed_from_u64` builds from `seed`.
pub uninterp spec fn seeded(seed: u64) -> StdRng;

/// `StdRng::seed_from_u64`, which expands the seed deterministically into the
/// generator's key: the same seed gives the same generator. What that
/// generator then draws is not stated here.
#[verifier::external_body]
fn seed_generator(seed: u64) -> (g: StdRng)
    ensures
        g == seeded(seed),
{
    StdRng::seed_from_u64(seed)
}

/// `Rng::random_range` over `low..=high` on `i64`. The contract claims only
/// that the draw lies in the closed range, which the sampler guarantees for
/// every non-empty range; which value comes out depends on the generator.
#[verifier::external_body]
fn uniform_i64_inclusive(rng: &mut StdRng, low: i64, high: i64) -> (v: i64)
    requires
        low <= high,
    ensures
        low <= v <= high,
{
    rng.random_range(low..=high)
}

/// `Rng::random_range` over `low..=high` on `usize`, with the same claim as
/// [`uniform_i64_inclusive`].
#[verifier::external_body]
fn uniform_usize_inclusive(rng: &mut StdRng, low: usize, high: usize) -> (v: usize)
    requires
        low <= high,
    ensures
        low <= v <= high,
{
    rng.random_range(low..=high)
}

/// `<[T]>::swap`: exchanges the items at `i` and `j`.
#[verifier::external_body]
pub(crate) fn swap_positions<T>(v: &mut Vec<T>, i: usize, j: usize)
    requires
        i < old(v).len(),
        j < old(v).len(),
    ensures
        final(v)@ == old(v)@.update(i as int, old(v)@[j as int]).update(j as int, old(v)@[i as int]),
{
    v.swap(i, j)
}

/// `SliceRandom::partial_shuffle`. With `first` the length less `amount`
/// (zero when `amount` is at least the length), it exchanges, for each
/// position `i` from `first` up to the last, the item at `i` with the item at
/// a drawn position at or below `i`, and does nothing else to the slice; the
/// items are therefore kept, each as often as before. Which positions are
/// drawn depends on the generator; the two slices it returns are not used.
#[verifier::external_body]
fn partial_shuffle_in_place<T>(rng: &mut StdRng, v: &mut Vec<T>, amount: usize)
    ensures
        final(v)@.len() == old(v)@.len(),
        final(v)@.to_multiset() == old(v)@.to_multiset(),
        exists|p: Seq<usize>|
            {
                &&& p.len() == old(v)@.len()
                &&& #[trigger] picks_at_or_below_from(p, first_chosen(old(v)@.len(), amount as nat))
                &&& final(v)@ == exchanged_up(old(v)@, p, first_chosen(old(v)@.len(), amount as nat))
            },
{
    v.partial_shuffle(rng, amount);
}

/// Exchanging two items keeps the multiset of a sequence.
pub proof fn lemma_swap_keeps_multiset<T>(s: Seq<T>, i: int, j: int)
    requires
        0 <= i < s.len(),
        0 <= j < s.len(),
    ensures
        s.update(i, s[j]).update(j, s[i]).to_multiset() =~= s.to_multiset(),
{
    broadcast use vstd::multiset::group_multiset_axioms;
    broadcast use vstd::multiset::group_multiset_properties;

    let t = s.update(i, s[j]);
    let u = t.update(j, s[i]);
    assert(t.len() == s.len());
    vstd::seq_lib::to_multiset_update(s, i, s[j]);
    vstd::seq_lib::to_multiset_update(t, j, s[i]);
    if i == j {
        assert(u =~= s);
    } else {
        assert(t[j] == s[j]);
        let m = s.to_multiset();
        vstd::seq_lib::to_multiset_contains(s, s[i]);
        vstd::seq_lib::to_multiset_contains(s, s[j]);
        assert(s.contains(s[i]));
        assert(s.contains(s[j]));
        assert forall|x: T| #[trigger] u.to_multiset().count(x) == m.count(x) by {
            if x == s[i] && x == s[j] {
            } else if x == s[i] {
            } else if x == s[j] {
            } else {
            }
        }
    }
}

/// A generator seeded with `seed`: two generators made from one seed are the
/// same generator.
pub fn rng_create(seed: u64) -> (g: StdRng)
    ensures
        g == seeded(seed),
{
    seed_generator(seed)
}

/// A request for an integer from an empty range.
#[derive(Debug, Clone, Copy, PartialEq, Eq)]
pub struct MinAboveMax {
    pub min: i64,
    pub max: i64,
}

/// A uniform integer in `[min, max]`, or an error when `min > max`; a
/// refused request draws nothing and leaves the generator as it was.
pub fn rng_int(rng: &mut StdRng, min: i64, max: i64) -> (r: Result<i64, MinAboveMax>)
    ensures
        r is Err <==> min > max,
        min > max ==> *final(rng) == *old(rng),
        r matches Err(e) ==> e.min == min && e.max == max,
        r matches Ok(v) ==> min <= v <= max,
{
    if min > max {
        return Err(MinAboveMax { min, max });
    }
    Ok(uniform_i64_inclusive(rng, min, max))
}

/// `s` with the items at `a` and `b` exchanged.
pub open spec fn exchange<T>(s: Seq<T>, a: int, b: int) -> Seq<T> {
    s.update(a, s[b]).update(b, s[a])
}

/// The exchanges of Fisher-Yates below position `i`: position `i - 1` is
/// exchanged with `picks[i - 1]`, then position `i - 2` with `picks[i - 2]`,
/// and so on down to position 1.
pub open spec fn exchanges_below<T>(s: Seq<T>, picks: Seq<usize>, i: nat) -> Seq<T>
    decreases i,
{
    if i <= 1 {
        s
    } else {
        exchanges_below(exchange(s, i - 1, picks[i - 1] as int), picks, (i - 1) as nat)
    }
}

/// Fisher-Yates over `s` with the drawn positions `picks`: for `i` from the
/// last position down to 1, positions `i` and `picks[i]` are exchanged.
pub open spec fn exchanged_down<T>(s: Seq<T>, picks: Seq<usize>) -> Seq<T> {
    exchanges_below(s, picks, s.len())
}

/// Every pick `picks[i]` is a position at or below `i`.
pub open spec fn picks_at_or_below(picks: Seq<usize>) -> bool {
    forall|i: int| 0 <= i < picks.len() ==> #[trigger] picks[i] <= i
}

/// The exchanges of a partial shuffle between positions `from` and `to`:
/// position `from` is exchanged with `picks[from]`, then `from + 1` with
/// `picks[from + 1]`, and so on up to position `to - 1`.
pub open spec fn exchanges_between<T>(s: Seq<T>, picks: Seq<usize>, from: nat, to: nat) -> Seq<T>
    decreases to,
{
    if to <= from {
        s
    } else {
        exchange(exchanges_between(s, picks, from, (to - 1) as nat), to - 1, picks[to - 1] as int)
    }
}

/// The exchanges of a partial shuffle of `s` from position `from` up to the
/// last.
pub open spec fn exchanged_up<T>(s: Seq<T>, picks: Seq<usize>, from: nat) -> Seq<T> {
    exchanges_between(s, picks, from, s.len())
}

/// Every pick from position `from` on is a position at or below its own.
pub open spec fn picks_at_or_below_from(picks: Seq<usize>, from: nat) -> bool {
    forall|i: int| from <= i < picks.len() ==> #[trigger] picks[i] <= i
}

/// The first position a partial shuffle of `len` items choosing `amount` of
/// them fills: the chosen items take the last `amount` positions.
pub open spec fn first_chosen(len: nat, amount: nat) -> nat {
    if amount >= len {
        0
    } else {
        (len - amount) as nat
    }
}

/// Makes the exchanges of a Fisher-Yates shuffle whose drawn positions are
/// `picks`: for `i` from the last position down to 1, the items at `i` and
/// `picks[i]` are exchanged. The items are kept, each as often as before.
pub fn apply_exchanges<T>(values: Vec<T>, picks: &Vec<usize>) -> (r: Vec<T>)
    requires
        picks.len() == values.len(),
        picks_at_or_below(picks@),
    ensures
        r.len() == values.len(),
        r@ == exchanged_down(values@, picks@),
        r@.to_multiset() == values@.to_multiset(),
{
    let mut v = values;
    let n = v.len();
    if n == 0 {
        return v;
    }
    let mut i: usize = n - 1;
    while i > 0
        invariant
            v.len() == n,
            picks.len() == n,
            i < n,
            picks_at_or_below(picks@),
            exchanges_below(v@, picks@, (i + 1) as nat) == exchanged_down(values@, picks@),
            v@.to_multiset() == values@.to_multiset(),
        decreases i,
    {
        let j = picks[i];
        assert(j <= i);
        proof {
            lemma_swap_keeps_multiset(v@, i as int, j as int);
        }
        let ghost before = v@;
        swap_positions(&mut v, i, j);
        assert(v@ == exchange(before, i as int, j as int));
        i = i - 1;
    }
    v
}

/// Fisher-Yates shuffle: for each position from the last down to 1, draws a
/// position uniformly at or below it and exchanges the two. The result is
/// the input with those exchanges made, so it holds the same items, each as
/// often as before; which positions were drawn depends on the generator.
pub fn shuffle<T>(rng: &mut StdRng, values: Vec<T>) -> (r: Vec<T>)
    ensures
        r.len() == values.len(),
        r@.to_multiset() == values@.to_multiset(),
        exists|p: Seq<usize>|
            {
                &&& p.len() == values.len()
                &&& #[trigger] picks_at_or_below(p)
                &&& r@ == exchanged_down(values@, p)
            },
{
    let n = values.len();
    let mut picks: Vec<usize> = Vec::with_capacity(n);
    let mut k: usize = 0;
    while k < n
        invariant
            k <= n,
            picks.len() == k,
            forall|t: int| 0 <= t < k ==> #[trigger] picks[t] == 0,
        decreases n - k,
    {
        picks.push(0);
        k = k + 1;
    }
    if n > 0 {
        let mut i: usize = n - 1;
        while i > 0
            invariant
                picks.len() == n,
                i < n,
                picks_at_or_below(picks@),
            decreases i,
        {
            let j = uniform_usize_inclusive(rng, 0, i);
            picks.set(i, j);
            i = i - 1;
        }
    }
    let r = apply_exchanges(values, &picks);
    assert(picks_at_or_below(picks@));
    r
}

/// Shuffles `values` only as far as choosing `amount` of them at random: for
/// each position from the first of the last `amount` (from 0 when `amount`
/// is at least the length) up to the last, the item there is exchanged with
/// the item at a drawn position at or below it, so the chosen items end up
/// in the last `amount` positions. The items are kept, each as often as
/// before, and with `amount` zero nothing moves.
pub fn partial_shuffle<T>(rng: &mut StdRng, values: &mut Vec<T>, amount: usize)
    ensures
        final(values)@.len() == old(values)@.len(),
        final(values)@.to_multiset() == old(values)@.to_multiset(),
        exists|p: Seq<usize>|
            {
                &&& p.len() == old(values)@.len()
                &&& #[trigger] picks_at_or_below_from(p, first_chosen(old(values)@.len(), amount as nat))
                &&& final(values)@ == exchanged_up(old(values)@, p, first_chosen(old(values)@.len(), amount as nat))
            },
        amount == 0 ==> final(values)@ == old(values)@,
{
    partial_shuffle_in_place(rng, values, amount);
}

/// A request to draw from nothing.
#[derive(Debug, Clone, Copy, PartialEq, Eq)]
pub struct EmptyInput;

/// `n` positions into a sequence of `len` items, drawn uniformly and with
/// replacement; an error when there is nothing to draw from.
pub fn sample_with_replacement(rng: &mut StdRng, len: usize, n: usize) -> (r: Result<
    Vec<usize>,
    EmptyInput,
>)
    ensures
        r is Err <==> len == 0,
        r matches Ok(v) ==> v.len() == n && forall|k: int| 0 <= k < n ==> #[trigger] v[k] < len,
{
    if len == 0 {
        return Err(EmptyInput);
    }
    let mut out: Vec<usize> = Vec::with_capacity(n);
    let mut k: usize = 0;
    while k < n
        invariant
            0 < len,
            k <= n,
            out.len() == k,
            forall|t: int| 0 <= t < k ==> #[trigger] out[t] < len,
        decreases n - k,
    {
        let idx = uniform_usize_inclusive(rng, 0, len - 1);
        out.push(idx);
        k = k + 1;
    }
    Ok(out)
}

} // verus!
