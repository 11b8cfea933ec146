//! Enumeration of every arrangement of `1..=n` by Heap's algorithm.

use vstd::prelude::*;
use crate::random::{lemma_swap_keeps_multiset, swap_positions};

verus! {

/// `n!`.
pub open spec fn factorial(n: nat) -> nat
    decreases n,
{
    if n == 0 {
        1
    } else {
        n * factorial((n - 1) as nat)
    }
}

/// The arrangement `1, 2, ..., n`.
pub open spec fn identity_arrangement(n: nat) -> Seq<usize> {
    Seq::new(n, |i: int| (i + 1) as usize)
}

/// `row` holds each of `1..=n` exactly once.
pub open spec fn is_arrangement(row: Seq<usize>, n: nat) -> bool {
    &&& row.len() == n
    &&& row.to_multiset() == identity_arrangement(n).to_multiset()
}

/// Digit `k` of `r` in the factorial number system, whose digit `k` weighs
/// `k!` and runs over `0..=k`.
pub open spec fn factorial_digit(r: nat, k: nat) -> nat {
    (r / factorial(k)) % (k + 1)
}

/// `s` with the items at `a` and `b` exchanged.
pub open spec fn exchanged(s: Seq<usize>, a: int, b: int) -> Seq<usize> {
    s.update(a, s[b]).update(b, s[a])
}

/// The exchange Heap's algorithm makes to reach row `r` from row `r - 1`:
/// at level `k`, the lowest non-zero factorial digit of `r`, position `k` is
/// exchanged with position 0 when `k` is even and with position `d - 1`,
/// `d` the digit, when `k` is odd.
pub open spec fn is_heap_step(prev: Seq<usize>, next: Seq<usize>, r: nat) -> bool {
    exists|k: nat| #[trigger] heap_step_at(prev, next, r, k)
}

/// The exchange of [`is_heap_step`] at a given level `k`.
pub open spec fn heap_step_at(prev: Seq<usize>, next: Seq<usize>, r: nat, k: nat) -> bool {
    &&& 1 <= k
    &&& forall|j: nat| 1 <= j < k ==> #[trigger] factorial_digit(r, j) == 0
    &&& factorial_digit(r, k) != 0
    &&& next == exchanged(prev, if k % 2 == 0 { 0 } else { factorial_digit(r, k) - 1 }, k as int)
}

/// Why `permutations` refused its argument.
#[derive(Debug, Clone, Copy, PartialEq, Eq)]
pub enum PermutationsError {
    /// `n` was 0: there is nothing to arrange.
    Zero,
    /// `n` was above 8: `n!` rows would be too many to return.
    TooLarge,
}

/// The counter of Heap's algorithm read as a mixed-radix number: digit `k`
/// weighs `k!`.
spec fn counter_tail(c: Seq<usize>, from: nat) -> int
    decreases c.len() - from,
{
    if from >= c.len() {
        0
    } else {
        c[from as int] * factorial(from) + counter_tail(c, from + 1)
    }
}

proof fn lemma_factorial_positive(n: nat)
    ensures
        factorial(n) >= 1,
    decreases n,
{
    if n > 0 {
        lemma_factorial_positive((n - 1) as nat);
        assert(n * factorial((n - 1) as nat) >= 1) by (nonlinear_arith)
            requires
                n >= 1,
                factorial((n - 1) as nat) >= 1,
        ;
    }
}

/// With every digit `k` at most `k`, the digits from `from` up weigh at most
/// `n! - from!`.
proof fn lemma_counter_tail_bound(c: Seq<usize>, from: nat)
    requires
        from <= c.len(),
        forall|k: int| 0 <= k < c.len() ==> #[trigger] c[k] <= k,
    ensures
        0 <= counter_tail(c, from) <= factorial(c.len()) - factorial(from),
    decreases c.len() - from,
{
    if from < c.len() {
        lemma_counter_tail_bound(c, from + 1);
        let f = factorial(from);
        let d = c[from as int];
        assert(factorial(from + 1) == (from + 1) * f);
        assert(0 <= d * f <= from * f) by (nonlinear_arith)
            requires
                0 <= d <= from,
                f >= 0,
        ;
        assert((from + 1) * f == from * f + f) by (nonlinear_arith);
    }
}

/// Changing digit `i` moves the tail from any `from <= i` by the change
/// times `i!`, and leaves a tail above `i` alone.
proof fn lemma_counter_tail_update(c: Seq<usize>, from: nat, i: int, v: usize)
    requires
        0 <= i < c.len(),
    ensures
        from <= i ==> counter_tail(c.update(i, v), from) == counter_tail(c, from) + (v - c[i])
            * factorial(i as nat),
        from > i ==> counter_tail(c.update(i, v), from) == counter_tail(c, from),
    decreases c.len() - from,
{
    let u = c.update(i, v);
    if from < c.len() {
        lemma_counter_tail_update(c, from + 1, i, v);
        if from as int == i {
            let f = factorial(from);
            assert(v * f == c[i] * f + (v - c[i]) * f) by (nonlinear_arith);
        }
    }
}

/// The counter read in Horner form from digit `k` up.
spec fn counter_horner(c: Seq<usize>, k: nat) -> int
    decreases c.len() - k,
{
    if k >= c.len() {
        0
    } else {
        c[k as int] + (k + 1) * counter_horner(c, k + 1)
    }
}

proof fn lemma_counter_horner(c: Seq<usize>, k: nat)
    ensures
        counter_tail(c, k) == factorial(k) * counter_horner(c, k),
        counter_horner(c, k) >= 0,
    decreases c.len() - k,
{
    if k < c.len() {
        lemma_counter_horner(c, k + 1);
        let f = factorial(k);
        let h = counter_horner(c, k + 1);
        let d = c[k as int] as int;
        assert(factorial(k + 1) == (k + 1) * f);
        assert(d * f + (k + 1) * f * h == f * (d + (k + 1) * h)) by (nonlinear_arith);
        assert((k + 1) * h >= 0) by (nonlinear_arith)
            requires
                h >= 0,
        ;
    }
}

/// A counter with every digit `j` at most `j` and all digits below `i` zero
/// holds its digits up to `i` as the factorial digits of its value.
proof fn lemma_counter_digits(c: Seq<usize>, i: nat, k: nat)
    requires
        1 <= k <= i < c.len(),
        forall|t: int| 0 <= t < c.len() ==> #[trigger] c[t] <= t,
        forall|t: int| 0 <= t < i ==> #[trigger] c[t] == 0,
    ensures
        factorial_digit(counter_tail(c, 0) as nat, k) == c[k as int],
{
    lemma_counter_tail_zero_prefix(c, 0, k);
    lemma_counter_horner(c, k);
    lemma_counter_horner(c, k + 1);
    lemma_factorial_positive(k);
    let f = factorial(k) as int;
    let h = counter_horner(c, k);
    let r = counter_tail(c, 0);
    assert(r == f * h);
    vstd::arithmetic::div_mod::lemma_div_multiples_vanish(h, f);
    assert(r / f == h);
    let d = c[k as int] as int;
    let h1 = counter_horner(c, k + 1);
    assert(h == (k + 1) * h1 + d);
    vstd::arithmetic::div_mod::lemma_mod_multiples_vanish(h1, d, (k + 1) as int);
    vstd::arithmetic::div_mod::lemma_small_mod(d as nat, (k + 1) as nat);
}

/// Digits below `i` that are all zero add nothing.
proof fn lemma_counter_tail_zero_prefix(c: Seq<usize>, from: nat, i: nat)
    requires
        from <= i <= c.len(),
        forall|k: int| 0 <= k < i ==> #[trigger] c[k] == 0,
    ensures
        counter_tail(c, from) == counter_tail(c, i),
    decreases i - from,
{
    if from < i {
        lemma_counter_tail_zero_prefix(c, from + 1, i);
        assert(c[from as int] * factorial(from) == 0);
    }
}

/// Position `p` of the result takes the item at position `m[p]`; positions
/// past the end of `m` keep their item.
spec fn rearranged(s: Seq<usize>, m: Seq<int>) -> Seq<usize> {
    Seq::new(s.len(), |p: int| if p < m.len() { s[m[p]] } else { s[p] })
}

/// Every entry of `m` is a position of `m`.
spec fn is_position_map(m: Seq<int>) -> bool {
    forall|p: int| 0 <= p < m.len() ==> 0 <= #[trigger] m[p] < m.len()
}

spec fn identity_map(len: nat) -> Seq<int> {
    Seq::new(len, |p: int| p)
}

/// Rearranging by `m` and then by `w`.
spec fn followed_by(m: Seq<int>, w: Seq<int>) -> Seq<int> {
    Seq::new(w.len(), |p: int| m[w[p]])
}

/// The exchange of positions `a` and `k` among `0..=k`.
spec fn exchange_map(a: int, k: int) -> Seq<int> {
    Seq::new((k + 1) as nat, |p: int| if p == a { k } else if p == k { a } else { p })
}

/// Where the sub-blocks of a level-`k` block of Heap's algorithm start,
/// relative to the start of the block, when a whole block of level `k - 1`
/// rearranges its positions by `inner`: after sub-block `m` comes the
/// exchange of position `k` with `0` (even `k`) or `m` (odd `k`).
spec fn sub_block_start(inner: Seq<int>, k: nat, m: nat) -> Seq<int>
    decreases m,
{
    if m == 0 {
        identity_map(k + 1)
    } else {
        let prev = sub_block_start(inner, k, (m - 1) as nat);
        let a = if k % 2 == 0 { 0 } else { m - 1 };
        followed_by(followed_by(prev, inner.push(k as int)), exchange_map(a, k as int))
    }
}

/// How a whole block of level `k` (its `(k + 1)!` rows) rearranges
/// positions `0..=k` from its first row to its last.
spec fn block_map(k: nat) -> Seq<int>
    decreases k,
{
    if k == 0 {
        seq![0]
    } else {
        let inner = block_map((k - 1) as nat);
        followed_by(sub_block_start(inner, k, k), inner.push(k as int))
    }
}

/// The rearrangements made by whole blocks of levels `0..=6`, worked out
/// sub-block by sub-block.
proof fn lemma_block_maps()
    ensures
        block_map(0) == seq![0int],
        block_map(1) == seq![1int, 0],
        block_map(2) == seq![2int, 1, 0],
        block_map(3) == seq![1int, 2, 3, 0],
        block_map(4) == seq![4int, 1, 2, 3, 0],
        block_map(5) == seq![3int, 4, 1, 2, 5, 0],
        block_map(6) == seq![6int, 1, 2, 3, 4, 5, 0],
{
    assert(block_map(0) =~= seq![0int]);
    assert(sub_block_start(block_map(0), 1, 0) =~= seq![0int, 1]);
    assert(sub_block_start(block_map(0), 1, 1) =~= seq![1int, 0]);
    assert(block_map(1) =~= seq![1int, 0]);
    assert(sub_block_start(block_map(1), 2, 0) =~= seq![0int, 1, 2]);
    assert(sub_block_start(block_map(1), 2, 1) =~= seq![2int, 0, 1]);
    assert(sub_block_start(block_map(1), 2, 2) =~= seq![1int, 2, 0]);
    assert(block_map(2) =~= seq![2int, 1, 0]);
    assert(sub_block_start(block_map(2), 3, 0) =~= seq![0int, 1, 2, 3]);
    assert(sub_block_start(block_map(2), 3, 1) =~= seq![3int, 1, 0, 2]);
    assert(sub_block_start(block_map(2), 3, 2) =~= seq![0int, 2, 3, 1]);
    assert(sub_block_start(block_map(2), 3, 3) =~= seq![3int, 2, 1, 0]);
    assert(block_map(3) =~= seq![1int, 2, 3, 0]);
    assert(sub_block_start(block_map(3), 4, 0) =~= seq![0int, 1, 2, 3, 4]);
    assert(sub_block_start(block_map(3), 4, 1) =~= seq![4int, 2, 3, 0, 1]);
    assert(sub_block_start(block_map(3), 4, 2) =~= seq![1int, 3, 0, 4, 2]);
    assert(sub_block_start(block_map(3), 4, 3) =~= seq![2int, 0, 4, 1, 3]);
    assert(sub_block_start(block_map(3), 4, 4) =~= seq![3int, 4, 1, 2, 0]);
    assert(block_map(4) =~= seq![4int, 1, 2, 3, 0]);
    assert(sub_block_start(block_map(4), 5, 0) =~= seq![0int, 1, 2, 3, 4, 5]);
    assert(sub_block_start(block_map(4), 5, 1) =~= seq![5int, 1, 2, 3, 0, 4]);
    assert(sub_block_start(block_map(4), 5, 2) =~= seq![0int, 4, 2, 3, 5, 1]);
    assert(sub_block_start(block_map(4), 5, 3) =~= seq![5int, 4, 1, 3, 0, 2]);
    assert(sub_block_start(block_map(4), 5, 4) =~= seq![0int, 4, 1, 2, 5, 3]);
    assert(sub_block_start(block_map(4), 5, 5) =~= seq![5int, 4, 1, 2, 3, 0]);
    assert(block_map(5) =~= seq![3int, 4, 1, 2, 5, 0]);
    assert(sub_block_start(block_map(5), 6, 0) =~= seq![0int, 1, 2, 3, 4, 5, 6]);
    assert(sub_block_start(block_map(5), 6, 1) =~= seq![6int, 4, 1, 2, 5, 0, 3]);
    assert(sub_block_start(block_map(5), 6, 2) =~= seq![3int, 5, 4, 1, 0, 6, 2]);
    assert(sub_block_start(block_map(5), 6, 3) =~= seq![2int, 0, 5, 4, 6, 3, 1]);
    assert(sub_block_start(block_map(5), 6, 4) =~= seq![1int, 6, 0, 5, 3, 2, 4]);
    assert(sub_block_start(block_map(5), 6, 5) =~= seq![4int, 3, 6, 0, 2, 1, 5]);
    assert(sub_block_start(block_map(5), 6, 6) =~= seq![5int, 2, 3, 6, 1, 4, 0]);
    assert(block_map(6) =~= seq![6int, 1, 2, 3, 4, 5, 0]);
}

/// Within a block of level `k`, each sub-block finds at position `k` an item
/// taken from a different position of the block's first row.
proof fn lemma_sub_block_tops_differ(k: nat)
    requires
        1 <= k <= 7,
    ensures
        forall|a: nat, b: nat|
            a < b <= k ==> #[trigger] sub_block_start(block_map((k - 1) as nat), k, a)[k as int]
                != #[trigger] sub_block_start(block_map((k - 1) as nat), k, b)[k as int],
{
    lemma_block_maps();
    if k == 1 {
        assert(sub_block_start(block_map(0), 1, 0) =~= seq![0int, 1]);
        assert(sub_block_start(block_map(0), 1, 1) =~= seq![1int, 0]);
    } else if k == 2 {
        assert(sub_block_start(block_map(1), 2, 0) =~= seq![0int, 1, 2]);
        assert(sub_block_start(block_map(1), 2, 1) =~= seq![2int, 0, 1]);
        assert(sub_block_start(block_map(1), 2, 2) =~= seq![1int, 2, 0]);
    } else if k == 3 {
        assert(sub_block_start(block_map(2), 3, 0) =~= seq![0int, 1, 2, 3]);
        assert(sub_block_start(block_map(2), 3, 1) =~= seq![3int, 1, 0, 2]);
        assert(sub_block_start(block_map(2), 3, 2) =~= seq![0int, 2, 3, 1]);
        assert(sub_block_start(block_map(2), 3, 3) =~= seq![3int, 2, 1, 0]);
    } else if k == 4 {
        assert(sub_block_start(block_map(3), 4, 0) =~= seq![0int, 1, 2, 3, 4]);
        assert(sub_block_start(block_map(3), 4, 1) =~= seq![4int, 2, 3, 0, 1]);
        assert(sub_block_start(block_map(3), 4, 2) =~= seq![1int, 3, 0, 4, 2]);
        assert(sub_block_start(block_map(3), 4, 3) =~= seq![2int, 0, 4, 1, 3]);
        assert(sub_block_start(block_map(3), 4, 4) =~= seq![3int, 4, 1, 2, 0]);
    } else if k == 5 {
        assert(sub_block_start(block_map(4), 5, 0) =~= seq![0int, 1, 2, 3, 4, 5]);
        assert(sub_block_start(block_map(4), 5, 1) =~= seq![5int, 1, 2, 3, 0, 4]);
        assert(sub_block_start(block_map(4), 5, 2) =~= seq![0int, 4, 2, 3, 5, 1]);
        assert(sub_block_start(block_map(4), 5, 3) =~= seq![5int, 4, 1, 3, 0, 2]);
        assert(sub_block_start(block_map(4), 5, 4) =~= seq![0int, 4, 1, 2, 5, 3]);
        assert(sub_block_start(block_map(4), 5, 5) =~= seq![5int, 4, 1, 2, 3, 0]);
    } else if k == 6 {
        assert(sub_block_start(block_map(5), 6, 0) =~= seq![0int, 1, 2, 3, 4, 5, 6]);
        assert(sub_block_start(block_map(5), 6, 1) =~= seq![6int, 4, 1, 2, 5, 0, 3]);
        assert(sub_block_start(block_map(5), 6, 2) =~= seq![3int, 5, 4, 1, 0, 6, 2]);
        assert(sub_block_start(block_map(5), 6, 3) =~= seq![2int, 0, 5, 4, 6, 3, 1]);
        assert(sub_block_start(block_map(5), 6, 4) =~= seq![1int, 6, 0, 5, 3, 2, 4]);
        assert(sub_block_start(block_map(5), 6, 5) =~= seq![4int, 3, 6, 0, 2, 1, 5]);
        assert(sub_block_start(block_map(5), 6, 6) =~= seq![5int, 2, 3, 6, 1, 4, 0]);
    } else if k == 7 {
        assert(sub_block_start(block_map(6), 7, 0) =~= seq![0int, 1, 2, 3, 4, 5, 6, 7]);
        assert(sub_block_start(block_map(6), 7, 1) =~= seq![7int, 1, 2, 3, 4, 5, 0, 6]);
        assert(sub_block_start(block_map(6), 7, 2) =~= seq![0int, 6, 2, 3, 4, 5, 7, 1]);
        assert(sub_block_start(block_map(6), 7, 3) =~= seq![7int, 6, 1, 3, 4, 5, 0, 2]);
        assert(sub_block_start(block_map(6), 7, 4) =~= seq![0int, 6, 1, 2, 4, 5, 7, 3]);
        assert(sub_block_start(block_map(6), 7, 5) =~= seq![7int, 6, 1, 2, 3, 5, 0, 4]);
        assert(sub_block_start(block_map(6), 7, 6) =~= seq![0int, 6, 1, 2, 3, 4, 7, 5]);
        assert(sub_block_start(block_map(6), 7, 7) =~= seq![7int, 6, 1, 2, 3, 4, 5, 0]);
    }
    assert forall|a: nat, b: nat| a < b <= k implies #[trigger] sub_block_start(block_map((k - 1) as nat), k, a)[k as int]
        != #[trigger] sub_block_start(block_map((k - 1) as nat), k, b)[k as int] by {
        assert(a == 0 || a == 1 || a == 2 || a == 3 || a == 4 || a == 5 || a == 6);
        assert(b == 1 || b == 2 || b == 3 || b == 4 || b == 5 || b == 6 || b == 7);
    }
}

/// `t` has the length of `s` and agrees with it at every position past `k`.
spec fn same_above(s: Seq<usize>, t: Seq<usize>, k: nat) -> bool {
    &&& t.len() == s.len()
    &&& forall|p: int| k < p < s.len() ==> #[trigger] t[p] == s[p]
}

/// Consecutive rows follow the exchanges of Heap's algorithm.
spec fn follows_heap_steps(rows: Seq<Seq<usize>>) -> bool {
    forall|r: int| 1 <= r < rows.len() ==> is_heap_step(rows[r - 1], #[trigger] rows[r], r as nat)
}

/// Row where sub-block `i` of size `(j + 1)!` starts, counted from `base`.
spec fn sub_block_base(base: int, j: nat, i: int) -> int {
    base + i * factorial(j + 1)
}

/// The sub-block of size `(j + 1)!` that holds row `r`, counted from `base`.
spec fn sub_block_of(base: int, j: nat, r: int) -> int {
    (r - base) / (factorial(j + 1) as int)
}

/// The `(k + 1)!` rows from `base` form a block of level `k`: its last row
/// is its first rearranged by `block_map(k)`, no row touches a position past
/// `k`, and no two rows are equal.
spec fn runs_block(rows: Seq<Seq<usize>>, k: nat, base: int) -> bool {
    &&& rows[base + factorial(k + 1) - 1] == rearranged(rows[base], block_map(k))
    &&& forall|r: int| base <= r < base + factorial(k + 1) ==> same_above(rows[base], #[trigger] rows[r], k)
    &&& forall|r1: int, r2: int|
        base <= r1 < r2 < base + factorial(k + 1) ==> #[trigger] rows[r1] != #[trigger] rows[r2]
}

proof fn lemma_followed_by_map(m: Seq<int>, w: Seq<int>)
    requires
        is_position_map(m),
        is_position_map(w),
        m.len() == w.len(),
    ensures
        is_position_map(followed_by(m, w)),
        followed_by(m, w).len() == w.len(),
{
    assert forall|p: int| 0 <= p < w.len() implies 0 <= #[trigger] followed_by(m, w)[p] < w.len() by {
        assert(0 <= w[p] < w.len());
    }
}

/// Appending `k` to a map of `0..k` makes a map of `0..=k` that leaves `k`.
proof fn lemma_lifted_map(inner: Seq<int>, k: nat)
    requires
        is_position_map(inner),
        inner.len() == k,
    ensures
        is_position_map(inner.push(k as int)),
{
    let lifted = inner.push(k as int);
    assert forall|p: int| 0 <= p < lifted.len() implies 0 <= #[trigger] lifted[p] < lifted.len() by {
        if p < k {
            assert(lifted[p] == inner[p]);
        }
    }
}

proof fn lemma_sub_block_start_map(inner: Seq<int>, k: nat, m: nat)
    requires
        is_position_map(inner),
        inner.len() == k,
        m <= k,
    ensures
        is_position_map(sub_block_start(inner, k, m)),
        sub_block_start(inner, k, m).len() == k + 1,
    decreases m,
{
    if m == 0 {
        let id = identity_map(k + 1);
        assert forall|p: int| 0 <= p < id.len() implies 0 <= #[trigger] id[p] < id.len() by {}
    } else {
        lemma_sub_block_start_map(inner, k, (m - 1) as nat);
        lemma_lifted_map(inner, k);
        let prev = sub_block_start(inner, k, (m - 1) as nat);
        let a: int = if k % 2 == 0 { 0 } else { m - 1 };
        let e = exchange_map(a, k as int);
        assert forall|p: int| 0 <= p < e.len() implies 0 <= #[trigger] e[p] < e.len() by {}
        lemma_followed_by_map(prev, inner.push(k as int));
        lemma_followed_by_map(followed_by(prev, inner.push(k as int)), e);
    }
}

proof fn lemma_block_map_map(k: nat)
    ensures
        is_position_map(block_map(k)),
        block_map(k).len() == k + 1,
    decreases k,
{
    if k == 0 {
        assert(block_map(0)[0] == 0);
    } else {
        let inner = block_map((k - 1) as nat);
        lemma_block_map_map((k - 1) as nat);
        lemma_sub_block_start_map(inner, k, k);
        lemma_lifted_map(inner, k);
        lemma_followed_by_map(sub_block_start(inner, k, k), inner.push(k as int));
    }
}

proof fn lemma_rearranged_followed_by(s: Seq<usize>, m: Seq<int>, w: Seq<int>)
    requires
        is_position_map(m),
        is_position_map(w),
        m.len() == w.len(),
        w.len() <= s.len(),
    ensures
        rearranged(rearranged(s, m), w) == rearranged(s, followed_by(m, w)),
{
    let lhs = rearranged(rearranged(s, m), w);
    let rhs = rearranged(s, followed_by(m, w));
    assert forall|p: int| 0 <= p < s.len() implies lhs[p] == rhs[p] by {
        if p < w.len() {
            assert(0 <= w[p] < m.len());
        }
    }
    assert(lhs =~= rhs);
}

proof fn lemma_rearranged_identity(s: Seq<usize>, len: nat)
    requires
        len <= s.len(),
    ensures
        rearranged(s, identity_map(len)) == s,
{
    assert(rearranged(s, identity_map(len)) =~= s);
}

proof fn lemma_rearranged_lifted(s: Seq<usize>, inner: Seq<int>, k: nat)
    requires
        inner.len() == k,
        k < s.len(),
    ensures
        rearranged(s, inner.push(k as int)) == rearranged(s, inner),
{
    assert(rearranged(s, inner.push(k as int)) =~= rearranged(s, inner));
}

proof fn lemma_exchanged_rearranged(s: Seq<usize>, a: int, k: int)
    requires
        0 <= a < k < s.len(),
    ensures
        exchanged(s, a, k) == rearranged(s, exchange_map(a, k)),
{
    assert(exchanged(s, a, k) =~= rearranged(s, exchange_map(a, k)));
}

/// `j! * (j + 1)` divides `k!` when `j < k`.
proof fn lemma_factorial_divides(j: nat, k: nat) -> (c: nat)
    requires
        j < k,
    ensures
        factorial(k) == factorial(j) * (j + 1) * c,
    decreases k - j,
{
    if j + 1 == k {
        assert(factorial(k) == factorial(j) * (j + 1) * 1) by (nonlinear_arith)
            requires
                factorial(k) == k * factorial(j),
                k == j + 1,
        ;
        1
    } else {
        let c0 = lemma_factorial_divides(j, (k - 1) as nat);
        assert(factorial(k) == factorial(j) * (j + 1) * (k * c0)) by (nonlinear_arith)
            requires
                factorial(k) == k * factorial((k - 1) as nat),
                factorial((k - 1) as nat) == factorial(j) * (j + 1) * c0,
        ;
        k * c0
    }
}

/// The row that opens sub-block `m` of a level-`k` block, `m >= 1`, has all
/// factorial digits below `k` zero and digit `k` equal to `m`.
proof fn lemma_sub_block_boundary_digits(base: int, k: nat, m: int)
    requires
        1 <= k,
        1 <= m <= k,
        0 <= base,
        base % (factorial(k + 1) as int) == 0,
    ensures
        forall|i: nat| 1 <= i < k ==> #[trigger] factorial_digit((base + m * factorial(k)) as nat, i) == 0,
        factorial_digit((base + m * factorial(k)) as nat, k) == m,
{
    let f = factorial(k) as int;
    let big = factorial(k + 1) as int;
    lemma_factorial_positive(k);
    lemma_factorial_positive(k + 1);
    assert(big == (k + 1) * f);
    let q = base / big;
    vstd::arithmetic::div_mod::lemma_fundamental_div_mod(base, big);
    vstd::arithmetic::div_mod::lemma_div_pos_is_pos(base, big);
    let quot = (k + 1) * q + m;
    let r = base + m * f;
    assert(r == f * quot) by (nonlinear_arith)
        requires
            base == big * q + 0,
            big == (k + 1) * f,
            r == base + m * f,
            quot == (k + 1) * q + m,
    ;
    assert(quot >= 0) by (nonlinear_arith)
        requires
            q >= 0,
            m >= 1,
            quot == (k + 1) * q + m,
    ;
    vstd::arithmetic::div_mod::lemma_div_multiples_vanish(quot, f);
    assert(r / f == quot);
    vstd::arithmetic::div_mod::lemma_mod_multiples_vanish(q, m, (k + 1) as int);
    vstd::arithmetic::div_mod::lemma_small_mod(m as nat, (k + 1) as nat);
    assert(quot % ((k + 1) as int) == m);
    assert forall|i: nat| 1 <= i < k implies #[trigger] factorial_digit(r as nat, i) == 0 by {
        let c = lemma_factorial_divides(i, k);
        let fi = factorial(i) as int;
        lemma_factorial_positive(i);
        let x = c * quot;
        assert(r == fi * ((i + 1) * x)) by (nonlinear_arith)
            requires
                r == f * quot,
                f == fi * (i + 1) * c,
                x == c * quot,
        ;
        assert((i + 1) * x >= 0) by (nonlinear_arith)
            requires
                c >= 0,
                quot >= 0,
                x == c * quot,
        ;
        vstd::arithmetic::div_mod::lemma_div_multiples_vanish((i + 1) * x, fi);
        assert(x * (i + 1) == (i + 1) * x) by (nonlinear_arith);
        vstd::arithmetic::div_mod::lemma_mod_multiples_basic(x, (i + 1) as int);
    }
}

/// A heap step whose row has its lowest non-zero factorial digit at `k`
/// exchanges position `k`.
proof fn lemma_heap_step_at_level(prev: Seq<usize>, next: Seq<usize>, r: nat, k: nat)
    requires
        is_heap_step(prev, next, r),
        1 <= k,
        forall|i: nat| 1 <= i < k ==> #[trigger] factorial_digit(r, i) == 0,
        factorial_digit(r, k) != 0,
    ensures
        heap_step_at(prev, next, r, k),
{
    let w = choose|w: nat| #[trigger] heap_step_at(prev, next, r, w);
    if w < k {
        assert(factorial_digit(r, w) == 0);
    } else if w > k {
        assert(factorial_digit(r, k) == 0);
    }
}

/// Each sub-block of a level-`j + 1` block starts from the block's first row
/// rearranged by `sub_block_start`.
proof fn lemma_sub_block_starts(rows: Seq<Seq<usize>>, n: nat, j: nat, base: int, m: int)
    requires
        j + 1 < n,
        0 <= m <= j + 1,
        0 <= base,
        base % (factorial(j + 2) as int) == 0,
        base + factorial(j + 2) <= rows.len(),
        follows_heap_steps(rows),
        forall|r: int| 0 <= r < rows.len() ==> (#[trigger] rows[r]).len() == n,
        forall|i: int| 0 <= i <= j + 1 ==> #[trigger] runs_block(rows, j, sub_block_base(base, j, i)),
    ensures
        rows[sub_block_base(base, j, m)] == rearranged(rows[base], sub_block_start(block_map(j), j + 1, m as nat)),
    decreases m,
{
    let k = j + 1;
    let inner = block_map(j);
    lemma_block_map_map(j);
    lemma_factorial_positive(k);
    lemma_factorial_positive(k + 1);
    if m == 0 {
        assert(sub_block_base(base, j, 0) == base);
        lemma_rearranged_identity(rows[base], k + 1);
    } else {
        lemma_sub_block_starts(rows, n, j, base, m - 1);
        let f = factorial(k) as int;
        let prev_base = sub_block_base(base, j, m - 1);
        let r = sub_block_base(base, j, m);
        assert(r == prev_base + f) by (nonlinear_arith)
            requires
                prev_base == base + (m - 1) * f,
                r == base + m * f,
        ;
        assert(runs_block(rows, j, prev_base));
        assert(0 <= prev_base) by (nonlinear_arith)
            requires
                prev_base == base + (m - 1) * f,
                base >= 0,
                m >= 1,
                f >= 1,
        ;
        assert(r + f <= base + factorial(k + 1)) by (nonlinear_arith)
            requires
                r == base + m * f,
                m <= k,
                factorial(k + 1) == (k + 1) * f,
        ;
        let before = rows[r - 1];
        assert(before == rearranged(rows[prev_base], inner));
        assert(is_heap_step(rows[r - 1], rows[r], r as nat));
        lemma_sub_block_boundary_digits(base, k, m);
        lemma_heap_step_at_level(rows[r - 1], rows[r], r as nat, k);
        let a: int = if k % 2 == 0 { 0 } else { m - 1 };
        assert(rows[r] == exchanged(before, a, k as int));
        lemma_exchanged_rearranged(before, a, k as int);
        let prev_map = sub_block_start(inner, k, (m - 1) as nat);
        lemma_sub_block_start_map(inner, k, (m - 1) as nat);
        lemma_lifted_map(inner, k);
        let lifted = inner.push(k as int);
        lemma_rearranged_lifted(rows[prev_base], inner, k);
        lemma_rearranged_followed_by(rows[base], prev_map, lifted);
        lemma_followed_by_map(prev_map, lifted);
        let e = exchange_map(a, k as int);
        assert forall|p: int| 0 <= p < e.len() implies 0 <= #[trigger] e[p] < e.len() by {}
        lemma_rearranged_followed_by(rows[base], followed_by(prev_map, lifted), e);
    }
}

/// The sub-blocks of the level-`j + 1` block at `base` each run as a block of
/// level `j`, and each starts from the block's first row rearranged by
/// `sub_block_start`.
spec fn sub_blocks_run(rows: Seq<Seq<usize>>, j: nat, base: int) -> bool {
    forall|i: int|
        0 <= i <= j + 1 ==> {
            &&& runs_block(rows, j, #[trigger] sub_block_base(base, j, i))
            &&& rows[sub_block_base(base, j, i)] == rearranged(
                rows[base],
                sub_block_start(block_map(j), j + 1, i as nat),
            )
        }
}

/// The conditions under which a level-`k` block at `base` is looked at.
spec fn block_in_rows(rows: Seq<Seq<usize>>, n: nat, k: nat, base: int) -> bool {
    &&& k < n
    &&& 0 <= base
    &&& base % (factorial(k + 1) as int) == 0
    &&& base + factorial(k + 1) <= rows.len()
    &&& follows_heap_steps(rows)
    &&& forall|r: int| 0 <= r < rows.len() ==> (#[trigger] rows[r]).len() == n
    &&& forall|r: int| 0 <= r < rows.len() ==> (#[trigger] rows[r]).no_duplicates()
}

/// Row `r` of a level-`j + 1` block lies in sub-block `sub_block_of(base, j, r)`.
proof fn lemma_sub_block_location(base: int, j: nat, r: int)
    requires
        base <= r < base + factorial(j + 2),
    ensures
        0 <= sub_block_of(base, j, r) <= j + 1,
        sub_block_base(base, j, sub_block_of(base, j, r)) <= r,
        r < sub_block_base(base, j, sub_block_of(base, j, r)) + factorial(j + 1),
{
    let k = j + 1;
    let f = factorial(k) as int;
    let big = factorial(k + 1) as int;
    lemma_factorial_positive(k);
    assert(big == (k + 1) * f);
    let i = (r - base) / f;
    vstd::arithmetic::div_mod::lemma_fundamental_div_mod(r - base, f);
    vstd::arithmetic::div_mod::lemma_mod_pos_bound(r - base, f);
    vstd::arithmetic::div_mod::lemma_div_pos_is_pos(r - base, f);
    let u = (r - base) % f;
    assert(i <= k) by (nonlinear_arith)
        requires
            r - base == f * i + u,
            0 <= u,
            r - base < big,
            big == (k + 1) * f,
            f >= 1,
    ;
    assert(i * f == f * i) by (nonlinear_arith);
}

/// The last row of a block is its first rearranged by `block_map`.
proof fn lemma_block_last_row(rows: Seq<Seq<usize>>, n: nat, j: nat, base: int)
    requires
        block_in_rows(rows, n, j + 1, base),
        sub_blocks_run(rows, j, base),
    ensures
        rows[base + factorial(j + 2) - 1] == rearranged(rows[base], block_map(j + 1)),
{
    let k = j + 1;
    let f = factorial(k) as int;
    let big = factorial(k + 1) as int;
    assert(big == (k + 1) * f);
    let inner = block_map(j);
    lemma_block_map_map(j);
    lemma_lifted_map(inner, k);
    lemma_sub_block_start_map(inner, k, k);
    lemma_factorial_positive(k);
    let last_base = sub_block_base(base, j, k as int);
    assert(last_base + f - 1 == base + big - 1 && base <= last_base) by (nonlinear_arith)
        requires
            last_base == base + k * f,
            big == (k + 1) * f,
            f >= 1,
    ;
    assert(rows[last_base].len() == n && rows[base].len() == n);
    assert(runs_block(rows, j, last_base));
    let last_start = sub_block_start(inner, k, k);
    assert(rows[last_base] == rearranged(rows[base], last_start));
    lemma_rearranged_lifted(rows[last_base], inner, k);
    lemma_rearranged_followed_by(rows[base], last_start, inner.push(k as int));
}

/// No row of a block touches a position past the block's level.
proof fn lemma_block_keeps_above(rows: Seq<Seq<usize>>, n: nat, j: nat, base: int, r: int)
    requires
        block_in_rows(rows, n, j + 1, base),
        sub_blocks_run(rows, j, base),
        base <= r < base + factorial(j + 2),
    ensures
        same_above(rows[base], rows[r], j + 1),
{
    let k = j + 1;
    lemma_sub_block_location(base, j, r);
    let i = sub_block_of(base, j, r);
    let b = sub_block_base(base, j, i);
    assert(runs_block(rows, j, b));
    assert(same_above(rows[b], rows[r], j));
    let start = sub_block_start(block_map(j), k, i as nat);
    lemma_block_map_map(j);
    lemma_sub_block_start_map(block_map(j), k, i as nat);
    assert(rows[b] == rearranged(rows[base], start));
}

/// Two rows of a block are never equal.
proof fn lemma_block_rows_differ(rows: Seq<Seq<usize>>, n: nat, j: nat, base: int, r1: int, r2: int)
    requires
        block_in_rows(rows, n, j + 1, base),
        sub_blocks_run(rows, j, base),
        j + 1 <= 7,
        base <= r1 < r2 < base + factorial(j + 2),
    ensures
        rows[r1] != rows[r2],
{
    let k = j + 1;
    let f = factorial(k) as int;
    lemma_factorial_positive(k);
    lemma_sub_block_location(base, j, r1);
    lemma_sub_block_location(base, j, r2);
    let i1 = sub_block_of(base, j, r1);
    let i2 = sub_block_of(base, j, r2);
    let b1 = sub_block_base(base, j, i1);
    let b2 = sub_block_base(base, j, i2);
    assert(i1 <= i2) by (nonlinear_arith)
        requires
            b1 == base + i1 * f,
            b2 == base + i2 * f,
            b1 <= r1 < b1 + f,
            b2 <= r2 < b2 + f,
            r1 < r2,
            f >= 1,
    ;
    assert(runs_block(rows, j, b1));
    assert(runs_block(rows, j, b2));
    if i1 < i2 {
        let inner = block_map(j);
        lemma_block_map_map(j);
        lemma_sub_block_tops_differ(k);
        let s1 = sub_block_start(inner, k, i1 as nat);
        let s2 = sub_block_start(inner, k, i2 as nat);
        lemma_sub_block_start_map(inner, k, i1 as nat);
        lemma_sub_block_start_map(inner, k, i2 as nat);
        assert(s1[k as int] != s2[k as int]);
        assert(same_above(rows[b1], rows[r1], j));
        assert(same_above(rows[b2], rows[r2], j));
        assert(rows[r1][k as int] == rows[b1][k as int]);
        assert(rows[r2][k as int] == rows[b2][k as int]);
        assert(rows[b1] == rearranged(rows[base], s1));
        assert(rows[b2] == rearranged(rows[base], s2));
        assert(0 <= s1[k as int] <= k && 0 <= s2[k as int] <= k);
        assert(rows[b1][k as int] == rows[base][s1[k as int]]);
        assert(rows[b2][k as int] == rows[base][s2[k as int]]);
        assert(rows[base].no_duplicates());
    } else {
        assert(b1 == b2);
    }
}

/// Every block of level `k <= 7` of rows that follow Heap's exchanges, from
/// rows without repeated items, runs as [`runs_block`] says.
proof fn lemma_heap_block(rows: Seq<Seq<usize>>, n: nat, k: nat, base: int)
    requires
        block_in_rows(rows, n, k, base),
        k <= 7,
    ensures
        runs_block(rows, k, base),
    decreases k,
{
    lemma_factorial_positive(k);
    lemma_factorial_positive(k + 1);
    if k == 0 {
        assert(factorial(1) == 1 * factorial(0));
        assert(rearranged(rows[base], block_map(0)) =~= rows[base]);
    } else {
        let j = (k - 1) as nat;
        let f = factorial(k) as int;
        let big = factorial(k + 1) as int;
        assert(big == (k + 1) * f);
        assert(factorial(j + 1) == f);
        let q = base / big;
        vstd::arithmetic::div_mod::lemma_fundamental_div_mod(base, big);
        vstd::arithmetic::div_mod::lemma_div_pos_is_pos(base, big);
        assert forall|i: int| 0 <= i <= k implies #[trigger] runs_block(rows, j, sub_block_base(base, j, i)) by {
            let b = sub_block_base(base, j, i);
            let x = (k + 1) * q + i;
            assert(b == x * f) by (nonlinear_arith)
                requires
                    b == base + i * f,
                    base == big * q + 0,
                    big == (k + 1) * f,
                    x == (k + 1) * q + i,
            ;
            vstd::arithmetic::div_mod::lemma_mod_multiples_basic(x, f);
            assert(0 <= b && b + f <= base + big) by (nonlinear_arith)
                requires
                    b == base + i * f,
                    0 <= i <= k,
                    big == (k + 1) * f,
                    f >= 1,
                    base >= 0,
            ;
            lemma_heap_block(rows, n, j, b);
        }
        assert forall|i: int| 0 <= i <= k implies #[trigger] rows[sub_block_base(base, j, i)] == rearranged(
            rows[base],
            sub_block_start(block_map(j), k, i as nat),
        ) by {
            lemma_sub_block_starts(rows, n, j, base, i);
        }
        assert(sub_blocks_run(rows, j, base));
        lemma_block_last_row(rows, n, j, base);
        assert forall|r: int| base <= r < base + big implies same_above(rows[base], #[trigger] rows[r], k) by {
            lemma_block_keeps_above(rows, n, j, base, r);
        }
        assert forall|r1: int, r2: int| base <= r1 < r2 < base + big implies #[trigger] rows[r1]
            != #[trigger] rows[r2] by {
            lemma_block_rows_differ(rows, n, j, base, r1, r2);
        }
    }
}

/// An arrangement of `1..=n` repeats no item.
proof fn lemma_arrangement_no_duplicates(row: Seq<usize>, n: nat)
    requires
        is_arrangement(row, n),
        n <= usize::MAX,
    ensures
        row.no_duplicates(),
{
    let ident = identity_arrangement(n);
    assert forall|a: int, b: int| 0 <= a < ident.len() && 0 <= b < ident.len() && a != b implies ident[a]
        != ident[b] by {
        assert(ident[a] == a + 1 && ident[b] == b + 1);
    }
    ident.lemma_multiset_has_no_duplicates();
    row.lemma_multiset_has_no_duplicates_conv();
}

/// The `n!` rows of Heap's algorithm over `1..=n`, `n <= 8`, are pairwise
/// different.
proof fn lemma_heap_rows_differ(rows: Seq<Seq<usize>>, n: nat)
    requires
        1 <= n <= 8,
        rows.len() == factorial(n),
        follows_heap_steps(rows),
        forall|r: int| 0 <= r < rows.len() ==> is_arrangement(#[trigger] rows[r], n),
    ensures
        forall|a: int, b: int| 0 <= a < b < rows.len() ==> #[trigger] rows[a] != #[trigger] rows[b],
{
    assert forall|r: int| 0 <= r < rows.len() implies (#[trigger] rows[r]).no_duplicates() by {
        lemma_arrangement_no_duplicates(rows[r], n);
    }
    let k = (n - 1) as nat;
    assert(k + 1 == n);
    assert(0int % (factorial(n) as int) == 0) by {
        lemma_factorial_positive(n);
    }
    lemma_heap_block(rows, n, k, 0);
}

/// Every arrangement of `1..=n`, generated by Heap's algorithm: each row
/// after the first differs from the one before it by a single exchange.
/// Refuses `n == 0` and `n > 8`.
pub fn permutations(n: usize) -> (r: Result<Vec<Vec<usize>>, PermutationsError>)
    ensures
        r == Err::<Vec<Vec<usize>>, _>(PermutationsError::Zero) <==> n == 0,
        r == Err::<Vec<Vec<usize>>, _>(PermutationsError::TooLarge) <==> n > 8,
        r matches Ok(rows) ==> {
            &&& rows.len() == factorial(n as nat)
            &&& rows[0]@ == identity_arrangement(n as nat)
            &&& forall|k: int| 0 <= k < rows.len() ==> is_arrangement(#[trigger] rows[k]@, n as nat)
            &&& forall|k: int| 1 <= k < rows.len() ==> is_heap_step(rows[k - 1]@, #[trigger] rows[k]@, k as nat)
            &&& forall|a: int, b: int| 0 <= a < b < rows.len() ==> #[trigger] rows[a]@ != #[trigger] rows[b]@
        },
{
    if n == 0 {
        return Err(PermutationsError::Zero);
    }
    if n > 8 {
        return Err(PermutationsError::TooLarge);
    }
    let ghost ident = identity_arrangement(n as nat);

    let mut arr: Vec<usize> = Vec::with_capacity(n);
    let mut c: Vec<usize> = Vec::with_capacity(n);
    let mut k: usize = 0;
    while k < n
        invariant
            1 <= n <= 8,
            k <= n,
            arr.len() == k,
            c.len() == k,
            ident == identity_arrangement(n as nat),
            forall|t: int| 0 <= t < k ==> #[trigger] arr[t] == ident[t],
            forall|t: int| 0 <= t < k ==> #[trigger] c[t] == 0,
        decreases n - k,
    {
        arr.push(k + 1);
        c.push(0);
        k = k + 1;
    }
    assert(arr@ =~= ident);

    let mut result: Vec<Vec<usize>> = Vec::new();
    let first = arr.clone();
    assert(first@ =~= arr@);
    result.push(first);

    let mut i: usize = 0;
    proof {
        lemma_counter_tail_zero_prefix(c@, 0, n as nat);
        lemma_factorial_positive(n as nat);
    }
    while i < n
        invariant
            1 <= n <= 8,
            i <= n,
            arr.len() == n,
            c.len() == n,
            ident == identity_arrangement(n as nat),
            arr@.to_multiset() == ident.to_multiset(),
            forall|t: int| 0 <= t < n ==> #[trigger] c[t] <= t,
            forall|t: int| 0 <= t < i ==> #[trigger] c[t] == 0,
            result.len() == factorial(i as nat) + counter_tail(c@, i as nat),
            result[0]@ == ident,
            forall|t: int| 0 <= t < result.len() ==> is_arrangement(#[trigger] result[t]@, n as nat),
            result[result.len() - 1]@ == arr@,
            forall|t: int| 1 <= t < result.len() ==> is_heap_step(result[t - 1]@, #[trigger] result[t]@, t as nat),
        decreases factorial(n as nat) - result.len(), n - i,
    {
        proof {
            lemma_counter_tail_bound(c@, i as nat);
            lemma_factorial_positive(i as nat);
        }
        if c[i] < i {
            let ci = c[i];
            let j: usize = if i % 2 == 0 { 0 } else { ci };
            let ghost prev = arr@;
            let ghost r = result.len();
            proof {
                lemma_swap_keeps_multiset(arr@, j as int, i as int);
            }
            swap_positions(&mut arr, j, i);
            let row = arr.clone();
            assert(row@ =~= arr@);
            let ghost before = c@;
            c.set(i, ci + 1);
            proof {
                lemma_counter_tail_update(before, i as nat, i as int, (ci + 1) as usize);
                lemma_counter_tail_update(before, 0, i as int, (ci + 1) as usize);
                lemma_counter_tail_zero_prefix(c@, 0, i as nat);
                lemma_counter_tail_bound(c@, 0);
                assert(c@ == before.update(i as int, (ci + 1) as usize));
                assert(before[i as int] == ci);
                let fi = factorial(i as nat);
                let step: int = ((ci + 1) as usize) - before[i as int];
                assert(step == 1);
                assert(step * fi == fi) by (nonlinear_arith)
                    requires
                        step == 1,
                ;
                assert(counter_tail(c@, i as nat) == counter_tail(before, i as nat) + fi);
                assert(counter_tail(c@, 0) == counter_tail(c@, i as nat));
                assert(counter_tail(c@, 0) == r);
                assert forall|t: nat| 1 <= t <= i implies #[trigger] factorial_digit(r as nat, t) == c[t as int] by {
                    lemma_counter_digits(c@, i as nat, t);
                }
                assert(factorial_digit(r as nat, i as nat) == ci + 1);
                assert(forall|t: nat| 1 <= t < i ==> #[trigger] factorial_digit(r as nat, t) == 0);
                assert(arr@ == exchanged(prev, j as int, i as int));
                assert(heap_step_at(prev, row@, r as nat, i as nat));
            }
            result.push(row);
            i = 0;
        } else {
            let ghost before = c@;
            c.set(i, 0);
            proof {
                lemma_counter_tail_update(before, (i + 1) as nat, i as int, 0);
                let f = factorial(i as nat);
                assert(factorial((i + 1) as nat) == (i + 1) * f);
                assert((i + 1) * f == f + i * f) by (nonlinear_arith);
            }
            i = i + 1;
        }
    }
    proof {
        lemma_counter_tail_zero_prefix(c@, n as nat, n as nat);
        let rows = Seq::new(result.len() as nat, |t: int| result[t]@);
        assert forall|t: int| 1 <= t < rows.len() implies is_heap_step(rows[t - 1], #[trigger] rows[t], t as nat) by {
            assert(is_heap_step(result[t - 1]@, result[t]@, t as nat));
        }
        assert forall|t: int| 0 <= t < rows.len() implies is_arrangement(#[trigger] rows[t], n as nat) by {
            assert(is_arrangement(result[t]@, n as nat));
        }
        lemma_heap_rows_differ(rows, n as nat);
        assert forall|a: int, b: int| 0 <= a < b < result.len() implies #[trigger] result[a]@ != #[trigger] result[b]@ by {
            assert(rows[a] != rows[b]);
        }
    }
    Ok(result)
}

} // verus!
