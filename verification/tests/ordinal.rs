use mlua_mathlib::order_keys::order_key_from_bits;
use mlua_mathlib::ordinal::{ascending_order, doubled_ranks, mann_whitney_ranks};
use mlua_mathlib::pairwise::EmptyGroup;

/// Order key of a finite float under `<` and `==`.
fn key(x: f64) -> u64 {
    let x = if x == 0.0 { 0.0 } else { x };
    order_key_from_bits(x.to_bits())
}

fn keys(values: &[f64]) -> Vec<u64> {
    values.iter().map(|&x| key(x)).collect()
}

fn ranks(values: &[f64]) -> Vec<f64> {
    doubled_ranks(&keys(values)).into_iter().map(|d| d as f64 / 2.0).collect()
}

#[test]
fn rank_no_ties() {
    assert_eq!(ranks(&[3.0, 1.0, 2.0]), vec![3.0, 1.0, 2.0]);
}

#[test]
fn rank_with_ties() {
    // positions sorted: 1.0(idx=1)→rank1, 3.0(idx=0)→rank2.5, 3.0(idx=2)→rank2.5
    assert_eq!(ranks(&[3.0, 1.0, 3.0]), vec![2.5, 1.0, 2.5]);
}

#[test]
fn rank_all_equal() {
    assert_eq!(ranks(&[5.0, 5.0, 5.0]), vec![2.0, 2.0, 2.0]);
}

#[test]
fn rank_basic() {
    let r = ranks(&[3.0, 1.0, 2.0]);
    assert!(r[0] == 3.0 && r[1] == 1.0 && r[2] == 2.0);
}

#[test]
fn rank_ties() {
    let r = ranks(&[3.0, 1.0, 3.0]);
    assert!(r[0] == 2.5 && r[1] == 1.0 && r[2] == 2.5);
}

#[test]
fn ranks_of_negatives_and_signed_zero() {
    // -0.0 == 0.0, so they share the average of ranks 2 and 3.
    assert_eq!(ranks(&[-1.5, 0.0, -0.0, 7.0]), vec![1.0, 2.5, 2.5, 4.0]);
}

#[test]
fn doubled_ranks_sum_to_n_times_n_plus_one() {
    let values = [4.0, 4.0, 1.0, 9.0, 4.0, 1.0, 2.0];
    let d = doubled_ranks(&keys(&values));
    let n = values.len();
    assert_eq!(d.iter().sum::<usize>(), n * (n + 1));
    assert_eq!(d, vec![10, 10, 3, 14, 10, 3, 6]);
}

#[test]
fn doubled_ranks_of_nothing() {
    assert!(doubled_ranks(&vec![]).is_empty());
}

#[test]
fn ascending_order_breaks_ties_by_position() {
    let p = [0.03, 0.01, 0.04, 0.01];
    assert_eq!(ascending_order(&keys(&p)), vec![1, 3, 0, 2]);
}

#[test]
fn ascending_order_descending_by_complement() {
    let k: Vec<u64> = keys(&[0.03, 0.01, 0.04, 0.01]).into_iter().map(|k| !k).collect();
    assert_eq!(ascending_order(&k), vec![2, 0, 1, 3]);
}

#[test]
fn mann_whitney_rank_sum_and_ties() {
    // Pooled: 1 2 2 3 | 2 4 → ranks 1, 3, 3, 5 | 3, 6 (the three 2s share 3).
    let r = mann_whitney_ranks(&keys(&[1.0, 2.0, 2.0, 3.0]), &keys(&[2.0, 4.0])).unwrap();
    assert_eq!(r.doubled_rank_sum, 2 * (1 + 3 + 3 + 5));
    assert_eq!(r.tie_sizes, vec![1, 3, 3, 1, 3, 1]);
    // U1 = R1 - n1 (n1 + 1) / 2 = 12 - 10 = 2: x beats y in 1 pair (3 > 2)
    // and ties it in 2 (2 == 2 twice), counting half.
    let u1 = r.doubled_rank_sum as f64 / 2.0 - 10.0;
    assert_eq!(u1, 2.0);
    assert_eq!(r.doubled_u1, 4);
}

#[test]
fn mann_whitney_refuses_an_empty_group() {
    assert_eq!(mann_whitney_ranks(&vec![], &keys(&[1.0])), Err(EmptyGroup));
    assert_eq!(mann_whitney_ranks(&keys(&[1.0]), &vec![]), Err(EmptyGroup));
}

#[test]
fn the_two_u_statistics_add_to_the_pair_count() {
    let xs = keys(&[1.0, 2.0, 2.0, 3.0, 8.0]);
    let ys = keys(&[2.0, 4.0, 0.5]);
    let (n1, n2) = (5u128, 3u128);
    let a = mann_whitney_ranks(&xs, &ys).unwrap().doubled_rank_sum;
    let b = mann_whitney_ranks(&ys, &xs).unwrap().doubled_rank_sum;
    assert_eq!((a - n1 * (n1 + 1)) + (b - n2 * (n2 + 1)), 2 * n1 * n2);
}
