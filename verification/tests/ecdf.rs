use mlua_mathlib::order_keys::order_key_from_bits;
use mlua_mathlib::ecdf::ks_scaled_statistic;
use mlua_mathlib::pairwise::EmptyGroup;

/// Order key of a finite float under `<` and `==`.
fn key(x: f64) -> u64 {
    let x = if x == 0.0 { 0.0 } else { x };
    order_key_from_bits(x.to_bits())
}

fn d_stat(xs: &[f64], ys: &[f64]) -> f64 {
    let kx: Vec<u64> = xs.iter().map(|&x| key(x)).collect();
    let ky: Vec<u64> = ys.iter().map(|&y| key(y)).collect();
    let scaled = ks_scaled_statistic(&kx, &ky).unwrap();
    scaled as f64 / (xs.len() as f64 * ys.len() as f64)
}

#[test]
fn ks_test_same_distribution() {
    let xs: Vec<f64> = (0..50).map(|i| i as f64 / 50.0).collect();
    let ys: Vec<f64> = (0..50).map(|i| (i as f64 + 0.5) / 50.0).collect();
    assert!(d_stat(&xs, &ys) < 0.1);
}

#[test]
fn ks_test_identical_values_d_is_zero() {
    let d = d_stat(&[5.0, 5.0, 5.0], &[5.0, 5.0]);
    assert!(d.abs() < 1e-10, "D should be 0 for identical-value samples, got {d}");
}

#[test]
fn ks_test_ties_across_samples() {
    // ECDF_xs: 0.25@1, 0.50@2, 1.0@3
    // ECDF_ys: 0.25@1, 0.75@3, 1.0@5
    // Max diff at x=2: |0.50 - 0.25| = 0.25
    let d = d_stat(&[1.0, 2.0, 3.0, 3.0], &[1.0, 3.0, 3.0, 5.0]);
    assert!((d - 0.25).abs() < 1e-10, "D should be 0.25, got {d}");
}

#[test]
fn ks_test_different_distribution() {
    let xs: Vec<f64> = (0..50).map(|i| i as f64).collect();
    let ys: Vec<f64> = (0..50).map(|i| (i as f64) + 100.0).collect();
    let d = d_stat(&xs, &ys);
    assert!((d - 1.0).abs() < 1e-10, "d={d}, completely separated distributions should have d≈1");
}

#[test]
fn ks_statistic_is_symmetric_and_exact() {
    // Unsorted input with a run inside one sample: gaps (scaled by 3 * 2)
    // at 1: 1*2 - 0 = 2; at 2: 3*2 - 1*3 = 3; at 4: 3*2 - 2*3 = 0.
    let xs = vec![key(2.0), key(1.0), key(2.0)];
    let ys = vec![key(4.0), key(2.0)];
    assert_eq!(ks_scaled_statistic(&xs, &ys), Ok(3));
    assert_eq!(ks_scaled_statistic(&ys, &xs), Ok(3));
}

#[test]
fn ks_statistic_refuses_an_empty_sample() {
    assert_eq!(ks_scaled_statistic(&vec![], &vec![key(1.0)]), Err(EmptyGroup));
    assert_eq!(ks_scaled_statistic(&vec![key(1.0)], &vec![]), Err(EmptyGroup));
}

#[test]
fn ks_statistic_ignores_the_order_of_the_observations() {
    let a = ks_scaled_statistic(&vec![5, 1, 9, 3], &vec![2, 8, 2]).unwrap();
    let b = ks_scaled_statistic(&vec![9, 3, 1, 5], &vec![2, 2, 8]).unwrap();
    assert_eq!(a, b);
}

#[test]
fn ks_statistic_is_the_whole_product_for_separated_samples() {
    assert_eq!(ks_scaled_statistic(&vec![1, 2, 3], &vec![4, 5]), Ok(6));
    assert_eq!(ks_scaled_statistic(&vec![7, 7], &vec![7, 7, 7]), Ok(0));
}
