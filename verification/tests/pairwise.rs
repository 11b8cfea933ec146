use mlua_mathlib::order_keys::order_key_from_bits;
use mlua_mathlib::pairwise::{dominance_counts, kendall_all_tied_on_a_side, kendall_counts, Dominance, EmptyGroup, KendallCounts, KendallError};

/// Order key of a finite float under `<` and `==`.
fn key(x: f64) -> u64 {
    let x = if x == 0.0 { 0.0 } else { x };
    order_key_from_bits(x.to_bits())
}

fn keys(values: &[f64]) -> Vec<u64> {
    values.iter().map(|&x| key(x)).collect()
}

fn cliffs_delta(xs: &[f64], ys: &[f64]) -> Result<f64, EmptyGroup> {
    let d = dominance_counts(&keys(xs), &keys(ys))?;
    Ok((d.greater as f64 - d.less as f64) / (xs.len() * ys.len()) as f64)
}

fn kendall_tau(xs: &[f64], ys: &[f64]) -> f64 {
    let k = kendall_counts(&keys(xs), &keys(ys)).unwrap();
    let n = xs.len() as f64;
    let n0 = n * (n - 1.0) / 2.0;
    let denom = ((n0 - k.ties_x as f64) * (n0 - k.ties_y as f64)).sqrt();
    (k.concordant as f64 - k.discordant as f64) / denom
}

#[test]
fn cliffs_delta_spans_minus_one_to_one() {
    let low = [1.0, 2.0, 3.0];
    let high = [4.0, 5.0, 6.0];
    assert!((cliffs_delta(&high, &low).unwrap() - 1.0).abs() < 1e-12);
    assert!((cliffs_delta(&low, &high).unwrap() + 1.0).abs() < 1e-12);
    assert!(cliffs_delta(&low, &low).unwrap().abs() < 1e-12);
}

#[test]
fn cliffs_delta_ignores_the_size_of_the_gap() {
    let a = [1.0, 2.0];
    let near = [3.0, 4.0];
    let far = [300.0, 400.0];
    let d_near = cliffs_delta(&a, &near).unwrap();
    let d_far = cliffs_delta(&a, &far).unwrap();
    assert!((d_near - d_far).abs() < 1e-12, "{d_near} vs {d_far}");
}

#[test]
fn cliffs_delta_counts_ties_as_neither_direction() {
    let xs = [1.0, 2.0];
    let ys = [1.0, 1.0];
    assert!((cliffs_delta(&xs, &ys).unwrap() - 0.5).abs() < 1e-12);
}

#[test]
fn effect_sizes_refuse_empty_input() {
    assert!(cliffs_delta(&[], &[1.0]).is_err());
    assert!(cliffs_delta(&[1.0], &[]).is_err());
}

#[test]
fn dominance_counts_swap_with_the_groups() {
    let xs = keys(&[1.0, 5.0, 5.0, 2.0]);
    let ys = keys(&[5.0, 0.0, 3.0]);
    let forward = dominance_counts(&xs, &ys).unwrap();
    let backward = dominance_counts(&ys, &xs).unwrap();
    assert_eq!(forward, Dominance { greater: 6, less: 4 });
    assert_eq!(backward, Dominance { greater: 4, less: 6 });
    // 12 pairs: 6 greater, 4 less, 2 tied (5 == 5 twice).
    assert_eq!(forward.greater + forward.less + 2, 12);
}

#[test]
fn kendall_tau_concordant() {
    let tau = kendall_tau(&[1.0, 2.0, 3.0], &[1.0, 2.0, 3.0]);
    assert!((tau - 1.0).abs() < 1e-10);
}

#[test]
fn kendall_tau_discordant() {
    let tau = kendall_tau(&[1.0, 2.0, 3.0], &[3.0, 2.0, 1.0]);
    assert!((tau - (-1.0)).abs() < 1e-10);
}

#[test]
fn kendall_tau_via_lua() {
    let tau = kendall_tau(&[1.0, 2.0, 3.0], &[3.0, 2.0, 1.0]);
    assert!((tau + 1.0).abs() < 1e-10);
}

#[test]
fn kendall_counts_with_ties() {
    // Pairs of (x, y): (1,1) (1,2) (2,2) (3,1).
    // (0,1) x tie; (0,2) concordant; (0,3) y tie; (1,2) y tie;
    // (1,3) discordant; (2,3) discordant.
    let k = kendall_counts(&keys(&[1.0, 1.0, 2.0, 3.0]), &keys(&[1.0, 2.0, 2.0, 1.0])).unwrap();
    assert_eq!(
        k,
        KendallCounts { concordant: 1, discordant: 2, ties_x: 1, ties_y: 2 }
    );
}

#[test]
fn kendall_counts_both_tied_counts_in_both() {
    let k = kendall_counts(&keys(&[4.0, 4.0]), &keys(&[7.0, 7.0])).unwrap();
    assert_eq!(k, KendallCounts { concordant: 0, discordant: 0, ties_x: 1, ties_y: 1 });
}

#[test]
fn kendall_counts_refuses_bad_shapes() {
    assert_eq!(kendall_counts(&keys(&[1.0, 2.0]), &keys(&[1.0])), Err(KendallError::LengthMismatch));
    assert_eq!(kendall_counts(&keys(&[1.0]), &keys(&[1.0])), Err(KendallError::TooFew));
}

#[test]
fn kendall_counts_are_symmetric_in_the_coordinates() {
    let xs = keys(&[1.0, 1.0, 2.0, 3.0, 0.5]);
    let ys = keys(&[1.0, 2.0, 2.0, 1.0, 4.0]);
    let forward = kendall_counts(&xs, &ys).unwrap();
    let backward = kendall_counts(&ys, &xs).unwrap();
    assert_eq!(forward.concordant, backward.concordant);
    assert_eq!(forward.discordant, backward.discordant);
    assert_eq!(forward.ties_x, backward.ties_y);
    assert_eq!(forward.ties_y, backward.ties_x);
}

#[test]
fn pair_counts_read_only_the_order_of_the_keys() {
    let xs = vec![1u64, 4, 4, 9];
    let ys = vec![2u64, 4, 7];
    let f = |v: &u64| v * 10 + 3;
    let mx: Vec<u64> = xs.iter().map(f).collect();
    let my: Vec<u64> = ys.iter().map(f).collect();
    assert_eq!(dominance_counts(&xs, &ys), dominance_counts(&mx, &my));
    assert_eq!(dominance_counts(&xs, &ys), Ok(Dominance { greater: 5, less: 5 }));
}

#[test]
fn mann_whitney_u_changes_to_its_complement_when_the_groups_swap() {
    let xs = vec![1u64, 4, 4, 9];
    let ys = vec![2u64, 4, 7];
    let d = dominance_counts(&xs, &ys).unwrap();
    let e = dominance_counts(&ys, &xs).unwrap();
    let tied = 12 - d.greater - d.less;
    // 2 * U1 = 2 * greater + tied, and 2 * U2 = 2 * n1 * n2 - 2 * U1.
    assert_eq!(2 * e.greater + tied, 2 * 12 - (2 * d.greater + tied));
}

#[test]
fn kendall_is_undefined_when_one_side_ties_throughout() {
    let c = kendall_counts(&vec![3, 3, 3], &vec![1, 2, 3]).unwrap();
    assert!(kendall_all_tied_on_a_side(&c, 3));
    let d = kendall_counts(&vec![1, 2, 3], &vec![1, 3, 2]).unwrap();
    assert!(!kendall_all_tied_on_a_side(&d, 3));
}
