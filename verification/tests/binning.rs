use mlua_mathlib::binning::{bin_counts, bin_of};

#[test]
fn bin_counts_of_an_even_spread() {
    // Values 1..=10 over [1, 10] in 5 bins of width 1.8.
    let (min, width) = (1.0f64, 9.0f64 / 5.0);
    let raw: Vec<usize> = (1..=10).map(|v| ((v as f64 - min) / width) as usize).collect();
    let counts = bin_counts(&raw, 5);
    assert_eq!(counts.iter().sum::<u64>(), 10, "all values must be binned");
    assert_eq!(counts, vec![2, 2, 2, 2, 2]);
}

#[test]
fn histogram_bin_all_same() {
    let counts = bin_counts(&vec![0, 0, 0], 3);
    assert_eq!(counts[0], 3, "all values should be in first bin");
    assert_eq!(counts[1], 0);
    assert_eq!(counts[2], 0);
}

#[test]
fn histogram_basic() {
    let raw: Vec<usize> = (1..=10).map(|v| ((v as f64 - 1.0) / 1.8) as usize).collect();
    let counts = bin_counts(&raw, 5);
    assert_eq!(counts.len(), 5);
    assert_eq!(counts.iter().sum::<u64>(), 10);
}

#[test]
fn the_top_edge_lands_in_the_last_bin() {
    // c = 1.0 * bins would index one past the end without the clamp.
    let counts = bin_counts(&vec![4], 4);
    assert_eq!(counts[3], 1, "1.0 belongs to the last bin");
    assert_eq!(counts[0] + counts[1] + counts[2], 0);
}

#[test]
fn far_out_indices_are_held_in_the_last_bin() {
    assert_eq!(bin_of(usize::MAX, 10), 9);
    assert_eq!(bin_of(3, 10), 3);
    assert_eq!(bin_counts(&vec![7, 100, 2, 2], 3), vec![0, 0, 4]);
    assert_eq!(bin_counts(&vec![0, 1, 1, 5], 3), vec![1, 2, 1]);
}

#[test]
fn no_observations_no_counts() {
    assert_eq!(bin_counts(&vec![], 4), vec![0, 0, 0, 0]);
}
