use mlua_mathlib::random::{apply_exchanges, partial_shuffle, rng_create, rng_int, sample_with_replacement, shuffle, EmptyInput};

#[test]
fn rng_int_range() {
    let mut rng = rng_create(99);
    for _ in 0..100 {
        let v = rng_int(&mut rng, 1, 6).unwrap();
        assert!((1..=6).contains(&v), "rng_int values must be in [1, 6]");
    }
}

#[test]
fn rng_int_min_gt_max_errors() {
    let mut rng = rng_create(1);
    let err = rng_int(&mut rng, 10, 5).unwrap_err();
    assert_eq!((err.min, err.max), (10, 5));
}

#[test]
fn rng_int_accepts_a_single_value_range() {
    let mut rng = rng_create(7);
    for _ in 0..20 {
        assert_eq!(rng_int(&mut rng, -3, -3).unwrap(), -3);
    }
}

#[test]
fn rng_int_covers_the_extreme_range() {
    let mut rng = rng_create(7);
    let v = rng_int(&mut rng, i64::MIN, i64::MAX).unwrap();
    assert!(v >= i64::MIN && v <= i64::MAX);
}

#[test]
fn same_seed_gives_the_same_draws() {
    let mut a = rng_create(123);
    let mut b = rng_create(123);
    for _ in 0..50 {
        assert_eq!(rng_int(&mut a, 0, 1000).unwrap(), rng_int(&mut b, 0, 1000).unwrap());
    }
}

#[test]
fn shuffle_via_lua() {
    let mut rng = rng_create(42);
    let s = shuffle(&mut rng, vec![1, 2, 3, 4, 5]);
    assert_eq!(s.len(), 5);
    assert_eq!(s.iter().sum::<i32>(), 15, "shuffle should preserve all elements");
}

#[test]
fn shuffle_keeps_every_item_as_often_as_before() {
    let mut rng = rng_create(5);
    let input = vec![3, 1, 3, 2, 2, 3, 9];
    let mut out = shuffle(&mut rng, input.clone());
    let mut sorted_in = input.clone();
    out.sort();
    sorted_in.sort();
    assert_eq!(out, sorted_in);
}

#[test]
fn shuffle_moves_something_on_a_long_input() {
    // A shuffle that handed its input back unchanged would fail here.
    let mut rng = rng_create(11);
    let input: Vec<u32> = (0..64).collect();
    let out = shuffle(&mut rng, input.clone());
    assert_ne!(out, input);
}

#[test]
fn shuffle_of_nothing_and_of_one() {
    let mut rng = rng_create(1);
    assert!(shuffle::<u8>(&mut rng, vec![]).is_empty());
    assert_eq!(shuffle(&mut rng, vec!["only"]), vec!["only"]);
}

#[test]
fn sample_with_replacement_via_lua() {
    let mut rng = rng_create(42);
    let values = [10, 20, 30];
    let picks = sample_with_replacement(&mut rng, values.len(), 100).unwrap();
    assert_eq!(picks.len(), 100);
    for &i in &picks {
        let v = values[i];
        assert!(v == 10 || v == 20 || v == 30);
    }
}

#[test]
fn sample_with_replacement_repeats_and_spreads() {
    let mut rng = rng_create(3);
    let picks = sample_with_replacement(&mut rng, 3, 300).unwrap();
    for k in 0..3 {
        assert!(picks.contains(&k), "position {k} never drawn");
    }
}

#[test]
fn sample_with_replacement_refuses_an_empty_input() {
    let mut rng = rng_create(42);
    assert_eq!(sample_with_replacement(&mut rng, 0, 5), Err(EmptyInput));
    assert_eq!(sample_with_replacement(&mut rng, 3, 0), Ok(vec![]));
}

#[test]
fn a_refused_rng_int_draws_nothing() {
    let mut a = rng_create(17);
    let mut b = rng_create(17);
    assert!(rng_int(&mut a, 10, 5).is_err());
    for _ in 0..20 {
        assert_eq!(rng_int(&mut a, 0, 1_000_000).unwrap(), rng_int(&mut b, 0, 1_000_000).unwrap());
    }
}

#[test]
fn partial_shuffle_keeps_every_item_as_often_as_before() {
    let mut rng = rng_create(3);
    let input = vec![5, 1, 5, 2, 8, 8, 8, 0];
    let mut v = input.clone();
    partial_shuffle(&mut rng, &mut v, 3);
    let (mut a, mut b) = (v.clone(), input.clone());
    a.sort();
    b.sort();
    assert_eq!(a, b);
    let mut w = input.clone();
    partial_shuffle(&mut rng, &mut w, 100);
    w.sort();
    assert_eq!(w, b);
}

#[test]
fn partial_shuffle_is_reproducible_from_a_seed() {
    let input: Vec<u32> = (0..40).collect();
    let (mut a, mut b) = (input.clone(), input.clone());
    partial_shuffle(&mut rng_create(9), &mut a, 10);
    partial_shuffle(&mut rng_create(9), &mut b, 10);
    assert_eq!(a, b);
    assert_ne!(a, input, "forty items with ten chosen should move");
}

#[test]
fn apply_exchanges_walks_down_from_the_last_position() {
    // Position 2 with 1 gives [1, 3, 2]; then position 1 with 0 gives [3, 1, 2].
    assert_eq!(apply_exchanges(vec![1, 2, 3], &vec![0, 0, 1]), vec![3, 1, 2]);
    // Every pick on its own position exchanges nothing.
    assert_eq!(apply_exchanges(vec![4, 5, 6, 7], &vec![0, 1, 2, 3]), vec![4, 5, 6, 7]);
    assert!(apply_exchanges(Vec::<u8>::new(), &vec![]).is_empty());
}

#[test]
fn partial_shuffle_of_nothing_moves_nothing() {
    let mut rng = rng_create(21);
    let input: Vec<u32> = (0..30).collect();
    let mut v = input.clone();
    partial_shuffle(&mut rng, &mut v, 0);
    assert_eq!(v, input);
}
