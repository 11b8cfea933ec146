use mlua_mathlib::combinatorics::{permutations, PermutationsError};

#[test]
fn permutations_via_lua() {
    let p = permutations(3).unwrap();
    assert_eq!(p.len(), 6, "permutations(3) should yield 3! = 6 permutations");
}

#[test]
fn permutations_counts_are_factorials() {
    let mut f = 1usize;
    for n in 1..=8 {
        f *= n;
        assert_eq!(permutations(n).unwrap().len(), f);
    }
}

#[test]
fn permutations_start_from_the_identity_and_are_all_distinct() {
    for n in 1..=8 {
        let rows = permutations(n).unwrap();
        let ident: Vec<usize> = (1..=n).collect();
        assert_eq!(rows[0], ident);
        let mut sorted_rows = rows.clone();
        sorted_rows.sort();
        sorted_rows.dedup();
        assert_eq!(sorted_rows.len(), rows.len(), "every arrangement appears once");
        for row in &rows {
            let mut r = row.clone();
            r.sort();
            assert_eq!(r, ident);
        }
    }
}

#[test]
fn heap_order_for_three() {
    let rows = permutations(3).unwrap();
    assert_eq!(
        rows,
        vec![
            vec![1, 2, 3],
            vec![2, 1, 3],
            vec![3, 1, 2],
            vec![1, 3, 2],
            vec![2, 3, 1],
            vec![3, 2, 1],
        ]
    );
}

#[test]
fn permutations_refuses_zero_and_more_than_eight() {
    assert_eq!(permutations(0), Err(PermutationsError::Zero));
    assert_eq!(permutations(9), Err(PermutationsError::TooLarge));
    assert_eq!(permutations(1).unwrap(), vec![vec![1]]);
}

#[test]
fn consecutive_rows_differ_by_one_exchange() {
    let rows = permutations(5).unwrap();
    for w in rows.windows(2) {
        let differing = w[0].iter().zip(w[1].iter()).filter(|(a, b)| a != b).count();
        assert_eq!(differing, 2, "{:?} -> {:?}", w[0], w[1]);
    }
}
