use mlua_mathlib::order_keys::{order_key_from_bits, value_key_from_bits};

fn key(x: f64) -> u64 {
    order_key_from_bits(x.to_bits())
}

#[test]
fn keys_follow_the_total_order_of_doubles() {
    let xs = [f64::NEG_INFINITY, -1e300, -2.5, -1.0, -1e-300, -0.0, 0.0, 1e-300, 1.0, 2.5, 1e300, f64::INFINITY];
    for w in xs.windows(2) {
        assert!(key(w[0]) < key(w[1]), "{} then {}", w[0], w[1]);
    }
}

#[test]
fn key_values_at_the_sign_boundary() {
    assert_eq!(order_key_from_bits(0), 1u64 << 63);
    assert_eq!(order_key_from_bits(1u64 << 63), (1u64 << 63) - 1);
    assert_eq!(order_key_from_bits(u64::MAX), 0);
}

#[test]
fn value_keys_fold_negative_zero_into_zero() {
    assert_eq!(value_key_from_bits((-0.0f64).to_bits()), value_key_from_bits(0.0f64.to_bits()));
    assert_eq!(value_key_from_bits(0.0f64.to_bits()), 1u64 << 63);
    assert_eq!(value_key_from_bits((-1.0f64).to_bits()), key(-1.0));
    assert!(value_key_from_bits((-1e-300f64).to_bits()) < value_key_from_bits((-0.0f64).to_bits()));
}
