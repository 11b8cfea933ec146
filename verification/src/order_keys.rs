//! Order keys from the bit patterns of IEEE 754 doubles: an integer per bit
//! pattern that sorts as the total order of doubles does, so that ranks,
//! pair counts and distribution functions can be computed over integers.

use vstd::prelude::*;

verus! {

/// The sign bit of a double's bit pattern.
pub open spec fn sign_set(bits: u64) -> bool {
    bits >= 0x8000_0000_0000_0000
}

/// The total order of doubles on their bit patterns: every pattern with the
/// sign set lies below every pattern without; among patterns with the sign
/// set a larger magnitude lies lower, and among the others a larger
/// magnitude lies higher.
pub open spec fn total_order_le(a: u64, b: u64) -> bool {
    if sign_set(a) && sign_set(b) {
        b <= a
    } else if sign_set(a) {
        true
    } else if sign_set(b) {
        false
    } else {
        a <= b
    }
}

/// The key of a bit pattern: patterns with the sign set count down from
/// `2^63 - 1`, the others count up from `2^63`.
pub open spec fn order_key(bits: u64) -> int {
    if sign_set(bits) {
        u64::MAX - bits
    } else {
        bits + 0x8000_0000_0000_0000
    }
}

/// The key of a double from its bit pattern (`f64::to_bits`): flips every
/// bit of a pattern with the sign set, and sets the sign bit of the others.
pub fn order_key_from_bits(bits: u64) -> (k: u64)
    ensures
        k == order_key(bits),
{
    if bits >> 63u64 == 1 {
        assert(bits >> 63u64 == 1 ==> !bits == u64::MAX - bits && bits >= 0x8000_0000_0000_0000)
            by (bit_vector);
        !bits
    } else {
        assert(bits >> 63u64 != 1 ==> (bits | (1u64 << 63u64)) == bits + 0x8000_0000_0000_0000u64
            && bits < 0x8000_0000_0000_0000) by (bit_vector);
        bits | (1u64 << 63u64)
    }
}

/// The bit pattern of negative zero.
pub const NEGATIVE_ZERO_BITS: u64 = 0x8000_0000_0000_0000;

/// The key of a double under `<` and `==` from its bit pattern: negative
/// zero takes the key of positive zero, every other pattern its own key.
pub fn value_key_from_bits(bits: u64) -> (k: u64)
    ensures
        k == order_key(if bits == NEGATIVE_ZERO_BITS { 0 } else { bits }),
{
    if bits == NEGATIVE_ZERO_BITS {
        order_key_from_bits(0)
    } else {
        order_key_from_bits(bits)
    }
}

/// Keys order bit patterns as the total order of doubles does, and two
/// patterns share a key only when they are the same pattern.
pub proof fn lemma_order_key_follows_total_order(a: u64, b: u64)
    ensures
        (order_key(a) <= order_key(b)) == total_order_le(a, b),
        (order_key(a) == order_key(b)) == (a == b),
{
}

} // verus!
