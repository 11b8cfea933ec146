//! Verified core of a statistics toolkit for Lua hosts.
//!
//! The modules here hold the integer, ordinal and combinatorial logic of the
//! toolkit: seeded random draws, shuffles and resampling indices, Heap's
//! permutation enumeration, order keys from the bit patterns of doubles,
//! fractional ranks and pairwise order counts over those keys, histogram bin tallies and the argument checks of the resampling
//! and permutation tests. Floating-point arithmetic stays with the caller.

pub mod binning;
pub mod combinatorics;
pub mod counting;
pub mod ecdf;
pub mod order_keys;
pub mod ordinal;
pub mod pairwise;
pub mod random;
pub mod requests;
