//! Integer weights for hosts that weigh their edges with real numbers.
//!
//! The 64 bits of an IEEE 754 double are a sign bit and 63 bits of magnitude,
//! and of two numbers of one sign the one with the larger magnitude lies
//! further from zero. The key of a bit pattern is an integer that is ordered
//! as the numbers are: the magnitude itself for a pattern without the sign
//! bit, and below zero, falling as the magnitude grows, for one with it. A
//! host turns each weight into its key before it builds a graph, and each key
//! of the result back into the weight it came from.
//!
//! A tree that is lightest by its keys is lightest by the numbers too. Every
//! finite double is a whole multiple of one small unit, so the numbers, counted
//! in that unit, are a scale of the keys that keeps their order; and the tree
//! that `compute` returns is a lightest one under every such scale.

use vstd::prelude::*;

verus! {

/// The bit pattern that has the sign bit alone.
pub const SIGN_BIT: u64 = 0x8000_0000_0000_0000;

/// The key of the bit pattern `bits`.
pub open spec fn key_of_bits(bits: u64) -> int {
    if bits < SIGN_BIT {
        bits as int
    } else {
        SIGN_BIT - 1 - bits
    }
}

/// The bit pattern whose key is `key`.
pub open spec fn bits_of_key(key: i64) -> int {
    if key >= 0 {
        key as int
    } else {
        SIGN_BIT - 1 - key
    }
}

/// Turns the bits of a double into the integer weight that stands for it.
pub fn weight_from_bits(bits: u64) -> (key: i64)
    ensures
        key == key_of_bits(bits),
{
    if bits < SIGN_BIT {
        bits as i64
    } else {
        let magnitude: u64 = bits - SIGN_BIT;
        -(magnitude as i64) - 1
    }
}

/// Turns an integer weight back into the bits of the double it stands for.
pub fn weight_to_bits(key: i64) -> (bits: u64)
    ensures
        bits == bits_of_key(key),
{
    if key >= 0 {
        key as u64
    } else {
        let magnitude: i64 = -(key + 1);
        magnitude as u64 + SIGN_BIT
    }
}

/// Every bit pattern is found again from its key, and every key from its bit
/// pattern.
pub proof fn lemma_key_round_trip(bits: u64, key: i64)
    ensures
        i64::MIN <= key_of_bits(bits) <= i64::MAX,
        0 <= bits_of_key(key) <= u64::MAX,
        bits_of_key(key_of_bits(bits) as i64) == bits,
        key_of_bits(bits_of_key(key) as u64) == key,
{
}

/// Keys are ordered as the numbers are: without the sign bit by magnitude,
/// with it against the magnitude, and every pattern with the sign bit below
/// every pattern without.
pub proof fn lemma_key_order(a: u64, b: u64)
    ensures
        a < SIGN_BIT && b < SIGN_BIT ==> (key_of_bits(a) <= key_of_bits(b) <==> a <= b),
        a >= SIGN_BIT && b >= SIGN_BIT ==> (key_of_bits(a) <= key_of_bits(b) <==> a >= b),
        a >= SIGN_BIT && b < SIGN_BIT ==> key_of_bits(a) < key_of_bits(b),
{
}

} // verus!
