//! Keys for scores that are given as IEEE 754 binary64 bit patterns: a sign
//! bit above 63 bits of magnitude. The key of a pattern is a signed integer,
//! and keys order the patterns as their sign and magnitude do: a pattern with
//! the sign bit set stands below every pattern without it, among the
//! patterns without it the larger magnitude stands higher, and among those
//! with it the larger magnitude stands lower. Every pattern has a key of its
//! own, the patterns of zero with either sign and of values that are no
//! numbers included, so that two scores are never incomparable.

use vstd::prelude::*;

verus! {

/// The least pattern with the sign bit set.
pub const SIGN_BIT: u64 = 0x8000_0000_0000_0000;

/// The key of a bit pattern: the pattern itself where the sign bit is clear,
/// and `-1 - magnitude` where it is set.
pub open spec fn key_of_bits(bits: u64) -> int {
    if bits < SIGN_BIT {
        bits as int
    } else {
        -1 - (bits - SIGN_BIT)
    }
}

/// The bit pattern of a key.
pub open spec fn bits_of_key(key: i64) -> int {
    if key >= 0 {
        key as int
    } else {
        SIGN_BIT + (-1 - key)
    }
}

/// The key of the bit pattern of a score.
pub fn score_key(bits: u64) -> (key: i64)
    ensures
        key == key_of_bits(bits),
{
    if bits < SIGN_BIT {
        bits as i64
    } else {
        -1 - ((bits - SIGN_BIT) as i64)
    }
}

/// The bit pattern that has the key `key`.
pub fn score_bits(key: i64) -> (bits: u64)
    ensures
        bits == bits_of_key(key),
        key_of_bits(bits) == key,
{
    if key >= 0 {
        key as u64
    } else {
        SIGN_BIT + ((-1 - key) as u64)
    }
}

/// A pattern is found again from its key.
pub proof fn lemma_key_round_trip(bits: u64)
    ensures
        i64::MIN <= key_of_bits(bits) <= i64::MAX,
        bits_of_key(key_of_bits(bits) as i64) == bits,
{
}

/// Keys order the patterns by sign and magnitude.
pub proof fn lemma_keys_order_patterns(a: u64, b: u64)
    ensures
        a == b <==> key_of_bits(a) == key_of_bits(b),
        a < SIGN_BIT && b < SIGN_BIT ==> (key_of_bits(a) < key_of_bits(b) <==> a < b),
        a >= SIGN_BIT && b >= SIGN_BIT ==> (key_of_bits(a) < key_of_bits(b) <==> a > b),
        a >= SIGN_BIT && b < SIGN_BIT ==> key_of_bits(a) < key_of_bits(b),
{
}

} // verus!
