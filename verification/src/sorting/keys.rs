//! Integer keys for 64-bit IEEE 754 numbers.
//!
//! The numbers that are not NaN order as the sign-and-magnitude reading of
//! their bit patterns does. A key is that reading moved into the unsigned
//! range, with negative zero one below positive zero, so that keys can be
//! sorted as integers and each key gives its bit pattern back.

use vstd::prelude::*;

verus! {

/// The sign bit of a 64-bit pattern.
pub const SIGN_BIT: u64 = 0x8000_0000_0000_0000;

/// The place of a bit pattern in the order of keys: the magnitude for a
/// clear sign bit, and below zero by one more than the magnitude for a set
/// sign bit.
pub open spec fn ordinal(bits: u64) -> int {
    if bits >= SIGN_BIT {
        -(bits - SIGN_BIT) - 1
    } else {
        bits as int
    }
}

/// The key of a bit pattern.
pub open spec fn key_of(bits: u64) -> u64 {
    (ordinal(bits) + SIGN_BIT) as u64
}

/// Distinct bit patterns have distinct keys, and the keys order as the
/// ordinals do.
pub proof fn key_order(a: u64, b: u64)
    ensures
        key_of(a) < key_of(b) <==> ordinal(a) < ordinal(b),
        key_of(a) == key_of(b) <==> a == b,
{
}

/// The key of a bit pattern.
pub fn order_key(bits: u64) -> (key: u64)
    ensures
        key == key_of(bits),
{
    if bits & SIGN_BIT != 0 {
        assert(bits & 0x8000_0000_0000_0000u64 != 0 ==> bits >= 0x8000_0000_0000_0000u64 && !bits
            == 0xffff_ffff_ffff_ffffu64 - bits) by (bit_vector);
        !bits
    } else {
        assert(bits & 0x8000_0000_0000_0000u64 == 0 ==> bits < 0x8000_0000_0000_0000u64 && bits
            | 0x8000_0000_0000_0000u64 == bits + 0x8000_0000_0000_0000u64) by (bit_vector);
        bits | SIGN_BIT
    }
}

/// The bit pattern that a key was made from.
pub fn key_bits(key: u64) -> (bits: u64)
    ensures
        key_of(bits) == key,
{
    if key & SIGN_BIT != 0 {
        assert(key & 0x8000_0000_0000_0000u64 != 0 ==> key >= 0x8000_0000_0000_0000u64 && key
            & !0x8000_0000_0000_0000u64 == key - 0x8000_0000_0000_0000u64) by (bit_vector);
        key & !SIGN_BIT
    } else {
        assert(key & 0x8000_0000_0000_0000u64 == 0 ==> key < 0x8000_0000_0000_0000u64 && !key
            == 0xffff_ffff_ffff_ffffu64 - key) by (bit_vector);
        !key
    }
}

} // verus!
