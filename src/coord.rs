use vstd::prelude::*;

verus! {

/// The sign bit of a single-precision bit pattern.
pub const SIGN_BIT: u32 = 0x8000_0000;

/// The order key of a single-precision bit pattern.
///
/// Non-negative values get the sign bit set; negative values have every bit
/// flipped. For two values that are not NaN, `a < b` as floats exactly when
/// `key(a) < key(b)` as unsigned integers (negative zero sorts just below
/// positive zero), so a minimum or maximum of floats is the minimum or
/// maximum of their keys.
pub open spec fn key_of_bits(bits: u32) -> u32 {
    if bits >= SIGN_BIT {
        (u32::MAX - bits) as u32
    } else {
        (bits + SIGN_BIT) as u32
    }
}

/// The bit pattern whose order key is `key`.
pub open spec fn bits_of_key(key: u32) -> u32 {
    if key >= SIGN_BIT {
        (key - SIGN_BIT) as u32
    } else {
        (u32::MAX - key) as u32
    }
}

/// Order key of a bit pattern (as produced by `f32::to_bits`).
pub fn order_key(bits: u32) -> (r: u32)
    ensures
        r == key_of_bits(bits),
{
    if bits >= SIGN_BIT {
        u32::MAX - bits
    } else {
        bits + SIGN_BIT
    }
}

/// Bit pattern (for `f32::from_bits`) of an order key.
pub fn key_bits(key: u32) -> (r: u32)
    ensures
        r == bits_of_key(key),
{
    if key >= SIGN_BIT {
        key - SIGN_BIT
    } else {
        u32::MAX - key
    }
}

/// Keys and bit patterns are in one-to-one correspondence: converting either
/// way and back gives the value started from.
pub proof fn lemma_key_round_trip(bits: u32, key: u32)
    ensures
        bits_of_key(key_of_bits(bits)) == bits,
        key_of_bits(bits_of_key(key)) == key,
{
}

/// The key order agrees with the order of bit patterns among non-negative
/// values and reverses it among negative ones, and every non-negative value's
/// key lies above every negative value's key.
pub proof fn lemma_key_order(a: u32, b: u32)
    ensures
        a < SIGN_BIT && b < SIGN_BIT ==> (key_of_bits(a) < key_of_bits(b) <==> a < b),
        a >= SIGN_BIT && b >= SIGN_BIT ==> (key_of_bits(a) < key_of_bits(b) <==> b < a),
        a >= SIGN_BIT && b < SIGN_BIT ==> key_of_bits(a) < key_of_bits(b),
{
}

} // verus!
