//! Zigzag mapping between signed and unsigned 64-bit integers.
use vstd::prelude::*;

verus! {

/// The zigzag image of a signed integer: non-negative values go to even
/// numbers, negative values to odd numbers.
pub open spec fn spec_zigzag(x: i64) -> u64 {
    if x >= 0 {
        (2 * x) as u64
    } else {
        (-2 * x - 1) as u64
    }
}

/// The inverse of the zigzag mapping.
pub open spec fn spec_unzigzag(x: u64) -> i64 {
    if x % 2 == 0 {
        (x / 2) as i64
    } else {
        (-(x / 2) - 1) as i64
    }
}

pub fn zigzag_i64(x: i64) -> (r: u64)
    ensures
        r == spec_zigzag(x),
{
    let u = x as u64;
    let sign = (x >> 63u32) as u64;
    let r = (u << 1u32) ^ sign;
    assert(r == spec_zigzag(x)) by (bit_vector)
        requires
            u == x as u64,
            sign == (x >> 63u32) as u64,
            r == (u << 1u32) ^ sign,
    ;
    r
}

pub fn unzigzag_u64(x: u64) -> (r: i64)
    ensures
        r == spec_unzigzag(x),
{
    assert(x >> 1u32 <= i64::MAX && x & 1 <= 1) by (bit_vector);
    let half = (x >> 1u32) as i64;
    let low = (x & 1) as i64;
    let neg = -low;
    let r = half ^ neg;
    assert(r == spec_unzigzag(x)) by (bit_vector)
        requires
            half == (x >> 1u32) as i64,
            low == (x & 1) as i64,
            neg == -low,
            r == half ^ neg,
    ;
    r
}

/// Decoding a zigzag image gives the original signed integer back.
pub proof fn lemma_unzigzag_zigzag(x: i64)
    ensures
        spec_unzigzag(spec_zigzag(x)) == x,
{
}

/// Every unsigned integer is the zigzag image of its decoding.
pub proof fn lemma_zigzag_unzigzag(x: u64)
    ensures
        spec_zigzag(spec_unzigzag(x)) == x,
{
}

} // verus!
