//! Binary64 values carried as their bit patterns (`f64::to_bits`).
//!
//! The library reads a measured value only through the comparisons below, so it
//! keeps the exact pattern instead of a float. Bit 63 is the sign; the other 63
//! bits are the magnitude. Among patterns with a clear sign bit, a larger pattern
//! is a larger value, infinity is `0x7FF0_0000_0000_0000`, and every pattern above
//! it is a NaN.
use vstd::prelude::*;

verus! {

pub const SIGN_BIT: u64 = 0x8000_0000_0000_0000;

pub const INFINITY_BITS: u64 = 0x7FF0_0000_0000_0000;

/// `0.0`
pub const ZERO_BITS: u64 = 0;

/// `1.0`
pub const ONE_BITS: u64 = 0x3FF0_0000_0000_0000;

pub open spec fn magnitude(bits: u64) -> u64 {
    (bits % SIGN_BIT) as u64
}

/// Neither infinite nor NaN.
pub open spec fn is_finite(bits: u64) -> bool {
    magnitude(bits) < INFINITY_BITS
}

/// The value is at least the positive finite value whose pattern is `c`.
pub open spec fn at_least(bits: u64, c: u64) -> bool {
    c <= bits <= INFINITY_BITS
}

/// The value lies in `0.0..=1.0` (negative zero included).
pub open spec fn in_unit_interval(bits: u64) -> bool {
    bits <= ONE_BITS || bits == SIGN_BIT
}

/// `if v.is_finite() { v.max(0.0) } else { 0.0 }`, with `+0.0` for a negative input.
pub open spec fn finite_non_negative(bits: u64) -> u64 {
    if is_finite(bits) && bits < SIGN_BIT {
        bits
    } else {
        ZERO_BITS
    }
}

pub fn is_finite_bits(bits: u64) -> (r: bool)
    ensures
        r == is_finite(bits),
{
    bits % SIGN_BIT < INFINITY_BITS
}

pub fn at_least_bits(bits: u64, c: u64) -> (r: bool)
    ensures
        r == at_least(bits, c),
{
    c <= bits && bits <= INFINITY_BITS
}

pub fn in_unit_interval_bits(bits: u64) -> (r: bool)
    ensures
        r == in_unit_interval(bits),
{
    bits <= ONE_BITS || bits == SIGN_BIT
}

pub fn finite_non_negative_bits(bits: u64) -> (r: u64)
    ensures
        r == finite_non_negative(bits),
{
    if is_finite_bits(bits) && bits < SIGN_BIT {
        bits
    } else {
        ZERO_BITS
    }
}

} // verus!
