//! Single-precision numbers carried as their IEEE 754 bit patterns.
//!
//! A number is a `u32`: the top bit is the sign, the low 31 bits the magnitude. Magnitudes of
//! finite numbers and infinities are ordered like the integers that encode them; anything above
//! the infinity pattern is not a number.

use std::cmp::Ordering;
use vstd::prelude::*;

verus! {

/// The magnitude bits of infinity; larger magnitudes are NaN payloads.
pub const INFINITY_BITS: u32 = 0x7f80_0000;

/// The magnitude bits of the NaN that stands for a result that is not a number.
pub const QUIET_NAN_BITS: u32 = 0x7fc0_0000;

/// The bits of the number one.
pub const ONE_BITS: u32 = 0x3f80_0000;

/// The lowest pattern whose sign bit is set.
pub const SIGN_BIT: u32 = 0x8000_0000;

/// The low 31 bits.
pub open spec fn magnitude(bits: u32) -> int {
    bits as int % 0x8000_0000
}

/// Whether the sign bit is set.
pub open spec fn is_negative(bits: u32) -> bool {
    bits >= SIGN_BIT
}

/// Whether the pattern encodes no number.
pub open spec fn is_nan(bits: u32) -> bool {
    magnitude(bits) > INFINITY_BITS
}

/// An integer that orders all patterns but NaNs by their numeric value; the two zeros share one.
pub open spec fn numeric_key(bits: u32) -> int {
    if is_negative(bits) {
        -magnitude(bits)
    } else {
        magnitude(bits)
    }
}

/// An integer that orders all patterns by the IEEE 754 total order: negative NaNs first, then the
/// numbers with minus zero below plus zero, then positive NaNs.
pub open spec fn total_key(bits: u32) -> int {
    if is_negative(bits) {
        -magnitude(bits) - 1
    } else {
        magnitude(bits)
    }
}

/// The numeric order of two patterns; none if either is NaN.
pub open spec fn numeric_order(a: u32, b: u32) -> Option<Ordering> {
    if is_nan(a) || is_nan(b) {
        None
    } else if numeric_key(a) < numeric_key(b) {
        Some(Ordering::Less)
    } else if numeric_key(a) == numeric_key(b) {
        Some(Ordering::Equal)
    } else {
        Some(Ordering::Greater)
    }
}

/// The low 31 bits and the sign of a pattern.
fn split_sign(bits: u32) -> (r: (u32, bool))
    ensures
        r.0 == magnitude(bits),
        r.1 == is_negative(bits),
{
    if bits >= SIGN_BIT {
        (bits - SIGN_BIT, true)
    } else {
        (bits, false)
    }
}

/// Compares two patterns by numeric value.
pub fn order(a: u32, b: u32) -> (r: Option<Ordering>)
    ensures
        r == numeric_order(a, b),
{
    let (am, an) = split_sign(a);
    let (bm, bn) = split_sign(b);
    if am > INFINITY_BITS || bm > INFINITY_BITS {
        None
    } else if am == 0 && bm == 0 {
        Some(Ordering::Equal)
    } else if an && !bn {
        Some(Ordering::Less)
    } else if bn && !an {
        Some(Ordering::Greater)
    } else if am == bm {
        Some(Ordering::Equal)
    } else if (am < bm) != an {
        Some(Ordering::Less)
    } else {
        Some(Ordering::Greater)
    }
}

/// The rank of a pattern in the total order, from 0 up.
pub open spec fn total_rank(bits: u32) -> int {
    total_key(bits) + 0x8000_0000
}

/// Computes the rank of a pattern in the total order.
pub fn rank(bits: u32) -> (r: u32)
    ensures
        r == total_rank(bits),
{
    if bits >= SIGN_BIT {
        u32::MAX - bits
    } else {
        bits + SIGN_BIT
    }
}

/// The pattern whose rank in the total order is `rank`.
pub fn from_rank(rank: u32) -> (r: u32)
    ensures
        total_rank(r) == rank,
{
    if rank < SIGN_BIT {
        u32::MAX - rank
    } else {
        rank - SIGN_BIT
    }
}

} // verus!
