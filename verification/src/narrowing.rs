//! Double-precision numbers rounded to single precision, both carried as IEEE 754 bit patterns.

use crate::binary32;
use crate::rounding;
use vstd::arithmetic::power2::{lemma2_to64, lemma_pow2_adds, lemma_pow2_pos, pow2};
use vstd::prelude::*;

verus! {

/// The lowest pattern of double precision whose sign bit is set.
pub const SIGN_BIT: u64 = 0x8000_0000_0000_0000;

/// The magnitude bits of infinity in double precision; larger magnitudes are NaN payloads.
pub const INFINITY_BITS: u64 = 0x7ff0_0000_0000_0000;

/// The low 63 bits.
pub open spec fn magnitude(bits: u64) -> int {
    bits as int % 0x8000_0000_0000_0000
}

/// What a magnitude of double precision counts, in units of its least positive number, 2^-1074.
pub open spec fn double_units(magnitude: int) -> nat {
    let exponent = magnitude / 0x10_0000_0000_0000;
    let fraction = magnitude % 0x10_0000_0000_0000;
    if exponent <= 0 {
        fraction as nat
    } else {
        ((0x10_0000_0000_0000 + fraction) * pow2((exponent - 1) as nat)) as nat
    }
}

/// Whether a pattern of single precision is one of double precision rounded: the sign stays, an
/// infinity stays one, NaN becomes the quiet NaN, and a finite number becomes the nearest, of which
/// one unit is 2^925 of the finer ones.
pub open spec fn rounds_to(bits: u64, narrow: u32) -> bool {
    &&& binary32::is_negative(narrow) <==> bits >= SIGN_BIT
    &&& if magnitude(bits) > INFINITY_BITS {
        binary32::magnitude(narrow) == binary32::QUIET_NAN_BITS
    } else if magnitude(bits) == INFINITY_BITS {
        binary32::magnitude(narrow) == binary32::INFINITY_BITS
    } else {
        rounding::nearest(
            double_units(magnitude(bits)),
            pow2(925),
            binary32::magnitude(narrow),
        )
    }
}

/// The pattern of single precision that one of double precision is rounded to.
pub open spec fn rounded(bits: u64) -> u32 {
    choose|narrow: u32| rounds_to(bits, narrow)
}

/// At most one pattern is the rounded one.
proof fn lemma_rounding_is_unique(bits: u64, a: u32, b: u32)
    requires
        rounds_to(bits, a),
        rounds_to(bits, b),
    ensures
        a == b,
{
    if magnitude(bits) < INFINITY_BITS {
        let units = double_units(magnitude(bits));
        let x = binary32::magnitude(a);
        let y = binary32::magnitude(b);
        lemma_pow2_pos(925);
        rounding::lemma_nearest_is_unique(units, pow2(925), x, y);
        rounding::lemma_nearest_is_unique(units, pow2(925), y, x);
    }
}

/// Rounds the magnitude of a finite number.
fn narrow_finite(m: u64) -> (r: u32)
    requires
        m < INFINITY_BITS,
    ensures
        rounding::nearest(double_units(m as int), pow2(925), r as int),
{
    let e: u64 = m / 0x10_0000_0000_0000;
    let f: u64 = m % 0x10_0000_0000_0000;
    let significand: u64 = if e == 0 {
        f
    } else {
        0x10_0000_0000_0000 + f
    };
    let up: u32 = if e == 0 {
        2
    } else {
        e as u32 + 1
    };
    let ghost num = double_units(m as int);
    let ghost den = pow2(925);
    proof {
        let s = significand as int;
        let p = pow2((up - 2) as nat) as int;
        let u = pow2(up as nat) as int;
        lemma2_to64();
        lemma_pow2_adds((up - 2) as nat, 2);
        lemma_pow2_pos(up as nat);
        lemma_pow2_pos(925);
        assert(num == s * p) by {
            assert(s * 1 == s) by (nonlinear_arith);
        }
        assert(s * u * den == 4 * num * den) by (nonlinear_arith)
            requires
                u == 4 * p,
                num == s * p,
        ;
        assert((s + 1) * u * den > s * u * den) by (nonlinear_arith)
            requires
                u > 0,
                den > 0,
        ;
    }
    rounding::round_scaled(significand as u128, false, up, 925, Ghost(num), Ghost(den))
}

/// Rounds a number of double precision to single precision.
pub fn narrow(bits: u64) -> (r: u32)
    ensures
        rounds_to(bits, r),
        r == rounded(bits),
{
    let negative = bits >= SIGN_BIT;
    let m: u64 = if negative {
        bits - SIGN_BIT
    } else {
        bits
    };
    assert(m == magnitude(bits));
    let k: u32 = if m > INFINITY_BITS {
        binary32::QUIET_NAN_BITS
    } else if m == INFINITY_BITS {
        binary32::INFINITY_BITS
    } else {
        narrow_finite(m)
    };
    let narrow = if negative {
        k + binary32::SIGN_BIT
    } else {
        k
    };
    proof {
        assert(rounds_to(bits, narrow));
        lemma_rounding_is_unique(bits, narrow, rounded(bits));
    }
    narrow
}

} // verus!
