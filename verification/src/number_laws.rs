//! Laws of numbers: what reading, rounding, adding and dividing come to where the result is exact,
//! and what they keep where it is not.

use crate::arithmetic;
use crate::binary32;
use crate::decimal;
use crate::literal;
use crate::narrowing;
use crate::rounding;
use vstd::arithmetic::power2::{lemma2_to64, lemma_pow2_adds, lemma_pow2_pos, pow2};
use vstd::prelude::*;

verus! {

/// The bits of a whole number as it is written.
pub open spec fn whole(n: nat) -> u32 {
    literal::number_bits(decimal::decimal_text(n))->0
}

/// What the bits of a whole number up to 2^24 count.
proof fn lemma_whole(n: nat)
    requires
        n <= 0x100_0000,
    ensures
        literal::number_bits(decimal::decimal_text(n)) == Some(whole(n)),
        whole(n) < 0x7f80_0000,
        rounding::units(whole(n) as int) == n * pow2(149),
        n > 0 ==> whole(n) == arithmetic::of_count(n) && whole(n) >= 0x3f80_0000,
        n == 0 ==> whole(n) == 0,
{
    literal::law_whole_numbers_are_numbers(n);
    if n == 0 {
        rounding::lemma_nearest_is_exact(0);
        assert(rounding::units(0) == 0);
        assert(n * pow2(149) == 0) by (nonlinear_arith)
            requires
                n == 0,
        ;
        rounding::lemma_closest(0, 1, 0);
    } else {
        arithmetic::lemma_small_counts_are_exact(n);
    }
}

/// Whole numbers up to 2^24 are told apart, and greater ones have greater bits.
pub proof fn law_whole_numbers_ascend(a: nat, b: nat)
    requires
        a < b <= 0x100_0000,
    ensures
        whole(a) < whole(b) < 0x7f80_0000,
{
    lemma_whole(a);
    lemma_whole(b);
    lemma_pow2_pos(149);
    assert(a * pow2(149) < b * pow2(149)) by (nonlinear_arith)
        requires
            a < b,
            pow2(149) > 0,
    ;
    if whole(b) < whole(a) {
        rounding::lemma_units_increase(whole(b) as int, whole(a) as int);
    }
}

/// A number that is there already is the nearest.
pub proof fn lemma_nearest_is_there(num: nat, den: nat, k: int)
    requires
        den > 0,
        0 <= k <= binary32::INFINITY_BITS,
        num == rounding::units(k) * den,
    ensures
        rounding::nearest(num, den, k),
{
    let u = rounding::units(k) as int;
    if k > 0 {
        rounding::lemma_units_increase(k - 1, k);
        let v = rounding::units(k - 1) as int;
        assert((v + u) * den < 2 * (u * den)) by (nonlinear_arith)
            requires
                v < u,
                den > 0,
        ;
    }
    if k < binary32::INFINITY_BITS {
        rounding::lemma_units_increase(k, k + 1);
        let w = rounding::units(k + 1) as int;
        assert(2 * (u * den) < (u + w) * den) by (nonlinear_arith)
            requires
                u < w,
                den > 0,
        ;
    }
}

/// Nothing is added by a zero with a sign: every number but a NaN stays as it is, whichever side the
/// zero stands on.
pub proof fn law_zero_adds_nothing(n: u32)
    requires
        n as int % 0x8000_0000 <= 0x7f80_0000,
    ensures
        arithmetic::plus(0x8000_0000, n) == n,
        arithmetic::plus(n, 0x8000_0000) == n,
{
    let k = binary32::magnitude(n);
    if k < binary32::INFINITY_BITS {
        rounding::lemma_nearest_is_exact(k);
        assert(rounding::units(0) == 0);
        if k > 0 {
            rounding::lemma_units_increase(0, k);
        }
    }
    arithmetic::law_sum_is_rounded(0x8000_0000, n, n);
    arithmetic::law_sum_is_rounded(n, 0x8000_0000, n);
}

/// The order in which two numbers are added does not matter.
pub proof fn law_sums_of_two_commute(a: u32, b: u32)
    ensures
        arithmetic::plus(a, b) == arithmetic::plus(b, a),
{
    let sum = arithmetic::plus(a, b);
    arithmetic::law_sum_is_rounded(a, b, sum);
    arithmetic::law_sum_is_rounded(b, a, sum);
}

/// Whole numbers are added exactly as long as the sum is at most 2^24.
pub proof fn law_whole_numbers_add_up(a: nat, b: nat)
    requires
        a + b <= 0x100_0000,
    ensures
        arithmetic::plus(whole(a), whole(b)) == whole(a + b),
{
    lemma_whole(a);
    lemma_whole(b);
    lemma_whole(a + b);
    lemma_pow2_pos(149);
    let d = pow2(149);
    assert(a * d + b * d == (a + b) * d) by (nonlinear_arith);
    rounding::lemma_nearest_is_exact(whole(a + b) as int);
    lemma_sum_of_magnitudes(whole(a), whole(b), whole(a + b), (a + b) * d);
}

/// The sum of two finite numbers without a sign.
proof fn lemma_sum_of_magnitudes(a: u32, b: u32, sum: u32, exact: nat)
    requires
        a < 0x7f80_0000,
        b < 0x7f80_0000,
        sum <= 0x7f80_0000,
        rounding::units(a as int) + rounding::units(b as int) == exact,
        rounding::nearest(exact, 1, sum as int),
    ensures
        arithmetic::plus(a, b) == sum,
{
    if exact == 0 {
        rounding::lemma_nearest_at_most(exact, 1, sum as int, 0);
    }
    assert(binary32::magnitude(a) == a && binary32::magnitude(b) == b);
    assert(binary32::magnitude(sum) == sum);
    arithmetic::law_sum_is_rounded(a, b, sum);
}

/// The number with the other sign.
pub open spec fn minus(n: u32) -> u32 {
    if n >= 0x8000_0000 {
        (n - 0x8000_0000) as u32
    } else {
        (n + 0x8000_0000) as u32
    }
}

/// The other sign is on the same magnitude.
proof fn lemma_minus(n: u32)
    ensures
        binary32::magnitude(minus(n)) == binary32::magnitude(n),
        binary32::is_negative(minus(n)) <==> !binary32::is_negative(n),
        arithmetic::signed_units(minus(n)) == -arithmetic::signed_units(n),
        minus(minus(n)) == n,
{
}

/// Numbers with the other sign have the sum with the other sign, but for a sum of zero.
#[verifier::spinoff_prover]
pub proof fn law_signs_mirror_sums(a: u32, b: u32)
    requires
        a as int % 0x8000_0000 <= 0x7f80_0000,
        b as int % 0x8000_0000 <= 0x7f80_0000,
        arithmetic::plus(a, b) as int % 0x8000_0000 != 0,
        arithmetic::plus(a, b) as int % 0x8000_0000 <= 0x7f80_0000,
    ensures
        arithmetic::plus(minus(a), minus(b)) == minus(arithmetic::plus(a, b)),
{
    let sum = arithmetic::plus(a, b);
    arithmetic::law_sum_is_rounded(a, b, sum);
    lemma_minus(a);
    lemma_minus(b);
    lemma_minus(sum);
    arithmetic::law_sum_is_rounded(minus(a), minus(b), minus(sum));
}

/// A whole number that is a multiple of another is divided exactly, as long as it is at most 2^24.
#[verifier::spinoff_prover]
pub proof fn law_whole_numbers_divide(n: nat, k: nat, quotient: u32)
    requires
        1 <= k,
        n * k <= 0x100_0000,
    ensures
        arithmetic::is_quotient(whole(n * k), arithmetic::of_count(k), quotient) <==> quotient
            == whole(n),
{
    assert(n <= n * k) by (nonlinear_arith)
        requires
            1 <= k,
    ;
    if n == 0 {
        assert(n * k == 0) by (nonlinear_arith)
            requires
                n == 0,
        ;
        lemma_whole(0);
    } else {
        assert(k <= n * k) by (nonlinear_arith)
            requires
                1 <= n,
        ;
        lemma_whole(n);
        lemma_whole(n * k);
        lemma_whole(k);
        lemma_pow2_pos(149);
        let d = pow2(149);
        assert(((n * k) * d) * d == (n * d) * (k * d)) by (nonlinear_arith);
        assert(k * d > 0) by (nonlinear_arith)
            requires
                k >= 1,
                d > 0,
        ;
        lemma_exact_quotient(whole(n * k), arithmetic::of_count(k), whole(n), quotient);
    }
}

/// A quotient that is there is the only one.
proof fn lemma_exact_quotient(a: u32, divisor: int, exact: u32, quotient: u32)
    requires
        0 < a < 0x7f80_0000,
        exact < 0x7f80_0000,
        rounding::units(divisor) > 0,
        rounding::units(a as int) * pow2(149) == rounding::units(exact as int) * rounding::units(
            divisor,
        ),
    ensures
        arithmetic::is_quotient(a, divisor, quotient) <==> quotient == exact,
{
    let num = rounding::units(a as int) * pow2(149);
    let den = rounding::units(divisor);
    assert(binary32::magnitude(a) == a && binary32::magnitude(exact) == exact);
    lemma_nearest_is_there(num, den, exact as int);
    if arithmetic::is_quotient(a, divisor, quotient) {
        let q = binary32::magnitude(quotient);
        rounding::lemma_nearest_is_unique(num, den, q, exact as int);
        rounding::lemma_nearest_is_unique(num, den, exact as int, q);
    }
}

/// Numerator and denominator may be multiplied by the same.
pub proof fn lemma_nearest_scales(num: nat, den: nat, c: nat, k: int)
    requires
        c > 0,
    ensures
        rounding::nearest(num * c, den * c, k) <==> rounding::nearest(num, den, k),
{
    if 0 <= k <= binary32::INFINITY_BITS {
        let u = rounding::units(k) as int;
        let v = rounding::units(k - 1) as int;
        let w = rounding::units(k + 1) as int;
        assert((v + u) * (den * c) == ((v + u) * den) * c) by (nonlinear_arith);
        assert((u + w) * (den * c) == ((u + w) * den) * c) by (nonlinear_arith);
        assert(2 * (num * c) == (2 * num) * c) by (nonlinear_arith);
        lemma_cancel((v + u) * den, 2 * num as int, c as int);
        lemma_cancel(2 * num as int, (u + w) * den, c as int);
    }
}

proof fn lemma_cancel(a: int, b: int, c: int)
    requires
        c > 0,
    ensures
        a * c < b * c <==> a < b,
        a * c == b * c <==> a == b,
{
    assert(a * c < b * c <==> a < b) by (nonlinear_arith)
        requires
            c > 0,
    ;
    assert(b * c < a * c <==> b < a) by (nonlinear_arith)
        requires
            c > 0,
    ;
}

/// A pattern of double precision rounds to one pattern, found by its rule.
proof fn lemma_rounded(bits: u64, narrow: u32)
    requires
        narrowing::rounds_to(bits, narrow),
    ensures
        narrow == narrowing::rounded(bits),
{
    let other = narrowing::rounded(bits);
    assert(narrowing::rounds_to(bits, other));
    if narrowing::magnitude(bits) < narrowing::INFINITY_BITS {
        lemma_pow2_pos(925);
        let units = narrowing::double_units(narrowing::magnitude(bits));
        let x = binary32::magnitude(narrow);
        let y = binary32::magnitude(other);
        rounding::lemma_nearest_is_unique(units, pow2(925), x, y);
        rounding::lemma_nearest_is_unique(units, pow2(925), y, x);
    }
}

/// Every pattern of double precision has the one that it is rounded to.
#[verifier::spinoff_prover]
pub proof fn lemma_rounds(bits: u64)
    ensures
        narrowing::rounds_to(bits, narrowing::rounded(bits)),
{
    let m = narrowing::magnitude(bits);
    let k = if m > narrowing::INFINITY_BITS {
        binary32::QUIET_NAN_BITS as int
    } else if m == narrowing::INFINITY_BITS {
        binary32::INFINITY_BITS as int
    } else {
        lemma_pow2_pos(925);
        rounding::lemma_nearest_exists(narrowing::double_units(m), pow2(925));
        rounding::closest(narrowing::double_units(m), pow2(925))
    };
    let narrow = if bits >= narrowing::SIGN_BIT {
        (k + 0x8000_0000) as u32
    } else {
        k as u32
    };
    assert(narrowing::rounds_to(bits, narrow));
}

/// A number in a log and a number in a query agree: a whole number of double precision is rounded to
/// the same pattern as the number reads as where it is written, zero too.
pub proof fn law_logs_and_queries_agree_on_whole_numbers(bits: u64, n: nat)
    requires
        bits < 0x7ff0_0000_0000_0000,
        narrowing::double_units(bits as int) == n * pow2(1074),
    ensures
        literal::number_bits(decimal::decimal_text(n)) == Some(narrowing::rounded(bits)),
{
    literal::law_whole_numbers_are_numbers(n);
    let c = pow2(925);
    lemma_pow2_pos(925);
    lemma_pow2_adds(149, 925);
    assert((n * pow2(149)) * c == n * (pow2(149) * c)) by (nonlinear_arith);
    rounding::lemma_nearest_exists(n * pow2(149), 1);
    let k = rounding::closest(n * pow2(149), 1);
    lemma_nearest_scales(n * pow2(149), 1, c, k);
    assert(1 * c == c);
    lemma_rounded(bits, k as u32);
}

/// Greater magnitudes count more.
proof fn lemma_double_units_ascend(a: int, b: int)
    requires
        0 <= a <= b,
    ensures
        narrowing::double_units(a) <= narrowing::double_units(b),
    decreases b - a,
{
    if a < b {
        let c = b - 1;
        lemma_double_units_ascend(a, c);
        let e = c / 0x10_0000_0000_0000;
        let f = c % 0x10_0000_0000_0000;
        lemma2_to64();
        if f < 0x10_0000_0000_0000 - 1 {
            assert(b / 0x10_0000_0000_0000 == e && b % 0x10_0000_0000_0000 == f + 1);
            if e > 0 {
                let p = pow2((e - 1) as nat) as int;
                assert((0x10_0000_0000_0000 + f) * p <= (0x10_0000_0000_0000 + f + 1) * p)
                    by (nonlinear_arith)
                    requires
                        p >= 0,
                ;
            }
        } else {
            assert(b / 0x10_0000_0000_0000 == e + 1 && b % 0x10_0000_0000_0000 == 0);
            if e > 0 {
                lemma_pow2_adds((e - 1) as nat, 1);
                let p = pow2((e - 1) as nat) as int;
                assert((0x10_0000_0000_0000 + f) * p <= 0x10_0000_0000_0000 * (p * 2))
                    by (nonlinear_arith)
                    requires
                        p >= 0,
                        f < 0x10_0000_0000_0000,
                ;
            }
        }
    }
}

/// Rounding to single precision keeps the order, up to infinity, and the sign, and it is the same for
/// numbers that differ in their sign alone. A NaN stays one.
pub proof fn law_rounding_keeps_order_and_sign(a: u64, b: u64)
    requires
        a <= b < 0x8000_0000_0000_0000,
    ensures
        b <= 0x7ff0_0000_0000_0000 ==> narrowing::rounded(a) <= narrowing::rounded(b)
            <= 0x7f80_0000,
        b > 0x7ff0_0000_0000_0000 ==> 0x7f80_0000 < narrowing::rounded(b) < 0x8000_0000,
        narrowing::rounded((b + 0x8000_0000_0000_0000) as u64) == narrowing::rounded(b)
            + 0x8000_0000,
{
    lemma_rounds(b);
    let y = narrowing::rounded(b);
    if b <= 0x7ff0_0000_0000_0000 {
        lemma_rounding_ascends(a, b);
    }
    lemma_rounding_mirrors(b, y);
}

proof fn lemma_rounding_ascends(a: u64, b: u64)
    requires
        a <= b <= 0x7ff0_0000_0000_0000,
    ensures
        narrowing::rounded(a) <= narrowing::rounded(b) <= 0x7f80_0000,
{
    lemma_rounds(a);
    lemma_rounds(b);
    let x = narrowing::rounded(a);
    let y = narrowing::rounded(b);
    assert(narrowing::magnitude(a) == a && narrowing::magnitude(b) == b);
    assert(binary32::magnitude(x) == x && binary32::magnitude(y) == y);
    if b < 0x7ff0_0000_0000_0000 {
        let m = narrowing::double_units(a as int);
        let n = narrowing::double_units(b as int);
        assert(m <= n) by {
            lemma_double_units_ascend(a as int, b as int);
        }
        lemma_pow2_pos(925);
        rounding::lemma_nearest_ascends(m, n, pow2(925), x as int, y as int);
    }
}

proof fn lemma_rounding_mirrors(b: u64, y: u32)
    requires
        b < 0x8000_0000_0000_0000,
        narrowing::rounds_to(b, y),
    ensures
        narrowing::rounded((b + 0x8000_0000_0000_0000) as u64) == y + 0x8000_0000,
{
    let mirrored = (b + 0x8000_0000_0000_0000) as u64;
    let z = (y + 0x8000_0000) as u32;
    assert(narrowing::magnitude(mirrored) == narrowing::magnitude(b));
    assert(binary32::magnitude(z) == binary32::magnitude(y));
    lemma_rounded(mirrored, z);
}

/// The step from one magnitude to the next is at most a part in 2^23 of it, past the least ones.
proof fn lemma_steps_are_small(k: int)
    requires
        0x80_0000 <= k,
    ensures
        0x80_0000 * (rounding::units(k + 1) - rounding::units(k)) <= rounding::units(k),
        0x80_0000 * (rounding::units(k) - rounding::units(k - 1)) <= rounding::units(k),
{
    let e = k / 0x80_0000;
    let f = k % 0x80_0000;
    let p = pow2((e - 1) as nat) as int;
    rounding::lemma_units_step(k);
    rounding::lemma_units_step(k - 1);
    assert(0x80_0000 * p <= (0x80_0000 + f) * p) by (nonlinear_arith)
        requires
            f >= 0,
            p >= 0,
    ;
    let g = (k - 1) / 0x80_0000;
    if g < e {
        lemma2_to64();
        if g >= 1 {
            lemma_pow2_adds((g - 1) as nat, 1);
        }
    }
}

/// What is rounded past the least magnitudes is off by at most a part in 2^24.
proof fn lemma_rounding_error(num: nat, den: nat, k: int)
    requires
        rounding::nearest(num, den, k),
        0x80_0000 <= k < binary32::INFINITY_BITS,
    ensures
        0x100_0000 * (rounding::units(k) * den - num) <= rounding::units(k) * den,
        0x100_0000 * (num - rounding::units(k) * den) <= rounding::units(k) * den,
{
    let u = rounding::units(k) as int;
    let v = rounding::units(k - 1) as int;
    let w = rounding::units(k + 1) as int;
    let d = den as int;
    lemma_steps_are_small(k);
    assert(0x80_0000 * ((u - v) * d) <= u * d) by (nonlinear_arith)
        requires
            0x80_0000 * (u - v) <= u,
            d >= 0,
    ;
    assert(0x80_0000 * ((w - u) * d) <= u * d) by (nonlinear_arith)
        requires
            0x80_0000 * (w - u) <= u,
            d >= 0,
    ;
    assert((v + u) * d == 2 * (u * d) - (u - v) * d) by (nonlinear_arith);
    assert((u + w) * d == 2 * (u * d) + (w - u) * d) by (nonlinear_arith);
}

/// The magnitude of a percentage lies between a hundredth and one, and is off by a part in 2^24.
proof fn lemma_fraction(n: nat)
    requires
        1 <= n <= 100,
    ensures
        0x3c00_0000 <= arithmetic::fraction(n) <= 0x3f80_0000,
        ({
            let f = rounding::units(arithmetic::fraction(n)) * 100;
            let exact = n * pow2(149);
            0x100_0000 * (f - exact) <= f && 0x100_0000 * (exact - f) <= f
        }),
{
    let d = pow2(149) as int;
    let num = n * pow2(149);
    let k = arithmetic::fraction(n);
    rounding::lemma_nearest_exists(num, 100);
    arithmetic::lemma_powers();
    lemma_pow2_pos(149);
    assert(num <= d * 100) by (nonlinear_arith)
        requires
            num == n * d,
            n <= 100,
            d > 0,
    ;
    rounding::lemma_nearest_at_most(num, 100, k, 0x3f80_0000);
    // 2^-7 is less than a hundredth.
    assert(0x3c00_0000int / 0x80_0000 == 120 && 0x3c00_0000int % 0x80_0000 == 0);
    lemma2_to64();
    lemma_pow2_adds(23, 119);
    lemma_pow2_adds(142, 7);
    let c = pow2(142) as int;
    assert(rounding::units(0x3c00_0000) == c);
    assert(c * 100 <= num) by (nonlinear_arith)
        requires
            num == n * d,
            d == c * 128,
            n >= 1,
            c >= 0,
    ;
    rounding::lemma_nearest_at_least(num, 100, k, 0x3c00_0000);
    lemma_rounding_error(num, 100, k);
}

/// A percentile is of the nearest rank: among at most 2^14 numbers, the ones up to the rank of the
/// Nth percentile are at least N in a hundred, and the ones before it at most N in a hundred.
pub proof fn law_percentiles_are_of_the_nearest_rank(n: nat, len: nat)
    requires
        1 <= n <= 100,
        1 <= len <= 0x4000,
    ensures
        ({
            let rank = arithmetic::percentile_rank(arithmetic::fraction(n), len);
            &&& 0 <= rank < len
            &&& 100 * rank <= n * len <= 100 * (rank + 1)
        }),
{
    let p = arithmetic::fraction(n);
    let l = arithmetic::of_count(len);
    let x = arithmetic::product(p, l);
    let d = pow2(149) as int;
    let f = rounding::units(p) as int;
    lemma_fraction(n);
    arithmetic::lemma_small_counts_are_exact(len);
    lemma_pow2_pos(149);
    let num = rounding::units(p) * rounding::units(l);
    rounding::lemma_nearest_exists(num, pow2(149));
    arithmetic::lemma_product_bounds(p, l, x);
    arithmetic::law_ranks_are_in_bounds(p as u32, len);
    let v = rounding::units(x) as int;
    assert(num == f * (len * d)) by (nonlinear_arith)
        requires
            num == f * rounding::units(l),
            rounding::units(l) == len * d,
    ;
    assert(0x80_0000 <= x < binary32::INFINITY_BITS) by {
        assert(num >= f * d) by (nonlinear_arith)
            requires
                num == f * (len * d),
                len >= 1,
                d > 0,
                f >= 0,
        ;
        rounding::lemma_nearest_at_least(num, pow2(149), x, p);
    }
    lemma_rounding_error(num, pow2(149), x);
    // Both errors, with the common factor cancelled.
    let t = f * len;
    assert(f * (len * d) == t * d) by (nonlinear_arith)
        requires
            t == f * len,
    ;
    lemma_errors_cancel(v, t, d);
    let rank = arithmetic::percentile_rank(p, len);
    let count = (v + d - 1) / d;
    vstd::arithmetic::div_mod::lemma_fundamental_div_mod(v + d - 1, d);
    assert((count - 1) * d < v <= count * d) by (nonlinear_arith)
        requires
            v + d - 1 == d * count + (v + d - 1) % d,
            0 <= (v + d - 1) % d < d,
            d > 0,
    ;
    assert(rank == count - 1);
    lemma_rank_bounds(n as int, len as int, rank, f, t, v, d);
}

proof fn lemma_errors_cancel(v: int, t: int, d: int)
    requires
        d > 0,
        0x100_0000 * (v * d - t * d) <= v * d,
        0x100_0000 * (t * d - v * d) <= v * d,
    ensures
        0x100_0000 * (v - t) <= v,
        0x100_0000 * (t - v) <= v,
{
    assert(0x100_0000 * (v - t) <= v) by (nonlinear_arith)
        requires
            d > 0,
            0x100_0000 * (v * d - t * d) <= v * d,
    ;
    assert(0x100_0000 * (t - v) <= v) by (nonlinear_arith)
        requires
            d > 0,
            0x100_0000 * (t * d - v * d) <= v * d,
    ;
}

/// Two errors of a part in 2^24 do not add up to a hundredth of a rank among so few.
proof fn lemma_rank_bounds(n: int, len: int, rank: int, f: int, t: int, v: int, d: int)
    requires
        1 <= n <= 100,
        1 <= len <= 0x4000,
        0 <= rank < len,
        d > 0,
        f >= 0,
        t == f * len,
        0x100_0000 * (f * 100 - n * d) <= f * 100,
        0x100_0000 * (n * d - f * 100) <= f * 100,
        0x100_0000 * (v - t) <= v,
        0x100_0000 * (t - v) <= v,
        rank * d < v <= (rank + 1) * d,
    ensures
        100 * rank <= n * len <= 100 * (rank + 1),
{
    let e = n * len;
    // f * 100 * len is t * 100.
    assert(0x100_0000 * (t * 100 - e * d) <= t * 100) by (nonlinear_arith)
        requires
            0x100_0000 * (f * 100 - n * d) <= f * 100,
            t == f * len,
            e == n * len,
            len >= 1,
    ;
    assert(0x100_0000 * (e * d - t * 100) <= t * 100) by (nonlinear_arith)
        requires
            0x100_0000 * (n * d - f * 100) <= f * 100,
            t == f * len,
            e == n * len,
            len >= 1,
    ;
    assert(v <= 0x4000 * d) by (nonlinear_arith)
        requires
            v <= (rank + 1) * d,
            rank + 1 <= 0x4000,
            d > 0,
    ;
    assert(t <= 2 * v && v <= 2 * t);
    assert((100 * rank) * d < 100 * v) by (nonlinear_arith)
        requires
            rank * d < v,
    ;
    assert(100 * v <= (100 * (rank + 1)) * d) by (nonlinear_arith)
        requires
            v <= (rank + 1) * d,
    ;
    assert((100 * rank) * d < (e + 1) * d) by (nonlinear_arith)
        requires
            (100 * rank) * d < 100 * v,
            0x100_0000 * (v - t) <= v,
            0x100_0000 * (t * 100 - e * d) <= t * 100,
            v <= 0x4000 * d,
            t <= 2 * v,
            d > 0,
    ;
    assert(e * d < (100 * (rank + 1) + 1) * d) by (nonlinear_arith)
        requires
            100 * v <= (100 * (rank + 1)) * d,
            0x100_0000 * (t - v) <= v,
            0x100_0000 * (e * d - t * 100) <= t * 100,
            v <= 0x4000 * d,
            t <= 2 * v,
            d > 0,
    ;
    lemma_cancel(100 * rank, e + 1, d);
    lemma_cancel(e, 100 * (rank + 1) + 1, d);
}

/// How far apart two counts are.
pub open spec fn distance(a: int, b: int) -> int {
    if a < b {
        b - a
    } else {
        a - b
    }
}

/// What is rounded to is no farther than any other magnitude, and where another is as near it is the
/// even one of the two.
pub proof fn law_the_nearest_is_no_farther_than_any(num: nat, den: nat, k: int, other: int)
    requires
        den > 0,
        rounding::nearest(num, den, k),
        0 <= other <= 0x7f80_0000,
        other != k,
    ensures
        ({
            let here = distance(num as int, (rounding::units(k) * den) as int);
            let there = distance(num as int, (rounding::units(other) * den) as int);
            here < there || here == there && k % 2 == 0
        }),
{
    let u = rounding::units(k) as int;
    let d = den as int;
    let o = rounding::units(other) as int;
    if other < k {
        let v = rounding::units(k - 1) as int;
        if other < k - 1 {
            rounding::lemma_units_increase(other, k - 1);
        }
        rounding::lemma_units_increase(k - 1, k);
        assert((v + u) * d == v * d + u * d) by (nonlinear_arith);
        assert(o * d <= v * d < u * d) by (nonlinear_arith)
            requires
                o <= v < u,
                d > 0,
        ;
    } else {
        let w = rounding::units(k + 1) as int;
        if other > k + 1 {
            rounding::lemma_units_increase(k + 1, other);
        }
        rounding::lemma_units_increase(k, k + 1);
        assert((u + w) * d == u * d + w * d) by (nonlinear_arith);
        assert(u * d < w * d <= o * d) by (nonlinear_arith)
            requires
                u < w <= o,
                d > 0,
        ;
    }
}

/// A number of double precision that single precision has too stays what it is, the least ones and
/// zero among them.
pub proof fn law_single_numbers_stay(bits: u64, k: u32)
    requires
        bits < 0x7ff0_0000_0000_0000,
        k < 0x7f80_0000,
        narrowing::double_units(bits as int) == rounding::units(k as int) * pow2(925),
    ensures
        narrowing::rounded(bits) == k,
{
    lemma_pow2_pos(925);
    lemma_nearest_is_there(narrowing::double_units(bits as int), pow2(925), k as int);
    lemma_rounded(bits, k);
}

/// What magnitudes of single precision count: whole units, one for the least, and each the same step
/// as the one before, twice the step whenever so many have gone by.
pub proof fn law_units_grow_in_steps(k: int)
    requires
        0 <= k < 0x7f80_0000,
    ensures
        rounding::units(0) == 0,
        k < 0x100_0000 ==> rounding::units(k + 1) == rounding::units(k) + 1,
        k >= 0x100_0000 ==> rounding::units(k + 1) - rounding::units(k) == 2 * (rounding::units(
            k + 1 - 0x80_0000,
        ) - rounding::units(k - 0x80_0000)),
{
    rounding::lemma_units_step(k);
    lemma2_to64();
    if k >= 0x100_0000 {
        let e = k / 0x80_0000;
        assert((k - 0x80_0000) / 0x80_0000 == e - 1);
        rounding::lemma_units_step(k - 0x80_0000);
        lemma_pow2_adds((e - 2) as nat, 1);
    }
}

/// A number in decimal notation has nothing but digits, after a plus sign or none, which
/// changes nothing.
pub proof fn law_decimal_numbers_are_digits(text: Seq<char>, max: nat)
    ensures
        decimal::number_of(text, max) matches Some(n) ==> n <= max && text.len() > 0 && forall|
            i: int,
        |
            0 <= i < text.len() ==> '0' <= (#[trigger] text[i]) <= '9' || i == 0 && text[0] == '+',
        text.len() > 0 && text[0] != '+' ==> decimal::number_of(seq!['+'] + text, max)
            == decimal::number_of(text, max),
{
    let digits = decimal::unsigned_digits(text);
    if decimal::number_of(text, max) is Some {
        assert forall|i: int| 0 <= i < text.len() implies '0' <= (#[trigger] text[i]) <= '9' || i
            == 0 && text[0] == '+' by {
            if text[0] == '+' {
                if i > 0 {
                    assert(decimal::is_digit(digits[i - 1]));
                }
            } else {
                assert(decimal::is_digit(digits[i]));
            }
        }
    }
    let plus = seq!['+'] + text;
    assert(plus[0] == '+');
    assert(plus.skip(1) =~= text);
}

} // verus!
