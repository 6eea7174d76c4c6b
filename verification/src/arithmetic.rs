//! Arithmetic on single-precision numbers, carried as their bit patterns: sums, quotients and the
//! rank of a percentile, rounded as IEEE 754 rounds them.

use crate::binary32;
use crate::rounding;
use vstd::arithmetic::power2::{
    lemma2_to64, lemma_pow2_adds, lemma_pow2_pos, lemma_pow2_strictly_increases, pow2,
};
use vstd::prelude::*;

verus! {

/// What a finite number counts, in units of 2^-149.
pub open spec fn signed_units(bits: u32) -> int {
    if binary32::is_negative(bits) {
        -(rounding::units(binary32::magnitude(bits)) as int)
    } else {
        rounding::units(binary32::magnitude(bits)) as int
    }
}

/// Whether a pattern is an infinity.
pub open spec fn is_infinite(bits: u32) -> bool {
    binary32::magnitude(bits) == binary32::INFINITY_BITS
}

/// Whether a number is the sum of two others, rounded.
///
/// Infinities stay, but for opposite ones, whose sum is not a number; a sum of zero is positive
/// unless both numbers are negative.
pub open spec fn is_sum(a: u32, b: u32, sum: u32) -> bool {
    if binary32::is_nan(a) || binary32::is_nan(b) {
        sum == binary32::QUIET_NAN_BITS
    } else if is_infinite(a) {
        if is_infinite(b) && a != b {
            sum == binary32::QUIET_NAN_BITS
        } else {
            sum == a
        }
    } else if is_infinite(b) {
        sum == b
    } else {
        let exact = signed_units(a) + signed_units(b);
        if exact == 0 {
            sum == if binary32::is_negative(a) && binary32::is_negative(b) {
                binary32::SIGN_BIT
            } else {
                0
            }
        } else {
            &&& binary32::is_negative(sum) <==> exact < 0
            &&& rounding::nearest(
                if exact < 0 {
                    (-exact) as nat
                } else {
                    exact as nat
                },
                1,
                binary32::magnitude(sum),
            )
        }
    }
}

/// The sum of two numbers, rounded.
pub open spec fn plus(a: u32, b: u32) -> u32 {
    choose|sum: u32| is_sum(a, b, sum)
}

/// The sum of some numbers, added up from first to last.
pub open spec fn total(numbers: Seq<u32>) -> u32
    decreases numbers.len(),
{
    if numbers.len() == 0 {
        binary32::SIGN_BIT
    } else {
        plus(total(numbers.drop_last()), numbers.last())
    }
}

/// Two patterns with the same sign and magnitude are the same.
proof fn lemma_same_pattern(a: u32, b: u32)
    requires
        binary32::is_negative(a) == binary32::is_negative(b),
        binary32::magnitude(a) == binary32::magnitude(b),
    ensures
        a == b,
{
}

/// At most one number is the sum.
proof fn lemma_sum_is_unique(a: u32, b: u32, x: u32, y: u32)
    requires
        is_sum(a, b, x),
        is_sum(a, b, y),
    ensures
        x == y,
{
    if !binary32::is_nan(a) && !binary32::is_nan(b) && !is_infinite(a) && !is_infinite(b) {
        let exact = signed_units(a) + signed_units(b);
        if exact != 0 {
            let n = if exact < 0 {
                (-exact) as nat
            } else {
                exact as nat
            };
            rounding::lemma_nearest_is_unique(
                n,
                1,
                binary32::magnitude(x),
                binary32::magnitude(y),
            );
            rounding::lemma_nearest_is_unique(
                n,
                1,
                binary32::magnitude(y),
                binary32::magnitude(x),
            );
            lemma_same_pattern(x, y);
        }
    }
}

/// The pattern of a sign and a magnitude.
spec fn pattern(negative: bool, k: int) -> u32 {
    if negative {
        (k + binary32::SIGN_BIT) as u32
    } else {
        k as u32
    }
}

/// A sum is the one number that rounds the exact sum.
pub proof fn law_sum_is_rounded(a: u32, b: u32, sum: u32)
    ensures
        is_sum(a, b, sum) <==> sum == plus(a, b),
{
    let exact = signed_units(a) + signed_units(b);
    let n = if exact < 0 {
        (-exact) as nat
    } else {
        exact as nat
    };
    let rounded = if binary32::is_nan(a) || binary32::is_nan(b) || is_infinite(a) && is_infinite(b)
        && a != b {
        binary32::QUIET_NAN_BITS
    } else if is_infinite(a) {
        a
    } else if is_infinite(b) {
        b
    } else if exact == 0 {
        pattern(binary32::is_negative(a) && binary32::is_negative(b), 0)
    } else {
        rounding::lemma_nearest_exists(n, 1);
        pattern(exact < 0, rounding::closest(n, 1))
    };
    assert(is_sum(a, b, rounded));
    lemma_sum_is_unique(a, b, plus(a, b), rounded);
    if is_sum(a, b, sum) {
        lemma_sum_is_unique(a, b, plus(a, b), sum);
    }
}

/// The significand and exponent of a finite magnitude.
pub(crate) fn parts(magnitude: u32) -> (r: (u32, u32))
    requires
        magnitude < binary32::INFINITY_BITS,
    ensures
        r.1 == if magnitude >= 0x80_0000 {
            magnitude / 0x80_0000 - 1
        } else {
            0
        },
        rounding::units(magnitude as int) == r.0 * pow2(r.1 as nat),
        r.0 < 0x100_0000,
        r.1 <= 253,
        r.1 > 0 ==> r.0 >= 0x80_0000,
        magnitude > 0 ==> r.0 > 0,
{
    let exponent: u32 = magnitude / 0x80_0000;
    let fraction: u32 = magnitude % 0x80_0000;
    proof {
        lemma2_to64();
        assert(fraction * 1 == fraction) by (nonlinear_arith);
    }
    if exponent == 0 {
        (fraction, 0)
    } else {
        (0x80_0000 + fraction, exponent - 1)
    }
}

/// A signed count of `m * 2^e` units.
spec fn scaled(negative: bool, m: int, e: int) -> int {
    if negative {
        -(m * pow2(e as nat))
    } else {
        m * pow2(e as nat)
    }
}

/// Whether a sign and a magnitude are those of an exact sum, rounded.
spec fn rounds_sum(exact: int, both_negative: bool, r: (bool, u32)) -> bool {
    if exact == 0 {
        r == (both_negative, 0u32)
    } else {
        r.0 == (exact < 0) && rounding::nearest(
            if exact < 0 {
                (-exact) as nat
            } else {
                exact as nat
            },
            1,
            r.1 as int,
        )
    }
}

/// Adds two finite numbers, the first of no smaller exponent.
fn add_aligned(na: bool, ma: u32, ea: u32, nb: bool, mb: u32, eb: u32) -> (r: (bool, u32))
    requires
        eb <= ea <= 253,
        ma < 0x100_0000,
        mb < 0x100_0000,
        ea > 0 ==> ma >= 0x80_0000,
    ensures
        rounds_sum(
            scaled(na, ma as int, ea as int) + scaled(nb, mb as int, eb as int),
            na && nb,
            r,
        ),
{
    let d: u32 = ea - eb;
    let ghost exact = scaled(na, ma as int, ea as int) + scaled(nb, mb as int, eb as int);
    proof {
        lemma2_to64();
        lemma_pow2_pos(ea as nat);
        lemma_pow2_pos(eb as nat);
    }
    if d <= 80 {
        let shift: u128 = rounding::power_of_two(d);
        proof {
            lemma_pow2_adds(d as nat, eb as nat);
            lemma_pow2_adds(64, 16);
            if d < 80 {
                lemma_pow2_strictly_increases(d as nat, 80);
            }
            assert(shift <= 0x1_0000_0000_0000_0000_0000);
            assert(ma * shift <= 0x100_0000 * 0x1_0000_0000_0000_0000_0000) by (nonlinear_arith)
                requires
                    ma < 0x100_0000,
                    shift <= 0x1_0000_0000_0000_0000_0000,
            ;
        }
        let big: u128 = ma as u128 * shift;
        let small: u128 = mb as u128;
        let (negative, m): (bool, u128) = if na == nb {
            (na, big + small)
        } else if big >= small {
            (na, big - small)
        } else {
            (nb, small - big)
        };
        let ghost p = pow2(eb as nat) as int;
        proof {
            assert(ma * pow2(ea as nat) == big * p) by (nonlinear_arith)
                requires
                    pow2(ea as nat) == shift * p,
                    big == ma * shift,
            ;
            assert((big + small) * p == big * p + small * p) by (nonlinear_arith);
            assert((big - small) * p == big * p - small * p) by (nonlinear_arith);
            assert((small - big) * p == small * p - big * p) by (nonlinear_arith);
            assert(exact == if negative {
                -(m * p)
            } else {
                m * p
            });
        }
        if m == 0 {
            assert(m * p == 0) by (nonlinear_arith)
                requires
                    m == 0,
            ;
            return (na && nb, 0);
        }
        let ghost num = (m * p) as nat;
        proof {
            assert(m * p > 0) by (nonlinear_arith)
                requires
                    m > 0,
                    p > 0,
            ;
            lemma_quarters(m as int, eb as int);
        }
        let k = rounding::round(m, eb + 2, false, Ghost(num), Ghost(1nat));
        return (negative, k);
    }
    // The smaller number is worth less than the last bit that is kept of the larger one.
    let ghost p = pow2(ea as nat) as int;
    if mb == 0 {
        proof {
            assert(mb * pow2(eb as nat) == 0) by (nonlinear_arith)
                requires
                    mb == 0,
            ;
            assert(ma * p > 0) by (nonlinear_arith)
                requires
                    ma > 0,
                    p > 0,
            ;
            lemma_quarters(ma as int, ea as int);
        }
        let ghost num = (ma * p) as nat;
        let k = rounding::round(ma as u128, ea + 2, false, Ghost(num), Ghost(1nat));
        return (na, k);
    }
    let kept: u128 = ma as u128 * 0x100_0000_0000_0000;
    let m: u128 = if na == nb {
        kept
    } else {
        kept - 1
    };
    let ghost num = if exact < 0 {
        (-exact) as nat
    } else {
        exact as nat
    };
    proof {
        let c = pow2((ea - 54) as nat) as int;
        let f = pow2(eb as nat) as int;
        lemma_pow2_adds((ea - 54) as nat, 54);
        lemma_pow2_adds(eb as nat, 26);
        lemma_pow2_adds(27, 27);
        lemma_pow2_pos((ea - 54) as nat);
        assert(p == c * 0x40_0000_0000_0000);
        // Four times the larger, in units of the kept part.
        assert(4 * (ma * p) == kept * c) by (nonlinear_arith)
            requires
                p == c * 0x40_0000_0000_0000,
                kept == ma * 0x100_0000_0000_0000,
        ;
        // Four times the smaller is less than one of those.
        lemma_pow2_strictly_increases((eb + 26) as nat, (ea - 54) as nat);
        assert(0 < 4 * (mb * f) < c) by (nonlinear_arith)
            requires
                0 < mb < 0x100_0000,
                f > 0,
                f * 0x400_0000 < c,
        ;
        assert((kept + 1) * c == kept * c + c) by (nonlinear_arith);
        assert((kept - 1) * c == kept * c - c) by (nonlinear_arith);
        assert(kept * c >= c) by (nonlinear_arith)
            requires
                kept >= 1,
                c > 0,
        ;
        assert(exact < 0 <==> na);
        assert(m * c * 1 == m * c) by (nonlinear_arith);
        assert((m + 1) * c * 1 == (m + 1) * c) by (nonlinear_arith);
    }
    let k = rounding::round(m, ea - 54, true, Ghost(num), Ghost(1nat));
    (na, k)
}

/// Whole units as quarter units.
proof fn lemma_quarters(m: int, e: int)
    requires
        0 <= m,
        0 <= e,
    ensures
        m * pow2((e + 2) as nat) * 1 == 4 * (m * pow2(e as nat)),
        (m + 1) * pow2((e + 2) as nat) * 1 > m * pow2((e + 2) as nat) * 1,
{
    let p = pow2(e as nat) as int;
    let q = pow2((e + 2) as nat) as int;
    lemma2_to64();
    lemma_pow2_adds(e as nat, 2);
    lemma_pow2_pos(e as nat);
    assert(m * q * 1 == 4 * (m * p)) by (nonlinear_arith)
        requires
            q == p * 4,
    ;
    assert((m + 1) * q * 1 > m * q * 1) by (nonlinear_arith)
        requires
            q > 0,
    ;
}

/// Adds two numbers.
pub fn add(a: u32, b: u32) -> (r: u32)
    ensures
        is_sum(a, b, r),
        r == plus(a, b),
{
    let r = sum_of_two(a, b);
    proof {
        lemma_sum_is_unique(a, b, r, plus(a, b));
    }
    r
}

fn sum_of_two(a: u32, b: u32) -> (r: u32)
    ensures
        is_sum(a, b, r),
{
    let na = a >= binary32::SIGN_BIT;
    let nb = b >= binary32::SIGN_BIT;
    let am: u32 = if na {
        a - binary32::SIGN_BIT
    } else {
        a
    };
    let bm: u32 = if nb {
        b - binary32::SIGN_BIT
    } else {
        b
    };
    assert(am == binary32::magnitude(a) && bm == binary32::magnitude(b));
    if am > binary32::INFINITY_BITS || bm > binary32::INFINITY_BITS {
        return binary32::QUIET_NAN_BITS;
    }
    if am == binary32::INFINITY_BITS {
        return if bm == binary32::INFINITY_BITS && a != b {
            binary32::QUIET_NAN_BITS
        } else {
            a
        };
    }
    if bm == binary32::INFINITY_BITS {
        return b;
    }
    let (negative, k) = add_finite(na, am, nb, bm);
    signed(negative, k)
}

/// The pattern of a sign and a magnitude.
fn signed(negative: bool, k: u32) -> (r: u32)
    requires
        k < binary32::SIGN_BIT,
    ensures
        binary32::is_negative(r) == negative,
        binary32::magnitude(r) == k,
{
    if negative {
        k + binary32::SIGN_BIT
    } else {
        k
    }
}

/// Adds two finite numbers by their signs and magnitudes.
fn add_finite(na: bool, am: u32, nb: bool, bm: u32) -> (r: (bool, u32))
    requires
        am < binary32::INFINITY_BITS,
        bm < binary32::INFINITY_BITS,
    ensures
        rounds_sum(
            with_sign(na, rounding::units(am as int) as int) + with_sign(
                nb,
                rounding::units(bm as int) as int,
            ),
            na && nb,
            r,
        ),
        r.1 <= binary32::INFINITY_BITS,
{
    let (ma, ea) = parts(am);
    let (mb, eb) = parts(bm);
    if ea >= eb {
        add_aligned(na, ma, ea, nb, mb, eb)
    } else {
        add_aligned(nb, mb, eb, na, ma, ea)
    }
}

/// A number with a sign put to it.
spec fn with_sign(negative: bool, n: int) -> int {
    if negative {
        -n
    } else {
        n
    }
}

/// Adds up some numbers, from first to last.
pub fn sum(numbers: &Vec<u32>) -> (r: u32)
    ensures
        r == total(numbers@),
{
    let mut so_far: u32 = binary32::SIGN_BIT;
    let mut i: usize = 0;
    while i < numbers.len()
        invariant
            i <= numbers@.len(),
            so_far == total(numbers@.take(i as int)),
        decreases numbers@.len() - i,
    {
        assert(numbers@.take(i + 1).drop_last() =~= numbers@.take(i as int));
        so_far = self::add(so_far, numbers[i]);
        i += 1;
    }
    assert(numbers@.take(numbers@.len() as int) =~= numbers@);
    so_far
}

/// The magnitude of a count, rounded.
pub open spec fn of_count(n: nat) -> int {
    rounding::closest(n * pow2(149), 1)
}

/// The magnitude of a percentage as a fraction, rounded.
pub open spec fn fraction(percent: nat) -> int {
    rounding::closest(percent * pow2(149), 100)
}

/// The magnitude of the product of two magnitudes, rounded.
pub open spec fn product(a: int, b: int) -> int {
    rounding::closest(rounding::units(a) * rounding::units(b), pow2(149))
}

/// The least whole number that is no smaller than a magnitude.
pub open spec fn ceiling(k: int) -> int {
    (rounding::units(k) + pow2(149) - 1) / (pow2(149) as int)
}

/// Whether a number lies above zero and is at most one.
pub open spec fn is_fraction(bits: u32) -> bool {
    0 < bits <= binary32::ONE_BITS
}

/// The rank, counted from zero, of the number that ends a fraction of so many: the fraction times
/// their count, rounded up, less one.
pub open spec fn percentile_rank(p: int, len: nat) -> int {
    let count = ceiling(product(p, of_count(len)));
    if count > usize::MAX {
        usize::MAX - 1
    } else {
        count - 1
    }
}

/// Whether a number is the quotient of one and a positive finite one of a given magnitude, rounded.
pub open spec fn is_quotient(a: u32, divisor: int, quotient: u32) -> bool {
    if binary32::is_nan(a) {
        quotient == binary32::QUIET_NAN_BITS
    } else if is_infinite(a) || binary32::magnitude(a) == 0 {
        quotient == a
    } else {
        &&& binary32::is_negative(quotient) == binary32::is_negative(a)
        &&& rounding::nearest(
            rounding::units(binary32::magnitude(a)) * pow2(149),
            rounding::units(divisor),
            binary32::magnitude(quotient),
        )
    }
}

/// The average of some numbers: their sum, divided by how many they are.
pub open spec fn average(numbers: Seq<u32>) -> u32 {
    choose|quotient: u32| is_quotient(total(numbers), of_count(numbers.len()), quotient)
}

/// At most one number is the quotient.
proof fn lemma_quotient_is_unique(a: u32, divisor: int, x: u32, y: u32)
    requires
        rounding::units(divisor) > 0,
        is_quotient(a, divisor, x),
        is_quotient(a, divisor, y),
    ensures
        x == y,
{
    if !binary32::is_nan(a) && !is_infinite(a) && binary32::magnitude(a) != 0 {
        let num = rounding::units(binary32::magnitude(a)) * pow2(149);
        let den = rounding::units(divisor);
        let j = binary32::magnitude(x);
        let k = binary32::magnitude(y);
        rounding::lemma_nearest_is_unique(num, den, j, k);
        rounding::lemma_nearest_is_unique(num, den, k, j);
        lemma_same_pattern(x, y);
    }
}

/// What powers of two count.
pub proof fn lemma_powers()
    ensures
        rounding::units(0x3f80_0000) == pow2(149),
        rounding::units(0x5f80_0000) == pow2(64) * pow2(149),
{
    assert(0x3f80_0000int / 0x80_0000 == 127 && 0x3f80_0000int % 0x80_0000 == 0);
    assert(0x5f80_0000int / 0x80_0000 == 191 && 0x5f80_0000int % 0x80_0000 == 0);
    lemma2_to64();
    lemma_pow2_adds(23, 126);
    lemma_pow2_adds(23, 190);
    lemma_pow2_adds(64, 149);
}

/// The magnitude of a count is that of a finite number no smaller than one.
pub proof fn lemma_of_count(n: nat, k: int)
    requires
        1 <= n <= u64::MAX,
        rounding::nearest(n * pow2(149), 1, k),
    ensures
        0x3f80_0000 <= k <= 0x5f80_0000,
        rounding::units(k) > 0,
{
    let p = pow2(149) as int;
    lemma_powers();
    lemma_pow2_pos(149);
    lemma2_to64();
    assert(p * 1 <= n * p <= pow2(64) * p) by (nonlinear_arith)
        requires
            1 <= n <= pow2(64),
            p > 0,
    ;
    assert(n * p <= (pow2(64) * p) * 1) by (nonlinear_arith)
        requires
            n * p <= pow2(64) * p,
    ;
    rounding::lemma_nearest_at_least((n * p) as nat, 1, k, 0x3f80_0000);
    rounding::lemma_nearest_at_most((n * p) as nat, 1, k, 0x5f80_0000);
    rounding::lemma_units_increase(0, k);
}

/// The magnitude of a count.
fn count_magnitude(n: u64) -> (r: u32)
    requires
        1 <= n,
    ensures
        r == of_count(n as nat),
        0x3f80_0000 <= r <= 0x5f80_0000,
        rounding::units(r as int) > 0,
        rounding::nearest(n as nat * pow2(149), 1, r as int),
{
    let ghost num = n as nat * pow2(149);
    proof {
        let p = pow2(149) as int;
        let q = pow2(151) as int;
        lemma2_to64();
        lemma_pow2_adds(149, 2);
        lemma_pow2_pos(149);
        assert(n * q * 1 == 4 * num * 1) by (nonlinear_arith)
            requires
                num == n * p,
                q == p * 4,
        ;
        assert((n + 1) * q * 1 > n * q * 1) by (nonlinear_arith)
            requires
                q > 0,
        ;
    }
    let k = rounding::round_scaled(n as u128, false, 151, 0, Ghost(num), Ghost(1nat));
    proof {
        rounding::lemma_closest(num, 1, k as int);
        lemma_of_count(n as nat, k as int);
    }
    k
}

/// Divides a nonzero finite magnitude by another.
fn divide_magnitudes(a: u32, d: u32) -> (r: u32)
    requires
        0 < a < binary32::INFINITY_BITS,
        0 < d < binary32::INFINITY_BITS,
    ensures
        rounding::nearest(
            rounding::units(a as int) * pow2(149),
            rounding::units(d as int),
            r as int,
        ),
{
    let (ma, ea) = parts(a);
    let (md, ed) = parts(d);
    let dividend: u128 = ma as u128 * 0x1_0000_0000_0000_0000;
    let q: u128 = dividend / (md as u128);
    let rest: u128 = dividend % (md as u128);
    let ghost num = rounding::units(a as int) * pow2(149);
    let ghost den = rounding::units(d as int);
    proof {
        let x = pow2(ea as nat) as int;
        let y = pow2(ed as nat) as int;
        let p = pow2(149) as int;
        let u = pow2((ea + 151) as nat) as int;
        let w = pow2((ed + 64) as nat) as int;
        let t = 0x1_0000_0000_0000_0000int;
        lemma2_to64();
        lemma_pow2_adds(149, 2);
        lemma_pow2_adds(ea as nat, 151);
        lemma_pow2_adds(ed as nat, 64);
        lemma_pow2_pos(ea as nat);
        lemma_pow2_pos(ed as nat);
        lemma_pow2_pos(149);
        assert(dividend == q * md + rest && 0 <= rest < md) by (nonlinear_arith)
            requires
                md > 0,
                q == dividend as int / md as int,
                rest == dividend as int % md as int,
        ;
        let big = u * y;
        assert(big > 0 && den > 0) by (nonlinear_arith)
            requires
                x > 0,
                y > 0,
                p > 0,
                u == x * (p * 4),
                big == u * y,
                den == md * y,
                md > 0,
        ;
        assert(4 * num * w == dividend * big) by (nonlinear_arith)
            requires
                num == (ma * x) * p,
                w == y * t,
                dividend == ma * t,
                u == x * (p * 4),
                big == u * y,
        ;
        assert(q * u * den == (q * md) * big) by (nonlinear_arith)
            requires
                den == md * y,
                big == u * y,
        ;
        assert((q + 1) * u * den == (q * md) * big + md * big) by (nonlinear_arith)
            requires
                den == md * y,
                big == u * y,
        ;
        assert(dividend * big == (q * md) * big + rest * big) by (nonlinear_arith)
            requires
                dividend == q * md + rest,
        ;
        assert(rest * big < md * big && 0 <= rest * big && (rest > 0 ==> rest * big > 0)) by (
        nonlinear_arith)
            requires
                0 <= rest < md,
                big > 0,
        ;
        assert(rest == 0 ==> rest * big == 0) by (nonlinear_arith);
        assert(q >= 0x200_0000) by (nonlinear_arith)
            requires
                dividend == q * md + rest,
                rest < md,
                md < 0x100_0000,
                dividend >= 0x1_0000_0000_0000_0000,
                md > 0,
        ;
    }
    rounding::round_scaled(q, rest > 0, ea + 151, ed + 64, Ghost(num), Ghost(den))
}

/// Averages some numbers.
pub fn mean(numbers: &Vec<u32>) -> (r: u32)
    requires
        numbers@.len() > 0,
    ensures
        is_quotient(total(numbers@), of_count(numbers@.len()), r),
        r == average(numbers@),
{
    let dividend = sum(numbers);
    let divisor = count_magnitude(numbers.len() as u64);
    let r = quotient(dividend, divisor);
    proof {
        lemma_quotient_is_unique(
            dividend,
            of_count(numbers@.len()),
            r,
            average(numbers@),
        );
    }
    r
}

/// Divides a number by a positive finite one.
fn quotient(a: u32, divisor: u32) -> (r: u32)
    requires
        0 < divisor < binary32::INFINITY_BITS,
    ensures
        is_quotient(a, divisor as int, r),
{
    let negative = a >= binary32::SIGN_BIT;
    let m: u32 = if negative {
        a - binary32::SIGN_BIT
    } else {
        a
    };
    assert(m == binary32::magnitude(a));
    if m > binary32::INFINITY_BITS {
        return binary32::QUIET_NAN_BITS;
    }
    if m == binary32::INFINITY_BITS || m == 0 {
        return a;
    }
    let k = divide_magnitudes(m, divisor);
    signed(negative, k)
}

/// The quotient that lies between two multiples is rounded up to the upper.
proof fn lemma_ceiling(v: int, d: int, c: int)
    requires
        d > 0,
        (c - 1) * d < v <= c * d,
    ensures
        (v + d - 1) / d == c,
{
    let r = v + d - 1 - c * d;
    assert((c - 1) * d == c * d - d) by (nonlinear_arith);
    assert(v + d - 1 == c * d + r && 0 <= r < d);
    vstd::arithmetic::div_mod::lemma_fundamental_div_mod_converse(v + d - 1, d, c, r);
}

/// Rounds a magnitude of at most 2^64 up to a whole number.
fn whole_ceiling(k: u32) -> (r: u128)
    requires
        k <= 0x5f80_0000,
    ensures
        r == ceiling(k as int),
{
    let (m, e) = parts(k);
    let ghost v = rounding::units(k as int) as int;
    let ghost d = pow2(149) as int;
    let ghost x = pow2(e as nat) as int;
    proof {
        lemma2_to64();
        lemma_pow2_pos(149);
        lemma_pow2_pos(e as nat);
    }
    if e >= 149 {
        assert(e <= 190) by {
            lemma_exponent_bound(k as int, m as int, e as int);
        }
        let scale: u128 = rounding::power_of_two(e - 149);
        proof {
            lemma_pow2_adds((e - 149) as nat, 149);
            lemma_pow2_adds(32, 9);
            lemma_pow2_pos((e - 149) as nat);
            if e < 190 {
                lemma_pow2_strictly_increases((e - 149) as nat, 41);
            }
            assert(m * scale <= 0x100_0000 * 0x200_0000_0000) by (nonlinear_arith)
                requires
                    m < 0x100_0000,
                    0 < scale <= 0x200_0000_0000,
            ;
            let c = m * scale;
            assert(v == c * d) by (nonlinear_arith)
                requires
                    v == m * x,
                    x == scale * d,
                    c == m * scale,
            ;
            assert((c - 1) * d < c * d) by (nonlinear_arith)
                requires
                    d > 0,
            ;
            lemma_ceiling(v, d, c);
        }
        return m as u128 * scale;
    }
    let s: u32 = 149 - e;
    proof {
        lemma_pow2_adds(s as nat, e as nat);
        lemma_pow2_pos(s as nat);
        if s > 25 {
            lemma_pow2_strictly_increases(25, s as nat);
        }
        if s < 25 {
            lemma_pow2_strictly_increases(s as nat, 25);
        }
    }
    let ghost g = pow2(s as nat) as int;
    let c: u128 = if s >= 25 {
        if m > 0 {
            1
        } else {
            0
        }
    } else {
        let gap: u128 = rounding::power_of_two(s);
        (m as u128 + gap - 1) / gap
    };
    proof {
        if s < 25 {
            assert((c - 1) * g < m <= c * g) by (nonlinear_arith)
                requires
                    g > 0,
                    c == (m + g - 1) / g,
            ;
        } else {
            assert((c - 1) * g < m <= c * g) by (nonlinear_arith)
                requires
                    0 <= m < g,
                    c == if m > 0 {
                        1int
                    } else {
                        0int
                    },
            ;
        }
        assert((c - 1) * d < v && v <= c * d) by (nonlinear_arith)
            requires
                (c - 1) * g < m <= c * g,
                d == g * x,
                v == m * x,
                x > 0,
        ;
        lemma_ceiling(v, d, c as int);
    }
    c
}

/// The exponent of a magnitude of at most 2^64.
proof fn lemma_exponent_bound(k: int, m: int, e: int)
    requires
        0 <= k <= 0x5f80_0000,
        rounding::units(k) == m * pow2(e as nat),
        m >= 0x80_0000,
        e >= 149,
    ensures
        e <= 190,
{
    lemma_powers();
    lemma2_to64();
    lemma_pow2_adds(64, 149);
    if k < 0x5f80_0000 {
        rounding::lemma_units_increase(k, 0x5f80_0000);
    }
    if e > 190 {
        lemma_pow2_adds(23, 191);
        lemma_pow2_pos(191);
        if e > 191 {
            lemma_pow2_strictly_increases(191, e as nat);
        }
        lemma_pow2_strictly_increases(213, 214);
        assert(m * pow2(e as nat) >= 0x80_0000 * pow2(191)) by (nonlinear_arith)
            requires
                m >= 0x80_0000,
                pow2(e as nat) >= pow2(191),
        ;
    }
}

/// The bits of a percentage as a fraction.
pub fn fraction_of(percent: u8) -> (r: u32)
    requires
        1 <= percent <= 100,
    ensures
        r == fraction(percent as nat),
        is_fraction(r),
{
    let dividend: u128 = percent as u128 * 0x1_0000_0000_0000_0000;
    let q: u128 = dividend / 100;
    let rest: u128 = dividend % 100;
    let ghost num = percent as nat * pow2(149);
    proof {
        let p = pow2(149) as int;
        let u = pow2(151) as int;
        let w = pow2(64) as int;
        lemma2_to64();
        lemma_pow2_adds(149, 2);
        lemma_pow2_pos(149);
        assert(4 * num * w == dividend * u) by (nonlinear_arith)
            requires
                num == percent * p,
                u == p * 4,
                dividend == percent * w,
        ;
        assert(dividend * u == (q * 100) * u + rest * u) by (nonlinear_arith)
            requires
                dividend == q * 100 + rest,
        ;
        assert(q * u * 100 == (q * 100) * u) by (nonlinear_arith);
        assert((q + 1) * u * 100 == (q * 100) * u + 100 * u) by (nonlinear_arith);
        assert(rest * u < 100 * u && 0 <= rest * u && (rest > 0 ==> rest * u > 0)) by (
        nonlinear_arith)
            requires
                0 <= rest < 100,
                u > 0,
        ;
        assert(rest == 0 ==> rest * u == 0) by (nonlinear_arith);
    }
    let k = rounding::round_scaled(q, rest > 0, 151, 64, Ghost(num), Ghost(100nat));
    proof {
        rounding::lemma_closest(num, 100, k as int);
        lemma_fraction_bounds(percent as nat);
    }
    k
}

/// A percentage is a positive fraction of at most one.
pub proof fn lemma_fraction_bounds(percent: nat)
    requires
        1 <= percent <= 100,
    ensures
        1 <= fraction(percent) <= binary32::ONE_BITS,
{
    let k = fraction(percent);
    rounding::lemma_nearest_exists(percent * pow2(149), 100);
    let p = pow2(149) as int;
    let num = percent * pow2(149);
    lemma_powers();
    lemma2_to64();
    lemma_pow2_pos(149);
    assert(p <= num <= p * 100) by (nonlinear_arith)
        requires
            num == percent * p,
            1 <= percent <= 100,
            p > 0,
    ;
    rounding::lemma_nearest_at_most(num, 100, k, 0x3f80_0000);
    lemma_pow2_strictly_increases(7, 149);
    rounding::lemma_units_step(0);
    assert(rounding::units(1) == 1);
    rounding::lemma_nearest_at_least(num, 100, k, 1);
}

/// The product of a fraction and a count lies between zero and the count.
pub proof fn lemma_product_bounds(p: int, l: int, x: int)
    requires
        1 <= p <= 0x3f80_0000,
        0x3f80_0000 <= l <= 0x5f80_0000,
        rounding::nearest(rounding::units(p) * rounding::units(l), pow2(149), x),
    ensures
        1 <= x <= l,
{
    let a = rounding::units(p) as int;
    let b = rounding::units(l) as int;
    let d = pow2(149) as int;
    lemma_powers();
    lemma2_to64();
    lemma_pow2_pos(149);
    rounding::lemma_units_step(0);
    assert(rounding::units(1) == 1);
    if p > 1 {
        rounding::lemma_units_increase(1, p);
    }
    if p < 0x3f80_0000 {
        rounding::lemma_units_increase(p, 0x3f80_0000);
    }
    if l > 0x3f80_0000 {
        rounding::lemma_units_increase(0x3f80_0000, l);
    }
    assert(1 * d <= a * b && a * b <= b * d) by (nonlinear_arith)
        requires
            1 <= a <= d,
            b >= d,
            d > 0,
    ;
    rounding::lemma_nearest_at_least((a * b) as nat, pow2(149), x, 1);
    rounding::lemma_nearest_at_most((a * b) as nat, pow2(149), x, l);
}

/// An average is the one number that rounds the sum divided by the count.
pub proof fn law_average_is_rounded(numbers: Seq<u32>, quotient: u32)
    requires
        1 <= numbers.len() <= u64::MAX,
    ensures
        is_quotient(total(numbers), of_count(numbers.len()), quotient) <==> quotient == average(
            numbers,
        ),
{
    let a = total(numbers);
    let divisor = of_count(numbers.len());
    rounding::lemma_nearest_exists(numbers.len() * pow2(149), 1);
    lemma_of_count(numbers.len(), divisor);
    let num = rounding::units(binary32::magnitude(a)) * pow2(149);
    let den = rounding::units(divisor);
    let rounded = if binary32::is_nan(a) {
        binary32::QUIET_NAN_BITS
    } else if is_infinite(a) || binary32::magnitude(a) == 0 {
        a
    } else {
        rounding::lemma_nearest_exists(num, den);
        pattern(binary32::is_negative(a), rounding::closest(num, den))
    };
    assert(is_quotient(a, divisor, rounded));
    lemma_quotient_is_unique(a, divisor, average(numbers), rounded);
    if is_quotient(a, divisor, quotient) {
        lemma_quotient_is_unique(a, divisor, average(numbers), quotient);
    }
}

/// Multiplies a fraction and a count.
fn multiply_magnitudes(p: u32, l: u32) -> (r: u32)
    requires
        1 <= p <= 0x3f80_0000,
        0x3f80_0000 <= l <= 0x5f80_0000,
    ensures
        r == product(p as int, l as int),
        1 <= r <= l,
{
    let (mp, ep) = parts(p);
    let (ml, el) = parts(l);
    proof {
        assert(mp * ml < 0x100_0000 * 0x100_0000) by (nonlinear_arith)
            requires
                0 <= mp < 0x100_0000,
                0 <= ml < 0x100_0000,
        ;
    }
    let m: u128 = mp as u128 * ml as u128;
    let ghost num = rounding::units(p as int) * rounding::units(l as int);
    let ghost den = pow2(149);
    proof {
        let x = pow2(ep as nat) as int;
        let y = pow2(el as nat) as int;
        let u = pow2((ep + el + 2) as nat) as int;
        lemma2_to64();
        lemma_pow2_adds(ep as nat, el as nat);
        lemma_pow2_adds((ep + el) as nat, 2);
        lemma_pow2_pos((ep + el + 2) as nat);
        lemma_pow2_pos(149);
        assert(m * u * den == 4 * num * den) by (nonlinear_arith)
            requires
                num == (mp * x) * (ml * y),
                m == mp * ml,
                u == (x * y) * 4,
        ;
        assert((m + 1) * u * den > m * u * den) by (nonlinear_arith)
            requires
                u > 0,
                den > 0,
        ;
    }
    let k = rounding::round_scaled(m, false, ep + el + 2, 149, Ghost(num), Ghost(den));
    proof {
        rounding::lemma_closest(num, den, k as int);
        lemma_product_bounds(p as int, l as int, k as int);
    }
    k
}

/// The rank of the number that ends a fraction of so many.
pub fn rank_of(p: u32, len: usize) -> (r: usize)
    requires
        is_fraction(p),
        1 <= len,
    ensures
        r == percentile_rank(p as int, len as nat),
{
    let l = count_magnitude(len as u64);
    let x = multiply_magnitudes(p, l);
    let count = whole_ceiling(x);
    proof {
        lemma_ceiling_is_positive(x as int);
    }
    if count > usize::MAX as u128 {
        usize::MAX - 1
    } else {
        count as usize - 1
    }
}

/// A positive magnitude is rounded up to one at least.
proof fn lemma_ceiling_is_positive(k: int)
    requires
        1 <= k,
    ensures
        ceiling(k) >= 1,
{
    rounding::lemma_units_step(0);
    lemma2_to64();
    assert(rounding::units(1) == 1);
    if k > 1 {
        rounding::lemma_units_increase(1, k);
    }
    lemma_pow2_pos(149);
    let d = pow2(149) as int;
    let v = rounding::units(k) as int;
    assert((v + d - 1) / d >= 1) by (nonlinear_arith)
        requires
            v >= 1,
            d > 0,
    ;
}

/// A count of at most 2^24 is a number of single precision.
pub proof fn lemma_small_counts_are_exact(n: nat)
    requires
        1 <= n <= 0x100_0000,
    ensures
        rounding::units(of_count(n)) == n * pow2(149),
        0x3f80_0000 <= of_count(n) <= 0x5f80_0000,
{
    lemma2_to64();
    let k = if n == 0x100_0000 {
        lemma_pow2_adds(24, 149);
        lemma_pow2_adds(23, 150);
        0x4b80_0000
    } else {
        lemma_count_pattern(n, 0)
    };
    rounding::lemma_nearest_is_exact(k);
    rounding::lemma_closest(n * pow2(149), 1, k);
    lemma_of_count(n, k);
}

/// The pattern of a count below 2^24, found from its bit length.
proof fn lemma_count_pattern(n: nat, e: nat) -> (k: int)
    requires
        e <= 23,
        pow2(e) <= n < 0x100_0000,
    ensures
        0 <= k < binary32::INFINITY_BITS,
        rounding::units(k) == n * pow2(149),
    decreases 23 - e,
{
    lemma2_to64();
    let wide = (n * pow2((23 - e) as nat)) as int;
    if e == 23 || n < pow2(e + 1) {
        let g = pow2((23 - e) as nat) as int;
        lemma_pow2_adds(e, (23 - e) as nat);
        lemma_pow2_adds((e + 1) as nat, (23 - e) as nat);
        lemma_pow2_adds((23 - e) as nat, 126 + e);
        lemma_pow2_pos((23 - e) as nat);
        assert(pow2(e) * g <= wide < pow2(e + 1) * g) by (nonlinear_arith)
            requires
                wide == n * g,
                pow2(e) <= n < pow2(e + 1),
                g > 0,
        ;
        let f = wide - 0x80_0000;
        let k = (127 + e) * 0x80_0000 + f;
        assert(k / 0x80_0000 == 127 + e && k % 0x80_0000 == f);
        assert(wide * pow2(126 + e) == n * pow2(149)) by (nonlinear_arith)
            requires
                wide == n * g,
                pow2(149) == g * pow2(126 + e),
        ;
        k
    } else {
        lemma_count_pattern(n, e + 1)
    }
}

/// Among at most 2^24 numbers, a percentile's rank is that of one of them.
pub proof fn law_ranks_are_in_bounds(bits: u32, len: nat)
    requires
        is_fraction(bits),
        1 <= len <= 0x100_0000,
    ensures
        0 <= percentile_rank(bits as int, len) < len,
{
    let p = bits as int;
    let l = of_count(len);
    let x = product(p, l);
    let d = pow2(149) as int;
    lemma_small_counts_are_exact(len);
    lemma_pow2_pos(149);
    rounding::lemma_nearest_exists(rounding::units(p) * rounding::units(l), pow2(149));
    lemma_product_bounds(p, l, x);
    lemma_ceiling_is_positive(x);
    if x < l {
        rounding::lemma_units_increase(x, l);
    }
    let v = rounding::units(x) as int;
    assert((v + d - 1) / d <= len) by (nonlinear_arith)
        requires
            0 <= v <= len * d,
            d > 0,
    ;
}

/// The rank of a greater fraction is no smaller.
pub proof fn law_ranks_ascend(p: u32, q: u32, len: nat)
    requires
        is_fraction(p),
        is_fraction(q),
        p <= q,
        1 <= len <= u64::MAX,
    ensures
        percentile_rank(p as int, len) <= percentile_rank(q as int, len),
{
    let l = of_count(len);
    let a = rounding::units(p as int) as int;
    let b = rounding::units(q as int) as int;
    let c = rounding::units(l) as int;
    let x = product(p as int, l);
    let y = product(q as int, l);
    let d = pow2(149) as int;
    lemma_pow2_pos(149);
    if p < q {
        rounding::lemma_units_increase(p as int, q as int);
    }
    assert(a * c <= b * c) by (nonlinear_arith)
        requires
            a <= b,
            c >= 0,
    ;
    rounding::lemma_nearest_exists((a * c) as nat, pow2(149));
    rounding::lemma_nearest_exists((b * c) as nat, pow2(149));
    rounding::lemma_nearest_ascends((a * c) as nat, (b * c) as nat, pow2(149), x, y);
    if x < y {
        rounding::lemma_units_increase(x, y);
    }
    let v = rounding::units(x) as int;
    let w = rounding::units(y) as int;
    assert((v + d - 1) / d <= (w + d - 1) / d) by (nonlinear_arith)
        requires
            0 <= v <= w,
            d > 0,
    ;
}

/// Among at most 2^24 numbers, the rank of the whole is that of the last.
pub proof fn law_the_whole_ends_with_the_last(len: nat)
    requires
        1 <= len <= 0x100_0000,
    ensures
        percentile_rank(binary32::ONE_BITS as int, len) == len - 1,
{
    let l = of_count(len);
    let c = rounding::units(l);
    let d = pow2(149);
    let x = product(binary32::ONE_BITS as int, l);
    lemma_small_counts_are_exact(len);
    lemma_powers();
    lemma_pow2_pos(149);
    rounding::lemma_nearest_exists(d * c, d);
    assert(d * c == c * d) by (nonlinear_arith);
    rounding::lemma_nearest_at_least(d * c, d, x, l);
    rounding::lemma_nearest_at_most(d * c, d, x, l);
    let v = c as int;
    assert((len - 1) * d < v <= len * d) by (nonlinear_arith)
        requires
            v == len * d,
            d > 0,
    ;
    lemma_ceiling(v, d as int, len as int);
}

} // verus!
