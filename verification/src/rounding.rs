//! Rounding to single precision, in exact arithmetic.
//!
//! A magnitude of single precision counts whole units of its least positive number, 2^-149.

use crate::binary32;
use vstd::arithmetic::power2::{
    lemma2_to64, lemma_pow2_adds, lemma_pow2_pos, lemma_pow2_strictly_increases, lemma_pow2_unfold,
    pow2,
};
use vstd::prelude::*;

verus! {

/// How many units a magnitude counts.
///
/// Infinity counts as the power of two that would follow the largest finite number.
pub open spec fn units(magnitude: int) -> nat {
    let exponent = magnitude / 0x80_0000;
    let fraction = magnitude % 0x80_0000;
    if exponent <= 0 {
        fraction as nat
    } else {
        ((0x80_0000 + fraction) * pow2((exponent - 1) as nat)) as nat
    }
}

/// Whether `k` is the magnitude nearest to `num / den` units, and, of two that are equally near,
/// the even one.
pub open spec fn nearest(num: nat, den: nat, k: int) -> bool {
    &&& 0 <= k <= binary32::INFINITY_BITS
    &&& k > 0 ==> {
        let low = (units(k - 1) + units(k)) * den;
        low < 2 * num || low == 2 * num && k % 2 == 0
    }
    &&& k < binary32::INFINITY_BITS ==> {
        let high = (units(k) + units(k + 1)) * den;
        2 * num < high || 2 * num == high && k % 2 == 0
    }
}

/// The magnitude nearest to `num / den` units.
pub open spec fn closest(num: nat, den: nat) -> int {
    choose|k: int| nearest(num, den, k)
}

/// The magnitude that is nearest is the closest.
pub proof fn lemma_closest(num: nat, den: nat, k: int)
    requires
        den > 0,
        nearest(num, den, k),
    ensures
        k == closest(num, den),
{
    let c = closest(num, den);
    assert(nearest(num, den, c));
    lemma_nearest_is_unique(num, den, k, c);
    lemma_nearest_is_unique(num, den, c, k);
}

/// The next magnitude counts one unit of its exponent more.
pub proof fn lemma_units_step(k: int)
    requires
        0 <= k,
    ensures
        units(k + 1) == units(k) + pow2(
            if k / 0x80_0000 >= 1 {
                (k / 0x80_0000 - 1) as nat
            } else {
                0
            },
        ),
{
    let e = k / 0x80_0000;
    let f = k % 0x80_0000;
    lemma2_to64();
    if f + 1 < 0x80_0000 {
        assert((k + 1) / 0x80_0000 == e && (k + 1) % 0x80_0000 == f + 1);
        if e >= 1 {
            let p = pow2((e - 1) as nat);
            assert((0x80_0000 + f + 1) * p == (0x80_0000 + f) * p + p) by (nonlinear_arith);
        }
    } else {
        assert((k + 1) / 0x80_0000 == e + 1 && (k + 1) % 0x80_0000 == 0);
        if e >= 1 {
            let p = pow2((e - 1) as nat);
            lemma_pow2_unfold(e as nat);
            assert(pow2(e as nat) == 2 * p);
            assert(0x80_0000 * (2 * p) == (0x80_0000 + 0x7f_ffff) * p + p) by (nonlinear_arith);
        }
    }
}

/// A larger magnitude counts more.
pub proof fn lemma_units_increase(a: int, b: int)
    requires
        0 <= a < b,
    ensures
        units(a) < units(b),
    decreases b - a,
{
    let below = b - 1;
    lemma_units_step(below);
    lemma_pow2_pos(
        if below / 0x80_0000 >= 1 {
            (below / 0x80_0000 - 1) as nat
        } else {
            0
        },
    );
    if a < below {
        lemma_units_increase(a, below);
    }
}

/// A number that is at most what a magnitude counts is rounded to at most that magnitude.
pub proof fn lemma_nearest_at_most(num: nat, den: nat, k: int, bound: int)
    requires
        den > 0,
        nearest(num, den, k),
        0 <= bound,
        num <= units(bound) * den,
    ensures
        k <= bound,
{
    if k > bound {
        lemma_units_increase(bound, k);
        if bound < k - 1 {
            lemma_units_increase(bound, k - 1);
        }
        assert((units(k - 1) + units(k)) * den > 2 * num) by (nonlinear_arith)
            requires
                units(k - 1) >= units(bound),
                units(k) > units(bound),
                num <= units(bound) * den,
                den > 0,
        ;
    }
}

/// A number that is at least what a magnitude counts is rounded to at least that magnitude.
pub proof fn lemma_nearest_at_least(num: nat, den: nat, k: int, bound: int)
    requires
        den > 0,
        nearest(num, den, k),
        0 <= bound <= binary32::INFINITY_BITS,
        num >= units(bound) * den,
    ensures
        k >= bound,
{
    if k < bound {
        lemma_units_increase(k, bound);
        if k + 1 < bound {
            lemma_units_increase(k + 1, bound);
        }
        assert((units(k) + units(k + 1)) * den < 2 * num) by (nonlinear_arith)
            requires
                units(k) < units(bound),
                units(k + 1) <= units(bound),
                num >= units(bound) * den,
                den > 0,
        ;
    }
}

/// At most one magnitude is nearest: neither of two is the smaller.
pub proof fn lemma_nearest_is_unique(num: nat, den: nat, a: int, b: int)
    requires
        den > 0,
        nearest(num, den, a),
        nearest(num, den, b),
    ensures
        a >= b,
{
    if a + 1 == b {
        assert(units(a) + units(a + 1) == units(b - 1) + units(b));
    } else if a + 1 < b {
        lemma_units_increase(a + 1, b);
        lemma_units_increase(a, b - 1);
        assert((units(a) + units(a + 1)) * den < (units(b - 1) + units(b)) * den) by (
        nonlinear_arith)
            requires
                units(a) < units(b - 1),
                units(a + 1) < units(b),
                den > 0,
        ;
    }
}

/// A greater number is not rounded to a smaller magnitude.
pub proof fn lemma_nearest_ascends(a: nat, b: nat, den: nat, j: int, k: int)
    requires
        den > 0,
        a <= b,
        nearest(a, den, j),
        nearest(b, den, k),
    ensures
        j <= k,
{
    if j > k {
        let low = (units(j - 1) + units(j)) as int;
        let high = (units(k) + units(k + 1)) as int;
        if j > k + 1 {
            lemma_units_increase(k, j - 1);
            lemma_units_increase(k + 1, j);
        }
        assert(high * den <= low * den && (high < low ==> high * den < low * den)) by (
        nonlinear_arith)
            requires
                high <= low,
                den > 0,
        ;
    }
}

/// What a magnitude counts is rounded to that magnitude.
pub proof fn lemma_nearest_is_exact(k: int)
    requires
        0 <= k <= binary32::INFINITY_BITS,
    ensures
        nearest(units(k), 1, k),
{
    if k > 0 {
        lemma_units_increase(k - 1, k);
    }
    lemma_units_increase(k, k + 1);
}

/// Of a number between two neighbours, the nearer is nearest.
proof fn lemma_nearer_neighbour(num: nat, den: nat, k: int, up: bool)
    requires
        den > 0,
        0 <= k < binary32::INFINITY_BITS,
        units(k) * den <= num < units(k + 1) * den,
        ({
            let middle = (units(k) + units(k + 1)) * den;
            up <==> middle < 2 * num || middle == 2 * num && k % 2 == 1
        }),
    ensures
        nearest(
            num,
            den,
            if up {
                k + 1
            } else {
                k
            },
        ),
{
    if k > 0 {
        lemma_units_increase(k - 1, k);
        assert((units(k - 1) + units(k)) * den < 2 * num) by (nonlinear_arith)
            requires
                units(k - 1) < units(k),
                units(k) * den <= num,
                den > 0,
        ;
    }
    lemma_units_increase(k + 1, k + 2);
    assert(2 * num < (units(k + 1) + units(k + 2)) * den) by (nonlinear_arith)
        requires
            units(k + 1) < units(k + 2),
            num < units(k + 1) * den,
            den > 0,
    ;
}

/// Some magnitude is nearest.
pub proof fn lemma_nearest_exists(num: nat, den: nat)
    requires
        den > 0,
    ensures
        nearest(num, den, closest(num, den)),
{
    assert(units(0) * den == 0) by (nonlinear_arith)
        requires
            units(0) == 0,
    ;
    lemma_nearest_from(num, den, 0);
}

/// A number that is at least what a magnitude counts has a nearest magnitude.
proof fn lemma_nearest_from(num: nat, den: nat, k: int)
    requires
        den > 0,
        0 <= k <= binary32::INFINITY_BITS,
        units(k) * den <= num,
    ensures
        exists|n: int| nearest(num, den, n),
    decreases binary32::INFINITY_BITS - k,
{
    if k == binary32::INFINITY_BITS {
        lemma_units_increase(k - 1, k);
        assert((units(k - 1) + units(k)) * den < 2 * num) by (nonlinear_arith)
            requires
                units(k - 1) < units(k),
                units(k) * den <= num,
                den > 0,
        ;
        assert(nearest(num, den, k));
    } else if units(k + 1) * den <= num {
        lemma_nearest_from(num, den, k + 1);
    } else {
        let middle = (units(k) + units(k + 1)) * den;
        let up = middle < 2 * num || middle == 2 * num && k % 2 == 1;
        lemma_nearer_neighbour(num, den, k, up);
        assert(nearest(
            num,
            den,
            if up {
                k + 1
            } else {
                k
            },
        ));
    }
}

/// How many bits a number takes.
pub fn bit_length(m: u128) -> (r: u32)
    ensures
        r <= 128,
        m == 0 ==> r == 0,
        m > 0 ==> r > 0 && pow2((r - 1) as nat) <= m,
        m < pow2(r as nat),
{
    let mut n: u32 = 0;
    let mut rest: u128 = m;
    let ghost mut scale: nat = 1;
    proof {
        lemma2_to64();
    }
    while rest > 0
        invariant
            scale == pow2(n as nat),
            scale > 0,
            n == 0 ==> rest == m,
            n > 0 ==> pow2((n - 1) as nat) <= m,
            rest * scale <= m < (rest + 1) * scale,
        decreases rest,
    {
        proof {
            lemma_pow2_unfold((n + 1) as nat);
            let half = rest / 2;
            assert(half * (2 * scale) <= m < (half + 1) * (2 * scale)) by (nonlinear_arith)
                requires
                    rest * scale <= m < (rest + 1) * scale,
                    half == rest / 2,
                    scale > 0,
            ;
            assert(scale <= m) by (nonlinear_arith)
                requires
                    rest * scale <= m,
                    rest >= 1,
                    scale > 0,
            ;
            if n >= 128 {
                lemma_two_to_128();
                if n > 128 {
                    lemma_pow2_strictly_increases(128, n as nat);
                }
                assert(false);
            }
            scale = 2 * scale;
        }
        rest = rest / 2;
        n += 1;
    }
    proof {
        assert((rest + 1) * scale == scale) by (nonlinear_arith)
            requires
                rest == 0,
        ;
        if n > 0 {
            lemma_pow2_pos((n - 1) as nat);
        }
        if n > 128 {
            lemma_two_to_128();
            if n > 129 {
                lemma_pow2_strictly_increases(128, (n - 1) as nat);
            }
        }
    }
    n
}

/// The 128th power of two.
proof fn lemma_two_to_128()
    ensures
        pow2(128) == 0x1_0000_0000_0000_0000_0000_0000_0000_0000,
{
    lemma2_to64();
    lemma_pow2_adds(32, 32);
    lemma_pow2_adds(64, 64);
}

/// Computes a power of two.
pub fn power_of_two(n: u32) -> (r: u128)
    requires
        n < 128,
    ensures
        r == pow2(n as nat),
{
    let mut power: u128 = 1;
    let mut i: u32 = 0;
    proof {
        lemma2_to64();
    }
    while i < n
        invariant
            i <= n < 128,
            power == pow2(i as nat),
        decreases n - i,
    {
        proof {
            lemma_pow2_unfold((i + 1) as nat);
            lemma_two_to_128();
            lemma_pow2_strictly_increases((i + 1) as nat, 128);
        }
        power = power * 2;
        i += 1;
    }
    power
}

/// A magnitude with so many significant bits at an exponent.
proof fn lemma_units_of_parts(q: int, g: int)
    requires
        2 <= g,
        0 <= q < 0x100_0000,
        g > 2 ==> q >= 0x80_0000,
    ensures
        units((g - 2) * 0x80_0000 + q) == q * pow2((g - 2) as nat),
        units((g - 2) * 0x80_0000 + q + 1) == q * pow2((g - 2) as nat) + pow2((g - 2) as nat),
{
    let k = (g - 2) * 0x80_0000 + q;
    lemma2_to64();
    lemma_units_step(k);
    if q < 0x80_0000 {
        assert(k / 0x80_0000 == 0 && k % 0x80_0000 == q);
        assert(q * 1 == q) by (nonlinear_arith);
    } else {
        assert(k / 0x80_0000 == g - 1 && k % 0x80_0000 == q - 0x80_0000);
    }
}

/// Rounding what is left of a division by a power of two up or down: `m * 2^e` quarter units, and a
/// fraction of `2^e` more if `sticky`, cut at `2^g`.
proof fn lemma_round_at(
    num: nat,
    den: nat,
    m: int,
    e: int,
    sticky: bool,
    g: int,
    q: int,
    rest: int,
    up: bool,
)
    requires
        den > 0,
        0 <= e <= g,
        2 <= g,
        0 <= q < 0x100_0000,
        g > 2 ==> q >= 0x80_0000,
        (g - 2) * 0x80_0000 + q < binary32::INFINITY_BITS,
        m == q * pow2((g - e) as nat) + rest,
        0 <= rest < pow2((g - e) as nat),
        m * pow2(e as nat) * den <= 4 * num < (m + 1) * pow2(e as nat) * den,
        sticky <==> m * pow2(e as nat) * den < 4 * num,
        sticky ==> g > e,
        up <==> pow2((g - e) as nat) < 2 * rest || pow2((g - e) as nat) == 2 * rest && (sticky || q
            % 2 == 1),
    ensures
        nearest(
            num,
            den,
            (g - 2) * 0x80_0000 + q + if up {
                1int
            } else {
                0int
            },
        ),
{
    let s = pow2((g - e) as nat) as int;
    let a = pow2(e as nat) as int;
    let c = pow2((g - 2) as nat) as int;
    let k = (g - 2) * 0x80_0000 + q;
    lemma_units_of_parts(q, g);
    lemma_pow2_pos(e as nat);
    lemma_pow2_pos((g - e) as nat);
    lemma_pow2_pos((g - 2) as nat);
    lemma_pow2_adds((g - e) as nat, e as nat);
    lemma_pow2_adds((g - 2) as nat, 2);
    lemma2_to64();
    assert(s * a == 4 * c);
    // One unit of `m`, scaled by the denominator.
    let u = a * den as int;
    assert(u > 0) by (nonlinear_arith)
        requires
            a > 0,
            den > 0,
            u == a * den as int,
    ;
    let extra = 4 * num - m * u;
    assert(m * a * den == m * u) by (nonlinear_arith)
        requires
            u == a * den as int,
    ;
    assert((m + 1) * a * den == m * u + u) by (nonlinear_arith)
        requires
            u == a * den as int,
    ;
    assert(0 <= extra < u);
    // The magnitude below, and the gap to the next, scaled by four times the denominator.
    assert(4 * ((q * c) * den) == (q * s) * u) by (nonlinear_arith)
        requires
            s * a == 4 * c,
            u == a * den as int,
    ;
    assert(4 * (c * den) == s * u) by (nonlinear_arith)
        requires
            s * a == 4 * c,
            u == a * den as int,
    ;
    assert(m * u == (q * s) * u + rest * u) by (nonlinear_arith)
        requires
            m == q * s + rest,
    ;
    assert((q * c + c) * den == (q * c) * den + c * den) by (nonlinear_arith);
    assert((q * c + (q * c + c)) * den == 2 * ((q * c) * den) + c * den) by (nonlinear_arith);
    assert(rest * u + u <= s * u) by (nonlinear_arith)
        requires
            rest + 1 <= s,
            u > 0,
    ;
    assert(0 <= rest * u) by (nonlinear_arith)
        requires
            0 <= rest,
            u > 0,
    ;
    if s < 2 * rest {
        assert(s * u < 2 * (rest * u)) by (nonlinear_arith)
            requires
                s < 2 * rest,
                u > 0,
        ;
    } else if s == 2 * rest {
        assert(s * u == 2 * (rest * u)) by (nonlinear_arith)
            requires
                s == 2 * rest,
        ;
    } else if g > e {
        lemma_pow2_unfold((g - e) as nat);
        let half = pow2((g - e - 1) as nat) as int;
        assert(2 * rest + 2 <= s);
        assert(2 * (rest * u) + 2 * u <= s * u) by (nonlinear_arith)
            requires
                2 * rest + 2 <= s,
                u > 0,
        ;
    } else {
        assert(s == 1 && rest == 0);
        assert(rest * u == 0) by (nonlinear_arith)
            requires
                rest == 0,
        ;
    }
    assert(k % 2 == q % 2);
    lemma_nearer_neighbour(num, den, k, up);
}

/// What is at least the power of two that follows the largest finite number is rounded to infinity.
proof fn lemma_round_to_infinity(num: nat, den: nat, q: int, g: int)
    requires
        den > 0,
        g >= 256,
        q >= 0x80_0000,
        q * pow2(g as nat) * den <= 4 * num,
    ensures
        nearest(num, den, binary32::INFINITY_BITS as int),
{
    let k = binary32::INFINITY_BITS as int;
    let p = pow2(254) as int;
    assert(k / 0x80_0000 == 255 && k % 0x80_0000 == 0);
    assert(units(k) == 0x80_0000 * p);
    lemma_units_increase(k - 1, k);
    lemma2_to64();
    lemma_pow2_adds(254, 2);
    lemma_pow2_pos(254);
    if g > 256 {
        lemma_pow2_strictly_increases(256, g as nat);
    }
    let c = pow2(g as nat) as int;
    assert(q * c * den >= 4 * ((0x80_0000 * p) * den)) by (nonlinear_arith)
        requires
            q >= 0x80_0000,
            c >= 4 * p,
            p > 0,
            den > 0,
    ;
    assert((units(k - 1) + units(k)) * den < 2 * num) by (nonlinear_arith)
        requires
            units(k - 1) < units(k),
            units(k) * den <= num,
            den > 0,
    ;
}

/// What is less than a quarter unit is rounded to zero.
proof fn lemma_round_to_zero(num: nat, den: nat)
    requires
        den > 0,
        4 * num < den,
    ensures
        nearest(num, den, 0),
{
    lemma_units_step(0);
    lemma2_to64();
    assert(units(0) == 0 && units(1) == 1);
    assert((units(0) + units(1)) * den == den) by (nonlinear_arith)
        requires
            units(0) == 0,
            units(1) == 1,
    ;
}

/// Rounds `m * 2^e` quarter units, and a fraction of `2^e` more if `sticky`: a number of `num / den`
/// units.
pub(crate) fn round(
    m: u128,
    e: u32,
    sticky: bool,
    Ghost(num): Ghost<nat>,
    Ghost(den): Ghost<nat>,
) -> (r: u32)
    requires
        den > 0,
        e <= 4000,
        m * pow2(e as nat) * den <= 4 * num < (m + 1) * pow2(e as nat) * den,
        sticky <==> m * pow2(e as nat) * den < 4 * num,
        sticky ==> e == 0 || m >= 0x200_0000,
    ensures
        nearest(num, den, r as int),
{
    proof {
        lemma2_to64();
        lemma_pow2_pos(e as nat);
    }
    if m == 0 {
        proof {
            let a = pow2(e as nat) as int;
            assert(m * a * den == 0) by (nonlinear_arith)
                requires
                    m == 0,
            ;
            assert((m + 1) * a * den == a * den) by (nonlinear_arith)
                requires
                    m == 0,
            ;
            assert(1 * den == den) by (nonlinear_arith);
            assert(4 * num < den);
            lemma_round_to_zero(num, den);
        }
        return 0;
    }
    let l = bit_length(m);
    proof {
        if m >= 0x200_0000 && l < 26 {
            if l < 25 {
                lemma_pow2_strictly_increases(l as nat, 25);
            }
        }
    }
    // Bits that a number of few has to spare.
    let d: u32 = if l >= 26 {
        0
    } else if e < 26 - l {
        e
    } else {
        26 - l
    };
    let wide: u128 = widened(m, d, l);
    let low: u32 = e - d;
    let t: u32 = l + e;
    let g: u32 = if t > 26 {
        t - 24
    } else {
        2
    };
    let s: u32 = g - low;
    let gap: u128 = power_of_two(s);
    proof {
        lemma_pow2_pos(s as nat);
        lemma_pow2_unfold((s + 1) as nat);
        lemma_two_to_128();
        lemma_pow2_strictly_increases((s + 1) as nat, 128);
    }
    let q: u128 = wide / gap;
    let rest: u128 = wide % gap;
    proof {
        let a = pow2(e as nat) as int;
        let b = pow2(low as nat) as int;
        let w = pow2(d as nat) as int;
        lemma_pow2_adds(d as nat, low as nat);
        assert(wide * b == m * a) by (nonlinear_arith)
            requires
                wide == m * w,
                w * b == a,
        ;
        if d == 0 {
            assert(low == e && wide == m);
        } else {
            assert(!sticky);
            assert(wide * b * den == m * a * den);
            lemma_pow2_pos(low as nat);
            assert((wide + 1) * b * den > wide * b * den) by (nonlinear_arith)
                requires
                    b > 0,
                    den > 0,
            ;
        }
        assert(wide == q * gap + rest && 0 <= rest < gap) by (nonlinear_arith)
            requires
                gap > 0,
                q == wide / gap,
                rest == wide % gap,
        ;
        lemma_quotient_bits(wide as int, (l + d) as int, q as int, gap as int, s as int);
    }
    if g >= 256 {
        proof {
            let c = pow2(g as nat) as int;
            let b = pow2(low as nat) as int;
            lemma_pow2_adds(s as nat, low as nat);
            lemma_pow2_pos(low as nat);
            assert(q * c * den <= wide * b * den) by (nonlinear_arith)
                requires
                    c == gap * b,
                    wide == q * gap + rest,
                    rest >= 0,
                    b > 0,
                    den > 0,
            ;
            lemma_round_to_infinity(num, den, q as int, g as int);
        }
        return binary32::INFINITY_BITS;
    }
    let up = 2 * rest > gap || (2 * rest == gap && (sticky || q % 2 == 1));
    let k: u32 = (g - 2) * 0x80_0000 + q as u32;
    proof {
        lemma_round_at(
            num,
            den,
            wide as int,
            low as int,
            sticky,
            g as int,
            q as int,
            rest as int,
            up,
        );
    }
    if up {
        k + 1
    } else {
        k
    }
}

/// A number with zero bits put behind it.
fn widened(m: u128, d: u32, l: u32) -> (r: u128)
    requires
        m < pow2(l as nat),
        m > 0 ==> l > 0 && pow2((l - 1) as nat) <= m,
        d > 0 ==> l + d <= 26,
    ensures
        r == m * pow2(d as nat),
        r < pow2((l + d) as nat),
        m > 0 ==> pow2((l + d - 1) as nat) <= r,
{
    proof {
        lemma2_to64();
        lemma_pow2_adds(l as nat, d as nat);
        lemma_pow2_pos(d as nat);
        let w = pow2(d as nat) as int;
        assert(m * w < pow2(l as nat) * w) by (nonlinear_arith)
            requires
                m < pow2(l as nat),
                w > 0,
        ;
        if m > 0 {
            lemma_pow2_adds((l - 1) as nat, d as nat);
            assert(pow2((l - 1) as nat) * w <= m * w) by (nonlinear_arith)
                requires
                    pow2((l - 1) as nat) <= m,
                    w > 0,
            ;
        }
        assert(m * 1 == m) by (nonlinear_arith);
        if 0 < d && l + d < 26 {
            lemma_pow2_strictly_increases((l + d) as nat, 26);
        }
    }
    if d == 0 {
        return m;
    }
    let power = power_of_two(d);
    m * power
}

/// The bits of a quotient by a power of two.
proof fn lemma_quotient_bits(wide: int, l: int, q: int, gap: int, s: int)
    requires
        0 < l,
        2 <= s,
        gap == pow2(s as nat),
        pow2((l - 1) as nat) <= wide < pow2(l as nat),
        q == wide / gap,
        s == l - 24 || (s == 2 && l <= 26),
    ensures
        0 <= q < 0x100_0000,
        s == l - 24 ==> q >= 0x80_0000,
{
    lemma_pow2_pos(s as nat);
    lemma2_to64();
    if s == l - 24 {
        lemma_pow2_adds(24, s as nat);
        lemma_pow2_adds(23, s as nat);
        assert(0x80_0000 <= q < 0x100_0000) by (nonlinear_arith)
            requires
                gap > 0,
                q == wide / gap,
                0x80_0000 * gap <= wide < 0x100_0000 * gap,
        ;
    } else {
        if l < 26 {
            lemma_pow2_strictly_increases(l as nat, 26);
        }
        assert(0 <= q < 0x100_0000) by (nonlinear_arith)
            requires
                gap == 4,
                q == wide / gap,
                0 <= wide < 0x400_0000,
        ;
    }
}

/// Cancelling a factor on both sides.
proof fn lemma_cancel(a: int, b: int, c: int)
    requires
        c > 0,
    ensures
        a * c < b * c <==> a < b,
        a * c <= b * c <==> a <= b,
{
    assert(a * c < b * c <==> a < b) by (nonlinear_arith)
        requires
            c > 0,
    ;
    assert(a * c <= b * c <==> a <= b) by (nonlinear_arith)
        requires
            c > 0,
    ;
}

/// Rounds `m * 2^up / 2^down` quarter units, and a fraction of `2^up / 2^down` more if `inexact`: a
/// number of `num / den` units.
pub(crate) fn round_scaled(
    m: u128,
    inexact: bool,
    up: u32,
    down: u32,
    Ghost(num): Ghost<nat>,
    Ghost(den): Ghost<nat>,
) -> (r: u32)
    requires
        den > 0,
        up <= 4000,
        down <= 4000,
        m * pow2(up as nat) * den <= 4 * num * pow2(down as nat) < (m + 1) * pow2(up as nat) * den,
        inexact <==> m * pow2(up as nat) * den < 4 * num * pow2(down as nat),
        inexact ==> m >= 0x200_0000,
    ensures
        nearest(num, den, r as int),
{
    let ghost u = pow2(up as nat) as int;
    let ghost w = pow2(down as nat) as int;
    let ghost x = 4 * num as int;
    let ghost dd = den as int;
    proof {
        lemma_pow2_pos(up as nat);
        lemma_pow2_pos(down as nat);
    }
    if up >= down {
        let e: u32 = up - down;
        proof {
            let a = pow2(e as nat) as int;
            lemma_pow2_adds(e as nat, down as nat);
            assert(m * u * dd == (m * a * dd) * w) by (nonlinear_arith)
                requires
                    u == a * w,
            ;
            assert((m + 1) * u * dd == ((m + 1) * a * dd) * w) by (nonlinear_arith)
                requires
                    u == a * w,
            ;
            lemma_cancel(m * a * dd, x, w);
            lemma_cancel(x, (m + 1) * a * dd, w);
        }
        return round(m, e, inexact, Ghost(num), Ghost(den));
    }
    let d: u32 = down - up;
    let ghost c = pow2(d as nat) as int;
    proof {
        lemma_pow2_adds(d as nat, up as nat);
        lemma_pow2_pos(d as nat);
        assert(m * u * dd == (m * dd) * u) by (nonlinear_arith);
        assert((m + 1) * u * dd == ((m + 1) * dd) * u) by (nonlinear_arith);
        assert(x * w == (x * c) * u) by (nonlinear_arith)
            requires
                w == c * u,
        ;
        lemma_cancel(m * dd, x * c, u);
        lemma_cancel(x * c, (m + 1) * dd, u);
    }
    let (whole, rest): (u128, u128) = if d >= 128 {
        proof {
            lemma_two_to_128();
            if d > 128 {
                lemma_pow2_strictly_increases(128, d as nat);
            }
        }
        (0, m)
    } else {
        let power = power_of_two(d);
        (m / power, m % power)
    };
    let sticky = inexact || rest > 0;
    proof {
        assert(m == whole * c + rest && 0 <= rest < c) by (nonlinear_arith)
            requires
                c > 0,
                (whole == 0 && rest == m && m < c) || (whole == m as int / c && rest == m as int
                    % c),
        ;
        // What is counted lies between the whole part and the next.
        assert(m * dd == (whole * dd) * c + rest * dd) by (nonlinear_arith)
            requires
                m == whole * c + rest,
        ;
        assert((m + 1) * dd == (whole * dd) * c + rest * dd + dd) by (nonlinear_arith)
            requires
                m == whole * c + rest,
        ;
        assert(0 <= rest * dd && rest * dd + dd <= c * dd) by (nonlinear_arith)
            requires
                0 <= rest < c,
                dd > 0,
        ;
        assert(((whole + 1) * dd) * c == (whole * dd) * c + c * dd) by (nonlinear_arith);
        assert(rest > 0 ==> rest * dd > 0) by (nonlinear_arith)
            requires
                dd > 0,
        ;
        assert(rest == 0 ==> rest * dd == 0) by (nonlinear_arith);
        lemma_cancel(whole * dd, x, c);
        lemma_cancel(x, (whole + 1) * dd, c);
        lemma2_to64();
        assert(whole * 1 * dd == whole * dd) by (nonlinear_arith);
        assert((whole + 1) * 1 * dd == (whole + 1) * dd) by (nonlinear_arith);
    }
    round(whole, 0, sticky, Ghost(num), Ghost(den))
}

} // verus!
