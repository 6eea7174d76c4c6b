//! Numbers as they are written: decimal literals, read in single precision.

use crate::arithmetic;
use crate::binary32;
use crate::decimal;
use crate::natural::Natural;
use crate::rounding;
use crate::text;
use vstd::arithmetic::power::{
    lemma_pow0, lemma_pow1, lemma_pow_adds, lemma_pow_distributes, lemma_pow_increases,
    lemma_pow_positive, pow,
};
use vstd::arithmetic::power2::{lemma2_to64, lemma_pow2, lemma_pow2_adds, lemma_pow2_pos, pow2};
use vstd::prelude::*;

verus! {

/// A power of ten.
pub open spec fn pow10(n: nat) -> nat {
    pow(10, n) as nat
}

/// The numerator of `coefficient * 10^exponent`, counted in units of 2^-149.
pub open spec fn numerator(coefficient: nat, exponent: int) -> nat {
    if exponent > 0 {
        coefficient * pow10(exponent as nat) * pow2(149)
    } else {
        coefficient * pow2(149)
    }
}

/// The denominator of `coefficient * 10^exponent`.
pub open spec fn denominator(exponent: int) -> nat {
    if exponent < 0 {
        pow10((-exponent) as nat)
    } else {
        1
    }
}

/// A number as it is written, without its sign.
pub enum Literal {
    Infinity,
    NotANumber,
    /// `coefficient * 10^exponent`.
    Decimal { coefficient: nat, exponent: int },
}

/// Whether a text is a word in small letters, whatever the case that its letters are in.
pub open spec fn spells(text: Seq<char>, word: Seq<char>) -> bool {
    text.map_values(|c: char| text::ascii_lowercase(c)) == word
}

/// How many digits a text starts with.
pub open spec fn leading_digits(text: Seq<char>) -> nat
    decreases text.len(),
{
    if text.len() > 0 && decimal::is_digit(text[0]) {
        1 + leading_digits(text.skip(1))
    } else {
        0
    }
}

/// The exponent at the end of a literal: none, or the letter E and digits, which may be signed.
pub open spec fn exponent_of(text: Seq<char>) -> Option<int> {
    if text.len() == 0 {
        Some(0)
    } else if text[0] != 'e' && text[0] != 'E' {
        None
    } else {
        let negative = text.len() > 1 && text[1] == '-';
        let positive = text.len() > 1 && text[1] == '+';
        let digits = text.skip(
            if negative || positive {
                2
            } else {
                1
            },
        );
        if digits.len() == 0 || !decimal::all_digits(digits) {
            None
        } else if negative {
            Some(-(decimal::digits_value(digits) as int))
        } else {
            Some(decimal::digits_value(digits) as int)
        }
    }
}

/// A decimal literal: digits with a decimal point or none among them, and an exponent.
pub open spec fn decimal_literal(text: Seq<char>) -> Option<Literal> {
    let whole = leading_digits(text) as int;
    let after = text.skip(whole);
    let (fraction, rest) = if after.len() > 0 && after[0] == '.' {
        let n = leading_digits(after.skip(1)) as int;
        (after.subrange(1, 1 + n), after.skip(1 + n))
    } else {
        (Seq::empty(), after)
    };
    match exponent_of(rest) {
        Some(exponent) if whole + fraction.len() > 0 => Some(
            Literal::Decimal {
                coefficient: decimal::digits_value(text.take(whole) + fraction),
                exponent: exponent - fraction.len(),
            },
        ),
        _ => None,
    }
}

/// The literal that a text is, if it is one.
pub open spec fn literal_of(text: Seq<char>) -> Option<Literal> {
    if spells(text, "inf"@) || spells(text, "infinity"@) {
        Some(Literal::Infinity)
    } else if spells(text, "nan"@) {
        Some(Literal::NotANumber)
    } else {
        decimal_literal(text)
    }
}

/// The magnitude of a literal, rounded to single precision.
pub open spec fn literal_magnitude(literal: Literal) -> int {
    match literal {
        Literal::Infinity => binary32::INFINITY_BITS as int,
        Literal::NotANumber => binary32::QUIET_NAN_BITS as int,
        Literal::Decimal { coefficient, exponent } => rounding::closest(
            numerator(coefficient, exponent),
            denominator(exponent),
        ),
    }
}

/// The bits of the number that a text reads as in single precision, if it reads as one: a literal
/// with a sign or none before it.
pub open spec fn number_bits(text: Seq<char>) -> Option<u32> {
    let negative = text.len() > 0 && text[0] == '-';
    let positive = text.len() > 0 && text[0] == '+';
    let unsigned = if negative || positive {
        text.skip(1)
    } else {
        text
    };
    match literal_of(unsigned) {
        None => None,
        Some(literal) => if negative {
            Some((literal_magnitude(literal) + binary32::SIGN_BIT) as u32)
        } else {
            Some(literal_magnitude(literal) as u32)
        },
    }
}

/// Powers of ten are positive and multiply by adding their exponents.
pub proof fn lemma_pow10(a: nat, b: nat)
    ensures
        pow10(a) > 0,
        pow10(b) > 0,
        pow10(a + b) == pow10(a) * pow10(b),
{
    lemma_pow_positive(10, a);
    lemma_pow_positive(10, b);
    lemma_pow_adds(10, a, b);
}

/// What the last digit of a power of ten adds to it.
pub proof fn lemma_pow10_step(a: nat)
    ensures
        pow10(0) == 1,
        pow10(a) > 0,
        pow10(a + 1) == pow10(a) * 10,
{
    lemma_pow0(10);
    lemma_pow1(10);
    lemma_pow10(a, 1);
}

/// Larger exponents make larger powers of ten.
proof fn lemma_pow10_grows(a: nat, b: nat)
    requires
        a <= b,
    ensures
        0 < pow10(a) <= pow10(b),
{
    lemma_pow_positive(10, a);
    lemma_pow_increases(10, a, b);
}

/// Digits in two runs, one after the other.
pub proof fn lemma_digits_split(digits: Seq<char>, m: int)
    requires
        decimal::all_digits(digits),
        0 <= m <= digits.len(),
    ensures
        decimal::digits_value(digits) == decimal::digits_value(digits.take(m)) * pow10(
            (digits.len() - m) as nat,
        ) + decimal::digits_value(digits.skip(m)),
        decimal::digits_value(digits.skip(m)) < pow10((digits.len() - m) as nat),
    decreases digits.len() - m,
{
    let head = decimal::digits_value(digits.take(m)) as int;
    if m == digits.len() {
        assert(digits.take(m) =~= digits);
        assert(digits.skip(m) =~= Seq::empty());
        lemma_pow10_step(0);
        assert(head * 1 == head) by (nonlinear_arith);
    } else {
        let front = digits.drop_last();
        let d = digits.last() as u32 as int - 48;
        assert(decimal::all_digits(front)) by {
            assert forall|i: int| 0 <= i < front.len() implies decimal::is_digit(
                #[trigger] front[i],
            ) by {
                assert(decimal::is_digit(digits[i]));
            }
        }
        assert(decimal::is_digit(digits[digits.len() - 1]));
        lemma_digits_split(front, m);
        assert(front.take(m) =~= digits.take(m));
        assert(front.skip(m) =~= digits.skip(m).drop_last());
        assert(digits.skip(m).last() == digits.last());
        let p = pow10((front.len() - m) as nat) as int;
        let tail = decimal::digits_value(front.skip(m)) as int;
        lemma_pow10_step((front.len() - m) as nat);
        assert((head * p + tail) * 10 + d == head * (p * 10) + (tail * 10 + d)) by (
        nonlinear_arith);
    }
}

/// Digits that are all zero denote zero, and others do not.
pub proof fn lemma_zero_digits(digits: Seq<char>)
    requires
        decimal::all_digits(digits),
    ensures
        decimal::digits_value(digits) == 0 <==> forall|i: int|
            0 <= i < digits.len() ==> #[trigger] digits[i] == '0',
    decreases digits.len(),
{
    if digits.len() > 0 {
        let front = digits.drop_last();
        assert forall|i: int| 0 <= i < front.len() implies decimal::is_digit(
            #[trigger] front[i],
        ) by {
            assert(decimal::is_digit(digits[i]));
        }
        assert(decimal::is_digit(digits[digits.len() - 1]));
        lemma_zero_digits(front);
        if forall|i: int| 0 <= i < digits.len() ==> #[trigger] digits[i] == '0' {
            assert forall|i: int| 0 <= i < front.len() implies #[trigger] front[i] == '0' by {
                assert(digits[i] == '0');
            }
            assert(digits[digits.len() - 1] == '0');
        }
        if decimal::digits_value(digits) == 0 {
            assert forall|i: int| 0 <= i < digits.len() implies #[trigger] digits[i] == '0' by {
                if i < front.len() {
                    assert(front[i] == '0');
                }
            }
        }
    }
}

/// Five to the 150th power: what ten to that power counts in units of 2^-150.
spec fn fives() -> nat {
    pow(5, 150) as nat
}

/// Ten to the 150th power.
proof fn lemma_fives()
    ensures
        fives() > 0,
        pow10(150) == fives() * pow2(149) * 2,
{
    lemma_pow_positive(5, 150);
    lemma_pow_distributes(5, 2, 150);
    lemma_pow2(150);
    lemma2_to64();
    lemma_pow2_adds(149, 1);
    assert(fives() * (pow2(149) * 2) == fives() * pow2(149) * 2) by (nonlinear_arith);
}

/// Computes five to the 150th power.
fn five_to_the_150th() -> (r: Natural)
    ensures
        r@ == fives(),
{
    let mut power = Natural::new(1);
    let mut i: u32 = 0;
    proof {
        lemma_pow0(5);
    }
    while i < 150
        invariant
            i <= 150,
            power@ == pow(5, i as nat),
        decreases 150 - i,
    {
        power = power.times_plus(5, 0);
        proof {
            lemma_pow1(5);
            lemma_pow_adds(5, i as nat, 1);
        }
        i += 1;
    }
    power
}

/// Comparing a count of units with the middle between two, by what each makes of 2^-150 times
/// 10^-150: a whole number and, if `sticky`, a fraction more.
proof fn lemma_compare(num: int, den: int, whole: int, sticky: bool, middle: int, q: int)
    requires
        den > 0,
        q > 0,
        whole * den <= 2 * num * q < (whole + 1) * den,
        sticky <==> whole * den < 2 * num * q,
    ensures
        2 * num < middle * den <==> whole < middle * q,
        2 * num == middle * den <==> whole == middle * q && !sticky,
{
    let z = middle * q;
    let x = 2 * num * q;
    assert((middle * den) * q == z * den) by (nonlinear_arith)
        requires
            z == middle * q,
    ;
    assert((2 * num) * q < (middle * den) * q <==> 2 * num < middle * den) by (nonlinear_arith)
        requires
            q > 0,
    ;
    assert((2 * num) * q == (middle * den) * q <==> 2 * num == middle * den) by (nonlinear_arith)
        requires
            q > 0,
    ;
    assert(whole < z ==> (whole + 1) * den <= z * den) by (nonlinear_arith)
        requires
            den > 0,
    ;
    assert(whole >= z ==> whole * den >= z * den) by (nonlinear_arith)
        requires
            den > 0,
    ;
    assert(whole == z ==> whole * den == z * den);
    assert(whole > z ==> whole * den >= z * den + den) by (nonlinear_arith)
        requires
            den > 0,
    ;
}

/// Finds the magnitude nearest to a number, by halving.
fn nearest_magnitude(
    whole: &Natural,
    sticky: bool,
    Ghost(num): Ghost<nat>,
    Ghost(den): Ghost<nat>,
) -> (r: u32)
    requires
        den > 0,
        whole@ * den <= 2 * num * fives() < (whole@ + 1) * den,
        sticky <==> whole@ * den < 2 * num * fives(),
    ensures
        rounding::nearest(num, den, r as int),
{
    let scale = five_to_the_150th();
    let mut low: u32 = 0;
    let mut high: u32 = binary32::INFINITY_BITS;
    proof {
        lemma_fives();
    }
    while low < high
        invariant
            low <= high <= binary32::INFINITY_BITS,
            den > 0,
            scale@ == fives(),
            fives() > 0,
            whole@ * den <= 2 * num * fives() < (whole@ + 1) * den,
            sticky <==> whole@ * den < 2 * num * fives(),
            low > 0 ==> {
                let middle = (rounding::units(low - 1) + rounding::units(low as int)) * den;
                middle < 2 * num || middle == 2 * num && low % 2 == 0
            },
            high < binary32::INFINITY_BITS ==> {
                let middle = (rounding::units(high as int) + rounding::units(high + 1)) * den;
                2 * num < middle || 2 * num == middle && high % 2 == 0
            },
        decreases high - low,
    {
        let k: u32 = low + (high - low) / 2;
        let (m, e) = arithmetic::parts(k);
        let middle = scale.times_plus(2 * m + 1, 0).shifted(e);
        let below = whole.less_than(&middle);
        let at = !below && !sticky && !middle.less_than(whole);
        proof {
            let u = rounding::units(k as int) + rounding::units(k + 1);
            let x = pow2(e as nat) as int;
            rounding::lemma_units_step(k as int);
            assert(u == (2 * m + 1) * x) by (nonlinear_arith)
                requires
                    u == m * x + (m * x + x),
            ;
            assert(middle@ == u * fives()) by (nonlinear_arith)
                requires
                    middle@ == (fives() * (2 * m + 1) + 0) * x,
                    u == (2 * m + 1) * x,
            ;
            lemma_compare(
                num as int,
                den as int,
                whole@ as int,
                sticky,
                u as int,
                fives() as int,
            );
        }
        if below || at && k % 2 == 0 {
            high = k;
        } else {
            low = k + 1;
        }
    }
    low
}

/// The number that a run of digits denotes.
fn natural_of(digits: &Vec<char>, start: usize, end: usize) -> (r: Natural)
    requires
        start <= end <= digits@.len(),
        decimal::all_digits(digits@),
    ensures
        r@ == decimal::digits_value(digits@.subrange(start as int, end as int)),
{
    let ghost run = digits@.subrange(start as int, end as int);
    let mut n = Natural::new(0);
    let mut i: usize = start;
    assert(run.take(0) =~= Seq::empty());
    while i < end
        invariant
            start <= i <= end <= digits@.len(),
            decimal::all_digits(digits@),
            run == digits@.subrange(start as int, end as int),
            n@ == decimal::digits_value(run.take(i - start)),
        decreases end - i,
    {
        assert(decimal::is_digit(digits@[i as int]));
        assert(run.take(i + 1 - start).drop_last() =~= run.take(i - start));
        assert(run.take(i + 1 - start).last() == digits@[i as int]);
        n = n.times_plus(10, digits[i] as u32 - 48);
        i += 1;
    }
    assert(run.take(end - start) =~= run);
    n
}

/// A number times a power of ten.
fn scaled(n: Natural, exponent: u32) -> (r: Natural)
    ensures
        r@ == n@ * pow10(exponent as nat),
{
    let mut product = n;
    let mut i: u32 = 0;
    proof {
        lemma_pow10_step(0);
        assert(n@ * 1 == n@) by (nonlinear_arith);
    }
    while i < exponent
        invariant
            i <= exponent,
            product@ == n@ * pow10(i as nat),
        decreases exponent - i,
    {
        product = product.times_plus(10, 0);
        proof {
            let p = pow10(i as nat) as int;
            lemma_pow10_step(i as nat);
            assert((n@ * p) * 10 == n@ * (p * 10)) by (nonlinear_arith);
        }
        i += 1;
    }
    product
}

/// The position of the first digit that is not zero, or of the end.
fn first_nonzero(digits: &Vec<char>, start: usize) -> (r: usize)
    requires
        start <= digits@.len(),
    ensures
        start <= r <= digits@.len() <= usize::MAX,
        forall|i: int| start <= i < r ==> #[trigger] digits@[i] == '0',
        r < digits@.len() ==> digits@[r as int] != '0',
{
    let mut i: usize = start;
    while i < digits.len() && digits[i] == '0'
        invariant
            start <= i <= digits@.len(),
            forall|j: int| start <= j < i ==> #[trigger] digits@[j] == '0',
        decreases digits@.len() - i,
    {
        i += 1;
    }
    i
}

/// What digits after leading zeros denote.
proof fn lemma_significant(digits: Seq<char>, z: int)
    requires
        decimal::all_digits(digits),
        0 <= z < digits.len(),
        forall|i: int| 0 <= i < z ==> #[trigger] digits[i] == '0',
        digits[z] != '0',
    ensures
        decimal::digits_value(digits) == decimal::digits_value(digits.skip(z)),
        decimal::all_digits(digits.skip(z)),
        pow10((digits.len() - z - 1) as nat) <= decimal::digits_value(digits) < pow10(
            (digits.len() - z) as nat,
        ),
{
    let rest = digits.skip(z);
    let zeros = digits.take(z);
    assert forall|i: int| 0 <= i < rest.len() implies decimal::is_digit(#[trigger] rest[i]) by {
        assert(decimal::is_digit(digits[z + i]));
    }
    assert forall|i: int| 0 <= i < zeros.len() implies decimal::is_digit(#[trigger] zeros[i]) by {
        assert(decimal::is_digit(digits[i]));
    }
    lemma_digits_split(digits, z);
    lemma_zero_digits(zeros);
    assert(0 * pow10((digits.len() - z) as nat) == 0) by (nonlinear_arith);
    lemma_digits_split(rest, 1);
    let p = pow10((rest.len() - 1) as nat) as int;
    let d = decimal::digits_value(rest.take(1)) as int;
    assert(d >= 1) by {
        assert(rest.take(1).drop_last() =~= Seq::empty());
        assert(rest.take(1).last() == digits[z]);
        assert(decimal::is_digit(digits[z]));
        reveal_with_fuel(decimal::digits_value, 2);
    }
    assert(d * p >= p) by (nonlinear_arith)
        requires
            d >= 1,
            p >= 0,
    ;
}

/// A number of 10^39 or more is rounded to infinity.
proof fn lemma_too_large(c: nat, e: int, w: int)
    requires
        w >= 39,
        e <= w,
        c >= pow10((w - e) as nat),
    ensures
        rounding::nearest(numerator(c, e), denominator(e), binary32::INFINITY_BITS as int),
{
    let num = numerator(c, e);
    let den = denominator(e);
    let k = rounding::closest(num, den);
    let p = pow2(149) as int;
    lemma_pow2_pos(149);
    lemma_pow10((-e) as nat, (-e) as nat);
    rounding::lemma_nearest_exists(num, den);
    // The number is at least 10^39, which is more than 2^128.
    let v = pow10(w as nat) as int;
    assert(num >= v * den * p) by {
        if e >= 0 {
            let a = pow10(e as nat) as int;
            let b = pow10((w - e) as nat) as int;
            lemma_pow10((w - e) as nat, e as nat);
            lemma_pow10_step(0);
            assert(c * a * p >= (b * a) * 1 * p) by (nonlinear_arith)
                requires
                    c >= b,
                    a > 0,
                    p > 0,
            ;
            assert(e == 0 ==> c * a * p == c * p) by (nonlinear_arith)
                requires
                    e == 0 ==> a == 1,
            ;
        } else {
            lemma_pow10(w as nat, (-e) as nat);
            assert(c * p >= (v * den) * p) by (nonlinear_arith)
                requires
                    c >= v * den,
                    p > 0,
            ;
        }
    }
    lemma_pow10_grows(39, w as nat);
    lemma_ten_to_the_39th();
    lemma_infinity();
    let top = pow2(128) as int;
    assert(v * den * p >= (top * p) * den) by (nonlinear_arith)
        requires
            v >= top,
            den > 0,
            p > 0,
    ;
    rounding::lemma_nearest_at_least(num, den, k, binary32::INFINITY_BITS as int);
}

/// The product of two powers of ten whose values are known.
proof fn lemma_pow10_product(a: nat, b: nat, x: int, y: int)
    requires
        pow10(a) == x,
        pow10(b) == y,
    ensures
        pow10(a + b) == x * y,
{
    lemma_pow10(a, b);
}

/// Some powers of ten.
proof fn lemma_powers_of_ten()
    ensures
        pow10(4) == 10_000,
        pow10(6) == 1_000_000,
        pow10(3) == 1_000,
        pow10(36) == 1_000_000_000_000_000_000_000_000_000_000_000_000int,
{
    lemma_pow10_step(0);
    lemma_pow10_step(1);
    lemma_pow10_step(2);
    lemma_pow10_step(3);
    lemma_pow10_product(3, 3, 1_000, 1_000);
    lemma_pow10_product(6, 6, 1_000_000, 1_000_000);
    lemma_pow10_product(12, 12, 1_000_000_000_000, 1_000_000_000_000);
    lemma_pow10_product(24, 12, 1_000_000_000_000_000_000_000_000int, 1_000_000_000_000);
}

/// Ten to the 39th power exceeds two to the 128th.
proof fn lemma_ten_to_the_39th()
    ensures
        pow10(39) >= pow2(128),
{
    lemma2_to64();
    lemma_powers_of_ten();
    lemma_pow2_adds(64, 64);
    assert(pow2(128) == 0x1_0000_0000_0000_0000 * 0x1_0000_0000_0000_0000);
    lemma_pow10_product(36, 3, 1_000_000_000_000_000_000_000_000_000_000_000_000int, 1_000);
}

/// Ten to the 46th power exceeds two to the 150th.
proof fn lemma_ten_to_the_46th()
    ensures
        pow10(46) > pow2(150),
{
    lemma2_to64();
    lemma_powers_of_ten();
    lemma_pow2_adds(64, 64);
    assert(pow2(128) == 0x1_0000_0000_0000_0000 * 0x1_0000_0000_0000_0000);
    lemma_pow2_adds(128, 22);
    assert(pow2(150) == 0x1_0000_0000_0000_0000_0000_0000_0000_0000int * 0x40_0000);
    lemma_pow10_product(36, 6, 1_000_000_000_000_000_000_000_000_000_000_000_000int, 1_000_000);
    lemma_pow10_product(
        42,
        4,
        1_000_000_000_000_000_000_000_000_000_000_000_000_000_000int,
        10_000,
    );
}

/// What infinity counts.
proof fn lemma_infinity()
    ensures
        rounding::units(binary32::INFINITY_BITS as int) == pow2(128) * pow2(149),
{
    lemma2_to64();
    lemma_pow2_adds(23, 254);
    lemma_pow2_adds(128, 149);
    assert(0x7f80_0000int / 0x80_0000 == 255 && 0x7f80_0000int % 0x80_0000 == 0);
}

/// A number below 10^-46 is rounded to zero.
proof fn lemma_too_small(c: nat, e: int, w: int)
    requires
        w <= -46,
        e <= w,
        c <= pow10((w - e) as nat),
    ensures
        rounding::nearest(numerator(c, e), denominator(e), 0),
{
    let p = pow2(149) as int;
    let a = pow10((w - e) as nat) as int;
    let b = pow10((-w) as nat) as int;
    lemma_pow2_pos(149);
    lemma2_to64();
    lemma_pow2_adds(149, 1);
    lemma_pow10((w - e) as nat, (-w) as nat);
    lemma_pow10_grows(46, (-w) as nat);
    lemma_ten_to_the_46th();
    rounding::lemma_units_step(0);
    assert(rounding::units(0) == 0 && rounding::units(1) == 1);
    assert(2 * (c * p) < a * b) by (nonlinear_arith)
        requires
            c <= a,
            a > 0,
            p > 0,
            b > 2 * p,
    ;
}

/// What a literal amounts to in units of 10^-150, where it has no smaller digits.
proof fn lemma_exact_count(c: int, e: int, whole: int)
    requires
        c >= 0,
        e >= -150,
        whole == c * pow10((e + 150) as nat),
    ensures
        whole * denominator(e) == 2 * numerator(c as nat, e) * fives(),
{
    let f = fives() as int;
    let p = pow2(149) as int;
    let t = pow10(150) as int;
    lemma_fives();
    if e > 0 {
        let a = pow10(e as nat) as int;
        lemma_pow10(e as nat, 150);
        assert(c * (a * t) * 1 == 2 * (c * a * p) * f) by (nonlinear_arith)
            requires
                t == f * p * 2,
        ;
    } else {
        let a = pow10((e + 150) as nat) as int;
        let b = pow10((-e) as nat) as int;
        lemma_pow10((e + 150) as nat, (-e) as nat);
        lemma_pow10_step(0);
        assert((c * a) * b == 2 * (c * p) * f) by (nonlinear_arith)
            requires
                a * b == t,
                t == f * p * 2,
        ;
    }
}

/// What a literal amounts to in units of 10^-150, where it has smaller digits, which amount to
/// `rest`.
proof fn lemma_cut_count(c: int, e: int, whole: int, rest: int)
    requires
        e < -150,
        c == whole * pow10((-e - 150) as nat) + rest,
        0 <= rest < pow10((-e - 150) as nat),
        whole >= 0,
    ensures
        ({
            let x = 2 * numerator(c as nat, e) * fives();
            let den = denominator(e);
            &&& whole * den <= x < (whole + 1) * den
            &&& rest > 0 <==> whole * den < x
        }),
{
    let f = fives() as int;
    let p = pow2(149) as int;
    let t = pow10(150) as int;
    let a = pow10((-e - 150) as nat) as int;
    let den = denominator(e) as int;
    lemma_fives();
    lemma_pow10((-e - 150) as nat, 150);
    assert(0 <= whole * a) by (nonlinear_arith)
        requires
            whole >= 0,
            a > 0,
    ;
    assert(2 * (c * p) * f == c * t) by (nonlinear_arith)
        requires
            t == f * p * 2,
    ;
    assert(c * t == whole * den + rest * t) by (nonlinear_arith)
        requires
            c == whole * a + rest,
            den == a * t,
    ;
    assert((whole + 1) * den == whole * den + den) by (nonlinear_arith);
    assert(rest * t < den && (rest > 0 ==> rest * t > 0)) by (nonlinear_arith)
        requires
            0 <= rest < a,
            den == a * t,
            t > 0,
    ;
    assert(rest == 0 ==> rest * t == 0) by (nonlinear_arith);
}

/// An exponent at which a number is far too large, or, when negative, far too small.
const FAR: i128 = 0x8000_0000_0000_0000_0000;

/// The magnitude nearest to what digits denote, times a power of ten.
///
/// Of exponents from 2^79 on, either way, it does not matter how large they are.
fn decimal_magnitude(digits: &Vec<char>, exponent: i128, Ghost(e): Ghost<int>) -> (r: u32)
    requires
        decimal::all_digits(digits@),
        -4 * FAR <= exponent <= 4 * FAR,
        exponent == e || (exponent >= FAR && e >= FAR) || (exponent <= -FAR && e <= -FAR),
    ensures
        rounding::nearest(
            numerator(decimal::digits_value(digits@), e),
            denominator(e),
            r as int,
        ),
{
    let ghost c = decimal::digits_value(digits@);
    let z = first_nonzero(digits, 0);
    if z == digits.len() {
        proof {
            lemma_zero_digits(digits@);
            rounding::lemma_units_step(0);
            lemma2_to64();
            assert(rounding::units(0) == 0 && rounding::units(1) == 1);
            lemma_pow10((-e) as nat, (-e) as nat);
            assert(0 * pow10(e as nat) * pow2(149) == 0) by (nonlinear_arith);
            assert(0 * pow2(149) == 0) by (nonlinear_arith);
        }
        return 0;
    }
    let n: usize = digits.len() - z;
    let w: i128 = exponent + n as i128 - 1;
    let ghost first = e + n - 1;
    proof {
        lemma_significant(digits@, z as int);
    }
    if w >= 39 {
        proof {
            lemma_too_large(c, e, first);
        }
        return binary32::INFINITY_BITS;
    }
    if w <= -47 {
        proof {
            lemma_too_small(c, e, first + 1);
        }
        return 0;
    }
    assert(exponent == e);
    let room: i128 = w + 151;
    let ghost run = digits@.skip(z as int);
    proof {
        lemma_pow10((-e) as nat, (-e) as nat);
        lemma_fives();
    }
    if n as i128 <= room {
        let all = natural_of(digits, z, digits.len());
        assert(digits@.subrange(z as int, digits@.len() as int) =~= run);
        let whole = scaled(all, (room - n as i128) as u32);
        proof {
            lemma_exact_count(c as int, e, whole@ as int);
            assert((whole@ + 1) * denominator(e) == whole@ * denominator(e) + denominator(e)) by (
            nonlinear_arith);
        }
        nearest_magnitude(&whole, false, Ghost(numerator(c, e)), Ghost(denominator(e)))
    } else {
        let m: usize = room as usize;
        let whole = natural_of(digits, z, z + m);
        let sticky = first_nonzero(digits, z + m) < digits.len();
        proof {
            let cut = run.skip(m as int);
            assert(digits@.subrange(z as int, z + m) =~= run.take(m as int));
            lemma_digits_split(run, m as int);
            assert forall|i: int| 0 <= i < cut.len() implies decimal::is_digit(
                #[trigger] cut[i],
            ) by {
                assert(decimal::is_digit(digits@[z + m + i]));
            }
            lemma_zero_digits(cut);
            assert(sticky <==> decimal::digits_value(cut) > 0) by {
                if sticky {
                    let i = choose|i: int|
                        z + m <= i < digits@.len() && #[trigger] digits@[i] != '0';
                    assert(cut[i - z - m] == digits@[i]);
                } else {
                    assert forall|i: int| 0 <= i < cut.len() implies #[trigger] cut[i] == '0' by {
                        assert(digits@[z + m + i] == '0');
                    }
                }
            }
            lemma_cut_count(c as int, e, whole@ as int, decimal::digits_value(cut) as int);
        }
        nearest_magnitude(&whole, sticky, Ghost(numerator(c, e)), Ghost(denominator(e)))
    }
}

/// Tells whether the characters from a position on spell a word.
fn spells_from(chars: &Vec<char>, start: usize, word: &str) -> (r: bool)
    requires
        start <= chars@.len(),
    ensures
        r == spells(chars@.skip(start as int), word@),
{
    let ghost text = chars@.skip(start as int);
    let ghost lower = text.map_values(|c: char| text::ascii_lowercase(c));
    let letters = text::chars_of(word);
    if chars.len() - start != letters.len() {
        return false;
    }
    let mut i: usize = 0;
    while i < letters.len()
        invariant
            i <= letters@.len(),
            letters@ == word@,
            start + letters@.len() == chars@.len() <= usize::MAX,
            text == chars@.skip(start as int),
            lower == text.map_values(|c: char| text::ascii_lowercase(c)),
            forall|j: int| 0 <= j < i ==> #[trigger] lower[j] == letters@[j],
        decreases letters@.len() - i,
    {
        let c = chars[start + i];
        assert(text[i as int] == c);
        let small = if 'A' <= c && c <= 'Z' {
            (c as u8 + 32) as char
        } else {
            c
        };
        assert(small == text::ascii_lowercase(c));
        if small != letters[i] {
            assert(lower[i as int] != word@[i as int]);
            return false;
        }
        i += 1;
    }
    assert(lower =~= word@);
    true
}

/// Digits up to a character that is none are the leading digits.
pub proof fn lemma_leading_digits(text: Seq<char>, n: nat)
    requires
        n <= text.len(),
        decimal::all_digits(text.take(n as int)),
        n < text.len() ==> !decimal::is_digit(text[n as int]),
    ensures
        leading_digits(text) == n,
    decreases n,
{
    if n > 0 {
        assert(decimal::is_digit(text.take(n as int)[0]));
        let rest = text.skip(1);
        assert forall|i: int| 0 <= i < n - 1 implies decimal::is_digit(
            #[trigger] rest.take(n - 1)[i],
        ) by {
            assert(decimal::is_digit(text.take(n as int)[i + 1]));
        }
        lemma_leading_digits(rest, (n - 1) as nat);
    }
}

/// The position after the digits that stand at a position.
fn digits_end(chars: &Vec<char>, start: usize) -> (r: usize)
    requires
        start <= chars@.len(),
    ensures
        start <= r <= chars@.len() <= usize::MAX,
        r == start + leading_digits(chars@.skip(start as int)),
        decimal::all_digits(chars@.subrange(start as int, r as int)),
{
    let mut end: usize = start;
    while end < chars.len() && '0' <= chars[end] && chars[end] <= '9'
        invariant
            start <= end <= chars@.len(),
            forall|i: int| start <= i < end ==> decimal::is_digit(#[trigger] chars@[i]),
        decreases chars@.len() - end,
    {
        end += 1;
    }
    proof {
        let text = chars@.skip(start as int);
        let run = chars@.subrange(start as int, end as int);
        assert(text.take(end - start) =~= run);
        assert forall|i: int| 0 <= i < run.len() implies decimal::is_digit(#[trigger] run[i]) by {
            assert(decimal::is_digit(chars@[start + i]));
        }
        lemma_leading_digits(text, (end - start) as nat);
    }
    end
}

/// Copies the digits of a run behind others.
fn push_digits(digits: &mut Vec<char>, chars: &Vec<char>, start: usize, end: usize)
    requires
        start <= end <= chars@.len(),
        decimal::all_digits(old(digits)@),
        decimal::all_digits(chars@.subrange(start as int, end as int)),
    ensures
        final(digits)@ == old(digits)@ + chars@.subrange(start as int, end as int),
        decimal::all_digits(final(digits)@),
{
    let mut i: usize = start;
    let ghost before = digits@;
    let ghost run = chars@.subrange(start as int, end as int);
    assert(before + run.take(0) =~= before);
    while i < end
        invariant
            start <= i <= end <= chars@.len(),
            run == chars@.subrange(start as int, end as int),
            digits@ == before + run.take(i - start),
        decreases end - i,
    {
        assert(before + run.take(i + 1 - start) =~= (before + run.take(i - start)).push(
            chars@[i as int],
        ));
        digits.push(chars[i]);
        i += 1;
    }
    assert(run.take(end - start) =~= run);
    assert forall|j: int| 0 <= j < digits@.len() implies decimal::is_digit(
        #[trigger] digits@[j],
    ) by {
        if j < before.len() {
            assert(decimal::is_digit(before[j]));
        } else {
            assert(decimal::is_digit(run[j - before.len()]));
        }
    }
}

/// Reads the exponent at the end of a literal; from 2^79 on, either way, it is only known to be
/// that large.
fn read_exponent(chars: &Vec<char>, start: usize) -> (r: Option<i128>)
    requires
        start <= chars@.len(),
    ensures
        match exponent_of(chars@.skip(start as int)) {
            Some(e) => r matches Some(x) && -2 * FAR <= x <= 2 * FAR && (x == e || (x >= 2 * FAR
                && e >= 2 * FAR) || (x <= -2 * FAR && e <= -2 * FAR)),
            None => r is None,
        },
        chars@.len() <= usize::MAX,
{
    let ghost text = chars@.skip(start as int);
    let n: usize = chars.len();
    if start == n {
        return Some(0);
    }
    let e = chars[start];
    if e != 'e' && e != 'E' {
        return None;
    }
    let negative = n - start > 1 && chars[start + 1] == '-';
    let positive = n - start > 1 && chars[start + 1] == '+';
    let first: usize = if negative || positive {
        start + 2
    } else {
        start + 1
    };
    let ghost digits = chars@.skip(first as int);
    assert(text.skip(first - start) =~= digits);
    if first == n || digits_end(chars, first) != n {
        proof {
            if first < n {
                lemma_all_leading(digits);
            }
        }
        return None;
    }
    proof {
        assert(chars@.subrange(first as int, n as int) =~= digits);
    }
    let mut value: i128 = 0;
    let mut i: usize = first;
    assert(digits.take(0) =~= Seq::empty());
    while i < n
        invariant
            first <= i <= n == chars@.len(),
            digits == chars@.skip(first as int),
            decimal::all_digits(digits),
            0 <= value <= 2 * FAR,
            value < 2 * FAR ==> value == decimal::digits_value(digits.take(i - first)),
            value == 2 * FAR ==> decimal::digits_value(digits.take(i - first)) >= 2 * FAR,
        decreases n - i,
    {
        proof {
            assert(decimal::is_digit(digits[i - first]));
            assert(digits.take(i + 1 - first).drop_last() =~= digits.take(i - first));
            assert(digits.take(i + 1 - first).last() == chars@[i as int]);
        }
        let more: i128 = value * 10 + (chars[i] as u32 - 48) as i128;
        value = if more < 2 * FAR {
            more
        } else {
            2 * FAR
        };
        i += 1;
    }
    assert(digits.take(n - first) =~= digits);
    if negative {
        Some(-value)
    } else {
        Some(value)
    }
}

/// A text that is made of digits alone is all leading digits.
proof fn lemma_all_leading(text: Seq<char>)
    ensures
        decimal::all_digits(text) <==> leading_digits(text) == text.len(),
    decreases text.len(),
{
    if text.len() > 0 {
        let rest = text.skip(1);
        lemma_all_leading(rest);
        if decimal::all_digits(text) {
            assert(decimal::is_digit(text[0]));
            assert forall|i: int| 0 <= i < rest.len() implies decimal::is_digit(
                #[trigger] rest[i],
            ) by {
                assert(decimal::is_digit(text[i + 1]));
            }
        }
        if leading_digits(text) == text.len() {
            assert forall|i: int| 0 <= i < text.len() implies decimal::is_digit(
                #[trigger] text[i],
            ) by {
                if i > 0 {
                    assert(decimal::is_digit(rest[i - 1]));
                }
            }
        }
    }
}

/// Reads a decimal literal.
fn read_decimal(chars: &Vec<char>, start: usize) -> (r: Option<u32>)
    requires
        start <= chars@.len(),
    ensures
        match decimal_literal(chars@.skip(start as int)) {
            Some(literal) => r matches Some(k) && k == literal_magnitude(literal) && k
                <= binary32::INFINITY_BITS,
            None => r is None,
        },
{
    let ghost text = chars@.skip(start as int);
    let end = digits_end(chars, start);
    let ghost after = text.skip(end - start);
    let mut digits: Vec<char> = Vec::new();
    push_digits(&mut digits, chars, start, end);
    assert(text.take(end - start) =~= chars@.subrange(start as int, end as int));
    assert(after =~= chars@.skip(end as int));
    let pointed = end < chars.len() && chars[end] == '.';
    let rest: usize = if pointed {
        assert(after.skip(1) =~= chars@.skip(end + 1));
        let last = digits_end(chars, end + 1);
        push_digits(&mut digits, chars, end + 1, last);
        assert(after.subrange(1, last - end) =~= chars@.subrange(end + 1, last as int));
        assert(after.skip(last - end) =~= chars@.skip(last as int));
        last
    } else {
        end
    };
    let places: usize = if pointed {
        rest - end - 1
    } else {
        0
    };
    proof {
        let fraction = if pointed {
            after.subrange(1, rest - end)
        } else {
            Seq::empty()
        };
        assert(digits@ =~= text.take(end - start) + fraction);
    }
    let Some(exponent) = read_exponent(chars, rest) else {
        return None;
    };
    if digits.len() == 0 {
        return None;
    }
    let ghost exact = exponent_of(chars@.skip(rest as int))->0 - places;
    let k = decimal_magnitude(&digits, exponent - places as i128, Ghost(exact));
    proof {
        lemma_pow10((-exact) as nat, (-exact) as nat);
        rounding::lemma_closest(
            numerator(decimal::digits_value(digits@), exact),
            denominator(exact),
            k as int,
        );
    }
    Some(k)
}

/// The bits of the number that a text reads as in single precision, if it reads as one.
pub fn read_number(text: &str) -> (r: Option<u32>)
    ensures
        r == number_bits(text@),
{
    let chars = text::chars_of(text);
    let negative = chars.len() > 0 && chars[0] == '-';
    let start: usize = if negative || chars.len() > 0 && chars[0] == '+' {
        1
    } else {
        0
    };
    assert(chars@.skip(0) =~= chars@);
    let magnitude = if spells_from(&chars, start, "inf") || spells_from(
        &chars,
        start,
        "infinity",
    ) {
        binary32::INFINITY_BITS
    } else if spells_from(&chars, start, "nan") {
        binary32::QUIET_NAN_BITS
    } else {
        let Some(k) = read_decimal(&chars, start) else {
            return None;
        };
        k
    };
    if negative {
        Some(magnitude + binary32::SIGN_BIT)
    } else {
        Some(magnitude)
    }
}

/// A whole number in decimal notation reads as that number, rounded to single precision.
pub proof fn law_whole_numbers_are_numbers(n: nat)
    ensures
        number_bits(decimal::decimal_text(n)) == Some(
            rounding::closest(n * pow2(149), 1) as u32,
        ),
{
    let text = decimal::decimal_text(n);
    decimal::lemma_decimal_text(n);
    lemma_all_leading(text);
    assert(decimal::is_digit(text[0]));
    assert(text.take(text.len() as int) + Seq::<char>::empty() =~= text);
    let lower = text.map_values(|c: char| text::ascii_lowercase(c));
    assert(lower[0] == text[0]);
    reveal_strlit("inf");
    reveal_strlit("infinity");
    reveal_strlit("nan");
    assert("inf"@[0] == 'i' && "infinity"@[0] == 'i' && "nan"@[0] == 'n');
}

} // verus!
