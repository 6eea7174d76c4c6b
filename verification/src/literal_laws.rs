//! Laws of numbers as they are written: what signs, points, exponents and zeros do to what is read.

use crate::decimal;
use crate::literal;
use crate::number_laws;
use crate::rounding;
use crate::text;
use vstd::arithmetic::power2::pow2;
use vstd::prelude::*;

verus! {

/// A number read without a sign has none.
proof fn lemma_magnitudes_are_unsigned(l: literal::Literal)
    ensures
        0 <= literal::literal_magnitude(l) < 0x8000_0000,
{
    if let literal::Literal::Decimal { coefficient, exponent } = l {
        if exponent < 0 {
            literal::lemma_pow10((-exponent) as nat, 0);
        }
        rounding::lemma_nearest_exists(
            literal::numerator(coefficient, exponent),
            literal::denominator(exponent),
        );
    }
}

/// A minus sign before a number that has no sign makes it negative, a plus sign changes nothing, and
/// neither makes a number of what is none.
pub proof fn law_signs_are_read(unsigned: Seq<char>)
    requires
        unsigned.len() > 0 ==> unsigned[0] != '-' && unsigned[0] != '+',
    ensures
        literal::number_bits(seq!['+'] + unsigned) == literal::number_bits(unsigned),
        match literal::number_bits(unsigned) {
            Some(bits) => bits < 0x8000_0000 && literal::number_bits(seq!['-'] + unsigned) == Some(
                (bits + 0x8000_0000) as u32,
            ),
            None => literal::number_bits(seq!['-'] + unsigned) is None,
        },
{
    let minus = seq!['-'] + unsigned;
    let plus = seq!['+'] + unsigned;
    assert(minus[0] == '-' && plus[0] == '+');
    assert(minus.skip(1) =~= unsigned);
    assert(plus.skip(1) =~= unsigned);
    if let Some(l) = literal::literal_of(unsigned) {
        lemma_magnitudes_are_unsigned(l);
    }
}

/// A text that starts with a digit or a point is no word.
proof fn lemma_no_word(text: Seq<char>)
    requires
        text.len() > 0,
        decimal::is_digit(text[0]) || text[0] == '.',
    ensures
        literal::literal_of(text) == literal::decimal_literal(text),
        literal::number_bits(text) == match literal::decimal_literal(text) {
            Some(l) => Some(literal::literal_magnitude(l) as u32),
            None => None,
        },
{
    let lower = text.map_values(|c: char| text::ascii_lowercase(c));
    assert(lower[0] == text[0]);
    reveal_strlit("inf");
    reveal_strlit("infinity");
    reveal_strlit("nan");
    assert("inf"@[0] == 'i' && "infinity"@[0] == 'i' && "nan"@[0] == 'n');
}

/// Digits in two runs are digits.
proof fn lemma_all_digits(a: Seq<char>, b: Seq<char>)
    requires
        decimal::all_digits(a),
        decimal::all_digits(b),
    ensures
        decimal::all_digits(a + b),
{
    assert forall|i: int| 0 <= i < (a + b).len() implies decimal::is_digit(#[trigger] (a + b)[i]) by {
        if i < a.len() {
            assert(decimal::is_digit(a[i]));
        } else {
            assert(decimal::is_digit(b[i - a.len()]));
        }
    }
}

/// What digits with a point among them are.
proof fn lemma_point(a: Seq<char>, b: Seq<char>)
    requires
        decimal::all_digits(a),
        decimal::all_digits(b),
        a.len() + b.len() > 0,
    ensures
        literal::number_bits(a + seq!['.'] + b) == Some(
            literal::literal_magnitude(
                literal::Literal::Decimal {
                    coefficient: decimal::digits_value(a + b),
                    exponent: -(b.len() as int),
                },
            ) as u32,
        ),
{
    let text = a + seq!['.'] + b;
    let n = a.len() as int;
    assert(text.take(n) =~= a);
    assert(text[n] == '.');
    literal::lemma_leading_digits(text, a.len());
    let after = text.skip(n);
    assert(after[0] == '.');
    assert(after.skip(1) =~= b);
    assert(b.take(b.len() as int) =~= b);
    literal::lemma_leading_digits(b, b.len());
    assert(after.subrange(1, 1 + b.len() as int) =~= b);
    assert(after.skip(1 + b.len() as int) =~= Seq::empty());
    if a.len() > 0 {
        assert(decimal::is_digit(a[0]));
        assert(text[0] == a[0]);
    } else {
        assert(text[0] == '.');
    }
    lemma_no_word(text);
}

/// What digits alone are.
proof fn lemma_digits(a: Seq<char>)
    requires
        decimal::all_digits(a),
        a.len() > 0,
    ensures
        literal::number_bits(a) == Some(
            literal::literal_magnitude(
                literal::Literal::Decimal { coefficient: decimal::digits_value(a), exponent: 0 },
            ) as u32,
        ),
{
    assert(a.take(a.len() as int) =~= a);
    literal::lemma_leading_digits(a, a.len());
    assert(a + Seq::<char>::empty() =~= a);
    assert(a.skip(a.len() as int) =~= Seq::empty());
    assert(decimal::is_digit(a[0]));
    lemma_no_word(a);
}

/// What digits with an exponent are.
proof fn lemma_exponent(a: Seq<char>, e: char, k: nat)
    requires
        decimal::all_digits(a),
        a.len() > 0,
        e == 'e' || e == 'E',
    ensures
        literal::number_bits(a + seq![e] + decimal::decimal_text(k)) == Some(
            literal::literal_magnitude(
                literal::Literal::Decimal {
                    coefficient: decimal::digits_value(a),
                    exponent: k as int,
                },
            ) as u32,
        ),
{
    let digits = decimal::decimal_text(k);
    let text = a + seq![e] + digits;
    let n = a.len() as int;
    decimal::lemma_decimal_text(k);
    assert(text.take(n) =~= a);
    assert(text[n] == e);
    literal::lemma_leading_digits(text, a.len());
    let after = text.skip(n);
    assert(after[0] == e);
    assert(after[1] == digits[0]);
    assert(decimal::is_digit(digits[0]));
    assert(after.skip(1) =~= digits);
    assert(a + Seq::<char>::empty() =~= a);
    assert(decimal::is_digit(a[0]));
    assert(text[0] == a[0]);
    lemma_no_word(text);
}

/// So many zeros.
pub open spec fn zeros(k: nat) -> Seq<char> {
    Seq::new(k, |i: int| '0')
}

/// Digits and then zeros.
proof fn lemma_zeros_multiply(a: Seq<char>, k: nat)
    requires
        decimal::all_digits(a),
    ensures
        decimal::all_digits(a + zeros(k)),
        decimal::digits_value(a + zeros(k)) == decimal::digits_value(a) * literal::pow10(k),
{
    let all = a + zeros(k);
    assert(decimal::all_digits(zeros(k)));
    lemma_all_digits(a, zeros(k));
    literal::lemma_digits_split(all, a.len() as int);
    assert(all.take(a.len() as int) =~= a);
    assert(all.skip(a.len() as int) =~= zeros(k));
    literal::lemma_zero_digits(zeros(k));
}

/// An exponent moves the point: it reads as so many zeros more.
pub proof fn law_exponents_are_zeros(a: Seq<char>, e: char, k: nat)
    requires
        decimal::all_digits(a),
        a.len() > 0,
        e == 'e' || e == 'E',
    ensures
        literal::number_bits(a + seq![e] + decimal::decimal_text(k)) == literal::number_bits(
            a + zeros(k),
        ),
        literal::number_bits(a + zeros(k)) is Some,
{
    lemma_exponent(a, e, k);
    lemma_zeros_multiply(a, k);
    lemma_digits(a + zeros(k));
    let c = decimal::digits_value(a);
    if k == 0 {
        literal::lemma_pow10_step(0);
        assert(c * 1 == c);
    }
}

/// Digits with a point among them read as the number nearest to the digits, divided by ten for each
/// that follows the point. Zeros behind the point, or at the end of what follows it, change nothing.
pub proof fn law_points_divide_by_powers_of_ten(a: Seq<char>, b: Seq<char>)
    requires
        decimal::all_digits(a),
        decimal::all_digits(b),
        a.len() > 0,
    ensures
        literal::number_bits(a + seq!['.'] + b) matches Some(bits) && rounding::nearest(
            decimal::digits_value(a + b) * pow2(149),
            literal::pow10(b.len()),
            bits as int,
        ),
        literal::number_bits(a + seq!['.'] + zeros(b.len())) == literal::number_bits(a),
        literal::number_bits(a + seq!['.'] + b.push('0')) == literal::number_bits(
            a + seq!['.'] + b,
        ),
{
    let n = b.len();
    let whole = decimal::digits_value(a);
    lemma_point(a, b);
    literal::lemma_pow10(n, 0);
    let all = decimal::digits_value(a + b);
    rounding::lemma_nearest_exists(all * pow2(149), literal::pow10(n));
    if n == 0 {
        literal::lemma_pow10_step(0);
    }
    // No digits but zeros behind the point.
    let none = zeros(n);
    lemma_zeros_multiply(a, n);
    assert(decimal::all_digits(none));
    lemma_point(a, none);
    lemma_digits(a);
    lemma_same_magnitude(whole, n, 0);
    // One more zero behind the point.
    let longer = b.push('0');
    lemma_all_digits(b, seq!['0']);
    assert(b + seq!['0'] =~= longer);
    lemma_point(a, longer);
    lemma_all_digits(a, b);
    lemma_zeros_multiply(a + b, 1);
    assert((a + b) + zeros(1) =~= a + longer);
    lemma_same_magnitude(all, 1, n);
}

/// Multiplying by a power of ten and moving the point back changes nothing.
proof fn lemma_same_magnitude(c: nat, k: nat, places: nat)
    ensures
        literal::literal_magnitude(
            literal::Literal::Decimal {
                coefficient: c * literal::pow10(k),
                exponent: -((places + k) as int),
            },
        ) == literal::literal_magnitude(
            literal::Literal::Decimal { coefficient: c, exponent: -(places as int) },
        ),
{
    literal::lemma_pow10(places, k);
    literal::lemma_pow10_step(0);
    let p = literal::pow10(k);
    let num = c * pow2(149);
    let den = literal::pow10(places);
    assert((c * p) * pow2(149) == num * p) by (nonlinear_arith)
        requires
            num == c * pow2(149),
    ;
    rounding::lemma_nearest_exists(num, den);
    let m = rounding::closest(num, den);
    number_laws::lemma_nearest_scales(num, den, p, m);
    assert(den * p > 0) by (nonlinear_arith)
        requires
            den > 0,
            p > 0,
    ;
    rounding::lemma_closest(num * p, den * p, m);
}

/// Whether a character can stand in a number that is written with digits.
pub open spec fn is_of_numbers(c: char) -> bool {
    '0' <= c <= '9' || c == '.' || c == 'e' || c == 'E' || c == '+' || c == '-'
}

/// Whether a text is `inf`, `infinity` or `nan`, in letters of either case.
pub open spec fn is_number_word(text: Seq<char>) -> bool {
    let lower = text.map_values(|c: char| text::ascii_lowercase(c));
    lower == "inf"@ || lower == "infinity"@ || lower == "nan"@
}

/// A token without the sign that it may start with.
pub open spec fn unsigned_part(token: Seq<char>) -> Seq<char> {
    if token.len() > 0 && (token[0] == '-' || token[0] == '+') {
        token.skip(1)
    } else {
        token
    }
}

/// The leading digits of a text are digits.
proof fn lemma_leading(text: Seq<char>)
    ensures
        literal::leading_digits(text) <= text.len(),
        decimal::all_digits(text.take(literal::leading_digits(text) as int)),
    decreases text.len(),
{
    if text.len() > 0 && decimal::is_digit(text[0]) {
        let rest = text.skip(1);
        lemma_leading(rest);
        let n = literal::leading_digits(rest) as int;
        let more = text.take(n + 1);
        assert forall|i: int| 0 <= i < more.len() implies decimal::is_digit(#[trigger] more[i]) by {
            if i > 0 {
                assert(decimal::is_digit(rest.take(n)[i - 1]));
            }
        }
    }
}

/// Exponents are written with the characters of numbers.
proof fn lemma_exponent_characters(text: Seq<char>)
    requires
        literal::exponent_of(text) is Some,
    ensures
        forall|i: int| 0 <= i < text.len() ==> is_of_numbers(#[trigger] text[i]),
{
    if text.len() > 0 {
        let signed = text.len() > 1 && (text[1] == '-' || text[1] == '+');
        let skipped: int = if signed {
            2
        } else {
            1
        };
        let digits = text.skip(skipped);
        assert forall|i: int| 0 <= i < text.len() implies is_of_numbers(#[trigger] text[i]) by {
            if i >= skipped {
                assert(decimal::is_digit(digits[i - skipped]));
            }
        }
    }
}

/// What reads as a number is one of three words, or is written with digits, points, exponents and
/// signs alone; a sign may stand before either. Every other token stands for itself.
pub proof fn law_nothing_else_is_a_number(token: Seq<char>)
    requires
        literal::number_bits(token) is Some,
    ensures
        unsigned_part(token).len() > 0,
        is_number_word(unsigned_part(token)) || forall|i: int|
            0 <= i < unsigned_part(token).len() ==> is_of_numbers(
                #[trigger] unsigned_part(token)[i],
            ),
{
    let unsigned = unsigned_part(token);
    reveal_strlit("inf");
    reveal_strlit("infinity");
    reveal_strlit("nan");
    if is_number_word(unsigned) {
        let lower = unsigned.map_values(|c: char| text::ascii_lowercase(c));
        assert(lower.len() == unsigned.len());
        assert("inf"@.len() == 3 && "infinity"@.len() == 8 && "nan"@.len() == 3);
    } else {
        assert(literal::decimal_literal(unsigned) is Some);
        let whole = literal::leading_digits(unsigned) as int;
        let after = unsigned.skip(whole);
        lemma_leading(unsigned);
        let pointed = after.len() > 0 && after[0] == '.';
        let n = if pointed {
            literal::leading_digits(after.skip(1)) as int
        } else {
            0
        };
        let rest = if pointed {
            lemma_leading(after.skip(1));
            after.skip(1 + n)
        } else {
            after
        };
        lemma_exponent_characters(rest);
        let skipped = unsigned.len() - rest.len();
        assert forall|i: int| 0 <= i < unsigned.len() implies is_of_numbers(
            #[trigger] unsigned[i],
        ) by {
            if i < whole {
                assert(decimal::is_digit(unsigned.take(whole)[i]));
            } else if i < skipped {
                assert(unsigned[i] == after[i - whole]);
                if i > whole {
                    assert(decimal::is_digit(after.skip(1).take(n)[i - whole - 1]));
                }
            } else {
                assert(unsigned[i] == rest[i - skipped]);
            }
        }
    }
}

/// The three words are infinity and a NaN.
pub proof fn law_words_are_numbers(word: Seq<char>)
    requires
        is_number_word(word),
    ensures
        ({
            let lower = word.map_values(|c: char| text::ascii_lowercase(c));
            literal::number_bits(word) == Some(
                if lower == "nan"@ {
                    0x7fc0_0000u32
                } else {
                    0x7f80_0000u32
                },
            )
        }),
{
    let lower = word.map_values(|c: char| text::ascii_lowercase(c));
    reveal_strlit("inf");
    reveal_strlit("infinity");
    reveal_strlit("nan");
    assert("inf"@.len() == 3 && "infinity"@.len() == 8 && "nan"@.len() == 3);
    assert("inf"@[0] == 'i' && "infinity"@[0] == 'i' && "nan"@[0] == 'n');
    assert(lower[0] == text::ascii_lowercase(word[0]));
    assert(word[0] != '-' && word[0] != '+');
}

} // verus!
