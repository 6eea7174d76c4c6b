//! Whole numbers in decimal notation.

use crate::text;
use vstd::prelude::*;

verus! {

/// Whether a character is one of the ten digits.
pub open spec fn is_digit(c: char) -> bool {
    '0' <= c && c <= '9'
}

/// Whether a text is made of digits alone.
pub open spec fn all_digits(text: Seq<char>) -> bool {
    forall|i: int| 0 <= i < text.len() ==> is_digit(#[trigger] text[i])
}

/// The digit of a number below ten.
pub open spec fn digit(n: nat) -> char {
    (48 + n) as char
}

/// A number in decimal notation.
pub open spec fn decimal_text(n: nat) -> Seq<char>
    decreases n,
{
    if n < 10 {
        seq![digit(n)]
    } else {
        decimal_text(n / 10).push(digit(n % 10))
    }
}

/// The number that digits denote.
pub open spec fn digits_value(digits: Seq<char>) -> nat
    decreases digits.len(),
{
    if digits.len() == 0 {
        0
    } else {
        (digits_value(digits.drop_last()) * 10 + (digits.last() as u32 - 48)) as nat
    }
}

/// A text without the plus sign that it may start with.
pub open spec fn unsigned_digits(text: Seq<char>) -> Seq<char> {
    if text.len() > 0 && text[0] == '+' {
        text.skip(1)
    } else {
        text
    }
}

/// The number that a text denotes: digits, after a plus sign or none, of a number of at most `max`.
pub open spec fn number_of(text: Seq<char>, max: nat) -> Option<nat> {
    let digits = unsigned_digits(text);
    if digits.len() > 0 && all_digits(digits) && digits_value(digits) <= max {
        Some(digits_value(digits))
    } else {
        None
    }
}

/// The digits of a number.
pub proof fn lemma_decimal_text(n: nat)
    ensures
        decimal_text(n).len() > 0,
        all_digits(decimal_text(n)),
        digits_value(decimal_text(n)) == n,
    decreases n,
{
    if n < 10 {
        assert(decimal_text(n).drop_last() =~= Seq::empty());
        assert(digits_value(decimal_text(n)) == n) by {
            reveal_with_fuel(digits_value, 2);
        }
    } else {
        lemma_decimal_text(n / 10);
        assert(decimal_text(n).drop_last() =~= decimal_text(n / 10));
        assert(decimal_text(n).last() == digit(n % 10));
    }
}

/// Reading back a number that was written gives the number.
pub proof fn law_decimal_round_trip(n: nat, max: nat)
    requires
        n <= max,
    ensures
        number_of(decimal_text(n), max) == Some(n),
{
    lemma_decimal_text(n);
    assert(is_digit(decimal_text(n)[0]));
}

/// A number in decimal notation.
pub fn decimal(n: u64) -> (r: String)
    ensures
        r@ == decimal_text(n as nat),
    decreases n,
{
    let mut text = if n < 10 {
        String::new()
    } else {
        decimal(n / 10)
    };
    let d: u8 = 48 + (n % 10) as u8;
    text::push(&mut text, d as char);
    assert(text@ =~= decimal_text(n as nat));
    text
}

/// The number that a run of characters denotes, where it is made of digits; within that, none
/// where the number is over `max`.
pub fn digits_between(chars: &Vec<char>, start: usize, end: usize, max: u64) -> (r: Option<
    Option<u64>,
>)
    requires
        start <= end <= chars@.len(),
    ensures
        ({
            let digits = chars@.subrange(start as int, end as int);
            if !all_digits(digits) {
                r is None
            } else if digits_value(digits) <= max {
                r == Some(Some(digits_value(digits) as u64))
            } else {
                r == Some(None::<u64>)
            }
        }),
{
    let ghost digits = chars@.subrange(start as int, end as int);
    let mut value: Option<u64> = Some(0);
    let mut i: usize = start;
    while i < end
        invariant
            start <= i <= end <= chars@.len(),
            digits == chars@.subrange(start as int, end as int),
            all_digits(digits.take(i - start)),
            match value {
                Some(n) => n <= max && n == digits_value(digits.take(i - start)),
                None => digits_value(digits.take(i - start)) > max,
            },
        decreases end - i,
    {
        let c = chars[i];
        assert(c == digits[i - start]);
        if c < '0' || c > '9' {
            return None;
        }
        proof {
            let before = digits.take(i - start);
            let after = digits.take(i + 1 - start);
            assert(after =~= before.push(c));
            assert(after.drop_last() =~= before);
            assert forall|j: int| 0 <= j < after.len() implies is_digit(#[trigger] after[j]) by {
                if j < before.len() {
                    assert(is_digit(before[j]));
                }
            }
        }
        if let Some(n) = value {
            let more: u128 = n as u128 * 10 + (c as u32 - 48) as u128;
            value = if more <= max as u128 {
                Some(more as u64)
            } else {
                None
            };
        }
        i += 1;
    }
    assert(digits.take(end - start) =~= digits);
    Some(value)
}

/// The number that a text denotes, where it is at most `max`.
pub fn parse_number(text: &str, max: u64) -> (r: Option<u64>)
    ensures
        match number_of(text@, max as nat) {
            Some(n) => r == Some(n as u64),
            None => r is None,
        },
{
    let chars = text::chars_of(text);
    let start: usize = if chars.len() > 0 && chars[0] == '+' {
        1
    } else {
        0
    };
    assert(unsigned_digits(text@) =~= text@.subrange(start as int, text@.len() as int));
    if start == chars.len() {
        return None;
    }
    match digits_between(&chars, start, chars.len(), max) {
        Some(value) => value,
        None => None,
    }
}

} // verus!
