//! Natural numbers of any size.

use vstd::arithmetic::power2::{
    lemma2_to64, lemma_pow2_adds, lemma_pow2_pos, lemma_pow2_strictly_increases, pow2,
};
use vstd::prelude::*;

verus! {

/// A natural number in base 2^32, least significant digit first.
pub struct Natural {
    digits: Vec<u32>,
}

/// The digit at a position; zero past the last.
spec fn digit_at(digits: Seq<u32>, i: int) -> int {
    if 0 <= i < digits.len() {
        digits[i] as int
    } else {
        0
    }
}

/// What the first digits of a number amount to.
spec fn value_of(digits: Seq<u32>, n: nat) -> nat
    decreases n,
{
    if n == 0 {
        0
    } else {
        value_of(digits, (n - 1) as nat) + (digit_at(digits, n - 1) * pow2(
            (32 * (n - 1)) as nat,
        )) as nat
    }
}

impl View for Natural {
    type V = nat;

    closed spec fn view(&self) -> nat {
        value_of(self.digits@, self.digits@.len())
    }
}

/// Only the first digits matter to what they amount to.
proof fn lemma_prefix(a: Seq<u32>, b: Seq<u32>, n: nat)
    requires
        forall|i: int| 0 <= i < n ==> #[trigger] digit_at(a, i) == digit_at(b, i),
    ensures
        value_of(a, n) == value_of(b, n),
    decreases n,
{
    if n > 0 {
        lemma_prefix(a, b, (n - 1) as nat);
        assert(digit_at(a, n - 1) == digit_at(b, n - 1));
    }
}

/// The positions past the last digit add nothing.
proof fn lemma_padding(digits: Seq<u32>, n: nat)
    requires
        n >= digits.len(),
    ensures
        value_of(digits, n) == value_of(digits, digits.len()),
    decreases n,
{
    if n > digits.len() {
        lemma_padding(digits, (n - 1) as nat);
        assert(0 * pow2((32 * (n - 1)) as nat) == 0) by (nonlinear_arith);
    }
}

/// So many digits amount to less than the next power of the base.
proof fn lemma_bound(digits: Seq<u32>, n: nat)
    ensures
        value_of(digits, n) < pow2(32 * n),
    decreases n,
{
    lemma2_to64();
    if n > 0 {
        let p = pow2((32 * (n - 1)) as nat) as int;
        let d = digit_at(digits, n - 1);
        lemma_bound(digits, (n - 1) as nat);
        lemma_pow2_adds(32, (32 * (n - 1)) as nat);
        assert(p + d * p <= 0x1_0000_0000 * p) by (nonlinear_arith)
            requires
                0 <= d <= 0xffff_ffff,
                p > 0,
        ;
        assert(0 <= d * p) by (nonlinear_arith)
            requires
                0 <= d,
                p > 0,
        ;
    }
}

/// Numbers are ordered by the topmost digit in which they differ.
proof fn lemma_top_difference(a: Seq<u32>, b: Seq<u32>, i: nat, n: nat)
    requires
        i < n,
        digit_at(a, i as int) < digit_at(b, i as int),
        forall|j: int| i < j < n ==> #[trigger] digit_at(a, j) == digit_at(b, j),
    ensures
        value_of(a, n) < value_of(b, n),
    decreases n,
{
    if i + 1 < n {
        lemma_top_difference(a, b, i, (n - 1) as nat);
        assert(digit_at(a, n - 1) == digit_at(b, n - 1));
    } else {
        let p = pow2(32 * i) as int;
        let x = digit_at(a, i as int);
        let y = digit_at(b, i as int);
        lemma_bound(a, i);
        lemma_pow2_pos(32 * i);
        assert(p + x * p <= y * p && 0 <= x * p) by (nonlinear_arith)
            requires
                0 <= x < y,
                p > 0,
        ;
    }
}

impl Natural {
    /// A small number.
    pub fn new(n: u32) -> (r: Natural)
        ensures
            r@ == n,
    {
        let mut digits: Vec<u32> = Vec::new();
        digits.push(n);
        proof {
            lemma2_to64();
            assert(value_of(digits@, 1) == value_of(digits@, 0) + digits@[0] * pow2(0));
            assert(n * 1 == n) by (nonlinear_arith);
        }
        Natural { digits }
    }

    /// The number times a factor, and a term more.
    pub fn times_plus(&self, factor: u32, term: u32) -> (r: Natural)
        ensures
            r@ == self@ * factor + term,
    {
        let mut digits: Vec<u32> = Vec::new();
        let mut carry: u32 = term;
        let mut i: usize = 0;
        proof {
            lemma2_to64();
            assert(0 * factor == 0) by (nonlinear_arith);
            assert(carry * 1 == carry) by (nonlinear_arith);
        }
        while i < self.digits.len()
            invariant
                i <= self.digits@.len(),
                digits@.len() == i,
                value_of(digits@, i as nat) + carry * pow2((32 * i) as nat) == value_of(
                    self.digits@,
                    i as nat,
                ) * factor + term,
            decreases self.digits@.len() - i,
        {
            let ghost before = digits@;
            let ghost held = carry as int;
            let d = self.digits[i];
            proof {
                assert(d * factor <= 0xffff_ffff * 0xffff_ffff) by (nonlinear_arith)
                    requires
                        0 <= d <= 0xffff_ffff,
                        0 <= factor <= 0xffff_ffff,
                ;
            }
            let t: u64 = d as u64 * factor as u64 + carry as u64;
            let low: u32 = (t % 0x1_0000_0000) as u32;
            carry = (t / 0x1_0000_0000) as u32;
            digits.push(low);
            proof {
                let p = pow2((32 * i) as nat) as int;
                lemma2_to64();
                lemma_pow2_adds(32, (32 * i) as nat);
                assert forall|j: int| 0 <= j < i implies #[trigger] digit_at(before, j) == digit_at(
                    digits@,
                    j,
                ) by {}
                lemma_prefix(before, digits@, i as nat);
                let v = value_of(self.digits@, i as nat) as int;
                assert(value_of(self.digits@, (i + 1) as nat) == v + d * p) by {
                    assert(0 <= d * p) by (nonlinear_arith)
                        requires
                            0 <= d,
                            0 <= p,
                    ;
                }
                assert(value_of(digits@, (i + 1) as nat) == value_of(digits@, i as nat) + low * p)
                    by {
                    assert(0 <= low * p) by (nonlinear_arith)
                        requires
                            0 <= low,
                            0 <= p,
                    ;
                }
                assert((v + d * p) * factor == v * factor + (d * factor) * p) by (nonlinear_arith);
                assert(t == d * factor + held);
                assert((d * factor) * p + held * p == t * p) by (nonlinear_arith)
                    requires
                        t == d * factor + held,
                ;
                assert(low * p + carry * (0x1_0000_0000 * p) == t * p) by (nonlinear_arith)
                    requires
                        t == low + carry * 0x1_0000_0000,
                ;
            }
            i += 1;
        }
        let ghost before = digits@;
        digits.push(carry);
        proof {
            let n = before.len();
            assert forall|j: int| 0 <= j < n implies #[trigger] digit_at(before, j) == digit_at(
                digits@,
                j,
            ) by {}
            lemma_prefix(before, digits@, n);
            assert(0 <= carry * pow2(32 * n)) by (nonlinear_arith);
        }
        Natural { digits }
    }

    /// The number times a power of two.
    pub fn shifted(&self, bits: u32) -> (r: Natural)
        ensures
            r@ == self@ * pow2(bits as nat),
        decreases bits,
    {
        proof {
            lemma2_to64();
            assert(self@ * 1 == self@) by (nonlinear_arith);
        }
        if bits == 0 {
            return self.times_plus(1, 0);
        }
        let step: u32 = if bits < 31 {
            bits
        } else {
            31
        };
        let factor = power(step);
        let next = self.times_plus(factor, 0);
        proof {
            lemma_pow2_adds(step as nat, (bits - step) as nat);
            assert((self@ * pow2(step as nat)) * pow2((bits - step) as nat) == self@ * (pow2(
                step as nat,
            ) * pow2((bits - step) as nat))) by (nonlinear_arith);
        }
        next.shifted(bits - step)
    }

    /// Tells whether the number is less than another.
    pub fn less_than(&self, other: &Natural) -> (r: bool)
        ensures
            r == (self@ < other@),
    {
        let n: usize = if self.digits.len() < other.digits.len() {
            other.digits.len()
        } else {
            self.digits.len()
        };
        let mut i: usize = n;
        proof {
            lemma_padding(self.digits@, n as nat);
            lemma_padding(other.digits@, n as nat);
        }
        while i > 0
            invariant
                i <= n,
                self@ == value_of(self.digits@, n as nat),
                other@ == value_of(other.digits@, n as nat),
                forall|j: int|
                    i <= j < n ==> #[trigger] digit_at(self.digits@, j) == digit_at(
                        other.digits@,
                        j,
                    ),
            decreases i,
        {
            i -= 1;
            let a = self.digit(i);
            let b = other.digit(i);
            if a < b {
                proof {
                    lemma_top_difference(self.digits@, other.digits@, i as nat, n as nat);
                }
                return true;
            }
            if b < a {
                proof {
                    lemma_top_difference(other.digits@, self.digits@, i as nat, n as nat);
                }
                return false;
            }
        }
        proof {
            lemma_prefix(self.digits@, other.digits@, n as nat);
        }
        false
    }

    /// The digit at a position.
    fn digit(&self, i: usize) -> (r: u32)
        ensures
            r == digit_at(self.digits@, i as int),
    {
        if i < self.digits.len() {
            self.digits[i]
        } else {
            0
        }
    }
}

/// A power of two below 2^32.
fn power(bits: u32) -> (r: u32)
    requires
        bits <= 31,
    ensures
        r == pow2(bits as nat),
    decreases bits,
{
    proof {
        lemma2_to64();
    }
    if bits == 0 {
        return 1;
    }
    proof {
        lemma_pow2_adds(1, (bits - 1) as nat);
        if bits < 31 {
            lemma_pow2_strictly_increases(bits as nat, 31);
        }
    }
    2 * power(bits - 1)
}

} // verus!
