//! The exact-value oracle: the true value of C(row, column) as an
//! arbitrary-precision integer. The number is held as its base-2^32 digits;
//! `num-bigint` multiplies and divides.

use crate::binomial::{
    binomial, factorial, falling_factorial, lemma_binomial_is_quotient,
    lemma_falling_factorial_lead, lemma_factorial_positive,
};
use num_bigint::BigUint;
use vstd::prelude::*;

verus! {

/// The number that a sequence of base-2^32 digits stands for, least
/// significant digit first.
pub open spec fn digits_value(digits: Seq<u32>) -> nat
    decreases digits.len(),
{
    if digits.len() == 0 {
        0
    } else {
        digits[0] as nat + 0x1_0000_0000 * digits_value(digits.skip(1))
    }
}

/// An arbitrary-precision natural number.
#[derive(Clone, Debug, PartialEq, Eq)]
pub struct ExactValue {
    /// The base-2^32 digits, least significant first.
    pub digits: Vec<u32>,
}

impl View for ExactValue {
    type V = nat;

    open spec fn view(&self) -> nat {
        digits_value(self.digits@)
    }
}

impl ExactValue {
    /// The number `x`, without leading zero digits.
    pub fn from_u64(x: u64) -> (v: ExactValue)
        ensures
            v@ == x,
    {
        let low: u32 = (x & 0xffff_ffff) as u32;
        let high: u32 = (x >> 32) as u32;
        let mut digits: Vec<u32> = Vec::new();
        proof {
            assert(x & 0xffff_ffff == x % 0x1_0000_0000 && x >> 32 == x / 0x1_0000_0000)
                by (bit_vector);
        }
        if x != 0 {
            digits.push(low);
        }
        if high != 0 {
            digits.push(high);
        }
        proof {
            let d = digits@;
            if x != 0 {
                if high != 0 {
                    assert(d.skip(1).skip(1).len() == 0);
                    assert(digits_value(d.skip(1).skip(1)) == 0);
                    assert(d.skip(1)[0] == high);
                    assert(digits_value(d.skip(1)) == high);
                } else {
                    assert(d.skip(1).len() == 0);
                    assert(digits_value(d.skip(1)) == 0);
                }
                assert(digits_value(d) == low + 0x1_0000_0000 * high);
            }
        }
        ExactValue { digits }
    }

    /// The product with a machine word. Calls `num-bigint`'s `*` on two
    /// `BigUint`, made by `BigUint::new` and `BigUint::from`, and reads the
    /// product's digits with `to_u32_digits`: the product of the two numbers.
    #[verifier::external_body]
    pub(crate) fn times_u64(&self, factor: u64) -> (v: ExactValue)
        ensures
            v@ == self@ * factor,
    {
        let product = BigUint::new(self.digits.clone()) * BigUint::from(factor);
        ExactValue { digits: product.to_u32_digits() }
    }

    /// The quotient by a machine word, rounded down. Calls `num-bigint`'s
    /// `/` on two `BigUint`, which panics on a zero divisor.
    #[verifier::external_body]
    pub(crate) fn divided_by_u64(&self, divisor: u64) -> (v: ExactValue)
        requires
            divisor > 0,
        ensures
            v@ == self@ / (divisor as nat),
    {
        let quotient = BigUint::new(self.digits.clone()) / BigUint::from(divisor);
        ExactValue { digits: quotient.to_u32_digits() }
    }

    /// Whether two values are the same number. Calls `num-bigint`'s `==` on
    /// two `BigUint`, which compares the numbers.
    #[verifier::external_body]
    pub(crate) fn is_equal(&self, other: &ExactValue) -> (b: bool)
        ensures
            b == (self@ == other@),
    {
        BigUint::new(self.digits.clone()) == BigUint::new(other.digits.clone())
    }
}

/// The exact value of C(row, column): the product of the integers from
/// `row - column + 1` to `row`, divided by the integers from 1 to `column`
/// in turn. No division leaves a remainder that matters: the result is the
/// binomial coefficient.
pub fn exact_value(row: u64, column: u64) -> (value: ExactValue)
    requires
        column <= row,
    ensures
        value@ == binomial(row as nat, column as nat),
{
    let base: u64 = row - column;
    let mut value = ExactValue::from_u64(1);
    let mut j: u64 = 0;
    proof {
        assert(falling_factorial(base as nat, 0) == 1);
    }
    while j < column
        invariant
            j <= column <= row,
            base == row - column,
            value@ == falling_factorial((base + j) as nat, j as nat),
        decreases column - j,
    {
        proof {
            lemma_falling_factorial_lead((base + j) as nat, j as nat);
            assert(value@ * ((base + j + 1) as nat) == (base + j + 1) * falling_factorial(
                (base + j) as nat,
                j as nat,
            )) by (nonlinear_arith)
                requires
                    value@ == falling_factorial((base + j) as nat, j as nat),
            ;
        }
        j = j + 1;
        value = value.times_u64(base + j);
    }
    let ghost numerator = falling_factorial(row as nat, column as nat);
    let mut d: u64 = 0;
    proof {
        assert(factorial(0) == 1);
    }
    while d < column
        invariant
            d <= column,
            numerator == falling_factorial(row as nat, column as nat),
            value@ == numerator / factorial(d as nat),
        decreases column - d,
    {
        d = d + 1;
        proof {
            let f = factorial((d - 1) as nat);
            lemma_factorial_positive((d - 1) as nat);
            vstd::arithmetic::div_mod::lemma_div_denominator(numerator as int, f as int, d as int);
            assert(factorial(d as nat) == d * f);
            assert(f * d == d * f) by (nonlinear_arith);
        }
        value = value.divided_by_u64(d);
    }
    proof {
        lemma_binomial_is_quotient(row as nat, column as nat);
    }
    value
}

} // verus!
