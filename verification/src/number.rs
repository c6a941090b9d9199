//! JSON numbers and their equality.

use vstd::prelude::*;

verus! {

/// A JSON number in decimal scientific form: `mantissa * 10^exponent`, with a sign.
#[derive(Clone, Copy, Debug, PartialEq, Eq)]
pub struct Number {
    pub positive: bool,
    pub mantissa: u64,
    pub exponent: i16,
}

/// What `json::number::Number`'s `==` answers for the two numbers that
/// `json::number::Number::from_parts` builds from the given signs, mantissas and
/// exponents.
pub uninterp spec fn json_number_eq(
    positive_a: bool,
    mantissa_a: u64,
    exponent_a: i16,
    positive_b: bool,
    mantissa_b: u64,
    exponent_b: i16,
) -> bool;

/// The exponent that a number keeps at least: `from_parts` moves a negative exponent
/// towards zero while the mantissa ends in a zero digit, and never past zero.
pub open spec fn raised(exponent: i16) -> int {
    if exponent < 0 {
        0
    } else {
        exponent as int
    }
}

/// The pairs that `json` compares without leaving the range of its exponent
/// arithmetic: both zero, opposite signs, or exponents close enough that their
/// difference and its negation fit in an `i16` however far `from_parts` raises them.
pub open spec fn within_reach(x: Number, y: Number) -> bool {
    ||| x.mantissa == 0 && y.mantissa == 0
    ||| x.positive != y.positive
    ||| (x.exponent - raised(y.exponent) >= -32767 && y.exponent - raised(x.exponent) >= -32767)
}

/// A fixed order on numbers with different parts: by exponent, then mantissa, then sign.
pub open spec fn precedes(x: Number, y: Number) -> bool {
    ||| x.exponent < y.exponent
    ||| (x.exponent == y.exponent && x.mantissa < y.mantissa)
    ||| (x.exponent == y.exponent && x.mantissa == y.mantissa && !x.positive && y.positive)
}

/// `json`'s answer for the pair, asked with the arguments in the fixed order.
pub open spec fn json_verdict(x: Number, y: Number) -> bool {
    if precedes(x, y) {
        json_number_eq(x.positive, x.mantissa, x.exponent, y.positive, y.mantissa, y.exponent)
    } else {
        json_number_eq(y.positive, y.mantissa, y.exponent, x.positive, x.mantissa, x.exponent)
    }
}

/// The number without the zeros at the end of its fraction: while the exponent is
/// negative and the mantissa ends in the digit zero, the digit is dropped and the
/// exponent raised by one. The value stays the same, and zero becomes `0 * 10^0`.
pub open spec fn stripped(x: Number) -> Number
    decreases 0 - x.exponent,
{
    if x.exponent < 0 && x.mantissa % 10 == 0 {
        stripped(
            Number {
                positive: x.positive,
                mantissa: x.mantissa / 10,
                exponent: (x.exponent + 1) as i16,
            },
        )
    } else {
        x
    }
}

/// Equality of two JSON numbers.
///
/// Both numbers are stripped of the zeros at the end of their fractions. If the parts
/// then agree, the numbers are equal. Other pairs are equal when `json` says so; pairs
/// whose exponents lie farther apart than `json` can subtract are unequal. Two
/// stripped numbers that far apart never have the same value: one of them has a
/// negative exponent, and such a number has no second way of being written.
pub open spec fn same_number(x: Number, y: Number) -> bool {
    stripped(x) == stripped(y) || (within_reach(stripped(x), stripped(y)) && json_verdict(
        stripped(x),
        stripped(y),
    ))
}

/// Compares two numbers as `json` does: both are built with
/// `json::number::Number::from_parts` and compared with that type's `==`.
///
/// The contract names the answer and claims nothing else of it. The precondition
/// keeps out the pairs on which `json` would overflow its `i16` exponent difference,
/// whether or not the numbers were stripped before.
#[verifier::external_body]
fn json_eq(x: &Number, y: &Number) -> (r: bool)
    requires
        within_reach(*x, *y),
    ensures
        r == json_number_eq(
            x.positive,
            x.mantissa,
            x.exponent,
            y.positive,
            y.mantissa,
            y.exponent,
        ),
{
    json::number::Number::from_parts(x.positive, x.mantissa, x.exponent)
        == json::number::Number::from_parts(y.positive, y.mantissa, y.exponent)
}

impl Number {
    /// The non-negative integer `n`.
    pub fn from_u64(n: u64) -> (r: Number)
        ensures
            r == (Number { positive: true, mantissa: n, exponent: 0 }),
    {
        Number { positive: true, mantissa: n, exponent: 0 }
    }

    /// Whether `other` comes after `self` in the fixed order.
    fn comes_before(&self, other: &Number) -> (r: bool)
        ensures
            r == precedes(*self, *other),
    {
        self.exponent < other.exponent || (self.exponent == other.exponent && (self.mantissa
            < other.mantissa || (self.mantissa == other.mantissa && !self.positive
            && other.positive)))
    }

    /// Whether `json` can compare the two numbers.
    fn reaches(&self, other: &Number) -> (r: bool)
        ensures
            r == within_reach(*self, *other),
    {
        let x: i32 = self.exponent as i32;
        let y: i32 = other.exponent as i32;
        let raised_x: i32 = if x < 0 { 0 } else { x };
        let raised_y: i32 = if y < 0 { 0 } else { y };
        (self.mantissa == 0 && other.mantissa == 0) || self.positive != other.positive || (x
            - raised_y >= -32767 && y - raised_x >= -32767)
    }

    /// The number without the zeros at the end of its fraction.
    pub fn strip(&self) -> (r: Number)
        ensures
            r == stripped(*self),
    {
        let mut mantissa: u64 = self.mantissa;
        let mut exponent: i16 = self.exponent;
        while exponent < 0 && mantissa % 10 == 0
            invariant
                stripped(*self) == stripped(Number { positive: self.positive, mantissa, exponent }),
            decreases 0 - exponent,
        {
            mantissa = mantissa / 10;
            exponent = exponent + 1;
        }
        Number { positive: self.positive, mantissa, exponent }
    }

    /// Decides whether two numbers are equal.
    pub fn equals(&self, other: &Number) -> (r: bool)
        ensures
            r == same_number(*self, *other),
    {
        let x = self.strip();
        let y = other.strip();
        if x.positive == y.positive && x.mantissa == y.mantissa && x.exponent == y.exponent {
            true
        } else if x.reaches(&y) {
            if x.comes_before(&y) {
                json_eq(&x, &y)
            } else {
                json_eq(&y, &x)
            }
        } else {
            false
        }
    }
}

/// Every number equals itself.
pub proof fn same_number_reflexive(x: Number)
    ensures
        same_number(x, x),
{
}

/// Number equality does not depend on the order of its arguments.
pub proof fn same_number_symmetric(x: Number, y: Number)
    ensures
        same_number(x, y) == same_number(y, x),
{
}

} // verus!
