//! The IEEE 754 double-precision encoding, read with integer arithmetic.

use vstd::prelude::*;
use crate::digits::{lemma_power_positive, power};

verus! {

/// Two to the power 63: the weight of the sign bit.
pub const SIGN_UNIT: u64 = 0x8000_0000_0000_0000;

/// Two to the power 52: the weight of the lowest exponent bit.
pub const FRACTION_UNIT: u64 = 0x0010_0000_0000_0000;

/// The exponent field of infinities and of values that are not numbers.
pub const EXPONENT_MAX: u64 = 2047;

/// A double-precision binary number, held as its 64-bit encoding.
#[derive(Clone, Copy, Debug)]
pub struct Binary64 {
    /// Sign, exponent field and fraction field, from the highest bit down.
    pub bits: u64,
}

impl Binary64 {
    /// The eleven exponent bits.
    pub open spec fn exponent_field(self) -> nat {
        ((self.bits / FRACTION_UNIT) % 2048) as nat
    }

    /// The fifty-two fraction bits.
    pub open spec fn fraction_field(self) -> nat {
        (self.bits % FRACTION_UNIT) as nat
    }

    /// Neither an infinity nor a value that is not a number.
    pub open spec fn finite(self) -> bool {
        self.exponent_field() != EXPONENT_MAX
    }

    /// The sign bit is set.
    pub open spec fn negative(self) -> bool {
        self.bits >= SIGN_UNIT
    }

    /// The integer `m` in the magnitude `m * 2^e`.
    pub open spec fn significand(self) -> nat {
        if self.exponent_field() == 0 {
            self.fraction_field()
        } else {
            self.fraction_field() + FRACTION_UNIT as nat
        }
    }

    /// The integer `e` in the magnitude `m * 2^e`.
    pub open spec fn exponent(self) -> int {
        if self.exponent_field() == 0 {
            -1074
        } else {
            self.exponent_field() - 1075
        }
    }

    /// Positive or negative zero.
    pub open spec fn zero(self) -> bool {
        self.significand() == 0
    }

    /// The integer `c` in the magnitude `c * 10^s`, which is exact:
    /// a negative power of two is a power of five over a power of ten.
    pub open spec fn coefficient(self) -> nat {
        if self.exponent() >= 0 {
            self.significand() * power(2, self.exponent() as nat)
        } else {
            self.significand() * power(5, (-self.exponent()) as nat)
        }
    }

    /// The integer `s` in the magnitude `c * 10^s`.
    pub open spec fn scale(self) -> int {
        if self.exponent() >= 0 {
            0
        } else {
            self.exponent()
        }
    }

    /// The same magnitude with the sign bit cleared.
    pub open spec fn magnitude(self) -> Binary64 {
        Binary64 { bits: (self.bits % SIGN_UNIT) as u64 }
    }

    /// A number that is not zero has a positive decimal coefficient.
    pub proof fn lemma_coefficient_positive(self)
        requires
            !self.zero(),
        ensures
            self.coefficient() > 0,
    {
        let m = self.significand();
        let e = self.exponent();
        let p = if e >= 0 {
            power(2, e as nat)
        } else {
            power(5, (-e) as nat)
        };
        if e >= 0 {
            lemma_power_positive(2, e as nat);
        } else {
            lemma_power_positive(5, (-e) as nat);
        }
        assert(m * p > 0) by (nonlinear_arith)
            requires
                m > 0,
                p > 0,
        ;
    }

    /// Takes the encoding as it stands.
    pub fn from_bits(bits: u64) -> (x: Binary64)
        ensures
            x.bits == bits,
    {
        Binary64 { bits }
    }

    /// Gives the encoding back.
    pub fn to_bits(&self) -> (bits: u64)
        ensures
            bits == self.bits,
    {
        self.bits
    }

    /// Whether the number is neither an infinity nor a value that is not a number.
    pub fn is_finite(&self) -> (b: bool)
        ensures
            b == self.finite(),
    {
        (self.bits / FRACTION_UNIT) % 2048 != EXPONENT_MAX
    }

    /// Whether the sign bit is set.
    pub fn is_negative(&self) -> (b: bool)
        ensures
            b == self.negative(),
    {
        self.bits >= SIGN_UNIT
    }

    /// Whether the number is positive or negative zero.
    pub fn is_zero(&self) -> (b: bool)
        ensures
            b == self.zero(),
    {
        self.bits % SIGN_UNIT == 0
    }

    /// Clears the sign bit.
    pub fn abs(&self) -> (x: Binary64)
        ensures
            x == self.magnitude(),
            !x.negative(),
            x.finite() == self.finite(),
            x.significand() == self.significand(),
            x.exponent() == self.exponent(),
    {
        Binary64 { bits: self.bits % SIGN_UNIT }
    }

    /// Splits a finite number into significand and binary exponent.
    pub fn decode(&self) -> (parts: (u64, i32))
        requires
            self.finite(),
        ensures
            parts.0 == self.significand(),
            parts.1 == self.exponent(),
            parts.0 < 2 * FRACTION_UNIT,
            -1074 <= parts.1 <= 971,
    {
        let field: u64 = (self.bits / FRACTION_UNIT) % 2048;
        let fraction: u64 = self.bits % FRACTION_UNIT;
        if field == 0 {
            (fraction, -1074)
        } else {
            (fraction + FRACTION_UNIT, field as i32 - 1075)
        }
    }
}

} // verus!
