//! Floating-point coordinates carried as their IEEE-754 binary64 bit patterns.
//!
//! The diagram model stores positions and sizes as `f64`. The library never does
//! arithmetic on them; it stores them, compares them with constants, and checks
//! whether they are finite. All of that is exact on the bit pattern, so a value is
//! held here as the `u64` that `f64::to_bits` yields, and the questions asked of it
//! are answered by integer tests on that pattern.

use vstd::prelude::*;

verus! {

/// Sign bit of a binary64 pattern.
pub const SIGN_BIT: u64 = 0x8000_0000_0000_0000;

/// Pattern of positive infinity: all exponent bits set, zero fraction.
pub const POSITIVE_INFINITY_BITS: u64 = 0x7ff0_0000_0000_0000;

/// A binary64 value, kept as its bit pattern.
#[derive(Clone, Copy, Debug, PartialEq, Eq, Hash, Structural)]
pub struct OrderedFloat(pub u64);

/// The pattern with the sign bit cleared (the magnitude part).
pub open spec fn magnitude_bits(bits: u64) -> u64 {
    if bits >= SIGN_BIT { (bits - SIGN_BIT) as u64 } else { bits }
}

/// The pattern has its sign bit set.
pub open spec fn sign_is_negative(bits: u64) -> bool {
    bits >= SIGN_BIT
}

/// `f64::is_finite`: the exponent field is not all ones.
pub open spec fn is_finite_bits(bits: u64) -> bool {
    magnitude_bits(bits) < POSITIVE_INFINITY_BITS
}

/// `f64::is_nan`: all exponent bits set and a non-zero fraction.
pub open spec fn is_nan_bits(bits: u64) -> bool {
    magnitude_bits(bits) > POSITIVE_INFINITY_BITS
}

/// The value is `+0.0` or `-0.0`.
pub open spec fn is_zero_bits(bits: u64) -> bool {
    magnitude_bits(bits) == 0
}

/// `value < 0.0`: negative sign, not a zero, not a NaN.
pub open spec fn lt_zero_bits(bits: u64) -> bool {
    sign_is_negative(bits) && !is_zero_bits(bits) && !is_nan_bits(bits)
}

/// `value > 0.0`: positive sign, not a zero, not a NaN.
pub open spec fn gt_zero_bits(bits: u64) -> bool {
    !sign_is_negative(bits) && !is_zero_bits(bits) && !is_nan_bits(bits)
}

/// `value >= c` for a constant `c` whose pattern `c_bits` is positive and finite:
/// among non-negative, non-NaN values the order of the patterns is the order of the values.
pub open spec fn ge_positive_const_bits(bits: u64, c_bits: u64) -> bool {
    !sign_is_negative(bits) && !is_nan_bits(bits) && bits >= c_bits
}

/// `value > c` for a constant `c` whose pattern `c_bits` is positive and finite.
pub open spec fn gt_positive_const_bits(bits: u64, c_bits: u64) -> bool {
    !sign_is_negative(bits) && !is_nan_bits(bits) && bits > c_bits
}

impl OrderedFloat {
    pub open spec fn bits(self) -> u64 {
        self.0
    }

    pub fn magnitude(&self) -> (m: u64)
        ensures
            m == magnitude_bits(self.0),
    {
        if self.0 >= SIGN_BIT {
            self.0 - SIGN_BIT
        } else {
            self.0
        }
    }

    /// `f64::is_finite` of the value.
    pub fn is_finite(&self) -> (b: bool)
        ensures
            b == is_finite_bits(self.0),
    {
        self.magnitude() < POSITIVE_INFINITY_BITS
    }

    /// `f64::is_nan` of the value.
    pub fn is_nan(&self) -> (b: bool)
        ensures
            b == is_nan_bits(self.0),
    {
        self.magnitude() > POSITIVE_INFINITY_BITS
    }

    /// `value < 0.0`.
    pub fn lt_zero(&self) -> (b: bool)
        ensures
            b == lt_zero_bits(self.0),
    {
        let m = self.magnitude();
        self.0 >= SIGN_BIT && m != 0 && m <= POSITIVE_INFINITY_BITS
    }

    /// `value > 0.0`.
    pub fn gt_zero(&self) -> (b: bool)
        ensures
            b == gt_zero_bits(self.0),
    {
        let m = self.magnitude();
        self.0 < SIGN_BIT && m != 0 && m <= POSITIVE_INFINITY_BITS
    }

    /// `value >= c` for a positive finite constant given by its pattern.
    pub fn ge_positive_const(&self, c_bits: u64) -> (b: bool)
        ensures
            b == ge_positive_const_bits(self.0, c_bits),
    {
        self.0 < SIGN_BIT && self.magnitude() <= POSITIVE_INFINITY_BITS && self.0 >= c_bits
    }

    /// `value > c` for a positive finite constant given by its pattern.
    pub fn gt_positive_const(&self, c_bits: u64) -> (b: bool)
        ensures
            b == gt_positive_const_bits(self.0, c_bits),
    {
        self.0 < SIGN_BIT && self.magnitude() <= POSITIVE_INFINITY_BITS && self.0 > c_bits
    }
}

} // verus!
