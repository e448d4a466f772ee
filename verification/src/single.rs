//! IEEE 754 binary32 numbers, held by their bit pattern.
//!
//! A finite number is a whole multiple of 2^-149, the least positive one. The
//! model of a finite number is that multiple, an integer, so a contract
//! speaks of exact values without fractions.

use vstd::arithmetic::power2::pow2;
use vstd::prelude::*;

pub mod arith;
pub mod convert;
pub mod edges;
pub mod laws;
pub mod near;
pub mod nearest;
pub mod order;
pub mod root;
pub mod rounding;

verus! {

/// The bit that holds the sign.
pub const SIGN_BIT: u32 = 0x8000_0000;

/// The magnitude bits of the infinities. Greater magnitudes are not numbers.
pub const INFINITE: u32 = 0x7F80_0000;

/// The magnitude bits of the result of an operation that has no value.
pub const QUIET_NAN: u32 = 0x7FC0_0000;

/// The bits of 0.
pub const ZERO: u32 = 0x0000_0000;

/// The bits of 0.5.
pub const HALF: u32 = 0x3F00_0000;

/// The bits of 1.
pub const ONE: u32 = 0x3F80_0000;

/// The bits of -1.
pub const MINUS_ONE: u32 = 0xBF80_0000;

/// The bits of 2.
pub const TWO: u32 = 0x4000_0000;

/// The bits of 3.
pub const THREE: u32 = 0x4040_0000;

/// The bits of 255.
pub const BYTE_MAX: u32 = 0x437F_0000;

/// The bits of 2^-23, the step from 1 to the next number.
pub const EPSILON: u32 = 0x3400_0000;

/// A binary32 number, held by its bits: the sign, eight bits of exponent and
/// twenty-three bits of fraction.
#[derive(Debug, Clone, Copy)]
pub struct Single {
    /// The bit pattern.
    pub bits: u32,
}

/// The value of the magnitude bits `m`, in units of 2^-149.
pub open spec fn magnitude_units(m: nat) -> nat {
    if m < 0x80_0000 {
        m
    } else {
        ((0x80_0000 + m % 0x80_0000) * pow2((m / 0x80_0000 - 1) as nat)) as nat
    }
}

/// The number with the given sign and magnitude bits.
pub open spec fn signed(negative: bool, m: nat) -> Single {
    Single { bits: (if negative { SIGN_BIT + m } else { m as int }) as u32 }
}

impl Single {
    /// The sign bit is set.
    pub open spec fn negative(self) -> bool {
        self.bits >= SIGN_BIT
    }

    /// The bits without the sign.
    pub open spec fn magnitude(self) -> nat {
        (if self.bits >= SIGN_BIT { self.bits - SIGN_BIT } else { self.bits as int }) as nat
    }

    /// Not a number.
    pub open spec fn nan(self) -> bool {
        self.magnitude() > INFINITE
    }

    /// Plus or minus infinity.
    pub open spec fn infinite(self) -> bool {
        self.magnitude() == INFINITE
    }

    /// A number that is not an infinity.
    pub open spec fn finite(self) -> bool {
        self.magnitude() < INFINITE
    }

    /// Plus or minus zero.
    pub open spec fn zero(self) -> bool {
        self.magnitude() == 0
    }

    /// The absolute value of a finite number, in units of 2^-149.
    pub open spec fn absolute_units(self) -> nat {
        magnitude_units(self.magnitude())
    }

    /// The value of a finite number, in units of 2^-149.
    pub open spec fn units(self) -> int {
        if self.negative() {
            -(self.absolute_units() as int)
        } else {
            self.absolute_units() as int
        }
    }
}

impl Single {
    /// The number with these bits.
    pub fn from_bits(bits: u32) -> (r: Single)
        ensures
            r == (Single { bits }),
    {
        Single { bits }
    }

    /// The bits of the number.
    pub fn to_bits(self) -> (r: u32)
        ensures
            r == self.bits,
    {
        self.bits
    }

    /// Whether the sign bit is set.
    pub fn is_negative(self) -> (r: bool)
        ensures
            r == self.negative(),
    {
        self.bits >= SIGN_BIT
    }

    /// The bits without the sign.
    pub(crate) fn magnitude_bits(self) -> (r: u32)
        ensures
            r == self.magnitude(),
            r < SIGN_BIT,
    {
        if self.bits >= SIGN_BIT {
            self.bits - SIGN_BIT
        } else {
            self.bits
        }
    }

    /// The absolute value.
    pub fn abs(self) -> (r: Single)
        ensures
            r == signed(false, self.magnitude()),
    {
        with_sign(false, self.magnitude_bits())
    }

    /// Whether this is not a number.
    pub fn is_nan(self) -> (r: bool)
        ensures
            r == self.nan(),
    {
        self.magnitude_bits() > INFINITE
    }
}

/// The number with the given sign and magnitude bits.
pub(crate) fn with_sign(negative: bool, m: u32) -> (r: Single)
    requires
        m < SIGN_BIT,
    ensures
        r == signed(negative, m as nat),
        r.negative() == negative,
        r.magnitude() == m,
{
    if negative {
        Single { bits: SIGN_BIT + m }
    } else {
        Single { bits: m }
    }
}

} // verus!
