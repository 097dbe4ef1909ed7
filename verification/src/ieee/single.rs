//! Single precision.

use vstd::prelude::*;

use crate::ieee::arith;
use crate::ieee::arith::Parts;
use crate::ieee::binary;
use crate::ieee::convert;
use crate::ieee::double::Double;

verus! {

/// A number in single precision, by its bit pattern.
#[derive(Clone, Copy, Debug, PartialEq, Eq, Structural)]
pub struct Single {
    pub bits: u32,
}

/// The bits of zero.
pub const ZERO: u32 = 0;

/// The bits of one.
pub const ONE: u32 = 0x3f80_0000;

/// Most numbers that one allocation holds.
pub const MAX_IN_MEMORY: usize = isize::MAX as usize / 4;

/// The bits of positive infinity.
pub const INFINITY: u32 = 0x7f80_0000;

/// The bits of negative infinity.
pub const NEG_INFINITY: u32 = 0xff80_0000;

impl Single {
    /// Sign and magnitude.
    pub open spec fn view(&self) -> arith::Signed {
        arith::Signed {
            neg: self.bits >= 0x8000_0000,
            mag: (self.bits as nat) % 0x8000_0000,
        }
    }
}

/// The number with a sign and a magnitude.
pub open spec fn of(x: arith::Signed) -> Single {
    Single {
        bits: (x.mag + if x.neg {
            0x8000_0000nat
        } else {
            0nat
        }) as u32,
    }
}

/// `a + b`.
#[verifier::opaque]
pub open spec fn sum(a: Single, b: Single) -> Single {
    of(arith::sum(arith::single(), a@, b@))
}

/// `a - b`.
#[verifier::opaque]
pub open spec fn difference(a: Single, b: Single) -> Single {
    of(arith::sum(arith::single(), a@, arith::Signed { neg: !b@.neg, mag: b@.mag }))
}

/// `a * b`.
#[verifier::opaque]
pub open spec fn product(a: Single, b: Single) -> Single {
    of(arith::product(arith::single(), a@, b@))
}

/// `a / b`.
#[verifier::opaque]
pub open spec fn quotient(a: Single, b: Single) -> Single {
    of(arith::quotient(arith::single(), a@, b@))
}

/// `a < b`; false where either is not a number.
pub open spec fn less(a: Single, b: Single) -> bool {
    arith::less(arith::single(), a@, b@)
}

/// `a <= b`; false where either is not a number.
pub open spec fn at_most(a: Single, b: Single) -> bool {
    arith::at_most(arith::single(), a@, b@)
}

/// The absolute value.
pub open spec fn magnitude(a: Single) -> Single {
    of(arith::Signed { neg: false, mag: a@.mag })
}

/// Neither infinite nor something that is not a number.
pub open spec fn finite(a: Single) -> bool {
    a@.mag < binary::SINGLE_INF
}

/// The number nearest to an integer.
#[verifier::opaque]
pub open spec fn from_int(n: nat) -> Single {
    of(convert::from_nat(arith::single(), n))
}

/// The integer part: zero for what is negative or not a number, at most `max`.
#[verifier::opaque]
pub open spec fn floor(a: Single, max: nat) -> nat {
    convert::saturated(
        arith::single(),
        a@,
        convert::floor_of(arith::single(), a@.mag),
        max,
    )
}

/// The least integer not below: zero for what is negative or not a number, at
/// most `max`.
#[verifier::opaque]
pub open spec fn ceiling(a: Single, max: nat) -> nat {
    convert::saturated(
        arith::single(),
        a@,
        convert::ceiling_of(arith::single(), a@.mag),
        max,
    )
}

/// The nearest integer, halves away from zero: zero for what is negative or not
/// a number, at most `max`.
#[verifier::opaque]
pub open spec fn nearest_int(a: Single, max: nat) -> nat {
    convert::saturated(arith::single(), a@, convert::rounded(arith::single(), a@.mag), max)
}

/// The same number in double precision.
#[verifier::opaque]
pub open spec fn widened(a: Single) -> Double {
    crate::ieee::double::of(convert::widened(a@))
}

impl Single {
    pub(crate) fn parts(self) -> (r: Parts)
        ensures
            r@ == self@,
            r.mag < 0x8000_0000,
    {
        Parts { neg: self.bits >= 0x8000_0000, mag: (self.bits % 0x8000_0000) as u64 }
    }

    pub(crate) fn from_parts(x: Parts) -> (r: Self)
        requires
            x.mag < 0x8000_0000,
        ensures
            r == of(x@),
            r@ == x@,
    {
        if x.neg {
            Single { bits: x.mag as u32 + 0x8000_0000 }
        } else {
            Single { bits: x.mag as u32 }
        }
    }

    /// `self + other`.
    pub fn plus(self, other: Self) -> (r: Self)
        ensures
            r == sum(self, other),
    {
        reveal(sum);
        Self::from_parts(
            arith::plus(
                binary::SINGLE_P,
                binary::SINGLE_INF,
                binary::SINGLE_UNIT,
                self.parts(),
                other.parts(),
                Ghost(arith::single()),
            ),
        )
    }

    /// `self - other`.
    pub fn minus(self, other: Self) -> (r: Self)
        ensures
            r == difference(self, other),
    {
        reveal(difference);
        let b = other.parts();
        Self::from_parts(
            arith::plus(
                binary::SINGLE_P,
                binary::SINGLE_INF,
                binary::SINGLE_UNIT,
                self.parts(),
                Parts { neg: !b.neg, mag: b.mag },
                Ghost(arith::single()),
            ),
        )
    }

    /// `self * other`.
    pub fn times(self, other: Self) -> (r: Self)
        ensures
            r == product(self, other),
    {
        reveal(product);
        Self::from_parts(
            arith::times(
                binary::SINGLE_P,
                binary::SINGLE_INF,
                binary::SINGLE_UNIT,
                self.parts(),
                other.parts(),
                Ghost(arith::single()),
            ),
        )
    }

    /// `self / other`.
    pub fn over(self, other: Self) -> (r: Self)
        ensures
            r == quotient(self, other),
    {
        reveal(quotient);
        Self::from_parts(
            arith::over(
                binary::SINGLE_P,
                binary::SINGLE_INF,
                binary::SINGLE_UNIT,
                self.parts(),
                other.parts(),
                Ghost(arith::single()),
            ),
        )
    }

    /// `self < other`.
    pub fn lt(self, other: Self) -> (r: bool)
        ensures
            r == less(self, other),
    {
        let a = self.parts();
        let b = other.parts();
        if a.mag > binary::SINGLE_INF || b.mag > binary::SINGLE_INF {
            false
        } else if a.neg {
            if b.neg {
                b.mag < a.mag
            } else {
                a.mag > 0 || b.mag > 0
            }
        } else {
            !b.neg && a.mag < b.mag
        }
    }

    /// `self <= other`.
    pub fn le(self, other: Self) -> (r: bool)
        ensures
            r == at_most(self, other),
    {
        let a = self.parts();
        let b = other.parts();
        if a.mag > binary::SINGLE_INF || b.mag > binary::SINGLE_INF {
            false
        } else if b.neg {
            if a.neg {
                b.mag <= a.mag
            } else {
                a.mag == 0 && b.mag == 0
            }
        } else {
            a.neg || a.mag <= b.mag
        }
    }

    /// The absolute value.
    pub fn abs(self) -> (r: Self)
        ensures
            r == magnitude(self),
    {
        let a = self.parts();
        Self::from_parts(Parts { neg: false, mag: a.mag })
    }

    /// Neither infinite nor something that is not a number.
    pub fn is_finite(self) -> (r: bool)
        ensures
            r == finite(self),
    {
        self.parts().mag < binary::SINGLE_INF
    }

    /// The number nearest to `n`.
    pub fn from_u64(n: u64) -> (r: Self)
        ensures
            r == from_int(n as nat),
    {
        reveal(from_int);
        let mag = convert::of_u64(
            binary::SINGLE_P,
            binary::SINGLE_INF,
            binary::SINGLE_UNIT,
            n,
            Ghost(arith::single()),
        );
        Self::from_parts(Parts { neg: false, mag })
    }

    /// The integer part, at most `max`.
    pub fn to_u64(self, max: u64) -> (r: u64)
        ensures
            r == floor(self, max as nat),
            r <= max,
    {
        reveal(floor);
        convert::floor_u64(
            binary::SINGLE_P,
            binary::SINGLE_INF,
            binary::SINGLE_UNIT,
            self.parts(),
            max,
            Ghost(arith::single()),
        )
    }

    /// The least integer not below, at most `max`.
    pub fn ceil_u64(self, max: u64) -> (r: u64)
        ensures
            r == ceiling(self, max as nat),
            r <= max,
    {
        reveal(ceiling);
        convert::ceiling_u64(
            binary::SINGLE_P,
            binary::SINGLE_INF,
            binary::SINGLE_UNIT,
            self.parts(),
            max,
            Ghost(arith::single()),
        )
    }

    /// The nearest integer, at most `max`.
    pub fn round_u64(self, max: u64) -> (r: u64)
        ensures
            r == nearest_int(self, max as nat),
            r <= max,
    {
        reveal(nearest_int);
        convert::rounded_u64(
            binary::SINGLE_P,
            binary::SINGLE_INF,
            binary::SINGLE_UNIT,
            self.parts(),
            max,
            Ghost(arith::single()),
        )
    }

    /// The same number in double precision.
    pub fn widen(self) -> (r: Double)
        ensures
            r == widened(self),
    {
        reveal(widened);
        Double::from_parts(convert::widen(self.parts()))
    }
}

} // verus!
