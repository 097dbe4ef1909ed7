//! Double precision.

use vstd::prelude::*;

use crate::ieee::arith;
use crate::ieee::arith::Parts;
use crate::ieee::binary;
use crate::ieee::convert;
use crate::ieee::root;
use crate::ieee::single::Single;

verus! {

/// A number in double precision, by its bit pattern.
#[derive(Clone, Copy, Debug, PartialEq, Eq, Structural)]
pub struct Double {
    pub bits: u64,
}

/// The bits of zero.
pub const ZERO: u64 = 0;

/// The bits of one.
pub const ONE: u64 = 0x3ff0_0000_0000_0000;

/// The bits of positive infinity.
pub const INFINITY: u64 = 0x7ff0_0000_0000_0000;

/// The bits of negative infinity.
pub const NEG_INFINITY: u64 = 0xfff0_0000_0000_0000;

impl Double {
    /// Sign and magnitude.
    pub open spec fn view(&self) -> arith::Signed {
        arith::Signed {
            neg: self.bits >= 0x8000_0000_0000_0000,
            mag: (self.bits as nat) % 0x8000_0000_0000_0000,
        }
    }
}

/// The number with a sign and a magnitude.
pub open spec fn of(x: arith::Signed) -> Double {
    Double {
        bits: (x.mag + if x.neg {
            0x8000_0000_0000_0000nat
        } else {
            0nat
        }) as u64,
    }
}

/// `a + b`.
#[verifier::opaque]
pub open spec fn sum(a: Double, b: Double) -> Double {
    of(arith::sum(arith::double(), a@, b@))
}

/// `a - b`.
#[verifier::opaque]
pub open spec fn difference(a: Double, b: Double) -> Double {
    of(arith::sum(arith::double(), a@, arith::Signed { neg: !b@.neg, mag: b@.mag }))
}

/// `a * b`.
#[verifier::opaque]
pub open spec fn product(a: Double, b: Double) -> Double {
    of(arith::product(arith::double(), a@, b@))
}

/// `a / b`.
#[verifier::opaque]
pub open spec fn quotient(a: Double, b: Double) -> Double {
    of(arith::quotient(arith::double(), a@, b@))
}

/// `a < b`; false where either is not a number.
pub open spec fn less(a: Double, b: Double) -> bool {
    arith::less(arith::double(), a@, b@)
}

/// `a <= b`; false where either is not a number.
pub open spec fn at_most(a: Double, b: Double) -> bool {
    arith::at_most(arith::double(), a@, b@)
}

/// The absolute value.
pub open spec fn magnitude(a: Double) -> Double {
    of(arith::Signed { neg: false, mag: a@.mag })
}

/// Neither infinite nor something that is not a number.
pub open spec fn finite(a: Double) -> bool {
    a@.mag < binary::DOUBLE_INF
}

/// The number nearest to an integer.
#[verifier::opaque]
pub open spec fn from_int(n: nat) -> Double {
    of(convert::from_nat(arith::double(), n))
}

/// The integer part: zero for what is negative or not a number, at most `max`.
#[verifier::opaque]
pub open spec fn floor(a: Double, max: nat) -> nat {
    convert::saturated(
        arith::double(),
        a@,
        convert::floor_of(arith::double(), a@.mag),
        max,
    )
}

/// The nearest number in single precision.
#[verifier::opaque]
pub open spec fn narrowed(a: Double) -> Single {
    crate::ieee::single::of(convert::narrowed(a@))
}

/// The greatest whole number not above a number that is not negative: a zero and
/// what is not a number stay as they are.
pub open spec fn whole_part(a: Double) -> Double {
    if a@.mag == 0 || a@.mag > binary::DOUBLE_INF {
        a
    } else {
        from_int(floor(a, u64::MAX as nat))
    }
}

/// The square root.
#[verifier::opaque]
pub open spec fn square_root(a: Double) -> Double {
    of(root::root(a@))
}

/// `a`, but not below `lo` nor above `hi`; what is not a number stays that.
pub open spec fn clamped(a: Double, lo: Double, hi: Double) -> Double {
    if less(a, lo) {
        lo
    } else if less(hi, a) {
        hi
    } else {
        a
    }
}

impl Double {
    pub(crate) fn parts(self) -> (r: Parts)
        ensures
            r@ == self@,
            r.mag < 0x8000_0000_0000_0000,
    {
        Parts { neg: self.bits >= 0x8000_0000_0000_0000, mag: self.bits % 0x8000_0000_0000_0000 }
    }

    pub(crate) fn from_parts(x: Parts) -> (r: Self)
        requires
            x.mag < 0x8000_0000_0000_0000,
        ensures
            r == of(x@),
            r@ == x@,
    {
        if x.neg {
            Double { bits: x.mag + 0x8000_0000_0000_0000 }
        } else {
            Double { bits: x.mag }
        }
    }

    /// `self + other`.
    pub fn plus(self, other: Self) -> (r: Self)
        ensures
            r == sum(self, other),
    {
        reveal(sum);
        Self::from_parts(
            arith::plus(
                binary::DOUBLE_P,
                binary::DOUBLE_INF,
                binary::DOUBLE_UNIT,
                self.parts(),
                other.parts(),
                Ghost(arith::double()),
            ),
        )
    }

    /// `self - other`.
    pub fn minus(self, other: Self) -> (r: Self)
        ensures
            r == difference(self, other),
    {
        reveal(difference);
        let b = other.parts();
        Self::from_parts(
            arith::plus(
                binary::DOUBLE_P,
                binary::DOUBLE_INF,
                binary::DOUBLE_UNIT,
                self.parts(),
                Parts { neg: !b.neg, mag: b.mag },
                Ghost(arith::double()),
            ),
        )
    }

    /// `self * other`.
    pub fn times(self, other: Self) -> (r: Self)
        ensures
            r == product(self, other),
    {
        reveal(product);
        Self::from_parts(
            arith::times(
                binary::DOUBLE_P,
                binary::DOUBLE_INF,
                binary::DOUBLE_UNIT,
                self.parts(),
                other.parts(),
                Ghost(arith::double()),
            ),
        )
    }

    /// `self / other`.
    pub fn over(self, other: Self) -> (r: Self)
        ensures
            r == quotient(self, other),
    {
        reveal(quotient);
        Self::from_parts(
            arith::over(
                binary::DOUBLE_P,
                binary::DOUBLE_INF,
                binary::DOUBLE_UNIT,
                self.parts(),
                other.parts(),
                Ghost(arith::double()),
            ),
        )
    }

    /// `self < other`.
    pub fn lt(self, other: Self) -> (r: bool)
        ensures
            r == less(self, other),
    {
        let a = self.parts();
        let b = other.parts();
        if a.mag > binary::DOUBLE_INF || b.mag > binary::DOUBLE_INF {
            false
        } else if a.neg {
            if b.neg {
                b.mag < a.mag
            } else {
                a.mag > 0 || b.mag > 0
            }
        } else {
            !b.neg && a.mag < b.mag
        }
    }

    /// `self <= other`.
    pub fn le(self, other: Self) -> (r: bool)
        ensures
            r == at_most(self, other),
    {
        let a = self.parts();
        let b = other.parts();
        if a.mag > binary::DOUBLE_INF || b.mag > binary::DOUBLE_INF {
            false
        } else if b.neg {
            if a.neg {
                b.mag <= a.mag
            } else {
                a.mag == 0 && b.mag == 0
            }
        } else {
            a.neg || a.mag <= b.mag
        }
    }

    /// The absolute value.
    pub fn abs(self) -> (r: Self)
        ensures
            r == magnitude(self),
    {
        let a = self.parts();
        Self::from_parts(Parts { neg: false, mag: a.mag })
    }

    /// Neither infinite nor something that is not a number.
    pub fn is_finite(self) -> (r: bool)
        ensures
            r == finite(self),
    {
        self.parts().mag < binary::DOUBLE_INF
    }

    /// The number nearest to `n`.
    pub fn from_u64(n: u64) -> (r: Self)
        ensures
            r == from_int(n as nat),
    {
        reveal(from_int);
        let mag = convert::of_u64(
            binary::DOUBLE_P,
            binary::DOUBLE_INF,
            binary::DOUBLE_UNIT,
            n,
            Ghost(arith::double()),
        );
        Self::from_parts(Parts { neg: false, mag })
    }

    /// The integer part, at most `max`.
    pub fn to_u64(self, max: u64) -> (r: u64)
        ensures
            r == floor(self, max as nat),
            r <= max,
    {
        reveal(floor);
        convert::floor_u64(
            binary::DOUBLE_P,
            binary::DOUBLE_INF,
            binary::DOUBLE_UNIT,
            self.parts(),
            max,
            Ghost(arith::double()),
        )
    }

    /// The nearest number in single precision.
    pub fn narrow(self) -> (r: Single)
        ensures
            r == narrowed(self),
    {
        reveal(narrowed);
        Single::from_parts(convert::narrow(self.parts()))
    }

    /// The square root.
    pub fn sqrt(self) -> (r: Self)
        ensures
            r == square_root(self),
    {
        reveal(square_root);
        Self::from_parts(root::sqrt(self.parts()))
    }

    /// The greatest whole number not above, for a number that is not negative.
    pub fn trunc(self) -> (r: Self)
        ensures
            r == whole_part(self),
    {
        let a = self.parts();
        if a.mag == 0 || a.mag > binary::DOUBLE_INF {
            self
        } else {
            Self::from_u64(self.to_u64(u64::MAX))
        }
    }

    /// `self`, but not below `lo` nor above `hi`.
    pub fn clamp(self, lo: Self, hi: Self) -> (r: Self)
        ensures
            r == clamped(self, lo, hi),
    {
        if self.lt(lo) {
            lo
        } else if hi.lt(self) {
            hi
        } else {
            self
        }
    }
}

} // verus!
