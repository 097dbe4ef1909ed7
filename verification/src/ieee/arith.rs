//! Addition, multiplication and division of signed magnitudes, for every format.

use vstd::arithmetic::div_mod::*;
use vstd::arithmetic::mul::*;
use vstd::arithmetic::power2::*;
use vstd::bits::*;
use vstd::prelude::*;

use crate::ieee::binary;
use crate::ieee::rounding;

verus! {

/// The parameters of a format: the precision, the magnitude of infinity and the
/// exponent of the least positive number.
pub ghost struct Layout {
    pub p: nat,
    pub inf: nat,
    pub unit: nat,
}

/// A sign and a magnitude. A magnitude above that of infinity is not a number.
#[verifier::ext_equal]
pub ghost struct Signed {
    pub neg: bool,
    pub mag: nat,
}

pub open spec fn single() -> Layout {
    Layout {
        p: binary::SINGLE_P as nat,
        inf: binary::SINGLE_INF as nat,
        unit: binary::SINGLE_UNIT as nat,
    }
}

pub open spec fn double() -> Layout {
    Layout {
        p: binary::DOUBLE_P as nat,
        inf: binary::DOUBLE_INF as nat,
        unit: binary::DOUBLE_UNIT as nat,
    }
}

/// The one result of every invalid operation: positive, with the first bit of
/// the fraction set.
pub open spec fn nan(f: Layout) -> Signed {
    Signed { neg: false, mag: f.inf + pow2((f.p - 2) as nat) }
}

/// What a finite number is worth, with its sign.
pub open spec fn value(f: Layout, x: Signed) -> int {
    if x.neg {
        -(binary::worth(f.p, x.mag) as int)
    } else {
        binary::worth(f.p, x.mag) as int
    }
}

/// The sum, correctly rounded. A sum of zero is negative only when both of its
/// terms are.
#[verifier::opaque]
pub open spec fn sum(f: Layout, x: Signed, y: Signed) -> Signed {
    if x.mag > f.inf || y.mag > f.inf {
        nan(f)
    } else if x.mag == f.inf && y.mag == f.inf {
        if x.neg == y.neg {
            x
        } else {
            nan(f)
        }
    } else if x.mag == f.inf {
        x
    } else if y.mag == f.inf {
        y
    } else {
        let v = value(f, x) + value(f, y);
        if v == 0 {
            Signed { neg: x.neg && y.neg, mag: 0 }
        } else if v > 0 {
            Signed { neg: false, mag: binary::nearest(f.p, f.inf, v as nat, 1) }
        } else {
            Signed { neg: true, mag: binary::nearest(f.p, f.inf, (-v) as nat, 1) }
        }
    }
}

/// The product, correctly rounded.
#[verifier::opaque]
pub open spec fn product(f: Layout, x: Signed, y: Signed) -> Signed {
    let neg = x.neg != y.neg;
    if x.mag > f.inf || y.mag > f.inf {
        nan(f)
    } else if x.mag == f.inf || y.mag == f.inf {
        if x.mag == 0 || y.mag == 0 {
            nan(f)
        } else {
            Signed { neg, mag: f.inf }
        }
    } else {
        let num = binary::worth(f.p, x.mag) * binary::worth(f.p, y.mag);
        Signed { neg, mag: binary::nearest(f.p, f.inf, num, pow2(f.unit)) }
    }
}

/// The quotient, correctly rounded.
#[verifier::opaque]
pub open spec fn quotient(f: Layout, x: Signed, y: Signed) -> Signed {
    let neg = x.neg != y.neg;
    if x.mag > f.inf || y.mag > f.inf {
        nan(f)
    } else if x.mag == f.inf {
        if y.mag == f.inf {
            nan(f)
        } else {
            Signed { neg, mag: f.inf }
        }
    } else if y.mag == f.inf {
        Signed { neg, mag: 0 }
    } else if y.mag == 0 {
        if x.mag == 0 {
            nan(f)
        } else {
            Signed { neg, mag: f.inf }
        }
    } else {
        let num = binary::worth(f.p, x.mag) * pow2(f.unit);
        Signed { neg, mag: binary::nearest(f.p, f.inf, num, binary::worth(f.p, y.mag)) }
    }
}

/// `x < y`. Nothing is less than, or greater than, what is not a number; the two
/// zeros are equal.
pub open spec fn less(f: Layout, x: Signed, y: Signed) -> bool {
    &&& x.mag <= f.inf
    &&& y.mag <= f.inf
    &&& signed_magnitude(x) < signed_magnitude(y)
}

/// `x <= y`.
pub open spec fn at_most(f: Layout, x: Signed, y: Signed) -> bool {
    &&& x.mag <= f.inf
    &&& y.mag <= f.inf
    &&& signed_magnitude(x) <= signed_magnitude(y)
}

/// The magnitude with its sign, which orders numbers as their values do.
pub open spec fn signed_magnitude(x: Signed) -> int {
    if x.neg {
        -(x.mag as int)
    } else {
        x.mag as int
    }
}

/// The order on magnitudes is the order on values.
pub proof fn law_magnitudes_order_values(f: Layout, x: Signed, y: Signed)
    requires
        f.p >= 1,
    ensures
        signed_magnitude(x) < signed_magnitude(y) <==> value(f, x) < value(f, y),
{
    lemma_zero_is_worth_nothing(f.p);
    if x.mag < y.mag {
        binary::lemma_worth_increases(f.p, x.mag, y.mag);
    }
    if y.mag < x.mag {
        binary::lemma_worth_increases(f.p, y.mag, x.mag);
    }
    if 0 < x.mag {
        binary::lemma_worth_increases(f.p, 0, x.mag);
    }
    if 0 < y.mag {
        binary::lemma_worth_increases(f.p, 0, y.mag);
    }
}

pub proof fn lemma_zero_is_worth_nothing(p: nat)
    requires
        p >= 1,
    ensures
        binary::worth(p, 0) == 0,
{
    lemma_pow2_pos((p - 1) as nat);
    lemma_pow2_pos(p);
    binary::lemma_worth_of_encode(p, 0, 0);
    assert(0 * binary::hidden(p) == 0);
    assert(0 * pow2(0) == 0);
}

/// A number between operations: a sign and a magnitude.
#[derive(Clone, Copy)]
pub struct Parts {
    pub neg: bool,
    pub mag: u64,
}

impl Parts {
    pub open spec fn view(&self) -> Signed {
        Signed { neg: self.neg, mag: self.mag as nat }
    }
}

/// `(p, inf, unit)` are the parameters of `f`, which is one of the two formats.
pub open spec fn describes(f: Layout, p: u32, inf: u64, unit: u32) -> bool {
    &&& f == single() || f == double()
    &&& p == f.p
    &&& inf == f.inf
    &&& unit == f.unit
}

/// The invalid result.
pub fn invalid(p: u32, inf: u64, Ghost(f): Ghost<Layout>) -> (r: Parts)
    requires
        f == single() || f == double(),
        p == f.p,
        inf == f.inf,
    ensures
        r@ == nan(f),
        r.mag > inf,
        r.mag < 0x8000_0000_0000_0000,
        p == binary::SINGLE_P ==> r.mag < 0x8000_0000,
{
    proof {
        lemma2_to64();
        lemma2_to64_rest();
    }
    let quiet: u64 = if p == binary::SINGLE_P {
        0x40_0000
    } else {
        0x8_0000_0000_0000
    };
    Parts { neg: false, mag: inf + quiet }
}

/// Significand and exponent of a finite magnitude.
pub fn unpack(p: u32, inf: u64, mag: u64) -> (r: (u64, i32))
    requires
        rounding::is_format(p, inf),
        mag < inf,
    ensures
        binary::worth(p as nat, mag as nat) == r.0 * pow2(r.1 as nat),
        r.0 < pow2(p as nat),
        pow2(p as nat) <= 0x20_0000_0000_0000,
        0 <= r.1 <= 2045,
        r.1 > 0 ==> binary::hidden(p as nat) <= r.0,
        mag == 0 <==> r.0 == 0,
        mag == binary::encode(p as nat, r.0 as nat, r.1 as nat),
{
    proof {
        lemma2_to64();
        lemma2_to64_rest();
    }
    let (e, m): (u64, u64) = if p == binary::SINGLE_P {
        (mag / 0x80_0000, mag % 0x80_0000)
    } else {
        (mag / 0x10_0000_0000_0000, mag % 0x10_0000_0000_0000)
    };
    let h: u64 = if p == binary::SINGLE_P {
        0x80_0000
    } else {
        0x10_0000_0000_0000
    };
    if e == 0 {
        assert(m * pow2(0) == m);
        assert(0 * binary::hidden(p as nat) == 0);
        (m, 0)
    } else {
        assert((e - 1) * binary::hidden(p as nat) + (h + m) == mag) by (nonlinear_arith)
            requires
                binary::hidden(p as nat) == h,
                mag == e * h + m,
        ;
        (h + m, (e - 1) as i32)
    }
}

/// Powers of two that differ by `2^e`.
pub proof fn lemma_scale(x: nat, y: nat, e: int)
    requires
        x + e == y,
    ensures
        pow2(x) * rounding::scale_up(e) == pow2(y) * rounding::scale_down(e),
        rounding::scale_up(e) > 0,
        rounding::scale_down(e) > 0,
{
    if e >= 0 {
        lemma_pow2_adds(x, e as nat);
        lemma_pow2_pos(e as nat);
        assert(pow2(y) * 1 == pow2(y));
    } else {
        lemma_pow2_adds(y, (-e) as nat);
        lemma_pow2_pos((-e) as nat);
        assert(pow2(x) * 1 == pow2(x));
    }
}

pub fn times(p: u32, inf: u64, unit: u32, x: Parts, y: Parts, Ghost(f): Ghost<Layout>) -> (r: Parts)
    requires
        describes(f, p, inf, unit),
    ensures
        r@ == product(f, x@, y@),
        r.mag < 0x8000_0000_0000_0000,
        p == binary::SINGLE_P ==> r.mag < 0x8000_0000,
{
    reveal(product);
    let neg: bool = x.neg != y.neg;
    if x.mag > inf || y.mag > inf {
        return invalid(p, inf, Ghost(f));
    }
    if x.mag == inf || y.mag == inf {
        if x.mag == 0 || y.mag == 0 {
            return invalid(p, inf, Ghost(f));
        }
        return Parts { neg, mag: inf };
    }
    let (m1, e1) = unpack(p, inf, x.mag);
    let (m2, e2) = unpack(p, inf, y.mag);
    let ghost num = binary::worth(f.p, x.mag as nat) * binary::worth(f.p, y.mag as nat);
    proof {
        lemma_pow2_pos(f.unit);
        lemma2_to64();
        lemma_pow2_adds(60, 60);
        lemma2_to64_rest();
        assert(m1 * m2 < 0x20_0000_0000_0000 * 0x20_0000_0000_0000) by (nonlinear_arith)
            requires
                m1 < 0x20_0000_0000_0000,
                m2 < 0x20_0000_0000_0000,
        ;
    }
    let m: u128 = m1 as u128 * m2 as u128;
    let e: i32 = e1 + e2 - unit as i32;
    proof {
        let a = rounding::scale_up(e as int);
        let c = rounding::scale_down(e as int);
        let den = pow2(f.unit);
        lemma_scale(f.unit, (e1 + e2) as nat, e as int);
        lemma_pow2_adds(e1 as nat, e2 as nat);
        assert(e1 as nat + e2 as nat == (e1 + e2) as nat);
        assert(num * c == m * (a * den)) by (nonlinear_arith)
            requires
                num == (m1 * pow2(e1 as nat)) * (m2 * pow2(e2 as nat)),
                m == m1 * m2,
                pow2((e1 + e2) as nat) == pow2(e1 as nat) * pow2(e2 as nat),
                den * a == pow2((e1 + e2) as nat) * c,
        ;
        lemma_mul_strictly_positive(a as int, den as int);
        assert((m + 1) * (a * den) == m * (a * den) + a * den) by (nonlinear_arith);
    }
    let mag = rounding::round(p, inf, m, e, false, Ghost(num), Ghost(pow2(f.unit)));
    Parts { neg, mag }
}

pub fn over(p: u32, inf: u64, unit: u32, x: Parts, y: Parts, Ghost(f): Ghost<Layout>) -> (r: Parts)
    requires
        describes(f, p, inf, unit),
    ensures
        r@ == quotient(f, x@, y@),
        r.mag < 0x8000_0000_0000_0000,
        p == binary::SINGLE_P ==> r.mag < 0x8000_0000,
{
    reveal(quotient);
    let neg: bool = x.neg != y.neg;
    if x.mag > inf || y.mag > inf {
        return invalid(p, inf, Ghost(f));
    }
    if x.mag == inf {
        if y.mag == inf {
            return invalid(p, inf, Ghost(f));
        }
        return Parts { neg, mag: inf };
    }
    if y.mag == inf {
        return Parts { neg, mag: 0 };
    }
    if y.mag == 0 {
        if x.mag == 0 {
            return invalid(p, inf, Ghost(f));
        }
        return Parts { neg, mag: inf };
    }
    let (m1, e1) = unpack(p, inf, x.mag);
    let (m2, e2) = unpack(p, inf, y.mag);
    let ghost num = binary::worth(f.p, x.mag as nat) * pow2(f.unit);
    let ghost den = binary::worth(f.p, y.mag as nat);
    proof {
        lemma_pow2_pos(f.unit);
        lemma_pow2_pos(e2 as nat);
        lemma_mul_strictly_positive(m2 as int, pow2(e2 as nat) as int);
    }
    let len: u32 = rounding::bit_length(m1 as u128);
    proof {
        lemma2_to64();
        lemma2_to64_rest();
        lemma_pow2_adds(60, 60);
        if len > 53 {
            if len > 54 {
                lemma_pow2_strictly_increases(53, (len - 1) as nat);
            }
        }
    }
    let s: u32 = 119 - len;
    let ghost top = m1 * pow2(s as nat);
    proof {
        lemma_pow2_pos(s as nat);
        lemma_pow2_adds(len as nat, s as nat);
        lemma_pow2_strictly_increases(119, 120);
        lemma_mul_strict_inequality(m1 as int, pow2(len as nat) as int, pow2(s as nat) as int);
        rounding::lemma_shl(m1 as u128, s as u128);
    }
    let big: u128 = (m1 as u128) << (s as u128);
    let q: u128 = big / m2 as u128;
    let sticky: bool = big % m2 as u128 != 0;
    let e: i32 = e1 + unit as i32 - s as i32 - e2;
    proof {
        lemma_fundamental_div_mod(big as int, m2 as int);
        lemma_mod_bound(big as int, m2 as int);
        lemma_div_nonincreasing(big as int, m2 as int);
        if sticky {
            assert(m1 > 0) by {
                assert(0 * pow2(s as nat) == 0);
                lemma_small_mod(0, m2 as nat);
            }
            lemma_pow2_adds((len - 1) as nat, s as nat);
            assert((len - 1) as nat + s as nat == 118);
            lemma_mul_inequality(pow2((len - 1) as nat) as int, m1 as int, pow2(s as nat) as int);
            lemma_pow2_adds(58, 60);
            lemma_pow2_strictly_increases(f.p, 60);
            assert(q >= pow2(f.p)) by (nonlinear_arith)
                requires
                    big == m2 * q + (big as int) % (m2 as int),
                    0 <= (big as int) % (m2 as int) < m2,
                    m2 < 0x20_0000_0000_0000,
                    big >= 0x400_0000_0000_0000 * 0x1000_0000_0000_0000,
                    pow2(f.p) <= 0x1000_0000_0000_0000,
            ;
        }
        let a = rounding::scale_up(e as int);
        let c = rounding::scale_down(e as int);
        lemma_scale((s + e2) as nat, (e1 + unit) as nat, e as int);
        lemma_pow2_adds(s as nat, e2 as nat);
        lemma_pow2_adds(e1 as nat, unit as nat);
        assert(s as nat + e2 as nat == (s + e2) as nat);
        assert(e1 as nat + unit as nat == (e1 + unit) as nat);
        let g = pow2(e2 as nat) * a;
        lemma_mul_strictly_positive(pow2(e2 as nat) as int, a as int);
        assert(num * c == big * g) by (nonlinear_arith)
            requires
                num == (m1 * pow2(e1 as nat)) * pow2(f.unit),
                f.unit == unit,
                big == m1 * pow2(s as nat),
                pow2((s + e2) as nat) == pow2(s as nat) * pow2(e2 as nat),
                pow2((e1 + unit) as nat) == pow2(e1 as nat) * pow2(unit as nat),
                pow2((s + e2) as nat) * a == pow2((e1 + unit) as nat) * c,
                g == pow2(e2 as nat) * a,
        ;
        let rest = (big as int) % (m2 as int);
        let k = a * den;
        assert(k == m2 * g) by (nonlinear_arith)
            requires
                k == a * den,
                den == m2 * pow2(e2 as nat),
                g == pow2(e2 as nat) * a,
        ;
        assert(big * g == q * k + rest * g && (q + 1) * k == q * k + m2 * g) by (nonlinear_arith)
            requires
                k == m2 * g,
                big == m2 * q + rest,
        ;
        lemma_mul_strict_inequality(rest, m2 as int, g as int);
        lemma_mul_nonnegative(rest, g as int);
        if sticky {
            lemma_mul_strictly_positive(rest, g as int);
        } else {
            assert(0 * g == 0);
        }
    }
    let mag = rounding::round(p, inf, q, e, sticky, Ghost(num), Ghost(den));
    Parts { neg, mag }
}

/// `m * 2^(64 - d)`, and whether that dropped a part.
fn align(m: u64, d: u32) -> (r: (u128, bool))
    requires
        m < 0x20_0000_0000_0000,
        d <= 2045,
    ensures
        d <= 64 ==> r.0 == m * pow2((64 - d) as nat) && !r.1,
        d > 64 ==> {
            let w = pow2((d - 64) as nat);
            &&& r.0 * w <= m < (r.0 + 1) * w
            &&& r.1 <==> m != r.0 * w
        },
        r.0 < 0x20_0000_0000_0000 * 0x1_0000_0000_0000_0000,
        d >= 1 ==> r.0 <= m * 0x8000_0000_0000_0000,
{
    proof {
        lemma2_to64();
        lemma2_to64_rest();
    }
    if d <= 64 {
        let s: u32 = 64 - d;
        proof {
            if s < 64 {
                lemma_pow2_strictly_increases(s as nat, 64);
            }
            if s < 63 {
                lemma_pow2_strictly_increases(s as nat, 63);
            }
            assert(m * pow2(s as nat) <= m * 0x1_0000_0000_0000_0000) by (nonlinear_arith)
                requires
                    pow2(s as nat) <= 0x1_0000_0000_0000_0000,
            ;
            if d >= 1 {
                assert(m * pow2(s as nat) <= m * 0x8000_0000_0000_0000) by (nonlinear_arith)
                    requires
                        pow2(s as nat) <= 0x8000_0000_0000_0000,
                ;
            }
            rounding::lemma_shl(m as u128, s as u128);
        }
        ((m as u128) << (s as u128), false)
    } else {
        let t: u32 = d - 64;
        proof {
            lemma_pow2_pos(t as nat);
        }
        if t >= 64 {
            proof {
                if t > 64 {
                    lemma_pow2_strictly_increases(64, t as nat);
                }
                assert(0 * pow2(t as nat) == 0 && 1 * pow2(t as nat) == pow2(t as nat));
            }
            (0, m != 0)
        } else {
            let q: u64 = m >> (t as u64);
            proof {
                let w = pow2(t as nat);
                lemma_u64_shr_is_div(m, t as u64);
                lemma_fundamental_div_mod(m as int, w as int);
                lemma_mod_bound(m as int, w as int);
                lemma_mul_is_commutative(q as int, w as int);
                assert((q + 1) * w == q * w + w) by (nonlinear_arith);
                lemma_u64_shl_is_mul(q, t as u64);
                lemma_div_nonincreasing(m as int, w as int);
            }
            (q as u128, (q << (t as u64)) != m)
        }
    }
}

/// An aligned significand stands to what it is worth as `2^e` says.
proof fn lemma_aligned(m: nat, e: nat, d: nat, sm: nat, lost: bool, top: nat)
    requires
        top == e + d,
        d <= 64 ==> sm == m * pow2((64 - d) as nat) && !lost,
        d > 64 ==> {
            let w = pow2((d - 64) as nat);
            &&& sm * w <= m < (sm + 1) * w
            &&& lost <==> m != sm * w
        },
    ensures
        ({
            let a = rounding::scale_up(top - 64);
            let c = rounding::scale_down(top - 64);
            let n = (m * pow2(e)) * c;
            &&& a > 0
            &&& c > 0
            &&& sm * a <= n < (sm + 1) * a
            &&& lost <==> n != sm * a
        }),
{
    let a = rounding::scale_up(top - 64);
    let c = rounding::scale_down(top - 64);
    let n = (m * pow2(e)) * c;
    if d <= 64 {
        lemma_scale((64 - d) as nat, e, top - 64);
        assert(n == sm * a) by (nonlinear_arith)
            requires
                n == (m * pow2(e)) * c,
                sm == m * pow2((64 - d) as nat),
                pow2((64 - d) as nat) * a == pow2(e) * c,
        ;
        assert((sm + 1) * a == sm * a + a) by (nonlinear_arith);
    } else {
        let w = pow2((d - 64) as nat);
        let g = pow2(e);
        lemma_pow2_pos(e);
        lemma_pow2_pos((d - 64) as nat);
        lemma_pow2_adds((d - 64) as nat, e);
        assert((d - 64) as nat + e == (top - 64) as nat);
        lemma_pow2_pos((top - 64) as nat);
        assert(a == w * g && c == 1);
        assert(n == m * g) by {
            assert((m * g) * 1 == m * g);
        }
        assert(sm * (w * g) == (sm * w) * g && (sm + 1) * (w * g) == ((sm + 1) * w) * g)
            by (nonlinear_arith);
        lemma_mul_inequality((sm * w) as int, m as int, g as int);
        lemma_mul_strict_inequality(m as int, ((sm + 1) * w) as int, g as int);
        if lost {
            lemma_mul_strict_inequality((sm * w) as int, m as int, g as int);
        }
    }
}

/// The magnitude of the sum of two finite numbers that do not cancel, the one
/// of greater magnitude first.
#[verifier::rlimit(50)]
fn combine(p: u32, inf: u64, hi: Parts, lo: Parts, Ghost(f): Ghost<Layout>) -> (r: u64)
    requires
        f == single() || f == double(),
        p == f.p,
        inf == f.inf,
        0 < lo.mag <= hi.mag < inf,
        hi.neg == lo.neg || lo.mag < hi.mag,
        binary::worth(f.p, lo.mag as nat) <= binary::worth(f.p, hi.mag as nat),
    ensures
        r <= inf,
        hi.neg == lo.neg ==> r == binary::nearest(
            f.p,
            f.inf,
            binary::worth(f.p, hi.mag as nat) + binary::worth(f.p, lo.mag as nat),
            1,
        ),
        hi.neg != lo.neg ==> r == binary::nearest(
            f.p,
            f.inf,
            (binary::worth(f.p, hi.mag as nat) - binary::worth(f.p, lo.mag as nat)) as nat,
            1,
        ),
{
    let (m1, e1) = unpack(p, inf, hi.mag);
    let (m2, e2) = unpack(p, inf, lo.mag);
    proof {
        lemma2_to64();
        lemma2_to64_rest();
        let h = binary::hidden(f.p);
        assert(e1 >= e2) by (nonlinear_arith)
            requires
                hi.mag >= lo.mag,
                hi.mag == e1 * h + m1,
                lo.mag == e2 * h + m2,
                m1 < 2 * h,
                e2 > 0 ==> m2 >= h,
                e1 >= 0,
                e2 >= 0,
        ;
    }
    let d: u32 = (e1 - e2) as u32;
    let (sm, lost) = align(m2, d);
    let ghost wh = binary::worth(f.p, hi.mag as nat);
    let ghost wl = binary::worth(f.p, lo.mag as nat);
    let e: i32 = e1 - 64;
    let ghost a = rounding::scale_up(e as int);
    let ghost c = rounding::scale_down(e as int);
    let big: u128 = m1 as u128 * 0x1_0000_0000_0000_0000;
    proof {
        lemma_aligned(m2 as nat, e2 as nat, d as nat, sm as nat, lost, e1 as nat);
        assert(big == m1 * pow2(64));
        lemma_aligned(m1 as nat, e1 as nat, 0, big as nat, false, e1 as nat);
        assert(wh * c == big * a);
        assert((wh + wl) * c == wh * c + wl * c && (wh - wl) * c == wh * c - wl * c)
            by (nonlinear_arith);
        assert((big + sm) * a == big * a + sm * a && (big - sm) * a == big * a - sm * a)
            by (nonlinear_arith);
        lemma_pow2_adds(60, 60);
        if d > 64 {
            assert(m1 >= 0x80_0000);
            lemma_pow2_pos((d - 64) as nat);
            assert(sm <= m2) by (nonlinear_arith)
                requires
                    sm * pow2((d - 64) as nat) <= m2,
                    pow2((d - 64) as nat) >= 1,
            ;
        }
    }
    if hi.neg == lo.neg {
        let m: u128 = big + sm;
        proof {
            assert((m + 1) * a == m * a + a && (sm + 1) * a == sm * a + a) by (nonlinear_arith);
            assert(a * 1 == a);
        }
        rounding::round(p, inf, m, e, lost, Ghost(wh + wl), Ghost(1))
    } else {
        proof {
            if d == 0 {
                assert(hi.mag == binary::encode(f.p, m1 as nat, e1 as nat));
                assert(lo.mag == binary::encode(f.p, m2 as nat, e1 as nat));
                assert(m2 < m1);
                assert(sm == m2 * 0x1_0000_0000_0000_0000);
            } else if d <= 64 {
                lemma_pow2_unfold(f.p);
                assert(m1 >= binary::hidden(f.p));
                assert(m2 < 2 * binary::hidden(f.p));
                assert(sm < big);
            }
        }
        let m: u128 = if lost {
            big - sm - 1
        } else {
            big - sm
        };
        proof {
            assert((m + 1) * a == m * a + a && (sm + 1) * a == sm * a + a) by (nonlinear_arith);
            assert((big - sm - 1) * a == (big - sm) * a - a) by (nonlinear_arith);
            assert(a * 1 == a);
        }
        rounding::round(p, inf, m, e, lost, Ghost((wh - wl) as nat), Ghost(1))
    }
}

pub fn plus(p: u32, inf: u64, unit: u32, x: Parts, y: Parts, Ghost(f): Ghost<Layout>) -> (r: Parts)
    requires
        describes(f, p, inf, unit),
    ensures
        r@ == sum(f, x@, y@),
        r.mag < 0x8000_0000_0000_0000,
        p == binary::SINGLE_P ==> r.mag < 0x8000_0000,
{
    reveal(sum);
    if x.mag > inf || y.mag > inf {
        return invalid(p, inf, Ghost(f));
    }
    if x.mag == inf || y.mag == inf {
        if x.mag == y.mag && x.neg != y.neg {
            return invalid(p, inf, Ghost(f));
        }
        return if x.mag == inf {
            x
        } else {
            y
        };
    }
    proof {
        lemma_zero_is_worth_nothing(f.p);
        if x.mag > 0 {
            binary::lemma_worth_increases(f.p, 0, x.mag as nat);
        }
        if y.mag > 0 {
            binary::lemma_worth_increases(f.p, 0, y.mag as nat);
        }
    }
    let (hi, lo): (Parts, Parts) = if x.mag >= y.mag {
        (x, y)
    } else {
        (y, x)
    };
    proof {
        if lo.mag < hi.mag {
            binary::lemma_worth_increases(f.p, lo.mag as nat, hi.mag as nat);
        }
    }
    if lo.mag == 0 {
        if hi.mag == 0 {
            return Parts { neg: x.neg && y.neg, mag: 0 };
        }
        proof {
            let w = binary::worth(f.p, hi.mag as nat);
            assert(w * 1 == w);
            binary::lemma_nearest_exact(f.p, f.inf, w, 1, hi.mag as nat);
        }
        return hi;
    }
    if hi.mag == lo.mag && hi.neg != lo.neg {
        return Parts { neg: false, mag: 0 };
    }
    let mag = combine(p, inf, hi, lo, Ghost(f));
    Parts { neg: hi.neg, mag }
}

} // verus!
