//! Conversions between integers and numbers, and between the formats.

use vstd::arithmetic::div_mod::*;
use vstd::arithmetic::mul::*;
use vstd::arithmetic::power2::*;
use vstd::bits::*;
use vstd::prelude::*;

use crate::ieee::arith;
use crate::ieee::arith::Parts;
use crate::ieee::binary;
use crate::ieee::rounding;

verus! {

/// The least positive number of single precision is `2^NARROWING` of the least
/// positive numbers of double precision.
pub const NARROWING: u32 = 925;

/// The number nearest to the integer `n`.
#[verifier::opaque]
pub open spec fn from_nat(f: arith::Layout, n: nat) -> arith::Signed {
    arith::Signed { neg: false, mag: binary::nearest(f.p, f.inf, n * pow2(f.unit), 1) }
}

/// The greatest integer not above a finite magnitude.
pub open spec fn floor_of(f: arith::Layout, mag: nat) -> nat {
    binary::worth(f.p, mag) / pow2(f.unit)
}

/// The least integer not below a finite magnitude.
pub open spec fn ceiling_of(f: arith::Layout, mag: nat) -> nat {
    ((binary::worth(f.p, mag) + pow2(f.unit) - 1) / (pow2(f.unit) as int)) as nat
}

/// The integer nearest to a finite magnitude, halves away from zero.
pub open spec fn rounded(f: arith::Layout, mag: nat) -> nat {
    (2 * binary::worth(f.p, mag) + pow2(f.unit)) / (2 * pow2(f.unit))
}

/// An unsigned integer for a number whose magnitude becomes `n`: zero for what
/// is negative or not a number, at most `max`.
pub open spec fn saturated(f: arith::Layout, x: arith::Signed, n: nat, max: nat) -> nat {
    if x.mag > f.inf || x.neg {
        0
    } else if x.mag == f.inf || n > max {
        max
    } else {
        n
    }
}

/// Double precision to single precision, correctly rounded.
#[verifier::opaque]
pub open spec fn narrowed(x: arith::Signed) -> arith::Signed {
    if x.mag > binary::DOUBLE_INF {
        arith::nan(arith::single())
    } else if x.mag == binary::DOUBLE_INF {
        arith::Signed { neg: x.neg, mag: binary::SINGLE_INF as nat }
    } else {
        arith::Signed {
            neg: x.neg,
            mag: binary::nearest(
                binary::SINGLE_P as nat,
                binary::SINGLE_INF as nat,
                binary::worth(binary::DOUBLE_P as nat, x.mag),
                pow2(NARROWING as nat),
            ),
        }
    }
}

/// Single precision to double precision, which is exact.
#[verifier::opaque]
pub open spec fn widened(x: arith::Signed) -> arith::Signed {
    if x.mag > binary::SINGLE_INF {
        arith::nan(arith::double())
    } else if x.mag == binary::SINGLE_INF {
        arith::Signed { neg: x.neg, mag: binary::DOUBLE_INF as nat }
    } else {
        arith::Signed {
            neg: x.neg,
            mag: binary::nearest(
                binary::DOUBLE_P as nat,
                binary::DOUBLE_INF as nat,
                binary::worth(binary::SINGLE_P as nat, x.mag) * pow2(NARROWING as nat),
                1,
            ),
        }
    }
}

/// The integer part of a finite magnitude, whether the fraction is at least a
/// half, and whether it is not zero; nothing for `2^64` and above.
fn split(p: u32, inf: u64, unit: u32, mag: u64, Ghost(f): Ghost<arith::Layout>) -> (r: Option<
    (u64, bool, bool),
>)
    requires
        arith::describes(f, p, inf, unit),
        mag < inf,
    ensures
        match r {
            None => binary::worth(f.p, mag as nat) >= 0x1_0000_0000_0000_0000 * pow2(f.unit),
            Some((whole, half, rest)) => {
                let w = binary::worth(f.p, mag as nat);
                let u = pow2(f.unit);
                &&& whole * u <= w < (whole + 1) * u
                &&& half <==> 2 * w >= (2 * whole + 1) * u
                &&& rest <==> w != whole * u
            },
        },
{
    let (m, e) = arith::unpack(p, inf, mag);
    let s: i32 = unit as i32 - e;
    let ghost w = binary::worth(f.p, mag as nat);
    let ghost u = pow2(f.unit);
    proof {
        lemma2_to64();
        lemma2_to64_rest();
        lemma_pow2_pos(f.unit);
        lemma_pow2_pos(e as nat);
    }
    if s <= 0 {
        let left: u32 = (-s) as u32;
        let ghost k = pow2(left as nat);
        proof {
            lemma_pow2_adds(left as nat, f.unit);
            assert(left as nat + f.unit == e as nat);
            assert(w == (m * k) * u) by (nonlinear_arith)
                requires
                    w == m * pow2(e as nat),
                    pow2(e as nat) == k * u,
            ;
            if left < 64 {
                lemma_pow2_strictly_increases(left as nat, 64);
                assert(m * k <= 0x20_0000_0000_0000 * 0x1_0000_0000_0000_0000) by (nonlinear_arith)
                    requires
                        m <= 0x20_0000_0000_0000,
                        k <= 0x1_0000_0000_0000_0000,
                        k >= 0,
                ;
                rounding::lemma_shl(m as u128, left as u128);
            } else {
                if left > 64 {
                    lemma_pow2_strictly_increases(64, left as nat);
                }
                assert(m * k >= 0x1_0000_0000_0000_0000) by (nonlinear_arith)
                    requires
                        m >= 1,
                        k >= 0x1_0000_0000_0000_0000,
                ;
                lemma_mul_inequality(0x1_0000_0000_0000_0000, (m * k) as int, u as int);
            }
        }
        if left >= 64 {
            return None;
        }
        let x: u128 = (m as u128) << (left as u128);
        if x >= 0x1_0000_0000_0000_0000 {
            proof {
                lemma_mul_inequality(0x1_0000_0000_0000_0000, x as int, u as int);
            }
            return None;
        }
        proof {
            assert((x + 1) * u == x * u + u && (2 * x + 1) * u == 2 * (x * u) + u)
                by (nonlinear_arith);
        }
        Some((x as u64, false, false))
    } else {
        let ghost g = pow2(e as nat);
        let ghost k = pow2(s as nat);
        proof {
            lemma_pow2_adds(s as nat, e as nat);
            assert(s as nat + e as nat == f.unit);
            lemma_pow2_pos(s as nat);
            lemma_pow2_unfold(s as nat);
        }
        let (q, rem, up): (u64, u64, bool) = if s >= 64 {
            proof {
                if s > 64 {
                    lemma_pow2_strictly_increases(64, s as nat);
                }
                assert(0 * k == 0);
            }
            (0, m, false)
        } else {
            let q: u64 = m >> (s as u64);
            proof {
                lemma_u64_shr_is_div(m, s as u64);
                lemma_fundamental_div_mod(m as int, k as int);
                lemma_mod_bound(m as int, k as int);
                lemma_mul_is_commutative(q as int, k as int);
                lemma_u64_shl_is_mul(q, s as u64);
                if s < 63 {
                    lemma_pow2_strictly_increases(s as nat, 63);
                }
                assert(1 * pow2((s - 1) as nat) == pow2((s - 1) as nat));
                lemma_u64_shl_is_mul(1, (s - 1) as u64);
            }
            let rem: u64 = m - (q << (s as u64));
            (q, rem, rem >= (1u64 << ((s - 1) as u64)))
        };
        proof {
            assert(m == q * k + rem && rem < k);
            assert(up <==> 2 * rem >= k);
            assert(w == (q * k) * g + rem * g && (q * k) * g == q * u && (q + 1) * u == q * u + u
                && (2 * q + 1) * u == 2 * (q * u) + u) by (nonlinear_arith)
                requires
                    w == m * g,
                    m == q * k + rem,
                    u == k * g,
            ;
            lemma_mul_strict_inequality(rem as int, k as int, g as int);
            lemma_mul_nonnegative(rem as int, g as int);
            if rem > 0 {
                lemma_mul_strictly_positive(rem as int, g as int);
            } else {
                assert(0 * g == 0);
            }
            assert((2 * rem) * g == 2 * (rem * g)) by (nonlinear_arith);
            if up {
                lemma_mul_inequality(k as int, (2 * rem) as int, g as int);
            } else {
                lemma_mul_strict_inequality((2 * rem) as int, k as int, g as int);
            }
        }
        Some((q, up, rem != 0))
    }
}

/// The number nearest to an integer.
pub fn of_u64(p: u32, inf: u64, unit: u32, n: u64, Ghost(f): Ghost<arith::Layout>) -> (r: u64)
    requires
        arith::describes(f, p, inf, unit),
    ensures
        (arith::Signed { neg: false, mag: r as nat }) == from_nat(f, n as nat),
        r <= inf,
{
    reveal(from_nat);
    proof {
        lemma2_to64();
        lemma_pow2_pos(f.unit);
        lemma_pow2_strictly_increases(64, 120);
        assert(pow2(f.unit) * 1 == pow2(f.unit));
        assert((n * pow2(f.unit)) * 1 == n * pow2(f.unit));
        assert((n + 1) * pow2(f.unit) == n * pow2(f.unit) + pow2(f.unit)) by (nonlinear_arith);
    }
    rounding::round(
        p,
        inf,
        n as u128,
        unit as i32,
        false,
        Ghost(n as nat * pow2(f.unit)),
        Ghost(1),
    )
}

/// The integer part, at most `max`.
pub fn floor_u64(
    p: u32,
    inf: u64,
    unit: u32,
    x: Parts,
    max: u64,
    Ghost(f): Ghost<arith::Layout>,
) -> (r: u64)
    requires
        arith::describes(f, p, inf, unit),
    ensures
        r == saturated(f, x@, floor_of(f, x.mag as nat), max as nat),
{
    if x.mag > inf || x.neg {
        return 0;
    }
    if x.mag == inf {
        return max;
    }
    let ghost u = pow2(f.unit);
    let ghost w = binary::worth(f.p, x.mag as nat);
    proof {
        lemma_pow2_pos(f.unit);
    }
    match split(p, inf, unit, x.mag, Ghost(f)) {
        None => {
            proof {
                lemma_div_is_ordered(
                    (0x1_0000_0000_0000_0000 * u) as int,
                    w as int,
                    u as int,
                );
                lemma_div_by_multiple(0x1_0000_0000_0000_0000, u as int);
            }
            max
        },
        Some((whole, _half, _rest)) => {
            proof {
                assert((whole + 1) * u == whole * u + u) by (nonlinear_arith);
                lemma_fundamental_div_mod_converse(
                    w as int,
                    u as int,
                    whole as int,
                    w - whole * u,
                );
            }
            if whole > max {
                max
            } else {
                whole
            }
        },
    }
}

/// The least integer not below, at most `max`.
pub fn ceiling_u64(
    p: u32,
    inf: u64,
    unit: u32,
    x: Parts,
    max: u64,
    Ghost(f): Ghost<arith::Layout>,
) -> (r: u64)
    requires
        arith::describes(f, p, inf, unit),
    ensures
        r == saturated(f, x@, ceiling_of(f, x.mag as nat), max as nat),
{
    if x.mag > inf || x.neg {
        return 0;
    }
    if x.mag == inf {
        return max;
    }
    let ghost u = pow2(f.unit);
    let ghost w = binary::worth(f.p, x.mag as nat);
    proof {
        lemma_pow2_pos(f.unit);
    }
    match split(p, inf, unit, x.mag, Ghost(f)) {
        None => {
            proof {
                lemma_div_is_ordered(
                    (0x1_0000_0000_0000_0000 * u) as int,
                    w + u - 1,
                    u as int,
                );
                lemma_div_by_multiple(0x1_0000_0000_0000_0000, u as int);
            }
            max
        },
        Some((whole, _half, rest)) => {
            proof {
                assert((whole + 1) * u == whole * u + u) by (nonlinear_arith);
                if rest {
                    lemma_fundamental_div_mod_converse(
                        w + u - 1,
                        u as int,
                        whole + 1,
                        w - whole * u - 1,
                    );
                } else {
                    lemma_fundamental_div_mod_converse(w + u - 1, u as int, whole as int, u - 1);
                }
            }
            if rest {
                if whole >= max {
                    max
                } else {
                    whole + 1
                }
            } else if whole > max {
                max
            } else {
                whole
            }
        },
    }
}

/// The nearest integer, halves away from zero, at most `max`.
pub fn rounded_u64(
    p: u32,
    inf: u64,
    unit: u32,
    x: Parts,
    max: u64,
    Ghost(f): Ghost<arith::Layout>,
) -> (r: u64)
    requires
        arith::describes(f, p, inf, unit),
    ensures
        r == saturated(f, x@, rounded(f, x.mag as nat), max as nat),
{
    if x.mag > inf || x.neg {
        return 0;
    }
    if x.mag == inf {
        return max;
    }
    let ghost u = pow2(f.unit);
    let ghost w = binary::worth(f.p, x.mag as nat);
    proof {
        lemma_pow2_pos(f.unit);
    }
    match split(p, inf, unit, x.mag, Ghost(f)) {
        None => {
            proof {
                lemma_div_is_ordered(
                    (0x1_0000_0000_0000_0000 * (2 * u)) as int,
                    (2 * w + u) as int,
                    (2 * u) as int,
                );
                lemma_div_by_multiple(0x1_0000_0000_0000_0000, (2 * u) as int);
            }
            max
        },
        Some((whole, half, _rest)) => {
            proof {
                assert((whole + 1) * u == whole * u + u && (2 * whole + 1) * u == 2 * (whole * u)
                    + u && whole * (2 * u) == 2 * (whole * u) && (whole + 1) * (2 * u) == 2 * (whole
                    * u) + 2 * u) by (nonlinear_arith);
                if half {
                    lemma_fundamental_div_mod_converse(
                        (2 * w + u) as int,
                        (2 * u) as int,
                        whole + 1,
                        2 * w - 2 * (whole * u) - u,
                    );
                } else {
                    lemma_fundamental_div_mod_converse(
                        (2 * w + u) as int,
                        (2 * u) as int,
                        whole as int,
                        2 * w - 2 * (whole * u) + u,
                    );
                }
            }
            if half {
                if whole >= max {
                    max
                } else {
                    whole + 1
                }
            } else if whole > max {
                max
            } else {
                whole
            }
        },
    }
}

/// Double precision to single precision.
pub fn narrow(x: Parts) -> (r: Parts)
    ensures
        r@ == narrowed(x@),
        r.mag < 0x8000_0000,
{
    reveal(narrowed);
    if x.mag > binary::DOUBLE_INF {
        return arith::invalid(binary::SINGLE_P, binary::SINGLE_INF, Ghost(arith::single()));
    }
    if x.mag == binary::DOUBLE_INF {
        return Parts { neg: x.neg, mag: binary::SINGLE_INF };
    }
    let (m, e) = arith::unpack(binary::DOUBLE_P, binary::DOUBLE_INF, x.mag);
    let ghost num = binary::worth(binary::DOUBLE_P as nat, x.mag as nat);
    let ghost den = pow2(NARROWING as nat);
    let ex: i32 = e - NARROWING as i32;
    proof {
        let a = rounding::scale_up(ex as int);
        let c = rounding::scale_down(ex as int);
        arith::lemma_scale(NARROWING as nat, e as nat, ex as int);
        lemma_pow2_pos(NARROWING as nat);
        lemma2_to64();
        lemma_pow2_strictly_increases(64, 120);
        assert(num * c == m * (a * den)) by (nonlinear_arith)
            requires
                num == m * pow2(e as nat),
                den * a == pow2(e as nat) * c,
        ;
        lemma_mul_strictly_positive(a as int, den as int);
        assert((m + 1) * (a * den) == m * (a * den) + a * den) by (nonlinear_arith);
    }
    let mag = rounding::round(
        binary::SINGLE_P,
        binary::SINGLE_INF,
        m as u128,
        ex,
        false,
        Ghost(num),
        Ghost(den),
    );
    Parts { neg: x.neg, mag }
}

/// Single precision to double precision.
pub fn widen(x: Parts) -> (r: Parts)
    ensures
        r@ == widened(x@),
        r.mag < 0x8000_0000_0000_0000,
{
    reveal(widened);
    if x.mag > binary::SINGLE_INF {
        return arith::invalid(binary::DOUBLE_P, binary::DOUBLE_INF, Ghost(arith::double()));
    }
    if x.mag == binary::SINGLE_INF {
        return Parts { neg: x.neg, mag: binary::DOUBLE_INF };
    }
    let (m, e) = arith::unpack(binary::SINGLE_P, binary::SINGLE_INF, x.mag);
    let ghost num = binary::worth(binary::SINGLE_P as nat, x.mag as nat) * pow2(NARROWING as nat);
    let ex: i32 = e + NARROWING as i32;
    proof {
        let k = pow2(ex as nat);
        lemma_pow2_adds(e as nat, NARROWING as nat);
        assert(e as nat + NARROWING as nat == ex as nat);
        lemma_pow2_pos(ex as nat);
        lemma2_to64();
        lemma_pow2_strictly_increases(64, 120);
        assert(num == m * k) by (nonlinear_arith)
            requires
                num == (m * pow2(e as nat)) * pow2(NARROWING as nat),
                k == pow2(e as nat) * pow2(NARROWING as nat),
        ;
        assert(k * 1 == k && num * 1 == num);
        assert((m + 1) * k == m * k + k) by (nonlinear_arith);
    }
    let mag = rounding::round(
        binary::DOUBLE_P,
        binary::DOUBLE_INF,
        m as u128,
        ex,
        false,
        Ghost(num),
        Ghost(1),
    );
    Parts { neg: x.neg, mag }
}

} // verus!
