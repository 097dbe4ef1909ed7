//! How large results can get, and how far rounding can take them.

use vstd::arithmetic::mul::*;
use vstd::arithmetic::power2::*;
use vstd::prelude::*;

use crate::ieee::arith;
use crate::ieee::arith::Signed;
use crate::ieee::binary;
use crate::ieee::convert;
use crate::ieee::double;
use crate::ieee::double::Double;
use crate::ieee::single;
use crate::ieee::single::Single;

verus! {

/// The magnitude of `2^e` in double precision.
pub open spec fn two_to(e: nat) -> nat {
    (e + 1023) * 0x10_0000_0000_0000
}

/// A number of at most `2^e`, of either sign.
pub open spec fn within(a: Double, e: nat) -> bool {
    a@.mag <= two_to(e)
}

/// What a power of two is worth.
pub proof fn lemma_two_to(e: nat)
    ensures
        binary::worth(53, two_to(e)) == pow2(e + 1074),
        binary::worth(53, two_to(e) + 1) == pow2(e + 1074) + pow2(e + 1022),
        two_to(e) % 2 == 0,
{
    lemma2_to64_rest();
    let x = e + 1022;
    lemma_pow2_adds(52, x);
    binary::lemma_worth_of_encode(53, 0x10_0000_0000_0000, x);
    assert(binary::encode(53, 0x10_0000_0000_0000, x) == two_to(e)) by {
        assert(binary::hidden(53) == 0x10_0000_0000_0000);
        assert(x * 0x10_0000_0000_0000 + 0x10_0000_0000_0000 == two_to(e));
    }
    lemma_pow2_unfold(53);
    binary::lemma_worth_of_encode(53, 0x10_0000_0000_0001, x);
    assert(binary::encode(53, 0x10_0000_0000_0001, x) == two_to(e) + 1);
    assert(0x10_0000_0000_0001 * pow2(x) == 0x10_0000_0000_0000 * pow2(x) + pow2(x))
        by (nonlinear_arith);
}

/// A magnitude of at most a power of two is worth no more than it.
proof fn lemma_worth_within(mag: nat, e: nat)
    requires
        mag <= two_to(e),
    ensures
        binary::worth(53, mag) <= pow2(e + 1074),
{
    lemma_two_to(e);
    if mag < two_to(e) {
        binary::lemma_worth_increases(53, mag, two_to(e));
    }
}

/// A power of two is less than infinity.
proof fn lemma_two_to_is_finite(e: nat)
    requires
        e <= 1023,
    ensures
        two_to(e) < binary::DOUBLE_INF,
{
}

proof fn lemma_sum_within(x: Signed, y: Signed, v: nat, e: nat)
    requires
        x.mag < binary::DOUBLE_INF,
        y.mag < binary::DOUBLE_INF,
        binary::worth(53, x.mag) + binary::worth(53, y.mag) <= v,
        binary::nearest(53, binary::DOUBLE_INF as nat, v, 1) <= two_to(e),
    ensures
        arith::sum(arith::double(), x, y).mag <= two_to(e),
{
    let f = arith::double();
    reveal(arith::sum);
    let w = arith::value(f, x) + arith::value(f, y);
    let m = if w < 0 {
        (-w) as nat
    } else {
        w as nat
    };
    binary::law_rounding_is_monotone(53, f.inf, m, v, 1);
}

/// A running sum of numbers of at most `2^k` never exceeds `2^(k + 53)`, however many there are:
/// from there on, a further term is too small to count.
proof fn lemma_running_sum(x: Signed, y: Signed, k: nat)
    requires
        k + 53 <= 1023,
        x.mag <= two_to(k + 53),
        y.mag <= two_to(k),
    ensures
        arith::sum(arith::double(), x, y).mag <= two_to(k + 53),
{
    let inf = binary::DOUBLE_INF as nat;
    let e = k + 53;
    lemma_worth_within(x.mag, e);
    lemma_worth_within(y.mag, k);
    lemma_two_to(e);
    lemma_two_to_is_finite(e);
    lemma_two_to_is_finite(k);
    let v = pow2(e + 1074) + pow2(k + 1074);
    assert(e + 1022 == k + 1075);
    lemma_pow2_unfold(k + 1075);
    lemma_pow2_pos(k + 1074);
    assert(pow2(e + 1022) == 2 * pow2(k + 1074));
    assert(binary::is_below(53, v, 1, two_to(e)));
    binary::lemma_nearest(53, inf, v, 1, two_to(e));
    lemma_sum_within(x, y, v, e);
}

proof fn lemma_sum_of_two(x: Signed, y: Signed, k: nat)
    requires
        k + 1 <= 1023,
        x.mag <= two_to(k),
        y.mag <= two_to(k),
    ensures
        arith::sum(arith::double(), x, y).mag <= two_to(k + 1),
{
    let inf = binary::DOUBLE_INF as nat;
    lemma_worth_within(x.mag, k);
    lemma_worth_within(y.mag, k);
    lemma_two_to(k + 1);
    lemma_two_to_is_finite(k + 1);
    lemma_two_to_is_finite(k);
    lemma_pow2_unfold(k + 1 + 1074);
    let v = pow2(k + 1 + 1074);
    assert(binary::worth(53, two_to(k + 1)) * 1 == v);
    binary::lemma_nearest_exact(53, inf, v, 1, two_to(k + 1));
    lemma_sum_within(x, y, v, k + 1);
}

/// The product of numbers of at most `2^i` and `2^j` is at most `2^(i + j)`.
pub proof fn law_product_within(a: Double, b: Double, i: nat, j: nat)
    requires
        within(a, i),
        within(b, j),
        i + j <= 1023,
    ensures
        within(double::product(a, b), i + j),
{
    let f = arith::double();
    reveal(double::product);
    reveal(arith::product);
    lemma_worth_within(a@.mag, i);
    lemma_worth_within(b@.mag, j);
    lemma_two_to(i + j);
    lemma_two_to_is_finite(i + j);
    lemma_two_to_is_finite(i);
    lemma_two_to_is_finite(j);
    let x = binary::worth(53, a@.mag);
    let y = binary::worth(53, b@.mag);
    lemma_pow2_adds(i + 1074, j + 1074);
    lemma_pow2_adds(i + j + 1074, 1074);
    let v = pow2(i + j + 1074) * pow2(1074);
    assert(x * y <= pow2(i + 1074) * pow2(j + 1074)) by (nonlinear_arith)
        requires
            0 <= x <= pow2(i + 1074),
            0 <= y <= pow2(j + 1074),
    ;
    lemma_pow2_pos(1074);
    binary::law_rounding_is_monotone(53, f.inf, x * y, v, pow2(1074));
    binary::lemma_nearest_exact(53, f.inf, v, pow2(1074), two_to(i + j));
}

/// The sum of two numbers of at most `2^k` is at most `2^(k + 1)`.
pub proof fn law_sum_within(a: Double, b: Double, k: nat)
    requires
        within(a, k),
        within(b, k),
        k + 1 <= 1023,
    ensures
        within(double::sum(a, b), k + 1),
        within(double::difference(a, b), k + 1),
{
    reveal(double::sum);
    reveal(double::difference);
    lemma_two_to_is_finite(k + 1);
    lemma_sum_of_two(a@, b@, k);
    lemma_sum_of_two(a@, Signed { neg: !b@.neg, mag: b@.mag }, k);
}

/// A running sum of numbers of at most `2^k` never exceeds `2^(k + 53)`.
pub proof fn law_running_sum_within(sofar: Double, a: Double, k: nat)
    requires
        within(sofar, k + 53),
        within(a, k),
        k + 53 <= 1023,
    ensures
        within(double::sum(sofar, a), k + 53),
{
    reveal(double::sum);
    lemma_two_to_is_finite(k + 53);
    lemma_running_sum(sofar@, a@, k);
}

/// A finite number of single precision is at most `2^128`.
pub proof fn law_widened_within(a: Single)
    requires
        single::finite(a),
    ensures
        within(single::widened(a), 128),
        single::widened(a)@.neg == a@.neg,
{
    let inf = binary::DOUBLE_INF as nat;
    reveal(single::widened);
    reveal(convert::widened);
    lemma2_to64();
    lemma_two_to(128);
    let top = binary::worth(24, binary::SINGLE_INF as nat);
    binary::lemma_worth_increases(24, a@.mag, binary::SINGLE_INF as nat);
    binary::lemma_worth_of_encode(24, 0x80_0000, 254);
    assert(binary::encode(24, 0x80_0000, 254) == binary::SINGLE_INF);
    lemma_pow2_adds(23, 254);
    let d = pow2(convert::NARROWING as nat);
    lemma_pow2_adds(277, convert::NARROWING as nat);
    let w = binary::worth(24, a@.mag);
    lemma_mul_inequality(w as int, top as int, d as int);
    binary::law_rounding_is_monotone(53, inf, w * d, top * d, 1);
    assert(binary::worth(53, two_to(128)) * 1 == top * d);
    binary::lemma_nearest_exact(53, inf, top * d, 1, two_to(128));
}

/// An integer of 64 bits is at most `2^64`, and positive unless it is zero.
pub proof fn law_count_within(n: nat)
    requires
        n <= 0x1_0000_0000_0000_0000,
    ensures
        within(double::from_int(n), 64),
        !double::from_int(n)@.neg,
        0 < n ==> 0 < double::from_int(n)@.mag,
{
    let f = arith::double();
    let u = pow2(f.unit);
    reveal(double::from_int);
    reveal(convert::from_nat);
    lemma2_to64();
    lemma2_to64_rest();
    lemma_two_to(64);
    lemma_two_to(0);
    lemma_pow2_adds(64, f.unit);
    lemma_pow2_pos(f.unit);
    let top = 0x1_0000_0000_0000_0000 * u;
    lemma_mul_inequality(n as int, 0x1_0000_0000_0000_0000, u as int);
    binary::law_rounding_is_monotone(53, f.inf, n * u, top, 1);
    assert(binary::worth(53, two_to(64)) * 1 == top);
    binary::lemma_nearest_exact(53, f.inf, top, 1, two_to(64));
    if 0 < n {
        lemma_mul_inequality(1, n as int, u as int);
        binary::law_rounding_is_monotone(53, f.inf, 1 * u, n * u, 1);
        assert(binary::worth(53, two_to(0)) * 1 == 1 * u);
        binary::lemma_nearest_exact(53, f.inf, 1 * u, 1, two_to(0));
    }
}

/// Numbers of at most `2^e` are finite.
pub proof fn law_within_is_finite(a: Double, e: nat)
    requires
        within(a, e),
        e <= 1023,
    ensures
        double::finite(a),
{
    lemma_two_to_is_finite(e);
}

/// The denominator of the relative error of a rounding: one part in `2^53`.
pub const PRECISION: u64 = 0x20_0000_0000_0000;

/// Rounding to a number that is neither tiny nor infinite is off by at most one part in `2^53`.
pub proof fn law_rounding_is_close(num: nat, den: nat)
    requires
        den > 0,
        pow2(52) * den <= num,
        num < pow2(2098) * den,
    ensures
        ({
            let w = binary::worth(53, binary::nearest(53, binary::DOUBLE_INF as nat, num, den));
            &&& PRECISION * (w * den) <= (PRECISION + 1) * num
            &&& PRECISION * (w * den) >= (PRECISION - 1) * num
        }),
{
    let inf = binary::DOUBLE_INF as nat;
    lemma2_to64_rest();
    binary::lemma_worth_of_encode(53, 0x10_0000_0000_0000, 0);
    lemma2_to64();
    assert(binary::encode(53, 0x10_0000_0000_0000, 0) == 0x10_0000_0000_0000);
    assert(binary::worth(53, 0x10_0000_0000_0000) == 0x10_0000_0000_0000);
    binary::lemma_worth_of_encode(53, 0x10_0000_0000_0000, 2046);
    assert(binary::encode(53, 0x10_0000_0000_0000, 2046) == inf);
    lemma_pow2_adds(52, 2046);
    let b = binary::lemma_below_exists(53, num, den, 0x10_0000_0000_0000);
    if b >= inf {
        if b > inf {
            binary::lemma_worth_increases(53, inf, b);
        }
        lemma_mul_inequality(binary::worth(53, inf) as int, binary::worth(53, b) as int, den as int);
    }
    binary::lemma_nearest(53, inf, num, den, b);
    let (q, e) = binary::lemma_decode(53, b);
    binary::lemma_worth_of_encode(53, q, e);
    lemma_pow2_unfold(53);
    binary::lemma_worth_of_encode(53, q + 1, e);
    assert(binary::encode(53, q + 1, e) == b + 1);
    assert(q >= 0x10_0000_0000_0000) by {
        if e == 0 {
            assert(0 * binary::hidden(53) == 0);
        }
    }
    let g = pow2(e);
    let lo = binary::worth(53, b);
    let hi = binary::worth(53, b + 1);
    lemma_pow2_pos(e);
    assert(hi == lo + g) by (nonlinear_arith)
        requires
            lo == q * g,
            hi == (q + 1) * g,
    ;
    assert(0x10_0000_0000_0000 * (g * den) <= lo * den) by (nonlinear_arith)
        requires
            lo == q * g,
            q >= 0x10_0000_0000_0000,
            g > 0,
            den > 0,
    ;
    assert(hi * den == lo * den + g * den) by (nonlinear_arith)
        requires
            hi == lo + g,
    ;
    assert((lo + hi) * den == 2 * (lo * den) + g * den) by (nonlinear_arith)
        requires
            hi == lo + g,
    ;
}

/// What is worth twice as much.
pub proof fn lemma_doubling(b: nat)
    requires
        b >= 0x10_0000_0000_0000,
    ensures
        binary::worth(53, b + 0x10_0000_0000_0000) == 2 * binary::worth(53, b),
{
    lemma2_to64_rest();
    let (q, e) = binary::lemma_decode(53, b);
    assert(q >= 0x10_0000_0000_0000) by {
        if e == 0 {
            assert(0 * binary::hidden(53) == 0);
        }
    }
    binary::lemma_worth_of_encode(53, q, e);
    binary::lemma_worth_of_encode(53, q, e + 1);
    assert(binary::encode(53, q, e + 1) == b + 0x10_0000_0000_0000) by {
        let h = binary::hidden(53);
        assert((e + 1) * h == e * h + h) by (nonlinear_arith);
    }
    lemma_pow2_unfold(e + 1);
    assert(q * (2 * pow2(e)) == 2 * (q * pow2(e))) by (nonlinear_arith);
}

/// A factor is at least the quotient of a bound and the greatest other factor.
pub proof fn lemma_factor_above(x: nat, s: nat, i: nat, j: nat)
    requires
        x * s >= pow2(i + j),
        s <= pow2(j),
    ensures
        x >= pow2(i),
{
    lemma_pow2_adds(i, j);
    lemma_pow2_pos(j);
    lemma_pow2_pos(i);
    if x < pow2(i) {
        assert(x * s < pow2(i) * pow2(j)) by (nonlinear_arith)
            requires
                0 <= x < pow2(i),
                0 <= s <= pow2(j),
                pow2(j) > 0,
        ;
    }
}

/// A factor is at most the quotient of a bound and the least other factor.
pub proof fn lemma_factor_below(x: nat, s: nat, i: nat, j: nat)
    requires
        x * s <= pow2(i + j),
        s >= pow2(j),
    ensures
        x <= pow2(i),
{
    lemma_pow2_adds(i, j);
    lemma_pow2_pos(j);
    if x > pow2(i) {
        assert(x * s > pow2(i) * pow2(j)) by (nonlinear_arith)
            requires
                x > pow2(i),
                s >= pow2(j),
                pow2(j) > 0,
        ;
    }
}

/// What a positive number of single precision is worth in double precision.
pub proof fn law_widened_worth(a: Single)
    requires
        single::finite(a),
        single::less(Single { bits: single::ZERO }, a),
    ensures
        !single::widened(a)@.neg,
        0 < single::widened(a)@.mag < binary::DOUBLE_INF,
        pow2(925) <= binary::worth(53, single::widened(a)@.mag) <= pow2(1202),
{
    let inf = binary::DOUBLE_INF as nat;
    law_widened_within(a);
    lemma_worth_within(single::widened(a)@.mag, 128);
    reveal(single::widened);
    reveal(convert::widened);
    lemma2_to64();
    lemma2_to64_rest();
    let d = pow2(convert::NARROWING as nat);
    let w = binary::worth(24, a@.mag);
    arith::lemma_zero_is_worth_nothing(24);
    arith::lemma_zero_is_worth_nothing(53);
    binary::lemma_worth_increases(24, 0, a@.mag);
    lemma_mul_inequality(1, w as int, d as int);
    binary::law_rounding_is_monotone(53, inf, 1 * d, w * d, 1);
    let tiny = binary::encode(53, 0x10_0000_0000_0000, 873);
    binary::lemma_worth_of_encode(53, 0x10_0000_0000_0000, 873);
    lemma_pow2_adds(52, 873);
    lemma_pow2_pos(925);
    assert(binary::worth(53, tiny) * 1 == 1 * d);
    binary::lemma_nearest_exact(53, inf, 1 * d, 1, tiny);
    let m = single::widened(a)@.mag;
    assert(m >= tiny);
    if m > tiny {
        binary::lemma_worth_increases(53, tiny, m);
    }
}

/// The greater what is divided, the greater the quotient.
pub proof fn law_quotient_grows(a: Double, b: Double, d: Double)
    requires
        a@.mag <= b@.mag,
        double::finite(b),
        double::finite(d),
        d@.mag > 0,
    ensures
        double::quotient(a, d)@.mag <= double::quotient(b, d)@.mag <= binary::DOUBLE_INF,
{
    let f = arith::double();
    reveal(double::quotient);
    reveal(arith::quotient);
    arith::lemma_zero_is_worth_nothing(f.p);
    binary::lemma_worth_increases(f.p, 0, d@.mag);
    if a@.mag < b@.mag {
        binary::lemma_worth_increases(f.p, a@.mag, b@.mag);
    }
    let x = binary::worth(f.p, a@.mag);
    let y = binary::worth(f.p, b@.mag);
    let w = binary::worth(f.p, d@.mag);
    lemma_pow2_pos(f.unit);
    lemma_mul_inequality(x as int, y as int, pow2(f.unit) as int);
    binary::law_rounding_is_monotone(f.p, f.inf, x * pow2(f.unit), y * pow2(f.unit), w);
}

} // verus!
