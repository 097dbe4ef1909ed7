//! Results that are exact, and how close the others are.

use vstd::arithmetic::mul::*;
use vstd::arithmetic::power2::*;
use vstd::prelude::*;

use crate::ieee::arith;
use crate::ieee::arith::Layout;
use crate::ieee::arith::Signed;
use crate::ieee::binary;
use crate::ieee::convert;
use crate::ieee::double;
use crate::ieee::double::Double;
use crate::ieee::order;
use crate::ieee::single;
use crate::ieee::single::Single;

verus! {

/// What a finite number of single precision is worth, in units of `2^-149`.
pub open spec fn single_value(a: Single) -> int {
    arith::value(arith::single(), a@)
}

/// What a finite number of double precision is worth, in units of `2^-1074`.
pub open spec fn double_value(a: Double) -> int {
    arith::value(arith::double(), a@)
}

/// The absolute value of an integer.
pub open spec fn abs(v: int) -> nat {
    if v < 0 {
        (-v) as nat
    } else {
        v as nat
    }
}

/// Any significand of the format, shifted, has a magnitude.
pub proof fn lemma_magnitude(p: nat, inf: nat, m: nat, k: nat) -> (b: nat)
    requires
        p >= 1,
        m <= pow2(p),
        m * pow2(k) < binary::worth(p, inf),
    ensures
        b < inf,
        binary::worth(p, b) == m * pow2(k),
    decreases k,
{
    lemma_pow2_unfold(p);
    if k == 0 || m >= binary::hidden(p) {
        binary::lemma_worth_of_encode(p, m, k);
        let b = binary::encode(p, m, k);
        if b >= inf {
            if b > inf {
                binary::lemma_worth_increases(p, inf, b);
            }
        }
        b
    } else {
        lemma_pow2_unfold(k);
        assert((2 * m) * pow2((k - 1) as nat) == m * pow2(k)) by (nonlinear_arith)
            requires
                pow2(k) == 2 * pow2((k - 1) as nat),
        ;
        lemma_magnitude(p, inf, 2 * m, (k - 1) as nat)
    }
}

/// A rational that is worth a significand of the format, shifted, is not rounded.
proof fn lemma_rounds_to_itself(p: nat, inf: nat, num: nat, den: nat, m: nat, k: nat)
    requires
        p >= 1,
        den > 0,
        m <= pow2(p),
        m * pow2(k) < binary::worth(p, inf),
        num == (m * pow2(k)) * den,
    ensures
        binary::nearest(p, inf, num, den) < inf,
        binary::worth(p, binary::nearest(p, inf, num, den)) == m * pow2(k),
{
    let b = lemma_magnitude(p, inf, m, k);
    binary::lemma_nearest_exact(p, inf, num, den, b);
}

/// A sum that fits in a significand is exact.
pub proof fn lemma_sum_is_exact(f: Layout, x: Signed, y: Signed, m: nat, k: nat)
    requires
        f.p >= 1,
        f.inf > 0,
        x.mag < f.inf,
        y.mag < f.inf,
        m <= pow2(f.p),
        abs(arith::value(f, x) + arith::value(f, y)) == m * pow2(k),
        m * pow2(k) < binary::worth(f.p, f.inf),
    ensures
        arith::sum(f, x, y).mag < f.inf,
        arith::value(f, arith::sum(f, x, y)) == arith::value(f, x) + arith::value(f, y),
{
    reveal(arith::sum);
    arith::lemma_zero_is_worth_nothing(f.p);
    let v = arith::value(f, x) + arith::value(f, y);
    assert((m * pow2(k)) * 1 == m * pow2(k));
    lemma_rounds_to_itself(f.p, f.inf, abs(v), 1, m, k);
}

/// A product that fits in a significand is exact.
pub proof fn lemma_product_is_exact(f: Layout, x: Signed, y: Signed, m: nat, k: nat)
    requires
        f.p >= 1,
        x.mag < f.inf,
        y.mag < f.inf,
        m <= pow2(f.p),
        abs(arith::value(f, x) * arith::value(f, y)) == (m * pow2(k)) * pow2(f.unit),
        m * pow2(k) < binary::worth(f.p, f.inf),
    ensures
        arith::product(f, x, y).mag < f.inf,
        arith::value(f, arith::product(f, x, y)) * pow2(f.unit) == arith::value(f, x)
            * arith::value(f, y),
{
    reveal(arith::product);
    lemma_pow2_pos(f.unit);
    let a = binary::worth(f.p, x.mag) as int;
    let b = binary::worth(f.p, y.mag) as int;
    assert(abs(arith::value(f, x) * arith::value(f, y)) == a * b) by {
        assert((-a) * b == -(a * b) && a * (-b) == -(a * b) && (-a) * (-b) == a * b)
            by (nonlinear_arith);
        assert(a * b >= 0) by (nonlinear_arith)
            requires
                a >= 0,
                b >= 0,
        ;
    }
    lemma_rounds_to_itself(f.p, f.inf, (a * b) as nat, pow2(f.unit), m, k);
    let r = (m * pow2(k)) as int;
    let u = pow2(f.unit) as int;
    assert((-r) * u == -(r * u)) by (nonlinear_arith);
    assert((-a) * b == -(a * b) && a * (-b) == -(a * b) && (-a) * (-b) == a * b)
        by (nonlinear_arith);
}

/// Rounding is off by at most one part in `2^p`, where the result is not tiny or nothing is
/// divided.
pub proof fn lemma_rounding_is_close(p: nat, inf: nat, num: nat, den: nat)
    requires
        p >= 2,
        den > 0,
        num < binary::worth(p, inf) * den,
        den == 1 || binary::hidden(p) * den <= num,
    ensures
        ({
            let w = binary::worth(p, binary::nearest(p, inf, num, den));
            &&& pow2(p) * (w * den) <= (pow2(p) + 1) * num
            &&& pow2(p) * (w * den) >= (pow2(p) - 1) * num
            &&& binary::nearest(p, inf, num, den) <= inf
        }),
{
    let h = binary::hidden(p);
    lemma_pow2_pos((p - 1) as nat);
    lemma_pow2_unfold(p);
    binary::law_rounding_is_monotone(p, inf, num, num, den);
    if num < h * den {
        assert(den == 1);
        lemma2_to64();
        assert(num * pow2(0) == num);
        assert(num < h);
        assert(num <= pow2(p));
        lemma_rounds_to_itself(p, inf, num, 1, num, 0);
        assert(binary::worth(p, binary::nearest(p, inf, num, den)) * den == num);
        assert(pow2(p) * num <= (pow2(p) + 1) * num && pow2(p) * num >= (pow2(p) - 1) * num)
            by (nonlinear_arith)
            requires
                num >= 0,
        ;
    } else {
        binary::lemma_worth_of_encode(p, h, 0);
        lemma2_to64();
        assert(binary::encode(p, h, 0) == h) by {
            assert(0 * h == 0);
        }
        assert(h * pow2(0) == h);
        let b = binary::lemma_below_exists(p, num, den, h);
        if b >= inf {
            if b > inf {
                binary::lemma_worth_increases(p, inf, b);
            }
            lemma_mul_inequality(
                binary::worth(p, inf) as int,
                binary::worth(p, b) as int,
                den as int,
            );
        }
        binary::lemma_nearest(p, inf, num, den, b);
        let (q, e) = binary::lemma_decode(p, b);
        binary::lemma_worth_of_encode(p, q, e);
        binary::lemma_worth_of_encode(p, q + 1, e);
        assert(binary::encode(p, q + 1, e) == b + 1);
        assert(q >= h) by {
            if e == 0 {
                assert(0 * h == 0);
            }
        }
        let g = pow2(e);
        let lo = binary::worth(p, b);
        let hi = binary::worth(p, b + 1);
        lemma_pow2_pos(e);
        assert(hi == lo + g) by (nonlinear_arith)
            requires
                lo == q * g,
                hi == (q + 1) * g,
        ;
        let gd = g * den;
        let ld = lo * den;
        assert(h * gd <= ld) by (nonlinear_arith)
            requires
                gd == g * den,
                ld == lo * den,
                lo == q * g,
                q >= h,
                g > 0,
                den > 0,
        ;
        assert(hi * den == ld + gd) by (nonlinear_arith)
            requires
                hi == lo + g,
                gd == g * den,
                ld == lo * den,
        ;
        assert((lo + hi) * den == 2 * ld + gd) by (nonlinear_arith)
            requires
                hi == lo + g,
                gd == g * den,
                ld == lo * den,
        ;
        let w = binary::worth(p, binary::nearest(p, inf, num, den));
        let wd = (w * den) as int;
        assert(2 * (wd - num) <= gd && 2 * (num - wd) <= gd);
        assert(pow2(p) * wd <= (pow2(p) + 1) * num && pow2(p) * wd >= (pow2(p) - 1) * num)
            by (nonlinear_arith)
            requires
                pow2(p) == 2 * h,
                2 * (wd - num) <= gd,
                2 * (num - wd) <= gd,
                h * gd <= num,
                h > 0,
        ;
    }
}

/// A sum is off by at most one part in `2^p`.
pub proof fn lemma_sum_is_close(f: Layout, x: Signed, y: Signed)
    requires
        f.p >= 2,
        f.inf > 0,
        x.mag < f.inf,
        y.mag < f.inf,
        abs(arith::value(f, x) + arith::value(f, y)) < binary::worth(f.p, f.inf),
    ensures
        ({
            let v = arith::value(f, x) + arith::value(f, y);
            let r = arith::sum(f, x, y);
            &&& r.mag <= f.inf
            &&& pow2(f.p) * abs(arith::value(f, r) - v) <= abs(v)
            &&& v > 0 ==> arith::value(f, r) > 0 && !r.neg
            &&& v < 0 ==> arith::value(f, r) < 0 && r.neg
            &&& v == 0 ==> r.mag == 0
        }),
{
    reveal(arith::sum);
    arith::lemma_zero_is_worth_nothing(f.p);
    let v = arith::value(f, x) + arith::value(f, y);
    let n = abs(v);
    lemma_rounding_is_close(f.p, f.inf, n, 1);
    let w = binary::worth(f.p, binary::nearest(f.p, f.inf, n, 1));
    let p = pow2(f.p);
    assert(w * 1 == w);
    lemma_pow2_unfold(f.p);
    lemma_pow2_pos((f.p - 1) as nat);
    assert(n > 0 ==> w > 0) by (nonlinear_arith)
        requires
            p * w >= (p - 1) * n,
            p >= 2,
    ;
    assert(p * abs(w - n) <= n) by (nonlinear_arith)
        requires
            p * w <= (p + 1) * n,
            p * w >= (p - 1) * n,
            abs(w - n) == w - n || abs(w - n) == n - w,
    ;
    assert(p * 0 == 0);
}

/// A product is off by at most one part in `2^p`, unless it is tiny.
pub proof fn lemma_product_is_close(f: Layout, x: Signed, y: Signed)
    requires
        f.p >= 2,
        x.mag < f.inf,
        y.mag < f.inf,
        binary::hidden(f.p) * pow2(f.unit) <= abs(arith::value(f, x) * arith::value(f, y)),
        abs(arith::value(f, x) * arith::value(f, y)) < binary::worth(f.p, f.inf) * pow2(f.unit),
    ensures
        ({
            let v = arith::value(f, x) * arith::value(f, y);
            let r = arith::product(f, x, y);
            &&& r.mag <= f.inf
            &&& pow2(f.p) * abs(arith::value(f, r) * pow2(f.unit) - v) <= abs(v)
        }),
{
    reveal(arith::product);
    lemma_pow2_pos(f.unit);
    let a = binary::worth(f.p, x.mag) as int;
    let b = binary::worth(f.p, y.mag) as int;
    assert((-a) * b == -(a * b) && a * (-b) == -(a * b) && (-a) * (-b) == a * b)
        by (nonlinear_arith);
    assert(a * b >= 0) by (nonlinear_arith)
        requires
            a >= 0,
            b >= 0,
    ;
    let n = (a * b) as nat;
    let u = pow2(f.unit) as int;
    lemma_rounding_is_close(f.p, f.inf, n, pow2(f.unit));
    let w = binary::worth(f.p, binary::nearest(f.p, f.inf, n, pow2(f.unit))) as int;
    let p = pow2(f.p) as int;
    let z = w * u;
    assert((-w) * u == -z) by (nonlinear_arith)
        requires
            z == w * u,
    ;
    assert(p * abs(z - n) <= n) by (nonlinear_arith)
        requires
            p * z <= (p + 1) * n,
            p * z >= (p - 1) * n,
            abs(z - n) == z - n || abs(z - n) == n - z,
    ;
    assert(abs(-z + n) == abs(z - n));
}

/// The size of a multiple.
pub proof fn lemma_abs_times(m: int, k: int)
    requires
        k >= 0,
    ensures
        abs(m * k) == abs(m) * k,
{
    assert((-m) * k == -(m * k)) by (nonlinear_arith);
    assert(m < 0 ==> m * k <= 0) by (nonlinear_arith)
        requires
            k >= 0,
    ;
    assert(m >= 0 ==> m * k >= 0) by (nonlinear_arith)
        requires
            k >= 0,
    ;
}

/// `x` differs from `y` by at most one part in `d`.
pub open spec fn near(x: int, y: int, d: nat) -> bool {
    d * abs(x - y) <= abs(y)
}

/// What is near to what is near is near, if less so.
pub proof fn lemma_near_chains(x: int, y: int, z: int, a: nat, b: nat, d: nat)
    requires
        near(x, y, a),
        near(y, z, b),
        d > 0,
        a >= 4 * d,
        b >= 4 * d,
    ensures
        near(x, z, d),
{
    let p = abs(x - y) as int;
    let q = abs(y - z) as int;
    let m = abs(y) as int;
    let n = abs(z) as int;
    assert(m <= n + q);
    assert(abs(x - z) <= p + q);
    assert(4 * (d * p) <= m && 4 * (d * q) <= n) by (nonlinear_arith)
        requires
            a * p <= m,
            b * q <= n,
            a >= 4 * d,
            b >= 4 * d,
            p >= 0,
            q >= 0,
            d > 0,
    ;
    assert(q <= n) by (nonlinear_arith)
        requires
            4 * (d * q) <= n,
            d > 0,
            q >= 0,
    ;
    assert(d * (p + q) <= n) by (nonlinear_arith)
        requires
            4 * (d * p) <= m,
            4 * (d * q) <= n,
            m <= n + q,
            q <= n,
    ;
    let t = abs(x - z) as int;
    assert(d * t <= d * (p + q)) by (nonlinear_arith)
        requires
            t <= p + q,
            d > 0,
    ;
}

/// A coarser measure is easier to meet.
pub proof fn lemma_near_coarser(x: int, y: int, a: nat, d: nat)
    requires
        near(x, y, a),
        a >= d,
    ensures
        near(x, y, d),
{
    let p = abs(x - y);
    assert(d * p <= a * p) by (nonlinear_arith)
        requires
            a >= d,
            p >= 0,
    ;
}

/// A common factor makes no difference.
pub proof fn lemma_near_scales(x: int, y: int, c: int, d: nat)
    requires
        c > 0,
    ensures
        near(x, y, d) <==> near(x * c, y * c, d),
{
    let p = abs(x - y) as int;
    let q = abs(y) as int;
    assert(abs(x * c - y * c) == p * c) by {
        assert(x * c - y * c == (x - y) * c) by (nonlinear_arith);
        assert((x - y) * c >= 0 <==> x - y >= 0) by (nonlinear_arith)
            requires
                c > 0,
        ;
        assert(-((x - y) * c) == (y - x) * c) by (nonlinear_arith);
    }
    assert(abs(y * c) == q * c) by {
        assert(y * c >= 0 <==> y >= 0) by (nonlinear_arith)
            requires
                c > 0,
        ;
        assert(-(y * c) == (-y) * c) by (nonlinear_arith);
    }
    assert(d * (p * c) == (d * p) * c) by (nonlinear_arith);
    assert(d * p <= q <==> (d * p) * c <= q * c) by (nonlinear_arith)
        requires
            c > 0,
    ;
}

/// A common factor of either sign keeps what is near near.
pub proof fn lemma_near_times(x: int, y: int, c: int, d: nat)
    requires
        near(x, y, d),
    ensures
        near(x * c, y * c, d),
{
    if c > 0 {
        lemma_near_scales(x, y, c, d);
    } else if c < 0 {
        lemma_near_scales(x, y, -c, d);
        assert(x * (-c) == -(x * c) && y * (-c) == -(y * c)) by (nonlinear_arith);
        assert(abs(-(x * c) + y * c) == abs(x * c - y * c));
    } else {
        assert(x * c == 0 && y * c == 0) by (nonlinear_arith)
            requires
                c == 0,
        ;
        assert(d * 0 == 0);
    }
}

/// What is near is near the other way round, if less so.
pub proof fn lemma_near_turns(x: int, y: int, d: nat)
    requires
        near(x, y, d + 1),
    ensures
        near(y, x, d),
{
    let p = abs(x - y) as int;
    assert(abs(y - x) == p);
    assert(d * p <= abs(x)) by (nonlinear_arith)
        requires
            (d + 1) * p <= abs(y),
            abs(y) <= abs(x) + p,
    ;
}

/// Squares of what is near are near.
pub proof fn lemma_near_squares(x: int, y: int, d: nat)
    requires
        near(x, y, 4 * d),
        d > 0,
        x >= 0,
        y >= 0,
    ensures
        near(x * x, y * y, d),
{
    let p = abs(x - y) as int;
    assert(4 * (d * p) <= y) by (nonlinear_arith)
        requires
            (4 * d) * p <= y,
    ;
    assert(p <= y) by (nonlinear_arith)
        requires
            4 * (d * p) <= y,
            d > 0,
            p >= 0,
    ;
    assert(x * x - y * y == (x - y) * (x + y)) by (nonlinear_arith);
    assert(abs(x * x - y * y) <= p * (x + y)) by (nonlinear_arith)
        requires
            x * x - y * y == (x - y) * (x + y),
            p == x - y || p == y - x,
            p >= 0,
            x + y >= 0,
            abs(x * x - y * y) == x * x - y * y || abs(x * x - y * y) == y * y - x * x,
    ;
    assert(d * (p * (x + y)) <= y * y) by (nonlinear_arith)
        requires
            4 * (d * p) <= y,
            x + y <= 3 * y,
            x + y >= 0,
            d * p >= 0,
            y >= 0,
    ;
    assert(y * y >= 0) by (nonlinear_arith);
    let t = abs(x * x - y * y) as int;
    assert(d * t <= d * (p * (x + y))) by (nonlinear_arith)
        requires
            t <= p * (x + y),
            d > 0,
    ;
}

/// What is near to something in `2^p` parts is between half and twice it.
pub proof fn lemma_near_bounds(x: int, y: int, d: nat)
    requires
        near(x, y, d),
        d >= 2,
        y >= 0,
    ensures
        y <= 2 * x,
        2 * x <= 3 * y,
        x >= 0,
        y > 0 ==> x > 0,
{
    let p = abs(x - y) as int;
    assert(2 * p <= y) by (nonlinear_arith)
        requires
            d * p <= y,
            d >= 2,
            p >= 0,
    ;
}

/// Widening is exact.
pub proof fn lemma_widened_value(a: Single)
    requires
        single::finite(a),
    ensures
        double::finite(single::widened(a)),
        double_value(single::widened(a)) == single_value(a) * pow2(925),
        single::widened(a)@.neg == a@.neg,
        single::widened(a)@.mag == 0 <==> a@.mag == 0,
{
    let inf = binary::DOUBLE_INF as nat;
    reveal(single::widened);
    reveal(convert::widened);
    lemma2_to64();
    lemma2_to64_rest();
    let w = binary::worth(24, a@.mag);
    let (q, e) = binary::lemma_decode(24, a@.mag);
    binary::lemma_worth_of_encode(24, q, e);
    binary::lemma_worth_increases(24, a@.mag, binary::SINGLE_INF as nat);
    binary::lemma_worth_of_encode(24, 0x80_0000, 254);
    assert(binary::encode(24, 0x80_0000, 254) == binary::SINGLE_INF);
    lemma_pow2_adds(23, 254);
    lemma_pow2_adds(e, 925);
    lemma_pow2_adds(277, 925);
    lemma_mul_is_associative(q as int, pow2(e) as int, pow2(925) as int);
    lemma_pow2_pos(925);
    assert(w * pow2(925) < pow2(277) * pow2(925)) by (nonlinear_arith)
        requires
            w < pow2(277),
            pow2(925) > 0,
    ;
    lemma_top();
    lemma_pow2_strictly_increases(1202, 2098);
    lemma_pow2_strictly_increases(24, 53);
    assert((q * pow2(e + 925)) * 1 == w * pow2(925));
    lemma_rounds_to_itself(53, inf, w * pow2(925), 1, q, e + 925);
    assert((-w as int) * pow2(925) == -(w * pow2(925))) by (nonlinear_arith);
    arith::lemma_zero_is_worth_nothing(24);
    arith::lemma_zero_is_worth_nothing(53);
    assert(0 * pow2(925) == 0);
    let r = single::widened(a)@;
    assert(r == convert::widened(a@));
    if a@.mag > 0 {
        binary::lemma_worth_increases(24, 0, a@.mag);
        assert(w * pow2(925) > 0) by (nonlinear_arith)
            requires
                w > 0,
                pow2(925) > 0,
        ;
    }
    if r.mag > 0 {
        binary::lemma_worth_increases(53, 0, r.mag);
    }
}

/// What the magnitudes of infinity are worth.
pub proof fn lemma_top()
    ensures
        binary::worth(53, binary::DOUBLE_INF as nat) == pow2(2098),
        binary::worth(24, binary::SINGLE_INF as nat) == pow2(277),
        binary::hidden(53) == pow2(52),
        binary::hidden(24) == pow2(23),
{
    lemma2_to64();
    lemma2_to64_rest();
    binary::lemma_worth_of_encode(53, 0x10_0000_0000_0000, 2046);
    assert(binary::encode(53, 0x10_0000_0000_0000, 2046) == binary::DOUBLE_INF);
    lemma_pow2_adds(52, 2046);
    binary::lemma_worth_of_encode(24, 0x80_0000, 254);
    assert(binary::encode(24, 0x80_0000, 254) == binary::SINGLE_INF);
    lemma_pow2_adds(23, 254);
}

/// The square of a finite number of single precision is exact in double precision.
pub proof fn lemma_square_is_exact(a: Single)
    requires
        single::finite(a),
    ensures
        ({
            let w = single::widened(a);
            &&& double::finite(double::product(w, w))
            &&& double_value(double::product(w, w)) == (single_value(a) * single_value(a)) * pow2(
                776,
            )
            &&& !double::product(w, w)@.neg
        }),
{
    let f = arith::double();
    let w = single::widened(a);
    lemma_widened_value(a);
    lemma_top();
    lemma2_to64_rest();
    let v = single_value(a);
    let x = binary::worth(24, a@.mag);
    let (q, e) = binary::lemma_decode(24, a@.mag);
    binary::lemma_worth_of_encode(24, q, e);
    lemma2_to64();
    binary::lemma_worth_increases(24, a@.mag, binary::SINGLE_INF as nat);
    assert(v * v == x * x) by (nonlinear_arith)
        requires
            v == x || v == -x,
    ;
    lemma_pow2_adds(e, e);
    assert(x * x == (q * q) * pow2(e + e)) by (nonlinear_arith)
        requires
            x == q * pow2(e),
            pow2(e + e) == pow2(e) * pow2(e),
    ;
    lemma_pow2_adds(24, 24);
    assert(q * q <= pow2(48)) by (nonlinear_arith)
        requires
            0 <= q < pow2(24),
            pow2(48) == pow2(24) * pow2(24),
    ;
    lemma_pow2_strictly_increases(48, 53);
    let k = e + e + 776;
    lemma_pow2_adds(e + e, 776);
    lemma_mul_is_associative((q * q) as int, pow2(e + e) as int, pow2(776) as int);
    assert((q * q) * pow2(k) == (x * x) * pow2(776));
    lemma_pow2_adds(277, 277);
    lemma_pow2_adds(554, 776);
    lemma_pow2_pos(776);
    assert((x * x) * pow2(776) <= pow2(554) * pow2(776)) by (nonlinear_arith)
        requires
            0 <= x < pow2(277),
            pow2(554) == pow2(277) * pow2(277),
            pow2(776) > 0,
    ;
    lemma_pow2_strictly_increases(1330, 2098);
    let dv = double_value(w);
    lemma_pow2_adds(925, 925);
    lemma_pow2_adds(776, 1074);
    assert(dv * dv == ((v * v) * pow2(776)) * pow2(1074)) by (nonlinear_arith)
        requires
            dv == v * pow2(925),
            pow2(925) * pow2(925) == pow2(776) * pow2(1074),
    ;
    lemma_product_is_exact(f, w@, w@, q * q, k);
    reveal(double::product);
    let r = double::product(w, w);
    assert(r@ == arith::product(f, w@, w@));
    let z = double_value(r);
    lemma_pow2_pos(1074);
    assert(z == (v * v) * pow2(776)) by (nonlinear_arith)
        requires
            z * pow2(1074) == ((v * v) * pow2(776)) * pow2(1074),
            pow2(1074) > 0,
    ;
    order::law_double_square_is_not_negative(w);
}

/// A sum in single precision that fits in a significand is exact.
pub proof fn lemma_single_sum(a: Single, b: Single, m: nat, k: nat)
    requires
        single::finite(a),
        single::finite(b),
        m <= pow2(24),
        abs(single_value(a) + single_value(b)) == m * pow2(k),
        m * pow2(k) < pow2(277),
    ensures
        single::finite(single::sum(a, b)),
        single_value(single::sum(a, b)) == single_value(a) + single_value(b),
{
    let f = arith::single();
    lemma_top();
    reveal(single::sum);
    let y = b@;
    lemma_sum_is_exact(f, a@, y, m, k);
    assert(single::sum(a, b)@ == arith::sum(f, a@, y));
}

/// A difference in single precision that fits in a significand is exact.
pub proof fn lemma_single_difference(a: Single, b: Single, m: nat, k: nat)
    requires
        single::finite(a),
        single::finite(b),
        m <= pow2(24),
        abs(single_value(a) - single_value(b)) == m * pow2(k),
        m * pow2(k) < pow2(277),
    ensures
        single::finite(single::difference(a, b)),
        single_value(single::difference(a, b)) == single_value(a) - single_value(b),
{
    let f = arith::single();
    lemma_top();
    reveal(single::difference);
    let y = Signed { neg: !b@.neg, mag: b@.mag };
    lemma_sum_is_exact(f, a@, y, m, k);
    assert(single::difference(a, b)@ == arith::sum(f, a@, y));
}

/// A product in single precision that fits in a significand is exact.
pub proof fn lemma_single_product(a: Single, b: Single, m: nat, k: nat)
    requires
        single::finite(a),
        single::finite(b),
        m <= pow2(24),
        abs(single_value(a) * single_value(b)) == (m * pow2(k)) * pow2(149),
        m * pow2(k) < pow2(277),
    ensures
        single::finite(single::product(a, b)),
        single_value(single::product(a, b)) * pow2(149) == single_value(a) * single_value(b),
{
    let f = arith::single();
    lemma_top();
    reveal(single::product);
    lemma_product_is_exact(f, a@, b@, m, k);
    assert(single::product(a, b)@ == arith::product(f, a@, b@));
}

/// A sum in double precision that fits in a significand is exact.
pub proof fn lemma_double_sum(a: Double, b: Double, m: nat, k: nat)
    requires
        double::finite(a),
        double::finite(b),
        m <= pow2(53),
        abs(double_value(a) + double_value(b)) == m * pow2(k),
        m * pow2(k) < pow2(2098),
    ensures
        double::finite(double::sum(a, b)),
        double_value(double::sum(a, b)) == double_value(a) + double_value(b),
{
    let f = arith::double();
    lemma_top();
    reveal(double::sum);
    let y = b@;
    lemma_sum_is_exact(f, a@, y, m, k);
    assert(double::sum(a, b)@ == arith::sum(f, a@, y));
}

/// A difference in double precision that fits in a significand is exact.
pub proof fn lemma_double_difference(a: Double, b: Double, m: nat, k: nat)
    requires
        double::finite(a),
        double::finite(b),
        m <= pow2(53),
        abs(double_value(a) - double_value(b)) == m * pow2(k),
        m * pow2(k) < pow2(2098),
    ensures
        double::finite(double::difference(a, b)),
        double_value(double::difference(a, b)) == double_value(a) - double_value(b),
{
    let f = arith::double();
    lemma_top();
    reveal(double::difference);
    let y = Signed { neg: !b@.neg, mag: b@.mag };
    lemma_sum_is_exact(f, a@, y, m, k);
    assert(double::difference(a, b)@ == arith::sum(f, a@, y));
}

/// A product in double precision that fits in a significand is exact.
pub proof fn lemma_double_product(a: Double, b: Double, m: nat, k: nat)
    requires
        double::finite(a),
        double::finite(b),
        m <= pow2(53),
        abs(double_value(a) * double_value(b)) == (m * pow2(k)) * pow2(1074),
        m * pow2(k) < pow2(2098),
    ensures
        double::finite(double::product(a, b)),
        double_value(double::product(a, b)) * pow2(1074) == double_value(a) * double_value(b),
{
    let f = arith::double();
    lemma_top();
    reveal(double::product);
    lemma_product_is_exact(f, a@, b@, m, k);
    assert(double::product(a, b)@ == arith::product(f, a@, b@));
}

/// Narrowing a number that fits in a significand of single precision is exact.
pub proof fn lemma_narrowed_is_exact(a: Double, m: nat, k: nat)
    requires
        double::finite(a),
        m <= pow2(24),
        abs(double_value(a)) == (m * pow2(k)) * pow2(925),
        m * pow2(k) < pow2(277),
    ensures
        single::finite(double::narrowed(a)),
        single_value(double::narrowed(a)) * pow2(925) == double_value(a),
        double::narrowed(a)@.neg == a@.neg,
{
    reveal(double::narrowed);
    reveal(convert::narrowed);
    lemma_top();
    lemma2_to64();
    lemma_pow2_pos(925);
    let inf = binary::SINGLE_INF as nat;
    let w = binary::worth(53, a@.mag);
    lemma_rounds_to_itself(24, inf, w, pow2(925), m, k);
    assert(double::narrowed(a)@ == convert::narrowed(a@));
    let r = (m * pow2(k)) as int;
    let c = pow2(925) as int;
    assert((-r) * c == -(r * c)) by (nonlinear_arith);
}

/// The number is `m` steps of sixteen-bit audio: `m * 2^-15`, between minus one and one.
pub open spec fn sixteen_bit(a: Single, m: int) -> bool {
    &&& single::finite(a)
    &&& -0x8000 <= m <= 0x8000
    &&& single_value(a) == m * pow2(134)
}

/// Whole numbers up to `2^24` are exact in single precision.
pub proof fn lemma_single_count(n: nat)
    requires
        n <= 0x100_0000,
    ensures
        single::finite(single::from_int(n)),
        single_value(single::from_int(n)) == n * pow2(149),
        !single::from_int(n)@.neg,
        n > 0 ==> single::from_int(n)@.mag > 0,
{
    let inf = binary::SINGLE_INF as nat;
    let u = pow2(149);
    reveal(single::from_int);
    reveal(convert::from_nat);
    lemma2_to64();
    lemma_top();
    lemma_pow2_pos(149);
    lemma_pow2_adds(24, 149);
    lemma_pow2_strictly_increases(173, 277);
    assert(n * u <= pow2(173)) by (nonlinear_arith)
        requires
            n <= 0x100_0000,
            pow2(173) == 0x100_0000 * u,
            u > 0,
    ;
    assert(n * u == (n * u) * 1);
    lemma_rounds_to_itself(24, inf, n * u, 1, n, 149);
    assert(single::from_int(n)@ == convert::from_nat(arith::single(), n));
    arith::lemma_zero_is_worth_nothing(24);
    assert(n > 0 ==> n * u > 0) by (nonlinear_arith)
        requires
            u > 0,
    ;
}

} // verus!
