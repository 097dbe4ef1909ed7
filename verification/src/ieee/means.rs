//! How close a root of a mean of squares is to the exact one.

use vstd::arithmetic::mul::*;
use vstd::arithmetic::power2::*;
use vstd::prelude::*;

use crate::ieee::arith;
use crate::ieee::binary;
use crate::ieee::convert;
use crate::ieee::double;
use crate::ieee::double::Double;
use crate::ieee::exact;
use crate::ieee::exact::double_value;
use crate::ieee::exact::near;
use crate::ieee::exact::single_value;
use crate::ieee::identities;
use crate::ieee::order;
use crate::ieee::root;
use crate::ieee::single;
use crate::ieee::single::Single;

verus! {

/// What lies within a part of another in both directions is near to it.
pub proof fn lemma_near_from_parts(x: int, y: int, d: nat)
    requires
        y >= 0,
        d * x <= (d + 1) * y,
        d * x >= (d - 1) * y,
    ensures
        near(x, y, d),
{
    let p = exact::abs(x - y) as int;
    assert(d * p <= y) by (nonlinear_arith)
        requires
            d * x <= (d + 1) * y,
            d * x >= (d - 1) * y,
            p == x - y || p == y - x,
    ;
}

/// A quotient by a whole number, times that number, is near to what was divided.
pub proof fn lemma_mean_is_close(a: Double, n: nat)
    requires
        double::finite(a),
        !a@.neg,
        0 < n < 0x20_0000_0000_0000,
        pow2(52) * n <= double_value(a),
    ensures
        ({
            let q = double::quotient(a, double::from_int(n));
            &&& q@.mag < binary::DOUBLE_INF
            &&& !q@.neg
            &&& near(double_value(q) * n, double_value(a), pow2(53))
        }),
{
    let f = arith::double();
    let d = double::from_int(n);
    let u = pow2(1074);
    let s = double_value(a);
    identities::law_whole_numbers_are_exact(n);
    reveal(double::quotient);
    reveal(arith::quotient);
    exact::lemma_top();
    lemma_pow2_pos(1074);
    lemma_pow2_pos(52);
    let w = binary::worth(53, d@.mag);
    assert(w == n * u);
    assert(w > 0) by (nonlinear_arith)
        requires
            w == n * u,
            n > 0,
            u > 0,
    ;
    binary::lemma_worth_increases(53, a@.mag, f.inf);
    let num = (s * u) as nat;
    assert(pow2(52) * w <= num && num < pow2(2098) * w) by (nonlinear_arith)
        requires
            w == n * u,
            num == s * u,
            pow2(52) * n <= s,
            0 <= s < pow2(2098),
            n >= 1,
            u > 0,
    ;
    exact::lemma_rounding_is_close(53, f.inf, num, w);
    let b = binary::nearest(53, f.inf, num, w);
    let q = double::quotient(a, d);
    assert(q@.mag == b && !q@.neg);
    let m = binary::worth(53, b);
    lemma_near_from_parts((m * w) as int, num as int, pow2(53));
    assert(m * w == (m * n) * u) by (nonlinear_arith)
        requires
            w == n * u,
    ;
    exact::lemma_near_scales((m * n) as int, s, u as int, pow2(53));
    assert(b < f.inf) by {
        // Rounding reaches no further than the number itself.
        assert(binary::worth(53, a@.mag) * 1 == s);
        binary::lemma_nearest_exact(53, f.inf, (s * w) as nat, w, a@.mag);
        assert(num <= s * w) by (nonlinear_arith)
            requires
                num == s * u,
                w == n * u,
                n >= 1,
                s >= 0,
                u > 0,
        ;
        binary::law_rounding_is_monotone(53, f.inf, num, (s * w) as nat, w);
    }
}

/// The square of a root is near to what it is the root of.
pub proof fn lemma_root_squared(a: Double)
    requires
        double::finite(a),
        !a@.neg,
        double_value(a) >= pow2(100),
    ensures
        ({
            let r = double::square_root(a);
            &&& r@.mag <= binary::DOUBLE_INF
            &&& !r@.neg
            &&& near(
                double_value(r) * double_value(r),
                double_value(a) * pow2(1074),
                pow2(50),
            )
        }),
{
    reveal(double::square_root);
    reveal(root::root);
    root::lemma_root_is_bounded(a@);
    exact::lemma_top();
    arith::lemma_zero_is_worth_nothing(53);
    lemma_pow2_pos(100);
    let m = double_value(a);
    let u = pow2(1074);
    let n = (m * u) as nat;
    binary::lemma_worth_increases(53, a@.mag, binary::DOUBLE_INF as nat);
    lemma_pow2_pos(1074);
    lemma_pow2_pos(2098);
    lemma_pow2_strictly_increases(4, 1074);
    lemma_pow2_adds(100, 4);
    lemma_pow2_strictly_increases(1074, 2098);
    assert(pow2(104) <= n && n < pow2(2098) * pow2(2098)) by (nonlinear_arith)
        requires
            n == m * u,
            pow2(100) <= m < pow2(2098),
            pow2(104) == pow2(100) * pow2(4),
            pow2(4) <= u <= pow2(2098),
            pow2(100) > 0,
            pow2(2098) > 0,
    ;
    root::lemma_root_is_close(n);
    let r = double::square_root(a);
    assert(r@ == root::root(a@));
    assert(r@.mag == root::nearest_root(n));
    let w = double_value(r);
    lemma_near_from_parts(w * w, n as int, pow2(50));
}

/// Narrowing is off by at most one part in `2^24`, unless the result is tiny.
pub proof fn lemma_narrowed_is_close(a: Double)
    requires
        double::finite(a),
        pow2(948) <= exact::abs(double_value(a)) < pow2(1202),
    ensures
        ({
            let r = double::narrowed(a);
            &&& r@.mag <= binary::SINGLE_INF
            &&& r@.neg == a@.neg
            &&& near(single_value(r) * pow2(925), double_value(a), pow2(24))
        }),
{
    reveal(double::narrowed);
    reveal(convert::narrowed);
    exact::lemma_top();
    lemma2_to64();
    lemma_pow2_adds(23, 925);
    lemma_pow2_adds(277, 925);
    lemma_pow2_pos(925);
    let m = binary::worth(53, a@.mag);
    let inf = binary::SINGLE_INF as nat;
    exact::lemma_rounding_is_close(24, inf, m, pow2(925));
    let b = binary::nearest(24, inf, m, pow2(925));
    let w = binary::worth(24, b) as int;
    assert(double::narrowed(a)@ == convert::narrowed(a@));
    lemma_near_from_parts(w * pow2(925), m as int, pow2(24));
    assert((-w) * pow2(925) == -(w * pow2(925))) by (nonlinear_arith);
}

/// A number whose square is at least that of another is not below it.
pub proof fn lemma_root_order(x: int, y: int)
    requires
        x >= 0,
        y >= 0,
        x * x >= y * y,
    ensures
        x >= y,
{
    if x < y {
        assert(x * x < y * y) by (nonlinear_arith)
            requires
                0 <= x < y,
        ;
    }
}

/// The root of a mean: where the sum of squares is near to the exact one, `t` units of `2^-298`,
/// the square of the result times the count is near to it, too.
pub proof fn lemma_root_mean_is_close(sumsq: Double, n: nat, t: nat)
    requires
        double::finite(sumsq),
        !sumsq@.neg,
        0 < n < 0x20_0000_0000_0000,
        near(double_value(sumsq), (t * pow2(776)) as int, pow2(32)),
        n * pow2(50) <= t <= n * pow2(498),
    ensures
        ({
            let r = double::narrowed(
                double::square_root(double::quotient(sumsq, double::from_int(n))),
            );
            &&& single::finite(r)
            &&& !r@.neg
            &&& near(single_value(r) * single_value(r) * n, t as int, pow2(18))
        }),
{
    let u = pow2(1074);
    let s = double_value(sumsq);
    let e = (t * pow2(776)) as int;
    lemma2_to64();
    lemma2_to64_rest();
    lemma_pow2_pos(776);
    lemma_pow2_pos(1074);
    exact::lemma_near_bounds(s, e, pow2(32));
    lemma_pow2_adds(50, 776);
    lemma_pow2_adds(498, 776);
    lemma_pow2_unfold(826);
    lemma_pow2_unfold(825);
    assert(n * pow2(826) <= e <= n * pow2(1274)) by (nonlinear_arith)
        requires
            e == t * pow2(776),
            n * pow2(50) <= t <= n * pow2(498),
            pow2(826) == pow2(50) * pow2(776),
            pow2(1274) == pow2(498) * pow2(776),
            pow2(776) > 0,
    ;
    assert(n * pow2(825) <= s <= n * (2 * pow2(1274))) by (nonlinear_arith)
        requires
            n * pow2(826) <= e <= n * pow2(1274),
            pow2(826) == 2 * pow2(825),
            e <= 2 * s,
            2 * s <= 3 * e,
            n >= 0,
            pow2(1274) >= 0,
    ;
    lemma_pow2_strictly_increases(52, 825);
    assert(pow2(52) * n <= s) by (nonlinear_arith)
        requires
            n * pow2(825) <= s,
            pow2(52) <= pow2(825),
            n >= 0,
    ;
    lemma_mean_is_close(sumsq, n);
    let mean = double::quotient(sumsq, double::from_int(n));
    let m = double_value(mean);
    exact::lemma_near_bounds(m * n, s, pow2(53));
    lemma_pow2_unfold(1275);
    lemma_pow2_unfold(1276);
    assert(pow2(824) <= m <= pow2(1276)) by (nonlinear_arith)
        requires
            n * pow2(825) <= s <= n * (2 * pow2(1274)),
            pow2(825) == 2 * pow2(824),
            s <= 2 * (m * n),
            2 * (m * n) <= 3 * s,
            pow2(1276) == 4 * pow2(1274),
            n > 0,
            pow2(1274) >= 0,
    ;
    lemma_pow2_strictly_increases(100, 824);
    lemma_root_squared(mean);
    let root = double::square_root(mean);
    let r = double_value(root);
    let rr = r * r;
    let mu = m * u;
    assert(mu >= 0) by (nonlinear_arith)
        requires
            mu == m * u,
            m >= 0,
            u >= 0,
    ;
    exact::lemma_near_bounds(rr, mu, pow2(50));
    lemma_pow2_adds(824, 1074);
    lemma_pow2_adds(1276, 1074);
    lemma_pow2_adds(948, 948);
    lemma_pow2_adds(1201, 1201);
    lemma_pow2_unfold(1898);
    lemma_pow2_unfold(1897);
    lemma_pow2_unfold(2351);
    lemma_pow2_strictly_increases(2351, 2402);
    assert(pow2(1898) <= mu <= pow2(2350)) by (nonlinear_arith)
        requires
            mu == m * u,
            pow2(824) <= m <= pow2(1276),
            pow2(1898) == pow2(824) * u,
            pow2(2350) == pow2(1276) * u,
            u > 0,
    ;
    lemma_root_order(r, pow2(948) as int);
    lemma_root_order(pow2(1201) as int, r);
    lemma_pow2_strictly_increases(1201, 1202);
    lemma_pow2_pos(948);
    assert(double::finite(root)) by {
        exact::lemma_top();
        lemma_pow2_strictly_increases(1202, 2098);
    }
    lemma_narrowed_is_close(root);
    let out = double::narrowed(root);
    let v = single_value(out);
    let c = pow2(925) as int;
    lemma_pow2_pos(925);
    // The squares.
    let x = v * c;
    assert(x >= 0) by {
        exact::lemma_near_bounds(x, r, pow2(24));
    }
    exact::lemma_near_bounds(x, r, pow2(24));
    assert(pow2(24) == 4 * 0x40_0000);
    exact::lemma_near_squares(x, r, 0x40_0000);
    exact::lemma_near_chains(x * x, rr, mu, 0x40_0000, pow2(50), 0x10_0000);
    lemma_pow2_adds(925, 925);
    lemma_pow2_adds(776, 1074);
    let cc = pow2(1850) as int;
    assert(x * x == (v * v) * cc) by (nonlinear_arith)
        requires
            x == v * c,
            cc == c * c,
    ;
    // Times the count.
    exact::lemma_near_scales((v * v) * cc, mu, n as int, 0x10_0000);
    exact::lemma_near_chains(m * n, s, e, pow2(53), pow2(32), 0x4000_0000);
    exact::lemma_near_scales(m * n, e, u as int, 0x4000_0000);
    assert(mu * n == (m * n) * u) by (nonlinear_arith)
        requires
            mu == m * u,
    ;
    assert(e * u == t * cc) by (nonlinear_arith)
        requires
            e == t * pow2(776),
            cc == pow2(776) * u,
    ;
    exact::lemma_near_chains((v * v) * cc * n, mu * n, e * u, 0x10_0000, 0x4000_0000, 0x4_0000);
    assert((v * v) * cc * n == (v * v * n) * cc) by (nonlinear_arith);
    lemma_pow2_pos(1850);
    exact::lemma_near_scales(v * v * n, t as int, cc, 0x4_0000);
    assert(single::finite(out)) by {
        exact::lemma_top();
        if out@.mag >= binary::SINGLE_INF {
            lemma_pow2_adds(277, 925);
            lemma_pow2_unfold(1202);
            lemma_pow2_strictly_increases(1176, 1201);
            lemma_pow2_adds(1176, 1176);
            lemma_pow2_strictly_increases(2351, 2352);
            lemma_root_order(pow2(1176) as int, r);
            lemma_pow2_unfold(1177);
            lemma_pow2_strictly_increases(1177, 1202);
        }
    }
}

/// A quotient by a positive number, times that number, is near to what was divided.
pub proof fn lemma_quotient_is_close(a: Double, d: Double)
    requires
        double::finite(a),
        double::finite(d),
        !d@.neg,
        d@.mag > 0,
        pow2(52) * double_value(d) <= exact::abs(double_value(a)) * pow2(1074),
        exact::abs(double_value(a)) * pow2(1074) < pow2(2098) * double_value(d),
    ensures
        ({
            let q = double::quotient(a, d);
            &&& q@.mag <= binary::DOUBLE_INF
            &&& q@.neg == a@.neg
            &&& near(
                double_value(q) * double_value(d),
                double_value(a) * pow2(1074),
                pow2(53),
            )
        }),
{
    let f = arith::double();
    let u = pow2(1074) as int;
    reveal(double::quotient);
    reveal(arith::quotient);
    exact::lemma_top();
    arith::lemma_zero_is_worth_nothing(53);
    binary::lemma_worth_increases(53, 0, d@.mag);
    let x = binary::worth(53, a@.mag) as int;
    let w = binary::worth(53, d@.mag);
    let num = (x * u) as nat;
    exact::lemma_rounding_is_close(53, f.inf, num, w);
    let b = binary::nearest(53, f.inf, num, w);
    let m = binary::worth(53, b) as int;
    let q = double::quotient(a, d);
    assert(q@.mag == b && q@.neg == a@.neg);
    lemma_near_from_parts(m * w, num as int, pow2(53));
    assert((-m) * w == -(m * w) && (-x) * u == -(x * u)) by (nonlinear_arith);
}

/// A product that is neither tiny nor infinite is near to the exact one.
pub proof fn lemma_double_product_is_close(a: Double, b: Double)
    requires
        double::finite(a),
        double::finite(b),
        pow2(1126) <= exact::abs(double_value(a) * double_value(b)) < pow2(3172),
    ensures
        ({
            let r = double::product(a, b);
            &&& r@.mag <= binary::DOUBLE_INF
            &&& near(
                double_value(r) * pow2(1074),
                double_value(a) * double_value(b),
                pow2(53),
            )
        }),
{
    let f = arith::double();
    exact::lemma_top();
    lemma_pow2_adds(52, 1074);
    lemma_pow2_adds(2098, 1074);
    reveal(double::product);
    exact::lemma_product_is_close(f, a@, b@);
    assert(double::product(a, b)@ == arith::product(f, a@, b@));
}

/// A square is near to the exact one, but for at most one unit.
pub proof fn lemma_square_is_nearly_exact(a: Double)
    requires
        double::finite(a),
        exact::abs(double_value(a)) <= pow2(1500),
    ensures
        ({
            let r = double::product(a, a);
            let v = double_value(a) * double_value(a);
            &&& double::finite(r)
            &&& !r@.neg
            &&& pow2(53) * exact::abs(double_value(r) * pow2(1074) - v) <= v + pow2(1127)
        }),
{
    let f = arith::double();
    let x = binary::worth(53, a@.mag);
    let v = double_value(a) * double_value(a);
    assert(v == x * x) by (nonlinear_arith)
        requires
            v == double_value(a) * double_value(a),
            double_value(a) == x || double_value(a) == -x,
    ;
    order::law_double_square_is_not_negative(a);
    exact::lemma_top();
    lemma_pow2_adds(1500, 1500);
    lemma_pow2_strictly_increases(3000, 3172);
    assert(v <= pow2(3000)) by (nonlinear_arith)
        requires
            v == x * x,
            0 <= x <= pow2(1500),
            pow2(3000) == pow2(1500) * pow2(1500),
    ;
    assert(v >= 0) by (nonlinear_arith)
        requires
            v == x * x,
    ;
    let u = pow2(1074);
    lemma_pow2_pos(1074);
    lemma_pow2_adds(52, 1074);
    lemma_pow2_adds(53, 1074);
    reveal(double::product);
    reveal(arith::product);
    let r = double::product(a, a);
    if v >= pow2(1126) {
        lemma_double_product_is_close(a, a);
        let z = double_value(r) * u;
        lemma2_to64_rest();
        exact::lemma_near_bounds(z, v, pow2(53));
        assert(double::finite(r)) by {
            if r@.mag >= f.inf {
                lemma_pow2_adds(2098, 1074);
                lemma_pow2_unfold(3001);
                lemma_pow2_strictly_increases(3001, 3172);
            }
        }
    } else {
        // Below the least normal number the result is off by at most one unit.
        arith::lemma_zero_is_worth_nothing(53);
        assert(binary::worth(53, 0) * u == 0) by (nonlinear_arith)
            requires
                binary::worth(53, 0) == 0,
        ;
        let b = binary::lemma_below_exists(53, v as nat, u, 0);
        lemma_tiny(v as nat, u, b);
        let w = binary::worth(53, binary::nearest(53, f.inf, v as nat, u));
        assert(r@.mag == binary::nearest(53, f.inf, v as nat, u));
        let e = exact::abs(w * u - v) as int;
        assert(pow2(53) * e <= pow2(53) * u) by (nonlinear_arith)
            requires
                e <= u,
                pow2(53) >= 0,
        ;
    }
}

/// Rounding to a number below the least normal one is off by at most one unit.
proof fn lemma_tiny(num: nat, den: nat, b: nat)
    requires
        den > 0,
        binary::is_below(53, num, den, b),
        num < pow2(52) * den,
    ensures
        ({
            let r = binary::nearest(53, binary::DOUBLE_INF as nat, num, den);
            &&& r < binary::DOUBLE_INF
            &&& exact::abs(binary::worth(53, r) * den - num) <= den
        }),
{
    let inf = binary::DOUBLE_INF as nat;
    lemma2_to64();
    lemma2_to64_rest();
    let h = 0x10_0000_0000_0000nat;
    binary::lemma_worth_of_encode(53, h, 0);
    assert(binary::encode(53, h, 0) == h);
    assert(b < h) by {
        if b >= h {
            if b > h {
                binary::lemma_worth_increases(53, h, b);
            }
            lemma_mul_inequality(h as int, binary::worth(53, b) as int, den as int);
        }
    }
    binary::lemma_worth_of_encode(53, b, 0);
    binary::lemma_worth_of_encode(53, b + 1, 0);
    assert(binary::encode(53, b, 0) == b && binary::encode(53, b + 1, 0) == b + 1);
    binary::lemma_nearest(53, inf, num, den, b);
    assert((b + 1) * den == b * den + den) by (nonlinear_arith);
}

/// A sum in single precision is near to the exact one.
pub proof fn lemma_single_sum_is_close(a: Single, b: Single)
    requires
        single::finite(a),
        single::finite(b),
        exact::abs(single_value(a) + single_value(b)) < pow2(277),
    ensures
        ({
            let r = single::sum(a, b);
            let v = single_value(a) + single_value(b);
            &&& r@.mag <= binary::SINGLE_INF
            &&& near(single_value(r), v, pow2(24))
            &&& v > 0 ==> !r@.neg
            &&& v == 0 ==> r@.mag == 0
        }),
{
    let f = arith::single();
    exact::lemma_top();
    reveal(single::sum);
    exact::lemma_sum_is_close(f, a@, b@);
    assert(single::sum(a, b)@ == arith::sum(f, a@, b@));
}

/// A difference in single precision is near to the exact one.
pub proof fn lemma_single_difference_is_close(a: Single, b: Single)
    requires
        single::finite(a),
        single::finite(b),
        exact::abs(single_value(a) - single_value(b)) < pow2(277),
    ensures
        ({
            let r = single::difference(a, b);
            let v = single_value(a) - single_value(b);
            &&& r@.mag <= binary::SINGLE_INF
            &&& near(single_value(r), v, pow2(24))
            &&& v > 0 ==> !r@.neg
            &&& v == 0 ==> r@.mag == 0
        }),
{
    let f = arith::single();
    let y = arith::Signed { neg: !b@.neg, mag: b@.mag };
    exact::lemma_top();
    reveal(single::difference);
    exact::lemma_sum_is_close(f, a@, y);
    assert(single::difference(a, b)@ == arith::sum(f, a@, y));
}

/// A product in single precision that is neither tiny nor infinite is near to the exact one.
pub proof fn lemma_single_product_is_close(a: Single, b: Single)
    requires
        single::finite(a),
        single::finite(b),
        pow2(172) <= exact::abs(single_value(a) * single_value(b)) < pow2(426),
    ensures
        ({
            let r = single::product(a, b);
            &&& r@.mag <= binary::SINGLE_INF
            &&& r@.neg == (a@.neg != b@.neg)
            &&& near(
                single_value(r) * pow2(149),
                single_value(a) * single_value(b),
                pow2(24),
            )
        }),
{
    let f = arith::single();
    exact::lemma_top();
    lemma_pow2_adds(23, 149);
    lemma_pow2_adds(277, 149);
    reveal(single::product);
    reveal(arith::product);
    exact::lemma_product_is_close(f, a@, b@);
    assert(single::product(a, b)@ == arith::product(f, a@, b@));
}

/// A quotient in single precision by a positive number, times that number, is near to what was
/// divided.
pub proof fn lemma_single_quotient_is_close(a: Single, d: Single)
    requires
        single::finite(a),
        single::finite(d),
        !d@.neg,
        d@.mag > 0,
        pow2(23) * single_value(d) <= exact::abs(single_value(a)) * pow2(149),
        exact::abs(single_value(a)) * pow2(149) < pow2(277) * single_value(d),
    ensures
        ({
            let q = single::quotient(a, d);
            &&& q@.mag <= binary::SINGLE_INF
            &&& q@.neg == a@.neg
            &&& near(
                single_value(q) * single_value(d),
                single_value(a) * pow2(149),
                pow2(24),
            )
        }),
{
    let f = arith::single();
    let u = pow2(149) as int;
    reveal(single::quotient);
    reveal(arith::quotient);
    exact::lemma_top();
    arith::lemma_zero_is_worth_nothing(24);
    binary::lemma_worth_increases(24, 0, d@.mag);
    let x = binary::worth(24, a@.mag) as int;
    let w = binary::worth(24, d@.mag);
    let num = (x * u) as nat;
    exact::lemma_rounding_is_close(24, f.inf, num, w);
    let b = binary::nearest(24, f.inf, num, w);
    let m = binary::worth(24, b) as int;
    let q = single::quotient(a, d);
    assert(q@.mag == b && q@.neg == a@.neg);
    lemma_near_from_parts(m * w, num as int, pow2(24));
    assert((-m) * w == -(m * w) && (-x) * u == -(x * u)) by (nonlinear_arith);
}

} // verus!
