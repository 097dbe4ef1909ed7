//! Results are the nearest numbers there are.

use vstd::arithmetic::div_mod::*;
use vstd::arithmetic::mul::*;
use vstd::arithmetic::power2::*;
use vstd::prelude::*;

use crate::ieee::arith;
use crate::ieee::arith::Layout;
use crate::ieee::arith::Signed;
use crate::ieee::binary;
use crate::ieee::convert;
use crate::ieee::double;
use crate::ieee::double::Double;
use crate::ieee::exact::abs;
use crate::ieee::exact::double_value;
use crate::ieee::exact::single_value;
use crate::ieee::single;
use crate::ieee::single::Single;

verus! {

/// No magnitude is nearer to a rational than the one that it is rounded to, and where another one is
/// just as near, the one that it is rounded to is even.
pub proof fn law_nothing_is_nearer(p: nat, inf: nat, num: nat, den: nat, c: nat)
    requires
        p >= 1,
        den > 0,
        num < binary::worth(p, inf) * den,
    ensures
        ({
            let r = binary::nearest(p, inf, num, den);
            let off = abs(binary::worth(p, r) * den - num);
            &&& off <= abs(binary::worth(p, c) * den - num)
            &&& off == abs(binary::worth(p, c) * den - num) && c != r ==> r % 2 == 0
        }),
{
    arith::lemma_zero_is_worth_nothing(p);
    assert(0 * den == 0) by (nonlinear_arith);
    let b = binary::lemma_below_exists(p, num, den, 0);
    assert(b < inf) by {
        if b >= inf {
            if b > inf {
                binary::lemma_worth_increases(p, inf, b);
            }
            lemma_mul_inequality(
                binary::worth(p, inf) as int,
                binary::worth(p, b) as int,
                den as int,
            );
        }
    }
    binary::lemma_nearest(p, inf, num, den, b);
    let lo = binary::worth(p, b) * den;
    let hi = binary::worth(p, b + 1) * den;
    let x = binary::worth(p, c) * den;
    lemma_mul_is_distributive_add_other_way(
        den as int,
        binary::worth(p, b) as int,
        binary::worth(p, b + 1) as int,
    );
    if c < b {
        binary::lemma_worth_increases(p, c, b);
        lemma_mul_strict_inequality(
            binary::worth(p, c) as int,
            binary::worth(p, b) as int,
            den as int,
        );
    }
    if c > b + 1 {
        binary::lemma_worth_increases(p, b + 1, c);
        lemma_mul_strict_inequality(
            binary::worth(p, b + 1) as int,
            binary::worth(p, c) as int,
            den as int,
        );
    }
    assert(c < b ==> x < lo);
    assert(c > b + 1 ==> x > hi);
}

/// The same of a rational with a sign, among numbers of either sign.
proof fn lemma_nothing_signed_is_nearer(p: nat, inf: nat, v: int, den: nat, w: int, c: nat, neg: bool)
    requires
        p >= 1,
        den > 0,
        abs(v) < binary::worth(p, inf) * den,
        ({
            let r = binary::worth(p, binary::nearest(p, inf, abs(v), den)) as int;
            v > 0 && w == r || v < 0 && w == -r || v == 0 && (w == r || w == -r)
        }),
    ensures
        abs(w * den - v) <= abs(
            (if neg {
                -(binary::worth(p, c) as int)
            } else {
                binary::worth(p, c) as int
            }) * den - v,
        ),
{
    let n = abs(v);
    let r = binary::worth(p, binary::nearest(p, inf, n, den)) as int;
    let x = binary::worth(p, c) as int;
    law_nothing_is_nearer(p, inf, n, den, c);
    law_nothing_is_nearer(p, inf, n, den, 0);
    arith::lemma_zero_is_worth_nothing(p);
    assert(0 * den == 0) by (nonlinear_arith);
    assert((-r) * den == -(r * den) && (-x) * den == -(x * den)) by (nonlinear_arith);
    assert(x * den >= 0) by (nonlinear_arith)
        requires
            x >= 0,
            den > 0,
    ;
}

/// No number is nearer to the exact sum than the sum, where that is finite; the same holds of products
/// and of quotients, each measured by what it would have to be.
proof fn lemma_operations_are_nearest(f: Layout, x: Signed, y: Signed, c: Signed)
    requires
        f.p >= 2,
        f.inf > 0,
        x.mag < f.inf,
        y.mag < f.inf,
    ensures
        ({
            let r = arith::sum(f, x, y);
            let v = arith::value(f, x) + arith::value(f, y);
            r.mag < f.inf ==> abs(arith::value(f, r) - v) <= abs(arith::value(f, c) - v)
        }),
        ({
            let r = arith::product(f, x, y);
            let v = arith::value(f, x) * arith::value(f, y);
            r.mag < f.inf ==> abs(arith::value(f, r) * pow2(f.unit) - v) <= abs(
                arith::value(f, c) * pow2(f.unit) - v,
            )
        }),
        ({
            let r = arith::quotient(f, x, y);
            let v = arith::value(f, x) * pow2(f.unit);
            let d = arith::value(f, y);
            r.mag < f.inf && d > 0 ==> abs(arith::value(f, r) * d - v) <= abs(
                arith::value(f, c) * d - v,
            )
        }),
{
    reveal(arith::sum);
    reveal(arith::product);
    reveal(arith::quotient);
    reveal(binary::nearest);
    arith::lemma_zero_is_worth_nothing(f.p);
    lemma_pow2_pos(f.unit);
    let a = binary::worth(f.p, x.mag) as int;
    let b = binary::worth(f.p, y.mag) as int;
    let u = pow2(f.unit) as int;
    // Sums.
    let s = arith::sum(f, x, y);
    if s.mag < f.inf {
        let v = arith::value(f, x) + arith::value(f, y);
        let n = abs(v);
        if v == 0 {
            assert(arith::value(f, s) == 0);
        } else {
            assert(s.mag == binary::nearest(f.p, f.inf, n, 1));
            assert(abs(v) < binary::worth(f.p, f.inf) * 1);
            lemma_nothing_signed_is_nearer(
                f.p,
                f.inf,
                v,
                1,
                arith::value(f, s),
                c.mag,
                c.neg,
            );
        }
    }
    // Products.
    let t = arith::product(f, x, y);
    if t.mag < f.inf {
        let v = arith::value(f, x) * arith::value(f, y);
        assert((-a) * b == -(a * b) && a * (-b) == -(a * b) && (-a) * (-b) == a * b)
            by (nonlinear_arith);
        assert(a * b >= 0) by (nonlinear_arith)
            requires
                a >= 0,
                b >= 0,
        ;
        assert(abs(v) == a * b);
        assert(t.mag == binary::nearest(f.p, f.inf, abs(v), pow2(f.unit)));
        if a * b == 0 && t.mag > 0 {
            binary::lemma_nearest_exact(f.p, f.inf, 0, pow2(f.unit), 0);
        }
        lemma_nothing_signed_is_nearer(
            f.p,
            f.inf,
            v,
            pow2(f.unit),
            arith::value(f, t),
            c.mag,
            c.neg,
        );
    }
    // Quotients.
    let q = arith::quotient(f, x, y);
    if q.mag < f.inf && arith::value(f, y) > 0 {
        let v = arith::value(f, x) * u;
        assert((-a) * u == -(a * u)) by (nonlinear_arith);
        assert(a * u >= 0) by (nonlinear_arith)
            requires
                a >= 0,
                u > 0,
        ;
        assert(abs(v) == a * u);
        assert(q.mag == binary::nearest(f.p, f.inf, abs(v), b as nat));
        lemma_nothing_signed_is_nearer(
            f.p,
            f.inf,
            v,
            b as nat,
            arith::value(f, q),
            c.mag,
            c.neg,
        );
    }
}

/// In single precision no number is nearer to the exact sum, difference, product or quotient of two
/// finite numbers than the result is, where that is finite.
pub proof fn law_single_results_are_nearest(a: Single, b: Single, c: Single)
    requires
        single::finite(a),
        single::finite(b),
    ensures
        ({
            let (x, y, z) = (single_value(a), single_value(b), single_value(c));
            let u = pow2(149);
            &&& single::finite(single::sum(a, b)) ==> abs(
                single_value(single::sum(a, b)) - (x + y),
            ) <= abs(z - (x + y))
            &&& single::finite(single::difference(a, b)) ==> abs(
                single_value(single::difference(a, b)) - (x - y),
            ) <= abs(z - (x - y))
            &&& single::finite(single::product(a, b)) ==> abs(
                single_value(single::product(a, b)) * u - x * y,
            ) <= abs(z * u - x * y)
            &&& single::finite(single::quotient(a, b)) && y > 0 ==> abs(
                single_value(single::quotient(a, b)) * y - x * u,
            ) <= abs(z * y - x * u)
        }),
{
    let f = arith::single();
    let minus = Signed { neg: !b@.neg, mag: b@.mag };
    reveal(single::sum);
    reveal(single::difference);
    reveal(single::product);
    reveal(single::quotient);
    lemma2_to64();
    lemma_magnitudes_fit(f, a@, b@);
    lemma_magnitudes_fit(f, a@, minus);
    assert(single::sum(a, b)@ == arith::sum(f, a@, b@));
    assert(single::difference(a, b)@ == arith::sum(f, a@, minus));
    assert(single::product(a, b)@ == arith::product(f, a@, b@));
    assert(single::quotient(a, b)@ == arith::quotient(f, a@, b@));
    lemma_operations_are_nearest(f, a@, b@, c@);
    lemma_operations_are_nearest(f, a@, minus, c@);
}

/// The same in double precision.
pub proof fn law_double_results_are_nearest(a: Double, b: Double, c: Double)
    requires
        double::finite(a),
        double::finite(b),
    ensures
        ({
            let (x, y, z) = (double_value(a), double_value(b), double_value(c));
            let u = pow2(1074);
            &&& double::finite(double::sum(a, b)) ==> abs(
                double_value(double::sum(a, b)) - (x + y),
            ) <= abs(z - (x + y))
            &&& double::finite(double::difference(a, b)) ==> abs(
                double_value(double::difference(a, b)) - (x - y),
            ) <= abs(z - (x - y))
            &&& double::finite(double::product(a, b)) ==> abs(
                double_value(double::product(a, b)) * u - x * y,
            ) <= abs(z * u - x * y)
            &&& double::finite(double::quotient(a, b)) && y > 0 ==> abs(
                double_value(double::quotient(a, b)) * y - x * u,
            ) <= abs(z * y - x * u)
        }),
{
    let f = arith::double();
    let minus = Signed { neg: !b@.neg, mag: b@.mag };
    reveal(double::sum);
    reveal(double::difference);
    reveal(double::product);
    reveal(double::quotient);
    lemma2_to64();
    lemma2_to64_rest();
    lemma_magnitudes_fit(f, a@, b@);
    lemma_magnitudes_fit(f, a@, minus);
    assert(double::sum(a, b)@ == arith::sum(f, a@, b@));
    assert(double::difference(a, b)@ == arith::sum(f, a@, minus));
    assert(double::product(a, b)@ == arith::product(f, a@, b@));
    assert(double::quotient(a, b)@ == arith::quotient(f, a@, b@));
    lemma_operations_are_nearest(f, a@, b@, c@);
    lemma_operations_are_nearest(f, a@, minus, c@);
}

/// No result is beyond what is not a number.
proof fn lemma_magnitudes_fit(f: Layout, x: Signed, y: Signed)
    requires
        f.p >= 2,
        x.mag < f.inf,
        y.mag < f.inf,
    ensures
        arith::sum(f, x, y).mag <= f.inf,
        arith::product(f, x, y).mag <= f.inf,
        arith::quotient(f, x, y).mag <= f.inf + pow2((f.p - 2) as nat),
{
    reveal(arith::sum);
    reveal(arith::product);
    reveal(arith::quotient);
    lemma_pow2_pos(f.unit);
    lemma_pow2_pos((f.p - 2) as nat);
    arith::lemma_zero_is_worth_nothing(f.p);
    let v = arith::value(f, x) + arith::value(f, y);
    binary::law_rounding_is_monotone(f.p, f.inf, abs(v), abs(v), 1);
    let n = binary::worth(f.p, x.mag) * binary::worth(f.p, y.mag);
    binary::law_rounding_is_monotone(f.p, f.inf, n, n, pow2(f.unit));
    if y.mag > 0 {
        binary::lemma_worth_increases(f.p, 0, y.mag);
        let m = binary::worth(f.p, x.mag) * pow2(f.unit);
        binary::law_rounding_is_monotone(f.p, f.inf, m, m, binary::worth(f.p, y.mag));
    }
}

/// No number of single precision is nearer to a finite number of double precision than the one that it
/// is narrowed to, where that is finite.
pub proof fn law_narrowing_is_nearest(a: Double, c: Single)
    requires
        double::finite(a),
        single::finite(double::narrowed(a)),
    ensures
        abs(single_value(double::narrowed(a)) * pow2(925) - double_value(a)) <= abs(
            single_value(c) * pow2(925) - double_value(a),
        ),
        double::narrowed(a)@.neg == a@.neg,
{
    let f = arith::single();
    let w = binary::worth(53, a@.mag);
    reveal(double::narrowed);
    reveal(convert::narrowed);
    reveal(binary::nearest);
    lemma2_to64();
    lemma_pow2_pos(925);
    binary::law_rounding_is_monotone(24, f.inf, w, w, pow2(925));
    let r = double::narrowed(a)@;
    assert(r == convert::narrowed(a@));
    assert(r.mag == binary::nearest(24, f.inf, w, pow2(925)));
    assert(abs(double_value(a)) == w);
    if w == 0 && r.mag > 0 {
        arith::lemma_zero_is_worth_nothing(24);
        let u = pow2(925);
        assert(0 * u == 0) by (nonlinear_arith);
        binary::lemma_nearest_exact(24, f.inf, 0, pow2(925), 0);
    }
    lemma_nothing_signed_is_nearer(
        24,
        f.inf,
        double_value(a),
        pow2(925),
        single_value(double::narrowed(a)),
        c@.mag,
        c@.neg,
    );
}

/// The integer part, the least integer not below and the nearest integer of a number that is not
/// negative, where they are below the limit.
pub proof fn law_integers_are_next_to_their_number(a: Single, max: nat)
    requires
        single::finite(a),
        !a@.neg,
    ensures
        ({
            let x = single_value(a);
            let u = pow2(149);
            let (n, m, r) = (
                single::floor(a, max),
                single::ceiling(a, max),
                single::nearest_int(a, max),
            );
            &&& n <= max && m <= max && r <= max
            &&& n < max ==> n * u <= x < (n + 1) * u
            &&& m < max && x > 0 ==> (m - 1) * u < x <= m * u
            &&& m < max && x == 0 ==> m == 0
            &&& r < max ==> (2 * r - 1) * u <= 2 * x < (2 * r + 1) * u
        }),
{
    let x = single_value(a);
    let u = pow2(149) as int;
    lemma_pow2_pos(149);
    reveal(single::floor);
    reveal(single::ceiling);
    reveal(single::nearest_int);
    let n = x / u;
    let m = (x + u - 1) / u;
    let r = (2 * x + u) / (2 * u);
    lemma_fundamental_div_mod(x, u);
    lemma_mod_bound(x, u);
    lemma_fundamental_div_mod(x + u - 1, u);
    lemma_mod_bound(x + u - 1, u);
    lemma_fundamental_div_mod(2 * x + u, 2 * u);
    lemma_mod_bound(2 * x + u, 2 * u);
    assert(n * u <= x < (n + 1) * u) by (nonlinear_arith)
        requires
            x == u * n + x % u,
            0 <= x % u < u,
    ;
    assert(x <= m * u && (m - 1) * u < x + 1 && (x > 0 ==> (m - 1) * u < x) && (x == 0 ==> m == 0))
        by (nonlinear_arith)
        requires
            x + u - 1 == u * m + (x + u - 1) % u,
            0 <= (x + u - 1) % u < u,
            u > 0,
    ;
    assert((2 * r - 1) * u <= 2 * x < (2 * r + 1) * u) by (nonlinear_arith)
        requires
            2 * x + u == (2 * u) * r + (2 * x + u) % (2 * u),
            0 <= (2 * x + u) % (2 * u) < 2 * u,
    ;
}

} // verus!
