//! What the operations do to the order of numbers.

use vstd::arithmetic::div_mod::*;
use vstd::arithmetic::mul::*;
use vstd::arithmetic::power2::*;
use vstd::prelude::*;

use crate::ieee::arith;
use crate::ieee::arith::Layout;
use crate::ieee::arith::Signed;
use crate::ieee::binary;
use crate::ieee::bounds;
use crate::ieee::convert;
use crate::ieee::double;
use crate::ieee::double::Double;
use crate::ieee::root;
use crate::ieee::single;
use crate::ieee::single::Single;

verus! {

/// Zero rounds to zero.
proof fn lemma_nearest_to_zero(f: Layout, den: nat)
    requires
        f.p >= 1,
        den > 0,
    ensures
        binary::nearest(f.p, f.inf, 0, den) == 0,
{
    arith::lemma_zero_is_worth_nothing(f.p);
    assert(0 * den == 0);
    binary::lemma_nearest_exact(f.p, f.inf, 0, den, 0);
}

/// A sum is ordered as its first terms are.
proof fn lemma_sum_keeps_order(f: Layout, a: Signed, b: Signed, c: Signed)
    requires
        f.p >= 1,
        arith::at_most(f, a, b),
        c.mag < f.inf,
    ensures
        arith::at_most(f, arith::sum(f, a, c), arith::sum(f, b, c)),
{
    reveal(arith::sum);
    arith::law_magnitudes_order_values(f, b, a);
    let v = arith::value(f, a) + arith::value(f, c);
    let w = arith::value(f, b) + arith::value(f, c);
    let up = if v < 0 {
        -v
    } else {
        v
    };
    let down = if w < 0 {
        -w
    } else {
        w
    };
    binary::law_rounding_is_monotone(f.p, f.inf, up as nat, up as nat, 1);
    binary::law_rounding_is_monotone(f.p, f.inf, down as nat, down as nat, 1);
    if a.mag < f.inf && b.mag < f.inf {
        if v > 0 {
            binary::law_rounding_is_monotone(f.p, f.inf, v as nat, w as nat, 1);
        }
        if w < 0 {
            binary::law_rounding_is_monotone(f.p, f.inf, (-w) as nat, (-v) as nat, 1);
        }
    }
}

/// Sums with the same term are ordered as their other terms are.
pub proof fn law_sum_keeps_the_order(a: Single, b: Single, c: Single)
    requires
        single::at_most(a, b),
        single::finite(c),
    ensures
        single::at_most(single::sum(c, a), single::sum(c, b)),
{
    let f = arith::single();
    reveal(single::sum);
    lemma_sum_keeps_order(f, a@, b@, c@);
    lemma_sum_commutes(f, a@, c@);
    lemma_sum_commutes(f, b@, c@);
}

/// Differences in double precision are ordered as what is diminished.
pub proof fn law_double_difference_keeps_the_order(a: Double, b: Double, c: Double)
    requires
        double::at_most(a, b),
        double::finite(c),
    ensures
        double::at_most(double::difference(a, c), double::difference(b, c)),
{
    let f = arith::double();
    reveal(double::difference);
    lemma_sum_keeps_order(f, a@, b@, Signed { neg: !c@.neg, mag: c@.mag });
}

/// Narrowing keeps the order.
pub proof fn law_narrowing_keeps_the_order(a: Double, b: Double)
    requires
        double::at_most(a, b),
    ensures
        single::at_most(double::narrowed(a), double::narrowed(b)),
{
    reveal(double::narrowed);
    reveal(convert::narrowed);
    lemma2_to64();
    let inf = binary::SINGLE_INF as nat;
    let d = pow2(convert::NARROWING as nat);
    lemma_pow2_pos(convert::NARROWING as nat);
    let x = binary::worth(53, a@.mag);
    let y = binary::worth(53, b@.mag);
    binary::law_rounding_is_monotone(24, inf, x, x, d);
    binary::law_rounding_is_monotone(24, inf, y, y, d);
    if a@.mag < b@.mag {
        binary::lemma_worth_increases(53, a@.mag, b@.mag);
        binary::law_rounding_is_monotone(24, inf, x, y, d);
    }
    if b@.mag < a@.mag {
        binary::lemma_worth_increases(53, b@.mag, a@.mag);
        binary::law_rounding_is_monotone(24, inf, y, x, d);
    }
    arith::lemma_zero_is_worth_nothing(53);
    lemma_nearest_to_zero(arith::single(), d);
    assert(double::narrowed(a)@ == convert::narrowed(a@));
    assert(double::narrowed(b)@ == convert::narrowed(b@));
}

/// A number times a part of one is of the same sign and no greater, and the greater the part, the
/// further it goes.
pub proof fn law_parts_keep_the_order(d: Single, p: Single, q: Single)
    requires
        single::finite(d),
        single::at_most(Single { bits: single::ZERO }, p),
        single::at_most(p, q),
        single::at_most(q, Single { bits: single::ONE }),
    ensures
        !d@.neg ==> single::at_most(Single { bits: single::ZERO }, single::product(d, p))
            && single::at_most(single::product(d, p), single::product(d, q)) && single::at_most(
            single::product(d, q),
            d,
        ),
        d@.neg ==> single::at_most(single::product(d, p), Single { bits: single::ZERO })
            && single::at_most(single::product(d, q), single::product(d, p)) && single::at_most(
            d,
            single::product(d, q),
        ),
{
    let f = arith::single();
    reveal(single::product);
    reveal(arith::product);
    lemma_one();
    lemma_pow2_pos(f.unit);
    arith::lemma_zero_is_worth_nothing(24);
    let u = pow2(f.unit);
    let w = binary::worth(24, d@.mag);
    let x = binary::worth(24, p@.mag);
    let y = binary::worth(24, q@.mag);
    let one = (Single { bits: single::ONE })@;
    arith::law_magnitudes_order_values(f, q@, p@);
    arith::law_magnitudes_order_values(f, one, q@);
    assert(w * x <= w * y && w * y <= w * u) by (nonlinear_arith)
        requires
            0 <= x <= y,
            y <= u,
            w >= 0,
    ;
    binary::law_rounding_is_monotone(24, f.inf, w * x, w * y, u);
    binary::law_rounding_is_monotone(24, f.inf, w * y, w * u, u);
    binary::lemma_nearest_exact(24, f.inf, w * u, u, d@.mag);
    lemma_nearest_to_zero(f, u);
    assert(x == 0 ==> w * x == 0) by (nonlinear_arith);
    assert(y == 0 ==> w * y == 0) by (nonlinear_arith);
    assert(single::product(d, p)@.mag == binary::nearest(24, f.inf, w * x, u));
    assert(single::product(d, q)@.mag == binary::nearest(24, f.inf, w * y, u));
}

/// The more is taken away, the less is left.
pub proof fn law_difference_turns_the_order(c: Single, a: Single, b: Single)
    requires
        single::finite(c),
        single::at_most(a, b),
    ensures
        single::at_most(single::difference(c, b), single::difference(c, a)),
{
    let f = arith::single();
    reveal(single::difference);
    let x = Signed { neg: !b@.neg, mag: b@.mag };
    let y = Signed { neg: !a@.neg, mag: a@.mag };
    lemma_sum_keeps_order(f, x, y, c@);
    lemma_sum_commutes(f, x, c@);
    lemma_sum_commutes(f, y, c@);
}

/// The same in double precision.
pub proof fn law_double_difference_turns_the_order(c: Double, a: Double, b: Double)
    requires
        double::finite(c),
        double::at_most(a, b),
    ensures
        double::at_most(double::difference(c, b), double::difference(c, a)),
{
    let f = arith::double();
    reveal(double::difference);
    let x = Signed { neg: !b@.neg, mag: b@.mag };
    let y = Signed { neg: !a@.neg, mag: a@.mag };
    lemma_sum_keeps_order(f, x, y, c@);
    lemma_sum_commutes(f, x, c@);
    lemma_sum_commutes(f, y, c@);
}

/// The order of two terms does not matter.
proof fn lemma_sum_commutes(f: Layout, a: Signed, b: Signed)
    ensures
        arith::sum(f, a, b) == arith::sum(f, b, a),
{
    reveal(arith::sum);
}

/// The order of two terms does not matter.
pub proof fn law_sum_commutes(a: Single, b: Single)
    ensures
        single::sum(a, b) == single::sum(b, a),
{
    reveal(single::sum);
    lemma_sum_commutes(arith::single(), a@, b@);
}

/// The integer parts are ordered as the numbers are.
pub proof fn law_floor_keeps_the_order(a: Double, b: Double, max: nat)
    requires
        double::at_most(a, b),
    ensures
        double::floor(a, max) <= double::floor(b, max),
{
    let f = arith::double();
    reveal(double::floor);
    arith::law_magnitudes_order_values(f, b@, a@);
    lemma_pow2_pos(f.unit);
    if !a@.neg && !b@.neg {
        lemma_div_is_ordered(
            binary::worth(f.p, a@.mag) as int,
            binary::worth(f.p, b@.mag) as int,
            pow2(f.unit) as int,
        );
    }
    arith::lemma_zero_is_worth_nothing(f.p);
    lemma_div_basics(pow2(f.unit) as int);
}

/// Products of numbers that are not negative are ordered as their factors are.
pub proof fn law_product_keeps_the_order(a: Single, b: Single, c: Single, d: Single)
    requires
        single::at_most(Single { bits: single::ZERO }, a),
        single::at_most(a, b),
        single::finite(b),
        single::at_most(Single { bits: single::ZERO }, c),
        single::at_most(c, d),
        single::finite(d),
    ensures
        single::at_most(Single { bits: single::ZERO }, single::product(a, c)),
        single::at_most(single::product(a, c), single::product(b, d)),
{
    let f = arith::single();
    reveal(single::product);
    reveal(arith::product);
    arith::law_magnitudes_order_values(f, b@, a@);
    arith::law_magnitudes_order_values(f, d@, c@);
    arith::lemma_zero_is_worth_nothing(f.p);
    lemma_pow2_pos(f.unit);
    let x = binary::worth(f.p, a@.mag);
    let y = binary::worth(f.p, b@.mag);
    let z = binary::worth(f.p, c@.mag);
    let w = binary::worth(f.p, d@.mag);
    assert(x * z <= y * w) by (nonlinear_arith)
        requires
            0 <= x <= y,
            0 <= z <= w,
    ;
    binary::law_rounding_is_monotone(f.p, f.inf, x * z, y * w, pow2(f.unit));
    lemma_nearest_to_zero(f, pow2(f.unit));
    assert(x == 0 ==> x * z == 0) by (nonlinear_arith);
    assert(z == 0 ==> x * z == 0) by (nonlinear_arith);
    assert(y == 0 ==> y * w == 0) by (nonlinear_arith);
    assert(w == 0 ==> y * w == 0) by (nonlinear_arith);
    assert(single::product(a, c)@.mag == binary::nearest(f.p, f.inf, x * z, pow2(f.unit)));
    assert(single::product(b, d)@.mag == binary::nearest(f.p, f.inf, y * w, pow2(f.unit)));
}

/// Quotients by a positive number are ordered as what is divided.
pub proof fn law_quotient_keeps_the_order(a: Single, b: Single, d: Single)
    requires
        single::at_most(Single { bits: single::ZERO }, a),
        single::at_most(a, b),
        single::finite(b),
        single::finite(d),
        single::less(Single { bits: single::ZERO }, d),
    ensures
        single::at_most(Single { bits: single::ZERO }, single::quotient(a, d)),
        single::at_most(single::quotient(a, d), single::quotient(b, d)),
{
    let f = arith::single();
    reveal(single::quotient);
    reveal(arith::quotient);
    arith::law_magnitudes_order_values(f, b@, a@);
    arith::lemma_zero_is_worth_nothing(f.p);
    binary::lemma_worth_increases(f.p, 0, d@.mag);
    lemma_pow2_pos(f.unit);
    let x = binary::worth(f.p, a@.mag);
    let y = binary::worth(f.p, b@.mag);
    let w = binary::worth(f.p, d@.mag);
    let u = pow2(f.unit);
    lemma_mul_inequality(x as int, y as int, u as int);
    binary::law_rounding_is_monotone(f.p, f.inf, x * u, y * u, w);
    lemma_nearest_to_zero(f, w);
    assert(x == 0 ==> x * u == 0) by (nonlinear_arith);
    assert(y == 0 ==> y * u == 0) by (nonlinear_arith);
    assert(single::quotient(a, d)@.mag == binary::nearest(f.p, f.inf, x * u, w));
    assert(single::quotient(b, d)@.mag == binary::nearest(f.p, f.inf, y * u, w));
}

/// The sum of two numbers that are not negative is not negative.
pub proof fn law_sum_is_not_negative(a: Single, b: Single)
    requires
        single::at_most(Single { bits: single::ZERO }, a),
        single::at_most(Single { bits: single::ZERO }, b),
    ensures
        single::at_most(Single { bits: single::ZERO }, single::sum(a, b)),
{
    let f = arith::single();
    reveal(single::sum);
    reveal(arith::sum);
    arith::lemma_zero_is_worth_nothing(f.p);
    let v = binary::worth(f.p, a@.mag) + binary::worth(f.p, b@.mag);
    binary::law_rounding_is_monotone(f.p, f.inf, v, v, 1);
}

/// A sum of numbers that are not negative is no less than its terms.
pub proof fn law_sum_is_no_less(a: Single, b: Single)
    requires
        single::at_most(Single { bits: single::ZERO }, a),
        single::at_most(Single { bits: single::ZERO }, b),
    ensures
        single::at_most(a, single::sum(a, b)),
{
    let f = arith::single();
    law_sum_is_not_negative(a, b);
    reveal(single::sum);
    reveal(arith::sum);
    arith::lemma_zero_is_worth_nothing(f.p);
    let x = binary::worth(f.p, a@.mag);
    let y = binary::worth(f.p, b@.mag);
    if 0 < a@.mag {
        binary::lemma_worth_increases(f.p, 0, a@.mag);
    }
    if a@.mag < f.inf && b@.mag < f.inf {
        assert(x * 1 == x);
        binary::lemma_nearest_exact(f.p, f.inf, x, 1, a@.mag);
        binary::law_rounding_is_monotone(f.p, f.inf, x, x + y, 1);
    }
}

/// A positive finite number times a number that is not negative is a number that is not negative.
pub proof fn law_product_is_not_negative(a: Single, b: Single)
    requires
        single::less(Single { bits: single::ZERO }, a),
        single::finite(a),
        single::at_most(Single { bits: single::ZERO }, b),
    ensures
        single::at_most(Single { bits: single::ZERO }, single::product(a, b)),
{
    let f = arith::single();
    reveal(single::product);
    reveal(arith::product);
    arith::lemma_zero_is_worth_nothing(f.p);
    lemma_pow2_pos(f.unit);
    let y = binary::worth(f.p, a@.mag) * binary::worth(f.p, b@.mag);
    binary::law_rounding_is_monotone(f.p, f.inf, y, y, pow2(f.unit));
    lemma_nearest_to_zero(f, pow2(f.unit));
    assert(binary::worth(f.p, a@.mag) * 0 == 0);
}

/// Nothing exceeds itself.
pub proof fn law_nothing_exceeds_itself(a: Single)
    ensures
        !single::less(Single { bits: single::ZERO }, single::difference(a, a)),
{
    reveal(single::difference);
    reveal(arith::sum);
    lemma2_to64();
}

/// A number that is not negative, divided by a positive one, is not negative; zero stays zero.
pub proof fn law_quotient_is_not_negative(a: Single, d: Single)
    requires
        single::at_most(Single { bits: single::ZERO }, a),
        single::less(Single { bits: single::ZERO }, d),
        single::finite(d),
    ensures
        single::at_most(Single { bits: single::ZERO }, single::quotient(a, d)),
        single::quotient(Single { bits: single::ZERO }, d) == (Single { bits: single::ZERO }),
{
    let f = arith::single();
    reveal(single::quotient);
    reveal(arith::quotient);
    arith::lemma_zero_is_worth_nothing(f.p);
    binary::lemma_worth_increases(f.p, 0, d@.mag);
    let w = binary::worth(f.p, d@.mag);
    let x = binary::worth(f.p, a@.mag) * pow2(f.unit);
    binary::law_rounding_is_monotone(f.p, f.inf, x, x, w);
    lemma_nearest_to_zero(f, w);
    assert(0 * pow2(f.unit) == 0);
}

/// The square of a finite number of double precision is a number, and not negative.
pub proof fn law_double_square_is_not_negative(a: Double)
    requires
        double::finite(a),
    ensures
        double::at_most(Double { bits: double::ZERO }, double::product(a, a)),
        !double::product(a, a)@.neg,
{
    let f = arith::double();
    reveal(double::product);
    reveal(arith::product);
    lemma_pow2_pos(f.unit);
    let y = binary::worth(f.p, a@.mag) * binary::worth(f.p, a@.mag);
    binary::law_rounding_is_monotone(f.p, f.inf, y, y, pow2(f.unit));
}

/// The sum of two numbers of double precision that are not negative is not negative.
pub proof fn law_double_sum_is_not_negative(a: Double, b: Double)
    requires
        double::at_most(Double { bits: double::ZERO }, a),
        double::at_most(Double { bits: double::ZERO }, b),
    ensures
        double::at_most(Double { bits: double::ZERO }, double::sum(a, b)),
{
    let f = arith::double();
    reveal(double::sum);
    reveal(arith::sum);
    arith::lemma_zero_is_worth_nothing(f.p);
    let v = binary::worth(f.p, a@.mag) + binary::worth(f.p, b@.mag);
    binary::law_rounding_is_monotone(f.p, f.inf, v, v, 1);
}

/// The root of a number that is not negative is a number that is not negative.
pub proof fn law_double_root_is_a_number(a: Double)
    requires
        double::at_most(Double { bits: double::ZERO }, a),
    ensures
        double::at_most(Double { bits: double::ZERO }, double::square_root(a)),
{
    reveal(double::square_root);
    reveal(root::root);
    root::lemma_root_is_bounded(a@);
}

/// A number that is not negative, divided by a positive finite one, is a number that is not
/// negative.
pub proof fn law_double_quotient_is_a_number(a: Double, d: Double)
    requires
        double::at_most(Double { bits: double::ZERO }, a),
        double::less(Double { bits: double::ZERO }, d),
        double::finite(d),
    ensures
        double::at_most(Double { bits: double::ZERO }, double::quotient(a, d)),
{
    let f = arith::double();
    reveal(double::quotient);
    reveal(arith::quotient);
    arith::lemma_zero_is_worth_nothing(f.p);
    binary::lemma_worth_increases(f.p, 0, d@.mag);
    let w = binary::worth(f.p, d@.mag);
    let x = binary::worth(f.p, a@.mag) * pow2(f.unit);
    binary::law_rounding_is_monotone(f.p, f.inf, x, x, w);
    lemma_nearest_to_zero(f, w);
    assert(0 * pow2(f.unit) == 0);
}

/// The square of a number is not negative, and neither is the sum of such squares.
pub proof fn law_squares_add_up(sofar: Double, x: Single)
    requires
        double::at_most(Double { bits: double::ZERO }, sofar),
        x@.mag <= binary::SINGLE_INF,
    ensures
        double::at_most(
            Double { bits: double::ZERO },
            double::sum(sofar, double::product(single::widened(x), single::widened(x))),
        ),
{
    let f = arith::double();
    reveal(single::widened);
    reveal(convert::widened);
    reveal(double::product);
    reveal(arith::product);
    reveal(double::sum);
    reveal(arith::sum);
    arith::lemma_zero_is_worth_nothing(f.p);
    lemma_pow2_pos(f.unit);
    let w = binary::worth(24, x@.mag) * pow2(convert::NARROWING as nat);
    binary::law_rounding_is_monotone(f.p, f.inf, w, w, 1);
    let m = single::widened(x);
    assert(m@.mag <= f.inf);
    let y = binary::worth(f.p, m@.mag) * binary::worth(f.p, m@.mag);
    binary::law_rounding_is_monotone(f.p, f.inf, y, y, pow2(f.unit));
    let q = double::product(m, m);
    assert(!q@.neg && q@.mag <= f.inf);
    let v = binary::worth(f.p, sofar@.mag) + binary::worth(f.p, q@.mag);
    binary::law_rounding_is_monotone(f.p, f.inf, v, v, 1);
}

/// The root of a mean of squares is a number, and not negative.
pub proof fn law_root_mean_is_a_number(sumsq: Double, n: nat)
    requires
        double::at_most(Double { bits: double::ZERO }, sumsq),
        0 < n <= 0x1_0000_0000_0000_0000,
    ensures
        single::at_most(
            Single { bits: single::ZERO },
            double::narrowed(double::square_root(double::quotient(sumsq, double::from_int(n)))),
        ),
{
    let f = arith::double();
    let d = double::from_int(n);
    bounds::law_count_within(n);
    reveal(double::quotient);
    reveal(arith::quotient);
    arith::lemma_zero_is_worth_nothing(f.p);
    binary::lemma_worth_increases(f.p, 0, d@.mag);
    let w = binary::worth(f.p, d@.mag);
    let x = binary::worth(f.p, sumsq@.mag) * pow2(f.unit);
    binary::law_rounding_is_monotone(f.p, f.inf, x, x, w);
    lemma_nearest_to_zero(f, w);
    assert(0 * pow2(f.unit) == 0);
    let mean = double::quotient(sumsq, d);
    assert(double::at_most(Double { bits: double::ZERO }, mean));
    reveal(double::square_root);
    reveal(root::root);
    root::lemma_root_is_bounded(mean@);
    let r = double::square_root(mean);
    assert(r@.mag <= f.inf && (r@.neg ==> r@.mag == 0));
    reveal(double::narrowed);
    reveal(convert::narrowed);
    let u = pow2(convert::NARROWING as nat);
    lemma_pow2_pos(convert::NARROWING as nat);
    let z = binary::worth(53, r@.mag);
    binary::law_rounding_is_monotone(24, binary::SINGLE_INF as nat, z, z, u);
    lemma_nearest_to_zero(arith::single(), u);
}

/// Integers of 32 bits are finite in single precision and keep their order.
pub proof fn law_counts_keep_their_order(m: nat, n: nat)
    requires
        m <= n <= 0x1_0000_0000,
    ensures
        single::finite(single::from_int(n)),
        single::at_most(Single { bits: single::ZERO }, single::from_int(m)),
        single::at_most(single::from_int(m), single::from_int(n)),
        0 < m ==> single::less(Single { bits: single::ZERO }, single::from_int(m)),
        single::from_int(0) == (Single { bits: single::ZERO }),
{
    let f = arith::single();
    let u = pow2(f.unit);
    reveal(single::from_int);
    reveal(convert::from_nat);
    lemma2_to64();
    lemma2_to64_rest();
    lemma_pow2_pos(f.unit);
    lemma_nearest_to_zero(f, 1);
    assert(0 * u == 0);
    lemma_mul_inequality(m as int, n as int, u as int);
    binary::law_rounding_is_monotone(f.p, f.inf, m * u, n * u, 1);
    lemma_mul_inequality(n as int, 0x1_0000_0000, u as int);
    binary::law_rounding_is_monotone(f.p, f.inf, n * u, 0x1_0000_0000 * u, 1);
    lemma_pow2_adds(32, 149);
    lemma_pow2_adds(23, 158);
    binary::lemma_worth_of_encode(24, 0x80_0000, 158);
    let top = binary::encode(24, 0x80_0000, 158);
    assert(binary::worth(24, top) * 1 == 0x1_0000_0000 * u);
    binary::lemma_nearest_exact(f.p, f.inf, 0x1_0000_0000 * u, 1, top);
    if 0 < m {
        lemma_one();
        lemma_mul_inequality(1, m as int, u as int);
        assert(binary::worth(24, 0x3f80_0000) * 1 == 1 * u);
        binary::lemma_nearest_exact(f.p, f.inf, 1 * u, 1, 0x3f80_0000);
        binary::law_rounding_is_monotone(f.p, f.inf, 1 * u, m * u, 1);
    }
}

/// Up to one, neighbours in single precision lie at most `2^-24` apart.
proof fn lemma_step_up_to_one(b: nat)
    requires
        b < 0x3f80_0000,
    ensures
        binary::worth(24, b + 1) - binary::worth(24, b) <= pow2(125),
{
    let (q, e) = binary::lemma_decode(24, b);
    binary::lemma_worth_of_encode(24, q, e);
    binary::lemma_worth_of_encode(24, q + 1, e);
    assert(binary::encode(24, q + 1, e) == b + 1);
    assert((q + 1) * pow2(e) == q * pow2(e) + pow2(e)) by (nonlinear_arith);
    lemma2_to64();
    assert(e <= 125) by {
        if e >= 126 {
            assert(e * 0x80_0000 >= 126 * 0x80_0000);
        }
    }
    if e < 125 {
        lemma_pow2_strictly_increases(e, 125);
    }
}

/// A number of at most one, rounded to single precision, is off by at most `2^-25`.
proof fn lemma_rounding_up_to_one(x: nat)
    requires
        x <= pow2(149),
    ensures
        ({
            let w = binary::worth(24, binary::nearest(24, binary::SINGLE_INF as nat, x, 1));
            x - pow2(124) <= w <= x + pow2(124)
        }),
{
    arith::lemma_zero_is_worth_nothing(24);
    lemma_one();
    lemma_pow2_pos(124);
    lemma_pow2_unfold(125);
    if x == pow2(149) {
        binary::lemma_nearest_exact(24, binary::SINGLE_INF as nat, x, 1, 0x3f80_0000);
    } else {
        let b = binary::lemma_below_exists(24, x, 1, 0);
        if b >= 0x3f80_0000 {
            if b > 0x3f80_0000 {
                binary::lemma_worth_increases(24, 0x3f80_0000, b);
            }
        }
        lemma_step_up_to_one(b);
        binary::lemma_nearest(24, binary::SINGLE_INF as nat, x, 1, b);
    }
}

/// What one is worth, and its neighbours.
proof fn lemma_one()
    ensures
        (Single { bits: single::ONE })@ == (Signed { neg: false, mag: 0x3f80_0000 }),
        binary::worth(24, 0x3f80_0000) == pow2(149),
        binary::worth(24, 0x3f80_0001) == pow2(149) + pow2(126),
        binary::worth(24, 0x3f7f_ffff) == pow2(149) - pow2(125),
{
    lemma2_to64();
    lemma_pow2_adds(23, 126);
    lemma_pow2_adds(24, 125);
    binary::lemma_worth_of_encode(24, 0x80_0000, 126);
    assert(binary::encode(24, 0x80_0000, 126) == 0x3f80_0000);
    binary::lemma_worth_of_encode(24, 0x80_0001, 126);
    assert(binary::encode(24, 0x80_0001, 126) == 0x3f80_0001);
    binary::lemma_worth_of_encode(24, 0xff_ffff, 125);
    assert(binary::encode(24, 0xff_ffff, 125) == 0x3f7f_ffff);
    assert(0x80_0001 * pow2(126) == 0x80_0000 * pow2(126) + pow2(126)) by (nonlinear_arith);
    assert(0xff_ffff * pow2(125) == 0x100_0000 * pow2(125) - pow2(125)) by (nonlinear_arith);
}

/// What lies within `2^-25` of one rounds to one.
proof fn lemma_rounds_to_one(x: nat)
    requires
        pow2(149) - pow2(124) <= x <= pow2(149) + pow2(124),
    ensures
        binary::nearest(24, binary::SINGLE_INF as nat, x, 1) == 0x3f80_0000,
{
    lemma_one();
    lemma_pow2_pos(124);
    lemma_pow2_unfold(125);
    lemma_pow2_unfold(126);
    if x >= pow2(149) {
        assert(binary::is_below(24, x, 1, 0x3f80_0000));
        binary::lemma_nearest(24, binary::SINGLE_INF as nat, x, 1, 0x3f80_0000);
    } else {
        assert(binary::is_below(24, x, 1, 0x3f7f_ffff));
        binary::lemma_nearest(24, binary::SINGLE_INF as nat, x, 1, 0x3f7f_ffff);
    }
}

/// A number between zero and one has a complement between zero and one, and the two add up
/// to one exactly.
pub proof fn law_complements_add_up(w: Single)
    requires
        single::at_most(Single { bits: single::ZERO }, w),
        single::at_most(w, Single { bits: single::ONE }),
    ensures
        ({
            let one = Single { bits: single::ONE };
            let rest = single::difference(one, w);
            &&& single::at_most(Single { bits: single::ZERO }, rest)
            &&& single::at_most(rest, one)
            &&& single::sum(w, rest) == one
        }),
{
    let f = arith::single();
    let one = Single { bits: single::ONE };
    let rest = single::difference(one, w);
    lemma_one();
    arith::lemma_zero_is_worth_nothing(24);
    arith::law_magnitudes_order_values(f, one@, w@);
    let v = binary::worth(24, w@.mag);
    let x = (pow2(149) - v) as nat;
    lemma_rounding_up_to_one(x);
    reveal(single::difference);
    reveal(arith::sum);
    lemma_nearest_to_zero(f, 1);
    binary::law_rounding_is_monotone(24, f.inf, x, pow2(149), 1);
    assert(pow2(149) * 1 == pow2(149));
    binary::lemma_nearest_exact(24, f.inf, pow2(149), 1, 0x3f80_0000);
    assert(!rest@.neg && rest@.mag == binary::nearest(24, f.inf, x, 1));
    let y = binary::worth(24, rest@.mag);
    lemma_pow2_pos(124);
    lemma_pow2_strictly_increases(124, 149);
    lemma_rounds_to_one(v + y);
    reveal(single::sum);
}

} // verus!
