//! What addition, multiplication and division do to zero, to one and to whole
//! numbers.

use vstd::arithmetic::div_mod::*;
use vstd::arithmetic::mul::*;
use vstd::arithmetic::power2::*;
use vstd::prelude::*;

use crate::ieee::arith;
use crate::ieee::arith::Layout;
use crate::ieee::arith::Signed;
use crate::ieee::binary;
use crate::ieee::convert;
use crate::ieee::double;
use crate::ieee::double::Double;
use crate::ieee::single;
use crate::ieee::single::Single;

verus! {

/// A number is what its sign and magnitude make it.
proof fn lemma_single_of_view(a: Single)
    ensures
        single::of(a@) == a,
{
}

proof fn lemma_double_of_view(a: Double)
    ensures
        double::of(a@) == a,
{
}

/// What one is worth.
proof fn lemma_single_one()
    ensures
        (Single { bits: single::ONE })@ == (Signed { neg: false, mag: 0x3f80_0000 }),
        binary::worth(arith::single().p, 0x3f80_0000) == pow2(arith::single().unit),
{
    let p = arith::single().p;
    lemma2_to64();
    lemma_pow2_adds(23, 126);
    binary::lemma_worth_of_encode(p, 0x80_0000, 126);
    assert(binary::encode(p, 0x80_0000, 126) == 0x3f80_0000);
}

proof fn lemma_double_one()
    ensures
        (Double { bits: double::ONE })@ == (Signed { neg: false, mag: 0x3ff0_0000_0000_0000 }),
        binary::worth(arith::double().p, 0x3ff0_0000_0000_0000) == pow2(arith::double().unit),
{
    let p = arith::double().p;
    lemma2_to64_rest();
    lemma_pow2_adds(52, 1022);
    binary::lemma_worth_of_encode(p, 0x10_0000_0000_0000, 1022);
    assert(binary::encode(p, 0x10_0000_0000_0000, 1022) == 0x3ff0_0000_0000_0000);
}

proof fn lemma_sum_with_zero(f: Layout, x: Signed, neg: bool)
    requires
        f.p >= 1,
        f.inf > 0,
        x.mag <= f.inf,
        x.mag == 0 && x.neg ==> neg,
    ensures
        arith::sum(f, x, Signed { neg, mag: 0 }) == x,
        arith::sum(f, Signed { neg, mag: 0 }, x) == x,
{
    reveal(arith::sum);
    arith::lemma_zero_is_worth_nothing(f.p);
    if x.mag < f.inf {
        let w = binary::worth(f.p, x.mag);
        if x.mag > 0 {
            binary::lemma_worth_increases(f.p, 0, x.mag);
        }
        assert(w * 1 == w);
        binary::lemma_nearest_exact(f.p, f.inf, w, 1, x.mag);
    }
}

proof fn lemma_product_with(f: Layout, x: Signed, one: Signed)
    requires
        f.p >= 1,
        x.mag <= f.inf,
        0 < one.mag < f.inf,
        binary::worth(f.p, one.mag) == pow2(f.unit),
    ensures
        arith::product(f, x, one) == (Signed { neg: x.neg != one.neg, mag: x.mag }),
        arith::product(f, one, x) == (Signed { neg: x.neg != one.neg, mag: x.mag }),
{
    reveal(arith::product);
    if x.mag < f.inf {
        let w = binary::worth(f.p, x.mag);
        lemma_pow2_pos(f.unit);
        lemma_mul_is_commutative(w as int, pow2(f.unit) as int);
        binary::lemma_nearest_exact(f.p, f.inf, w * pow2(f.unit), pow2(f.unit), x.mag);
    }
}

/// Adding zero changes nothing, except that it makes a negative zero positive.
pub proof fn law_sum_with_zero(a: Single)
    requires
        a@.mag <= binary::SINGLE_INF,
        a.bits != 0x8000_0000,
    ensures
        single::sum(a, Single { bits: single::ZERO }) == a,
        single::sum(Single { bits: single::ZERO }, a) == a,
{
    reveal(single::sum);
    lemma_single_of_view(a);
    assert(a@.mag == 0 && a@.neg ==> a.bits == 0x8000_0000);
    lemma_sum_with_zero(arith::single(), a@, false);
}

/// Adding a zero of either sign changes no number but a negative zero.
pub proof fn law_sum_with_either_zero(a: Single, z: Single)
    requires
        a@.mag <= binary::SINGLE_INF,
        a.bits != 0x8000_0000,
        z@.mag == 0,
    ensures
        single::sum(a, z) == a,
{
    reveal(single::sum);
    lemma_single_of_view(a);
    assert(a@.mag == 0 && a@.neg ==> a.bits == 0x8000_0000);
    lemma_sum_with_zero(arith::single(), a@, z@.neg);
}

/// A zero times a finite number is a zero.
pub proof fn law_multiples_of_zero(z: Single, a: Single)
    requires
        z@.mag == 0,
        single::finite(a),
    ensures
        single::product(z, a)@.mag == 0,
        single::product(a, z)@.mag == 0,
{
    let f = arith::single();
    reveal(single::product);
    reveal(arith::product);
    arith::lemma_zero_is_worth_nothing(f.p);
    lemma_pow2_pos(f.unit);
    let w = binary::worth(f.p, a@.mag);
    assert(0 * w == 0 && w * 0 == 0);
    assert(0 * pow2(f.unit) == 0);
    binary::lemma_nearest_exact(f.p, f.inf, 0, pow2(f.unit), 0);
}

/// What comes of adding to silence: no negative zero, and of what is not a number always the same.
pub open spec fn settled(a: Single) -> bool {
    &&& a.bits != 0x8000_0000
    &&& a@.mag > binary::SINGLE_INF ==> a == single::of(arith::nan(arith::single()))
}

/// A sum that starts from zero is settled. A settled number stays as it is when a zero is added
/// to it, and it makes no difference to it whether what is added was added to zero before.
pub proof fn law_sums_settle(a: Single, b: Single)
    ensures
        settled(Single { bits: single::ZERO }),
        settled(single::sum(Single { bits: single::ZERO }, b)),
        settled(a) ==> single::sum(a, Single { bits: single::ZERO }) == a,
        settled(a) ==> single::sum(a, single::sum(Single { bits: single::ZERO }, b))
            == single::sum(a, b),
{
    let f = arith::single();
    let zero = Single { bits: single::ZERO };
    let minus = Single { bits: 0x8000_0000 };
    reveal(single::sum);
    lemma2_to64();
    lemma_single_of_view(a);
    lemma_single_of_view(b);
    assert(a@.mag == 0 && a@.neg ==> a.bits == 0x8000_0000);
    assert(b@.mag == 0 && b@.neg ==> b.bits == 0x8000_0000);
    let nan = single::of(arith::nan(f));
    assert(nan@ == arith::nan(f));
    if b@.mag > f.inf {
        reveal(arith::sum);
    } else if b.bits != 0x8000_0000 {
        lemma_sum_with_zero(f, b@, false);
    } else {
        lemma_sum_with_zero(f, zero@, true);
    }
    if settled(a) {
        if a@.mag > f.inf {
            reveal(arith::sum);
        } else {
            lemma_sum_with_zero(f, a@, false);
            lemma_sum_with_zero(f, a@, true);
        }
    }
}

/// Multiplying by one changes nothing.
pub proof fn law_product_with_one(a: Single)
    requires
        a@.mag <= binary::SINGLE_INF,
    ensures
        single::product(a, Single { bits: single::ONE }) == a,
        single::product(Single { bits: single::ONE }, a) == a,
{
    reveal(single::product);
    lemma_single_of_view(a);
    lemma_single_one();
    lemma_product_with(arith::single(), a@, (Single { bits: single::ONE })@);
}

/// A finite number less itself is zero.
pub proof fn law_difference_with_itself(a: Single)
    requires
        single::finite(a),
    ensures
        single::difference(a, a) == (Single { bits: single::ZERO }),
{
    reveal(single::difference);
    reveal(arith::sum);
}

/// The same in double precision.
pub proof fn law_double_difference_with_itself(a: Double)
    requires
        double::finite(a),
    ensures
        double::difference(a, a) == (Double { bits: double::ZERO }),
{
    reveal(double::difference);
    reveal(arith::sum);
}

/// A finite number that is not zero, divided by itself, is one.
pub proof fn law_quotient_with_itself(a: Double)
    requires
        double::finite(a),
        a@.mag > 0,
    ensures
        double::quotient(a, a) == (Double { bits: double::ONE }),
{
    reveal(double::quotient);
    reveal(arith::quotient);
    let f = arith::double();
    let one = (Double { bits: double::ONE })@;
    lemma_double_one();
    lemma_double_of_view(Double { bits: double::ONE });
    arith::lemma_zero_is_worth_nothing(f.p);
    binary::lemma_worth_increases(f.p, 0, a@.mag);
    let w = binary::worth(f.p, a@.mag);
    lemma_mul_is_commutative(w as int, pow2(f.unit) as int);
    binary::lemma_nearest_exact(f.p, f.inf, w * pow2(f.unit), w, one.mag);
}

/// The same in single precision.
pub proof fn law_single_quotient_with_itself(a: Single)
    requires
        single::finite(a),
        a@.mag > 0,
    ensures
        single::quotient(a, a) == (Single { bits: single::ONE }),
{
    reveal(single::quotient);
    reveal(arith::quotient);
    let f = arith::single();
    let one = (Single { bits: single::ONE })@;
    lemma_single_one();
    lemma_single_of_view(Single { bits: single::ONE });
    arith::lemma_zero_is_worth_nothing(f.p);
    binary::lemma_worth_increases(f.p, 0, a@.mag);
    let w = binary::worth(f.p, a@.mag);
    lemma_mul_is_commutative(w as int, pow2(f.unit) as int);
    binary::lemma_nearest_exact(f.p, f.inf, w * pow2(f.unit), w, one.mag);
}

/// Adding zero in double precision changes nothing, except that it makes a negative zero
/// positive.
pub proof fn law_double_sum_with_zero(a: Double)
    requires
        a@.mag <= binary::DOUBLE_INF,
        a.bits != 0x8000_0000_0000_0000,
    ensures
        double::sum(a, Double { bits: double::ZERO }) == a,
        double::sum(Double { bits: double::ZERO }, a) == a,
{
    reveal(double::sum);
    lemma_double_of_view(a);
    assert(a@.mag == 0 && a@.neg ==> a.bits == 0x8000_0000_0000_0000);
    lemma_sum_with_zero(arith::double(), a@, false);
}

/// Adding a zero of either sign in double precision changes no number but a negative zero.
pub proof fn law_double_sum_with_either_zero(a: Double, z: Double)
    requires
        a@.mag <= binary::DOUBLE_INF,
        a.bits != 0x8000_0000_0000_0000,
        z@.mag == 0,
    ensures
        double::sum(a, z) == a,
{
    reveal(double::sum);
    lemma_double_of_view(a);
    assert(a@.mag == 0 && a@.neg ==> a.bits == 0x8000_0000_0000_0000);
    lemma_sum_with_zero(arith::double(), a@, z@.neg);
}

/// A zero times a finite number is a zero, and so is a zero divided by a finite number other than
/// zero.
pub proof fn law_double_multiples_of_zero(z: Double, a: Double)
    requires
        z@.mag == 0,
        double::finite(a),
    ensures
        double::product(z, a)@.mag == 0,
        double::product(a, z)@.mag == 0,
        a@.mag > 0 ==> double::quotient(z, a)@.mag == 0,
{
    let f = arith::double();
    reveal(double::product);
    reveal(arith::product);
    reveal(double::quotient);
    reveal(arith::quotient);
    arith::lemma_zero_is_worth_nothing(f.p);
    lemma_pow2_pos(f.unit);
    let w = binary::worth(f.p, a@.mag);
    assert(0 * w == 0 && w * 0 == 0);
    assert(0 * pow2(f.unit) == 0);
    binary::lemma_nearest_exact(f.p, f.inf, 0, pow2(f.unit), 0);
    if a@.mag > 0 {
        binary::lemma_worth_increases(f.p, 0, a@.mag);
        binary::lemma_nearest_exact(f.p, f.inf, 0, w, 0);
    }
}

/// Sums and differences of zeros are zeros; added to a positive zero they leave it.
pub proof fn law_double_sums_of_zeros(y: Double, z: Double)
    requires
        y@.mag == 0,
        z@.mag == 0,
    ensures
        double::sum(y, z)@.mag == 0,
        double::difference(y, z)@.mag == 0,
        double::sum(Double { bits: double::ZERO }, z) == (Double { bits: double::ZERO }),
{
    let f = arith::double();
    reveal(double::sum);
    reveal(double::difference);
    reveal(arith::sum);
    arith::lemma_zero_is_worth_nothing(f.p);
}

/// A whole number of at most 53 bits has a magnitude.
proof fn lemma_whole_magnitude(n: nat, k: nat) -> (b: nat)
    requires
        0 < n,
        n * pow2(k) < pow2(53),
        k <= 52,
    ensures
        binary::worth(53, b) == n * pow2(1074),
        0 < b < arith::double().inf,
    decreases 53 - k,
{
    lemma2_to64_rest();
    lemma_pow2_pos(k);
    if n * pow2(k) >= pow2(52) {
        let e = (1074 - k) as nat;
        let q = n * pow2(k);
        binary::lemma_worth_of_encode(53, q, e);
        assert(q * pow2(e) == n * pow2(1074)) by {
            lemma_pow2_adds(k, e);
            lemma_mul_is_associative(n as int, pow2(k) as int, pow2(e) as int);
        }
        let b = binary::encode(53, q, e);
        assert(b < arith::double().inf) by {
            assert(e * pow2(52) <= 1074 * pow2(52)) by (nonlinear_arith)
                requires
                    e <= 1074,
            ;
        }
        b
    } else {
        lemma_pow2_unfold(k + 1);
        assert(n * pow2(k + 1) == 2 * (n * pow2(k))) by (nonlinear_arith)
            requires
                pow2(k + 1) == 2 * pow2(k),
        ;
        lemma_pow2_unfold(53);
        if k == 52 {
            assert(n * pow2(52) >= pow2(52)) by (nonlinear_arith)
                requires
                    n >= 1,
            ;
        }
        lemma_whole_magnitude(n, k + 1)
    }
}

/// Whole numbers below 2^53 are represented exactly.
pub proof fn law_whole_numbers_are_exact(n: nat)
    requires
        n < 0x20_0000_0000_0000,
    ensures
        double::finite(double::from_int(n)),
        !double::from_int(n)@.neg,
        n == 0 <==> double::from_int(n)@.mag == 0,
        binary::worth(arith::double().p, double::from_int(n)@.mag) == n * pow2(
            arith::double().unit,
        ),
{
    reveal(double::from_int);
    reveal(convert::from_nat);
    let f = arith::double();
    lemma2_to64_rest();
    lemma_pow2_pos(f.unit);
    let b = if n == 0 {
        arith::lemma_zero_is_worth_nothing(f.p);
        assert(0 * pow2(f.unit) == 0);
        0
    } else {
        lemma2_to64();
        assert(n * pow2(0) == n);
        lemma_whole_magnitude(n, 0)
    };
    assert(binary::worth(f.p, b) * 1 == n * pow2(f.unit));
    binary::lemma_nearest_exact(f.p, f.inf, n * pow2(f.unit), 1, b);
    assert(convert::from_nat(f, n) == (Signed { neg: false, mag: b }));
    assert(double::from_int(n)@ == (Signed { neg: false, mag: b }));
}

/// One step forward from a whole number is exact.
pub proof fn law_step_forward_is_exact(n: nat)
    requires
        n + 1 < 0x20_0000_0000_0000,
    ensures
        double::sum(double::from_int(n), Double { bits: double::ONE }) == double::from_int(n + 1),
{
    let f = arith::double();
    let a = double::from_int(n);
    let one = Double { bits: double::ONE };
    law_whole_numbers_are_exact(n);
    lemma_double_one();
    lemma_pow2_pos(f.unit);
    assert((n + 1) * pow2(f.unit) == n * pow2(f.unit) + pow2(f.unit)) by (nonlinear_arith);
    reveal(double::sum);
    reveal(arith::sum);
    reveal(double::from_int);
    reveal(convert::from_nat);
    assert(arith::sum(f, a@, one@) == convert::from_nat(f, n + 1));
}

/// Bits of minus one in double precision.
pub const MINUS_ONE: u64 = 0xbff0_0000_0000_0000;

/// One step back from a whole number is exact.
pub proof fn law_step_back_is_exact(n: nat)
    requires
        0 < n < 0x20_0000_0000_0000,
    ensures
        double::sum(double::from_int(n), Double { bits: MINUS_ONE }) == double::from_int(
            (n - 1) as nat,
        ),
{
    let f = arith::double();
    let a = double::from_int(n);
    let one = Double { bits: MINUS_ONE };
    law_whole_numbers_are_exact(n);
    law_whole_numbers_are_exact((n - 1) as nat);
    lemma_double_one();
    lemma_pow2_pos(f.unit);
    let m = (n - 1) as nat;
    assert(m * pow2(f.unit) == n * pow2(f.unit) - pow2(f.unit)) by (nonlinear_arith)
        requires
            m == n - 1,
    ;
    assert(one@ == (Signed { neg: true, mag: 0x3ff0_0000_0000_0000 }));
    reveal(double::sum);
    reveal(arith::sum);
    reveal(double::from_int);
    reveal(convert::from_nat);
    if m == 0 {
        assert(0 * pow2(f.unit) == 0);
        arith::lemma_zero_is_worth_nothing(f.p);
        binary::lemma_nearest_exact(f.p, f.inf, 0, 1, 0);
    } else {
        assert(m * pow2(f.unit) > 0) by (nonlinear_arith)
            requires
                m > 0,
                pow2(f.unit) > 0,
        ;
    }
    assert(arith::sum(f, a@, one@) == convert::from_nat(f, m));
}

/// Multiplying by one in double precision changes nothing.
pub proof fn law_double_product_with_one(a: Double)
    requires
        a@.mag <= binary::DOUBLE_INF,
    ensures
        double::product(a, Double { bits: double::ONE }) == a,
        double::product(Double { bits: double::ONE }, a) == a,
{
    reveal(double::product);
    lemma_double_of_view(a);
    lemma_double_one();
    lemma_product_with(arith::double(), a@, (Double { bits: double::ONE })@);
}

/// Whole numbers below 2^53 are their own whole part.
pub proof fn law_whole_part_of_whole(n: nat, max: nat)
    requires
        n < 0x20_0000_0000_0000,
        n <= max,
    ensures
        double::floor(double::from_int(n), max) == n,
        double::whole_part(double::from_int(n)) == double::from_int(n),
{
    let f = arith::double();
    law_whole_numbers_are_exact(n);
    reveal(double::floor);
    lemma_pow2_pos(f.unit);
    lemma_div_multiples_vanish(n as int, pow2(f.unit) as int);
    lemma_mul_is_commutative(n as int, pow2(f.unit) as int);
}

/// Whole numbers below 2^53 are ordered as the numbers that represent them.
pub proof fn law_whole_numbers_keep_their_order(m: nat, n: nat)
    requires
        m < 0x20_0000_0000_0000,
        n < 0x20_0000_0000_0000,
    ensures
        double::less(double::from_int(m), double::from_int(n)) <==> m < n,
        double::at_most(double::from_int(m), double::from_int(n)) <==> m <= n,
{
    let f = arith::double();
    let a = double::from_int(m);
    let b = double::from_int(n);
    law_whole_numbers_are_exact(m);
    law_whole_numbers_are_exact(n);
    lemma_pow2_pos(f.unit);
    arith::law_magnitudes_order_values(f, a@, b@);
    arith::law_magnitudes_order_values(f, b@, a@);
    let u = pow2(f.unit);
    assert(m * u < n * u <==> m < n) by (nonlinear_arith)
        requires
            u > 0,
    ;
    assert(n * u < m * u <==> n < m) by (nonlinear_arith)
        requires
            u > 0,
    ;
}

/// Zero in double precision is zero in single precision.
pub proof fn law_narrowed_zero()
    ensures
        double::narrowed(Double { bits: double::ZERO }) == (Single { bits: single::ZERO }),
        double::from_int(0) == (Double { bits: double::ZERO }),
{
    reveal(double::narrowed);
    reveal(convert::narrowed);
    reveal(double::from_int);
    reveal(convert::from_nat);
    arith::lemma_zero_is_worth_nothing(24);
    arith::lemma_zero_is_worth_nothing(53);
    lemma_pow2_pos(convert::NARROWING as nat);
    assert(0 * pow2(convert::NARROWING as nat) == 0);
    assert(0 * pow2(arith::double().unit) == 0);
    binary::lemma_nearest_exact(
        24,
        binary::SINGLE_INF as nat,
        0,
        pow2(convert::NARROWING as nat),
        0,
    );
    binary::lemma_nearest_exact(53, binary::DOUBLE_INF as nat, 0, 1, 0);
}

/// A finite number times zero, added to a number, changes nothing, except that it
/// may make a negative zero positive.
pub proof fn law_adding_a_multiple_of_zero(a: Single, d: Single)
    requires
        a@.mag <= binary::SINGLE_INF,
        a.bits != 0x8000_0000,
        single::finite(d),
    ensures
        single::sum(a, single::product(d, Single { bits: single::ZERO })) == a,
{
    let f = arith::single();
    reveal(single::product);
    reveal(arith::product);
    reveal(single::sum);
    arith::lemma_zero_is_worth_nothing(f.p);
    lemma_pow2_pos(f.unit);
    assert(binary::worth(f.p, d@.mag) * 0 == 0);
    assert(0 * pow2(f.unit) == 0);
    binary::lemma_nearest_exact(f.p, f.inf, 0, pow2(f.unit), 0);
    lemma_single_of_view(a);
    assert(a@.mag == 0 && a@.neg ==> a.bits == 0x8000_0000);
    lemma_sum_with_zero(f, a@, d@.neg);
}

/// A whole number that is not zero is a positive number.
proof fn lemma_counts_are_positive(n: nat)
    requires
        0 < n,
    ensures
        !double::from_int(n)@.neg,
        0 < double::from_int(n)@.mag <= binary::DOUBLE_INF,
{
    let f = arith::double();
    let u = pow2(f.unit);
    law_whole_numbers_are_exact(1);
    reveal(double::from_int);
    reveal(convert::from_nat);
    lemma_pow2_pos(f.unit);
    lemma_mul_inequality(1, n as int, u as int);
    binary::law_rounding_is_monotone(f.p, f.inf, 1 * u, n * u, 1);
}

/// The square of a zero is zero.
pub proof fn law_square_of_a_zero(x: Single)
    requires
        x@.mag == 0,
    ensures
        single::widened(x)@.mag == 0,
        double::product(single::widened(x), single::widened(x)) == (Double { bits: double::ZERO }),
{
    let f = arith::double();
    reveal(single::widened);
    reveal(convert::widened);
    reveal(double::product);
    reveal(arith::product);
    arith::lemma_zero_is_worth_nothing(24);
    arith::lemma_zero_is_worth_nothing(53);
    lemma_pow2_pos(f.unit);
    assert(0 * pow2(convert::NARROWING as nat) == 0);
    binary::lemma_nearest_exact(f.p, f.inf, 0, 1, 0);
    binary::lemma_nearest_exact(f.p, f.inf, 0, pow2(f.unit), 0);
}

/// A number between zero and one stays there when it is rounded to single precision.
pub proof fn law_narrowed_fraction(x: Double)
    requires
        double::at_most(Double { bits: double::ZERO }, x),
        double::at_most(x, Double { bits: double::ONE }),
    ensures
        single::at_most(Single { bits: single::ZERO }, double::narrowed(x)),
        single::at_most(double::narrowed(x), Single { bits: single::ONE }),
{
    reveal(double::narrowed);
    reveal(convert::narrowed);
    lemma2_to64();
    lemma_single_one();
    lemma_double_one();
    let one = (Double { bits: double::ONE })@;
    let w = binary::worth(53, x@.mag);
    let d = pow2(convert::NARROWING as nat);
    lemma_pow2_pos(convert::NARROWING as nat);
    lemma_pow2_adds(arith::single().unit, convert::NARROWING as nat);
    if x@.mag < one.mag {
        binary::lemma_worth_increases(53, x@.mag, one.mag);
    }
    binary::law_rounding_is_monotone(
        24,
        binary::SINGLE_INF as nat,
        w,
        binary::worth(53, one.mag),
        d,
    );
    binary::lemma_nearest_exact(
        24,
        binary::SINGLE_INF as nat,
        binary::worth(53, one.mag),
        d,
        (Single { bits: single::ONE })@.mag,
    );
    arith::lemma_zero_is_worth_nothing(24);
    arith::lemma_zero_is_worth_nothing(53);
    assert(0 * d == 0);
    binary::lemma_nearest_exact(24, binary::SINGLE_INF as nat, 0, d, 0);
}

/// Zero stays zero when it is widened, squared, added to zero or divided by a whole
/// number, and so does its root.
pub proof fn law_double_zero(n: nat)
    requires
        0 < n,
    ensures
        ({
            let zero = Double { bits: double::ZERO };
            &&& single::widened(Single { bits: single::ZERO }) == zero
            &&& double::product(zero, zero) == zero
            &&& double::sum(zero, zero) == zero
            &&& double::quotient(zero, double::from_int(n)) == zero
            &&& double::square_root(zero) == zero
        }),
{
    let f = arith::double();
    reveal(single::widened);
    reveal(convert::widened);
    reveal(double::product);
    reveal(arith::product);
    reveal(double::sum);
    reveal(arith::sum);
    reveal(double::quotient);
    reveal(arith::quotient);
    reveal(double::square_root);
    reveal(crate::ieee::root::root);
    arith::lemma_zero_is_worth_nothing(24);
    arith::lemma_zero_is_worth_nothing(53);
    lemma_counts_are_positive(n);
    lemma_pow2_pos(f.unit);
    lemma_pow2_pos(convert::NARROWING as nat);
    let w = binary::worth(f.p, double::from_int(n)@.mag);
    binary::lemma_worth_increases(f.p, 0, double::from_int(n)@.mag);
    assert(0 * pow2(convert::NARROWING as nat) == 0);
    assert(0 * pow2(f.unit) == 0);
    assert(0 * w == 0);
    binary::lemma_nearest_exact(f.p, f.inf, 0, 1, 0);
    binary::lemma_nearest_exact(f.p, f.inf, 0, pow2(f.unit), 0);
    binary::lemma_nearest_exact(f.p, f.inf, 0, w, 0);
    law_square_of_a_zero(Single { bits: single::ZERO });
}

/// A root, rounded to single precision, is not negative.
pub proof fn law_roots_are_not_negative(a: Double)
    ensures
        !single::less(double::narrowed(double::square_root(a)), Single { bits: single::ZERO }),
{
    reveal(double::narrowed);
    reveal(convert::narrowed);
    reveal(double::square_root);
    reveal(crate::ieee::root::root);
    lemma2_to64();
    let x = crate::ieee::root::root(a@);
    crate::ieee::root::lemma_root_is_bounded(a@);
    assert(double::square_root(a)@ == x);
    if x.mag < binary::DOUBLE_INF {
        let w = binary::worth(53, x.mag);
        let d = pow2(convert::NARROWING as nat);
        lemma_pow2_pos(convert::NARROWING as nat);
        binary::law_rounding_is_monotone(24, binary::SINGLE_INF as nat, w, w, d);
        if x.neg {
            arith::lemma_zero_is_worth_nothing(24);
            arith::lemma_zero_is_worth_nothing(53);
            assert(0 * d == 0);
            binary::lemma_nearest_exact(24, binary::SINGLE_INF as nat, 0, d, 0);
        }
    }
}

/// A zero divided by a number other than zero is a zero.
pub proof fn law_zero_over_a_number(a: Single, d: Single)
    requires
        a@.mag == 0,
        single::finite(d),
        d@.mag > 0,
    ensures
        single::quotient(a, d)@.mag == 0,
{
    let f = arith::single();
    reveal(single::quotient);
    reveal(arith::quotient);
    arith::lemma_zero_is_worth_nothing(24);
    let w = binary::worth(24, d@.mag);
    let u = pow2(149);
    binary::lemma_worth_increases(24, 0, d@.mag);
    assert(0 * w == 0 && 0 * u == 0) by (nonlinear_arith);
    binary::lemma_nearest_exact(24, f.inf, 0, w, 0);
}

} // verus!
