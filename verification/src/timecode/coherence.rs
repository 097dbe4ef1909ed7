//! What the confidence measures: how much of a block turns as one.

use vstd::arithmetic::power2::*;
use vstd::prelude::*;

use crate::ieee::arith;
use crate::ieee::binary;
use crate::ieee::bounds;
use crate::ieee::double;
use crate::ieee::double::Double;
use crate::ieee::exact;
use crate::ieee::exact::double_value;
use crate::ieee::exact::near;
use crate::ieee::exact::single_value;
use crate::ieee::identities;
use crate::ieee::means;
use crate::ieee::order;
use crate::ieee::single;
use crate::ieee::single::Single;
use crate::timecode::decoder;
use crate::timecode::decoder::BlockSums;
use crate::timecode::decoder::DecodeOutput;
use crate::timecode::decoder::DecoderView;
use crate::timecode::turning;

verus! {

/// Whether a power, in exact units, is at least a billionth of a thousandth.
pub open spec fn audible(power: int) -> bool {
    power * 1_000_000_000_000 >= pow2(1074)
}

/// The square of the length of a sum of turns, exactly.
pub open spec fn length_squared(s: BlockSums) -> int {
    double_value(s.re) * double_value(s.re) + double_value(s.im) * double_value(s.im)
}

/// The lesser of two numbers.
pub open spec fn lesser(a: int, b: int) -> int {
    if a <= b {
        a
    } else {
        b
    }
}

/// The floor of the power lies just below a billionth of a thousandth.
proof fn lemma_floor()
    ensures
        ({
            let f = double_value(Double { bits: decoder::POWER_FLOOR });
            &&& f * 1_000_000_000_000 < pow2(1074)
            &&& f * 1_000_000_000_001 > pow2(1074)
            &&& double::finite(Double { bits: decoder::POWER_FLOOR })
        }),
{
    let m: nat = 0x11_9799_812d_ea11;
    lemma2_to64();
    lemma2_to64_rest();
    binary::lemma_worth_of_encode(53, m, 982);
    assert(binary::encode(53, m, 982) == decoder::POWER_FLOOR);
    lemma_pow2_adds(92, 982);
    lemma_pow2_adds(46, 46);
    lemma_pow2_pos(982);
    let k = pow2(982) as int;
    assert((m * k) * 1_000_000_000_000 < pow2(92) * k && (m * k) * 1_000_000_000_001 > pow2(92)
        * k) by (nonlinear_arith)
        requires
            m == 0x11_9799_812d_ea11,
            pow2(92) == pow2(46) * pow2(46),
            pow2(46) == 0x4000_0000_0000,
            k > 0,
    ;
}

/// Which powers are above the floor.
proof fn lemma_above_the_floor(power: Double)
    requires
        double::finite(power),
    ensures
        audible(double_value(power)) ==> double::less(
            Double { bits: decoder::POWER_FLOOR },
            power,
        ),
        double_value(power) * 1_000_000_000_001 <= pow2(1074) ==> !double::less(
            Double { bits: decoder::POWER_FLOOR },
            power,
        ),
{
    lemma_floor();
    arith::law_magnitudes_order_values(
        arith::double(),
        (Double { bits: decoder::POWER_FLOOR })@,
        power@,
    );
}

/// The length of a vector that is not tiny, from its two parts.
proof fn lemma_length_is_close(re: Double, im: Double)
    requires
        double::finite(re),
        double::finite(im),
        exact::abs(double_value(re)) <= pow2(1384),
        exact::abs(double_value(im)) <= pow2(1384),
        pow2(1800) <= double_value(re) * double_value(re) + double_value(im) * double_value(im),
    ensures
        ({
            let l = double::square_root(
                double::sum(double::product(re, re), double::product(im, im)),
            );
            let e = double_value(re) * double_value(re) + double_value(im) * double_value(im);
            &&& l@.mag <= binary::DOUBLE_INF
            &&& !l@.neg
            &&& near(double_value(l) * double_value(l), e, pow2(48))
        }),
{
    let a = double::product(re, re);
    let b = double::product(im, im);
    let x = double_value(re);
    let y = double_value(im);
    let e = x * x + y * y;
    let u = pow2(1074) as int;
    lemma2_to64();
    lemma2_to64_rest();
    lemma_pow2_pos(1074);
    lemma_pow2_strictly_increases(1384, 1500);
    means::lemma_square_is_nearly_exact(re);
    means::lemma_square_is_nearly_exact(im);
    assert(x * x >= 0 && y * y >= 0) by (nonlinear_arith);
    let av = double_value(a);
    let bv = double_value(b);
    // The two squares.
    lemma_pow2_unfold(1128);
    lemma_pow2_strictly_increases(1128, 1800);
    let p = exact::abs(av * u - x * x) as int;
    let q = exact::abs(bv * u - y * y) as int;
    let t = (av + bv) * u;
    assert(t == av * u + bv * u) by (nonlinear_arith)
        requires
            t == (av + bv) * u,
    ;
    let d = exact::abs(t - e) as int;
    assert(d <= p + q);
    assert(pow2(52) * d <= e) by (nonlinear_arith)
        requires
            d <= p + q,
            pow2(53) * p <= x * x + pow2(1127),
            pow2(53) * q <= y * y + pow2(1127),
            e == x * x + y * y,
            pow2(1127) + pow2(1127) <= e,
            pow2(53) == 2 * pow2(52),
    ;
    assert(near(t, e, pow2(52)));
    exact::lemma_near_bounds(t, e, pow2(52));
    // Their sum.
    let s = double::sum(a, b);
    assert(av >= 0 && bv >= 0);
    lemma_pow2_adds(1384, 1384);
    lemma_pow2_unfold(2769);
    lemma_pow2_unfold(2770);
    assert(x * x <= pow2(2768) && y * y <= pow2(2768)) by (nonlinear_arith)
        requires
            exact::abs(x) <= pow2(1384),
            exact::abs(y) <= pow2(1384),
            exact::abs(x) == x || exact::abs(x) == -x,
            exact::abs(y) == y || exact::abs(y) == -y,
            exact::abs(x) >= 0,
            exact::abs(y) >= 0,
            pow2(2768) == pow2(1384) * pow2(1384),
    ;
    lemma_pow2_adds(2098, 1074);
    lemma_pow2_strictly_increases(2770, 3172);
    assert(av + bv < pow2(2098)) by (nonlinear_arith)
        requires
            t == (av + bv) * u,
            t < pow2(3172),
            pow2(3172) == pow2(2098) * u,
            u > 0,
    ;
    exact::lemma_top();
    reveal(double::sum);
    exact::lemma_sum_is_close(arith::double(), a@, b@);
    assert(s@ == arith::sum(arith::double(), a@, b@));
    let sv = double_value(s);
    assert(near(sv, av + bv, pow2(53)));
    exact::lemma_near_scales(sv, av + bv, u, pow2(53));
    exact::lemma_near_chains(sv * u, t, e, pow2(53), pow2(52), pow2(50));
    exact::lemma_near_bounds(sv * u, e, pow2(50));
    // The root.
    lemma_pow2_adds(725, 1074);
    lemma_pow2_unfold(1800);
    lemma_pow2_strictly_increases(100, 725);
    assert(sv >= pow2(725)) by (nonlinear_arith)
        requires
            sv * u >= pow2(1799),
            pow2(1799) == pow2(725) * u,
            u > 0,
    ;
    assert(sv < pow2(2098)) by (nonlinear_arith)
        requires
            2 * (sv * u) <= 3 * pow2(2769),
            3 * pow2(2769) < 2 * pow2(3172),
            pow2(3172) == pow2(2098) * u,
            u > 0,
    ;
    lemma_pow2_pos(725);
    assert(double::finite(s));
    means::lemma_root_squared(s);
    let l = double::square_root(s);
    exact::lemma_near_chains(
        double_value(l) * double_value(l),
        sv * u,
        e,
        pow2(50),
        pow2(50),
        pow2(48),
    );
}

/// What is near stays near when both are kept below a bound.
proof fn lemma_near_below(a: int, b: int, c: int, d: nat)
    requires
        near(a, b, d),
        d >= 1,
        a >= 0,
        b >= 0,
        c >= 0,
    ensures
        near(lesser(a, c), lesser(b, c), d),
{
    let p = exact::abs(a - b) as int;
    let x = lesser(a, c);
    let y = lesser(b, c);
    let q = exact::abs(x - y) as int;
    if a <= c && b > c {
        // d * (c - a) <= c, since d * (b - a) <= b and b > c.
        assert(d * q <= c) by (nonlinear_arith)
            requires
                q == c - a,
                p == b - a,
                d * p <= b,
                c < b,
                d >= 1,
        ;
    } else if a > c && b <= c {
        assert(d * q <= b) by (nonlinear_arith)
            requires
                0 <= q <= p,
                d * p <= b,
                d >= 1,
        ;
    } else if a > c && b > c {
        assert(d * 0 == 0);
    }
}

/// A share of the power: the length of the sum of turns over the power.
proof fn lemma_share_is_close(length: Double, power: Double, e: int)
    requires
        length@.mag <= binary::DOUBLE_INF,
        !length@.neg,
        double::finite(power),
        !power@.neg,
        near(double_value(length) * double_value(length), e, pow2(48)),
        pow2(1034) <= double_value(power) <= pow2(1384),
        double_value(power) * double_value(power) <= e * pow2(200),
        0 < e <= pow2(2769),
    ensures
        ({
            let q = double::quotient(length, power);
            let p = double_value(power);
            let x = double_value(q);
            &&& q@.mag <= binary::DOUBLE_INF
            &&& !q@.neg
            &&& 2 * x >= pow2(973)
            &&& near(
                (x * x) * (p * p),
                e * (pow2(1074) * pow2(1074)),
                pow2(46),
            )
        }),
{
    let u = pow2(1074) as int;
    let l = double_value(length);
    let p = double_value(power);
    lemma2_to64();
    lemma2_to64_rest();
    lemma_pow2_pos(1074);
    lemma_pow2_pos(1034);
    exact::lemma_top();
    arith::lemma_zero_is_worth_nothing(53);
    assert(power@.mag > 0);
    exact::lemma_near_bounds(l * l, e, pow2(48));
    // The length lies between a part of the power and a power of two.
    lemma_pow2_unfold(2770);
    lemma_pow2_adds(1385, 1385);
    means::lemma_root_order(pow2(1385) as int, l);
    lemma_pow2_strictly_increases(1385, 2098);
    assert(double::finite(length));
    lemma_pow2_adds(101, 101);
    lemma_pow2_unfold(202);
    lemma_pow2_unfold(201);
    let k = pow2(101) as int;
    let lk = l * k;
    assert(lk * lk >= p * p) by (nonlinear_arith)
        requires
            lk == l * k,
            k * k == pow2(202),
            pow2(202) == 4 * pow2(200),
            2 * (l * l) >= e,
            p * p <= e * pow2(200),
            pow2(200) >= 0,
    ;
    assert(lk >= 0) by (nonlinear_arith)
        requires
            lk == l * k,
            l >= 0,
            k >= 0,
    ;
    means::lemma_root_order(lk, p);
    lemma_pow2_adds(973, 101);
    lemma_pow2_unfold(974);
    lemma_pow2_adds(974, 100);
    lemma_pow2_strictly_increases(52, 973);
    assert(pow2(973) * p <= l * u && pow2(52) * p <= l * u) by (nonlinear_arith)
        requires
            p <= l * k,
            u == pow2(973) * k,
            pow2(52) <= pow2(973),
            p > 0,
            pow2(52) >= 0,
    ;
    lemma_pow2_strictly_increases(1385, 2058);
    lemma_pow2_adds(2058, 1074);
    lemma_pow2_adds(2098, 1034);
    lemma_pow2_pos(2098);
    assert(l * u < pow2(2098) * p) by (nonlinear_arith)
        requires
            0 <= l <= pow2(1385),
            pow2(1385) < pow2(2058),
            pow2(2058) * u == pow2(2098) * pow2(1034),
            pow2(1034) <= p,
            pow2(2098) > 0,
            u > 0,
    ;
    means::lemma_quotient_is_close(length, power);
    let q = double::quotient(length, power);
    let x = double_value(q);
    let xp = x * p;
    let lu = l * u;
    assert(xp >= 0) by (nonlinear_arith)
        requires
            xp == x * p,
            x >= 0,
            p > 0,
    ;
    assert(lu >= 0) by (nonlinear_arith)
        requires
            lu == l * u,
            l >= 0,
            u > 0,
    ;
    exact::lemma_near_bounds(xp, lu, pow2(53));
    exact::lemma_near_squares(xp, lu, pow2(51));
    assert(xp * xp == (x * x) * (p * p)) by (nonlinear_arith)
        requires
            xp == x * p,
    ;
    assert(lu * lu == (l * l) * (u * u)) by (nonlinear_arith)
        requires
            lu == l * u,
    ;
    assert(u * u > 0) by (nonlinear_arith)
        requires
            u > 0,
    ;
    exact::lemma_near_scales(l * l, e, u * u, pow2(48));
    exact::lemma_near_chains(xp * xp, lu * lu, e * (u * u), pow2(51), pow2(48), pow2(46));
    lemma_share_is_not_tiny(x, p, l, u, k);
}

/// A share of at least one part in `2^101` is no less than half that when it is rounded.
proof fn lemma_share_is_not_tiny(x: int, p: int, l: int, u: int, k: int)
    requires
        p > 0,
        k > 0,
        u == pow2(1074),
        k == pow2(101),
        p <= l * k,
        2 * (x * p) >= l * u,
        u == pow2(973) * k,
    ensures
        2 * x >= pow2(973),
{
    assert(l * u >= pow2(973) * p) by (nonlinear_arith)
        requires
            p <= l * k,
            u == pow2(973) * k,
            pow2(973) >= 0,
    ;
    assert(2 * x >= pow2(973)) by (nonlinear_arith)
        requires
            2 * (x * p) >= pow2(973) * p,
            p > 0,
    ;
}

/// A share, kept at or below one and narrowed.
proof fn lemma_kept_share(q: Double, p: int, e: int)
    requires
        q@.mag <= binary::DOUBLE_INF,
        !q@.neg,
        2 * double_value(q) >= pow2(973),
        p > 0,
        e > 0,
        near(
            (double_value(q) * double_value(q)) * (p * p),
            e * (pow2(1074) * pow2(1074)),
            pow2(46),
        ),
    ensures
        ({
            let c = double::narrowed(
                double::clamped(q, decoder::zero(), Double { bits: double::ONE }),
            );
            let v = single_value(c);
            &&& single::finite(c)
            &&& !c@.neg
            &&& near((v * v) * (p * p), lesser(e, p * p) * pow2(298), pow2(20))
        }),
{
    let u = pow2(1074) as int;
    let one = Double { bits: double::ONE };
    let x = double_value(q);
    let k = double::clamped(q, decoder::zero(), one);
    let y = double_value(k);
    lemma2_to64();
    lemma2_to64_rest();
    lemma_pow2_pos(1074);
    exact::lemma_top();
    arith::lemma_zero_is_worth_nothing(53);
    bounds::lemma_two_to(0);
    assert(bounds::two_to(0) == double::ONE);
    assert(double_value(one) == u);
    arith::law_magnitudes_order_values(arith::double(), q@, decoder::zero()@);
    arith::law_magnitudes_order_values(arith::double(), one@, q@);
    assert(y == lesser(x, u));
    let pp = p * p;
    assert(pp > 0) by (nonlinear_arith)
        requires
            pp == p * p,
            p > 0,
    ;
    let uu = u * u;
    assert(uu > 0) by (nonlinear_arith)
        requires
            uu == u * u,
            u > 0,
    ;
    // The share squared times the power squared, kept below one times the power squared.
    let a = (x * x) * pp;
    let b = e * uu;
    let c = uu * pp;
    assert(a >= 0 && b >= 0 && c >= 0) by (nonlinear_arith)
        requires
            a == (x * x) * pp,
            b == e * uu,
            c == uu * pp,
            pp > 0,
            uu > 0,
            e > 0,
    ;
    lemma_near_below(a, b, c, pow2(46));
    assert((y * y) * pp == lesser(a, c)) by {
        if x <= u {
            assert(a <= c) by (nonlinear_arith)
                requires
                    0 <= x <= u,
                    a == (x * x) * pp,
                    c == (u * u) * pp,
                    pp > 0,
            ;
        } else {
            assert(a >= c) by (nonlinear_arith)
                requires
                    0 <= u <= x,
                    a == (x * x) * pp,
                    c == (u * u) * pp,
                    pp > 0,
            ;
        }
    }
    let m = lesser(e, pp);
    assert(lesser(b, c) == m * uu) by (nonlinear_arith)
        requires
            b == e * uu,
            c == uu * pp,
            uu > 0,
            m == lesser(e, pp),
            lesser(b, c) == (if b <= c {
                b
            } else {
                c
            }),
            lesser(e, pp) == (if e <= pp {
                e
            } else {
                pp
            }),
    ;
    // Narrowed.
    lemma_pow2_unfold(973);
    lemma_pow2_strictly_increases(948, 972);
    lemma_pow2_strictly_increases(972, 1074);
    lemma_pow2_strictly_increases(1074, 1202);
    lemma_pow2_strictly_increases(1202, 2098);
    assert(pow2(948) <= y < pow2(1202));
    assert(double::finite(k));
    means::lemma_narrowed_is_close(k);
    let out = double::narrowed(k);
    let v = single_value(out);
    let n = pow2(925) as int;
    lemma_pow2_pos(925);
    let vn = v * n;
    exact::lemma_near_bounds(vn, y, pow2(24));
    exact::lemma_near_squares(vn, y, pow2(22));
    exact::lemma_near_scales(vn * vn, y * y, pp, pow2(22));
    exact::lemma_near_chains(
        (vn * vn) * pp,
        (y * y) * pp,
        m * uu,
        pow2(22),
        pow2(46),
        pow2(20),
    );
    lemma_pow2_adds(925, 925);
    lemma_pow2_adds(1074, 1074);
    lemma_pow2_adds(298, 1850);
    lemma_pow2_pos(1850);
    let nn = pow2(1850) as int;
    assert((vn * vn) * pp == ((v * v) * pp) * nn) by (nonlinear_arith)
        requires
            vn == v * n,
            nn == n * n,
    ;
    assert(m * uu == (m * pow2(298)) * nn) by (nonlinear_arith)
        requires
            uu == pow2(298) * nn,
    ;
    exact::lemma_near_scales((v * v) * pp, m * pow2(298), nn, pow2(20));
    assert(single::finite(out) && !out@.neg) by {
        if out@.mag >= binary::SINGLE_INF {
            lemma_pow2_adds(277, 925);
            lemma_pow2_unfold(1202);
            lemma_pow2_strictly_increases(1074, 1201);
            lemma_pow2_unfold(1201);
            lemma_pow2_strictly_increases(1074, 1200);
        }
    }
}

/// Confidence measures coherence: above the floor, confidence times the power is the length of
/// the sum of turns, or the power where the length exceeds it, up to rounding. A sum of turns of
/// no length inspires no confidence, and neither does a power below the floor.
pub proof fn law_confidence_measures_coherence(v: DecoderView, s: BlockSums, phase: Double)
    requires
        bounds::within(s.re, 310),
        bounds::within(s.im, 310),
        bounds::within(s.power, 310),
        !s.power@.neg,
    ensures
        ({
            let p = double_value(s.power);
            let e = length_squared(s);
            let c = decoder::concluded(v, s, phase).confidence;
            let x = single_value(c);
            &&& e == 0 ==> c == (Single { bits: single::ZERO })
            &&& p * 1_000_000_000_001 <= pow2(1074) ==> c == (Single { bits: single::ZERO })
            &&& audible(p) && p * p <= e * pow2(200) ==> single::finite(c) && !c@.neg && near(
                (x * x) * (p * p),
                lesser(e, p * p) * pow2(298),
                pow2(20),
            )
        }),
{
    let p = double_value(s.power);
    let a = double_value(s.re);
    let b = double_value(s.im);
    let e = length_squared(s);
    bounds::law_within_is_finite(s.re, 310);
    bounds::law_within_is_finite(s.im, 310);
    bounds::law_within_is_finite(s.power, 310);
    lemma_within(s.re);
    lemma_within(s.im);
    lemma_within(s.power);
    lemma_above_the_floor(s.power);
    let length = double::square_root(
        double::sum(double::product(s.re, s.re), double::product(s.im, s.im)),
    );
    assert(a * a >= 0 && b * b >= 0) by (nonlinear_arith);
    if e == 0 {
        assert(a == 0 && b == 0) by (nonlinear_arith)
            requires
                a * a + b * b == 0,
        ;
        arith::lemma_zero_is_worth_nothing(53);
        assert(s.re@.mag == 0 && s.im@.mag == 0) by {
            if s.re@.mag > 0 {
                binary::lemma_worth_increases(53, 0, s.re@.mag);
            }
            if s.im@.mag > 0 {
                binary::lemma_worth_increases(53, 0, s.im@.mag);
            }
        }
        if double::less(Double { bits: decoder::POWER_FLOOR }, s.power) {
            lemma_no_length(s.re, s.im, s.power);
        }
    }
    if audible(p) && p * p <= e * pow2(200) {
        lemma2_to64();
        lemma2_to64_rest();
        lemma_pow2_adds(40, 1034);
        lemma_pow2_pos(1034);
        assert(p >= pow2(1034)) by (nonlinear_arith)
            requires
                p * 1_000_000_000_000 >= 0x100_0000_0000 * pow2(1034),
                p >= 0,
                pow2(1034) > 0,
        ;
        lemma_pow2_adds(1034, 1034);
        lemma_pow2_adds(1868, 200);
        lemma_pow2_pos(200);
        lemma_pow2_strictly_increases(1800, 1868);
        lemma_pow2_pos(1800);
        assert(e >= pow2(1868)) by (nonlinear_arith)
            requires
                pow2(1868) * pow2(200) == pow2(1034) * pow2(1034),
                p >= pow2(1034),
                p * p <= e * pow2(200),
                pow2(200) > 0,
                pow2(1034) > 0,
        ;
        lemma_length_is_close(s.re, s.im);
        lemma_pow2_adds(1384, 1384);
        lemma_pow2_unfold(2769);
        assert(a * a <= pow2(2768) && b * b <= pow2(2768)) by (nonlinear_arith)
            requires
                exact::abs(a) <= pow2(1384),
                exact::abs(b) <= pow2(1384),
                exact::abs(a) == a || exact::abs(a) == -a,
                exact::abs(b) == b || exact::abs(b) == -b,
                exact::abs(a) >= 0,
                exact::abs(b) >= 0,
                pow2(2768) == pow2(1384) * pow2(1384),
        ;
        lemma_share_is_close(length, s.power, e);
        lemma_kept_share(double::quotient(length, s.power), p, e);
    }
}

/// What a number within `2^310` is worth.
proof fn lemma_within(a: Double)
    requires
        bounds::within(a, 310),
    ensures
        exact::abs(double_value(a)) <= pow2(1384),
{
    bounds::lemma_two_to(310);
    if a@.mag < bounds::two_to(310) {
        binary::lemma_worth_increases(53, a@.mag, bounds::two_to(310));
    }
}

/// A vector of no length is no share of a power.
proof fn lemma_no_length(re: Double, im: Double, power: Double)
    requires
        re@.mag == 0,
        im@.mag == 0,
        double::finite(power),
        !power@.neg,
        power@.mag > 0,
    ensures
        ({
            let length = double::square_root(
                double::sum(double::product(re, re), double::product(im, im)),
            );
            double::narrowed(
                double::clamped(
                    double::quotient(length, power),
                    decoder::zero(),
                    Double { bits: double::ONE },
                ),
            ) == (Single { bits: single::ZERO })
        }),
{
    let z = decoder::zero();
    arith::lemma_zero_is_worth_nothing(53);
    identities::law_double_multiples_of_zero(re, re);
    identities::law_double_multiples_of_zero(im, im);
    order::law_double_square_is_not_negative(re);
    order::law_double_square_is_not_negative(im);
    assert(double::product(re, re) == z && double::product(im, im) == z);
    identities::law_double_zero(1);
    identities::law_double_multiples_of_zero(z, power);
    reveal(double::quotient);
    reveal(arith::quotient);
    let q = double::quotient(z, power);
    let w = binary::worth(53, power@.mag);
    binary::lemma_worth_increases(53, 0, power@.mag);
    let u = pow2(1074);
    assert(0 * w == 0 && 0 * u == 0) by (nonlinear_arith);
    binary::lemma_nearest_exact(53, binary::DOUBLE_INF as nat, 0, w, 0);
    assert(q@ == arith::quotient(arith::double(), z@, power@));
    assert(q == z);
    identities::law_narrowed_zero();
}

/// A block holds sixteen-bit audio: sample `i` is `m[i]` steps.
pub open spec fn sixteen_bit_block(stereo: Seq<Single>, m: Seq<int>) -> bool {
    &&& m.len() == stereo.len()
    &&& forall|i: int|
        0 <= i < stereo.len() ==> #[trigger] exact::sixteen_bit(stereo[i], m[i])
}

/// A number of double precision is `m` steps of sixteen-bit audio.
pub open spec fn steps(a: Double, m: int) -> bool {
    &&& double::finite(a)
    &&& -0x8000 <= m <= 0x8000
    &&& double_value(a) == m * pow2(1059)
}

/// A number of double precision is `m` squared steps.
pub open spec fn square_steps(a: Double, m: int) -> bool {
    &&& double::finite(a)
    &&& double_value(a) == m * pow2(1044)
}

/// Widened steps are as many steps.
pub proof fn lemma_widened_steps(a: Single, m: int)
    requires
        exact::sixteen_bit(a, m),
    ensures
        steps(single::widened(a), m),
{
    exact::lemma_widened_value(a);
    lemma_pow2_adds(134, 925);
    assert(m * pow2(134) * pow2(925) == m * pow2(1059)) by (nonlinear_arith)
        requires
            pow2(1059) == pow2(134) * pow2(925),
    ;
}

/// Products of steps are exact.
proof fn lemma_product_of_steps(a: Double, b: Double, m: int, n: int)
    requires
        steps(a, m),
        steps(b, n),
    ensures
        square_steps(double::product(a, b), m * n),
        -0x4000_0000 <= m * n <= 0x4000_0000,
{
    assert(-0x4000_0000 <= m * n <= 0x4000_0000) by (nonlinear_arith)
        requires
            -0x8000 <= m <= 0x8000,
            -0x8000 <= n <= 0x8000,
    ;
    lemma2_to64();
    lemma2_to64_rest();
    lemma_pow2_adds(1059, 1059);
    lemma_pow2_adds(1044, 1074);
    lemma_pow2_pos(1074);
    let x = double_value(a);
    let y = double_value(b);
    let u = pow2(1074) as int;
    let k = pow2(1044) as int;
    assert(x * y == (m * n) * (k * u)) by (nonlinear_arith)
        requires
            x == m * pow2(1059),
            y == n * pow2(1059),
            k * u == pow2(1059) * pow2(1059),
    ;
    exact::lemma_abs_times(m * n, (k * u) as int);
    let w = exact::abs(m * n);
    assert(w * (k * u) == (w * k) * u) by (nonlinear_arith);
    lemma_fits(w);
    exact::lemma_double_product(a, b, w, 1044);
    let r = double_value(double::product(a, b));
    assert(r == (m * n) * k) by (nonlinear_arith)
        requires
            r * u == (m * n) * (k * u),
            u > 0,
    ;
}

/// Small counts of squared steps are in range.
proof fn lemma_fits(w: nat)
    requires
        w <= pow2(53),
    ensures
        w * pow2(1044) < pow2(2098),
{
    lemma_pow2_adds(53, 1044);
    lemma_pow2_strictly_increases(1097, 2098);
    lemma_pow2_pos(1044);
    assert(w * pow2(1044) <= pow2(53) * pow2(1044)) by (nonlinear_arith)
        requires
            w <= pow2(53),
            pow2(1044) > 0,
    ;
}

/// Sums and differences of squared steps are exact.
proof fn lemma_sum_of_steps(a: Double, b: Double, m: int, n: int)
    requires
        square_steps(a, m),
        square_steps(b, n),
        exact::abs(m) + exact::abs(n) <= 0x20_0000_0000_0000,
    ensures
        square_steps(double::sum(a, b), m + n),
        square_steps(double::difference(a, b), m - n),
{
    lemma2_to64_rest();
    let k = pow2(1044);
    assert(m * k + n * k == (m + n) * k && m * k - n * k == (m - n) * k) by (nonlinear_arith);
    exact::lemma_abs_times(m + n, k as int);
    exact::lemma_abs_times(m - n, k as int);
    lemma_fits(exact::abs(m + n));
    lemma_fits(exact::abs(m - n));
    exact::lemma_double_sum(a, b, exact::abs(m + n), 1044);
    exact::lemma_double_difference(a, b, exact::abs(m - n), 1044);
}

/// The sums over frames of sixteen-bit audio are whole numbers of squared steps.
proof fn lemma_sums_are_exact(
    v: DecoderView,
    stereo: Seq<Single>,
    m: Seq<int>,
    a: int,
    b: int,
    n: nat,
) -> (r: (int, int, int))
    requires
        sixteen_bit_block(stereo, m),
        v.primed ==> steps(v.prev_re, a) && steps(v.prev_im, b),
        2 * n <= stereo.len(),
        n <= 0x10_0000,
    ensures
        ({
            let s = decoder::sums(v, stereo, n);
            &&& square_steps(s.re, r.0)
            &&& square_steps(s.im, r.1)
            &&& square_steps(s.power, r.2)
            &&& exact::abs(r.0) <= n * 0x8000_0000
            &&& exact::abs(r.1) <= n * 0x8000_0000
            &&& 0 <= r.2 <= n * 0x8000_0000
            &&& n == 0 ==> r == (0int, 0int, 0int)
        }),
    decreases n,
{
    if n == 0 {
        arith::lemma_zero_is_worth_nothing(53);
        assert(0 * pow2(1044) == 0);
        (0, 0, 0)
    } else {
        let k = n - 1;
        let (p, q, w) = lemma_sums_are_exact(v, stereo, m, a, b, k as nat);
        lemma_a_turn_counts(v, stereo, m, a, b, k, p, q, w);
        let x = m[2 * k + 1];
        let y = m[2 * k];
        let c = if k == 0 {
            a
        } else {
            m[2 * k - 1]
        };
        let d = if k == 0 {
            b
        } else {
            m[2 * k - 2]
        };
        if k > 0 || v.primed {
            (p + (x * c + y * d), q + (y * c - x * d), w + (x * x + y * y))
        } else {
            (p, q, w + (x * x + y * y))
        }
    }
}

/// One frame more.
proof fn lemma_a_turn_counts(
    v: DecoderView,
    stereo: Seq<Single>,
    m: Seq<int>,
    a: int,
    b: int,
    k: int,
    p: int,
    q: int,
    w: int,
)
    requires
        sixteen_bit_block(stereo, m),
        v.primed ==> steps(v.prev_re, a) && steps(v.prev_im, b),
        2 * (k + 1) <= stereo.len(),
        0 <= k < 0x10_0000,
        ({
            let s = decoder::sums(v, stereo, k as nat);
            &&& square_steps(s.re, p)
            &&& square_steps(s.im, q)
            &&& square_steps(s.power, w)
            &&& exact::abs(p) <= k * 0x8000_0000
            &&& exact::abs(q) <= k * 0x8000_0000
            &&& 0 <= w <= k * 0x8000_0000
        }),
    ensures
        ({
            let s = decoder::sums(v, stereo, (k + 1) as nat);
            let x = m[2 * k + 1];
            let y = m[2 * k];
            let c = if k == 0 {
                a
            } else {
                m[2 * k - 1]
            };
            let d = if k == 0 {
                b
            } else {
                m[2 * k - 2]
            };
            &&& square_steps(s.power, w + (x * x + y * y))
            &&& 0 <= x * x + y * y <= 0x8000_0000
            &&& k > 0 || v.primed ==> {
                &&& square_steps(s.re, p + (x * c + y * d))
                &&& square_steps(s.im, q + (y * c - x * d))
                &&& exact::abs(x * c + y * d) <= 0x8000_0000
                &&& exact::abs(y * c - x * d) <= 0x8000_0000
            }
            &&& k == 0 && !v.primed ==> square_steps(s.re, p) && square_steps(s.im, q)
        }),
{
    let s = decoder::sums(v, stereo, k as nat);
    let x = m[2 * k + 1];
    let y = m[2 * k];
    let re = decoder::re_at(stereo, k);
    let im = decoder::im_at(stereo, k);
    assert(exact::sixteen_bit(stereo[2 * k + 1], m[2 * k + 1]));
    assert(exact::sixteen_bit(stereo[2 * k], m[2 * k]));
    lemma_widened_steps(stereo[2 * k + 1], x);
    lemma_widened_steps(stereo[2 * k], y);
    lemma_product_of_steps(re, re, x, x);
    lemma_product_of_steps(im, im, y, y);
    assert(x * x >= 0 && y * y >= 0) by (nonlinear_arith);
    lemma_sum_of_steps(double::product(re, re), double::product(im, im), x * x, y * y);
    lemma_sum_of_steps(
        s.power,
        double::sum(double::product(re, re), double::product(im, im)),
        w,
        x * x + y * y,
    );
    if k > 0 || v.primed {
        let (prev_re, prev_im, primed) = decoder::previous(v, stereo, k);
        let c = if k == 0 {
            a
        } else {
            m[2 * k - 1]
        };
        let d = if k == 0 {
            b
        } else {
            m[2 * k - 2]
        };
        if k > 0 {
            assert(exact::sixteen_bit(stereo[2 * k - 1], m[2 * k - 1]));
            assert(exact::sixteen_bit(stereo[2 * k - 2], m[2 * k - 2]));
            lemma_widened_steps(stereo[2 * k - 1], c);
            lemma_widened_steps(stereo[2 * k - 2], d);
            assert(2 * (k - 1) + 1 == 2 * k - 1 && 2 * (k - 1) == 2 * k - 2);
        }
        assert(primed && steps(prev_re, c) && steps(prev_im, d));
        lemma_product_of_steps(re, prev_re, x, c);
        lemma_product_of_steps(im, prev_im, y, d);
        lemma_product_of_steps(im, prev_re, y, c);
        lemma_product_of_steps(re, prev_im, x, d);
        lemma_sum_of_steps(
            double::product(re, prev_re),
            double::product(im, prev_im),
            x * c,
            y * d,
        );
        lemma_sum_of_steps(
            double::product(im, prev_re),
            double::product(re, prev_im),
            y * c,
            x * d,
        );
        lemma_sum_of_steps(
            s.re,
            double::sum(double::product(re, prev_re), double::product(im, prev_im)),
            p,
            x * c + y * d,
        );
        lemma_sum_of_steps(
            s.im,
            double::difference(double::product(im, prev_re), double::product(re, prev_im)),
            q,
            y * c - x * d,
        );
    }
}

proof fn lemma_difference(p: int, q: int, z: int)
    ensures
        (p + q) * z - p * z == q * z,
{
    assert((p + q) * z == p * z + q * z) by (nonlinear_arith);
}

/// Of sixteen-bit audio every frame counts, exactly: the power grows by the square of its
/// magnitude, and the sum of turns by the frame times the conjugate of the frame before it, where
/// there is one. The left channel carries the sine and the right one the cosine.
pub proof fn law_every_frame_counts(
    v: DecoderView,
    stereo: Seq<Single>,
    m: Seq<int>,
    a: int,
    b: int,
    k: int,
)
    requires
        sixteen_bit_block(stereo, m),
        v.primed ==> steps(v.prev_re, a) && steps(v.prev_im, b),
        0 <= k < 0x10_0000,
        2 * (k + 1) <= stereo.len(),
    ensures
        ({
            let s = decoder::sums(v, stereo, k as nat);
            let t = decoder::sums(v, stereo, (k + 1) as nat);
            let y = m[2 * k];
            let x = m[2 * k + 1];
            let d = if k == 0 {
                b
            } else {
                m[2 * (k - 1)]
            };
            let c = if k == 0 {
                a
            } else {
                m[2 * (k - 1) + 1]
            };
            let turns = k > 0 || v.primed;
            &&& double_value(t.power) - double_value(s.power) == (x * x + y * y) * pow2(1044)
            &&& turns ==> double_value(t.re) - double_value(s.re) == (x * c + y * d) * pow2(1044)
            &&& turns ==> double_value(t.im) - double_value(s.im) == (y * c - x * d) * pow2(1044)
            &&& !turns ==> t.re == s.re && t.im == s.im
            &&& t.turns == s.turns + (if turns {
                1int
            } else {
                0int
            })
            &&& k == 0 ==> double_value(s.power) == 0 && double_value(s.re) == 0 && double_value(
                s.im,
            ) == 0 && s.turns == 0
        }),
{
    let (p, q, w) = lemma_sums_are_exact(v, stereo, m, a, b, k as nat);
    lemma_a_turn_counts(v, stereo, m, a, b, k, p, q, w);
    decoder::lemma_counts(v, stereo, k as nat);
    arith::lemma_zero_is_worth_nothing(53);
    let z = pow2(1044) as int;
    let y = m[2 * k];
    let x = m[2 * k + 1];
    lemma_difference(w, x * x + y * y, z);
    if k > 0 {
        assert(2 * (k - 1) + 1 == 2 * k - 1 && 2 * (k - 1) == 2 * k - 2);
    }
    let d = if k == 0 {
        b
    } else {
        m[2 * (k - 1)]
    };
    let c = if k == 0 {
        a
    } else {
        m[2 * (k - 1) + 1]
    };
    lemma_difference(p, x * c + y * d, z);
    lemma_difference(q, y * c - x * d, z);
}

/// The square of the magnitude of frame `k`, in steps.
pub open spec fn squared(m: Seq<int>, k: int) -> int {
    m[2 * k] * m[2 * k] + m[2 * k + 1] * m[2 * k + 1]
}

/// Frame `k` times the conjugate of the frame before it: the real part.
pub open spec fn across(m: Seq<int>, k: int) -> int {
    m[2 * k + 1] * m[2 * (k - 1) + 1] + m[2 * k] * m[2 * (k - 1)]
}

/// Frame `k` times the conjugate of the frame before it: the imaginary part.
pub open spec fn up(m: Seq<int>, k: int) -> int {
    m[2 * k] * m[2 * (k - 1) + 1] - m[2 * k + 1] * m[2 * (k - 1)]
}

/// Every frame of sixteen-bit audio has the squared magnitude `r`, and the turn from each frame to
/// the next is the same: `c` across and `s` up.
pub open spec fn turns_evenly(m: Seq<int>, r: int, c: int, s: int) -> bool {
    &&& forall|k: int| 0 <= 2 * k < m.len() ==> #[trigger] squared(m, k) == r
    &&& forall|k: int| 0 < 2 * k < m.len() ==> #[trigger] across(m, k) == c && up(m, k) == s
}

/// The sums over frames that turn evenly, the first of which has none before it.
proof fn lemma_even_sums(
    v: DecoderView,
    stereo: Seq<Single>,
    m: Seq<int>,
    r: int,
    c: int,
    s: int,
    n: nat,
)
    requires
        sixteen_bit_block(stereo, m),
        turns_evenly(m, r, c, s),
        !v.primed,
        2 * n <= stereo.len(),
        n <= 0x10_0000,
    ensures
        ({
            let t = decoder::sums(v, stereo, n);
            &&& square_steps(t.power, n * r)
            &&& n > 0 ==> square_steps(t.re, (n - 1) * c) && square_steps(t.im, (n - 1) * s)
            &&& n > 0 ==> t.turns == n - 1
        }),
    decreases n,
{
    let (p, q, w) = lemma_sums_are_exact(v, stereo, m, 0, 0, n);
    if n > 0 {
        let k = n - 1;
        lemma_even_sums(v, stereo, m, r, c, s, k as nat);
        law_every_frame_counts(v, stereo, m, 0, 0, k);
        let y = m[2 * k];
        let x = m[2 * k + 1];
        assert(squared(m, k) == r);
        let z = pow2(1044) as int;
        assert((k * r) * z + r * z == (n * r) * z) by (nonlinear_arith)
            requires
                n == k + 1,
        ;
        if k > 0 {
            assert(across(m, k) == c);
            assert(((k - 1) * c) * z + c * z == ((n - 1) * c) * z) by (nonlinear_arith)
                requires
                    n == k + 1,
            ;
            assert(((k - 1) * s) * z + s * z == ((n - 1) * s) * z) by (nonlinear_arith)
                requires
                    n == k + 1,
            ;
        } else {
            assert((n - 1) * c == 0 && (n - 1) * s == 0) by (nonlinear_arith)
                requires
                    n == 1,
            ;
            assert(0 * z == 0);
        }
    } else {
        assert(n * r == 0) by (nonlinear_arith)
            requires
                n == 0,
        ;
    }
}

/// The confidence of a block of finite samples: its product with the power of the block is the
/// length of the sum of its turns, up to rounding, and never more than the power.
pub proof fn law_blocks_are_as_coherent_as_their_turns<A: Fn(Double, Double) -> Double>(
    atan2: A,
    v: DecoderView,
    stereo: Seq<Single>,
    w: DecoderView,
    out: DecodeOutput,
)
    requires
        decoder::decodes(atan2, v, stereo, w, out),
        turning::finite_block(stereo),
        turning::remembers_finite(v),
        0 < stereo.len() <= usize::MAX,
        stereo.len() % 2 == 0,
    ensures
        ({
            let s = decoder::sums(v, stereo, stereo.len() / 2);
            let p = double_value(s.power);
            let e = length_squared(s);
            let x = single_value(out.confidence);
            &&& e == 0 ==> out.confidence == (Single { bits: single::ZERO })
            &&& audible(p) && p * p <= e * pow2(200) ==> single::finite(out.confidence)
                && !out.confidence@.neg && near(
                (x * x) * (p * p),
                lesser(e, p * p) * pow2(298),
                pow2(20),
            )
        }),
{
    let n = stereo.len() / 2;
    let s = decoder::sums(v, stereo, n);
    turning::lemma_sums_are_finite(v, stereo, n);
    let phase = choose|phase: Double| #[trigger]
        decoder::is_phase(atan2, s, phase) && out == decoder::concluded(
            decoder::heard(v, stereo),
            s,
            phase,
        ) && w == (DecoderView { position_secs: out.position_secs, ..decoder::heard(v, stereo) });
    arith::lemma_zero_is_worth_nothing(53);
    if s.power@.neg {
        // A negative zero would be the only choice, and it is below the floor.
        let none = Double { bits: decoder::POWER_FLOOR };
        bounds::law_within_is_finite(s.power, 310);
        arith::law_magnitudes_order_values(arith::double(), decoder::zero()@, s.power@);
        lemma_above_the_floor(s.power);
        assert(double_value(s.power) == 0);
        lemma_pow2_pos(1074);
        assert(!double::less(none, s.power));
    } else {
        law_confidence_measures_coherence(decoder::heard(v, stereo), s, phase);
    }
}

/// A carrier that turns evenly at a constant magnitude, from silence: the confidence is one less
/// the share of the first frame, the amplitude is the magnitude, and the direction asked for is
/// that of the turn.
pub proof fn law_an_even_carrier_is_coherent<A: Fn(Double, Double) -> Double>(
    atan2: A,
    v: DecoderView,
    stereo: Seq<Single>,
    m: Seq<int>,
    r: int,
    c: int,
    s: int,
    w: DecoderView,
    out: DecodeOutput,
)
    requires
        decoder::decodes(atan2, v, stereo, w, out),
        sixteen_bit_block(stereo, m),
        turns_evenly(m, r, c, s),
        r > 0,
        !v.primed,
        bounds::within(v.prev_re, 128),
        bounds::within(v.prev_im, 128),
        2 < stereo.len() <= 0x20_0000,
        stereo.len() % 2 == 0,
        stereo.len() <= usize::MAX,
    ensures
        ({
            let n = stereo.len() as int / 2;
            let x = single_value(out.confidence);
            let a = single_value(out.amplitude);
            &&& near(x * n, (n - 1) * pow2(149), pow2(16))
            &&& near(a * a, r * pow2(268), pow2(18))
            &&& exists|y: Double, z: Double, phase: Double|
                {
                    &&& #[trigger] call_ensures(atan2, (y, z), phase)
                    &&& square_steps(y, (n - 1) * s)
                    &&& square_steps(z, (n - 1) * c)
                    &&& out.rate == decoder::rate_of(v, phase)
                }
        }),
{
    let n = stereo.len() as int / 2;
    let t = decoder::sums(v, stereo, n as nat);
    lemma_even_sums(v, stereo, m, r, c, s, n as nat);
    decoder::lemma_counts(v, stereo, n as nat);
    let phase = choose|phase: Double| #[trigger]
        decoder::is_phase(atan2, t, phase) && out == decoder::concluded(
            decoder::heard(v, stereo),
            t,
            phase,
        ) && w == (DecoderView { position_secs: out.position_secs, ..decoder::heard(v, stereo) });
    assert(call_ensures(atan2, (t.im, t.re), phase));
    assert forall|i: int| 0 <= i < stereo.len() implies single::finite(#[trigger] stereo[i]) by {
        assert(exact::sixteen_bit(stereo[i], m[i]));
    }
    law_blocks_are_as_coherent_as_their_turns(atan2, v, stereo, w, out);
    // The turns have the length of the squared magnitude.
    lemma_turn_length(m, r, c, s, 1);
    let k = pow2(1044) as int;
    lemma_pow2_pos(1044);
    let rk = r * k;
    let p = double_value(t.power);
    let e = length_squared(t);
    let d = n - 1;
    assert(rk > 0) by (nonlinear_arith)
        requires
            rk == r * k,
            r > 0,
            k > 0,
    ;
    assert(p == n * rk) by (nonlinear_arith)
        requires
            p == (n * r) * k,
            rk == r * k,
    ;
    lemma_even_length(d, c, s, r, k);
    assert(e == (d * d) * (rk * rk));
    // Loud enough.
    lemma2_to64();
    lemma2_to64_rest();
    lemma_pow2_adds(30, 1044);
    assert(r >= 1 && n >= 2);
    assert(rk >= k) by (nonlinear_arith)
        requires
            rk == r * k,
            r >= 1,
            k > 0,
    ;
    assert(audible(p)) by (nonlinear_arith)
        requires
            p == n * rk,
            n >= 2,
            rk >= k,
            k > 0,
            pow2(1074) == 0x4000_0000 * k,
            audible(p) == (p * 1_000_000_000_000 >= pow2(1074)),
    ;
    lemma_pow2_strictly_increases(2, 200);
    let qq = rk * rk;
    assert(qq > 0) by (nonlinear_arith)
        requires
            qq == rk * rk,
            rk > 0,
    ;
    let pp = p * p;
    assert(pp == (n * n) * qq) by (nonlinear_arith)
        requires
            pp == p * p,
            p == n * rk,
            qq == rk * rk,
    ;
    assert(n * n <= (d * d) * pow2(200)) by (nonlinear_arith)
        requires
            d == n - 1,
            n >= 2,
            pow2(200) >= 4,
    ;
    assert(pp <= e * pow2(200)) by (nonlinear_arith)
        requires
            pp == (n * n) * qq,
            e == (d * d) * qq,
            n * n <= (d * d) * pow2(200),
            qq > 0,
    ;
    assert(e <= pp) by (nonlinear_arith)
        requires
            pp == (n * n) * qq,
            e == (d * d) * qq,
            0 <= d <= n,
            qq > 0,
    ;
    // The factor common to both sides drops out.
    let x = single_value(out.confidence);
    let h = pow2(149) as int;
    lemma_pow2_pos(149);
    lemma_pow2_adds(149, 149);
    let xn = x * n;
    let dh = d * h;
    assert((x * x) * pp == (xn * xn) * qq) by (nonlinear_arith)
        requires
            pp == (n * n) * qq,
            xn == x * n,
    ;
    assert(e * pow2(298) == (dh * dh) * qq) by (nonlinear_arith)
        requires
            e == (d * d) * qq,
            dh == d * h,
            pow2(298) == h * h,
    ;
    exact::lemma_near_scales(xn * xn, dh * dh, qq, pow2(20));
    assert(x >= 0);
    assert(xn >= 0 && dh >= 0) by (nonlinear_arith)
        requires
            xn == x * n,
            dh == d * h,
            x >= 0,
            n >= 0,
            d >= 0,
            h >= 0,
    ;
    lemma_near_of_squares(xn, dh, pow2(20));
    exact::lemma_near_coarser(xn, dh, pow2(20), pow2(16));
    // The amplitude.
    lemma_magnitude_is_small(stereo, m, 0);
    lemma_even_amplitude(t.power, n as nat, r);
}

/// A turn between frames of one magnitude has the length of its square.
proof fn lemma_turn_length(m: Seq<int>, r: int, c: int, s: int, k: int)
    requires
        turns_evenly(m, r, c, s),
        0 < 2 * k < m.len(),
    ensures
        c * c + s * s == r * r,
{
    let y0 = m[2 * (k - 1)];
    let x0 = m[2 * (k - 1) + 1];
    let y1 = m[2 * k];
    let x1 = m[2 * k + 1];
    assert(squared(m, k) == r && squared(m, k - 1) == r && across(m, k) == c && up(m, k) == s);
    let (p, q, t, w) = (x1 * x0, y1 * y0, y1 * x0, x1 * y0);
    let (a, b, d, e) = (y0 * y0, x0 * x0, y1 * y1, x1 * x1);
    assert(p * q == t * w) by (nonlinear_arith)
        requires
            p == x1 * x0,
            q == y1 * y0,
            t == y1 * x0,
            w == x1 * y0,
    ;
    assert(p * p == b * e) by (nonlinear_arith)
        requires
            p == x1 * x0,
            b == x0 * x0,
            e == x1 * x1,
    ;
    assert(q * q == a * d) by (nonlinear_arith)
        requires
            q == y1 * y0,
            a == y0 * y0,
            d == y1 * y1,
    ;
    assert(t * t == b * d) by (nonlinear_arith)
        requires
            t == y1 * x0,
            b == x0 * x0,
            d == y1 * y1,
    ;
    assert(w * w == a * e) by (nonlinear_arith)
        requires
            w == x1 * y0,
            a == y0 * y0,
            e == x1 * x1,
    ;
    assert((p + q) * (p + q) + (t - w) * (t - w) == p * p + q * q + t * t + w * w + 2 * (p * q)
        - 2 * (t * w)) by (nonlinear_arith);
    assert((a + b) * (d + e) == a * d + a * e + b * d + b * e) by (nonlinear_arith);
}

/// The squared length of a number of equal turns.
proof fn lemma_even_length(d: int, c: int, s: int, r: int, k: int)
    requires
        c * c + s * s == r * r,
    ensures
        ((d * c) * k) * ((d * c) * k) + ((d * s) * k) * ((d * s) * k) == (d * d) * ((r * k) * (r
            * k)),
{
    let q = (d * d) * (k * k);
    assert(((d * c) * k) * ((d * c) * k) == q * (c * c)) by (nonlinear_arith)
        requires
            q == (d * d) * (k * k),
    ;
    assert(((d * s) * k) * ((d * s) * k) == q * (s * s)) by (nonlinear_arith)
        requires
            q == (d * d) * (k * k),
    ;
    assert((d * d) * ((r * k) * (r * k)) == q * (r * r)) by (nonlinear_arith)
        requires
            q == (d * d) * (k * k),
    ;
    assert(q * (c * c) + q * (s * s) == q * (r * r)) by (nonlinear_arith)
        requires
            c * c + s * s == r * r,
    ;
}

/// Numbers whose squares are near are near.
proof fn lemma_near_of_squares(x: int, y: int, d: nat)
    requires
        near(x * x, y * y, d),
        x >= 0,
        y >= 0,
    ensures
        near(x, y, d),
{
    let p = exact::abs(x - y) as int;
    let q = exact::abs(x * x - y * y) as int;
    assert(y * y >= 0 && x * x - y * y == (x - y) * (x + y)) by (nonlinear_arith);
    // The squares differ by at least the difference times the second.
    assert(q >= p * y) by (nonlinear_arith)
        requires
            x >= 0,
            y >= 0,
            x * x - y * y == (x - y) * (x + y),
            x >= y ==> p == x - y,
            x < y ==> p == y - x,
            q >= x * x - y * y,
            q >= y * y - x * x,
    ;
    if y == 0 {
        assert(x * x == 0 || d == 0) by (nonlinear_arith)
            requires
                d * q <= y * y,
                y == 0,
                q >= x * x - y * y,
                x * x >= 0,
                d >= 0,
                q >= 0,
        ;
        if d != 0 {
            assert(x == 0) by (nonlinear_arith)
                requires
                    x * x == 0,
            ;
            assert(d * 0 == 0);
        } else {
            assert(0 * p == 0);
        }
    } else {
        assert(d * p <= y) by (nonlinear_arith)
            requires
                d * q <= y * y,
                q >= p * y,
                y > 0,
                d >= 0,
        ;
    }
}

/// A frame of sixteen-bit audio has a small magnitude.
proof fn lemma_magnitude_is_small(stereo: Seq<Single>, m: Seq<int>, k: int)
    requires
        sixteen_bit_block(stereo, m),
        0 <= k,
        2 * k + 1 < m.len(),
    ensures
        squared(m, k) <= 0x8000_0000,
{
    assert(exact::sixteen_bit(stereo[2 * k], m[2 * k]));
    assert(exact::sixteen_bit(stereo[2 * k + 1], m[2 * k + 1]));
    let y = m[2 * k];
    let x = m[2 * k + 1];
    assert(y * y <= 0x4000_0000 && x * x <= 0x4000_0000) by (nonlinear_arith)
        requires
            -0x8000 <= x <= 0x8000,
            -0x8000 <= y <= 0x8000,
    ;
}

/// The amplitude of frames of one magnitude.
proof fn lemma_even_amplitude(power: Double, n: nat, r: int)
    requires
        square_steps(power, n * r),
        0 < r <= 0x8000_0000,
        1 < n <= 0x10_0000,
    ensures
        ({
            let a = single_value(
                double::narrowed(
                    double::square_root(double::quotient(power, double::from_int(n))),
                ),
            );
            near(a * a, r * pow2(268), pow2(18))
        }),
{
    let nr = (n * r) as int;
    assert(nr > 0) by (nonlinear_arith)
        requires
            nr == n * r,
            n > 1,
            r > 0,
    ;
    let t = (nr * pow2(268)) as nat;
    lemma2_to64();
    lemma2_to64_rest();
    lemma_pow2_pos(268);
    lemma_pow2_pos(1044);
    lemma_pow2_adds(268, 776);
    lemma_pow2_strictly_increases(50, 268);
    lemma_pow2_adds(31, 268);
    lemma_pow2_strictly_increases(299, 498);
    let z = pow2(268) as int;
    let rz = r * z;
    assert(nr * z == rz * n) by (nonlinear_arith)
        requires
            nr == n * r,
            rz == r * z,
    ;
    assert(nr * z >= 0 && n * pow2(50) <= nr * z <= n * pow2(498)) by (nonlinear_arith)
        requires
            nr * z == rz * n,
            rz == r * z,
            1 <= r <= 0x8000_0000,
            n > 1,
            pow2(50) < z,
            0x8000_0000 * z == pow2(299),
            pow2(299) < pow2(498),
    ;
    assert(t * pow2(776) == nr * pow2(1044)) by (nonlinear_arith)
        requires
            t == nr * z,
            pow2(1044) == z * pow2(776),
    ;
    assert(double_value(power) == nr * pow2(1044));
    assert(double_value(power) > 0) by (nonlinear_arith)
        requires
            double_value(power) == nr * pow2(1044),
            nr > 0,
            pow2(1044) > 0,
    ;
    assert(near(double_value(power), (t * pow2(776)) as int, pow2(32)));
    means::lemma_root_mean_is_close(power, n, t);
    let a = single_value(
        double::narrowed(double::square_root(double::quotient(power, double::from_int(n)))),
    );
    exact::lemma_near_scales(a * a, rz, n as int, pow2(18));
}

/// The amplitude is the root of the mean power: its square, times the number of frames, is the power of
/// the block, up to rounding. This is of sixteen-bit audio that is not silent.
pub proof fn law_amplitude_is_the_root_mean_square<A: Fn(Double, Double) -> Double>(
    atan2: A,
    v: DecoderView,
    stereo: Seq<Single>,
    m: Seq<int>,
    a: int,
    b: int,
    w: DecoderView,
    out: DecodeOutput,
)
    requires
        decoder::decodes(atan2, v, stereo, w, out),
        sixteen_bit_block(stereo, m),
        v.primed ==> steps(v.prev_re, a) && steps(v.prev_im, b),
        0 < stereo.len() <= 0x20_0000,
        stereo.len() % 2 == 0,
        stereo.len() <= usize::MAX,
        double_value(decoder::sums(v, stereo, stereo.len() / 2).power) > 0,
    ensures
        ({
            let n = stereo.len() as int / 2;
            let p = double_value(decoder::sums(v, stereo, n as nat).power);
            let x = single_value(out.amplitude);
            near((x * x * n) * pow2(776), p, pow2(18))
        }),
{
    let n = stereo.len() / 2;
    let s = decoder::sums(v, stereo, n);
    let (re, im, q) = lemma_sums_are_exact(v, stereo, m, a, b, n);
    decoder::lemma_counts(v, stereo, n);
    let k = pow2(1044) as int;
    let z = pow2(268) as int;
    let t = (q * z) as nat;
    lemma2_to64();
    lemma2_to64_rest();
    lemma_pow2_pos(268);
    lemma_pow2_pos(776);
    lemma_pow2_pos(1044);
    lemma_pow2_adds(268, 776);
    lemma_pow2_adds(20, 50);
    lemma_pow2_strictly_increases(70, 268);
    lemma_pow2_adds(31, 268);
    lemma_pow2_strictly_increases(299, 498);
    assert(q > 0) by (nonlinear_arith)
        requires
            q * k > 0,
            k > 0,
    ;
    assert(n * pow2(50) <= pow2(70)) by (nonlinear_arith)
        requires
            n <= 0x10_0000,
            pow2(70) == 0x10_0000 * pow2(50),
    ;
    assert(q * z >= z && q * z <= n * pow2(299)) by (nonlinear_arith)
        requires
            0 < q <= n * 0x8000_0000,
            z > 0,
            pow2(299) == 0x8000_0000 * z,
    ;
    assert(n * pow2(299) <= n * pow2(498)) by (nonlinear_arith)
        requires
            pow2(299) < pow2(498),
            n >= 0,
    ;
    assert(t * pow2(776) == q * k) by (nonlinear_arith)
        requires
            t == q * z,
            k == z * pow2(776),
    ;
    assert(near(double_value(s.power), (t * pow2(776)) as int, pow2(32))) by {
        assert(pow2(32) * 0 == 0);
    }
    assert(!s.power@.neg);
    means::lemma_root_mean_is_close(s.power, n, t);
    let x = single_value(out.amplitude);
    exact::lemma_near_scales(x * x * n, t as int, pow2(776) as int, pow2(18));
}

} // verus!
