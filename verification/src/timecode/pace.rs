//! What the rate measures: the turn per sample against the turn of the carrier.

use vstd::arithmetic::power2::*;
use vstd::prelude::*;

use crate::ieee::arith;
use crate::ieee::binary;
use crate::ieee::bounds;
use crate::ieee::double;
use crate::ieee::double::Double;
use crate::ieee::exact;
use crate::ieee::exact::double_value;
use crate::ieee::exact::near;
use crate::ieee::exact::single_value;
use crate::ieee::means;
use crate::ieee::single;
use crate::ieee::single::Single;
use crate::timecode::decoder;
use crate::timecode::decoder::DecoderView;

verus! {

/// A frequency between one hertz and sixteen megahertz.
pub open spec fn is_frequency(a: Single) -> bool {
    &&& single::finite(a)
    &&& pow2(149) <= single_value(a) <= pow2(173)
}

/// The errors of four steps, each near to the exact one.
proof fn lemma_four_steps(d: int, t: int, q: int, r: int, s: int, c: int, u: int, tau: int, ph: int)
    requires
        d > 0,
        t > 0,
        q > 0,
        r > 0,
        s > 0,
        c > 0,
        u > 0,
        tau > 0,
        ph > 0,
        near(d * s, u * u, pow2(53)),
        near(t * u, tau * d, pow2(53)),
        near(q * t, ph * u, pow2(53)),
        near(r * c, q * u, pow2(53)),
    ensures
        near((r * c) * tau, (ph * s) * u, pow2(46)),
{
    lemma2_to64();
    lemma2_to64_rest();
    // What a sample takes of a turn of the carrier at one hertz.
    exact::lemma_near_scales(t * u, tau * d, s, pow2(53));
    exact::lemma_near_scales(d * s, u * u, tau, pow2(53));
    assert((tau * d) * s == (d * s) * tau) by (nonlinear_arith);
    exact::lemma_near_chains(
        (t * u) * s,
        (tau * d) * s,
        (u * u) * tau,
        pow2(53),
        pow2(53),
        pow2(51),
    );
    let ts = t * s;
    let tu = tau * u;
    assert((t * u) * s == ts * u) by (nonlinear_arith)
        requires
            ts == t * s,
    ;
    assert((u * u) * tau == tu * u) by (nonlinear_arith)
        requires
            tu == tau * u,
    ;
    exact::lemma_near_scales(ts, tu, u, pow2(51));
    exact::lemma_near_coarser(ts, tu, pow2(51), pow2(50) + 1);
    exact::lemma_near_turns(ts, tu, pow2(50));
    // The rate against the turn.
    let rc = r * c;
    assert(ts > 0) by (nonlinear_arith)
        requires
            ts == t * s,
            t > 0,
            s > 0,
    ;
    let us = u * s;
    assert(us > 0) by (nonlinear_arith)
        requires
            us == u * s,
            u > 0,
            s > 0,
    ;
    assert(rc > 0) by (nonlinear_arith)
        requires
            rc == r * c,
            r > 0,
            c > 0,
    ;
    exact::lemma_near_scales(rc, q * u, ts, pow2(53));
    exact::lemma_near_scales(q * t, ph * u, us, pow2(53));
    assert((q * u) * ts == (q * t) * us) by (nonlinear_arith)
        requires
            ts == t * s,
            us == u * s,
    ;
    exact::lemma_near_chains(
        rc * ts,
        (q * t) * us,
        (ph * u) * us,
        pow2(53),
        pow2(53),
        pow2(51),
    );
    // Together.
    exact::lemma_near_scales(tu, ts, rc, pow2(50));
    assert(ts * rc == rc * ts) by (nonlinear_arith);
    exact::lemma_near_chains(
        tu * rc,
        rc * ts,
        (ph * u) * us,
        pow2(50),
        pow2(51),
        pow2(48),
    );
    assert(tu * rc == (rc * tau) * u) by (nonlinear_arith)
        requires
            tu == tau * u,
    ;
    assert((ph * u) * us == ((ph * s) * u) * u) by (nonlinear_arith)
        requires
            us == u * s,
    ;
    exact::lemma_near_scales(rc * tau, (ph * s) * u, u, pow2(48));
    exact::lemma_near_coarser(rc * tau, (ph * s) * u, pow2(48), pow2(46));
}

/// A whole turn in radians, in units of `2^-1074`.
proof fn lemma_tau()
    ensures
        double_value(Double { bits: decoder::TAU }) == 0x19_21fb_5444_2d18 * pow2(1024),
        double::finite(Double { bits: decoder::TAU }),
        !(Double { bits: decoder::TAU })@.neg,
{
    lemma2_to64();
    lemma2_to64_rest();
    binary::lemma_worth_of_encode(53, 0x19_21fb_5444_2d18, 1024);
    assert(binary::encode(53, 0x19_21fb_5444_2d18, 1024) == decoder::TAU);
}

/// The duration of a sample.
pub proof fn lemma_duration_is_close(sample_rate: Single)
    requires
        is_frequency(sample_rate),
    ensures
        ({
            let dt = double::quotient(Double { bits: double::ONE }, single::widened(sample_rate));
            let s = single_value(sample_rate) * pow2(925);
            let d = double_value(dt);
            &&& double_value(single::widened(sample_rate)) == s
            &&& double::finite(single::widened(sample_rate))
            &&& !single::widened(sample_rate)@.neg
            &&& single::widened(sample_rate)@.mag > 0
            &&& pow2(1074) <= s <= pow2(1098)
            &&& near(d * s, (pow2(1074) * pow2(1074)) as int, pow2(53))
            &&& pow2(1049) <= d <= pow2(1075)
            &&& double::finite(dt)
            &&& !dt@.neg
        }),
{
    let u = pow2(1074) as int;
    let one = Double { bits: double::ONE };
    let w = single::widened(sample_rate);
    let s = single_value(sample_rate) * pow2(925);
    lemma2_to64();
    lemma2_to64_rest();
    exact::lemma_widened_value(sample_rate);
    exact::lemma_top();
    arith::lemma_zero_is_worth_nothing(24);
    bounds::lemma_two_to(0);
    assert(bounds::two_to(0) == double::ONE);
    lemma_pow2_pos(149);
    lemma_pow2_pos(925);
    lemma_pow2_pos(1074);
    lemma_pow2_adds(149, 925);
    lemma_pow2_adds(173, 925);
    assert(u <= s <= pow2(1098)) by (nonlinear_arith)
        requires
            s == single_value(sample_rate) * pow2(925),
            pow2(149) <= single_value(sample_rate) <= pow2(173),
            pow2(925) > 0,
            u == pow2(149) * pow2(925),
            pow2(1098) == pow2(173) * pow2(925),
    ;
    lemma_pow2_adds(1074, 1074);
    lemma_pow2_adds(52, 1098);
    lemma_pow2_strictly_increases(1150, 2148);
    lemma_pow2_strictly_increases(1074, 2098);
    assert(pow2(52) * s <= u * u) by (nonlinear_arith)
        requires
            s <= pow2(1098),
            pow2(52) * pow2(1098) == pow2(1150),
            pow2(1150) < pow2(2148),
            u * u == pow2(2148),
            pow2(52) >= 0,
    ;
    assert(u * u < pow2(2098) * s) by (nonlinear_arith)
        requires
            u <= s,
            0 < u < pow2(2098),
    ;
    means::lemma_quotient_is_close(one, w);
    let d = double_value(double::quotient(one, w));
    exact::lemma_near_bounds(d * s, u * u, pow2(53));
    lemma_pow2_adds(1050, 1098);
    lemma_pow2_unfold(1050);
    lemma_pow2_unfold(1075);
    assert(d >= pow2(1049)) by (nonlinear_arith)
        requires
            2 * (d * s) >= u * u,
            u * u == pow2(1050) * pow2(1098),
            pow2(1050) == 2 * pow2(1049),
            0 < s <= pow2(1098),
            pow2(1049) >= 0,
    ;
    assert(d <= pow2(1075)) by (nonlinear_arith)
        requires
            2 * (d * s) <= 3 * (u * u),
            s >= u,
            u > 0,
            d >= 0,
            pow2(1075) == 2 * u,
    ;
    lemma_pow2_strictly_increases(1075, 2098);
}

/// The rate measures the turn: times the carrier frequency and a whole turn in radians, it is the
/// turn per sample times the sample rate, up to rounding, and in the same direction.
pub proof fn law_rate_measures_the_turn(v: DecoderView, phase: Double)
    requires
        is_frequency(v.sample_rate),
        is_frequency(v.carrier_hz),
        double::finite(phase),
        pow2(774) <= exact::abs(double_value(phase)) <= pow2(1076),
    ensures
        ({
            let r = decoder::rate_of(v, phase);
            let x = exact::abs(double_value(r)) * single_value(v.carrier_hz);
            let y = exact::abs(double_value(phase)) * single_value(v.sample_rate);
            &&& double::finite(r)
            &&& r@.neg == phase@.neg
            &&& near(
                x * 6_283_185_307_179_586,
                y * 1_000_000_000_000_000,
                pow2(44),
            )
        }),
{
    let u = pow2(1074) as int;
    let tau = double_value(Double { bits: decoder::TAU });
    let ph = exact::abs(double_value(phase)) as int;
    lemma2_to64();
    lemma2_to64_rest();
    lemma_pow2_pos(1074);
    exact::lemma_top();
    arith::lemma_zero_is_worth_nothing(53);
    lemma_tau();
    lemma_duration_is_close(v.sample_rate);
    lemma_duration_is_close(v.carrier_hz);
    let dt = double::quotient(Double { bits: double::ONE }, single::widened(v.sample_rate));
    let d = double_value(dt);
    let s = double_value(single::widened(v.sample_rate));
    let c = double_value(single::widened(v.carrier_hz));
    lemma_pow2_pos(1049);
    lemma_pow2_pos(774);
    // The turn of one sample.
    lemma_pow2_adds(52, 1024);
    lemma_pow2_unfold(1077);
    lemma_pow2_pos(1024);
    assert(pow2(1076) <= tau <= pow2(1077)) by (nonlinear_arith)
        requires
            tau == 0x19_21fb_5444_2d18 * pow2(1024),
            pow2(1076) == 0x10_0000_0000_0000 * pow2(1024),
            pow2(1077) == 2 * pow2(1076),
    ;
    lemma_pow2_adds(1076, 1049);
    lemma_pow2_adds(1077, 1075);
    lemma_pow2_strictly_increases(1126, 2125);
    lemma_pow2_strictly_increases(2152, 3172);
    let td = tau * d;
    assert(pow2(2125) <= td <= pow2(2152)) by (nonlinear_arith)
        requires
            td == tau * d,
            pow2(1076) <= tau <= pow2(1077),
            pow2(1049) <= d <= pow2(1075),
            pow2(2125) == pow2(1076) * pow2(1049),
            pow2(2152) == pow2(1077) * pow2(1075),
    ;
    let whole = Double { bits: decoder::TAU };
    means::lemma_double_product_is_close(whole, dt);
    let turn = double::product(whole, dt);
    let t = double_value(turn);
    exact::lemma_near_bounds(t * u, td, pow2(53));
    lemma_pow2_adds(1050, 1074);
    lemma_pow2_unfold(2125);
    lemma_pow2_adds(1079, 1074);
    lemma_pow2_unfold(2153);
    lemma_pow2_pos(1050);
    assert(pow2(1050) <= t <= pow2(1079)) by (nonlinear_arith)
        requires
            2 * (t * u) >= td,
            2 * (t * u) <= 3 * td,
            td >= 2 * (pow2(1050) * u),
            2 * td <= pow2(1079) * u,
            u > 0,
    ;
    lemma_pow2_strictly_increases(1079, 2098);
    assert(double::finite(turn));
    // The phase over it.
    let pu = ph * u;
    lemma_pow2_adds(774, 1074);
    lemma_pow2_adds(1076, 1074);
    assert(pow2(1848) <= pu <= pow2(2150)) by (nonlinear_arith)
        requires
            pu == ph * u,
            pow2(774) <= ph <= pow2(1076),
            pow2(1848) == pow2(774) * u,
            pow2(2150) == pow2(1076) * u,
            u > 0,
    ;
    lemma_pow2_adds(52, 1079);
    lemma_pow2_strictly_increases(1131, 1848);
    lemma_pow2_adds(2098, 1050);
    lemma_pow2_strictly_increases(2150, 3148);
    assert(pow2(52) * t <= pu && pu < pow2(2098) * t) by (nonlinear_arith)
        requires
            pow2(1050) <= t <= pow2(1079),
            pow2(1131) == pow2(52) * pow2(1079),
            pow2(3148) == pow2(2098) * pow2(1050),
            pow2(1131) < pow2(1848),
            pow2(2150) < pow2(3148),
            pow2(1848) <= pu <= pow2(2150),
            pow2(52) >= 0,
            pow2(2098) >= 0,
    ;
    means::lemma_quotient_is_close(phase, turn);
    let per = double::quotient(phase, turn);
    let q = exact::abs(double_value(per)) as int;
    lemma_unsigned(double_value(per), t, double_value(phase), u, pow2(53));
    assert(near(q * t, pu, pow2(53)));
    exact::lemma_near_bounds(q * t, pu, pow2(53));
    lemma_pow2_unfold(1848);
    lemma_pow2_adds(768, 1079);
    lemma_pow2_adds(1101, 1050);
    lemma_pow2_unfold(2151);
    assert(pow2(768) <= q <= pow2(1101)) by (nonlinear_arith)
        requires
            2 * (q * t) >= pu,
            2 * (q * t) <= 3 * pu,
            pu >= 2 * pow2(1847),
            2 * pu <= pow2(2151),
            pow2(1847) == pow2(768) * pow2(1079),
            pow2(2151) == pow2(1101) * pow2(1050),
            pow2(1050) <= t <= pow2(1079),
            pow2(1050) > 0,
            q >= 0,
    ;
    lemma_pow2_strictly_increases(1101, 2098);
    assert(double::finite(per));
    // Over the carrier.
    let qu = q * u;
    lemma_pow2_pos(768);
    lemma_pow2_adds(768, 1074);
    lemma_pow2_adds(1101, 1074);
    lemma_pow2_adds(52, 1098);
    lemma_pow2_strictly_increases(1150, 1842);
    lemma_pow2_adds(2098, 1074);
    lemma_pow2_strictly_increases(2175, 3172);
    assert(pow2(52) * c <= qu && qu < pow2(2098) * c) by (nonlinear_arith)
        requires
            qu == q * u,
            pow2(768) <= q <= pow2(1101),
            u <= c <= pow2(1098),
            pow2(1842) == pow2(768) * u,
            pow2(2175) == pow2(1101) * u,
            pow2(1150) == pow2(52) * pow2(1098),
            pow2(3172) == pow2(2098) * u,
            pow2(1150) < pow2(1842),
            pow2(2175) < pow2(3172),
            u > 0,
            pow2(52) >= 0,
            pow2(2098) >= 0,
    ;
    let carrier = single::widened(v.carrier_hz);
    means::lemma_quotient_is_close(per, carrier);
    let rate = double::quotient(per, carrier);
    let r = exact::abs(double_value(rate)) as int;
    lemma_unsigned(double_value(rate), c, double_value(per), u, pow2(53));
    exact::lemma_near_bounds(r * c, qu, pow2(53));
    assert(r > 0) by (nonlinear_arith)
        requires
            2 * (r * c) >= qu,
            qu == q * u,
            q >= pow2(768),
            pow2(768) > 0,
            u > 0,
            r >= 0,
    ;
    assert(double::finite(rate)) by {
        lemma_pow2_unfold(1102);
        assert(r <= pow2(1102)) by (nonlinear_arith)
            requires
                2 * (r * c) <= 3 * qu,
                qu == q * u,
                0 <= q <= pow2(1101),
                c >= u,
                u > 0,
                r >= 0,
                pow2(1102) == 2 * pow2(1101),
        ;
        lemma_pow2_strictly_increases(1102, 2098);
    }
    lemma_four_steps(d, t, q, r, s, c, u, tau, ph);
    lemma_digits(r * c, ph * s, tau);
    let cs = single_value(v.carrier_hz);
    let ss = single_value(v.sample_rate);
    let k = pow2(925) as int;
    lemma_pow2_pos(925);
    assert((r * c) * 6_283_185_307_179_586 == ((r * cs) * 6_283_185_307_179_586) * k)
        by (nonlinear_arith)
        requires
            c == cs * k,
    ;
    assert((ph * s) * 1_000_000_000_000_000 == ((ph * ss) * 1_000_000_000_000_000) * k)
        by (nonlinear_arith)
        requires
            s == ss * k,
    ;
    exact::lemma_near_scales(
        (r * cs) * 6_283_185_307_179_586,
        (ph * ss) * 1_000_000_000_000_000,
        k,
        pow2(44),
    );
}

/// Nearness of a signed quotient, without the sign.
proof fn lemma_unsigned(q: int, t: int, a: int, u: int, d: nat)
    requires
        t > 0,
        u > 0,
        near(q * t, a * u, d),
        q > 0 ==> a >= 0,
        q < 0 ==> a <= 0,
    ensures
        near(exact::abs(q) * t, exact::abs(a) * u, d),
{
    assert((-q) * t == -(q * t) && (-a) * u == -(a * u)) by (nonlinear_arith);
    assert(0 * t == 0 && 0 * u == 0);
    if q == 0 {
        assert(exact::abs(0 - a * u) == exact::abs(0 - (-a) * u));
    }
}

/// A whole turn is 6.283185307179586.
proof fn lemma_digits(x: int, y: int, tau: int)
    requires
        x > 0,
        tau == 0x19_21fb_5444_2d18 * pow2(1024),
        near(x * tau, y * pow2(1074), pow2(46)),
    ensures
        near(x * 6_283_185_307_179_586, y * 1_000_000_000_000_000, pow2(44)),
{
    lemma2_to64();
    lemma2_to64_rest();
    let h = pow2(1024) as int;
    lemma_pow2_pos(1024);
    lemma_pow2_adds(50, 1024);
    let a = x * 6_283_185_307_179_586;
    let b = x * 0x19_21fb_5444_2d18;
    let k: int = 0x4_0000_0000_0000;
    assert(x * tau == b * h) by (nonlinear_arith)
        requires
            tau == 0x19_21fb_5444_2d18 * h,
            b == x * 0x19_21fb_5444_2d18,
    ;
    assert(y * pow2(1074) == (y * k) * h) by (nonlinear_arith)
        requires
            pow2(1074) == k * h,
    ;
    exact::lemma_near_scales(b, y * k, h, pow2(46));
    // The digits against the bits.
    let z: int = 1_000_000_000_000_000;
    assert(near(a * k, b * z, pow2(48))) by (nonlinear_arith)
        requires
            x > 0,
            a == x * 6_283_185_307_179_586,
            b == x * 0x19_21fb_5444_2d18,
            k == 0x4_0000_0000_0000,
            z == 1_000_000_000_000_000,
            pow2(48) == 0x1_0000_0000_0000,
            near(a * k, b * z, pow2(48)) == (pow2(48) * exact::abs(a * k - b * z) <= exact::abs(
                b * z,
            )),
            exact::abs(b * z) >= b * z,
            a * k - b * z >= 0 ==> exact::abs(a * k - b * z) == a * k - b * z,
            a * k - b * z < 0 ==> exact::abs(a * k - b * z) == b * z - a * k,
    ;
    exact::lemma_near_scales(b, y * k, z, pow2(46));
    exact::lemma_near_chains(a * k, b * z, (y * k) * z, pow2(48), pow2(46), pow2(44));
    assert((y * k) * z == (y * z) * k) by (nonlinear_arith);
    exact::lemma_near_scales(a, y * z, k, pow2(44));
}

} // verus!
