//! What the filter of the low band is, and what it does.

use vstd::arithmetic::power2::*;
use vstd::prelude::*;

use crate::ieee::arith;
use crate::ieee::binary;
use crate::ieee::exact;
use crate::ieee::exact::near;
use crate::ieee::exact::single_value;
use crate::ieee::means;
use crate::ieee::single;
use crate::ieee::single::Single;
use crate::peaks::filtered;
use crate::peaks::filtered::Coefficients;
use crate::peaks::filtered::Memory;

verus! {

/// Sample `i` of what a filter heard; what it remembers came before the first one.
pub open spec fn heard_at(m: Memory, xs: Seq<Single>, i: int) -> Single {
    if i >= 0 {
        xs[i]
    } else if i == -1 {
        m.x1
    } else {
        m.x2
    }
}

/// Sample `i` of what a filter gave; what it remembers came before the first one.
pub open spec fn given_at(c: Coefficients, m: Memory, xs: Seq<Single>, i: int) -> Single {
    if i >= 0 {
        filtered::response(c, m, xs)[i]
    } else if i == -1 {
        m.y1
    } else {
        m.y2
    }
}

/// A filter remembers the last two samples that it heard, and the last two that it gave.
proof fn lemma_filter_remembers(c: Coefficients, m: Memory, xs: Seq<Single>, i: int)
    requires
        0 <= i <= xs.len(),
    ensures
        filtered::memory_after(c, m, xs.take(i)) == (Memory {
            x1: heard_at(m, xs, i - 1),
            x2: heard_at(m, xs, i - 2),
            y1: given_at(c, m, xs, i - 1),
            y2: given_at(c, m, xs, i - 2),
        }),
    decreases i,
{
    if i > 0 {
        lemma_filter_remembers(c, m, xs, i - 1);
        assert(xs.take(i).drop_last() =~= xs.take(i - 1));
        assert(xs.take(i).last() == xs[i - 1]);
    }
}

/// The filter is a recursion of second order: each sample that it gives is the sum of the last three
/// that it heard, times the forward coefficients, less the last two that it gave, times the backward
/// ones.
pub proof fn law_filter_is_a_recursion(c: Coefficients, m: Memory, xs: Seq<Single>, i: int)
    requires
        0 <= i < xs.len(),
    ensures
        ({
            let forward = single::sum(
                single::sum(
                    single::product(c.b0, xs[i]),
                    single::product(c.b1, heard_at(m, xs, i - 1)),
                ),
                single::product(c.b2, heard_at(m, xs, i - 2)),
            );
            filtered::response(c, m, xs)[i] == single::difference(
                single::difference(
                    forward,
                    single::product(c.a1, given_at(c, m, xs, i - 1)),
                ),
                single::product(c.a2, given_at(c, m, xs, i - 2)),
            )
        }),
{
    lemma_filter_remembers(c, m, xs, i);
}

/// A sine, a cosine and a quality for which the coefficients are neither tiny nor lost in rounding.
pub open spec fn plausible(s: Single, k: Single, q: Single) -> bool {
    let u = pow2(149);
    &&& single::finite(s)
    &&& single::finite(k)
    &&& single::finite(q)
    &&& pow2(119) <= single_value(s) <= single_value(q)
    &&& pow2(147) <= single_value(q) <= pow2(151)
    &&& pow2(119) <= exact::abs(single_value(k)) <= u
    &&& pow2(119) <= u - single_value(k)
}

/// The coefficients are those of a lowpass of second order with the sine `s`, the cosine `k` and the
/// quality `q`, up to one part in four thousand: times `2 * q + s`, the forward ones are
/// `2 * q * (1 - k)`, half of it before and half of it after, and the backward ones are
/// `-2 * k * 2 * q` and `2 * q - s`.
pub open spec fn is_lowpass(c: Coefficients, s: int, k: int, q: int) -> bool {
    let u = pow2(149) as int;
    let t = 2 * q + s;
    &&& c.b2 == c.b0
    &&& near((2 * single_value(c.b0)) * t, (u - k) * (2 * q), pow2(14))
    &&& near(single_value(c.b1) * t, (u - k) * (2 * q), pow2(14))
    &&& near(single_value(c.a1) * t, (-2 * k) * (2 * q), pow2(14))
    &&& near(single_value(c.a2) * t, u * (2 * q - s), pow2(12))
}

/// What the constants of the filter are worth.
proof fn lemma_constants()
    ensures
        single_value(Single { bits: single::ONE }) == pow2(149),
        single_value(Single { bits: filtered::HALF }) == pow2(148),
        single_value(Single { bits: filtered::TWO }) == 2 * pow2(149),
        single_value(Single { bits: filtered::MINUS_TWO }) == -2 * pow2(149),
        single_value(Single { bits: filtered::PI }) == 0xc9_0fdb * pow2(127),
        single_value(Single { bits: filtered::LF_CUTOFF_HZ }) == 180 * pow2(149),
        single_value(Single { bits: filtered::BUTTERWORTH_Q_2POLE }) == 0xb5_04f3 * pow2(125),
{
    lemma2_to64();
    lemma2_to64_rest();
    binary::lemma_worth_of_encode(24, 0x80_0000, 125);
    binary::lemma_worth_of_encode(24, 0x80_0000, 126);
    binary::lemma_worth_of_encode(24, 0x80_0000, 127);
    binary::lemma_worth_of_encode(24, 0xc9_0fdb, 127);
    binary::lemma_worth_of_encode(24, 0xb4_0000, 133);
    binary::lemma_worth_of_encode(24, 0xb5_04f3, 125);
    assert(binary::encode(24, 0x80_0000, 125) == filtered::HALF);
    assert(binary::encode(24, 0x80_0000, 126) == single::ONE);
    assert(binary::encode(24, 0x80_0000, 127) == filtered::TWO);
    assert(binary::encode(24, 0xc9_0fdb, 127) == filtered::PI);
    assert(binary::encode(24, 0xb4_0000, 133) == filtered::LF_CUTOFF_HZ);
    assert(binary::encode(24, 0xb5_04f3, 125) == filtered::BUTTERWORTH_Q_2POLE);
    lemma_pow2_adds(23, 125);
    lemma_pow2_adds(23, 126);
    lemma_pow2_adds(23, 127);
    lemma_pow2_unfold(150);
    lemma_pow2_adds(16, 133);
    assert(0xb4_0000 * pow2(133) == 180 * (0x1_0000 * pow2(133)));
}

/// The integers behind the scale.
proof fn lemma_scale_integers(
    t: int,
    a: int,
    d: int,
    g: int,
    s: int,
    q: int,
    u: int,
)
    requires
        a > 0,
        g > 0,
        s > 0,
        q > 0,
        u > 0,
        near(t, 2 * q, pow2(24)),
        near(a * t, s * u, pow2(24)),
        near(d, u + a, pow2(24)),
        near(g * d, u * u, pow2(24)),
    ensures
        near(g * (2 * q + s), u * (2 * q), pow2(18)),
        near(a * (2 * q), s * u, pow2(21)),
{
    lemma2_to64();
    let v = 2 * q;
    exact::lemma_near_coarser(t, v, pow2(24), pow2(23) + 1);
    exact::lemma_near_turns(t, v, pow2(23));
    exact::lemma_near_times(v, t, a, pow2(23));
    assert(v * a == a * v && t * a == a * t) by (nonlinear_arith);
    exact::lemma_near_chains(a * v, a * t, s * u, pow2(23), pow2(24), pow2(21));
    // The scale times one and the alpha.
    let e = u + a;
    exact::lemma_near_coarser(d, e, pow2(24), pow2(23) + 1);
    exact::lemma_near_turns(d, e, pow2(23));
    exact::lemma_near_times(e, d, g, pow2(23));
    assert(e * g == g * e && d * g == g * d) by (nonlinear_arith);
    exact::lemma_near_chains(g * e, g * d, u * u, pow2(23), pow2(24), pow2(21));
    // One and the alpha times twice the quality.
    let x = e * v;
    let y = (v + s) * u;
    assert(x == u * v + a * v) by (nonlinear_arith)
        requires
            x == e * v,
            e == u + a,
    ;
    assert(y == u * v + s * u) by (nonlinear_arith)
        requires
            y == (v + s) * u,
    ;
    assert(u * v > 0 && s * u > 0) by (nonlinear_arith)
        requires
            u > 0,
            v > 0,
            s > 0,
    ;
    assert(near(x, y, pow2(21)));
    exact::lemma_near_coarser(x, y, pow2(21), pow2(20) + 1);
    exact::lemma_near_turns(x, y, pow2(20));
    exact::lemma_near_times(y, x, g, pow2(20));
    exact::lemma_near_times(g * e, u * u, v, pow2(21));
    assert(x * g == (g * e) * v) by (nonlinear_arith)
        requires
            x == e * v,
    ;
    exact::lemma_near_chains(y * g, x * g, (u * u) * v, pow2(20), pow2(21), pow2(18));
    assert(y * g == (g * (v + s)) * u) by (nonlinear_arith)
        requires
            y == (v + s) * u,
    ;
    assert((u * u) * v == (u * v) * u) by (nonlinear_arith);
    exact::lemma_near_scales(g * (v + s), u * v, u, pow2(18));
}

/// The integers behind a coefficient that was scaled.
proof fn lemma_scaled_integers(p: int, x: int, z: int, g: int, t: int, v: int, u: int)
    requires
        t > 0,
        v > 0,
        u > 0,
        near(p * u, x * g, pow2(24)),
        near(x, z, pow2(20)),
        near(g * t, u * v, pow2(18)),
    ensures
        near(p * t, z * v, pow2(14)),
{
    lemma2_to64();
    exact::lemma_near_scales(p * u, x * g, t, pow2(24));
    exact::lemma_near_times(g * t, u * v, x, pow2(18));
    let uv = u * v;
    assert(uv > 0) by (nonlinear_arith)
        requires
            uv == u * v,
            u > 0,
            v > 0,
    ;
    exact::lemma_near_scales(x, z, uv, pow2(20));
    assert((x * g) * t == (g * t) * x) by (nonlinear_arith);
    assert(uv * x == x * uv) by (nonlinear_arith);
    exact::lemma_near_chains((g * t) * x, x * uv, z * uv, pow2(18), pow2(20), pow2(16));
    exact::lemma_near_chains((p * u) * t, (g * t) * x, z * uv, pow2(24), pow2(16), pow2(14));
    assert((p * u) * t == (p * t) * u) by (nonlinear_arith);
    assert(z * uv == (z * v) * u) by (nonlinear_arith)
        requires
            uv == u * v,
    ;
    exact::lemma_near_scales(p * t, z * v, u, pow2(14));
}

/// The scale of the coefficients, and the alpha behind it.
proof fn lemma_scale(s: Single, q: Single)
    requires
        single::finite(s),
        single::finite(q),
        pow2(119) <= single_value(s) <= single_value(q),
        pow2(147) <= single_value(q) <= pow2(151),
    ensures
        ({
            let one = Single { bits: single::ONE };
            let alpha = single::quotient(s, single::product(Single { bits: filtered::TWO }, q));
            let scale = single::quotient(one, single::sum(one, alpha));
            let u = pow2(149) as int;
            let (x, y) = (single_value(s), single_value(q));
            let (a, g) = (single_value(alpha), single_value(scale));
            &&& single::finite(alpha)
            &&& single::finite(scale)
            &&& pow2(147) <= g <= pow2(151)
            &&& 0 < 4 * a <= 3 * u
            &&& near(g * (2 * y + x), u * (2 * y), pow2(18))
            &&& near(a * (2 * y), x * u, pow2(21))
        }),
{
    let one = Single { bits: single::ONE };
    let two = Single { bits: filtered::TWO };
    let u = pow2(149) as int;
    let x = single_value(s);
    let y = single_value(q);
    lemma_constants();
    lemma2_to64();
    lemma2_to64_rest();
    exact::lemma_top();
    arith::lemma_zero_is_worth_nothing(24);
    lemma_pow2_pos(149);
    lemma_pow2_pos(119);
    lemma_pow2_unfold(148);
    lemma_pow2_unfold(149);
    lemma_pow2_unfold(150);
    lemma_pow2_unfold(151);
    lemma_pow2_unfold(152);
    lemma_pow2_unfold(153);
    lemma_pow2_strictly_increases(153, 277);
    // Twice the quality.
    let v = (2 * u) * y;
    lemma_pow2_adds(150, 147);
    lemma_pow2_adds(150, 151);
    lemma_pow2_strictly_increases(172, 297);
    lemma_pow2_strictly_increases(301, 426);
    assert(pow2(172) <= v < pow2(426)) by (nonlinear_arith)
        requires
            v == (2 * u) * y,
            pow2(150) == 2 * u,
            pow2(297) == pow2(150) * pow2(147),
            pow2(301) == pow2(150) * pow2(151),
            pow2(147) <= y <= pow2(151),
            pow2(172) < pow2(297),
            pow2(301) < pow2(426),
            u > 0,
    ;
    means::lemma_single_product_is_close(two, q);
    let twice = single::product(two, q);
    let t = single_value(twice);
    assert(v == (2 * y) * u) by (nonlinear_arith)
        requires
            v == (2 * u) * y,
    ;
    exact::lemma_near_scales(t, 2 * y, u, pow2(24));
    exact::lemma_near_bounds(t, 2 * y, pow2(24));
    assert(pow2(147) <= t <= pow2(153));
    assert(single::finite(twice) && !twice@.neg);
    // Alpha.
    let xu = x * u;
    lemma_pow2_adds(23, 153);
    lemma_pow2_adds(119, 149);
    lemma_pow2_strictly_increases(176, 268);
    lemma_pow2_adds(151, 149);
    lemma_pow2_adds(277, 147);
    lemma_pow2_strictly_increases(300, 424);
    assert(pow2(23) * t <= xu && xu < pow2(277) * t) by (nonlinear_arith)
        requires
            xu == x * u,
            pow2(147) <= t <= pow2(153),
            pow2(119) <= x <= pow2(151),
            pow2(176) == pow2(23) * pow2(153),
            pow2(268) == pow2(119) * u,
            pow2(176) < pow2(268),
            pow2(300) == pow2(151) * u,
            pow2(424) == pow2(277) * pow2(147),
            pow2(300) < pow2(424),
            u > 0,
            pow2(277) > 0,
    ;
    means::lemma_single_quotient_is_close(s, twice);
    let alpha = single::quotient(s, twice);
    let a = single_value(alpha);
    assert(xu > 0) by (nonlinear_arith)
        requires
            xu == x * u,
            x > 0,
            u > 0,
    ;
    exact::lemma_near_bounds(a * t, xu, pow2(24));
    assert(a > 0) by (nonlinear_arith)
        requires
            a * t > 0,
            t > 0,
    ;
    lemma_alpha_is_small(a, t, x, y, u);
    assert(single::finite(alpha));
    // One more.
    means::lemma_single_sum_is_close(one, alpha);
    let more = single::sum(one, alpha);
    let d = single_value(more);
    exact::lemma_near_bounds(d, u + a, pow2(24));
    assert(pow2(148) <= d <= pow2(151));
    assert(single::finite(more) && !more@.neg);
    lemma_pow2_adds(23, 151);
    lemma_pow2_adds(149, 149);
    lemma_pow2_strictly_increases(174, 298);
    lemma_pow2_adds(277, 148);
    lemma_pow2_strictly_increases(298, 425);
    assert(pow2(23) * d <= u * u && u * u < pow2(277) * d) by (nonlinear_arith)
        requires
            pow2(148) <= d <= pow2(151),
            pow2(174) == pow2(23) * pow2(151),
            pow2(298) == u * u,
            pow2(174) < pow2(298),
            pow2(425) == pow2(277) * pow2(148),
            pow2(298) < pow2(425),
            pow2(277) > 0,
    ;
    means::lemma_single_quotient_is_close(one, more);
    let scale = single::quotient(one, more);
    let g = single_value(scale);
    let uu = u * u;
    assert(uu > 0) by (nonlinear_arith)
        requires
            uu == u * u,
            u > 0,
    ;
    exact::lemma_near_bounds(g * d, uu, pow2(24));
    lemma_pow2_pos(147);
    assert(pow2(147) <= g <= pow2(151)) by (nonlinear_arith)
        requires
            2 * (g * d) >= u * u,
            2 * (g * d) <= 3 * (u * u),
            2 * d >= u,
            d <= 2 * u,
            u == 4 * pow2(147),
            pow2(151) == 4 * u,
            u > 0,
            g >= 0,
    ;
    assert(single::finite(scale));
    lemma_scale_integers(t, a, d, g, x, y, u);
}

/// An alpha of at most a half, up to rounding, is below one.
proof fn lemma_alpha_is_small(a: int, t: int, x: int, y: int, u: int)
    requires
        near(a * t, x * u, pow2(24)),
        near(t, 2 * y, pow2(24)),
        0 < x <= y,
        u > 0,
        a > 0,
    ensures
        4 * a <= 3 * u,
{
    lemma2_to64();
    let p = exact::abs(a * t - x * u) as int;
    let q = exact::abs(t - 2 * y) as int;
    assert(t >= 2 * y - q);
    assert(16 * t >= 31 * y) by (nonlinear_arith)
        requires
            t >= 2 * y - q,
            0x100_0000 * q <= 2 * y,
            y > 0,
    ;
    let xu = x * u;
    assert(xu > 0) by (nonlinear_arith)
        requires
            xu == x * u,
            x > 0,
            u > 0,
    ;
    assert(32 * (a * t) <= 33 * xu) by (nonlinear_arith)
        requires
            a * t - xu <= p,
            0x100_0000 * p <= xu,
            xu > 0,
    ;
    // 32 * 31 * a * y <= 32 * 16 * a * t <= 33 * 16 * x * u <= 33 * 16 * y * u.
    let ay = a * y;
    let yu = y * u;
    assert(31 * ay <= 16 * (a * t)) by (nonlinear_arith)
        requires
            ay == a * y,
            16 * t >= 31 * y,
            a > 0,
    ;
    assert(xu <= yu) by (nonlinear_arith)
        requires
            xu == x * u,
            yu == y * u,
            x <= y,
            u > 0,
    ;
    assert(4 * a <= 3 * u) by (nonlinear_arith)
        requires
            ay == a * y,
            yu == y * u,
            62 * ay <= 33 * yu,
            y > 0,
            a > 0,
            u > 0,
    ;
}

/// A coefficient that was scaled.
proof fn lemma_scaled(x: Single, scale: Single, z: int, t: int, v: int)
    requires
        single::finite(x),
        single::finite(scale),
        pow2(117) <= exact::abs(single_value(x)) <= pow2(153),
        pow2(147) <= single_value(scale) <= pow2(151),
        near(single_value(x), z, pow2(20)),
        t > 0,
        v > 0,
        near(single_value(scale) * t, pow2(149) * v, pow2(18)),
    ensures
        near(single_value(single::product(x, scale)) * t, z * v, pow2(14)),
{
    let u = pow2(149) as int;
    let a = exact::abs(single_value(x)) as int;
    let b = single_value(x);
    let g = single_value(scale);
    lemma_pow2_pos(149);
    lemma_pow2_pos(117);
    lemma_pow2_pos(147);
    lemma_pow2_adds(117, 147);
    lemma_pow2_adds(153, 151);
    lemma_pow2_strictly_increases(172, 264);
    lemma_pow2_strictly_increases(304, 426);
    let ag = a * g;
    assert(pow2(172) <= ag < pow2(426)) by (nonlinear_arith)
        requires
            ag == a * g,
            pow2(117) <= a <= pow2(153),
            pow2(147) <= g <= pow2(151),
            pow2(264) == pow2(117) * pow2(147),
            pow2(304) == pow2(153) * pow2(151),
            pow2(172) < pow2(264),
            pow2(304) < pow2(426),
    ;
    assert((-b) * g == -(b * g)) by (nonlinear_arith);
    assert(exact::abs(b * g) == ag);
    means::lemma_single_product_is_close(x, scale);
    lemma_scaled_integers(single_value(single::product(x, scale)), b, z, g, t, v, u);
}

/// The coefficients are those of a lowpass.
pub proof fn law_coefficients_are_those_of_a_lowpass(s: Single, k: Single, q: Single)
    requires
        plausible(s, k, q),
    ensures
        is_lowpass(
            filtered::lowpass(s, k, q),
            single_value(s),
            single_value(k),
            single_value(q),
        ),
{
    let one = Single { bits: single::ONE };
    let half = Single { bits: filtered::HALF };
    let minus_two = Single { bits: filtered::MINUS_TWO };
    let u = pow2(149) as int;
    let (x, y, z) = (single_value(s), single_value(k), single_value(q));
    let t = 2 * z + x;
    let v = 2 * z;
    lemma_constants();
    lemma2_to64();
    lemma2_to64_rest();
    exact::lemma_top();
    lemma_pow2_pos(119);
    lemma_pow2_pos(147);
    lemma_pow2_pos(149);
    lemma_pow2_unfold(118);
    lemma_pow2_unfold(119);
    lemma_pow2_unfold(149);
    lemma_pow2_unfold(150);
    lemma_pow2_unfold(151);
    lemma_pow2_unfold(152);
    lemma_pow2_unfold(153);
    lemma_pow2_strictly_increases(153, 277);
    lemma_scale(s, q);
    let alpha = single::quotient(s, single::product(Single { bits: filtered::TWO }, q));
    let scale = single::quotient(one, single::sum(one, alpha));
    let a = single_value(alpha);
    // Forward.
    let b1 = single::difference(one, k);
    means::lemma_single_difference_is_close(one, k);
    let g = u - y;
    let d = single_value(b1);
    exact::lemma_near_bounds(d, g, pow2(24));
    assert(single::finite(b1));
    exact::lemma_near_coarser(d, g, pow2(24), pow2(20));
    lemma_scaled(b1, scale, g, t, v);
    // Half of it.
    let b0 = single::product(b1, half);
    let h = pow2(148) as int;
    let dh = d * h;
    lemma_pow2_adds(118, 148);
    lemma_pow2_adds(152, 148);
    lemma_pow2_strictly_increases(172, 266);
    lemma_pow2_strictly_increases(300, 426);
    assert(pow2(172) <= dh < pow2(426)) by (nonlinear_arith)
        requires
            dh == d * h,
            pow2(118) <= d <= pow2(152),
            pow2(266) == pow2(118) * h,
            pow2(300) == pow2(152) * h,
            pow2(172) < pow2(266),
            pow2(300) < pow2(426),
            h > 0,
    ;
    means::lemma_single_product_is_close(b1, half);
    let e = single_value(b0);
    assert(e * u == (2 * e) * h) by (nonlinear_arith)
        requires
            u == 2 * h,
    ;
    exact::lemma_near_scales(2 * e, d, h, pow2(24));
    exact::lemma_near_bounds(2 * e, d, pow2(24));
    exact::lemma_near_chains(2 * e, d, g, pow2(24), pow2(24), pow2(22));
    assert(single::finite(b0));
    lemma_half(single_value(single::product(b0, scale)), b0, scale, g, t, v);
    // Backward.
    let n = single::product(minus_two, k);
    lemma_twice(k, n);
    exact::lemma_near_coarser(single_value(n), -2 * y, pow2(22), pow2(20));
    lemma_scaled(n, scale, -2 * y, t, v);
    let m = single::difference(one, alpha);
    means::lemma_single_difference_is_close(one, alpha);
    lemma_alpha_complement(a, x, z, u, single_value(m));
    exact::lemma_near_bounds(single_value(m), u - a, pow2(24));
    lemma_last(m, scale, a, x, z);
}

/// Half a coefficient that was scaled.
proof fn lemma_half(p: int, b0: Single, scale: Single, g: int, t: int, v: int)
    requires
        single::finite(b0),
        single::finite(scale),
        p == single_value(single::product(b0, scale)),
        pow2(117) <= single_value(b0) <= pow2(153),
        pow2(147) <= single_value(scale) <= pow2(151),
        near(2 * single_value(b0), g, pow2(22)),
        t > 0,
        v > 0,
        near(single_value(scale) * t, pow2(149) * v, pow2(18)),
    ensures
        near((2 * p) * t, g * v, pow2(14)),
{
    let u = pow2(149) as int;
    let e = single_value(b0);
    let s = single_value(scale);
    lemma2_to64();
    lemma_pow2_pos(149);
    lemma_pow2_pos(117);
    lemma_pow2_pos(147);
    lemma_pow2_adds(117, 147);
    lemma_pow2_adds(153, 151);
    lemma_pow2_strictly_increases(172, 264);
    lemma_pow2_strictly_increases(304, 426);
    let es = e * s;
    assert(pow2(172) <= es < pow2(426)) by (nonlinear_arith)
        requires
            es == e * s,
            pow2(117) <= e <= pow2(153),
            pow2(147) <= s <= pow2(151),
            pow2(264) == pow2(117) * pow2(147),
            pow2(304) == pow2(153) * pow2(151),
            pow2(172) < pow2(264),
            pow2(304) < pow2(426),
    ;
    means::lemma_single_product_is_close(b0, scale);
    exact::lemma_near_scales(p * u, es, 2, pow2(24));
    assert((p * u) * 2 == (2 * p) * u && es * 2 == (2 * e) * s) by (nonlinear_arith)
        requires
            es == e * s,
    ;
    exact::lemma_near_coarser(2 * e, g, pow2(22), pow2(20));
    lemma_scaled_integers(2 * p, 2 * e, g, s, t, v, u);
}

/// Twice a number, with the other sign.
proof fn lemma_twice(k: Single, n: Single)
    requires
        single::finite(k),
        pow2(119) <= exact::abs(single_value(k)) <= pow2(149),
        n == single::product(Single { bits: filtered::MINUS_TWO }, k),
    ensures
        single::finite(n),
        near(single_value(n), -2 * single_value(k), pow2(22)),
        pow2(118) <= exact::abs(single_value(n)) <= pow2(152),
{
    let minus_two = Single { bits: filtered::MINUS_TWO };
    let u = pow2(149) as int;
    let y = single_value(k);
    let a = exact::abs(y) as int;
    lemma_constants();
    lemma2_to64();
    exact::lemma_top();
    lemma_pow2_pos(149);
    lemma_pow2_unfold(119);
    lemma_pow2_unfold(150);
    lemma_pow2_unfold(151);
    lemma_pow2_unfold(152);
    lemma_pow2_strictly_increases(152, 277);
    let v = (-2 * u) * y;
    let w = (2 * u) * a;
    assert((2 * u) * (-y) == v && (-2 * u) * y == -((2 * u) * y)) by (nonlinear_arith)
        requires
            v == (-2 * u) * y,
    ;
    lemma_pow2_adds(119, 149);
    lemma_pow2_adds(149, 149);
    lemma_pow2_unfold(299);
    lemma_pow2_strictly_increases(172, 268);
    lemma_pow2_strictly_increases(299, 426);
    assert(pow2(172) <= w < pow2(426)) by (nonlinear_arith)
        requires
            w == (2 * u) * a,
            pow2(119) <= a <= u,
            pow2(268) == pow2(119) * u,
            pow2(298) == u * u,
            pow2(299) == 2 * pow2(298),
            pow2(172) < pow2(268),
            pow2(299) < pow2(426),
            u > 0,
    ;
    assert(exact::abs(v) == w);
    means::lemma_single_product_is_close(minus_two, k);
    let z = single_value(n);
    assert(v == (-2 * y) * u) by (nonlinear_arith)
        requires
            v == (-2 * u) * y,
    ;
    exact::lemma_near_scales(z, -2 * y, u, pow2(24));
    exact::lemma_near_coarser(z, -2 * y, pow2(24), pow2(22));
    let off = exact::abs(z - (-2 * y)) as int;
    assert(2 * off <= 2 * a) by (nonlinear_arith)
        requires
            pow2(22) * off <= 2 * a,
            pow2(22) >= 4,
            off >= 0,
    ;
    assert(4 * off <= 2 * a) by (nonlinear_arith)
        requires
            pow2(22) * off <= 2 * a,
            pow2(22) >= 4,
            off >= 0,
    ;
}

/// What is left of one besides an alpha of at most a half.
proof fn lemma_alpha_complement(a: int, x: int, z: int, u: int, m: int)
    requires
        near(a * (2 * z), x * u, pow2(21)),
        near(m, u - a, pow2(24)),
        0 < x <= z,
        u > 0,
        0 < a < u,
    ensures
        near((u - a) * (2 * z), u * (2 * z - x), pow2(21)),
{
    let v = 2 * z;
    let p = (u - a) * v;
    let q = u * (v - x);
    let av = a * v;
    let xu = x * u;
    assert(p == u * v - av) by (nonlinear_arith)
        requires
            p == (u - a) * v,
            av == a * v,
    ;
    assert(q == u * v - xu) by (nonlinear_arith)
        requires
            q == u * (v - x),
            xu == x * u,
    ;
    assert(q >= xu && xu > 0) by (nonlinear_arith)
        requires
            q == u * (v - x),
            xu == x * u,
            v >= 2 * x,
            u > 0,
            x > 0,
    ;
    assert(exact::abs(p - q) == exact::abs(av - xu));
}

/// The last coefficient.
proof fn lemma_last(m: Single, scale: Single, a: int, x: int, z: int)
    requires
        single::finite(m),
        single::finite(scale),
        near(single_value(m), pow2(149) - a, pow2(24)),
        0 < 4 * a <= 3 * pow2(149),
        0 < x,
        0 < z,
        near((pow2(149) - a) * (2 * z), pow2(149) * (2 * z - x), pow2(21)),
        pow2(147) <= single_value(scale) <= pow2(151),
        near(single_value(scale) * (2 * z + x), pow2(149) * (2 * z), pow2(18)),
    ensures
        near(
            single_value(single::product(m, scale)) * (2 * z + x),
            pow2(149) * (2 * z - x),
            pow2(12),
        ),
{
    let u = pow2(149) as int;
    let e = u - a;
    let d = single_value(m);
    lemma2_to64();
    lemma_pow2_unfold(149);
    lemma_pow2_unfold(148);
    lemma_pow2_unfold(150);
    lemma_pow2_strictly_increases(117, 146);
    lemma_pow2_unfold(147);
    lemma_pow2_strictly_increases(150, 153);
    lemma_pow2_pos(146);
    exact::lemma_near_bounds(d, e, pow2(24));
    exact::lemma_near_coarser(d, e, pow2(24), pow2(20));
    lemma_scaled(m, scale, e, 2 * z + x, 2 * z);
    exact::lemma_near_chains(
        single_value(single::product(m, scale)) * (2 * z + x),
        e * (2 * z),
        u * (2 * z - x),
        pow2(14),
        pow2(21),
        pow2(12),
    );
}

/// The angle of the cutoff: at a sample rate of `n`, it is 180 times 6.2831853 over `n`, up to one part
/// in two hundred thousand.
pub open spec fn is_cutoff_angle(w: Single, n: nat) -> bool {
    near(
        (single_value(w) * n) * 10_000_000,
        (180 * 62_831_853) * pow2(149) as int,
        pow2(18),
    )
}

/// The filter of the low band is a Butterworth lowpass at 180 hertz: its coefficients are those of a
/// lowpass with the sine and the cosine of the angle of the cutoff, and a quality of the root of one
/// half.
pub proof fn law_low_band_is_cut_at_its_frequency<
    S: Fn(Single) -> Single,
    C: Fn(Single) -> Single,
>(sin: S, cos: C, sample_rate: u32, c: Coefficients)
    requires
        filtered::is_filter(sin, cos, sample_rate, c),
        0 < sample_rate < 0x100_0000,
    ensures
        exists|w: Single, s: Single, k: Single, q: Single|
            {
                &&& is_cutoff_angle(w, sample_rate as nat)
                &&& #[trigger] call_ensures(sin, (w,), s)
                &&& #[trigger] call_ensures(cos, (w,), k)
                &&& near(
                    (2 * single_value(q)) * single_value(q),
                    (pow2(149) * pow2(149)) as int,
                    pow2(20),
                )
                &&& #[trigger] plausible(s, k, q) ==> is_lowpass(
                    c,
                    single_value(s),
                    single_value(k),
                    single_value(q),
                )
            },
{
    let cutoff = Single { bits: filtered::LF_CUTOFF_HZ };
    let q = Single { bits: filtered::BUTTERWORTH_Q_2POLE };
    let w = filtered::angle(cutoff, single::from_int(sample_rate as nat));
    let (s, k) = choose|s: Single, k: Single| #[trigger]
        call_ensures(sin, (w,), s) && #[trigger] call_ensures(cos, (w,), k) && c
            == filtered::lowpass(s, k, q);
    lemma_cutoff_angle(sample_rate as nat);
    lemma_quality();
    if plausible(s, k, q) {
        law_coefficients_are_those_of_a_lowpass(s, k, q);
    }
    assert(call_ensures(sin, (w,), s) && call_ensures(cos, (w,), k));
    assert(is_cutoff_angle(w, sample_rate as nat));
    let ok = plausible(s, k, q);
}

/// The quality is the root of one half.
proof fn lemma_quality()
    ensures
        ({
            let q = single_value(Single { bits: filtered::BUTTERWORTH_Q_2POLE });
            near((2 * q) * q, (pow2(149) * pow2(149)) as int, pow2(20))
        }),
{
    let q = single_value(Single { bits: filtered::BUTTERWORTH_Q_2POLE });
    lemma_constants();
    lemma2_to64();
    lemma2_to64_rest();
    let z = pow2(125) as int;
    let u = pow2(149) as int;
    lemma_pow2_adds(24, 125);
    let zz = z * z;
    assert(zz >= 0) by (nonlinear_arith)
        requires
            zz == z * z,
    ;
    assert((2 * q) * q == 281_474_967_076_178 * zz) by (nonlinear_arith)
        requires
            q == 0xb5_04f3 * z,
            zz == z * z,
    ;
    assert(u * u == 281_474_976_710_656 * zz) by (nonlinear_arith)
        requires
            u == 0x100_0000 * z,
            zz == z * z,
    ;
}

proof fn lemma_cutoff_angle(n: nat)
    requires
        0 < n < 0x100_0000,
    ensures
        is_cutoff_angle(
            filtered::angle(Single { bits: filtered::LF_CUTOFF_HZ }, single::from_int(n)),
            n,
        ),
{
    let two = Single { bits: filtered::TWO };
    let pi = Single { bits: filtered::PI };
    let cutoff = Single { bits: filtered::LF_CUTOFF_HZ };
    let u = pow2(149) as int;
    let z = pow2(127) as int;
    lemma_constants();
    lemma2_to64();
    lemma2_to64_rest();
    exact::lemma_top();
    exact::lemma_single_count(n);
    lemma_pow2_pos(149);
    lemma_pow2_pos(127);
    lemma_pow2_adds(22, 127);
    lemma_pow2_unfold(150);
    lemma_pow2_unfold(151);
    lemma_pow2_unfold(152);
    lemma_pow2_unfold(153);
    let p = 0xc9_0fdb * z;
    assert(pow2(150) <= p <= pow2(151)) by (nonlinear_arith)
        requires
            p == 0xc9_0fdb * z,
            u == 0x40_0000 * z,
            pow2(150) == 2 * u,
            pow2(151) == 4 * u,
            z > 0,
    ;
    // A whole turn.
    let v = (2 * u) * p;
    lemma_pow2_adds(150, 150);
    lemma_pow2_adds(150, 151);
    lemma_pow2_strictly_increases(172, 300);
    lemma_pow2_strictly_increases(301, 426);
    assert(pow2(172) <= v < pow2(426)) by (nonlinear_arith)
        requires
            v == (2 * u) * p,
            pow2(150) == 2 * u,
            pow2(300) == pow2(150) * pow2(150),
            pow2(301) == pow2(150) * pow2(151),
            pow2(150) <= p <= pow2(151),
            pow2(172) < pow2(300),
            pow2(301) < pow2(426),
            u > 0,
    ;
    means::lemma_single_product_is_close(two, pi);
    let turn = single::product(two, pi);
    let t = single_value(turn);
    assert(v == (2 * p) * u) by (nonlinear_arith)
        requires
            v == (2 * u) * p,
    ;
    exact::lemma_near_scales(t, 2 * p, u, pow2(24));
    exact::lemma_near_bounds(t, 2 * p, pow2(24));
    lemma_pow2_strictly_increases(153, 277);
    assert(pow2(150) <= t <= pow2(153));
    assert(single::finite(turn));
    // Times the cutoff.
    let c = 180 * u;
    let tc = t * c;
    lemma_pow2_adds(150, 149);
    lemma_pow2_strictly_increases(172, 299);
    lemma_pow2_adds(8, 149);
    lemma_pow2_adds(153, 157);
    lemma_pow2_strictly_increases(310, 426);
    assert(pow2(172) <= tc < pow2(426)) by (nonlinear_arith)
        requires
            tc == t * c,
            c == 180 * u,
            pow2(150) <= t <= pow2(153),
            pow2(299) == pow2(150) * u,
            pow2(157) == 256 * u,
            pow2(310) == pow2(153) * pow2(157),
            pow2(172) < pow2(299),
            pow2(310) < pow2(426),
            u > 0,
    ;
    means::lemma_single_product_is_close(turn, cutoff);
    let most = single::product(turn, cutoff);
    let x = single_value(most);
    assert(tc == (t * 180) * u) by (nonlinear_arith)
        requires
            tc == t * c,
            c == 180 * u,
    ;
    exact::lemma_near_scales(x, t * 180, u, pow2(24));
    exact::lemma_near_scales(t, 2 * p, 180, pow2(24));
    exact::lemma_near_chains(x, t * 180, (2 * p) * 180, pow2(24), pow2(24), pow2(22));
    exact::lemma_near_bounds(x, (2 * p) * 180, pow2(22));
    lemma_pow2_adds(9, 152);
    lemma_pow2_strictly_increases(161, 277);
    assert(pow2(150) <= x <= pow2(161));
    assert(single::finite(most));
    // Over the sample rate.
    let nu = n * u;
    let rate = single::from_int(n);
    lemma_pow2_adds(24, 149);
    lemma_pow2_adds(23, 173);
    lemma_pow2_strictly_increases(196, 299);
    lemma_pow2_adds(161, 149);
    lemma_pow2_adds(277, 149);
    lemma_pow2_strictly_increases(310, 426);
    assert(nu >= u && nu <= pow2(173)) by (nonlinear_arith)
        requires
            nu == n * u,
            1 <= n < 0x100_0000,
            pow2(173) == 0x100_0000 * u,
            u > 0,
    ;
    assert(pow2(23) * nu <= x * u && x * u < pow2(277) * nu) by (nonlinear_arith)
        requires
            u <= nu <= pow2(173),
            pow2(150) <= x <= pow2(161),
            pow2(196) == pow2(23) * pow2(173),
            pow2(299) == pow2(150) * u,
            pow2(196) < pow2(299),
            pow2(310) == pow2(161) * u,
            pow2(426) == pow2(277) * u,
            pow2(310) < pow2(426),
            u > 0,
            pow2(277) > 0,
            pow2(23) > 0,
    ;
    means::lemma_single_quotient_is_close(most, rate);
    let w = single_value(single::quotient(most, rate));
    assert(w * nu == (w * n) * u) by (nonlinear_arith)
        requires
            nu == n * u,
    ;
    exact::lemma_near_scales(w * n, x, u, pow2(24));
    exact::lemma_near_chains(w * n, x, (2 * p) * 180, pow2(24), pow2(22), pow2(20));
    // The digits of a turn.
    exact::lemma_near_scales(w * n, (2 * p) * 180, 10_000_000, pow2(20));
    let y = (180 * 62_831_853) * u;
    assert(((2 * p) * 180) * 10_000_000 == 47_436_462_000_000_000 * z);
    assert(y == 47_436_460_625_756_160 * z) by (nonlinear_arith)
        requires
            y == (180 * 62_831_853) * u,
            u == 0x40_0000 * z,
    ;
    assert(near(((2 * p) * 180) * 10_000_000, y, pow2(22)));
    exact::lemma_near_chains(
        (w * n) * 10_000_000,
        ((2 * p) * 180) * 10_000_000,
        y,
        pow2(20),
        pow2(22),
        pow2(18),
    );
}

} // verus!
