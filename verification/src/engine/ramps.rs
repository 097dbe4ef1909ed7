//! How long a ramp lasts, and what its weights are.

use vstd::arithmetic::div_mod::*;
use vstd::arithmetic::power2::*;
use vstd::prelude::*;

use crate::engine::declick;
use crate::ieee::arith;
use crate::ieee::binary;
use crate::ieee::exact;
use crate::ieee::exact::near;
use crate::ieee::exact::single_value;
use crate::ieee::means;
use crate::ieee::single;
use crate::ieee::single::Single;
use crate::timecode::pace;

verus! {

/// A duration between about a microsecond and sixteen seconds, in milliseconds.
pub open spec fn is_duration(ms: Single) -> bool {
    &&& single::finite(ms)
    &&& pow2(139) <= single_value(ms) <= pow2(163)
}

/// The sample rate times the milliseconds, over a thousand.
proof fn lemma_samples(sample_rate: Single, ms: Single)
    requires
        pace::is_frequency(sample_rate),
        is_duration(ms),
    ensures
        ({
            let q = single::quotient(single::product(sample_rate, ms), single::from_int(1000));
            let u = pow2(149);
            &&& single::finite(q)
            &&& !q@.neg
            &&& single_value(q) <= pow2(180)
            &&& near(
                (single_value(q) * 1000) * u,
                single_value(sample_rate) * single_value(ms),
                pow2(22),
            )
        }),
{
    let u = pow2(149) as int;
    let x = single_value(sample_rate);
    let y = single_value(ms);
    let d = single::from_int(1000);
    lemma2_to64();
    lemma2_to64_rest();
    lemma_pow2_pos(149);
    lemma_pow2_pos(139);
    exact::lemma_top();
    exact::lemma_single_count(1000);
    let xy = x * y;
    lemma_pow2_adds(149, 139);
    lemma_pow2_adds(173, 163);
    lemma_pow2_strictly_increases(172, 288);
    lemma_pow2_strictly_increases(336, 426);
    assert(pow2(288) <= xy <= pow2(336)) by (nonlinear_arith)
        requires
            xy == x * y,
            u <= x <= pow2(173),
            pow2(139) <= y <= pow2(163),
            pow2(288) == u * pow2(139),
            pow2(336) == pow2(173) * pow2(163),
            u > 0,
            pow2(139) > 0,
    ;
    means::lemma_single_product_is_close(sample_rate, ms);
    let p = single::product(sample_rate, ms);
    let v = single_value(p);
    exact::lemma_near_bounds(v * u, xy, pow2(24));
    lemma_pow2_adds(138, 149);
    lemma_pow2_unfold(288);
    lemma_pow2_adds(188, 149);
    lemma_pow2_unfold(337);
    assert(pow2(138) <= v <= pow2(188)) by (nonlinear_arith)
        requires
            2 * (v * u) >= xy,
            2 * (v * u) <= 3 * xy,
            xy >= 2 * pow2(287),
            2 * xy <= pow2(337),
            pow2(287) == pow2(138) * u,
            pow2(337) == pow2(188) * u,
            u > 0,
    ;
    lemma_pow2_strictly_increases(188, 277);
    assert(single::finite(p));
    let du = 1000 * u;
    lemma_pow2_adds(10, 149);
    lemma_pow2_adds(23, 159);
    lemma_pow2_strictly_increases(182, 287);
    lemma_pow2_adds(277, 149);
    lemma_pow2_strictly_increases(337, 426);
    lemma_pow2_pos(277);
    assert(pow2(23) * du <= v * u && v * u < pow2(277) * du) by (nonlinear_arith)
        requires
            pow2(138) <= v <= pow2(188),
            du == 1000 * u,
            pow2(159) == 1024 * u,
            pow2(182) == pow2(23) * pow2(159),
            pow2(287) == pow2(138) * u,
            pow2(182) < pow2(287),
            pow2(337) == pow2(188) * u,
            pow2(426) == pow2(277) * u,
            pow2(337) < pow2(426),
            u > 0,
            pow2(277) > 0,
            pow2(23) > 0,
    ;
    means::lemma_single_quotient_is_close(p, d);
    let q = single::quotient(p, d);
    let w = single_value(q);
    assert(w * du == (w * 1000) * u) by (nonlinear_arith)
        requires
            du == 1000 * u,
    ;
    exact::lemma_near_scales(w * 1000, v, u, pow2(24));
    exact::lemma_near_bounds(w * 1000, v, pow2(24));
    exact::lemma_near_chains((w * 1000) * u, v * u, xy, pow2(24), pow2(24), pow2(22));
    lemma_pow2_adds(180, 9);
    lemma_pow2_unfold(189);
    lemma_pow2_strictly_increases(180, 277);
}

/// A ramp lasts as long as it was asked to, to the nearest sample and up to rounding, but no less than
/// sixteen samples.
pub proof fn law_ramps_last_as_long_as_asked(sample_rate: Single, ms: Single)
    requires
        pace::is_frequency(sample_rate),
        is_duration(ms),
    ensures
        ({
            let n = declick::ramp_len(sample_rate, ms, u64::MAX as nat);
            let asked = single_value(sample_rate) * single_value(ms);
            let sample = 1000 * (pow2(149) * pow2(149));
            &&& n >= 16
            &&& n > 16 ==> 2 * exact::abs(n * sample - asked) <= sample + asked / 0x10_0000
            &&& n == 16 ==> 2 * asked <= 33 * sample + asked / 0x10_0000
        }),
{
    let u = pow2(149);
    let q = single::quotient(single::product(sample_rate, ms), single::from_int(1000));
    let w = single_value(q) as nat;
    let asked = single_value(sample_rate) * single_value(ms);
    lemma2_to64();
    lemma2_to64_rest();
    lemma_pow2_pos(149);
    lemma_samples(sample_rate, ms);
    reveal(single::nearest_int);
    let n = (2 * w + u) / (2 * u);
    lemma_fundamental_div_mod((2 * w + u) as int, (2 * u) as int);
    lemma_mod_bound((2 * w + u) as int, (2 * u) as int);
    let r = (2 * w + u) % (2 * u);
    assert(2 * w + u == (2 * u) * n + r);
    lemma_pow2_adds(31, 149);
    assert(n <= 0x8000_0001) by (nonlinear_arith)
        requires
            2 * w + u == (2 * u) * n + r,
            r >= 0,
            w <= pow2(180),
            pow2(180) == 0x8000_0000 * u,
            u > 0,
    ;
    assert(single::nearest_int(q, u64::MAX as nat) == n);
    // The nearest sample.
    let uu = u * u;
    let sample = 1000 * uu;
    let z = (w * 1000) * u;
    let gap = exact::abs(n * sample - z) as int;
    assert(n * sample - z == ((n * u - w) * 1000) * u) by (nonlinear_arith)
        requires
            sample == 1000 * (u * u),
            z == (w * 1000) * u,
    ;
    let off = n * u - w;
    assert(-u <= 2 * off <= u) by (nonlinear_arith)
        requires
            off == n * u - w,
            2 * w + u == (2 * u) * n + r,
            0 <= r < 2 * u,
    ;
    assert(2 * gap <= sample) by (nonlinear_arith)
        requires
            gap == (off * 1000) * u || gap == -((off * 1000) * u),
            -u <= 2 * off <= u,
            sample == 1000 * (u * u),
            u > 0,
    ;
    let miss = exact::abs(z - asked) as int;
    assert(asked >= 0) by (nonlinear_arith)
        requires
            asked == single_value(sample_rate) * single_value(ms),
            single_value(sample_rate) >= 0,
            single_value(ms) >= 0,
    ;
    assert(pow2(22) * miss <= asked);
    assert(2 * miss <= asked / 0x10_0000);
    assert(exact::abs(n * sample - asked) <= gap + miss);
    if n <= 16 {
        assert(n * sample <= 16 * sample) by (nonlinear_arith)
            requires
                n <= 16,
                sample >= 0,
        ;
    }
}

/// A quarter of a turn, `i` parts of `n` of it: `i / n` times 1.5707963, up to rounding.
pub open spec fn is_quarter_angle(x: Single, i: int, n: nat) -> bool {
    near((single_value(x) * n) * 10_000_000, (i * 15_707_963) * pow2(149), pow2(18))
}

proof fn lemma_angle(i: nat, n: nat)
    requires
        0 < i < n <= 0x100_0000,
    ensures
        is_quarter_angle(declick::ramp_angle(i as int, n), i as int, n),
{
    let a = single::from_int(i);
    let d = single::from_int(n);
    let quarter = Single { bits: declick::FRAC_PI_2 };
    let u = pow2(149) as int;
    let z = pow2(126) as int;
    lemma2_to64();
    lemma2_to64_rest();
    lemma_pow2_pos(149);
    lemma_pow2_pos(126);
    exact::lemma_top();
    arith::lemma_zero_is_worth_nothing(24);
    exact::lemma_single_count(i);
    exact::lemma_single_count(n);
    binary::lemma_worth_of_encode(24, 0xc9_0fdb, 126);
    assert(binary::encode(24, 0xc9_0fdb, 126) == declick::FRAC_PI_2);
    lemma_pow2_adds(23, 126);
    let p = 0xc9_0fdb * z;
    assert(single_value(quarter) == p);
    // The part.
    let iu = i * u;
    let nu = n * u;
    lemma_pow2_adds(24, 149);
    lemma_pow2_adds(23, 173);
    lemma_pow2_adds(149, 149);
    lemma_pow2_strictly_increases(196, 298);
    lemma_pow2_strictly_increases(149, 277);
    assert(u <= iu <= nu && nu <= pow2(173)) by (nonlinear_arith)
        requires
            iu == i * u,
            nu == n * u,
            1 <= i <= n <= 0x100_0000,
            pow2(173) == 0x100_0000 * u,
            u > 0,
    ;
    assert(pow2(23) * nu <= iu * u && iu * u < pow2(277) * nu) by (nonlinear_arith)
        requires
            u <= iu <= nu,
            nu <= pow2(173),
            pow2(196) == pow2(23) * pow2(173),
            pow2(298) == u * u,
            pow2(196) < pow2(298),
            u < pow2(277),
            u > 0,
            pow2(23) > 0,
    ;
    means::lemma_single_quotient_is_close(a, d);
    let part = single::quotient(a, d);
    let f = single_value(part);
    assert(f * nu == (f * n) * u) by (nonlinear_arith)
        requires
            nu == n * u,
    ;
    exact::lemma_near_scales(f * n, iu, u, pow2(24));
    exact::lemma_near_bounds(f * n, iu, pow2(24));
    lemma_pow2_adds(124, 24);
    lemma_pow2_unfold(149);
    lemma_pow2_unfold(150);
    assert(pow2(124) <= f <= pow2(150)) by (nonlinear_arith)
        requires
            2 * (f * n) >= iu,
            2 * (f * n) <= 3 * iu,
            iu >= u,
            iu <= n * u,
            u == 2 * (pow2(124) * 0x100_0000),
            pow2(150) == 2 * u,
            1 <= n <= 0x100_0000,
            u > 0,
    ;
    lemma_pow2_strictly_increases(150, 277);
    assert(single::finite(part));
    // Of a quarter.
    lemma_pow2_unfold(151);
    assert(u <= p <= pow2(151)) by (nonlinear_arith)
        requires
            p == 0xc9_0fdb * z,
            u == 0x80_0000 * z,
            pow2(151) == 4 * u,
            z > 0,
    ;
    let fp = f * p;
    lemma_pow2_adds(124, 149);
    lemma_pow2_adds(150, 151);
    lemma_pow2_strictly_increases(172, 273);
    lemma_pow2_strictly_increases(301, 426);
    lemma_pow2_pos(124);
    assert(pow2(172) <= fp < pow2(426)) by (nonlinear_arith)
        requires
            fp == f * p,
            pow2(124) <= f <= pow2(150),
            u <= p <= pow2(151),
            pow2(273) == pow2(124) * u,
            pow2(301) == pow2(150) * pow2(151),
            pow2(172) < pow2(273),
            pow2(301) < pow2(426),
    ;
    means::lemma_single_product_is_close(part, quarter);
    let x = single_value(single::product(part, quarter));
    // Times the number of parts.
    exact::lemma_near_scales(x * u, fp, n as int, pow2(24));
    exact::lemma_near_scales(f * n, iu, p, pow2(24));
    assert(fp * n == (f * n) * p) by (nonlinear_arith)
        requires
            fp == f * p,
    ;
    exact::lemma_near_chains((x * u) * n, (f * n) * p, iu * p, pow2(24), pow2(24), pow2(22));
    assert((x * u) * n == (x * n) * u) by (nonlinear_arith);
    assert(iu * p == (i * p) * u) by (nonlinear_arith)
        requires
            iu == i * u,
    ;
    exact::lemma_near_scales(x * n, i * p, u, pow2(22));
    // The digits.
    exact::lemma_near_scales(x * n, i * p, 10_000_000, pow2(22));
    let y = (i * 15_707_963) * u;
    let k = i * z;
    assert((i * p) * 10_000_000 == 131_767_950_000_000 * k) by (nonlinear_arith)
        requires
            p == 0xc9_0fdb * z,
            k == i * z,
    ;
    assert(y == 131_767_944_085_504 * k) by (nonlinear_arith)
        requires
            y == (i * 15_707_963) * u,
            u == 0x80_0000 * z,
            k == i * z,
    ;
    assert(k >= 0) by (nonlinear_arith)
        requires
            k == i * z,
            i >= 0,
            z > 0,
    ;
    assert(near((i * p) * 10_000_000, y, pow2(22)));
    exact::lemma_near_chains(
        (x * n) * 10_000_000,
        (i * p) * 10_000_000,
        y,
        pow2(22),
        pow2(22),
        pow2(18),
    );
}

/// The weights of a ramp are the squares of the sines of the parts of a quarter turn.
pub proof fn law_weights_are_squares_of_sines<F: Fn(Single) -> Single>(
    sin: F,
    sample_rate: Single,
    ms: Single,
    table: Seq<Single>,
    i: int,
)
    requires
        declick::is_envelope(sin, sample_rate, ms, table),
        0 < i < table.len() <= 0x100_0000,
    ensures
        exists|x: Single, s: Single|
            {
                &&& is_quarter_angle(x, i, table.len())
                &&& #[trigger] call_ensures(sin, (x,), s)
                &&& table[i] == single::product(s, s)
            },
{
    assert(declick::is_weight(sin, i, table.len(), table[i]));
    let x = declick::ramp_angle(i, table.len());
    let s = choose|s: Single| #[trigger]
        call_ensures(sin, (x,), s) && table[i] == single::product(s, s);
    lemma_angle(i as nat, table.len());
    assert(call_ensures(sin, (x,), s));
}

} // verus!
