//! How fast a deck moves through its track, how the track ends, and how loud the mix is.

use std::sync::Arc;
use vstd::arithmetic::power2::*;
use vstd::prelude::*;

use crate::engine::deck;
use crate::engine::mixer;
use crate::ieee::arith;
use crate::ieee::binary;
use crate::ieee::bounds;
use crate::ieee::double;
use crate::ieee::double::Double;
use crate::ieee::exact;
use crate::ieee::exact::double_value;
use crate::ieee::exact::near;
use crate::ieee::exact::single_value;
use crate::ieee::identities;
use crate::ieee::means;
use crate::ieee::single;
use crate::ieee::single::Single;
use crate::ieee::whole;
use crate::timecode::pace;
use crate::track::Track;

verus! {

/// A deck takes track frames in proportion to its rate and to the sample rates: its step times the
/// sample rate of the engine is its rate times the sample rate of the track, up to rounding. A deck
/// without a track takes none.
pub proof fn law_steps_follow_both_rates(t: Arc<Track>, rate: Double, engine_sr: Single)
    requires
        pace::is_frequency(engine_sr),
        0 < t@.sample_rate < 0x100_0000,
        double::finite(rate),
        pow2(974) <= exact::abs(double_value(rate)) <= pow2(1174),
    ensures
        near(
            double_value(deck::increment(Some(t), rate, engine_sr)) * single_value(engine_sr),
            double_value(rate) * (t@.sample_rate * pow2(149)),
            pow2(50),
        ),
        double::finite(deck::increment(Some(t), rate, engine_sr)),
        deck::increment(None, rate, engine_sr) == (Double { bits: double::ZERO }),
{
    let u = pow2(1074) as int;
    let w = single::widened(engine_sr);
    let n = t@.sample_rate as nat;
    let a = double::from_int(n);
    lemma2_to64();
    lemma2_to64_rest();
    lemma_pow2_pos(1074);
    exact::lemma_top();
    pace::lemma_duration_is_close(engine_sr);
    identities::law_whole_numbers_are_exact(n);
    let s = double_value(w);
    let nu = n * u;
    assert(double_value(a) == nu);
    lemma_pow2_adds(24, 1074);
    assert(u <= nu <= pow2(1098)) by (nonlinear_arith)
        requires
            nu == n * u,
            0 < n < 0x100_0000,
            u > 0,
            pow2(1098) == 0x100_0000 * u,
    ;
    lemma_pow2_adds(1074, 1074);
    lemma_pow2_adds(52, 1098);
    lemma_pow2_adds(1098, 1074);
    lemma_pow2_adds(2098, 1074);
    lemma_pow2_strictly_increases(1150, 2148);
    lemma_pow2_strictly_increases(2172, 3172);
    assert(pow2(52) * s <= nu * u && nu * u < pow2(2098) * s) by (nonlinear_arith)
        requires
            u <= s <= pow2(1098),
            u <= nu <= pow2(1098),
            pow2(52) * pow2(1098) == pow2(1150),
            pow2(1150) < pow2(2148),
            u * u == pow2(2148),
            pow2(1098) * u == pow2(2172),
            pow2(2098) * u == pow2(3172),
            pow2(2172) < pow2(3172),
            u > 0,
            pow2(52) >= 0,
            pow2(2098) >= 0,
    ;
    means::lemma_quotient_is_close(a, w);
    let ratio = double::quotient(a, w);
    let q = double_value(ratio);
    let qs = q * s;
    assert(nu * u > 0) by (nonlinear_arith)
        requires
            nu >= u,
            u > 0,
    ;
    exact::lemma_near_bounds(qs, nu * u, pow2(53));
    lemma_pow2_adds(1049, 1098);
    lemma_pow2_unfold(2148);
    lemma_pow2_unfold(1099);
    assert(pow2(1049) <= q <= pow2(1099)) by (nonlinear_arith)
        requires
            qs == q * s,
            2 * qs >= nu * u,
            2 * qs <= 3 * (nu * u),
            u <= nu <= pow2(1098),
            u <= s <= pow2(1098),
            u * u == 2 * (pow2(1049) * pow2(1098)),
            pow2(1099) == 2 * pow2(1098),
            u > 0,
            q >= 0,
    ;
    lemma_pow2_strictly_increases(1099, 2098);
    assert(double::finite(ratio));
    let r = double_value(rate);
    let z = exact::abs(r) as int;
    lemma_pow2_adds(974, 1049);
    lemma_pow2_adds(1174, 1099);
    lemma_pow2_strictly_increases(1126, 2023);
    lemma_pow2_strictly_increases(2273, 3172);
    lemma_pow2_pos(974);
    let zq = z * q;
    assert(pow2(2023) <= zq <= pow2(2273)) by (nonlinear_arith)
        requires
            zq == z * q,
            pow2(974) <= z <= pow2(1174),
            pow2(1049) <= q <= pow2(1099),
            pow2(2023) == pow2(974) * pow2(1049),
            pow2(2273) == pow2(1174) * pow2(1099),
    ;
    assert((-r) * q == -(r * q)) by (nonlinear_arith);
    assert(exact::abs(r * q) == zq);
    means::lemma_double_product_is_close(rate, ratio);
    let inc = double_value(double::product(rate, ratio));
    // The product over the engine's rate.
    exact::lemma_near_times(inc * u, r * q, s, pow2(53));
    exact::lemma_near_times(qs, nu * u, r, pow2(53));
    assert((r * q) * s == qs * r) by (nonlinear_arith)
        requires
            qs == q * s,
    ;
    exact::lemma_near_chains(
        (inc * u) * s,
        qs * r,
        (nu * u) * r,
        pow2(53),
        pow2(53),
        pow2(51),
    );
    let e = single_value(engine_sr);
    let k = pow2(925) as int;
    lemma_pow2_pos(925);
    lemma_pow2_adds(149, 925);
    let h = pow2(149) as int;
    let ku = k * u;
    assert((inc * u) * s == (inc * e) * ku) by (nonlinear_arith)
        requires
            s == e * k,
            ku == k * u,
    ;
    assert((nu * u) * r == (r * (n * h)) * ku) by (nonlinear_arith)
        requires
            nu == n * u,
            u == h * k,
            ku == k * u,
    ;
    assert(ku > 0) by (nonlinear_arith)
        requires
            ku == k * u,
            k > 0,
            u > 0,
    ;
    exact::lemma_near_scales(inc * e, r * (n * h), ku, pow2(51));
    exact::lemma_near_coarser(inc * e, r * (n * h), pow2(51), pow2(50));
    // It is finite.
    assert(double::finite(double::product(rate, ratio))) by {
        if double::product(rate, ratio)@.mag >= binary::DOUBLE_INF {
            assert(exact::abs(inc) == pow2(2098));
            let x = exact::abs(inc * u) as int;
            lemma_near_size(inc * u, r * q, pow2(53));
            assert((-inc) * u == -(inc * u)) by (nonlinear_arith);
            assert(x == pow2(2098) * u) by (nonlinear_arith)
                requires
                    exact::abs(inc) == pow2(2098),
                    exact::abs(inc) == inc || exact::abs(inc) == -inc,
                    x == inc * u || x == -(inc * u),
                    x >= 0,
                    u > 0,
            ;
            lemma_pow2_unfold(2274);
            lemma_pow2_strictly_increases(2274, 3172);
        }
    }
}

/// What is near to something is at most twice its size.
proof fn lemma_near_size(x: int, y: int, d: nat)
    requires
        near(x, y, d),
        d >= 1,
    ensures
        exact::abs(x) <= 2 * exact::abs(y),
{
    let p = exact::abs(x - y) as int;
    assert(p <= exact::abs(y)) by (nonlinear_arith)
        requires
            d * p <= exact::abs(y),
            d >= 1,
            p >= 0,
    ;
}

/// The mix is scaled by its gain: where that differs from one by more than a part in four million,
/// every sample is the one of the mix at full gain times the gain.
pub proof fn law_master_gain_scales_the_mix(
    v: mixer::EngineView,
    m: mixer::EngineView,
    n: mixer::EngineView,
    w: mixer::EngineView,
    channels: nat,
    routing: Seq<Option<u32>>,
    half: Seq<Single>,
    full: Seq<Single>,
    bus: Seq<Single>,
    i: int,
)
    requires
        mixer::block_mixed(v, m, n, w, channels, routing, half, full, bus),
        single::finite(v.master_gain),
        exact::abs(single_value(v.master_gain)) <= pow2(270),
        0 <= i < bus.len(),
    ensures
        exact::abs(single_value(v.master_gain) - pow2(149)) >= pow2(127) ==> bus[i]
            == single::product(full[i], v.master_gain),
        v.master_gain == (Single { bits: single::ONE }) ==> bus[i] == full[i],
{
    let g = v.master_gain;
    let one = Single { bits: single::ONE };
    let f = arith::single();
    lemma2_to64();
    lemma2_to64_rest();
    exact::lemma_top();
    binary::lemma_worth_of_encode(24, 0x80_0000, 126);
    assert(binary::encode(24, 0x80_0000, 126) == single::ONE);
    lemma_pow2_adds(23, 126);
    assert(single_value(one) == pow2(149));
    binary::lemma_worth_of_encode(24, 0x80_0000, 103);
    assert(binary::encode(24, 0x80_0000, 103) == mixer::GAIN_EPSILON);
    lemma_pow2_adds(23, 103);
    let least = Single { bits: mixer::GAIN_EPSILON };
    assert(single_value(least) == pow2(126));
    assert(full.len() == bus.len());
    if g == one {
        identities::law_difference_with_itself(one);
    }
    let gap = exact::abs(single_value(g) - pow2(149)) as int;
    if gap >= pow2(127) {
        let y = arith::Signed { neg: !one@.neg, mag: one@.mag };
        lemma_pow2_strictly_increases(149, 270);
        lemma_pow2_unfold(271);
        lemma_pow2_strictly_increases(271, 277);
        exact::lemma_sum_is_close(f, g@, y);
        reveal(single::difference);
        let d = single::difference(g, one);
        assert(d@ == arith::sum(f, g@, y));
        let off = exact::abs(single_value(d) - (single_value(g) - pow2(149))) as int;
        lemma_pow2_unfold(127);
        lemma_pow2_pos(126);
        assert(gap - off > pow2(126)) by (nonlinear_arith)
            requires
                pow2(24) * off <= gap,
                pow2(24) == 0x100_0000,
                gap >= 2 * pow2(126),
                off >= 0,
                pow2(126) > 0,
        ;
        arith::law_magnitudes_order_values(f, least@, single::magnitude(d)@);
    }
}

/// Differences of whole numbers are exact.
proof fn lemma_whole_difference(a: nat, b: nat)
    requires
        b <= a < whole::EXACT,
    ensures
        double::difference(double::from_int(a), double::from_int(b)) == double::from_int(
            (a - b) as nat,
        ),
{
    whole::law_whole_numbers_add_up(a as int, -(b as int));
    whole::law_whole_is_exact(a as int);
    whole::law_whole_is_exact(b as int);
    if b == 0 {
        identities::law_narrowed_zero();
        let minus = arith::Signed { neg: true, mag: 0 };
        identities::law_double_sum_with_either_zero(double::from_int(a), double::of(minus));
        reveal(double::difference);
        reveal(double::sum);
        assert(double::of(minus)@ == minus);
    } else {
        let x = arith::Signed { neg: true, mag: double::from_int(b)@.mag };
        assert(double::of(x)@ == x) by {
            lemma2_to64();
            lemma2_to64_rest();
        }
        reveal(double::difference);
        reveal(double::sum);
    }
}

/// The end of a track mirrors a ramp: `m` frames before it, fewer than a ramp has samples, the track
/// is scaled by what a ramp leaves of the old side as many samples before its own end.
pub proof fn law_the_end_mirrors_a_ramp(frames: nat, m: nat, envelope: Seq<Single>)
    requires
        0 < m < envelope.len() <= u32::MAX,
        2 * envelope.len() <= frames < whole::EXACT,
    ensures
        deck::tail_scale(
            double::from_int(frames),
            double::from_int((frames - m) as nat),
            envelope,
        ) == single::difference(Single { bits: single::ONE }, envelope[envelope.len() - m]),
{
    let n = envelope.len();
    let end = double::from_int(frames);
    let pos = double::from_int((frames - m) as nat);
    lemma_whole_difference(frames, (frames - m) as nat);
    lemma_whole_difference(n, m);
    assert(frames - (frames - m) as nat == m);
    identities::law_narrowed_zero();
    identities::law_whole_numbers_are_exact(n);
    identities::law_whole_numbers_are_exact(frames);
    identities::law_whole_numbers_keep_their_order(m, 0);
    identities::law_whole_numbers_keep_their_order(n, m);
    identities::law_whole_part_of_whole((n - m) as nat, u32::MAX as nat);
    // A track of two ramps is not short.
    let two = Double { bits: deck::TWO };
    let u = pow2(1074);
    bounds::lemma_two_to(1);
    assert(bounds::two_to(1) == deck::TWO);
    lemma_pow2_unfold(1075);
    lemma_pow2_pos(1074);
    let w = double_value(double::from_int(n));
    assert(w == n * u);
    lemma2_to64_rest();
    assert(double_value(two) * w == ((2 * n) * u) * u) by (nonlinear_arith)
        requires
            w == n * u,
            double_value(two) == 2 * u,
    ;
    assert(((2 * n) * u) * u >= 0) by (nonlinear_arith)
        requires
            n >= 0,
            u > 0,
    ;
    lemma_pow2_adds(53, 1074);
    lemma_pow2_strictly_increases(1127, 2098);
    assert((2 * n) * u < pow2(2098)) by (nonlinear_arith)
        requires
            2 * n < pow2(53),
            pow2(53) * u == pow2(1127),
            pow2(1127) < pow2(2098),
            u > 0,
    ;
    exact::lemma_double_product(two, double::from_int(n), 2 * n, 1074);
    let twice = double::product(two, double::from_int(n));
    let t = double_value(twice);
    assert(t == (2 * n) * u) by (nonlinear_arith)
        requires
            t * u == ((2 * n) * u) * u,
            u > 0,
    ;
    assert(frames * u >= t) by (nonlinear_arith)
        requires
            t == (2 * n) * u,
            frames >= 2 * n,
            u > 0,
    ;
    arith::law_magnitudes_order_values(arith::double(), end@, twice@);
}

} // verus!
