//! What a frame is made of: which samples, with which weights, and how magnitudes are compressed.

use vstd::arithmetic::power2::*;
use vstd::prelude::*;

use crate::ieee::arith;
use crate::ieee::binary;
use crate::ieee::exact;
use crate::ieee::exact::near;
use crate::ieee::exact::single_value;
use crate::ieee::identities;
use crate::ieee::means;
use crate::ieee::single;
use crate::ieee::single::Single;
use crate::spectral::bands;
use crate::spectral::frames;

verus! {

/// What one, one half, a thousand and a whole turn are worth.
proof fn lemma_constants()
    ensures
        single_value(Single { bits: single::ONE }) == pow2(149),
        single_value(Single { bits: frames::HALF }) == pow2(148),
        single_value(Single { bits: frames::LAMBDA }) == 1000 * pow2(149),
        single_value(Single { bits: frames::TAU }) == 0xc9_0fdb * pow2(128),
{
    lemma2_to64();
    lemma2_to64_rest();
    binary::lemma_worth_of_encode(24, 0x80_0000, 126);
    assert(binary::encode(24, 0x80_0000, 126) == single::ONE);
    lemma_pow2_adds(23, 126);
    binary::lemma_worth_of_encode(24, 0x80_0000, 125);
    assert(binary::encode(24, 0x80_0000, 125) == frames::HALF);
    lemma_pow2_adds(23, 125);
    binary::lemma_worth_of_encode(24, 0xfa_0000, 135);
    assert(binary::encode(24, 0xfa_0000, 135) == frames::LAMBDA);
    lemma_pow2_adds(14, 135);
    assert(0xfa_0000 * pow2(135) == 1000 * (0x4000 * pow2(135)));
    binary::lemma_worth_of_encode(24, 0xc9_0fdb, 128);
    assert(binary::encode(24, 0xc9_0fdb, 128) == frames::TAU);
}

/// Frame `k` of a stream is made of the samples from `512 * k` on, 1024 of them, each times its weight;
/// of their spectrum, every bin within the bands is the logarithm of one plus a thousand times its
/// magnitude, and every other bin is zero.
pub proof fn law_frames_are_made_of_their_samples<
    M: Fn(&[Single]) -> Vec<Single>,
    L: Fn(Single) -> Single,
>(
    fft: M,
    ln: L,
    v: frames::StreamView,
    block: Seq<Single>,
    heard: Seq<Vec<Single>>,
    k: int,
)
    requires
        frames::are_frames(fft, ln, v, block, heard),
        frames::well_formed(v),
        0 <= k < heard.len(),
    ensures
        heard.len() == 0 || 512 * (heard.len() - 1) + 1024 <= v.pending.len() + block.len() < 512
            * heard.len() + 1024,
        exists|s: &[Single], m: Vec<Single>|
            {
                &&& #[trigger] call_ensures(fft, (s,), m)
                &&& s@.len() == 1024
                &&& forall|i: int|
                    0 <= i < 1024 ==> #[trigger] s@[i] == single::product(
                        (v.pending + block)[512 * k + i],
                        v.window[i],
                    )
                &&& forall|b: int|
                    v.bands[0].0 <= b < v.bands[7].1 ==> call_ensures(
                        ln,
                        (frames::loudness(m@[b]),),
                        #[trigger] heard[k]@[b],
                    )
                &&& forall|b: int|
                    0 <= b < v.bands[0].0 || v.bands[7].1 <= b < 513 ==> #[trigger] heard[k]@[b]
                        == (Single { bits: single::ZERO })
            },
        heard[k]@.len() == 513,
{
    let all = v.pending + block;
    let samples = frames::frame_samples(all, k);
    assert(frames::is_frame(fft, ln, v, samples, heard[k]@));
    let magnitudes = choose|magnitudes: Seq<Single>| #[trigger]
        frames::is_spectrum(fft, frames::windowed(samples, v.window), magnitudes)
            && frames::compressed(ln, v.bands, magnitudes, heard[k]@);
    let (s, m) = choose|s: &[Single], m: Vec<Single>| #[trigger]
        call_ensures(fft, (s,), m) && s@ == frames::windowed(samples, v.window) && m@
            == magnitudes;
    assert(call_ensures(fft, (s,), m));
    assert(samples.len() == 1024);
    assert forall|i: int| 0 <= i < 1024 implies #[trigger] s@[i] == single::product(
        all[512 * k + i],
        v.window[i],
    ) by {
        assert(samples[i] == all[k * 512 + i]);
    }
    assert forall|b: int| v.bands[0].0 <= b < v.bands[7].1 implies call_ensures(
        ln,
        (frames::loudness(m@[b]),),
        #[trigger] heard[k]@[b],
    ) by {
        lemma_some_band(v, b, 7);
    }
    assert forall|b: int|
        0 <= b < v.bands[0].0 || v.bands[7].1 <= b < 513 implies #[trigger] heard[k]@[b] == (
    Single { bits: single::ZERO }) by {
        if frames::in_bands(v.bands, b) {
            let j = choose|j: int|
                0 <= j < v.bands.len() && (#[trigger] v.bands[j]).0 <= b < v.bands[j].1;
            lemma_bands_ascend(v, 0, j);
            lemma_bands_ascend(v, j, 7);
        }
    }
}

/// The bands of a stream ascend.
proof fn lemma_bands_ascend(v: frames::StreamView, i: int, j: int)
    requires
        frames::well_formed(v),
        0 <= i <= j < v.bands.len(),
    ensures
        v.bands[i].0 <= v.bands[j].0,
        v.bands[i].1 <= v.bands[j].1,
    decreases j - i,
{
    if i < j {
        lemma_bands_ascend(v, i, j - 1);
        assert(v.bands[j - 1].1 == v.bands[j].0);
        assert(v.bands[j - 1].0 < v.bands[j - 1].1);
        assert(v.bands[j].0 < v.bands[j].1);
    }
}

/// A bin between the lowest and the highest edge lies in some band.
proof fn lemma_some_band(v: frames::StreamView, b: int, j: int)
    requires
        frames::well_formed(v),
        0 <= j < v.bands.len(),
        v.bands[0].0 <= b < v.bands[j].1,
    ensures
        frames::in_bands(v.bands, b),
    decreases j,
{
    if v.bands[j].0 <= b {
    } else {
        assert(j > 0);
        assert(v.bands[j - 1].1 == v.bands[j].0);
        lemma_some_band(v, b, j - 1);
    }
}

/// What the logarithm is taken of: one plus a thousand times the magnitude, up to rounding.
pub proof fn law_loudness_is_compressed(m: Single)
    requires
        single::finite(m),
        !m@.neg,
        m@.mag == 0 || pow2(20) <= single_value(m) <= pow2(260),
    ensures
        near(
            single_value(frames::loudness(m)),
            pow2(149) + 1000 * single_value(m),
            pow2(22),
        ),
{
    let one = Single { bits: single::ONE };
    let lambda = Single { bits: frames::LAMBDA };
    let u = pow2(149) as int;
    let x = single_value(m);
    lemma_constants();
    lemma2_to64();
    lemma2_to64_rest();
    lemma_pow2_pos(149);
    arith::lemma_zero_is_worth_nothing(24);
    exact::lemma_top();
    let t = single::product(lambda, m);
    if m@.mag == 0 {
        identities::law_multiples_of_zero(m, lambda);
        identities::law_sum_with_either_zero(one, t);
        assert(pow2(22) * 0 == 0);
    } else {
        let v = (1000 * u) * x;
        lemma_pow2_adds(20, 149);
        lemma_pow2_adds(3, 169);
        lemma_pow2_adds(260, 149);
        lemma_pow2_adds(10, 409);
        lemma_pow2_strictly_increases(419, 426);
        lemma_pow2_pos(20);
        assert(pow2(172) <= v < pow2(426)) by (nonlinear_arith)
            requires
                v == (1000 * u) * x,
                pow2(20) <= x <= pow2(260),
                pow2(169) == pow2(20) * u,
                pow2(172) == 8 * pow2(169),
                pow2(409) == pow2(260) * u,
                pow2(419) == 1024 * pow2(409),
                pow2(419) < pow2(426),
                u > 0,
                pow2(20) > 0,
        ;
        means::lemma_single_product_is_close(lambda, m);
        let y = single_value(t);
        assert(v == (1000 * x) * u) by (nonlinear_arith)
            requires
                v == (1000 * u) * x,
        ;
        exact::lemma_near_scales(y, 1000 * x, u, pow2(24));
        exact::lemma_near_bounds(y, 1000 * x, pow2(24));
        lemma_pow2_adds(10, 260);
        lemma_pow2_unfold(271);
        lemma_pow2_unfold(272);
        lemma_pow2_strictly_increases(272, 277);
        lemma_pow2_strictly_increases(149, 271);
        assert(single::finite(t));
        means::lemma_single_sum_is_close(one, t);
        // The error of the product is small against the sum.
        assert(near(u + y, u + 1000 * x, pow2(24)));
        exact::lemma_near_chains(
            single_value(single::sum(one, t)),
            u + y,
            u + 1000 * x,
            pow2(24),
            pow2(24),
            pow2(22),
        );
    }
}

/// The weight of a sample: half of what its cosine is below one, up to rounding.
pub proof fn law_weights_follow_the_cosine(c: Single)
    requires
        single::finite(c),
        -pow2(149) <= single_value(c) <= pow2(149),
    ensures
        pow2(149) - single_value(c) >= pow2(30) ==> near(
            2 * single_value(frames::weight(c)),
            pow2(149) - single_value(c),
            pow2(22),
        ),
        c == (Single { bits: single::ONE }) ==> frames::weight(c)@.mag == 0,
{
    let one = Single { bits: single::ONE };
    let half = Single { bits: frames::HALF };
    let u = pow2(149) as int;
    let d = single::difference(one, c);
    let g = u - single_value(c);
    lemma_constants();
    lemma2_to64();
    lemma2_to64_rest();
    lemma_pow2_pos(148);
    lemma_pow2_unfold(149);
    lemma_pow2_unfold(150);
    lemma_pow2_unfold(151);
    lemma_pow2_strictly_increases(151, 277);
    exact::lemma_top();
    if c == one {
        identities::law_difference_with_itself(one);
        identities::law_multiples_of_zero(d, half);
    }
    if g >= pow2(30) {
        means::lemma_single_difference_is_close(one, c);
        let y = single_value(d);
        lemma_pow2_pos(30);
        exact::lemma_near_bounds(y, g, pow2(24));
        assert(single::finite(d));
        let h = pow2(148) as int;
        let v = h * y;
        lemma_pow2_adds(29, 148);
        lemma_pow2_unfold(30);
        lemma_pow2_strictly_increases(172, 177);
        lemma_pow2_adds(148, 151);
        lemma_pow2_strictly_increases(299, 426);
        assert(pow2(172) <= v < pow2(426)) by (nonlinear_arith)
            requires
                v == h * y,
                pow2(29) <= y <= pow2(151),
                pow2(177) == pow2(29) * h,
                pow2(172) < pow2(177),
                pow2(299) == h * pow2(151),
                pow2(299) < pow2(426),
                h > 0,
        ;
        means::lemma_single_product_is_close(half, d);
        let w = single_value(single::product(half, d));
        assert(w * u == (2 * w) * h && v == y * h) by (nonlinear_arith)
            requires
                u == 2 * h,
                v == h * y,
        ;
        exact::lemma_near_scales(2 * w, y, h, pow2(24));
        exact::lemma_near_chains(2 * w, y, g, pow2(24), pow2(24), pow2(22));
    }
}

/// The window goes round once: the phase of sample `i`, times the length of a frame, is `i` times
/// 6.2831853, up to one part in a million.
pub proof fn law_phases_go_round_once(i: nat)
    requires
        0 < i < 1024,
    ensures
        near(
            single_value(frames::phase(i as int)) * 10_240_000_000,
            (i * 62_831_853) as int * pow2(149),
            pow2(20),
        ),
        frames::phase(0)@.mag == 0,
{
    let tau = Single { bits: frames::TAU };
    let n = single::from_int(i);
    let f = single::from_int(bands::FRAME_SIZE as nat);
    let u = pow2(149) as int;
    let z = pow2(128) as int;
    lemma_constants();
    lemma2_to64();
    lemma2_to64_rest();
    lemma_pow2_pos(149);
    lemma_pow2_pos(128);
    exact::lemma_top();
    exact::lemma_single_count(i);
    exact::lemma_single_count(0);
    exact::lemma_single_count(1024);
    arith::lemma_zero_is_worth_nothing(24);
    // At the start.
    let start = single::from_int(0);
    assert(start@.mag == 0) by {
        if start@.mag > 0 {
            binary::lemma_worth_increases(24, 0, start@.mag);
        }
    }
    identities::law_multiples_of_zero(start, tau);
    identities::law_zero_over_a_number(single::product(tau, start), f);
    // Elsewhere.
    let t = 0xc9_0fdb * z;
    lemma_pow2_adds(21, 128);
    lemma_pow2_adds(2, 149);
    lemma_pow2_adds(3, 149);
    assert(pow2(151) <= t <= pow2(152)) by (nonlinear_arith)
        requires
            t == 0xc9_0fdb * z,
            u == 0x20_0000 * z,
            pow2(151) == 4 * u,
            pow2(152) == 8 * u,
            z > 0,
    ;
    let v = t * (i * u);
    lemma_pow2_adds(151, 149);
    lemma_pow2_adds(152, 159);
    lemma_pow2_adds(10, 149);
    lemma_pow2_strictly_increases(172, 300);
    lemma_pow2_strictly_increases(311, 426);
    assert(pow2(172) <= v < pow2(426)) by (nonlinear_arith)
        requires
            v == t * (i * u),
            pow2(151) <= t <= pow2(152),
            1 <= i <= 1024,
            pow2(300) == pow2(151) * u,
            pow2(311) == pow2(152) * pow2(159),
            pow2(159) == 1024 * u,
            pow2(172) < pow2(300),
            pow2(311) < pow2(426),
            u > 0,
    ;
    means::lemma_single_product_is_close(tau, n);
    let p = single::product(tau, n);
    let x = single_value(p);
    let ti = t * i;
    assert(v == ti * u) by (nonlinear_arith)
        requires
            v == t * (i * u),
            ti == t * i,
    ;
    exact::lemma_near_scales(x, ti, u, pow2(24));
    lemma_pow2_adds(152, 10);
    lemma_pow2_unfold(163);
    assert(pow2(151) <= ti <= pow2(162)) by (nonlinear_arith)
        requires
            ti == t * i,
            pow2(151) <= t <= pow2(152),
            1 <= i <= 1024,
            pow2(162) == pow2(152) * 1024,
    ;
    exact::lemma_near_bounds(x, ti, pow2(24));
    lemma_pow2_strictly_increases(163, 277);
    assert(single::finite(p));
    let fu = 1024 * u;
    lemma_pow2_unfold(151);
    lemma_pow2_adds(23, 159);
    lemma_pow2_adds(150, 149);
    lemma_pow2_strictly_increases(182, 299);
    lemma_pow2_adds(163, 149);
    lemma_pow2_adds(277, 159);
    lemma_pow2_strictly_increases(312, 436);
    assert(pow2(23) * fu <= x * u && x * u < pow2(277) * fu) by (nonlinear_arith)
        requires
            pow2(150) <= x <= pow2(163),
            fu == 1024 * u,
            pow2(159) == 1024 * u,
            pow2(182) == pow2(23) * pow2(159),
            pow2(299) == pow2(150) * u,
            pow2(182) < pow2(299),
            pow2(312) == pow2(163) * u,
            pow2(436) == pow2(277) * pow2(159),
            pow2(312) < pow2(436),
            u > 0,
    ;
    means::lemma_single_quotient_is_close(p, f);
    let q = single_value(frames::phase(i as int));
    assert(q * fu == (q * 1024) * u) by (nonlinear_arith)
        requires
            fu == 1024 * u,
    ;
    exact::lemma_near_scales(q * 1024, x, u, pow2(24));
    exact::lemma_near_chains(q * 1024, x, ti, pow2(24), pow2(24), pow2(22));
    // The digits of a turn.
    exact::lemma_near_scales(q * 1024, ti, 10_000_000, pow2(22));
    let y = (i * 62_831_853) * u;
    assert(near(ti * 10_000_000, y, pow2(23))) by {
        lemma_turn_digits(i, z, u);
    }
    assert((q * 1024) * 10_000_000 == q * 10_240_000_000);
    exact::lemma_near_chains(
        q * 10_240_000_000,
        ti * 10_000_000,
        y,
        pow2(22),
        pow2(23),
        pow2(20),
    );
}

/// The window is a raised cosine: the weight of sample `i` comes of the cosine of `i` parts of 1024 of a
/// turn, and is half of what that cosine is below one, up to rounding.
pub proof fn law_windows_are_raised_cosines<C: Fn(Single) -> Single>(
    cos: C,
    window: Seq<Single>,
    i: int,
)
    requires
        frames::is_window(cos, window),
        0 < i < 1024,
    ensures
        window.len() == 1024,
        exists|x: Single, c: Single|
            {
                &&& #[trigger] call_ensures(cos, (x,), c)
                &&& near(
                    single_value(x) * 10_240_000_000,
                    (i * 62_831_853) * pow2(149),
                    pow2(20),
                )
                &&& single::finite(c) && -pow2(149) <= single_value(c) && single_value(c)
                    + pow2(30) <= pow2(149) ==> near(
                    2 * single_value(window[i]),
                    pow2(149) - single_value(c),
                    pow2(22),
                )
            },
{
    assert(frames::is_weight(cos, i, window[i]));
    let x = frames::phase(i);
    let c = choose|c: Single| #[trigger]
        call_ensures(cos, (x,), c) && window[i] == frames::weight(c);
    law_phases_go_round_once(i as nat);
    if single::finite(c) && -pow2(149) <= single_value(c) && single_value(c) + pow2(30) <= pow2(
        149,
    ) {
        law_weights_follow_the_cosine(c);
    }
    assert(call_ensures(cos, (x,), c));
}

proof fn lemma_turn_digits(i: nat, z: int, u: int)
    requires
        u == 0x20_0000 * z,
        z > 0,
    ensures
        near(((0xc9_0fdb * z) * i) * 10_000_000, (i * 62_831_853) * u, pow2(23)),
{
    lemma2_to64();
    let k = z * i;
    assert(((0xc9_0fdb * z) * i) * 10_000_000 == 131_767_950_000_000 * k) by (nonlinear_arith)
        requires
            k == z * i,
    ;
    assert((i * 62_831_853) * u == 131_767_946_182_656 * k) by (nonlinear_arith)
        requires
            k == z * i,
            u == 0x20_0000 * z,
    ;
    assert(k >= 0) by (nonlinear_arith)
        requires
            k == z * i,
            z > 0,
            i >= 0,
    ;
}

} // verus!
