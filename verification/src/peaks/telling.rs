//! What a chunk tells of the samples that it stands for.

use vstd::arithmetic::div_mod::*;
use vstd::arithmetic::power2::*;
use vstd::prelude::*;

use crate::ieee::arith;
use crate::ieee::binary;
use crate::ieee::double;
use crate::ieee::exact;
use crate::ieee::exact::double_value;
use crate::ieee::exact::near;
use crate::ieee::exact::single_value;
use crate::ieee::identities;
use crate::ieee::means;
use crate::ieee::order;
use crate::ieee::single;
use crate::ieee::single::Single;
use crate::peaks::band_decimator;
use crate::peaks::decimator;
use crate::peaks::filtered;
use crate::peaks::windows;

verus! {

/// The exact sum of the squares of some samples, in units of `2^-298`.
pub open spec fn energy(samples: Seq<Single>) -> nat
    decreases samples.len(),
{
    if samples.len() == 0 {
        0
    } else {
        let v = single_value(samples.last());
        (energy(samples.drop_last()) + v * v) as nat
    }
}

/// The samples are numbers of at most `2^100`.
pub open spec fn moderate(samples: Seq<Single>) -> bool {
    forall|i: int|
        0 <= i < samples.len() ==> single::finite(#[trigger] samples[i]) && exact::abs(
            single_value(samples[i]),
        ) <= pow2(249)
}

proof fn lemma_moderate_front(samples: Seq<Single>)
    requires
        moderate(samples),
        samples.len() > 0,
    ensures
        moderate(samples.drop_last()),
        single::finite(samples.last()),
        exact::abs(single_value(samples.last())) <= pow2(249),
{
    let front = samples.drop_last();
    assert forall|i: int| 0 <= i < front.len() implies single::finite(#[trigger] front[i])
        && exact::abs(single_value(front[i])) <= pow2(249) by {
        assert(front[i] == samples[i]);
    }
    assert(samples[samples.len() - 1] == samples.last());
}

/// The energy of moderate samples is bounded.
proof fn lemma_energy_is_bounded(samples: Seq<Single>)
    requires
        moderate(samples),
    ensures
        energy(samples) <= samples.len() * pow2(498),
    decreases samples.len(),
{
    if samples.len() > 0 {
        lemma_moderate_front(samples);
        lemma_energy_is_bounded(samples.drop_last());
        let v = single_value(samples.last());
        let n = (samples.len() - 1) as nat;
        lemma_pow2_adds(249, 249);
        assert(v * v <= pow2(498)) by (nonlinear_arith)
            requires
                -pow2(249) <= v <= pow2(249),
                pow2(498) == pow2(249) * pow2(249),
        ;
        assert((n + 1) * pow2(498) == n * pow2(498) + pow2(498)) by (nonlinear_arith);
        assert(v * v >= 0) by (nonlinear_arith);
    }
}

/// The running sum of squares stays near to the exact one.
proof fn lemma_sum_of_squares(samples: Seq<Single>)
    requires
        moderate(samples),
        samples.len() <= 0x10_0000,
    ensures
        ({
            let s = decimator::sum_of_squares(samples);
            let t = energy(samples) * pow2(776);
            &&& double::finite(s)
            &&& !s@.neg
            &&& pow2(52) * exact::abs(double_value(s) - t) <= samples.len() * t
        }),
    decreases samples.len(),
{
    let f = arith::double();
    arith::lemma_zero_is_worth_nothing(53);
    lemma2_to64();
    lemma2_to64_rest();
    if samples.len() == 0 {
        assert(0 * pow2(776) == 0);
        assert(pow2(52) * 0 == 0);
    } else {
        let front = samples.drop_last();
        let a = samples.last();
        let n = front.len();
        lemma_moderate_front(samples);
        lemma_sum_of_squares(front);
        lemma_energy_is_bounded(front);
        lemma_energy_is_bounded(samples);
        exact::lemma_square_is_exact(a);
        let w = single::widened(a);
        let square = double::product(w, w);
        let s = decimator::sum_of_squares(front);
        let v = single_value(a);
        let c = pow2(776) as int;
        lemma_pow2_pos(776);
        let t = energy(front) * c;
        let x = (v * v) * c;
        let t2 = energy(samples) * c;
        assert(v * v >= 0) by (nonlinear_arith);
        assert(x >= 0) by (nonlinear_arith)
            requires
                x == (v * v) * c,
                v * v >= 0,
                c > 0,
        ;
        assert(t2 == t + x) by (nonlinear_arith)
            requires
                t == energy(front) * c,
                x == (v * v) * c,
                t2 == energy(samples) * c,
                energy(samples) == energy(front) + v * v,
        ;
        let sv = double_value(s);
        let err = exact::abs(sv - t) as int;
        let k = pow2(52) as int;
        assert(k == 0x10_0000_0000_0000);
        assert(err <= t) by (nonlinear_arith)
            requires
                k * err <= n * t,
                n <= 0x10_0000,
                k == 0x10_0000_0000_0000,
                t >= 0,
                err >= 0,
        ;
        // Nothing overflows.
        exact::lemma_top();
        lemma_pow2_adds(498, 776);
        lemma_pow2_adds(20, 1274);
        lemma_pow2_unfold(1295);
        lemma_pow2_strictly_increases(1295, 2098);
        assert(t2 <= pow2(1294)) by (nonlinear_arith)
            requires
                t2 == energy(samples) * c,
                energy(samples) <= (n + 1) * pow2(498),
                n + 1 <= 0x10_0000,
                pow2(1274) == pow2(498) * c,
                pow2(1294) == 0x10_0000 * pow2(1274),
                c > 0,
                pow2(498) >= 0,
        ;
        assert(sv + x <= 2 * t2);
        assert(sv >= 0);
        exact::lemma_sum_is_close(f, s@, square@);
        reveal(double::sum);
        let next = double::sum(s, square);
        assert(next@ == arith::sum(f, s@, square@));
        order::law_double_sum_is_not_negative(s, square);
        let nv = double_value(next);
        let e2 = exact::abs(nv - (sv + x)) as int;
        assert(pow2(53) == 2 * k);
        let total = exact::abs(nv - t2) as int;
        assert(total <= e2 + err);
        assert(k * err <= n * t2) by (nonlinear_arith)
            requires
                k * err <= n * t,
                t <= t2,
                n >= 0,
        ;
        assert(k * e2 <= t2) by (nonlinear_arith)
            requires
                (2 * k) * e2 <= sv + x,
                sv + x <= 2 * t2,
        ;
        assert(k * total <= (n + 1) * t2) by (nonlinear_arith)
            requires
                total <= e2 + err,
                k * err <= n * t2,
                k * e2 <= t2,
                k > 0,
        ;
        assert(double::finite(next)) by {
            assert(e2 <= sv + x) by (nonlinear_arith)
                requires
                    (2 * k) * e2 <= sv + x,
                    k >= 1,
                    e2 >= 0,
            ;
            lemma_pow2_unfold(1296);
            lemma_pow2_strictly_increases(1296, 2098);
        }
        if next@.neg {
            assert(next@.mag == 0);
            assert(!next@.neg) by {
                reveal(arith::sum);
            }
        }
    }
}

/// The loudness of samples is the root of the mean of their squares: its own square, times their
/// number, is their energy, up to one part in `2^18`. Samples so quiet that their loudness is
/// below `2^-124` are left out.
pub proof fn law_loudness_is_the_root_mean_square(samples: Seq<Single>)
    requires
        moderate(samples),
        0 < samples.len() <= 0x10_0000,
        samples.len() * pow2(50) <= energy(samples),
    ensures
        ({
            let rms = decimator::summary(samples).rms;
            let r = single_value(rms);
            &&& single::finite(rms)
            &&& !rms@.neg
            &&& near(r * r * samples.len(), energy(samples) as int, pow2(18))
        }),
{
    let n = samples.len();
    let s = decimator::sum_of_squares(samples);
    let t = energy(samples) * pow2(776);
    lemma_sum_of_squares(samples);
    lemma_energy_is_bounded(samples);
    lemma2_to64();
    lemma2_to64_rest();
    let err = exact::abs(double_value(s) - t) as int;
    assert(pow2(32) * err <= t) by (nonlinear_arith)
        requires
            0x10_0000_0000_0000 * err <= n * t,
            pow2(52) == 0x10_0000_0000_0000,
            pow2(32) == 0x1_0000_0000,
            n <= 0x10_0000,
            t >= 0,
            err >= 0,
    ;
    means::lemma_root_mean_is_close(s, n, energy(samples));
}

/// Both extremes of a chunk are among its samples.
pub proof fn law_extremes_are_samples(samples: Seq<Single>)
    requires
        decimator::all_numbers(samples),
        0 < samples.len(),
    ensures
        samples.contains(decimator::summary(samples).min),
        samples.contains(decimator::summary(samples).max),
{
    lemma_extremes_among(samples);
}

proof fn lemma_extremes_among(samples: Seq<Single>)
    requires
        decimator::all_numbers(samples),
        0 < samples.len(),
    ensures
        samples.contains(decimator::least(samples)),
        samples.contains(decimator::greatest(samples)),
    decreases samples.len(),
{
    let front = samples.drop_last();
    let x = samples.last();
    assert(samples[samples.len() - 1] == x);
    assert(decimator::all_numbers(front)) by {
        assert forall|j: int| 0 <= j < front.len() implies (#[trigger] front[j])@.mag
            <= binary::SINGLE_INF by {
            assert(front[j] == samples[j]);
        }
    }
    if front.len() > 0 {
        lemma_extremes_among(front);
        let i = choose|i: int| 0 <= i < front.len() && front[i] == decimator::least(front);
        let j = choose|j: int| 0 <= j < front.len() && front[j] == decimator::greatest(front);
        assert(samples[i] == decimator::least(front));
        assert(samples[j] == decimator::greatest(front));
    } else {
        assert(decimator::least(front) == (Single { bits: single::INFINITY }));
        assert(decimator::greatest(front) == (Single { bits: single::NEG_INFINITY }));
        assert(x@.mag <= binary::SINGLE_INF);
    }
}

/// The samples of one chunk of `n`.
proof fn lemma_chunk_samples(all: Seq<Single>, n: nat, k: int)
    requires
        n > 0,
        0 <= k < all.len() / n,
        decimator::all_numbers(all),
    ensures
        windows::chunk(all, n, k).len() == n,
        0 <= k * n,
        k * n + n <= all.len(),
        decimator::all_numbers(windows::chunk(all, n, k)),
        forall|j: int| 0 <= j < n ==> #[trigger] windows::chunk(all, n, k)[j] == all[k * n + j],
{
    windows::lemma_bounds(all, n);
    let c = windows::chunk(all, n, k);
    assert(0 <= k * n);
    assert forall|j: int| 0 <= j < c.len() implies (#[trigger] c[j])@.mag <= binary::SINGLE_INF by {
        assert(c[j] == all[k * n + j]);
    }
}

/// A broadband chunk bounds its samples: chunk `k` of a waveform tells of the samples from `k * n`
/// up to `(k + 1) * n`. None lies below its least or above its greatest, and both are among them.
pub proof fn law_broadband_chunks_bound_the_wave(
    v: decimator::DecimatorView,
    samples: Seq<Single>,
    k: int,
    j: int,
)
    requires
        v.samples_per_chunk > 0,
        decimator::all_numbers(v.pending + samples),
        0 <= k < decimator::emitted(v, samples).len(),
        0 <= j < v.samples_per_chunk,
    ensures
        ({
            let all = v.pending + samples;
            let n = v.samples_per_chunk;
            let chunk = decimator::emitted(v, samples)[k];
            &&& decimator::emitted(v, samples).len() == all.len() / n
            &&& single::at_most(chunk.min, all[k * n + j])
            &&& single::at_most(all[k * n + j], chunk.max)
            &&& exists|i: int| 0 <= i < n && #[trigger] all[k * n + i] == chunk.min
            &&& exists|i: int| 0 <= i < n && #[trigger] all[k * n + i] == chunk.max
        }),
{
    let all = v.pending + samples;
    let n = v.samples_per_chunk;
    lemma_chunk_samples(all, n, k);
    let c = windows::chunk(all, n, k);
    decimator::law_chunk_bounds_its_samples(c, j);
    law_extremes_are_samples(c);
    assert(c[j] == all[k * n + j]);
    let a = choose|i: int| 0 <= i < c.len() && c[i] == decimator::summary(c).min;
    let b = choose|i: int| 0 <= i < c.len() && c[i] == decimator::summary(c).max;
    assert(all[k * n + a] == c[a]);
    assert(all[k * n + b] == c[b]);
}

/// A filtered chunk bounds what came out of the filter: chunk `k` tells of the filtered samples
/// from `k * n` up to `(k + 1) * n`. None lies below its least or above its greatest, and both are
/// among them. The bands that are not filtered stay at zero.
pub proof fn law_filtered_chunks_bound_the_wave(
    v: filtered::FilteredView,
    samples: Seq<Single>,
    k: int,
    j: int,
)
    requires
        v.samples_per_chunk > 0,
        decimator::all_numbers(
            v.pending + filtered::response(v.coefficients, v.memory, samples),
        ),
        0 <= k < filtered::emitted(v, samples).len(),
        0 <= j < v.samples_per_chunk,
    ensures
        ({
            let all = v.pending + filtered::response(v.coefficients, v.memory, samples);
            let n = v.samples_per_chunk;
            let chunk = filtered::emitted(v, samples)[k];
            let zero = Single { bits: single::ZERO };
            &&& filtered::emitted(v, samples).len() == all.len() / n
            &&& single::at_most(chunk.lf_min, all[k * n + j])
            &&& single::at_most(all[k * n + j], chunk.lf_max)
            &&& exists|i: int| 0 <= i < n && #[trigger] all[k * n + i] == chunk.lf_min
            &&& exists|i: int| 0 <= i < n && #[trigger] all[k * n + i] == chunk.lf_max
            &&& chunk.mf_min == zero && chunk.mf_max == zero
            &&& chunk.hf_min == zero && chunk.hf_max == zero
        }),
{
    let all = v.pending + filtered::response(v.coefficients, v.memory, samples);
    let n = v.samples_per_chunk;
    lemma_chunk_samples(all, n, k);
    let c = windows::chunk(all, n, k);
    decimator::law_chunk_bounds_its_samples(c, j);
    law_extremes_are_samples(c);
    assert(c[j] == all[k * n + j]);
    let a = choose|i: int| 0 <= i < c.len() && c[i] == decimator::summary(c).min;
    let b = choose|i: int| 0 <= i < c.len() && c[i] == decimator::summary(c).max;
    assert(all[k * n + a] == c[a]);
    assert(all[k * n + b] == c[b]);
}

/// The last chunk of a filtered waveform, if samples are left, bounds those that are left.
pub proof fn law_filtered_remainder_bounds_the_rest(v: filtered::FilteredView, j: int)
    requires
        decimator::all_numbers(v.pending),
        0 <= j < v.pending.len(),
    ensures
        filtered::remainder(v).len() == 1,
        single::at_most(filtered::remainder(v)[0].lf_min, v.pending[j]),
        single::at_most(v.pending[j], filtered::remainder(v)[0].lf_max),
        v.pending.contains(filtered::remainder(v)[0].lf_min),
        v.pending.contains(filtered::remainder(v)[0].lf_max),
{
    decimator::law_chunk_bounds_its_samples(v.pending, j);
    law_extremes_are_samples(v.pending);
}

/// A chunk lies within what was cut.
proof fn lemma_chunk_lies_within(len: nat, n: nat, k: int)
    requires
        n > 0,
        0 <= k < len / n,
    ensures
        0 <= k * n,
        k * n + n <= len,
{
    lemma_fundamental_div_mod(len as int, n as int);
    lemma_mod_bound(len as int, n as int);
    assert(0 <= k * n && k * n + n <= n * (len / n)) by (nonlinear_arith)
        requires
            0 <= k < len / n,
            n > 0,
    ;
}

/// Chunk `k` of a waveform has the loudness of the samples from `k * n` up to `(k + 1) * n`.
pub proof fn law_broadband_chunks_measure_the_wave(
    v: decimator::DecimatorView,
    samples: Seq<Single>,
    k: int,
)
    requires
        0 < v.samples_per_chunk <= 0x10_0000,
        0 <= k < decimator::emitted(v, samples).len(),
        ({
            let n = v.samples_per_chunk;
            let part = (v.pending + samples).subrange(k * n, k * n + n);
            moderate(part) && n * pow2(50) <= energy(part)
        }),
    ensures
        ({
            let n = v.samples_per_chunk;
            let part = (v.pending + samples).subrange(k * n, k * n + n);
            let r = single_value(decimator::emitted(v, samples)[k].rms);
            near(r * r * n, energy(part) as int, pow2(18))
        }),
{
    let all = v.pending + samples;
    let n = v.samples_per_chunk;
    lemma_chunk_lies_within(all.len(), n, k);
    assert(decimator::emitted(v, samples)[k] == decimator::summary(windows::chunk(all, n, k)));
    law_loudness_is_the_root_mean_square(all.subrange(k * n, k * n + n));
}

/// The last chunk of a waveform has the loudness of the samples that are left, however few they are.
pub proof fn law_broadband_remainder_measures_the_rest(v: decimator::DecimatorView)
    requires
        0 < v.pending.len() <= 0x10_0000,
        moderate(v.pending),
        v.pending.len() * pow2(50) <= energy(v.pending),
    ensures
        ({
            let r = single_value(decimator::remainder(v)[0].rms);
            near(r * r * v.pending.len(), energy(v.pending) as int, pow2(18))
        }),
{
    law_loudness_is_the_root_mean_square(v.pending);
}

/// The last chunk of a waveform, if samples are left, bounds those that are left.
pub proof fn law_broadband_remainder_bounds_the_rest(v: decimator::DecimatorView, j: int)
    requires
        decimator::all_numbers(v.pending),
        0 <= j < v.pending.len(),
    ensures
        decimator::remainder(v).len() == 1,
        single::at_most(decimator::remainder(v)[0].min, v.pending[j]),
        single::at_most(v.pending[j], decimator::remainder(v)[0].max),
        v.pending.contains(decimator::remainder(v)[0].min),
        v.pending.contains(decimator::remainder(v)[0].max),
{
    decimator::law_chunk_bounds_its_samples(v.pending, j);
    law_extremes_are_samples(v.pending);
}

/// Slot `k` of a band chunk tells of band `k` alone: frames that agree in the bins of that band have
/// the same loudness there, whatever their other bins hold.
pub proof fn law_slots_tell_of_their_band(
    layout: Seq<(usize, usize)>,
    f: Seq<Single>,
    g: Seq<Single>,
    k: int,
)
    requires
        0 <= k < layout.len(),
        layout[k].0 <= layout[k].1 <= f.len(),
        f.len() == g.len(),
        forall|b: int| layout[k].0 <= b < layout[k].1 ==> f[b] == g[b],
    ensures
        band_decimator::loudness(layout, f).len() == layout.len(),
        band_decimator::loudness(layout, f)[k] == band_decimator::loudness(layout, g)[k],
{
    let (lo, hi) = layout[k];
    assert(f.subrange(lo as int, hi as int) =~= g.subrange(lo as int, hi as int));
}

/// A band whose bins are zero has no loudness, whatever the other bins hold.
pub proof fn law_empty_bands_are_silent(layout: Seq<(usize, usize)>, frame: Seq<Single>, k: int)
    requires
        0 <= k < layout.len(),
        layout[k].0 < layout[k].1 <= frame.len(),
        forall|b: int| layout[k].0 <= b < layout[k].1 ==> (#[trigger] frame[b])@.mag == 0,
    ensures
        band_decimator::loudness(layout, frame)[k] == (Single { bits: single::ZERO }),
{
    let (lo, hi) = layout[k];
    let bins = frame.subrange(lo as int, hi as int);
    assert forall|i: int| 0 <= i < bins.len() implies (#[trigger] bins[i])@.mag == 0 by {
        assert(bins[i] == frame[lo + i]);
    }
    band_decimator::lemma_no_loudness(bins);
    identities::law_double_zero((hi - lo) as nat);
    identities::law_narrowed_zero();
}

/// The loudness in slot `k` is the root of the mean of the squares of the bins of band `k`, up to one
/// part in `2^18` of its square.
pub proof fn law_slots_measure_their_band(layout: Seq<(usize, usize)>, frame: Seq<Single>, k: int)
    requires
        0 <= k < layout.len(),
        layout[k].0 < layout[k].1 <= frame.len(),
        layout[k].1 - layout[k].0 <= 0x10_0000,
        ({
            let bins = frame.subrange(layout[k].0 as int, layout[k].1 as int);
            moderate(bins) && bins.len() * pow2(50) <= energy(bins)
        }),
    ensures
        ({
            let bins = frame.subrange(layout[k].0 as int, layout[k].1 as int);
            let rms = band_decimator::loudness(layout, frame)[k];
            let r = single_value(rms);
            &&& single::finite(rms)
            &&& !rms@.neg
            &&& near(r * r * bins.len(), energy(bins) as int, pow2(18))
        }),
{
    let (lo, hi) = layout[k];
    let bins = frame.subrange(lo as int, hi as int);
    law_loudness_is_the_root_mean_square(bins);
}

/// The energy of samples of one magnitude.
proof fn lemma_energy_of_equals(samples: Seq<Single>, c: nat)
    requires
        forall|i: int| 0 <= i < samples.len() ==> exact::abs(single_value(#[trigger] samples[i]))
            == c,
    ensures
        energy(samples) == samples.len() * (c * c),
    decreases samples.len(),
{
    if samples.len() > 0 {
        let front = samples.drop_last();
        assert forall|i: int| 0 <= i < front.len() implies exact::abs(
            single_value(#[trigger] front[i]),
        ) == c by {
            assert(front[i] == samples[i]);
        }
        lemma_energy_of_equals(front, c);
        let v = single_value(samples.last());
        assert(samples[samples.len() - 1] == samples.last());
        let n = front.len();
        assert(v * v == c * c) by (nonlinear_arith)
            requires
                v == c || v == -c,
        ;
        assert((n + 1) * (c * c) == n * (c * c) + c * c) by (nonlinear_arith);
    }
}

/// A band whose bins all have the magnitude `c` has the loudness `c`, up to one part in `2^17`.
pub proof fn law_even_bands_have_their_magnitude(
    layout: Seq<(usize, usize)>,
    frame: Seq<Single>,
    k: int,
    c: nat,
)
    requires
        0 <= k < layout.len(),
        layout[k].0 < layout[k].1 <= frame.len(),
        layout[k].1 - layout[k].0 <= 0x10_0000,
        pow2(25) <= c <= pow2(249),
        forall|b: int|
            layout[k].0 <= b < layout[k].1 ==> single::finite(#[trigger] frame[b]) && exact::abs(
                single_value(frame[b]),
            ) == c,
    ensures
        near(single_value(band_decimator::loudness(layout, frame)[k]), c as int, pow2(17)),
{
    let (lo, hi) = layout[k];
    let bins = frame.subrange(lo as int, hi as int);
    assert forall|i: int| 0 <= i < bins.len() implies exact::abs(single_value(#[trigger] bins[i]))
        == c && single::finite(bins[i]) by {
        assert(bins[i] == frame[lo + i]);
    }
    lemma_energy_of_equals(bins, c);
    let n = bins.len();
    lemma_pow2_adds(25, 25);
    assert(n * pow2(50) <= n * (c * c)) by (nonlinear_arith)
        requires
            pow2(50) == pow2(25) * pow2(25),
            pow2(25) <= c,
            n >= 0,
    ;
    law_slots_measure_their_band(layout, frame, k);
    let r = single_value(band_decimator::loudness(layout, frame)[k]);
    assert(r * r * n == (r * r) * n);
    assert(n * (c * c) == (c * c) * n) by (nonlinear_arith);
    exact::lemma_near_scales(r * r, (c * c) as int, n as int, pow2(18));
    lemma_pow2_unfold(18);
    lemma_pow2_pos(17);
    lemma_near_roots(r, c as int, pow2(17));
}

/// Roots of what is near are near.
proof fn lemma_near_roots(x: int, y: int, d: nat)
    requires
        x >= 0,
        y >= 0,
        d > 0,
        near(x * x, y * y, 2 * d),
    ensures
        near(x, y, d),
{
    let p = exact::abs(x - y) as int;
    let q = exact::abs(x * x - y * y) as int;
    assert(x * x - y * y == (x - y) * (x + y)) by (nonlinear_arith);
    assert(q >= p * y) by (nonlinear_arith)
        requires
            x * x - y * y == (x - y) * (x + y),
            p == x - y || p == y - x,
            p >= 0,
            x >= 0,
            y >= 0,
            q >= x * x - y * y,
            q >= y * y - x * x,
    ;
    assert(y * y >= 0 && x * x >= 0) by (nonlinear_arith);
    if y == 0 {
        assert(x * x == 0) by (nonlinear_arith)
            requires
                (2 * d) * q <= 0,
                q >= x * x,
                x * x >= 0,
                d > 0,
        ;
        assert(x == 0) by (nonlinear_arith)
            requires
                x * x == 0,
        ;
    } else {
        assert(d * p <= y) by (nonlinear_arith)
            requires
                (2 * d) * q <= y * y,
                q >= p * y,
                y > 0,
                p >= 0,
        ;
    }
}

} // verus!
