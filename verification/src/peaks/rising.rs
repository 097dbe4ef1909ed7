//! What an onset tells of the rise from one frame to the next.

use vstd::arithmetic::power2::*;
use vstd::prelude::*;

use crate::ieee::arith;
use crate::ieee::arith::Signed;
use crate::ieee::binary;
use crate::ieee::convert;
use crate::ieee::exact;
use crate::ieee::exact::near;
use crate::ieee::exact::single_value;
use crate::ieee::identities;
use crate::ieee::means;
use crate::ieee::order;
use crate::ieee::single;
use crate::ieee::single::Single;
use crate::peaks::onset;
use crate::spectral::frames;

verus! {

/// How much the bins from `lo` up to `hi` rose in all, exactly, in units of `2^-149`.
pub open spec fn total_rise(prev: Seq<Single>, frame: Seq<Single>, lo: int, hi: int) -> nat
    decreases hi - lo,
{
    if hi <= lo {
        0
    } else {
        let step = single_value(frame[hi - 1]) - single_value(prev[hi - 1]);
        total_rise(prev, frame, lo, hi - 1) + if step > 0 {
            step as nat
        } else {
            0
        }
    }
}

/// What is kept after a frame: the frame itself.
pub open spec fn after(frame: Seq<Single>) -> onset::Seen {
    onset::Seen { prev: frame, have_prev: true }
}

/// The bins are numbers of at most `2^64`.
pub open spec fn tame(frame: Seq<Single>) -> bool {
    &&& frame.len() == frames::HALF_SPECTRUM
    &&& forall|b: int|
        0 <= b < frame.len() ==> single::finite(#[trigger] frame[b]) && exact::abs(
            single_value(frame[b]),
        ) <= pow2(213)
}

/// A difference of finite numbers, as a sum.
proof fn lemma_difference_is_close(a: Single, b: Single)
    requires
        single::finite(a),
        single::finite(b),
        exact::abs(single_value(a) - single_value(b)) < pow2(277),
    ensures
        ({
            let v = single_value(a) - single_value(b);
            let r = single::difference(a, b);
            &&& r@.mag <= binary::SINGLE_INF
            &&& pow2(24) * exact::abs(single_value(r) - v) <= exact::abs(v)
            &&& v > 0 ==> single_value(r) > 0 && !r@.neg
            &&& v < 0 ==> single_value(r) < 0 && r@.neg
            &&& v == 0 ==> r@.mag == 0
        }),
{
    let f = arith::single();
    exact::lemma_top();
    reveal(single::difference);
    let nb = Signed { neg: !b@.neg, mag: b@.mag };
    exact::lemma_sum_is_close(f, a@, nb);
    assert(single::difference(a, b)@ == arith::sum(f, a@, nb));
}

/// The errors of one more step of a rise.
proof fn lemma_errors_of_a_step(s: int, t: int, d: int, x: int, v: int, n: int)
    requires
        0 <= n <= 513,
        t >= 0,
        x > 0,
        0x40_0000 * exact::abs(s - t) <= n * t,
        0x100_0000 * exact::abs(d - x) <= x,
        0x100_0000 * exact::abs(v - (s + d)) <= exact::abs(s + d),
    ensures
        0x40_0000 * exact::abs(v - (t + x)) <= (n + 1) * (t + x),
        0 <= s + d <= 2 * (t + x),
        v <= 3 * (t + x),
{
    let t2 = t + x;
    let e1 = exact::abs(s - t) as int;
    let e2 = exact::abs(d - x) as int;
    let e3 = exact::abs(v - (s + d)) as int;
    assert(e1 <= t) by (nonlinear_arith)
        requires
            0x40_0000 * e1 <= n * t,
            n <= 513,
            t >= 0,
            e1 >= 0,
    ;
    assert(0x40_0000 * e1 <= n * t2) by (nonlinear_arith)
        requires
            0x40_0000 * e1 <= n * t,
            t <= t2,
            n >= 0,
    ;
    assert((n + 1) * t2 == n * t2 + t2) by (nonlinear_arith);
    let e = exact::abs(v - t2) as int;
    assert(e <= e1 + e2 + e3);
}

/// One more step of a rise.
proof fn lemma_one_more_step(sofar: Single, a: Single, b: Single, n: int, t: int)
    requires
        0 <= n < 513,
        single::finite(sofar),
        !sofar@.neg,
        0 <= t <= n * pow2(214),
        0x40_0000 * exact::abs(single_value(sofar) - t) <= n * t,
        single::finite(a),
        single::finite(b),
        exact::abs(single_value(a)) <= pow2(213),
        exact::abs(single_value(b)) <= pow2(213),
        single_value(a) - single_value(b) > 0,
    ensures
        ({
            let t2 = t + (single_value(a) - single_value(b));
            let next = single::sum(sofar, single::difference(a, b));
            &&& single::less(Single { bits: single::ZERO }, single::difference(a, b))
            &&& single::finite(next)
            &&& !next@.neg
            &&& 0x40_0000 * exact::abs(single_value(next) - t2) <= (n + 1) * t2
            &&& t2 <= (n + 1) * pow2(214)
        }),
{
    let f = arith::single();
    let x = single_value(a) - single_value(b);
    let t2 = t + x;
    arith::lemma_zero_is_worth_nothing(24);
    lemma_pow2_unfold(214);
    lemma_pow2_strictly_increases(214, 277);
    lemma_difference_is_close(a, b);
    let step = single::difference(a, b);
    let s = single_value(sofar);
    let d = single_value(step);
    arith::law_magnitudes_order_values(f, (Single { bits: single::ZERO })@, step@);
    lemma2_to64();
    assert((n + 1) * pow2(214) == n * pow2(214) + pow2(214)) by (nonlinear_arith);
    lemma_pow2_adds(10, 214);
    lemma_pow2_unfold(225);
    lemma_pow2_unfold(226);
    lemma_pow2_strictly_increases(226, 277);
    assert(t2 <= pow2(224)) by (nonlinear_arith)
        requires
            t2 <= (n + 1) * pow2(214),
            n + 1 <= 0x400,
            pow2(224) == 0x400 * pow2(214),
            pow2(214) >= 0,
    ;
    exact::lemma_top();
    lemma_errors_of_a_step(s, t, d, x, s + d, n);
    assert(step@.mag < f.inf) by {
        if step@.mag >= f.inf {
            assert(d <= 2 * x);
        }
    }
    exact::lemma_sum_is_close(f, sofar@, step@);
    reveal(single::sum);
    let next = single::sum(sofar, step);
    assert(next@ == arith::sum(f, sofar@, step@));
    lemma_errors_of_a_step(s, t, d, x, single_value(next), n);
}

/// The rise of a band, as it is added up, is near to the exact one.
proof fn lemma_rise_is_close(prev: Seq<Single>, frame: Seq<Single>, lo: int, hi: int)
    requires
        tame(prev),
        tame(frame),
        0 <= lo <= hi <= frame.len(),
    ensures
        ({
            let r = onset::rise(prev, frame, lo, hi);
            let t = total_rise(prev, frame, lo, hi);
            &&& single::finite(r)
            &&& !r@.neg
            &&& 0x40_0000 * exact::abs(single_value(r) - t) <= (hi - lo) * t
            &&& t <= (hi - lo) * pow2(214)
            &&& t == 0 ==> r == (Single { bits: single::ZERO })
        }),
    decreases hi - lo,
{
    let f = arith::single();
    arith::lemma_zero_is_worth_nothing(24);
    if hi > lo {
        let n = hi - 1 - lo;
        lemma_rise_is_close(prev, frame, lo, hi - 1);
        let a = frame[hi - 1];
        let b = prev[hi - 1];
        let x = single_value(a) - single_value(b);
        let sofar = onset::rise(prev, frame, lo, hi - 1);
        let t = total_rise(prev, frame, lo, hi - 1) as int;
        assert(single::finite(a) && single::finite(b));
        if x > 0 {
            lemma_one_more_step(sofar, a, b, n, t);
        } else {
            lemma_pow2_unfold(214);
            lemma_pow2_strictly_increases(214, 277);
            lemma_difference_is_close(a, b);
            let zero = (Single { bits: single::ZERO })@;
            arith::law_magnitudes_order_values(f, zero, single::difference(a, b)@);
            assert((n + 1) * t >= n * t && (n + 1) * pow2(214) >= n * pow2(214))
                by (nonlinear_arith)
                requires
                    t >= 0,
                    pow2(214) >= 0,
            ;
        }
    }
}

/// `frame` differs from `prev` in band `k` alone.
pub open spec fn rises_in(
    layout: Seq<(usize, usize)>,
    prev: Seq<Single>,
    frame: Seq<Single>,
    k: int,
) -> bool {
    forall|b: int|
        0 <= b < frame.len() && !(layout[k].0 <= b < layout[k].1) ==> #[trigger] frame[b]
            == prev[b]
}

/// A frame that is `frame` in band `k` and `prev` elsewhere.
pub open spec fn confined(
    layout: Seq<(usize, usize)>,
    prev: Seq<Single>,
    frame: Seq<Single>,
    k: int,
) -> Seq<Single> {
    Seq::new(
        frame.len(),
        |b: int|
            if layout[k].0 <= b < layout[k].1 {
                frame[b]
            } else {
                prev[b]
            },
    )
}

/// The bands have bins, and lie apart.
pub open spec fn apart(layout: Seq<(usize, usize)>) -> bool {
    &&& forall|k: int|
        0 <= k < layout.len() ==> (#[trigger] layout[k]).0 < layout[k].1 <= frames::HALF_SPECTRUM
    &&& forall|i: int, j: int|
        #![trigger layout[i], layout[j]]
        0 <= i < j < layout.len() ==> layout[i].1 <= layout[j].0
}

/// The bands of a stream have bins, and lie apart.
pub proof fn law_bands_lie_apart(v: frames::StreamView)
    requires
        frames::well_formed(v),
    ensures
        apart(v.bands),
{
    assert forall|i: int, j: int|
        #![trigger v.bands[i], v.bands[j]]
        0 <= i < j < v.bands.len() implies v.bands[i].1 <= v.bands[j].0 by {
        lemma_apart(v, i, j);
    }
}

proof fn lemma_apart(v: frames::StreamView, i: int, j: int)
    requires
        frames::well_formed(v),
        0 <= i < j < v.bands.len(),
    ensures
        v.bands[i].1 <= v.bands[j].0,
    decreases j - i,
{
    assert(v.bands[j - 1].1 == v.bands[j].0);
    if i < j - 1 {
        lemma_apart(v, i, j - 1);
        assert(v.bands[j - 1].0 < v.bands[j - 1].1);
    }
}

/// Bins that agree rise alike.
proof fn lemma_rise_of_equals(
    prev: Seq<Single>,
    f: Seq<Single>,
    g: Seq<Single>,
    lo: int,
    hi: int,
)
    requires
        forall|b: int| lo <= b < hi ==> f[b] == g[b],
    ensures
        onset::rise(prev, f, lo, hi) == onset::rise(prev, g, lo, hi),
    decreases hi - lo,
{
    if hi > lo {
        lemma_rise_of_equals(prev, f, g, lo, hi - 1);
    }
}

/// Bins that stay do not rise.
proof fn lemma_no_rise(prev: Seq<Single>, frame: Seq<Single>, lo: int, hi: int)
    requires
        forall|b: int| lo <= b < hi ==> frame[b] == prev[b],
    ensures
        onset::rise(prev, frame, lo, hi) == (Single { bits: single::ZERO }),
    decreases hi - lo,
{
    if hi > lo {
        lemma_no_rise(prev, frame, lo, hi - 1);
        order::law_nothing_exceeds_itself(prev[hi - 1]);
    }
}

/// The mean rise of a band, in the operations that take it.
spec fn mean_rise(
    layout: Seq<(usize, usize)>,
    prev: Seq<Single>,
    frame: Seq<Single>,
    k: int,
) -> Single {
    single::quotient(
        onset::rise(prev, frame, layout[k].0 as int, layout[k].1 as int),
        single::from_int((layout[k].1 - layout[k].0) as nat),
    )
}

/// The flux of the first `n` bands of a frame that rises in band `k` alone.
proof fn lemma_flux_of_one_band(
    layout: Seq<(usize, usize)>,
    prev: Seq<Single>,
    frame: Seq<Single>,
    k: int,
    n: nat,
)
    requires
        apart(layout),
        tame(prev),
        tame(frame),
        0 <= k < layout.len(),
        n <= layout.len(),
        rises_in(layout, prev, frame, k),
    ensures
        onset::flux(layout, prev, frame, n) == if k < n {
            mean_rise(layout, prev, frame, k)
        } else {
            Single { bits: single::ZERO }
        },
        single::at_most(Single { bits: single::ZERO }, mean_rise(layout, prev, frame, k)),
        mean_rise(layout, prev, frame, k).bits != 0x8000_0000,
    decreases n,
{
    let zero = Single { bits: single::ZERO };
    lemma_mean_is_close(layout, prev, frame, k);
    if n > 0 {
        let j = n - 1;
        lemma_flux_of_one_band(layout, prev, frame, k, j as nat);
        let (lo, hi) = layout[j];
        let count = (hi - lo) as nat;
        order::law_counts_keep_their_order(count, count);
        order::law_quotient_is_not_negative(zero, single::from_int(count));
        identities::law_sum_with_zero(zero);
        identities::law_sum_with_zero(mean_rise(layout, prev, frame, k));
        if j != k {
            assert forall|b: int| lo <= b < hi implies frame[b] == prev[b] by {
                if j < k {
                    assert(layout[j].1 <= layout[k].0);
                } else {
                    assert(layout[k].1 <= layout[j].0);
                }
            }
            lemma_no_rise(prev, frame, lo as int, hi as int);
        }
    }
}

/// The mean rise of a band, times the number of its bins, is near to its total rise.
proof fn lemma_mean_is_close(
    layout: Seq<(usize, usize)>,
    prev: Seq<Single>,
    frame: Seq<Single>,
    k: int,
)
    requires
        apart(layout),
        tame(prev),
        tame(frame),
        0 <= k < layout.len(),
    ensures
        ({
            let (lo, hi) = layout[k];
            let r = mean_rise(layout, prev, frame, k);
            let t = total_rise(prev, frame, lo as int, hi as int);
            &&& single::finite(r)
            &&& !r@.neg
            &&& t == 0 ==> r == (Single { bits: single::ZERO })
            &&& t >= pow2(40) ==> near(single_value(r) * (hi - lo), t as int, 0x400)
        }),
{
    let f = arith::single();
    let (lo, hi) = layout[k];
    let n = (hi - lo) as nat;
    let rise = onset::rise(prev, frame, lo as int, hi as int);
    let t = total_rise(prev, frame, lo as int, hi as int) as int;
    let s = single_value(rise);
    lemma_rise_is_close(prev, frame, lo as int, hi as int);
    lemma_small_counts(n);
    let d = single::from_int(n);
    order::law_quotient_is_not_negative(rise, d);
    reveal(single::quotient);
    reveal(arith::quotient);
    let u = pow2(149);
    lemma_pow2_pos(149);
    let w = binary::worth(24, d@.mag);
    let num = (s * u) as nat;
    let q = single::quotient(rise, d);
    let b = binary::nearest(24, f.inf, num, w);
    arith::lemma_zero_is_worth_nothing(24);
    binary::lemma_worth_increases(24, 0, d@.mag);
    assert(binary::worth(24, rise@.mag) == s);
    binary::law_rounding_is_monotone(24, f.inf, num, num, w);
    assert(q@.mag == b && !q@.neg);
    // The quotient is not above what is divided.
    binary::lemma_nearest_exact(24, f.inf, (s * w) as nat, w, rise@.mag);
    assert(num <= s * w) by (nonlinear_arith)
        requires
            num == s * u,
            w == n * u,
            n >= 1,
            s >= 0,
            u > 0,
    ;
    binary::law_rounding_is_monotone(24, f.inf, num, (s * w) as nat, w);
    if t >= pow2(40) {
        lemma2_to64();
        lemma2_to64_rest();
        let e1 = exact::abs(s - t) as int;
        assert(0x1000 * e1 <= t) by (nonlinear_arith)
            requires
                0x40_0000 * e1 <= (hi - lo) * t,
                hi - lo <= 513,
                t >= 0,
                e1 >= 0,
        ;
        assert(near(s, t, 0x1000));
        exact::lemma_near_bounds(s, t, 0x1000);
        exact::lemma_top();
        binary::lemma_worth_increases(24, rise@.mag, f.inf);
        assert(pow2(23) * w <= num && num < pow2(277) * w) by (nonlinear_arith)
            requires
                w == n * u,
                num == s * u,
                n <= 513,
                n >= 1,
                2 * s >= 0x100_0000_0000,
                s < pow2(277),
                pow2(23) == 0x80_0000,
                u > 0,
        ;
        exact::lemma_rounding_is_close(24, f.inf, num, w);
        let m = binary::worth(24, b) as int;
        means::lemma_near_from_parts(m * w, num as int, pow2(24));
        assert(m * w == (m * n) * u) by (nonlinear_arith)
            requires
                w == n * u,
        ;
        exact::lemma_near_scales(m * n, s, u as int, pow2(24));
        exact::lemma_near_chains(m * n, s, t, pow2(24), 0x1000, 0x400);
    }
}

/// Small counts are exact in single precision.
proof fn lemma_small_counts(n: nat)
    requires
        0 < n <= 513,
    ensures
        binary::worth(24, single::from_int(n)@.mag) == n * pow2(149),
        single::finite(single::from_int(n)),
        !single::from_int(n)@.neg,
        single::from_int(n)@.mag > 0,
        single::less(Single { bits: single::ZERO }, single::from_int(n)),
{
    let inf = binary::SINGLE_INF as nat;
    reveal(single::from_int);
    reveal(convert::from_nat);
    order::law_counts_keep_their_order(n, n);
    exact::lemma_top();
    lemma2_to64();
    lemma_pow2_adds(10, 149);
    lemma_pow2_strictly_increases(159, 277);
    assert(n * pow2(149) < pow2(277)) by (nonlinear_arith)
        requires
            n <= 0x400,
            pow2(159) == 0x400 * pow2(149),
            pow2(159) < pow2(277),
            pow2(149) >= 0,
    ;
    let b = exact::lemma_magnitude(24, inf, n, 149);
    assert(binary::worth(24, b) * 1 == n * pow2(149));
    binary::lemma_nearest_exact(24, inf, n * pow2(149), 1, b);
    assert(single::from_int(n)@.mag == b);
}

/// Every band counts: where one band alone rises, the strength of the onset is the mean rise of that
/// band, up to one part in a thousand, and it is positive. Rises that add up to less than `2^-109` are
/// left out.
pub proof fn law_a_rising_band_is_an_onset(
    layout: Seq<(usize, usize)>,
    prev: Seq<Single>,
    frame: Seq<Single>,
    k: int,
)
    requires
        apart(layout),
        tame(prev),
        tame(frame),
        0 <= k < layout.len(),
        rises_in(layout, prev, frame, k),
        total_rise(prev, frame, layout[k].0 as int, layout[k].1 as int) >= pow2(40),
    ensures
        ({
            let (lo, hi) = layout[k];
            let flux = onset::onset(layout, after(prev), frame).flux;
            &&& single::finite(flux)
            &&& near(
                single_value(flux) * (hi - lo),
                total_rise(prev, frame, lo as int, hi as int) as int,
                0x400,
            )
            &&& single::less(Single { bits: single::ZERO }, flux)
        }),
{
    lemma_flux_of_one_band(layout, prev, frame, k, layout.len());
    lemma_mean_is_close(layout, prev, frame, k);
    let (lo, hi) = layout[k];
    let r = mean_rise(layout, prev, frame, k);
    let t = total_rise(prev, frame, lo as int, hi as int) as int;
    lemma_pow2_pos(40);
    exact::lemma_near_bounds(single_value(r) * (hi - lo), t, 0x400);
    assert(single_value(r) > 0) by (nonlinear_arith)
        requires
            single_value(r) * (hi - lo) > 0,
            hi - lo > 0,
    ;
    arith::lemma_zero_is_worth_nothing(24);
}

/// Bands that fall or stay do not count.
pub proof fn law_a_falling_band_is_no_onset(
    layout: Seq<(usize, usize)>,
    prev: Seq<Single>,
    frame: Seq<Single>,
)
    requires
        apart(layout),
        tame(prev),
        tame(frame),
        forall|b: int|
            0 <= b < frame.len() ==> single_value(#[trigger] frame[b]) <= single_value(prev[b]),
    ensures
        onset::onset(layout, after(prev), frame).flux == (Single { bits: single::ZERO }),
{
    lemma_falling(layout, prev, frame, layout.len());
}

proof fn lemma_falling(
    layout: Seq<(usize, usize)>,
    prev: Seq<Single>,
    frame: Seq<Single>,
    n: nat,
)
    requires
        apart(layout),
        tame(prev),
        tame(frame),
        n <= layout.len(),
        forall|b: int|
            0 <= b < frame.len() ==> single_value(#[trigger] frame[b]) <= single_value(prev[b]),
    ensures
        onset::flux(layout, prev, frame, n) == (Single { bits: single::ZERO }),
    decreases n,
{
    if n > 0 {
        let k = n - 1;
        let (lo, hi) = layout[k];
        lemma_falling(layout, prev, frame, k as nat);
        lemma_no_total_rise(prev, frame, lo as int, hi as int);
        lemma_mean_is_close(layout, prev, frame, k);
        identities::law_sum_with_zero(Single { bits: single::ZERO });
    }
}

proof fn lemma_no_total_rise(prev: Seq<Single>, frame: Seq<Single>, lo: int, hi: int)
    requires
        0 <= lo <= hi <= frame.len(),
        forall|b: int|
            0 <= b < frame.len() ==> single_value(#[trigger] frame[b]) <= single_value(prev[b]),
    ensures
        total_rise(prev, frame, lo, hi) == 0,
    decreases hi - lo,
{
    if hi > lo {
        lemma_no_total_rise(prev, frame, lo, hi - 1);
    }
}

/// What the frames that rise in one of the first `n` bands each would give, added from the lowest.
pub open spec fn added_up(
    layout: Seq<(usize, usize)>,
    prev: Seq<Single>,
    frame: Seq<Single>,
    n: nat,
) -> Single
    decreases n,
{
    if n == 0 {
        Single { bits: single::ZERO }
    } else {
        single::sum(
            added_up(layout, prev, frame, (n - 1) as nat),
            onset::onset(
                layout,
                after(prev),
                confined(layout, prev, frame, n - 1),
            ).flux,
        )
    }
}

/// The bands add up: the strength of an onset is the sum of those of the frames that rise in one band
/// each, and it is no less than any of them.
pub proof fn law_bands_add_up(
    layout: Seq<(usize, usize)>,
    prev: Seq<Single>,
    frame: Seq<Single>,
    k: int,
)
    requires
        apart(layout),
        tame(prev),
        tame(frame),
        0 <= k < layout.len(),
    ensures
        ({
            let flux = onset::onset(layout, after(prev), frame).flux;
            let alone = onset::onset(
                layout,
                after(prev),
                confined(layout, prev, frame, k),
            ).flux;
            &&& flux == added_up(layout, prev, frame, layout.len())
            &&& single::at_most(alone, flux)
        }),
{
    lemma_added_up(layout, prev, frame, layout.len(), k);
}

proof fn lemma_confined(
    layout: Seq<(usize, usize)>,
    prev: Seq<Single>,
    frame: Seq<Single>,
    k: int,
)
    requires
        apart(layout),
        tame(prev),
        tame(frame),
        0 <= k < layout.len(),
    ensures
        onset::onset(layout, after(prev), confined(layout, prev, frame, k)).flux
            == mean_rise(layout, prev, frame, k),
        single::at_most(Single { bits: single::ZERO }, mean_rise(layout, prev, frame, k)),
{
    let g = confined(layout, prev, frame, k);
    assert(tame(g)) by {
        assert forall|b: int| 0 <= b < g.len() implies single::finite(#[trigger] g[b])
            && exact::abs(single_value(g[b])) <= pow2(213) by {
            assert(single::finite(frame[b]) && single::finite(prev[b]));
        }
    }
    lemma_flux_of_one_band(layout, prev, g, k, layout.len());
    lemma_rise_of_equals(prev, frame, g, layout[k].0 as int, layout[k].1 as int);
    lemma_mean_is_close(layout, prev, frame, k);
}

proof fn lemma_added_up(
    layout: Seq<(usize, usize)>,
    prev: Seq<Single>,
    frame: Seq<Single>,
    n: nat,
    k: int,
)
    requires
        apart(layout),
        tame(prev),
        tame(frame),
        n <= layout.len(),
        0 <= k < layout.len(),
    ensures
        onset::flux(layout, prev, frame, n) == added_up(layout, prev, frame, n),
        single::at_most(Single { bits: single::ZERO }, onset::flux(layout, prev, frame, n)),
        k < n ==> single::at_most(
            mean_rise(layout, prev, frame, k),
            onset::flux(layout, prev, frame, n),
        ),
        onset::onset(layout, after(prev), confined(layout, prev, frame, k)).flux
            == mean_rise(layout, prev, frame, k),
    decreases n,
{
    lemma_confined(layout, prev, frame, k);
    if n > 0 {
        let j = n - 1;
        lemma_added_up(layout, prev, frame, j as nat, k);
        lemma_confined(layout, prev, frame, j);
        let below = onset::flux(layout, prev, frame, j as nat);
        let here = mean_rise(layout, prev, frame, j);
        order::law_sum_is_not_negative(below, here);
        order::law_sum_is_no_less(below, here);
        order::law_sum_is_no_less(here, below);
        order::law_sum_commutes(below, here);
    }
}

} // verus!
