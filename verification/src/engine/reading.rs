//! What a deck reads between the frames of a track.

use vstd::arithmetic::div_mod::*;
use vstd::arithmetic::power2::*;
use vstd::prelude::*;

use crate::engine::deck;
use crate::ieee::arith;
use crate::ieee::arith::Signed;
use crate::ieee::binary;
use crate::ieee::double;
use crate::ieee::double::Double;
use crate::ieee::exact;
use crate::ieee::exact::double_value;
use crate::ieee::exact::single_value;
use crate::ieee::identities;
use crate::ieee::order;
use crate::ieee::single;
use crate::ieee::single::Single;
use crate::ieee::whole;
use crate::track;

verus! {

/// A track whose frames can be addressed one by one.
pub open spec fn addressable(t: track::TrackView) -> bool {
    t.frames < whole::EXACT && t.frames <= usize::MAX
}

/// The position lies at frame `i` or between it and the next.
pub open spec fn lies_at(pos: Double, i: nat) -> bool {
    double::at_most(double::from_int(i), pos) && double::less(pos, double::from_int(i + 1))
}

/// The samples of one channel at frame `i` and at the next one; the last frame has no next one and
/// stands for it.
pub open spec fn neighbours(t: track::TrackView, i: int, right: bool) -> (Single, Single) {
    let a = track::frame_of(t, i);
    let b = if i + 1 < t.frames {
        track::frame_of(t, i + 1)
    } else {
        a
    };
    if right {
        (a.1, b.1)
    } else {
        (a.0, b.0)
    }
}

/// One channel of what is read.
pub open spec fn channel(pair: (Single, Single), right: bool) -> Single {
    if right {
        pair.1
    } else {
        pair.0
    }
}

/// How far past its whole part a position lies.
spec fn fraction(pos: Double) -> Single {
    double::narrowed(double::difference(pos, double::whole_part(pos)))
}

/// Where a position lies.
proof fn lemma_place(pos: Double, i: nat)
    requires
        i + 1 < whole::EXACT,
        lies_at(pos, i),
    ensures
        double::finite(pos),
        double_value(pos) >= i * pow2(1074),
        double_value(pos) < (i + 1) * pow2(1074),
        double_value(double::whole_part(pos)) == i * pow2(1074),
        double::finite(double::whole_part(pos)),
        !double::less(pos, Double { bits: double::ZERO }),
        i <= usize::MAX ==> double::floor(double::whole_part(pos), usize::MAX as nat) == i,
{
    let f = arith::double();
    let u = pow2(1074);
    lemma_pow2_pos(1074);
    identities::law_whole_numbers_are_exact(i);
    identities::law_whole_numbers_are_exact(i + 1);
    arith::law_magnitudes_order_values(f, pos@, double::from_int(i)@);
    arith::law_magnitudes_order_values(f, pos@, double::from_int(i + 1)@);
    arith::law_magnitudes_order_values(f, pos@, (Double { bits: double::ZERO })@);
    arith::lemma_zero_is_worth_nothing(53);
    assert(i * u >= 0) by (nonlinear_arith)
        requires
            u > 0,
    ;
    reveal(double::floor);
    let below = double::whole_part(pos);
    if pos@.mag == 0 {
        assert(i == 0) by (nonlinear_arith)
            requires
                i * u <= 0,
                u > 0,
        ;
        assert(0 * u == 0);
        lemma_div_basics(u as int);
    } else {
        binary::lemma_worth_increases(53, 0, pos@.mag);
        let w = double_value(pos);
        assert(!pos@.neg);
        assert((i + 1) * u == i * u + u) by (nonlinear_arith);
        lemma_fundamental_div_mod_converse(w, u as int, i as int, w - i * u);
        assert(double::floor(pos, u64::MAX as nat) == i);
        if i <= usize::MAX {
            identities::law_whole_part_of_whole(i, usize::MAX as nat);
        }
    }
}

/// The fraction of a position lies between zero and one.
proof fn lemma_fraction(pos: Double, i: nat)
    requires
        i + 1 < whole::EXACT,
        lies_at(pos, i),
    ensures
        single::at_most(Single { bits: single::ZERO }, fraction(pos)),
        single::at_most(fraction(pos), Single { bits: single::ONE }),
{
    let f = arith::double();
    let u = pow2(1074);
    lemma_place(pos, i);
    lemma_pow2_pos(1074);
    let below = double::whole_part(pos);
    let x = double::difference(pos, below);
    let zero = Double { bits: double::ZERO };
    let one = Double { bits: double::ONE };
    let nb = Signed { neg: !below@.neg, mag: below@.mag };
    reveal(double::difference);
    exact::lemma_top();
    lemma_pow2_strictly_increases(1074, 2098);
    assert((i + 1) * u == i * u + u) by (nonlinear_arith);
    let v = double_value(pos) - double_value(below);
    assert(0 <= v < u);
    exact::lemma_sum_is_close(f, pos@, nb);
    assert(x@ == arith::sum(f, pos@, nb));
    whole::law_whole_is_exact(1);
    identities::law_narrowed_zero();
    lemma_one_is_one();
    // Rounding keeps the difference at most one.
    reveal(arith::sum);
    assert(binary::worth(53, one@.mag) * 1 == u);
    binary::lemma_nearest_exact(53, f.inf, u, 1, one@.mag);
    binary::law_rounding_is_monotone(53, f.inf, v as nat, u, 1);
    identities::law_narrowed_fraction(x);
}

proof fn lemma_one_is_one()
    ensures
        double_value(Double { bits: double::ONE }) == pow2(1074),
        single_value(Single { bits: single::ONE }) == pow2(149),
        double::finite(Double { bits: double::ONE }),
        !(Double { bits: double::ONE })@.neg,
{
    lemma2_to64();
    lemma2_to64_rest();
    lemma_pow2_adds(52, 1022);
    binary::lemma_worth_of_encode(53, 0x10_0000_0000_0000, 1022);
    assert(binary::encode(53, 0x10_0000_0000_0000, 1022) == 0x3ff0_0000_0000_0000);
    lemma_pow2_adds(23, 126);
    binary::lemma_worth_of_encode(24, 0x80_0000, 126);
    assert(binary::encode(24, 0x80_0000, 126) == 0x3f80_0000);
}

/// What is read, by the fraction of the position.
proof fn lemma_read(t: track::TrackView, pos: Double, i: nat, right: bool)
    requires
        addressable(t),
        i < t.frames,
        lies_at(pos, i),
    ensures
        ({
            let (a, b) = neighbours(t, i as int, right);
            channel(deck::read_at(t, pos), right) == single::sum(
                a,
                single::product(single::difference(b, a), fraction(pos)),
            )
        }),
{
    let f = arith::double();
    let u = pow2(1074);
    lemma_pow2_pos(1074);
    if i + 1 < whole::EXACT {
        lemma_place(pos, i);
        let below = double::whole_part(pos);
        let n = t.frames;
        identities::law_whole_numbers_are_exact(n);
        identities::law_whole_numbers_are_exact((n - 1) as nat);
        arith::law_magnitudes_order_values(f, pos@, double::from_int(n)@);
        arith::law_magnitudes_order_values(f, below@, double::from_int((n - 1) as nat)@);
        assert((i + 1) * u <= n * u) by (nonlinear_arith)
            requires
                i + 1 <= n,
                u > 0,
        ;
        let last = (n - 1) as nat;
        assert(i * u < last * u <==> i < last) by (nonlinear_arith)
            requires
                u > 0,
        ;
    }
}

/// The magnitude of a difference.
proof fn lemma_step(a: Single, b: Single)
    requires
        single::finite(a),
        single::finite(b),
        exact::abs(single_value(a)) <= pow2(275),
        exact::abs(single_value(b)) <= pow2(275),
    ensures
        ({
            let d = single::difference(b, a);
            let y = single_value(b) - single_value(a);
            &&& single::finite(d)
            &&& pow2(24) * exact::abs(single_value(d) - y) <= exact::abs(y)
            &&& y >= 0 ==> single_value(d) >= 0
            &&& y <= 0 ==> single_value(d) <= 0
            &&& y > 0 ==> !d@.neg && d@.mag > 0
            &&& y < 0 ==> d@.neg && d@.mag > 0
            &&& y == 0 ==> d@.mag == 0
        }),
{
    let f = arith::single();
    reveal(single::difference);
    exact::lemma_top();
    arith::lemma_zero_is_worth_nothing(24);
    lemma2_to64();
    lemma_pow2_unfold(276);
    lemma_pow2_unfold(277);
    lemma_pow2_pos(275);
    let na = Signed { neg: !a@.neg, mag: a@.mag };
    exact::lemma_sum_is_close(f, b@, na);
    assert(single::difference(b, a)@ == arith::sum(f, b@, na));
    let y = single_value(b) - single_value(a);
    let d = single_value(single::difference(b, a));
    let e = exact::abs(d - y);
    assert(2 * e <= exact::abs(y)) by (nonlinear_arith)
        requires
            pow2(24) * e <= exact::abs(y),
            pow2(24) >= 2,
            e >= 0,
    ;
}

/// Going all the way from one sample to the other arrives there, up to one part in `2^22`.
proof fn lemma_arrives(a: Single, b: Single)
    requires
        single::finite(a),
        single::finite(b),
        exact::abs(single_value(a)) <= pow2(274),
        exact::abs(single_value(b)) <= pow2(274),
    ensures
        ({
            let r = single::sum(a, single::difference(b, a));
            &&& single::finite(r)
            &&& pow2(22) * exact::abs(single_value(r) - single_value(b)) <= exact::abs(
                single_value(a),
            ) + exact::abs(single_value(b))
        }),
{
    let f = arith::single();
    lemma_pow2_unfold(275);
    lemma_pow2_unfold(276);
    lemma_pow2_unfold(277);
    lemma_step(a, b);
    exact::lemma_top();
    lemma2_to64();
    let d = single::difference(b, a);
    let x = single_value(a);
    let z = single_value(b);
    let dv = single_value(d);
    lemma_errors_of_arrival(x, z, dv, x + dv);
    lemma_pow2_pos(274);
    assert(exact::abs(x + dv) < pow2(277));
    exact::lemma_sum_is_close(f, a@, d@);
    reveal(single::sum);
    let r = single::sum(a, d);
    assert(r@ == arith::sum(f, a@, d@));
    lemma_errors_of_arrival(x, z, dv, single_value(r));
    assert(single::finite(r)) by {
        assert(exact::abs(single_value(r)) < pow2(277));
    }
}

/// The errors of going all the way.
proof fn lemma_errors_of_arrival(x: int, z: int, d: int, r: int)
    requires
        0x100_0000 * exact::abs(d - (z - x)) <= exact::abs(z - x),
        0x100_0000 * exact::abs(r - (x + d)) <= exact::abs(x + d),
    ensures
        0x40_0000 * exact::abs(r - z) <= exact::abs(x) + exact::abs(z),
        exact::abs(x + d) <= 2 * exact::abs(x) + 2 * exact::abs(z),
        exact::abs(r) <= exact::abs(x) + 2 * exact::abs(z),
{
    let e = exact::abs(d - (z - x)) as int;
    let e2 = exact::abs(r - (x + d)) as int;
    assert(exact::abs(z - x) <= exact::abs(x) + exact::abs(z));
    assert(exact::abs(x + d) <= exact::abs(z) + e);
    assert(exact::abs(r - z) <= e + e2);
}

/// Between two frames the track is read between them: of each channel, what is read lies on the way
/// from the sample of the one frame to that of the next, and overshoots it by no more than one part in
/// `2^22`.
pub proof fn law_reading_stays_between_frames(
    t: track::TrackView,
    pos: Double,
    i: nat,
    right: bool,
)
    requires
        addressable(t),
        i < t.frames,
        i + 1 < whole::EXACT,
        lies_at(pos, i),
        ({
            let (a, b) = neighbours(t, i as int, right);
            &&& single::finite(a) && single::finite(b)
            &&& exact::abs(single_value(a)) <= pow2(274)
            &&& exact::abs(single_value(b)) <= pow2(274)
        }),
    ensures
        ({
            let (a, b) = neighbours(t, i as int, right);
            let x = single_value(a);
            let y = single_value(b);
            let r = channel(deck::read_at(t, pos), right);
            let v = single_value(r);
            &&& single::finite(r)
            &&& x <= y ==> x <= v && pow2(22) * (v - y) <= exact::abs(x) + exact::abs(y)
            &&& y <= x ==> v <= x && pow2(22) * (y - v) <= exact::abs(x) + exact::abs(y)
        }),
{
    let f = arith::single();
    let (a, b) = neighbours(t, i as int, right);
    let one = Single { bits: single::ONE };
    let zero = Single { bits: single::ZERO };
    let q = fraction(pos);
    let d = single::difference(b, a);
    lemma_read(t, pos, i, right);
    lemma_fraction(pos, i);
    lemma_pow2_unfold(275);
    lemma_step(a, b);
    lemma_arrives(a, b);
    order::law_parts_keep_the_order(d, q, q);
    let p = single::product(d, q);
    let r = single::sum(a, p);
    let far = single::sum(a, d);
    // Starting from the first sample.
    let start = single::sum(a, zero);
    exact::lemma_top();
    arith::lemma_zero_is_worth_nothing(24);
    lemma_pow2_strictly_increases(275, 277);
    lemma_sum_with_zero_value(a);
    arith::law_magnitudes_order_values(f, r@, start@);
    arith::law_magnitudes_order_values(f, start@, r@);
    arith::law_magnitudes_order_values(f, r@, far@);
    arith::law_magnitudes_order_values(f, far@, r@);
    if d@.neg {
        order::law_sum_keeps_the_order(p, zero, a);
        order::law_sum_keeps_the_order(d, p, a);
    } else {
        order::law_sum_keeps_the_order(zero, p, a);
        order::law_sum_keeps_the_order(p, d, a);
    }
    let x = single_value(a);
    let y = single_value(b);
    let v = single_value(r);
    let w = single_value(far);
    lemma2_to64();
    let k = pow2(22) as int;
    let bound = exact::abs(x) + exact::abs(y);
    assert(k * (w - y) <= bound && k * (y - w) <= bound) by (nonlinear_arith)
        requires
            k * exact::abs(w - y) <= bound,
            exact::abs(w - y) >= w - y,
            exact::abs(w - y) >= y - w,
            k > 0,
    ;
    assert(v <= w ==> k * (v - y) <= k * (w - y)) by (nonlinear_arith)
        requires
            k > 0,
    ;
    assert(v >= w ==> k * (y - v) <= k * (y - w)) by (nonlinear_arith)
        requires
            k > 0,
    ;
    if d@.mag == 0 {
        assert(x == y);
        assert(p@.mag == 0);
        lemma_sum_with_zero_magnitude(a, p);
        lemma_sum_with_zero_magnitude(a, d);
    }
}

/// Adding a zero of either sign keeps the value.
proof fn lemma_sum_with_zero_magnitude(a: Single, z: Single)
    requires
        single::finite(a),
        z@.mag == 0,
    ensures
        single::finite(single::sum(a, z)),
        single_value(single::sum(a, z)) == single_value(a),
{
    let f = arith::single();
    reveal(single::sum);
    reveal(arith::sum);
    arith::lemma_zero_is_worth_nothing(24);
    let w = binary::worth(24, a@.mag);
    if a@.mag > 0 {
        binary::lemma_worth_increases(24, 0, a@.mag);
    }
    assert(w * 1 == w);
    binary::lemma_nearest_exact(24, f.inf, w, 1, a@.mag);
}

proof fn lemma_sum_with_zero_value(a: Single)
    requires
        single::finite(a),
    ensures
        single::finite(single::sum(a, Single { bits: single::ZERO })),
        single_value(single::sum(a, Single { bits: single::ZERO })) == single_value(a),
{
    lemma_sum_with_zero_magnitude(a, Single { bits: single::ZERO });
}

/// As the position moves on towards the next frame, so does what is read.
pub proof fn law_reading_moves_with_the_position(
    t: track::TrackView,
    pos: Double,
    later: Double,
    i: nat,
    right: bool,
)
    requires
        addressable(t),
        i < t.frames,
        i + 1 < whole::EXACT,
        lies_at(pos, i),
        lies_at(later, i),
        double::at_most(pos, later),
        ({
            let (a, b) = neighbours(t, i as int, right);
            &&& single::finite(a) && single::finite(b)
            &&& exact::abs(single_value(a)) <= pow2(274)
            &&& exact::abs(single_value(b)) <= pow2(274)
        }),
    ensures
        ({
            let (a, b) = neighbours(t, i as int, right);
            let now = channel(deck::read_at(t, pos), right);
            let moved = channel(deck::read_at(t, later), right);
            &&& single_value(a) <= single_value(b) ==> single::at_most(now, moved)
            &&& single_value(b) <= single_value(a) ==> single::at_most(moved, now)
        }),
{
    let f = arith::double();
    let (a, b) = neighbours(t, i as int, right);
    let d = single::difference(b, a);
    lemma_read(t, pos, i, right);
    lemma_read(t, later, i, right);
    lemma_fraction(pos, i);
    lemma_fraction(later, i);
    lemma_pow2_unfold(275);
    lemma_step(a, b);
    lemma_place(pos, i);
    lemma_place(later, i);
    let below = double::whole_part(pos);
    let below2 = double::whole_part(later);
    order::law_double_difference_keeps_the_order(pos, later, below);
    // The whole parts are worth the same.
    let x = double::difference(later, below);
    let y = double::difference(later, below2);
    assert(x@.mag == y@.mag && (x@.mag == 0 || x@.neg == y@.neg)) by {
        reveal(double::difference);
        reveal(arith::sum);
        exact::lemma_top();
        arith::lemma_zero_is_worth_nothing(53);
        let v = (double_value(later) - double_value(below)) as nat;
        binary::law_rounding_is_monotone(53, f.inf, v, v, 1);
    }
    order::law_narrowing_keeps_the_order(double::difference(pos, below), y);
    let p = fraction(pos);
    let q = fraction(later);
    order::law_parts_keep_the_order(d, p, q);
    if d@.neg {
        order::law_sum_keeps_the_order(single::product(d, q), single::product(d, p), a);
    } else {
        order::law_sum_keeps_the_order(single::product(d, p), single::product(d, q), a);
    }
    if d@.mag == 0 {
        order::law_sum_keeps_the_order(single::product(d, q), single::product(d, p), a);
        order::law_sum_keeps_the_order(single::product(d, p), single::product(d, q), a);
    }
}

/// The position lies `j` parts of `2^k` past frame `i`.
pub open spec fn lies_past(pos: Double, i: nat, j: nat, k: nat) -> bool {
    &&& double::finite(pos)
    &&& k <= 7
    &&& j < pow2(k)
    &&& double_value(pos) == (i * pow2(k) + j) * pow2((1074 - k) as nat)
}

/// The fraction of such a position.
proof fn lemma_fraction_past(pos: Double, i: nat, j: nat, k: nat)
    requires
        i + 1 < whole::EXACT,
        lies_past(pos, i, j, k),
    ensures
        lies_at(pos, i),
        single::finite(fraction(pos)),
        single_value(fraction(pos)) == j * pow2((149 - k) as nat),
{
    let f = arith::double();
    let u = pow2(1074);
    let h = pow2((1074 - k) as nat);
    let p = pow2(k);
    lemma_pow2_pos(1074);
    lemma_pow2_pos((1074 - k) as nat);
    lemma_pow2_adds(k, (1074 - k) as nat);
    identities::law_whole_numbers_are_exact(i);
    identities::law_whole_numbers_are_exact(i + 1);
    assert((i * p + j) * h == i * u + j * h) by (nonlinear_arith)
        requires
            u == p * h,
    ;
    assert(j * h < u && (i + 1) * u == i * u + u) by (nonlinear_arith)
        requires
            u == p * h,
            j < p,
            h > 0,
    ;
    arith::law_magnitudes_order_values(f, pos@, double::from_int(i)@);
    arith::law_magnitudes_order_values(f, pos@, double::from_int(i + 1)@);
    lemma_place(pos, i);
    let below = double::whole_part(pos);
    exact::lemma_top();
    lemma2_to64();
    lemma2_to64_rest();
    lemma_pow2_strictly_increases(1074, 2098);
    if k < 7 {
        lemma_pow2_strictly_increases(k, 7);
    }
    assert(j * h >= 0) by (nonlinear_arith)
        requires
            h > 0,
    ;
    exact::lemma_double_difference(pos, below, j, (1074 - k) as nat);
    let x = double::difference(pos, below);
    let g = pow2((149 - k) as nat);
    lemma_pow2_adds((149 - k) as nat, 925);
    lemma_pow2_adds(k, (149 - k) as nat);
    lemma_pow2_pos((149 - k) as nat);
    lemma_pow2_strictly_increases(149, 277);
    assert(j * h == (j * g) * pow2(925)) by (nonlinear_arith)
        requires
            h == g * pow2(925),
    ;
    assert(j * g <= pow2(149)) by (nonlinear_arith)
        requires
            pow2(149) == p * g,
            j < p,
            g > 0,
    ;
    exact::lemma_narrowed_is_exact(x, j, (149 - k) as nat);
    let v = single_value(fraction(pos));
    lemma_pow2_pos(925);
    assert(v == j * g) by (nonlinear_arith)
        requires
            v * pow2(925) == (j * g) * pow2(925),
            pow2(925) > 0,
    ;
}

/// A track of sixteen-bit audio is read by linear interpolation, exactly: `j` parts of `2^k` past a frame,
/// what is read is `2^k - j` parts of its sample and `j` parts of the next one. Halfway it is their mean.
pub proof fn law_reading_interpolates(
    t: track::TrackView,
    pos: Double,
    i: nat,
    j: nat,
    k: nat,
    x: int,
    y: int,
    right: bool,
)
    requires
        addressable(t),
        i < t.frames,
        i + 1 < whole::EXACT,
        lies_past(pos, i, j, k),
        exact::sixteen_bit(neighbours(t, i as int, right).0, x),
        exact::sixteen_bit(neighbours(t, i as int, right).1, y),
    ensures
        ({
            let r = channel(deck::read_at(t, pos), right);
            &&& single::finite(r)
            &&& single_value(r) * pow2(k) == (x * (pow2(k) - j) + y * j) * pow2(134)
        }),
{
    let (a, b) = neighbours(t, i as int, right);
    let p = pow2(k) as int;
    lemma_fraction_past(pos, i, j, k);
    lemma_read(t, pos, i, right);
    let q = fraction(pos);
    lemma2_to64();
    lemma2_to64_rest();
    lemma_pow2_pos(k);
    if k < 7 {
        lemma_pow2_strictly_increases(k, 7);
    }
    let c = pow2(134) as int;
    let h = pow2((134 - k) as nat) as int;
    lemma_pow2_adds(k, (134 - k) as nat);
    lemma_pow2_pos(134);
    lemma_pow2_pos((134 - k) as nat);
    lemma_pow2_adds(17, 134);
    lemma_pow2_strictly_increases(151, 277);
    // The step from the one sample to the other.
    let s = y - x;
    let m = exact::abs(s);
    assert(y * c - x * c == s * c) by (nonlinear_arith)
        requires
            s == y - x,
    ;
    exact::lemma_abs_times(s, c);
    assert(m * c <= 0x2_0000 * c) by (nonlinear_arith)
        requires
            m <= 0x1_0000,
            c > 0,
    ;
    exact::lemma_single_difference(b, a, m, 134);
    let d = single::difference(b, a);
    // The part of the step.
    let g = pow2((149 - k) as nat) as int;
    lemma_pow2_adds((134 - k) as nat, 149);
    lemma_pow2_adds(134, (149 - k) as nat);
    let sj = s * j;
    let mj = m * j;
    assert((s * c) * (j * g) == (sj * h) * pow2(149)) by (nonlinear_arith)
        requires
            sj == s * j,
            c * g == h * pow2(149),
    ;
    exact::lemma_abs_times(s, j as int);
    exact::lemma_abs_times(sj, h);
    assert(mj <= 0x80_0000 && mj * h <= 0x2_0000 * c) by (nonlinear_arith)
        requires
            mj == m * j,
            m <= 0x1_0000,
            j < p,
            p <= 0x80,
            c == p * h,
            h > 0,
            j >= 0,
    ;
    exact::lemma_abs_times(sj * h, pow2(149) as int);
    lemma_pow2_pos(149);
    exact::lemma_single_product(d, q, mj as nat, (134 - k) as nat);
    let part = single::product(d, q);
    let pv = single_value(part);
    assert(pv == sj * h) by (nonlinear_arith)
        requires
            pv * pow2(149) == (sj * h) * pow2(149),
            pow2(149) > 0,
    ;
    // The sum.
    let z = x * p + sj;
    assert(x * c + sj * h == z * h) by (nonlinear_arith)
        requires
            c == p * h,
            z == x * p + sj,
    ;
    assert(z == x * (p - j) + y * j) by (nonlinear_arith)
        requires
            z == x * p + sj,
            sj == s * j,
            s == y - x,
    ;
    assert(-0x8000 * p <= z <= 0x8000 * p) by (nonlinear_arith)
        requires
            z == x * (p - j) + y * j,
            -0x8000 <= x <= 0x8000,
            -0x8000 <= y <= 0x8000,
            0 <= j < p,
    ;
    exact::lemma_abs_times(z, h);
    let zm = exact::abs(z);
    assert(zm <= 0x40_0000 && zm * h <= 0x2_0000 * c) by (nonlinear_arith)
        requires
            zm <= 0x8000 * p,
            p <= 0x80,
            c == p * h,
            h > 0,
            p > 0,
    ;
    exact::lemma_single_sum(a, part, zm, (134 - k) as nat);
    assert((z * h) * p == z * c) by (nonlinear_arith)
        requires
            c == p * h,
    ;
}

} // verus!
