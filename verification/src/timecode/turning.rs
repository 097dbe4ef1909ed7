//! What holds of the decoder, whatever it hears.

use vstd::arithmetic::power2::*;
use vstd::prelude::*;

use crate::ieee::arith;
use crate::ieee::binary;
use crate::ieee::bounds;
use crate::ieee::double;
use crate::ieee::double::Double;
use crate::ieee::identities;
use crate::ieee::order;
use crate::ieee::single;
use crate::ieee::single::Single;
use crate::timecode::decoder;
use crate::timecode::decoder::zero;
use crate::timecode::decoder::DecodeOutput;
use crate::timecode::decoder::DecoderView;
use crate::timecode::format::Format;

verus! {

/// Every sample of a block is finite.
pub open spec fn finite_block(stereo: Seq<Single>) -> bool {
    forall|i: int| 0 <= i < stereo.len() ==> single::finite(#[trigger] stereo[i])
}

/// The decoder remembers a finite sample, or nothing.
pub open spec fn remembers_finite(v: DecoderView) -> bool {
    bounds::within(v.prev_re, 128) && bounds::within(v.prev_im, 128)
}

/// A decoder that heard nothing, or was reset, remembers nothing; one that heard finite samples
/// remembers a finite one.
pub proof fn law_memory_stays_finite<A: Fn(Double, Double) -> Double>(
    atan2: A,
    format: Format,
    v: DecoderView,
    stereo: Seq<Single>,
    w: DecoderView,
    out: DecodeOutput,
)
    requires
        finite_block(stereo),
        stereo.len() % 2 == 0,
    ensures
        remembers_finite(decoder::fresh(format, v.sample_rate)),
        remembers_finite(decoder::cleared(v)),
        remembers_finite(v) && decoder::decodes(atan2, v, stereo, w, out) ==> remembers_finite(w),
{
    if stereo.len() > 0 {
        let k = stereo.len() as int / 2 - 1;
        bounds::law_widened_within(stereo[2 * k]);
        bounds::law_widened_within(stereo[2 * k + 1]);
    }
}

/// The sums over a block of finite samples are finite, and their power is not negative.
pub proof fn lemma_sums_are_finite(v: DecoderView, stereo: Seq<Single>, n: nat)
    requires
        finite_block(stereo),
        remembers_finite(v),
        2 * n <= stereo.len(),
    ensures
        bounds::within(decoder::sums(v, stereo, n).re, 310),
        bounds::within(decoder::sums(v, stereo, n).im, 310),
        bounds::within(decoder::sums(v, stereo, n).power, 310),
        double::at_most(zero(), decoder::sums(v, stereo, n).power),
    decreases n,
{
    if n > 0 {
        let m = (n - 1) as nat;
        lemma_sums_are_finite(v, stereo, m);
        let s = decoder::sums(v, stereo, m);
        let k = n - 1;
        bounds::law_widened_within(stereo[2 * k]);
        bounds::law_widened_within(stereo[2 * k + 1]);
        let im = decoder::im_at(stereo, k);
        let re = decoder::re_at(stereo, k);
        let (prev_re, prev_im, primed) = decoder::previous(v, stereo, k);
        if k > 0 {
            bounds::law_widened_within(stereo[2 * (k - 1)]);
            bounds::law_widened_within(stereo[2 * (k - 1) + 1]);
        }
        bounds::law_product_within(re, re, 128, 128);
        bounds::law_product_within(im, im, 128, 128);
        bounds::law_product_within(re, prev_re, 128, 128);
        bounds::law_product_within(im, prev_im, 128, 128);
        bounds::law_product_within(im, prev_re, 128, 128);
        bounds::law_product_within(re, prev_im, 128, 128);
        let p = double::sum(double::product(re, re), double::product(im, im));
        bounds::law_sum_within(double::product(re, re), double::product(im, im), 256);
        bounds::law_sum_within(double::product(re, prev_re), double::product(im, prev_im), 256);
        bounds::law_sum_within(double::product(im, prev_re), double::product(re, prev_im), 256);
        bounds::law_running_sum_within(s.power, p, 257);
        bounds::law_running_sum_within(
            s.re,
            double::sum(double::product(re, prev_re), double::product(im, prev_im)),
            257,
        );
        bounds::law_running_sum_within(
            s.im,
            double::difference(double::product(im, prev_re), double::product(re, prev_im)),
            257,
        );
        order::law_double_square_is_not_negative(re);
        order::law_double_square_is_not_negative(im);
        order::law_double_sum_is_not_negative(double::product(re, re), double::product(im, im));
        order::law_double_sum_is_not_negative(s.power, p);
    }
}

/// For finite samples the confidence is a number between zero and one, and the amplitude is a
/// number that is not negative.
pub proof fn law_finite_blocks_decode_to_numbers<A: Fn(Double, Double) -> Double>(
    atan2: A,
    v: DecoderView,
    stereo: Seq<Single>,
    w: DecoderView,
    out: DecodeOutput,
)
    requires
        decoder::decodes(atan2, v, stereo, w, out),
        finite_block(stereo),
        remembers_finite(v),
        stereo.len() % 2 == 0,
        stereo.len() <= usize::MAX,
    ensures
        single::at_most(Single { bits: single::ZERO }, out.confidence),
        single::at_most(out.confidence, Single { bits: single::ONE }),
        single::at_most(Single { bits: single::ZERO }, out.amplitude),
{
    if stereo.len() > 0 {
        let n = stereo.len() / 2;
        let s = decoder::sums(v, stereo, n);
        lemma_sums_are_finite(v, stereo, n);
        decoder::lemma_counts(v, stereo, n);
        order::law_root_mean_is_a_number(s.power, n);
        let phase = choose|phase: Double| #[trigger]
            decoder::is_phase(atan2, s, phase) && out == decoder::concluded(
                decoder::heard(v, stereo),
                s,
                phase,
            ) && w == (DecoderView {
                position_secs: out.position_secs,
                ..decoder::heard(v, stereo)
            });
        if double::less(Double { bits: decoder::POWER_FLOOR }, s.power) {
            bounds::law_product_within(s.re, s.re, 310, 310);
            bounds::law_product_within(s.im, s.im, 310, 310);
            let a = double::product(s.re, s.re);
            let b = double::product(s.im, s.im);
            bounds::law_sum_within(a, b, 620);
            order::law_double_square_is_not_negative(s.re);
            order::law_double_square_is_not_negative(s.im);
            order::law_double_sum_is_not_negative(a, b);
            let square = double::sum(a, b);
            order::law_double_root_is_a_number(square);
            let length = double::square_root(square);
            bounds::law_within_is_finite(s.power, 310);
            order::law_double_quotient_is_a_number(length, s.power);
            let x = double::clamped(
                double::quotient(length, s.power),
                zero(),
                Double { bits: double::ONE },
            );
            identities::law_narrowed_fraction(x);
        }
    } else {
        order::law_counts_keep_their_order(0, 0);
    }
}

/// Bits of half a turn in double precision.
pub const HALF_TURN: u64 = 0x4009_21fb_5444_2d18;

/// Directions of finite vectors lie within half a turn, either way.
pub open spec fn stays_within_half_a_turn<A: Fn(Double, Double) -> Double>(atan2: A) -> bool {
    forall|y: Double, x: Double, phase: Double|
        double::finite(y) && double::finite(x) && #[trigger] call_ensures(atan2, (y, x), phase)
            ==> phase@.mag <= (Double { bits: HALF_TURN })@.mag
}

/// The rate `rate` is at most half the sample rate over the carrier frequency, up to one part in
/// `2^50`.
pub open spec fn below_alias_limit(v: DecoderView, rate: Double) -> bool {
    let unit = pow2(binary::DOUBLE_UNIT as nat);
    let r = binary::worth(53, rate@.mag);
    let sr = binary::worth(53, single::widened(v.sample_rate)@.mag);
    let carrier = binary::worth(53, single::widened(v.carrier_hz)@.mag);
    &&& double::finite(rate)
    &&& 0x4_0000_0000_0000 * (2 * r * carrier) <= 0x4_0000_0000_0001 * (sr * unit)
}

/// The rounding errors of the four steps from half a turn to a rate do not add up to much.
proof fn lemma_four_roundings(
    d: nat,
    t: nat,
    q: nat,
    r: nat,
    s: nat,
    c: nat,
    u: nat,
    p: nat,
)
    requires
        p > 0,
        u > 0,
        bounds::PRECISION * (d * s) >= (bounds::PRECISION - 1) * (u * u),
        bounds::PRECISION * (t * u) >= (bounds::PRECISION - 1) * (2 * p * d),
        bounds::PRECISION * (q * t) <= (bounds::PRECISION + 1) * (p * u),
        bounds::PRECISION * (r * c) <= (bounds::PRECISION + 1) * (q * u),
    ensures
        0x4_0000_0000_0000 * (2 * r * c) <= 0x4_0000_0000_0001 * (s * u),
{
    let k = bounds::PRECISION as int;
    let more = k + 1;
    let less = k - 1;
    // From below: k * k * t * s >= 2 * p * less * less * u.
    assert((k * (t * u)) * (k * s) >= (less * (2 * p * d)) * (k * s)) by (nonlinear_arith)
        requires
            k * (t * u) >= less * (2 * p * d),
            k > 0,
            s >= 0,
    ;
    assert((less * (2 * p * d)) * (k * s) == (less * 2 * p) * (k * (d * s))) by (nonlinear_arith);
    assert((less * 2 * p) * (k * (d * s)) >= (less * 2 * p) * (less * (u * u))) by (nonlinear_arith)
        requires
            k * (d * s) >= less * (u * u),
            less > 0,
            p > 0,
    ;
    assert((k * (t * u)) * (k * s) == (k * k * (t * s)) * u) by (nonlinear_arith);
    assert((less * 2 * p) * (less * (u * u)) == ((2 * p) * (less * less) * u) * u)
        by (nonlinear_arith);
    let low = (2 * p) * (less * less) * u;
    let mid = k * k * (t * s);
    assert(mid >= low) by (nonlinear_arith)
        requires
            mid * u >= low * u,
            u > 0,
    ;
    // From above: k * k * r * c * t <= more * more * p * u * u.
    assert((k * (r * c)) * (k * t) <= (more * (q * u)) * (k * t)) by (nonlinear_arith)
        requires
            k * (r * c) <= more * (q * u),
            k > 0,
            t >= 0,
    ;
    assert((more * (q * u)) * (k * t) == (more * u) * (k * (q * t))) by (nonlinear_arith);
    assert((more * u) * (k * (q * t)) <= (more * u) * (more * (p * u))) by (nonlinear_arith)
        requires
            k * (q * t) <= more * (p * u),
            more > 0,
            u > 0,
    ;
    let rc = r * c;
    let high = (more * u) * (more * (p * u));
    assert((k * rc) * (k * t) <= high);
    // Together, times s and r * c.
    assert(mid * rc >= low * rc) by (nonlinear_arith)
        requires
            mid >= low,
            rc >= 0,
    ;
    assert(((k * rc) * (k * t)) * s <= high * s) by (nonlinear_arith)
        requires
            (k * rc) * (k * t) <= high,
            s >= 0,
    ;
    assert(mid * rc == ((k * rc) * (k * t)) * s) by (nonlinear_arith)
        requires
            mid == k * k * (t * s),
    ;
    assert(low * rc == (p * u) * ((less * less) * (2 * rc))) by (nonlinear_arith)
        requires
            low == (2 * p) * (less * less) * u,
    ;
    assert(high * s == (p * u) * ((more * more) * (s * u))) by (nonlinear_arith)
        requires
            high == (more * u) * (more * (p * u)),
    ;
    let left = (less * less) * (2 * rc);
    let right = (more * more) * (s * u);
    assert(left <= right) by (nonlinear_arith)
        requires
            (p * u) * left <= (p * u) * right,
            p > 0,
            u > 0,
    ;
    let a = 2 * rc;
    let b = s * u;
    let e: int = 0x4_0000_0000_0000;
    assert((more * more) * e <= (less * less) * (e + 1)) by (nonlinear_arith)
        requires
            more == 0x20_0000_0000_0001,
            less == 0x1f_ffff_ffff_ffff,
            e == 0x4_0000_0000_0000,
    ;
    assert((less * less) * (e * a) <= (less * less) * ((e + 1) * b)) by (nonlinear_arith)
        requires
            (less * less) * a <= (more * more) * b,
            (more * more) * e <= (less * less) * (e + 1),
            b >= 0,
            e > 0,
    ;
    assert(less * less > 0) by (nonlinear_arith)
        requires
            less > 0,
    ;
    assert(e * a <= (e + 1) * b) by (nonlinear_arith)
        requires
            (less * less) * (e * a) <= (less * less) * ((e + 1) * b),
            less * less > 0,
    ;
    assert(2 * r * c == a) by (nonlinear_arith)
        requires
            a == 2 * rc,
            rc == r * c,
    ;
}

/// Half a turn and a whole one.
pub proof fn lemma_half_turn()
    ensures
        ({
            let p = binary::worth(53, (Double { bits: HALF_TURN })@.mag);
            &&& pow2(1075) <= p <= pow2(1076)
            &&& binary::worth(53, (Double { bits: decoder::TAU })@.mag) == 2 * p
            &&& !(Double { bits: HALF_TURN })@.neg
            &&& !(Double { bits: decoder::TAU })@.neg
        }),
{
    let half = (Double { bits: HALF_TURN })@.mag;
    bounds::lemma_doubling(half);
    bounds::lemma_two_to(1);
    bounds::lemma_two_to(2);
    binary::lemma_worth_increases(53, bounds::two_to(1), half);
    binary::lemma_worth_increases(53, half, bounds::two_to(2));
}

/// A quotient that is neither tiny nor infinite is close to the exact one.
proof fn lemma_close_quotient(a: Double, d: Double, w: nat)
    requires
        double::finite(a),
        double::finite(d),
        d@.mag > 0,
        w == binary::worth(53, d@.mag),
        pow2(52) * w <= binary::worth(53, a@.mag) * pow2(1074),
        binary::worth(53, a@.mag) * pow2(1074) < pow2(2098) * w,
    ensures
        ({
            let r = binary::worth(53, double::quotient(a, d)@.mag);
            let num = binary::worth(53, a@.mag) * pow2(1074);
            &&& bounds::PRECISION * (r * w) <= (bounds::PRECISION + 1) * num
            &&& bounds::PRECISION * (r * w) >= (bounds::PRECISION - 1) * num
            &&& 2 * (r * w) >= num
            &&& r * w <= 2 * num
            &&& double::quotient(a, d)@.mag <= binary::DOUBLE_INF
            &&& double::quotient(a, d)@.neg == (a@.neg != d@.neg)
        }),
{
    let f = arith::double();
    reveal(double::quotient);
    reveal(arith::quotient);
    arith::lemma_zero_is_worth_nothing(53);
    binary::lemma_worth_increases(53, 0, d@.mag);
    let num = binary::worth(53, a@.mag) * pow2(1074);
    bounds::law_rounding_is_close(num, w);
    binary::law_rounding_is_monotone(53, f.inf, num, num, w);
    let r = double::quotient(a, d)@;
    assert(r.mag == binary::nearest(53, f.inf, num, w));
    assert(r.neg == (a@.neg != d@.neg));
    let x = binary::worth(53, r.mag) * w;
    assert(bounds::PRECISION * x <= (bounds::PRECISION + 1) * num);
    assert(bounds::PRECISION * x >= (bounds::PRECISION - 1) * num);
    assert(2 * x >= num && x <= 2 * num) by (nonlinear_arith)
        requires
            0x20_0000_0000_0000 * x <= 0x20_0000_0000_0001 * num,
            0x20_0000_0000_0000 * x >= 0x1f_ffff_ffff_ffff * num,
            num >= 0,
            x >= 0,
    ;
}

/// A product that is neither tiny nor infinite is close to the exact one.
proof fn lemma_close_product(a: Double, b: Double)
    requires
        double::finite(a),
        double::finite(b),
        pow2(52) * pow2(1074) <= binary::worth(53, a@.mag) * binary::worth(53, b@.mag),
        binary::worth(53, a@.mag) * binary::worth(53, b@.mag) < pow2(2098) * pow2(1074),
    ensures
        ({
            let r = binary::worth(53, double::product(a, b)@.mag);
            let num = binary::worth(53, a@.mag) * binary::worth(53, b@.mag);
            &&& bounds::PRECISION * (r * pow2(1074)) >= (bounds::PRECISION - 1) * num
            &&& 2 * (r * pow2(1074)) >= num
            &&& r * pow2(1074) <= 2 * num
            &&& double::product(a, b)@.mag <= binary::DOUBLE_INF
            &&& double::product(a, b)@.neg == (a@.neg != b@.neg)
        }),
{
    let f = arith::double();
    reveal(double::product);
    reveal(arith::product);
    lemma_pow2_pos(1074);
    let num = binary::worth(53, a@.mag) * binary::worth(53, b@.mag);
    bounds::law_rounding_is_close(num, pow2(1074));
    binary::law_rounding_is_monotone(53, f.inf, num, num, pow2(1074));
    let r = double::product(a, b)@;
    assert(r.mag == binary::nearest(53, f.inf, num, pow2(1074)));
    assert(r.neg == (a@.neg != b@.neg));
    let x = binary::worth(53, r.mag) * pow2(1074);
    assert(bounds::PRECISION * x <= (bounds::PRECISION + 1) * num);
    assert(bounds::PRECISION * x >= (bounds::PRECISION - 1) * num);
    assert(2 * x >= num && x <= 2 * num) by (nonlinear_arith)
        requires
            0x20_0000_0000_0000 * x <= 0x20_0000_0000_0001 * num,
            0x20_0000_0000_0000 * x >= 0x1f_ffff_ffff_ffff * num,
            num >= 0,
            x >= 0,
    ;
}

/// Products of powers of two bound products.
proof fn lemma_product_between(x: nat, y: nat, i: nat, j: nat, k: nat, l: nat)
    requires
        pow2(i) <= x <= pow2(j),
        pow2(k) <= y <= pow2(l),
    ensures
        pow2(i + k) <= x * y <= pow2(j + l),
{
    lemma_pow2_adds(i, k);
    lemma_pow2_adds(j, l);
    assert(pow2(i) * pow2(k) <= x * y && x * y <= pow2(j) * pow2(l)) by (nonlinear_arith)
        requires
            0 <= pow2(i) <= x <= pow2(j),
            0 <= pow2(k) <= y <= pow2(l),
    ;
}

/// A number of at most the magnitude of infinity is finite and not zero where its worth lies
/// between powers of two.
proof fn lemma_finite_by_worth(a: Double, i: nat, j: nat)
    requires
        a@.mag <= binary::DOUBLE_INF,
        pow2(i) <= binary::worth(53, a@.mag) <= pow2(j),
        j < 2098,
    ensures
        double::finite(a),
        a@.mag > 0,
{
    lemma_pow2_pos(i);
    arith::lemma_zero_is_worth_nothing(53);
    bounds::lemma_two_to(1024);
    assert(bounds::two_to(1024) == binary::DOUBLE_INF);
    lemma_pow2_strictly_increases(j, 2098);
}

/// What is at least a power of two and at most another, within a factor of two.
proof fn lemma_halves(x: nat, num: nat, i: nat, j: nat)
    requires
        2 * x >= num,
        x <= 2 * num,
        pow2(i + 1) <= num <= pow2(j),
    ensures
        pow2(i) <= x <= pow2(j + 1),
{
    lemma_pow2_unfold(i + 1);
    lemma_pow2_unfold(j + 1);
}

/// Half a turn per sample is the rate of the alias limit.
pub proof fn lemma_rate_of_half_a_turn(v: DecoderView)
    requires
        single::finite(v.sample_rate),
        single::less(Single { bits: single::ZERO }, v.sample_rate),
        single::finite(v.carrier_hz),
        single::less(Single { bits: single::ZERO }, v.carrier_hz),
    ensures
        ({
            let dt = double::quotient(
                Double { bits: double::ONE },
                single::widened(v.sample_rate),
            );
            let turn = double::product(Double { bits: decoder::TAU }, dt);
            let q = double::quotient(Double { bits: HALF_TURN }, turn);
            &&& double::finite(dt) && dt@.mag > 0 && !dt@.neg
            &&& bounds::within(dt, 150)
            &&& double::finite(turn) && turn@.mag > 0 && !turn@.neg
            &&& double::finite(q)
            &&& below_alias_limit(v, decoder::rate_of(v, Double { bits: HALF_TURN }))
            &&& bounds::within(decoder::rate_of(v, Double { bits: HALF_TURN }), 281)
        }),
{
    let one = Double { bits: double::ONE };
    let half = Double { bits: HALF_TURN };
    let tau = Double { bits: decoder::TAU };
    let wsr = single::widened(v.sample_rate);
    let wc = single::widened(v.carrier_hz);
    let u = pow2(1074);
    let s = binary::worth(53, wsr@.mag);
    let c = binary::worth(53, wc@.mag);
    let p = binary::worth(53, half@.mag);
    bounds::law_widened_worth(v.sample_rate);
    bounds::law_widened_worth(v.carrier_hz);
    lemma_half_turn();
    bounds::lemma_two_to(0);
    assert(one@.mag == bounds::two_to(0));
    lemma_pow2_pos(1074);
    lemma_pow2_unfold(1077);
    lemma_pow2_unfold(1076);
    // The time of a sample.
    lemma_pow2_adds(1074, 1074);
    lemma_pow2_adds(52, 1202);
    lemma_pow2_adds(2098, 925);
    lemma_pow2_strictly_increases(1254, 2148);
    lemma_pow2_strictly_increases(2148, 3023);
    assert(pow2(52) * s <= pow2(52) * pow2(1202)) by (nonlinear_arith)
        requires
            s <= pow2(1202),
            pow2(52) >= 0,
    ;
    assert(pow2(2098) * s >= pow2(2098) * pow2(925)) by (nonlinear_arith)
        requires
            s >= pow2(925),
            pow2(2098) >= 0,
    ;
    lemma_close_quotient(one, wsr, s);
    let dt = double::quotient(one, wsr);
    let d = binary::worth(53, dt@.mag);
    lemma_halves(d * s, u * u, 2147, 2148);
    bounds::lemma_factor_above(d, s, 945, 1202);
    bounds::lemma_factor_below(d, s, 1224, 925);
    lemma_finite_by_worth(dt, 945, 1224);
    assert(bounds::within(dt, 150)) by {
        bounds::lemma_two_to(150);
        if dt@.mag > bounds::two_to(150) {
            binary::lemma_worth_increases(53, bounds::two_to(150), dt@.mag);
        }
    }
    // A turn in that time.
    lemma_product_between(2 * p, d, 1076, 1077, 945, 1224);
    lemma_pow2_adds(52, 1074);
    lemma_pow2_adds(2098, 1074);
    lemma_pow2_strictly_increases(1126, 2021);
    lemma_pow2_strictly_increases(2301, 3172);
    lemma_close_product(tau, dt);
    let turn = double::product(tau, dt);
    let t = binary::worth(53, turn@.mag);
    lemma_halves(t * u, 2 * p * d, 2020, 2301);
    bounds::lemma_factor_above(t, u, 946, 1074);
    bounds::lemma_factor_below(t, u, 1228, 1074);
    lemma_finite_by_worth(turn, 946, 1228);
    // Half a turn in turns.
    lemma_product_between(p, u, 1075, 1076, 1074, 1074);
    lemma_pow2_strictly_increases(1280, 2149);
    lemma_pow2_strictly_increases(2150, 3044);
    lemma_pow2_adds(52, 1228);
    lemma_pow2_adds(2098, 946);
    assert(pow2(52) * t <= pow2(52) * pow2(1228)) by (nonlinear_arith)
        requires
            t <= pow2(1228),
            pow2(52) >= 0,
    ;
    assert(pow2(2098) * t >= pow2(2098) * pow2(946)) by (nonlinear_arith)
        requires
            t >= pow2(946),
            pow2(2098) >= 0,
    ;
    lemma_finite_by_worth(half, 1075, 1076);
    lemma_close_quotient(half, turn, t);
    let q = double::quotient(half, turn);
    let qw = binary::worth(53, q@.mag);
    lemma_halves(qw * t, p * u, 2148, 2150);
    bounds::lemma_factor_above(qw, t, 920, 1228);
    bounds::lemma_factor_below(qw, t, 1205, 946);
    lemma_finite_by_worth(q, 920, 1205);
    // The carrier.
    lemma_product_between(qw, u, 920, 1205, 1074, 1074);
    lemma_pow2_strictly_increases(1254, 1994);
    lemma_pow2_strictly_increases(2279, 3023);
    assert(pow2(52) * c <= pow2(52) * pow2(1202)) by (nonlinear_arith)
        requires
            c <= pow2(1202),
            pow2(52) >= 0,
    ;
    assert(pow2(2098) * c >= pow2(2098) * pow2(925)) by (nonlinear_arith)
        requires
            c >= pow2(925),
            pow2(2098) >= 0,
    ;
    lemma_close_quotient(q, wc, c);
    let rate = double::quotient(q, wc);
    let r = binary::worth(53, rate@.mag);
    lemma_halves(r * c, qw * u, 1993, 2279);
    bounds::lemma_factor_above(r, c, 791, 1202);
    bounds::lemma_factor_below(r, c, 1355, 925);
    lemma_finite_by_worth(rate, 791, 1355);
    assert(bounds::within(rate, 281)) by {
        bounds::lemma_two_to(281);
        if rate@.mag > bounds::two_to(281) {
            binary::lemma_worth_increases(53, bounds::two_to(281), rate@.mag);
        }
    }
    lemma_four_roundings(d, t, qw, r, s, c, u, p);
}

/// With directions within half a turn, the rate lies within the alias limit: half the sample rate
/// over the carrier frequency, up to rounding.
pub proof fn law_rate_is_bounded<A: Fn(Double, Double) -> Double>(
    atan2: A,
    v: DecoderView,
    stereo: Seq<Single>,
    w: DecoderView,
    out: DecodeOutput,
)
    requires
        decoder::decodes(atan2, v, stereo, w, out),
        stays_within_half_a_turn(atan2),
        finite_block(stereo),
        remembers_finite(v),
        single::finite(v.sample_rate),
        single::less(Single { bits: single::ZERO }, v.sample_rate),
        single::finite(v.carrier_hz),
        single::less(Single { bits: single::ZERO }, v.carrier_hz),
    ensures
        below_alias_limit(v, out.rate),
        bounds::within(out.rate, 281),
{
    let half = Double { bits: HALF_TURN };
    lemma_rate_of_half_a_turn(v);
    bounds::law_widened_worth(v.carrier_hz);
    let wc = single::widened(v.carrier_hz);
    let dt = double::quotient(Double { bits: double::ONE }, single::widened(v.sample_rate));
    let turn = double::product(Double { bits: decoder::TAU }, dt);
    let limit = decoder::rate_of(v, half);
    if stereo.len() > 0 {
        let s = decoder::sums(v, stereo, stereo.len() / 2);
        let phase = choose|phase: Double| #[trigger]
            decoder::is_phase(atan2, s, phase) && out == decoder::concluded(
                decoder::heard(v, stereo),
                s,
                phase,
            ) && w == (DecoderView {
                position_secs: out.position_secs,
                ..decoder::heard(v, stereo)
            });
        lemma_half_turn();
        lemma_sums_are_finite(v, stereo, stereo.len() / 2);
        bounds::law_within_is_finite(s.im, 310);
        bounds::law_within_is_finite(s.re, 310);
        assert(phase@.mag <= half@.mag);
        bounds::law_quotient_grows(phase, half, turn);
        bounds::law_quotient_grows(
            double::quotient(phase, turn),
            double::quotient(half, turn),
            wc,
        );
        assert(out.rate == decoder::rate_of(v, phase));
    } else {
        assert(out.rate@.mag == 0);
    }
    let r = binary::worth(53, out.rate@.mag);
    let l = binary::worth(53, limit@.mag);
    let c = binary::worth(53, wc@.mag);
    if out.rate@.mag < limit@.mag {
        binary::lemma_worth_increases(53, out.rate@.mag, limit@.mag);
    }
    assert(2 * r * c <= 2 * l * c) by (nonlinear_arith)
        requires
            0 <= r <= l,
            c >= 0,
    ;
}

/// Silence turns nothing.
proof fn lemma_silence_does_not_turn(v: DecoderView, stereo: Seq<Single>, n: nat)
    requires
        decoder::silent(stereo),
        remembers_finite(v),
        2 * n <= stereo.len(),
    ensures
        decoder::sums(v, stereo, n).re == zero(),
        decoder::sums(v, stereo, n).im == zero(),
    decreases n,
{
    if n > 0 {
        let m = (n - 1) as nat;
        lemma_silence_does_not_turn(v, stereo, m);
        let k = n - 1;
        let im = decoder::im_at(stereo, k);
        let re = decoder::re_at(stereo, k);
        identities::law_square_of_a_zero(stereo[2 * k]);
        identities::law_square_of_a_zero(stereo[2 * k + 1]);
        let (prev_re, prev_im, primed) = decoder::previous(v, stereo, k);
        if k > 0 {
            identities::law_square_of_a_zero(stereo[2 * (k - 1)]);
            identities::law_square_of_a_zero(stereo[2 * (k - 1) + 1]);
        }
        bounds::law_within_is_finite(prev_re, 128);
        bounds::law_within_is_finite(prev_im, 128);
        identities::law_double_multiples_of_zero(re, prev_re);
        identities::law_double_multiples_of_zero(im, prev_im);
        identities::law_double_multiples_of_zero(im, prev_re);
        identities::law_double_multiples_of_zero(re, prev_im);
        let a = double::product(re, prev_re);
        let b = double::product(im, prev_im);
        let c = double::product(im, prev_re);
        let d = double::product(re, prev_im);
        identities::law_double_sums_of_zeros(a, b);
        identities::law_double_sums_of_zeros(c, d);
        identities::law_double_sums_of_zeros(a, double::sum(a, b));
        identities::law_double_sums_of_zeros(c, double::difference(c, d));
    }
}

/// The direction of nothing is zero.
pub open spec fn points_nowhere_for_nothing<A: Fn(Double, Double) -> Double>(atan2: A) -> bool {
    forall|phase: Double|
        #[trigger] call_ensures(atan2, (zero(), zero()), phase) ==> phase@.mag == 0
}

/// Silence, and a block of no frames, leave the position where it is.
pub proof fn law_silence_leaves_the_position<A: Fn(Double, Double) -> Double>(
    atan2: A,
    v: DecoderView,
    stereo: Seq<Single>,
    w: DecoderView,
    out: DecodeOutput,
)
    requires
        decoder::decodes(atan2, v, stereo, w, out),
        decoder::silent(stereo),
        points_nowhere_for_nothing(atan2),
        remembers_finite(v),
        stereo.len() % 2 == 0,
        stereo.len() <= usize::MAX,
        single::finite(v.sample_rate),
        single::less(Single { bits: single::ZERO }, v.sample_rate),
        single::finite(v.carrier_hz),
        single::less(Single { bits: single::ZERO }, v.carrier_hz),
        v.position_secs@.mag <= binary::DOUBLE_INF,
        v.position_secs.bits != 0x8000_0000_0000_0000,
    ensures
        out.rate@.mag == 0,
        out.position_secs == v.position_secs,
        w.position_secs == v.position_secs,
{
    if stereo.len() > 0 {
        let n = stereo.len() / 2;
        let s = decoder::sums(v, stereo, n);
        lemma_silence_does_not_turn(v, stereo, n);
        decoder::lemma_counts(v, stereo, n);
        let phase = choose|phase: Double| #[trigger]
            decoder::is_phase(atan2, s, phase) && out == decoder::concluded(
                decoder::heard(v, stereo),
                s,
                phase,
            ) && w == (DecoderView {
                position_secs: out.position_secs,
                ..decoder::heard(v, stereo)
            });
        assert(phase@.mag == 0);
        lemma_rate_of_half_a_turn(v);
        bounds::law_widened_worth(v.carrier_hz);
        let dt = double::quotient(Double { bits: double::ONE }, single::widened(v.sample_rate));
        let turn = double::product(Double { bits: decoder::TAU }, dt);
        identities::law_double_multiples_of_zero(phase, turn);
        let q = double::quotient(phase, turn);
        identities::law_double_multiples_of_zero(q, single::widened(v.carrier_hz));
        bounds::law_count_within(n);
        bounds::law_product_within(double::from_int(n), dt, 64, 150);
        let time = double::product(double::from_int(n), dt);
        bounds::law_within_is_finite(time, 214);
        identities::law_double_multiples_of_zero(out.rate, time);
        identities::law_double_sum_with_either_zero(
            v.position_secs,
            double::product(out.rate, time),
        );
    }
}

/// A block moves the position by its rate times its duration.
pub proof fn law_position_follows_the_rate<A: Fn(Double, Double) -> Double>(
    atan2: A,
    v: DecoderView,
    stereo: Seq<Single>,
    w: DecoderView,
    out: DecodeOutput,
)
    requires
        decoder::decodes(atan2, v, stereo, w, out),
        0 < stereo.len() <= usize::MAX,
    ensures
        w.position_secs == out.position_secs,
        out.position_secs == double::sum(
            v.position_secs,
            double::product(
                out.rate,
                double::product(
                    double::from_int(stereo.len() / 2),
                    double::quotient(
                        Double { bits: double::ONE },
                        single::widened(v.sample_rate),
                    ),
                ),
            ),
        ),
{
    decoder::lemma_counts(v, stereo, stereo.len() / 2);
}

/// A position that a record can reach: the blocks of a whole life do not add up to more.
pub open spec fn reachable(position_secs: Double) -> bool {
    bounds::within(position_secs, 548)
}

/// A decoder starts at a position that can be reached, and stays at such positions.
pub proof fn law_position_stays_finite<A: Fn(Double, Double) -> Double>(
    atan2: A,
    v: DecoderView,
    stereo: Seq<Single>,
    w: DecoderView,
    out: DecodeOutput,
)
    requires
        decoder::decodes(atan2, v, stereo, w, out),
        stays_within_half_a_turn(atan2),
        finite_block(stereo),
        remembers_finite(v),
        stereo.len() <= usize::MAX,
        single::finite(v.sample_rate),
        single::less(Single { bits: single::ZERO }, v.sample_rate),
        single::finite(v.carrier_hz),
        single::less(Single { bits: single::ZERO }, v.carrier_hz),
        reachable(v.position_secs),
    ensures
        reachable(zero()),
        reachable(w.position_secs),
        double::finite(w.position_secs),
{
    bounds::law_within_is_finite(v.position_secs, 548);
    if stereo.len() > 0 {
        let n = stereo.len() / 2;
        law_rate_is_bounded(atan2, v, stereo, w, out);
        law_position_follows_the_rate(atan2, v, stereo, w, out);
        lemma_rate_of_half_a_turn(v);
        let dt = double::quotient(Double { bits: double::ONE }, single::widened(v.sample_rate));
        bounds::law_count_within(n);
        bounds::law_product_within(double::from_int(n), dt, 64, 150);
        let time = double::product(double::from_int(n), dt);
        bounds::law_product_within(out.rate, time, 281, 214);
        bounds::law_running_sum_within(v.position_secs, double::product(out.rate, time), 495);
        bounds::law_within_is_finite(w.position_secs, 548);
    }
}

} // verus!
