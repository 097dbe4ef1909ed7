//! The record that turns the other way: the same motion with the opposite sign.

use vstd::arithmetic::power2::*;
use vstd::prelude::*;

use crate::ieee::arith;
use crate::ieee::arith::Signed;
use crate::ieee::binary;
use crate::ieee::bounds;
use crate::ieee::convert;
use crate::ieee::double;
use crate::ieee::double::Double;
use crate::ieee::single;
use crate::ieee::single::Single;
use crate::timecode::decoder;
use crate::timecode::decoder::DecodeOutput;
use crate::timecode::decoder::DecoderView;
use crate::timecode::format::Format;
use crate::timecode::turning;

verus! {

/// The numbers are each other's negatives. The two zeros are equal.
pub open spec fn opposite(a: Double, b: Double) -> bool {
    a@.mag == b@.mag && (a@.mag == 0 || a@.neg != b@.neg)
}

/// The numbers are equal, as the two zeros are.
spec fn alike(a: Double, b: Double) -> bool {
    a@.mag == b@.mag && (a@.mag == 0 || a@.neg == b@.neg)
}

/// The negative of a sample.
pub open spec fn negated(a: Single) -> Single {
    single::of(Signed { neg: !a@.neg, mag: a@.mag })
}

/// A block with the sign of its sine channel changed.
pub open spec fn reversed(stereo: Seq<Single>) -> Seq<Single> {
    Seq::new(
        stereo.len(),
        |i: int|
            if i % 2 == 0 {
                negated(stereo[i])
            } else {
                stereo[i]
            },
    )
}

/// One decoder has heard what the other one has, the other way round.
pub open spec fn mirrored(v: DecoderView, m: DecoderView) -> bool {
    &&& m.sample_rate == v.sample_rate
    &&& m.carrier_hz == v.carrier_hz
    &&& m.primed == v.primed
    &&& m.prev_re == v.prev_re
    &&& opposite(m.prev_im, v.prev_im)
    &&& opposite(m.position_secs, v.position_secs)
}

proof fn lemma_value_of_opposite(x: Signed, y: Signed)
    requires
        x.mag == y.mag,
        x.mag == 0 || x.neg != y.neg,
    ensures
        arith::value(arith::double(), x) == -arith::value(arith::double(), y),
{
    arith::lemma_zero_is_worth_nothing(53);
}

proof fn lemma_value_of_alike(x: Signed, y: Signed)
    requires
        x.mag == y.mag,
        x.mag == 0 || x.neg == y.neg,
    ensures
        arith::value(arith::double(), x) == arith::value(arith::double(), y),
{
    arith::lemma_zero_is_worth_nothing(53);
}

/// A nonzero sum does not round to zero.
proof fn lemma_rounds_to_something(v: nat)
    requires
        v > 0,
    ensures
        0 < binary::nearest(53, binary::DOUBLE_INF as nat, v, 1) <= binary::DOUBLE_INF,
{
    let inf = binary::DOUBLE_INF as nat;
    lemma2_to64();
    lemma2_to64_rest();
    binary::lemma_worth_of_encode(53, 1, 0);
    assert(binary::encode(53, 1, 0) == 1);
    assert(binary::worth(53, 1) * 1 == 1);
    binary::lemma_nearest_exact(53, inf, 1, 1, 1);
    binary::law_rounding_is_monotone(53, inf, 1, v, 1);
}

/// The sum of opposites is opposite.
proof fn lemma_opposite_terms(a: Signed, b: Signed, x: Signed, y: Signed)
    requires
        a.mag < binary::DOUBLE_INF,
        b.mag < binary::DOUBLE_INF,
        x.mag == a.mag,
        x.mag == 0 || x.neg != a.neg,
        y.mag == b.mag,
        y.mag == 0 || y.neg != b.neg,
    ensures
        ({
            let p = arith::sum(arith::double(), x, y);
            let q = arith::sum(arith::double(), a, b);
            &&& p.mag == q.mag <= binary::DOUBLE_INF
            &&& p.mag == 0 || p.neg != q.neg
        }),
{
    let f = arith::double();
    reveal(arith::sum);
    lemma_value_of_opposite(x, a);
    lemma_value_of_opposite(y, b);
    let v = arith::value(f, a) + arith::value(f, b);
    let n = if v < 0 {
        (-v) as nat
    } else {
        v as nat
    };
    binary::law_rounding_is_monotone(53, f.inf, n, n, 1);
}

/// Sums and differences of opposites are opposite.
proof fn lemma_opposite_sums(a: Double, b: Double, x: Double, y: Double)
    requires
        double::finite(a),
        double::finite(b),
        opposite(x, a),
        opposite(y, b),
    ensures
        opposite(double::sum(x, y), double::sum(a, b)),
        opposite(double::difference(x, y), double::difference(a, b)),
{
    reveal(double::sum);
    reveal(double::difference);
    lemma_opposite_terms(a@, b@, x@, y@);
    lemma_opposite_terms(
        a@,
        Signed { neg: !b@.neg, mag: b@.mag },
        x@,
        Signed { neg: !y@.neg, mag: y@.mag },
    );
}

/// Sums of what is alike are alike.
proof fn lemma_alike_sums(a: Double, b: Double, x: Double, y: Double)
    requires
        double::finite(a),
        double::finite(b),
        alike(x, a),
        alike(y, b),
    ensures
        alike(double::sum(x, y), double::sum(a, b)),
{
    let f = arith::double();
    reveal(double::sum);
    reveal(arith::sum);
    lemma_value_of_alike(x@, a@);
    lemma_value_of_alike(y@, b@);
    let v = arith::value(f, a@) + arith::value(f, b@);
    let p = if v < 0 {
        (-v) as nat
    } else {
        v as nat
    };
    binary::law_rounding_is_monotone(53, f.inf, p, p, 1);
}

/// A sum of finite numbers that does not start from a negative zero is no negative zero.
proof fn lemma_no_negative_zero(a: Double, b: Double)
    requires
        double::finite(a),
        double::finite(b),
        a@.neg ==> a@.mag > 0,
    ensures
        double::sum(a, b)@.neg ==> double::sum(a, b)@.mag > 0,
{
    let f = arith::double();
    reveal(double::sum);
    reveal(arith::sum);
    let v = arith::value(f, a@) + arith::value(f, b@);
    arith::lemma_zero_is_worth_nothing(53);
    if a@.mag > 0 {
        binary::lemma_worth_increases(53, 0, a@.mag);
    }
    if v > 0 {
        lemma_rounds_to_something(v as nat);
    }
    if v < 0 {
        lemma_rounds_to_something((-v) as nat);
    }
}

/// A product with one factor replaced by its opposite is opposite; with both, it is alike.
proof fn lemma_opposite_products(a: Double, b: Double, x: Double, y: Double)
    requires
        double::finite(a),
        double::finite(b),
        opposite(x, a),
        opposite(y, b),
    ensures
        opposite(double::product(x, b), double::product(a, b)),
        opposite(double::product(a, y), double::product(a, b)),
        alike(double::product(x, y), double::product(a, b)),
        double::product(x, x) == double::product(a, a),
{
    let f = arith::double();
    reveal(double::product);
    reveal(arith::product);
    arith::lemma_zero_is_worth_nothing(53);
    lemma_pow2_pos(f.unit);
    let va = binary::worth(53, a@.mag);
    let vb = binary::worth(53, b@.mag);
    binary::law_rounding_is_monotone(53, f.inf, va * vb, va * vb, pow2(f.unit));
    binary::law_rounding_is_monotone(53, f.inf, va * va, va * va, pow2(f.unit));
    assert(0 * vb == 0 && va * 0 == 0);
    binary::lemma_nearest_exact(53, f.inf, 0, pow2(f.unit), 0);
}

/// A quotient of the opposite is opposite.
proof fn lemma_opposite_quotients(a: Double, x: Double, d: Double)
    requires
        a@.mag <= binary::DOUBLE_INF,
        opposite(x, a),
        double::finite(d),
        d@.mag > 0,
    ensures
        opposite(double::quotient(x, d), double::quotient(a, d)),
{
    let f = arith::double();
    reveal(double::quotient);
    reveal(arith::quotient);
    arith::lemma_zero_is_worth_nothing(53);
    binary::lemma_worth_increases(53, 0, d@.mag);
    let w = binary::worth(53, d@.mag);
    let num = binary::worth(53, a@.mag) * pow2(f.unit);
    binary::law_rounding_is_monotone(53, f.inf, num, num, w);
    assert(0 * pow2(f.unit) == 0);
    binary::lemma_nearest_exact(53, f.inf, 0, w, 0);
}

/// The negative of a sample is widened to the opposite.
proof fn lemma_negated_sample(a: Single)
    requires
        single::finite(a),
    ensures
        opposite(single::widened(negated(a)), single::widened(a)),
        single::finite(negated(a)),
{
    bounds::law_widened_within(a);
    bounds::law_widened_within(negated(a));
    reveal(single::widened);
    reveal(convert::widened);
    assert(negated(a)@ == (Signed { neg: !a@.neg, mag: a@.mag }));
    let w = binary::worth(24, a@.mag) * pow2(convert::NARROWING as nat);
    binary::law_rounding_is_monotone(53, binary::DOUBLE_INF as nat, w, w, 1);
    assert(single::widened(a)@ == convert::widened(a@));
    assert(single::widened(negated(a))@ == convert::widened(negated(a)@));
}

/// The sums over the reversed block: the same power and real part, the opposite imaginary part.
proof fn lemma_mirrored_sums(v: DecoderView, m: DecoderView, stereo: Seq<Single>, n: nat)
    requires
        mirrored(v, m),
        turning::finite_block(stereo),
        turning::remembers_finite(v),
        2 * n <= stereo.len(),
    ensures
        ({
            let s = decoder::sums(v, stereo, n);
            let t = decoder::sums(m, reversed(stereo), n);
            &&& t.re == s.re
            &&& opposite(t.im, s.im)
            &&& t.power == s.power
            &&& t.turns == s.turns
            &&& t.frames == s.frames
            &&& s.re@.neg ==> s.re@.mag > 0
        }),
    decreases n,
{
    if n > 0 {
        let k = n - 1;
        let other = reversed(stereo);
        lemma_mirrored_sums(v, m, stereo, k as nat);
        turning::lemma_sums_are_finite(v, stereo, k as nat);
        let s = decoder::sums(v, stereo, k as nat);
        let t = decoder::sums(m, other, k as nat);
        bounds::law_within_is_finite(s.re, 310);
        bounds::law_within_is_finite(s.im, 310);
        let im = decoder::im_at(stereo, k);
        let re = decoder::re_at(stereo, k);
        let im2 = decoder::im_at(other, k);
        let (pr, pi, primed) = decoder::previous(v, stereo, k);
        let (qr, qi, primed2) = decoder::previous(m, other, k);
        assert(other[2 * k] == negated(stereo[2 * k]));
        assert(other[2 * k + 1] == stereo[2 * k + 1]);
        lemma_negated_sample(stereo[2 * k]);
        bounds::law_widened_within(stereo[2 * k]);
        bounds::law_widened_within(stereo[2 * k + 1]);
        if k > 0 {
            assert(other[2 * (k - 1)] == negated(stereo[2 * (k - 1)]));
            assert(other[2 * (k - 1) + 1] == stereo[2 * (k - 1) + 1]);
            lemma_negated_sample(stereo[2 * (k - 1)]);
            bounds::law_widened_within(stereo[2 * (k - 1)]);
            bounds::law_widened_within(stereo[2 * (k - 1) + 1]);
        }
        bounds::law_within_is_finite(im, 128);
        bounds::law_within_is_finite(re, 128);
        bounds::law_within_is_finite(pr, 128);
        bounds::law_within_is_finite(pi, 128);
        bounds::law_product_within(re, pr, 128, 128);
        bounds::law_product_within(im, pi, 128, 128);
        bounds::law_product_within(im, pr, 128, 128);
        bounds::law_product_within(re, pi, 128, 128);
        bounds::law_within_is_finite(double::product(re, pr), 256);
        bounds::law_within_is_finite(double::product(im, pi), 256);
        bounds::law_within_is_finite(double::product(im, pr), 256);
        bounds::law_within_is_finite(double::product(re, pi), 256);
        lemma_opposite_products(im, pi, im2, qi);
        lemma_opposite_products(im, pr, im2, opposite_of(pr));
        lemma_opposite_products(re, pi, opposite_of(re), qi);
        // The real part.
        let a = double::product(re, pr);
        let b = double::product(im, pi);
        let b2 = double::product(im2, qi);
        lemma_alike_sums(a, b, a, b2);
        bounds::law_sum_within(a, b, 256);
        bounds::law_within_is_finite(double::sum(a, b), 257);
        lemma_alike_sums(s.re, double::sum(a, b), s.re, double::sum(a, b2));
        bounds::law_within_is_finite(s.re, 310);
        lemma_no_negative_zero(s.re, double::sum(a, b));
        let sum = double::sum(a, b2);
        assert(double::finite(sum));
        lemma_no_negative_zero(s.re, sum);
        lemma_same_by_view(double::sum(s.re, sum), double::sum(s.re, double::sum(a, b)));
        // The imaginary part.
        let c = double::product(im, pr);
        let d = double::product(re, pi);
        let c2 = double::product(im2, pr);
        let d2 = double::product(re, qi);
        lemma_opposite_sums(c, d, c2, d2);
        bounds::law_sum_within(c, d, 256);
        bounds::law_within_is_finite(double::difference(c, d), 257);
        lemma_opposite_sums(
            s.im,
            double::difference(c, d),
            t.im,
            double::difference(c2, d2),
        );
    }
}

/// Some opposite of a number.
spec fn opposite_of(a: Double) -> Double {
    double::of(Signed { neg: !a@.neg, mag: a@.mag })
}

/// Numbers that are alike and no negative zeros are the same.
proof fn lemma_same_by_view(a: Double, b: Double)
    requires
        alike(a, b),
        a@.neg ==> a@.mag > 0,
        b@.neg ==> b@.mag > 0,
    ensures
        a == b,
{
}

/// The direction of a mirrored finite vector is the opposite one. The direction straight back, whose
/// sign rests on that of a zero, is left out.
pub open spec fn is_odd<A: Fn(Double, Double) -> Double>(atan2: A) -> bool {
    forall|y: Double, z: Double, x: Double, p: Double, q: Double|
        #![trigger call_ensures(atan2, (y, x), p), call_ensures(atan2, (z, x), q)]
        double::finite(y) && double::finite(x) && opposite(z, y) && !(y@.mag == 0 && x@.neg)
            && call_ensures(atan2, (y, x), p) && call_ensures(atan2, (z, x), q) ==> opposite(q, p)
}

/// The sum of turns of a block points straight back: its rate is exactly at the alias limit.
pub open spec fn at_alias_limit(v: DecoderView, stereo: Seq<Single>) -> bool {
    let s = decoder::sums(v, stereo, stereo.len() / 2);
    s.turns > 0 && s.im@.mag == 0 && s.re@.neg
}

/// A record that turns the other way is the same motion with the opposite sign: where a block has
/// its sine channel negated, a decoder that heard everything the other way round finds the
/// opposite rate and position, and the same amplitude and confidence. The decoders stay mirrored
/// from block to block.
pub proof fn law_reversed_records_decode_to_the_opposite<A: Fn(Double, Double) -> Double>(
    atan2: A,
    v: DecoderView,
    m: DecoderView,
    stereo: Seq<Single>,
    w: DecoderView,
    out: DecodeOutput,
    w2: DecoderView,
    out2: DecodeOutput,
)
    requires
        mirrored(v, m),
        is_odd(atan2),
        turning::stays_within_half_a_turn(atan2),
        turning::finite_block(stereo),
        turning::remembers_finite(v),
        turning::reachable(v.position_secs),
        stereo.len() % 2 == 0,
        stereo.len() <= usize::MAX,
        single::finite(v.sample_rate),
        single::less(Single { bits: single::ZERO }, v.sample_rate),
        single::finite(v.carrier_hz),
        single::less(Single { bits: single::ZERO }, v.carrier_hz),
        !at_alias_limit(v, stereo),
        decoder::decodes(atan2, v, stereo, w, out),
        decoder::decodes(atan2, m, reversed(stereo), w2, out2),
    ensures
        opposite(out2.rate, out.rate),
        opposite(out2.position_secs, out.position_secs),
        out2.amplitude == out.amplitude,
        out2.confidence == out.confidence,
        mirrored(w, w2),
{
    if stereo.len() > 0 {
        let n = stereo.len() / 2;
        let other = reversed(stereo);
        let s = decoder::sums(v, stereo, n);
        let t = decoder::sums(m, other, n);
        let hv = decoder::heard(v, stereo);
        let hm = decoder::heard(m, other);
        lemma_mirrored_sums(v, m, stereo, n);
        turning::lemma_sums_are_finite(v, stereo, n);
        bounds::law_within_is_finite(s.im, 310);
        bounds::law_within_is_finite(s.re, 310);
        decoder::lemma_counts(v, stereo, n);
        let k = n - 1;
        assert(other[2 * k] == negated(stereo[2 * k]));
        assert(other[2 * k + 1] == stereo[2 * k + 1]);
        lemma_negated_sample(stereo[2 * k]);
        let phase = choose|phase: Double| #[trigger]
            decoder::is_phase(atan2, s, phase) && out == decoder::concluded(hv, s, phase) && w == (
            DecoderView { position_secs: out.position_secs, ..hv });
        let turned = choose|phase: Double| #[trigger]
            decoder::is_phase(atan2, t, phase) && out2 == decoder::concluded(hm, t, phase)
                && w2 == (DecoderView { position_secs: out2.position_secs, ..hm });
        assert(opposite(turned, phase));
        // The rate.
        turning::lemma_half_turn();
        turning::lemma_rate_of_half_a_turn(v);
        turning::law_rate_is_bounded(atan2, v, stereo, w, out);
        bounds::law_widened_worth(v.carrier_hz);
        let dt = double::quotient(Double { bits: double::ONE }, single::widened(v.sample_rate));
        let turn = double::product(Double { bits: decoder::TAU }, dt);
        let half = Double { bits: turning::HALF_TURN };
        assert(phase@.mag <= half@.mag);
        lemma_opposite_quotients(phase, turned, turn);
        bounds::law_quotient_grows(phase, half, turn);
        lemma_opposite_quotients(
            double::quotient(phase, turn),
            double::quotient(turned, turn),
            single::widened(v.carrier_hz),
        );
        assert(opposite(out2.rate, out.rate));
        // The position.
        bounds::law_count_within(n);
        bounds::law_product_within(double::from_int(n), dt, 64, 150);
        let time = double::product(double::from_int(n), dt);
        bounds::law_within_is_finite(time, 214);
        bounds::law_within_is_finite(out.rate, 281);
        bounds::law_product_within(out.rate, time, 281, 214);
        lemma_opposite_products(out.rate, time, out2.rate, opposite_of(time));
        bounds::law_within_is_finite(double::product(out.rate, time), 495);
        bounds::law_within_is_finite(v.position_secs, 548);
        lemma_opposite_sums(
            v.position_secs,
            double::product(out.rate, time),
            m.position_secs,
            double::product(out2.rate, time),
        );
        assert(opposite(out2.position_secs, out.position_secs));
        // The length of the sum of turns.
        lemma_opposite_products(s.im, s.im, t.im, t.im);
    }
}

/// Decoders that have heard nothing are mirrored.
pub proof fn law_new_decoders_are_mirrored(format: Format, sample_rate: Single, v: DecoderView)
    ensures
        mirrored(decoder::fresh(format, sample_rate), decoder::fresh(format, sample_rate)),
        mirrored(decoder::cleared(v), decoder::cleared(v)),
{
}

} // verus!
