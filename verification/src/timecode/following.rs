//! What a decoder remembers from block to block, and what its follower makes of a block.

use vstd::prelude::*;

use crate::ieee::arith;
use crate::ieee::binary;
use crate::ieee::bounds;
use crate::ieee::double;
use crate::ieee::double::Double;
use crate::ieee::exact;
use crate::ieee::identities;
use crate::ieee::single;
use crate::ieee::single::Single;
use crate::timecode::coherence;
use crate::timecode::decoder;
use crate::timecode::decoder::DecodeOutput;
use crate::timecode::decoder::DecoderView;
use crate::timecode::format::Format;
use crate::timecode::input;
use crate::timecode::input::FollowerView;
use crate::timecode::lift;
use crate::timecode::lift::LiftIntent;
use crate::timecode::turning;

verus! {

/// A new decoder has heard nothing and stands at the start.
pub proof fn law_new_decoders_have_heard_nothing(f: Format, sample_rate: Single)
    ensures
        ({
            let v = decoder::fresh(f, sample_rate);
            &&& !v.primed
            &&& v.prev_re@.mag == 0
            &&& v.prev_im@.mag == 0
            &&& v.position_secs == (Double { bits: double::ZERO })
            &&& v.sample_rate == sample_rate
            &&& v.carrier_hz == single::from_int(crate::timecode::format::carrier(f))
        }),
{
}

/// A decoder that was reset has heard nothing and stands at the start, at the rates that it had.
pub proof fn law_reset_forgets_what_was_heard(v: DecoderView)
    ensures
        ({
            let w = decoder::cleared(v);
            &&& !w.primed
            &&& w.prev_re@.mag == 0
            &&& w.prev_im@.mag == 0
            &&& w.position_secs == (Double { bits: double::ZERO })
            &&& w.sample_rate == v.sample_rate
            &&& w.carrier_hz == v.carrier_hz
        }),
{
}

/// After a block of sixteen-bit audio a decoder remembers its last frame, so that the first turn of
/// the next block starts there: the cosine on the right and the sine on the left.
pub proof fn law_decoders_remember_the_last_frame<A: Fn(Double, Double) -> Double>(
    atan2: A,
    v: DecoderView,
    stereo: Seq<Single>,
    m: Seq<int>,
    w: DecoderView,
    out: DecodeOutput,
)
    requires
        decoder::decodes(atan2, v, stereo, w, out),
        coherence::sixteen_bit_block(stereo, m),
        stereo.len() > 0,
        stereo.len() % 2 == 0,
    ensures
        w.primed,
        coherence::steps(w.prev_re, m[stereo.len() - 1]),
        coherence::steps(w.prev_im, m[stereo.len() - 2]),
        w.sample_rate == v.sample_rate,
        w.carrier_hz == v.carrier_hz,
        w.position_secs == out.position_secs,
{
    let n = stereo.len() as int / 2;
    assert(2 * (n - 1) == stereo.len() - 2);
    assert(exact::sixteen_bit(stereo[2 * (n - 1)], m[2 * (n - 1)]));
    assert(exact::sixteen_bit(stereo[2 * (n - 1) + 1], m[2 * (n - 1) + 1]));
    coherence::lemma_widened_steps(stereo[2 * (n - 1)], m[2 * (n - 1)]);
    coherence::lemma_widened_steps(stereo[2 * (n - 1) + 1], m[2 * (n - 1) + 1]);
}

/// The first frame of all has nothing to turn from: it gives no rate and no confidence, and the
/// position stays.
pub proof fn law_the_first_frame_does_not_turn<A: Fn(Double, Double) -> Double>(
    atan2: A,
    v: DecoderView,
    stereo: Seq<Single>,
    w: DecoderView,
    out: DecodeOutput,
)
    requires
        decoder::decodes(atan2, v, stereo, w, out),
        turning::finite_block(stereo),
        turning::remembers_finite(v),
        !v.primed,
        stereo.len() == 2,
        single::finite(v.sample_rate),
        single::less(Single { bits: single::ZERO }, v.sample_rate),
        single::finite(v.carrier_hz),
        single::less(Single { bits: single::ZERO }, v.carrier_hz),
        v.position_secs@.mag <= binary::DOUBLE_INF,
        v.position_secs.bits != 0x8000_0000_0000_0000,
    ensures
        out.rate@.mag == 0,
        out.confidence == (Single { bits: single::ZERO }),
        out.position_secs == v.position_secs,
{
    let s = decoder::sums(v, stereo, 1);
    let t = decoder::sums(v, stereo, 0);
    assert(s.re == t.re && s.im == t.im && s.turns == 0);
    assert(stereo.len() / 2 == 1);
    arith::lemma_zero_is_worth_nothing(53);
    coherence::law_blocks_are_as_coherent_as_their_turns(atan2, v, stereo, w, out);
    assert(0 * 0 == 0);
    let phase = choose|phase: Double| #[trigger]
        decoder::is_phase(atan2, s, phase) && out == decoder::concluded(
            decoder::heard(v, stereo),
            s,
            phase,
        ) && w == (DecoderView { position_secs: out.position_secs, ..decoder::heard(v, stereo) });
    turning::lemma_rate_of_half_a_turn(v);
    bounds::law_widened_worth(v.carrier_hz);
    let dt = double::quotient(Double { bits: double::ONE }, single::widened(v.sample_rate));
    let turn = double::product(Double { bits: decoder::TAU }, dt);
    identities::law_double_multiples_of_zero(phase, turn);
    let q = double::quotient(phase, turn);
    identities::law_double_multiples_of_zero(q, single::widened(v.carrier_hz));
    bounds::law_count_within(1);
    bounds::law_product_within(double::from_int(1), dt, 64, 150);
    let time = double::product(double::from_int(1), dt);
    bounds::law_within_is_finite(time, 214);
    decoder::lemma_counts(v, stereo, 1);
    identities::law_double_multiples_of_zero(out.rate, time);
    identities::law_double_sum_with_either_zero(
        v.position_secs,
        double::product(out.rate, time),
    );
}

/// A follower decodes the whole frames of a block, from the first one on, and hands what comes of it to
/// its policy; half a frame at the end is left out, and less than a frame changes nothing.
pub proof fn law_followers_decode_whole_frames<A: Fn(Double, Double) -> Double>(
    atan2: A,
    v: FollowerView,
    w: FollowerView,
    block: Seq<Single>,
    intent: Option<LiftIntent>,
)
    requires
        input::followed(atan2, v, w, block, intent),
    ensures
        block.len() < 2 ==> w == v && intent is None,
        block.len() >= 2 ==> {
            let n = block.len() as int / 2;
            &&& w.last_output matches Some(out) && decoder::decodes(
                atan2,
                v.decoder,
                block.take(2 * n),
                w.decoder,
                out,
            ) && w.policy == lift::stepped(v.policy, out).0 && intent == Some(
                lift::stepped(v.policy, out).1,
            )
        },
{
    assert(input::whole_frames(block) =~= block.take(2 * (block.len() as int / 2)));
}

/// An input takes what there is room for, goes on where the last block ended, and follows exactly what it
/// took.
pub proof fn law_inputs_follow_what_they_take<A: Fn(Double, Double) -> Double>(
    atan2: A,
    v: input::InputView,
    w: input::InputView,
    received: Seq<Single>,
    intent: Option<LiftIntent>,
)
    requires
        input::drove(atan2, v, w, received, intent),
    ensures
        received.len() <= v.room,
        w.room == v.room,
        w.intake.taken == v.intake.taken + received,
        w.intake.asked == v.intake.asked + v.room,
        w.intake.channel == v.intake.channel,
        input::followed(atan2, v.follower, w.follower, received, intent),
{
}

} // verus!
