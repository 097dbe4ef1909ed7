//! When a deck follows its record, when it holds the rate, and when it lets go.

use vstd::arithmetic::power2::*;
use vstd::prelude::*;

use crate::ieee::arith;
use crate::ieee::binary;
use crate::ieee::exact;
use crate::ieee::exact::single_value;
use crate::ieee::identities;
use crate::ieee::single;
use crate::ieee::single::Single;
use crate::timecode::decoder::DecodeOutput;
use crate::timecode::lift;
use crate::timecode::lift::AttachError;
use crate::timecode::lift::LiftIntent;
use crate::timecode::lift::PolicyView;
use crate::timecode::lift::TimecodeInputConfig;

verus! {

/// A block as loud as the amplitude threshold and as sure as the upper one is followed, whatever came
/// before.
pub proof fn law_sure_blocks_are_followed(p: PolicyView, out: DecodeOutput)
    requires
        single::at_most(p.amplitude_threshold, out.amplitude),
        single::at_most(p.engage_threshold, out.confidence),
    ensures
        ({
            let (q, intent) = lift::stepped(p, out);
            &&& q.engaged
            &&& q.last_locked_rate == out.rate
            &&& q.consecutive_below == 0
            &&& intent == (LiftIntent::Locked { rate: out.rate })
        }),
{
}

/// A block that is too quiet, or less sure than the upper threshold, is never followed: the rate stays
/// what it was, and who has let go does not take hold.
pub proof fn law_unsure_blocks_are_not_followed(p: PolicyView, out: DecodeOutput)
    requires
        !single::at_most(p.amplitude_threshold, out.amplitude) || !single::at_most(
            p.engage_threshold,
            out.confidence,
        ),
    ensures
        ({
            let (q, intent) = lift::stepped(p, out);
            &&& q.last_locked_rate == p.last_locked_rate
            &&& q.engaged ==> p.engaged
            &&& intent == (if q.engaged {
                LiftIntent::Locked { rate: p.last_locked_rate }
            } else {
                LiftIntent::DropoutHoldRate { rate: p.last_locked_rate }
            })
            &&& !p.engaged ==> q == p
        }),
{
}

/// Between the thresholds, and loud enough, who holds goes on holding.
pub proof fn law_fair_blocks_are_held(p: PolicyView, out: DecodeOutput)
    requires
        p.engaged,
        single::at_most(p.amplitude_threshold, out.amplitude),
        single::at_most(p.disengage_threshold, out.confidence),
    ensures
        lift::stepped(p, out).0.engaged,
        lift::stepped(p, out).0.consecutive_below == 0,
{
}

/// A block that is too quiet, or less sure than the lower threshold, counts; the one that fills the
/// window lets go.
pub proof fn law_lost_blocks_count(p: PolicyView, out: DecodeOutput)
    requires
        p.engaged,
        p.consecutive_below < u32::MAX,
        single::at_most(p.disengage_threshold, p.engage_threshold),
        !single::at_most(p.amplitude_threshold, out.amplitude) || single::less(
            out.confidence,
            p.disengage_threshold,
        ),
    ensures
        ({
            let q = lift::stepped(p, out).0;
            &&& q.consecutive_below == p.consecutive_below + 1
            &&& q.engaged <==> p.consecutive_below + 1 < p.sticky_blocks_to_disengage
        }),
{
}

/// The thresholds themselves never change.
pub proof fn law_thresholds_stay(p: PolicyView, out: DecodeOutput)
    ensures
        ({
            let q = lift::stepped(p, out).0;
            &&& q.amplitude_threshold == p.amplitude_threshold
            &&& q.engage_threshold == p.engage_threshold
            &&& q.disengage_threshold == p.disengage_threshold
            &&& q.sticky_blocks_to_disengage == p.sticky_blocks_to_disengage
        }),
{
}

/// A new follower has let go, with the thresholds that it was configured with.
pub proof fn law_configuration_is_taken_over(c: TimecodeInputConfig)
    ensures
        ({
            let p = lift::fresh(c);
            &&& !p.engaged
            &&& p.consecutive_below == 0
            &&& p.engage_threshold == c.confidence_threshold
            &&& p.disengage_threshold == c.disengage_threshold
            &&& p.amplitude_threshold == c.amplitude_threshold
            &&& p.sticky_blocks_to_disengage == c.sticky_blocks_to_disengage
        }),
{
}

/// A configuration that is accepted has a block size, a lower threshold that is not above the upper
/// one, and an amplitude that is finite and not negative. What is refused is refused for the first of
/// these that is missing, once the sample rates agree.
pub proof fn law_configurations_are_checked(c: TimecodeInputConfig, engine_sr: Single)
    requires
        c.input_sample_rate == engine_sr,
        single::finite(engine_sr),
    ensures
        ({
            let sized = c.max_block_frames > 0;
            let ordered = single::at_most(c.disengage_threshold, c.confidence_threshold);
            let sound = single::finite(c.amplitude_threshold) && !single::less(
                c.amplitude_threshold,
                Single { bits: single::ZERO },
            );
            &&& lift::fault(c, engine_sr) is None <==> sized && ordered && sound
            &&& lift::fault(c, engine_sr) == Some(AttachError::BadBlockSize) <==> !sized
            &&& sized && !ordered ==> lift::fault(c, engine_sr) == Some(
                AttachError::InvalidHysteresis {
                    engage: c.confidence_threshold,
                    disengage: c.disengage_threshold,
                },
            )
            &&& sized && ordered && !sound ==> lift::fault(c, engine_sr) == Some(
                AttachError::InvalidAmplitudeThreshold { value: c.amplitude_threshold },
            )
        }),
{
    identities::law_difference_with_itself(engine_sr);
}

/// Rates within half a hertz of each other agree, and others do not.
pub proof fn lemma_rates_differ(a: Single, b: Single)
    requires
        single::finite(a),
        single::finite(b),
        exact::abs(single_value(a)) <= pow2(200),
        exact::abs(single_value(b)) <= pow2(200),
    ensures
        ({
            let apart = exact::abs(single_value(a) - single_value(b));
            &&& apart + pow2(128) <= pow2(148) ==> !lift::rates_differ(a, b)
            &&& apart >= pow2(148) + pow2(128) ==> lift::rates_differ(a, b)
        }),
{
    let d = single::difference(a, b);
    let f = arith::single();
    let y = arith::Signed { neg: !b@.neg, mag: b@.mag };
    let apart = exact::abs(single_value(a) - single_value(b)) as int;
    lemma2_to64();
    lemma2_to64_rest();
    exact::lemma_top();
    lemma_pow2_unfold(201);
    lemma_pow2_strictly_increases(201, 277);
    exact::lemma_sum_is_close(f, a@, y);
    reveal(single::difference);
    assert(d@ == arith::sum(f, a@, y));
    let half = Single { bits: lift::RATE_TOLERANCE };
    binary::lemma_worth_of_encode(24, 0x80_0000, 125);
    assert(binary::encode(24, 0x80_0000, 125) == lift::RATE_TOLERANCE);
    lemma_pow2_adds(23, 125);
    assert(single_value(half) == pow2(148));
    let m = single::magnitude(d);
    let off = exact::abs(single_value(d) - (single_value(a) - single_value(b))) as int;
    let big = pow2(128) as int;
    lemma_pow2_adds(20, 128);
    lemma_pow2_pos(128);
    assert(apart + big <= pow2(148) ==> off < big) by (nonlinear_arith)
        requires
            pow2(24) * off <= apart,
            pow2(24) == 0x100_0000,
            pow2(148) == 0x10_0000 * big,
            big > 0,
    ;
    assert(apart >= pow2(148) + big ==> apart - off > pow2(148)) by (nonlinear_arith)
        requires
            pow2(24) * off <= apart,
            pow2(24) == 0x100_0000,
            pow2(148) == 0x10_0000 * big,
            big > 0,
            off >= 0,
    ;
    arith::law_magnitudes_order_values(f, m@, half@);
}

/// Sample rates agree if they are within half a hertz of each other, and disagree if they are not. Up
/// to a part in a million of that half, either way, is left open.
pub proof fn law_sample_rates_must_agree(c: TimecodeInputConfig, engine_sr: Single)
    requires
        single::finite(c.input_sample_rate),
        single::finite(engine_sr),
        exact::abs(single_value(c.input_sample_rate)) <= pow2(200),
        exact::abs(single_value(engine_sr)) <= pow2(200),
    ensures
        ({
            let apart = exact::abs(single_value(c.input_sample_rate) - single_value(engine_sr));
            let refused = lift::fault(c, engine_sr) == Some(
                AttachError::SampleRateMismatch { input_sr: c.input_sample_rate, engine_sr },
            );
            &&& apart + pow2(128) <= pow2(148) ==> !refused
            &&& apart >= pow2(148) + pow2(128) ==> refused
        }),
{
    lemma_rates_differ(c.input_sample_rate, engine_sr);
}

} // verus!
