//! The decoder: playback rate and position from the phase of the carrier.
//!
//! The left channel carries the sine and the right one the cosine of one phase.
//! Taken as one complex number per frame, the record turns it forward or backward;
//! the sum over a block of each number times the conjugate of the one before it
//! points in the direction of the mean turn.

use vstd::arithmetic::power2::*;
use vstd::prelude::*;

use crate::ieee::binary;
use crate::ieee::convert;
use crate::ieee::double;
use crate::ieee::double::Double;
use crate::ieee::identities;
use crate::ieee::single;
use crate::ieee::single::Single;
use crate::timecode::format::Format;

verus! {

/// Bits of a full turn in double precision.
pub const TAU: u64 = 0x4019_21fb_5444_2d18;

/// Bits of the power below which a block has no direction.
pub const POWER_FLOOR: u64 = 0x3d71_9799_812d_ea11;

/// What a block of timecode decodes to.
#[derive(Clone, Copy, Debug, PartialEq, Eq, Structural)]
pub struct DecodeOutput {
    /// Playback rate: one is forward at nominal speed.
    pub rate: Double,
    /// Position since the start, in seconds at nominal speed.
    pub position_secs: Double,
    /// Root mean square of the signal.
    pub amplitude: Single,
    /// How much of the signal turns as one, from zero to one.
    pub confidence: Single,
}

/// The sums over a block.
#[derive(Clone, Copy, Debug, PartialEq, Eq, Structural)]
pub struct BlockSums {
    /// Real part of the sum of turns.
    pub re: Double,
    /// Imaginary part of the sum of turns.
    pub im: Double,
    /// Sum of squared magnitudes.
    pub power: Double,
    /// Number of turns.
    pub turns: usize,
    /// Number of frames.
    pub frames: usize,
}

/// A decoder for one deck.
#[derive(Debug)]
pub struct Decoder {
    sample_rate: Single,
    carrier_hz: Single,
    prev_re: Double,
    prev_im: Double,
    primed: bool,
    position_secs: Double,
}

/// The state of a decoder.
pub ghost struct DecoderView {
    pub sample_rate: Single,
    pub carrier_hz: Single,
    pub prev_re: Double,
    pub prev_im: Double,
    pub primed: bool,
    pub position_secs: Double,
}

pub open spec fn zero() -> Double {
    Double { bits: double::ZERO }
}

/// A decoder that has heard nothing.
pub open spec fn fresh(format: Format, sample_rate: Single) -> DecoderView {
    DecoderView {
        sample_rate,
        carrier_hz: single::from_int(crate::timecode::format::carrier(format)),
        prev_re: zero(),
        prev_im: zero(),
        primed: false,
        position_secs: zero(),
    }
}

/// A decoder that has forgotten what it heard and where it was.
pub open spec fn cleared(v: DecoderView) -> DecoderView {
    DecoderView {
        prev_re: zero(),
        prev_im: zero(),
        primed: false,
        position_secs: zero(),
        ..v
    }
}

/// The imaginary part of frame `k`: its left channel.
pub open spec fn im_at(stereo: Seq<Single>, k: int) -> Double {
    single::widened(stereo[2 * k])
}

/// The real part of frame `k`: its right channel.
pub open spec fn re_at(stereo: Seq<Single>, k: int) -> Double {
    single::widened(stereo[2 * k + 1])
}

/// The number before frame `k`, and whether there is one.
pub open spec fn previous(v: DecoderView, stereo: Seq<Single>, k: int) -> (Double, Double, bool) {
    if k <= 0 {
        (v.prev_re, v.prev_im, v.primed)
    } else {
        (re_at(stereo, k - 1), im_at(stereo, k - 1), true)
    }
}

/// The sums over the first `n` frames.
pub open spec fn sums(v: DecoderView, stereo: Seq<Single>, n: nat) -> BlockSums
    decreases n,
{
    if n == 0 {
        BlockSums { re: zero(), im: zero(), power: zero(), turns: 0, frames: 0 }
    } else {
        let s = sums(v, stereo, (n - 1) as nat);
        let im = im_at(stereo, n - 1);
        let re = re_at(stereo, n - 1);
        let (prev_re, prev_im, primed) = previous(v, stereo, n - 1);
        let power = double::sum(
            s.power,
            double::sum(double::product(re, re), double::product(im, im)),
        );
        let frames = (s.frames + 1) as usize;
        if primed {
            BlockSums {
                re: double::sum(
                    s.re,
                    double::sum(double::product(re, prev_re), double::product(im, prev_im)),
                ),
                im: double::sum(
                    s.im,
                    double::difference(double::product(im, prev_re), double::product(re, prev_im)),
                ),
                power,
                turns: (s.turns + 1) as usize,
                frames,
            }
        } else {
            BlockSums { power, frames, ..s }
        }
    }
}

/// The decoder after it has heard a block, before its position moves.
pub open spec fn heard(v: DecoderView, stereo: Seq<Single>) -> DecoderView {
    let (prev_re, prev_im, primed) = previous(v, stereo, (stereo.len() / 2) as int);
    DecoderView { prev_re, prev_im, primed, ..v }
}

/// The rate that a mean turn of `phase` per sample means.
pub open spec fn rate_of(v: DecoderView, phase: Double) -> Double {
    let dt = double::quotient(Double { bits: double::ONE }, single::widened(v.sample_rate));
    double::quotient(
        double::quotient(phase, double::product(Double { bits: TAU }, dt)),
        single::widened(v.carrier_hz),
    )
}

/// The position after `frames` frames at a rate.
pub open spec fn moved(v: DecoderView, rate: Double, frames: nat) -> Double {
    let dt = double::quotient(Double { bits: double::ONE }, single::widened(v.sample_rate));
    double::sum(
        v.position_secs,
        double::product(rate, double::product(double::from_int(frames), dt)),
    )
}

/// What the sums over a block and the mean turn decode to.
pub open spec fn concluded(v: DecoderView, s: BlockSums, phase: Double) -> DecodeOutput {
    let rate = rate_of(v, phase);
    let mean = double::quotient(s.power, double::from_int(s.frames as nat));
    let length = double::square_root(
        double::sum(double::product(s.re, s.re), double::product(s.im, s.im)),
    );
    DecodeOutput {
        rate,
        position_secs: moved(v, rate, s.frames as nat),
        amplitude: double::narrowed(double::square_root(mean)),
        confidence: if double::less(Double { bits: POWER_FLOOR }, s.power) {
            double::narrowed(
                double::clamped(
                    double::quotient(length, s.power),
                    zero(),
                    Double { bits: double::ONE },
                ),
            )
        } else {
            Single { bits: single::ZERO }
        },
    }
}

/// What a block of no frames decodes to.
pub open spec fn nothing_heard(v: DecoderView) -> DecodeOutput {
    DecodeOutput {
        rate: zero(),
        position_secs: v.position_secs,
        amplitude: Single { bits: single::ZERO },
        confidence: Single { bits: single::ZERO },
    }
}

/// `phase` is the mean turn of a block: what `atan2` can return for the sum of
/// turns, and zero where there are none.
pub open spec fn is_phase<A: Fn(Double, Double) -> Double>(
    atan2: A,
    s: BlockSums,
    phase: Double,
) -> bool {
    if s.turns > 0 {
        call_ensures(atan2, (s.im, s.re), phase)
    } else {
        phase == zero()
    }
}

/// A block turns the decoder `v` into `w` and decodes to `out`.
pub open spec fn decodes<A: Fn(Double, Double) -> Double>(
    atan2: A,
    v: DecoderView,
    stereo: Seq<Single>,
    w: DecoderView,
    out: DecodeOutput,
) -> bool {
    if stereo.len() == 0 {
        w == v && out == nothing_heard(v)
    } else {
        let s = sums(v, stereo, stereo.len() / 2);
        exists|phase: Double|
            #[trigger] is_phase(atan2, s, phase) && out == concluded(heard(v, stereo), s, phase)
                && w == (DecoderView { position_secs: out.position_secs, ..heard(v, stereo) })
    }
}

pub proof fn lemma_counts(v: DecoderView, stereo: Seq<Single>, n: nat)
    requires
        n <= usize::MAX,
    ensures
        sums(v, stereo, n).frames == n,
        sums(v, stereo, n).turns <= n,
    decreases n,
{
    if n > 0 {
        lemma_counts(v, stereo, (n - 1) as nat);
    }
}

/// Every sample of a block is zero.
pub open spec fn silent(stereo: Seq<Single>) -> bool {
    forall|i: int| 0 <= i < stereo.len() ==> (#[trigger] stereo[i])@.mag == 0
}

proof fn lemma_silence_has_no_power(v: DecoderView, stereo: Seq<Single>, n: nat)
    requires
        silent(stereo),
        2 * n <= stereo.len(),
    ensures
        sums(v, stereo, n).power == zero(),
    decreases n,
{
    if n > 0 {
        lemma_silence_has_no_power(v, stereo, (n - 1) as nat);
        identities::law_square_of_a_zero(stereo[2 * (n - 1)]);
        identities::law_square_of_a_zero(stereo[2 * (n - 1) + 1]);
        identities::law_double_zero(1);
    }
}

/// Silence has no amplitude and inspires no confidence, whatever was heard before.
pub proof fn law_silence_inspires_no_confidence<A: Fn(Double, Double) -> Double>(
    atan2: A,
    v: DecoderView,
    stereo: Seq<Single>,
    w: DecoderView,
    out: DecodeOutput,
)
    requires
        decodes(atan2, v, stereo, w, out),
        silent(stereo),
        stereo.len() % 2 == 0,
        stereo.len() <= usize::MAX,
    ensures
        out.amplitude == (Single { bits: single::ZERO }),
        out.confidence == (Single { bits: single::ZERO }),
{
    if stereo.len() > 0 {
        let n = stereo.len() / 2;
        lemma_silence_has_no_power(v, stereo, n);
        lemma_counts(v, stereo, n);
        identities::law_double_zero(n);
        identities::law_narrowed_zero();
    }
}

/// A confidence that is a number lies between zero and one.
pub proof fn law_confidence_is_a_fraction(v: DecoderView, s: BlockSums, phase: Double)
    ensures
        ({
            let c = concluded(v, s, phase).confidence;
            c@.mag <= binary::SINGLE_INF ==> single::at_most(Single { bits: single::ZERO }, c)
                && single::at_most(c, Single { bits: single::ONE })
        }),
{
    let length = double::square_root(
        double::sum(double::product(s.re, s.re), double::product(s.im, s.im)),
    );
    let x = double::clamped(
        double::quotient(length, s.power),
        zero(),
        Double { bits: double::ONE },
    );
    if x@.mag <= binary::DOUBLE_INF {
        identities::law_narrowed_fraction(x);
    } else {
        reveal(double::narrowed);
        reveal(convert::narrowed);
        lemma2_to64();
    }
}

/// A decoder that was reset decodes as a new one does.
pub proof fn law_reset_starts_over<A: Fn(Double, Double) -> Double>(
    atan2: A,
    format: Format,
    v: DecoderView,
    stereo: Seq<Single>,
    w: DecoderView,
    out: DecodeOutput,
)
    requires
        v.carrier_hz == fresh(format, v.sample_rate).carrier_hz,
    ensures
        decodes(atan2, cleared(v), stereo, w, out) <==> decodes(
            atan2,
            fresh(format, v.sample_rate),
            stereo,
            w,
            out,
        ),
{
}

impl Decoder {
    pub closed spec fn view(&self) -> DecoderView {
        DecoderView {
            sample_rate: self.sample_rate,
            carrier_hz: self.carrier_hz,
            prev_re: self.prev_re,
            prev_im: self.prev_im,
            primed: self.primed,
            position_secs: self.position_secs,
        }
    }

    /// A decoder for a format at a positive sample rate.
    pub fn new(format: Format, sample_rate: Single) -> (r: Self)
        requires
            single::less(Single { bits: single::ZERO }, sample_rate),
        ensures
            r@ == fresh(format, sample_rate),
    {
        Decoder {
            sample_rate,
            carrier_hz: format.carrier_hz(),
            prev_re: Double { bits: double::ZERO },
            prev_im: Double { bits: double::ZERO },
            primed: false,
            position_secs: Double { bits: double::ZERO },
        }
    }

    /// Forgets what was heard and returns to the start.
    pub fn reset(&mut self)
        ensures
            final(self)@ == cleared(old(self)@),
    {
        self.prev_re = Double { bits: double::ZERO };
        self.prev_im = Double { bits: double::ZERO };
        self.primed = false;
        self.position_secs = Double { bits: double::ZERO };
    }

    /// Position in seconds at nominal speed.
    pub fn position_secs(&self) -> (r: Double)
        ensures
            r == self@.position_secs,
    {
        self.position_secs
    }

    /// Sums over one block of interleaved stereo.
    pub fn accumulate(&mut self, stereo: &[Single]) -> (r: BlockSums)
        requires
            stereo@.len() % 2 == 0,
        ensures
            r == sums(old(self)@, stereo@, stereo@.len() / 2),
            r.frames == stereo@.len() / 2,
            final(self)@ == heard(old(self)@, stereo@),
    {
        let ghost v = self@;
        let n: usize = stereo.len() / 2;
        let mut s: BlockSums = BlockSums {
            re: Double { bits: double::ZERO },
            im: Double { bits: double::ZERO },
            power: Double { bits: double::ZERO },
            turns: 0,
            frames: 0,
        };
        let mut k: usize = 0;
        while k < n
            invariant
                k <= n,
                2 * n == stereo@.len(),
                stereo@.len() <= usize::MAX,
                s == sums(v, stereo@, k as nat),
                ({
                    let (prev_re, prev_im, primed) = previous(v, stereo@, k as int);
                    self@ == (DecoderView { prev_re, prev_im, primed, ..v })
                }),
            decreases n - k,
        {
            proof {
                lemma_counts(v, stereo@, k as nat);
            }
            let im: Double = stereo[2 * k].widen();
            let re: Double = stereo[2 * k + 1].widen();
            s.power = s.power.plus(re.times(re).plus(im.times(im)));
            if self.primed {
                s.re = s.re.plus(re.times(self.prev_re).plus(im.times(self.prev_im)));
                s.im = s.im.plus(im.times(self.prev_re).minus(re.times(self.prev_im)));
                s.turns = s.turns + 1;
            }
            s.frames = s.frames + 1;
            self.prev_re = re;
            self.prev_im = im;
            self.primed = true;
            k = k + 1;
        }
        proof {
            lemma_counts(v, stereo@, n as nat);
        }
        s
    }

    /// Concludes a block from its sums and its mean turn in radians.
    pub fn conclude(&mut self, s: BlockSums, phase: Double) -> (r: DecodeOutput)
        ensures
            r == concluded(old(self)@, s, phase),
            final(self)@ == (DecoderView { position_secs: r.position_secs, ..old(self)@ }),
    {
        let dt: Double = Double { bits: double::ONE }.over(self.sample_rate.widen());
        let turn: Double = Double { bits: TAU }.times(dt);
        let rate: Double = phase.over(turn).over(self.carrier_hz.widen());
        let frames: Double = Double::from_u64(s.frames as u64);
        let amplitude: Single = s.power.over(frames).sqrt().narrow();
        let length: Double = s.re.times(s.re).plus(s.im.times(s.im)).sqrt();
        let confidence: Single = if (Double { bits: POWER_FLOOR }).lt(s.power) {
            length.over(s.power).clamp(
                Double { bits: double::ZERO },
                Double { bits: double::ONE },
            ).narrow()
        } else {
            Single { bits: single::ZERO }
        };
        self.position_secs = self.position_secs.plus(rate.times(frames.times(dt)));
        DecodeOutput { rate, position_secs: self.position_secs, amplitude, confidence }
    }

    /// Decodes one block of interleaved stereo. `atan2` gives the direction of a
    /// vector, its vertical part first.
    pub fn process<A: Fn(Double, Double) -> Double>(&mut self, stereo: &[Single], atan2: &A) -> (r:
        DecodeOutput)
        requires
            stereo@.len() % 2 == 0,
            forall|y: Double, x: Double| call_requires(*atan2, (y, x)),
        ensures
            decodes(*atan2, old(self)@, stereo@, final(self)@, r),
    {
        if stereo.len() == 0 {
            return DecodeOutput {
                rate: Double { bits: double::ZERO },
                position_secs: self.position_secs,
                amplitude: Single { bits: single::ZERO },
                confidence: Single { bits: single::ZERO },
            };
        }
        let s: BlockSums = self.accumulate(stereo);
        let phase: Double = if s.turns > 0 {
            (*atan2)(s.im, s.re)
        } else {
            Double { bits: double::ZERO }
        };
        assert(is_phase(*atan2, s, phase));
        self.conclude(s, phase)
    }
}

} // verus!
