//! When a deck follows the timecode: an amplitude gate, two thresholds of
//! confidence, and a window that rides out short dropouts.

use vstd::prelude::*;

use crate::ieee::double;
use crate::ieee::double::Double;
use crate::ieee::single;
use crate::ieee::single::Single;
use crate::timecode::decoder::DecodeOutput;
use crate::timecode::format::Format;

verus! {

/// Bits of the default confidence to engage at, 0.8.
pub const DEFAULT_CONFIDENCE_THRESHOLD: u32 = 0x3f4c_cccd;

/// Bits of the default confidence to stay engaged at, 0.5.
pub const DEFAULT_DISENGAGE_THRESHOLD: u32 = 0x3f00_0000;

/// Default number of blocks below the floor before the deck disengages.
pub const DEFAULT_STICKY_BLOCKS_TO_DISENGAGE: u32 = 4;

/// Bits of the default amplitude below which the carrier is dead, 0.01.
pub const DEFAULT_AMPLITUDE_THRESHOLD: u32 = 0x3c23_d70a;

/// Bits of the greatest difference between sample rates that count as equal, half
/// a hertz.
pub const RATE_TOLERANCE: u32 = 0x3f00_0000;

/// Bits of the default sample rate, 48 kHz.
pub const DEFAULT_SAMPLE_RATE: u32 = 0x473b_8000;

/// Configuration of a timecode input.
#[derive(Clone, Copy, Debug)]
pub struct TimecodeInputConfig {
    /// The format on the record.
    pub format: Format,
    /// Sample rate of the input, which must be that of the engine.
    pub input_sample_rate: Single,
    /// Most frames that one block renders.
    pub max_block_frames: usize,
    /// Confidence to engage at.
    pub confidence_threshold: Single,
    /// Confidence to stay engaged at.
    pub disengage_threshold: Single,
    /// Blocks below the floor before the deck disengages.
    pub sticky_blocks_to_disengage: u32,
    /// Amplitude below which the carrier is dead.
    pub amplitude_threshold: Single,
}

impl Default for TimecodeInputConfig {
    fn default() -> (r: Self)
        ensures
            r == (TimecodeInputConfig {
                format: Format::SeratoCv02,
                input_sample_rate: Single { bits: DEFAULT_SAMPLE_RATE },
                max_block_frames: 4096,
                confidence_threshold: Single { bits: DEFAULT_CONFIDENCE_THRESHOLD },
                disengage_threshold: Single { bits: DEFAULT_DISENGAGE_THRESHOLD },
                sticky_blocks_to_disengage: DEFAULT_STICKY_BLOCKS_TO_DISENGAGE,
                amplitude_threshold: Single { bits: DEFAULT_AMPLITUDE_THRESHOLD },
            }),
    {
        TimecodeInputConfig {
            format: Format::SeratoCv02,
            input_sample_rate: Single { bits: DEFAULT_SAMPLE_RATE },
            max_block_frames: 4096,
            confidence_threshold: Single { bits: DEFAULT_CONFIDENCE_THRESHOLD },
            disengage_threshold: Single { bits: DEFAULT_DISENGAGE_THRESHOLD },
            sticky_blocks_to_disengage: DEFAULT_STICKY_BLOCKS_TO_DISENGAGE,
            amplitude_threshold: Single { bits: DEFAULT_AMPLITUDE_THRESHOLD },
        }
    }
}

/// Why a timecode input cannot be attached.
#[derive(Clone, Copy, Debug, PartialEq, Eq, Structural)]
pub enum AttachError {
    /// There is no such deck.
    InvalidDeck { idx: usize, count: usize },
    /// The deck has an input already.
    AlreadyAttached { idx: usize },
    /// The input has another sample rate than the engine.
    SampleRateMismatch { input_sr: Single, engine_sr: Single },
    /// Blocks of no frames.
    BadBlockSize,
    /// The threshold to disengage does not lie at or below the one to engage.
    InvalidHysteresis { engage: Single, disengage: Single },
    /// The amplitude threshold is negative or not finite.
    InvalidAmplitudeThreshold { value: Single },
    /// The engine takes no more commands now.
    ChannelFull,
}

/// The sample rates are not within the tolerance of each other: they differ by more, or a rate
/// that is not a number leaves no difference.
pub open spec fn rates_differ(a: Single, b: Single) -> bool {
    !single::at_most(single::magnitude(single::difference(a, b)), Single { bits: RATE_TOLERANCE })
}

/// Whether two sample rates are not within the tolerance of each other.
pub fn differ(a: Single, b: Single) -> (r: bool)
    ensures
        r == rates_differ(a, b),
{
    !a.minus(b).abs().le(Single { bits: RATE_TOLERANCE })
}

/// The first fault of a configuration at an engine sample rate.
pub open spec fn fault(c: TimecodeInputConfig, engine_sr: Single) -> Option<AttachError> {
    if rates_differ(c.input_sample_rate, engine_sr) {
        Some(AttachError::SampleRateMismatch { input_sr: c.input_sample_rate, engine_sr })
    } else if c.max_block_frames == 0 {
        Some(AttachError::BadBlockSize)
    } else if !single::at_most(c.disengage_threshold, c.confidence_threshold) {
        Some(
            AttachError::InvalidHysteresis {
                engage: c.confidence_threshold,
                disengage: c.disengage_threshold,
            },
        )
    } else if single::less(c.amplitude_threshold, Single { bits: single::ZERO })
        || !single::finite(c.amplitude_threshold) {
        Some(AttachError::InvalidAmplitudeThreshold { value: c.amplitude_threshold })
    } else {
        None
    }
}

impl TimecodeInputConfig {
    /// Whether the configuration fits an engine sample rate.
    pub fn validate(&self, engine_sr: Single) -> (r: Result<(), AttachError>)
        ensures
            match r {
                Ok(()) => fault(*self, engine_sr) is None,
                Err(e) => fault(*self, engine_sr) == Some(e),
            },
    {
        if differ(self.input_sample_rate, engine_sr) {
            return Err(
                AttachError::SampleRateMismatch { input_sr: self.input_sample_rate, engine_sr },
            );
        }
        if self.max_block_frames == 0 {
            return Err(AttachError::BadBlockSize);
        }
        if !self.disengage_threshold.le(self.confidence_threshold) {
            return Err(
                AttachError::InvalidHysteresis {
                    engage: self.confidence_threshold,
                    disengage: self.disengage_threshold,
                },
            );
        }
        if self.amplitude_threshold.lt(Single { bits: single::ZERO })
            || !self.amplitude_threshold.is_finite() {
            return Err(AttachError::InvalidAmplitudeThreshold { value: self.amplitude_threshold });
        }
        Ok(())
    }
}

/// What a deck should do after a block of timecode.
#[derive(Clone, Copy, Debug, PartialEq, Eq, Structural)]
pub enum LiftIntent {
    /// Play at this rate.
    Locked { rate: Double },
    /// Pause, and keep this rate for the return of the carrier.
    DropoutHoldRate { rate: Double },
}

/// The policy that decides whether a deck follows the timecode.
#[derive(Clone, Copy, Debug)]
pub struct LiftPolicy {
    engage_threshold: Single,
    disengage_threshold: Single,
    sticky_blocks_to_disengage: u32,
    amplitude_threshold: Single,
    engaged: bool,
    consecutive_below: u32,
    last_locked_rate: Double,
}

/// The state of a policy.
pub ghost struct PolicyView {
    pub engage_threshold: Single,
    pub disengage_threshold: Single,
    pub sticky_blocks_to_disengage: u32,
    pub amplitude_threshold: Single,
    pub engaged: bool,
    pub consecutive_below: u32,
    pub last_locked_rate: Double,
}

/// A policy that has seen nothing.
pub open spec fn fresh(c: TimecodeInputConfig) -> PolicyView {
    PolicyView {
        engage_threshold: c.confidence_threshold,
        disengage_threshold: c.disengage_threshold,
        sticky_blocks_to_disengage: c.sticky_blocks_to_disengage,
        amplitude_threshold: c.amplitude_threshold,
        engaged: false,
        consecutive_below: 0,
        last_locked_rate: Double { bits: double::ZERO },
    }
}

/// The carrier is loud enough to be there.
pub open spec fn alive(p: PolicyView, out: DecodeOutput) -> bool {
    single::at_most(p.amplitude_threshold, out.amplitude)
}

/// The block is good enough to follow.
pub open spec fn locks(p: PolicyView, out: DecodeOutput) -> bool {
    alive(p, out) && single::at_most(p.engage_threshold, out.confidence)
}

/// The block is good enough not to count as a dropout.
pub open spec fn holds(p: PolicyView, out: DecodeOutput) -> bool {
    alive(p, out) && single::at_most(p.disengage_threshold, out.confidence)
}

/// One more block below the floor.
pub open spec fn counted(p: PolicyView) -> u32 {
    if p.consecutive_below == u32::MAX {
        u32::MAX
    } else {
        (p.consecutive_below + 1) as u32
    }
}

/// The policy after a block, and what the deck should do.
pub open spec fn stepped(p: PolicyView, out: DecodeOutput) -> (PolicyView, LiftIntent) {
    let held = p.last_locked_rate;
    if locks(p, out) {
        (
            PolicyView { engaged: true, consecutive_below: 0, last_locked_rate: out.rate, ..p },
            LiftIntent::Locked { rate: out.rate },
        )
    } else if !p.engaged {
        (p, LiftIntent::DropoutHoldRate { rate: held })
    } else if holds(p, out) {
        (PolicyView { consecutive_below: 0, ..p }, LiftIntent::Locked { rate: held })
    } else if counted(p) >= p.sticky_blocks_to_disengage {
        (
            PolicyView { engaged: false, consecutive_below: counted(p), ..p },
            LiftIntent::DropoutHoldRate { rate: held },
        )
    } else {
        (
            PolicyView { consecutive_below: counted(p), ..p },
            LiftIntent::Locked { rate: held },
        )
    }
}

impl LiftPolicy {
    pub closed spec fn view(&self) -> PolicyView {
        PolicyView {
            engage_threshold: self.engage_threshold,
            disengage_threshold: self.disengage_threshold,
            sticky_blocks_to_disengage: self.sticky_blocks_to_disengage,
            amplitude_threshold: self.amplitude_threshold,
            engaged: self.engaged,
            consecutive_below: self.consecutive_below,
            last_locked_rate: self.last_locked_rate,
        }
    }

    /// A policy with the thresholds of a configuration, disengaged.
    pub fn new(config: &TimecodeInputConfig) -> (r: Self)
        ensures
            r@ == fresh(*config),
    {
        LiftPolicy {
            engage_threshold: config.confidence_threshold,
            disengage_threshold: config.disengage_threshold,
            sticky_blocks_to_disengage: config.sticky_blocks_to_disengage,
            amplitude_threshold: config.amplitude_threshold,
            engaged: false,
            consecutive_below: 0,
            last_locked_rate: Double { bits: double::ZERO },
        }
    }

    /// Whether the deck follows the timecode.
    pub fn is_engaged(&self) -> (r: bool)
        ensures
            r == self@.engaged,
    {
        self.engaged
    }

    /// Blocks below the floor in a row.
    pub fn consecutive_below(&self) -> (r: u32)
        ensures
            r == self@.consecutive_below,
    {
        self.consecutive_below
    }

    /// The last rate that was good enough to follow.
    pub fn last_locked_rate(&self) -> (r: Double)
        ensures
            r == self@.last_locked_rate,
    {
        self.last_locked_rate
    }

    /// Stops following, so that only a block above the upper threshold engages
    /// again.
    pub fn disengage(&mut self)
        ensures
            final(self)@ == (PolicyView { engaged: false, ..old(self)@ }),
    {
        self.engaged = false;
    }

    /// Takes in one block.
    pub fn step(&mut self, out: DecodeOutput) -> (r: LiftIntent)
        ensures
            (final(self)@, r) == stepped(old(self)@, out),
    {
        let carrier_alive: bool = self.amplitude_threshold.le(out.amplitude);
        if self.engaged {
            if carrier_alive && self.engage_threshold.le(out.confidence) {
                self.consecutive_below = 0;
                self.last_locked_rate = out.rate;
                LiftIntent::Locked { rate: out.rate }
            } else if carrier_alive && self.disengage_threshold.le(out.confidence) {
                self.consecutive_below = 0;
                LiftIntent::Locked { rate: self.last_locked_rate }
            } else {
                if self.consecutive_below < u32::MAX {
                    self.consecutive_below = self.consecutive_below + 1;
                }
                if self.consecutive_below >= self.sticky_blocks_to_disengage {
                    self.engaged = false;
                    LiftIntent::DropoutHoldRate { rate: self.last_locked_rate }
                } else {
                    LiftIntent::Locked { rate: self.last_locked_rate }
                }
            }
        } else if carrier_alive && self.engage_threshold.le(out.confidence) {
            self.engaged = true;
            self.consecutive_below = 0;
            self.last_locked_rate = out.rate;
            LiftIntent::Locked { rate: out.rate }
        } else {
            LiftIntent::DropoutHoldRate { rate: self.last_locked_rate }
        }
    }
}

/// The policy after a run of blocks.
pub open spec fn after_blocks(p: PolicyView, blocks: Seq<DecodeOutput>) -> PolicyView
    decreases blocks.len(),
{
    if blocks.len() == 0 {
        p
    } else {
        stepped(after_blocks(p, blocks.drop_last()), blocks.last()).0
    }
}

/// The number of blocks below the floor at which a policy disengages: its window,
/// but at least one.
pub open spec fn window(p: PolicyView) -> nat {
    if p.sticky_blocks_to_disengage == 0 {
        1
    } else {
        p.sticky_blocks_to_disengage as nat
    }
}

/// While engaged, a policy has counted fewer blocks than its window; it keeps this
/// whatever comes, and on the block that disengages it the count reaches the
/// window exactly.
pub proof fn law_counter_reaches_window_exactly(p: PolicyView, out: DecodeOutput)
    requires
        p.engaged ==> p.consecutive_below < window(p),
    ensures
        ({
            let q = stepped(p, out).0;
            &&& q.engaged ==> q.consecutive_below < window(q)
            &&& p.engaged && !q.engaged ==> q.consecutive_below == window(q)
        }),
{
}

/// An engaged policy that meets nothing but blocks below the floor follows on at
/// its last rate until its window is full, and disengages with the block that
/// fills it.
pub proof fn law_disengages_after_window(p: PolicyView, blocks: Seq<DecodeOutput>)
    requires
        p.engaged,
        p.consecutive_below == 0,
        forall|i: int| 0 <= i < blocks.len() ==> !holds(p, #[trigger] blocks[i]) && !locks(
            p,
            blocks[i],
        ),
    ensures
        ({
            let q = after_blocks(p, blocks);
            &&& q.engaged <==> blocks.len() < window(p)
            &&& q.consecutive_below == if blocks.len() < window(p) {
                blocks.len()
            } else {
                window(p)
            }
            &&& q.last_locked_rate == p.last_locked_rate
            &&& q == (PolicyView {
                engaged: q.engaged,
                consecutive_below: q.consecutive_below,
                ..p
            })
        }),
    decreases blocks.len(),
{
    if blocks.len() > 0 {
        let before = blocks.drop_last();
        assert forall|i: int| 0 <= i < before.len() implies !holds(p, #[trigger] before[i])
            && !locks(p, before[i]) by {
            assert(before[i] == blocks[i]);
        }
        law_disengages_after_window(p, before);
        assert(blocks.last() == blocks[blocks.len() - 1]);
    }
}

/// A disengaged policy engages on a block exactly if the carrier is alive and the
/// confidence reaches the upper threshold.
pub proof fn law_engages_only_on_lock(p: PolicyView, out: DecodeOutput)
    requires
        !p.engaged,
    ensures
        stepped(p, out).0.engaged <==> alive(p, out) && single::at_most(
            p.engage_threshold,
            out.confidence,
        ),
        !alive(p, out) ==> stepped(p, out) == (
            p,
            LiftIntent::DropoutHoldRate { rate: p.last_locked_rate },
        ),
{
}

/// Between the thresholds an engaged policy keeps its last rate and starts its
/// count anew.
pub proof fn law_lukewarm_blocks_hold_the_rate(p: PolicyView, out: DecodeOutput)
    requires
        p.engaged,
        holds(p, out),
        !locks(p, out),
    ensures
        stepped(p, out).1 == (LiftIntent::Locked { rate: p.last_locked_rate }),
        stepped(p, out).0 == (PolicyView { consecutive_below: 0, ..p }),
{
}

/// The rate that the deck is given is never taken from a block that does not lock.
pub proof fn law_rate_comes_from_locked_blocks(p: PolicyView, out: DecodeOutput)
    ensures
        !locks(p, out) ==> stepped(p, out).0.last_locked_rate == p.last_locked_rate,
        match stepped(p, out).1 {
            LiftIntent::Locked { rate } => rate == stepped(p, out).0.last_locked_rate,
            LiftIntent::DropoutHoldRate { rate } => rate == stepped(p, out).0.last_locked_rate,
        },
{
}

} // verus!
