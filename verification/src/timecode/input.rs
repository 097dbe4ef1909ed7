//! The timecode input of a deck: what arrives is decoded, and the policy says what
//! the deck should do.

use vstd::prelude::*;
use vstd::slice::*;

use crate::engine::ring;
use crate::engine::ring::Receiver;
use crate::ieee::double::Double;
use crate::ieee::single;
use crate::ieee::single::Single;
use crate::timecode::decoder;
use crate::timecode::decoder::DecodeOutput;
use crate::timecode::decoder::Decoder;
use crate::timecode::lift;
use crate::timecode::lift::LiftIntent;
use crate::timecode::lift::LiftPolicy;
use crate::timecode::lift::TimecodeInputConfig;

verus! {

/// The decoder and the policy of an input.
pub struct Follower {
    decoder: Decoder,
    last_output: Option<DecodeOutput>,
    policy: LiftPolicy,
}

/// The state of a follower.
pub ghost struct FollowerView {
    pub decoder: decoder::DecoderView,
    /// What the last block decoded to.
    pub last_output: Option<DecodeOutput>,
    pub policy: lift::PolicyView,
}

/// The timecode input of a deck.
pub struct TimecodeInput {
    rx: Receiver<Single>,
    scratch: Vec<Single>,
    follower: Follower,
}

/// The state of an input.
pub ghost struct InputView {
    /// What was received.
    pub intake: ring::Intake<Single>,
    /// Most samples that one block takes.
    pub room: nat,
    pub follower: FollowerView,
}

/// The whole frames of a block.
pub open spec fn whole_frames(block: Seq<Single>) -> Seq<Single> {
    block.take(block.len() - block.len() % 2)
}

/// A block turned the follower `v` into `w`, with an intent unless it held no
/// whole frame.
pub open spec fn followed<A: Fn(Double, Double) -> Double>(
    atan2: A,
    v: FollowerView,
    w: FollowerView,
    block: Seq<Single>,
    intent: Option<LiftIntent>,
) -> bool {
    let frames = whole_frames(block);
    if frames.len() == 0 {
        w == v && intent is None
    } else {
        match w.last_output {
            None => false,
            Some(out) => {
                &&& decoder::decodes(atan2, v.decoder, frames, w.decoder, out)
                &&& w.policy == lift::stepped(v.policy, out).0
                &&& intent == Some(lift::stepped(v.policy, out).1)
            },
        }
    }
}

/// A block that received `received` turned the input `v` into `w`.
pub open spec fn drove<A: Fn(Double, Double) -> Double>(
    atan2: A,
    v: InputView,
    w: InputView,
    received: Seq<Single>,
    intent: Option<LiftIntent>,
) -> bool {
    &&& received.len() <= v.room
    &&& w.intake == ring::taken_in(v.intake, received, v.room)
    &&& w.room == v.room
    &&& followed(atan2, v.follower, w.follower, received, intent)
}

/// A follower that has heard nothing.
pub open spec fn fresh(c: TimecodeInputConfig) -> FollowerView {
    FollowerView {
        decoder: decoder::fresh(c.format, c.input_sample_rate),
        last_output: None,
        policy: lift::fresh(c),
    }
}

impl Follower {
    pub closed spec fn view(&self) -> FollowerView {
        FollowerView {
            decoder: self.decoder@,
            last_output: self.last_output,
            policy: self.policy@,
        }
    }

    /// A follower for a configuration with a positive sample rate.
    pub fn new(config: &TimecodeInputConfig) -> (r: Self)
        requires
            single::less(Single { bits: single::ZERO }, config.input_sample_rate),
        ensures
            r@ == fresh(*config),
    {
        Follower {
            decoder: Decoder::new(config.format, config.input_sample_rate),
            last_output: None,
            policy: LiftPolicy::new(config),
        }
    }

    /// Takes in one block of interleaved stereo; an odd sample at its end is left
    /// out.
    pub fn follow<A: Fn(Double, Double) -> Double>(&mut self, block: &[Single], atan2: &A) -> (r:
        Option<LiftIntent>)
        requires
            forall|y: Double, x: Double| call_requires(*atan2, (y, x)),
        ensures
            followed(*atan2, old(self)@, final(self)@, block@, r),
    {
        let whole: usize = block.len() - block.len() % 2;
        if whole == 0 {
            return None;
        }
        let frames: &[Single] = slice_subrange(block, 0, whole);
        assert(frames@ =~= whole_frames(block@));
        let out: DecodeOutput = self.decoder.process(frames, atan2);
        self.last_output = Some(out);
        let intent: LiftIntent = self.policy.step(out);
        Some(intent)
    }
}

impl TimecodeInput {
    pub closed spec fn view(&self) -> InputView {
        InputView {
            intake: self.rx.intake(),
            room: self.scratch@.len(),
            follower: self.follower@,
        }
    }

    /// An input that follows what `rx` receives.
    pub fn new(rx: Receiver<Single>, config: TimecodeInputConfig) -> (r: Self)
        requires
            2 * config.max_block_frames <= single::MAX_IN_MEMORY,
            single::less(Single { bits: single::ZERO }, config.input_sample_rate),
        ensures
            r@ == (InputView {
                intake: rx.intake(),
                room: if config.max_block_frames == 0 {
                    2
                } else {
                    2 * config.max_block_frames as nat
                },
                follower: fresh(config),
            }),
    {
        let room: usize = if config.max_block_frames == 0 {
            2
        } else {
            2 * config.max_block_frames
        };
        TimecodeInput {
            rx,
            scratch: vec![Single { bits: single::ZERO }; room],
            follower: Follower::new(&config),
        }
    }

    /// The ring of the input can say that `n` samples wait.
    pub closed spec fn may_wait(&self, n: usize) -> bool {
        self.rx.may_hold(n)
    }

    /// How many input samples wait now, as their ring says.
    pub fn available(&self) -> (r: usize)
        ensures
            self.may_wait(r),
            r <= self@.intake.channel.capacity,
    {
        self.rx.occupied_len()
    }

    /// What the last block decoded to, if there was one.
    pub fn last_output(&self) -> (r: Option<DecodeOutput>)
        ensures
            r == self@.follower.last_output,
    {
        self.follower.last_output
    }

    /// The last rate that was good enough to follow.
    pub fn last_locked_rate(&self) -> (r: Double)
        ensures
            r == self@.follower.policy.last_locked_rate,
    {
        self.follower.policy.last_locked_rate()
    }

    /// Whether the deck follows the timecode.
    pub fn is_engaged(&self) -> (r: bool)
        ensures
            r == self@.follower.policy.engaged,
    {
        self.follower.policy.is_engaged()
    }

    /// Stops following until the next block that locks.
    pub fn disengage(&mut self)
        ensures
            final(self)@ == (InputView {
                follower: FollowerView {
                    policy: lift::PolicyView {
                        engaged: false,
                        ..old(self)@.follower.policy
                    },
                    ..old(self)@.follower
                },
                ..old(self)@
            }),
    {
        self.follower.policy.disengage();
    }

    /// Takes in what has arrived, at most one block, and says what the deck should
    /// do; nothing where no whole frame has arrived.
    pub fn drive<A: Fn(Double, Double) -> Double>(&mut self, atan2: &A) -> (r: Option<LiftIntent>)
        requires
            forall|y: Double, x: Double| call_requires(*atan2, (y, x)),
        ensures
            exists|received: Seq<Single>| #[trigger]
                drove(*atan2, old(self)@, final(self)@, received, r),
    {
        let ghost v = self@;
        let popped: usize = self.rx.pop_slice(self.scratch.as_mut_slice());
        let block: &[Single] = slice_subrange(self.scratch.as_slice(), 0, popped);
        let r = self.follower.follow(block, atan2);
        assert(block@ =~= self.scratch@.take(popped as int));
        assert(drove(*atan2, v, self@, block@, r));
        r
    }
}

} // verus!
