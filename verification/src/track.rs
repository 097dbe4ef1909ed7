//! A track that is decoded into memory, and the decisions of its decoding.

pub mod loader;

use std::sync::Arc;
use vstd::arithmetic::power2::*;
use vstd::prelude::*;

use crate::ieee::double;
use crate::ieee::double::Double;
use crate::ieee::exact::double_value;
use crate::ieee::exact::near;
use crate::ieee::identities;
use crate::ieee::means;
use crate::ieee::single;
use crate::ieee::single::Single;
use crate::ieee::whole;

verus! {

/// Why a track could not be loaded.
#[derive(Debug)]
pub enum LoadError {
    /// The file could not be read.
    Io(String),
    /// The format is not supported, or the file is corrupt.
    Format(String),
    /// The file holds no audio.
    NoAudioTrack,
    /// Neither one channel nor two.
    UnsupportedChannels(u8),
    /// Decoding gave no samples.
    Empty,
}

/// An audio track: interleaved samples at the sample rate of its file.
#[derive(Debug)]
pub struct Track {
    samples: Arc<Vec<Single>>,
    sample_rate: u32,
    channels: u8,
    frames: usize,
    bpm: Option<Double>,
}

/// What a track consists of.
pub ghost struct TrackView {
    pub samples: Seq<Single>,
    pub sample_rate: u32,
    pub channels: u8,
    pub frames: nat,
    pub bpm: Option<Double>,
}

/// One channel or two, and as many frames as the samples fill.
pub open spec fn well_formed(t: TrackView) -> bool {
    &&& 1 <= t.channels <= 2
    &&& t.frames == t.samples.len() / (t.channels as nat)
}

/// The left and right sample of a frame: a single channel goes to both sides,
/// and there is silence past the end.
pub open spec fn frame_of(t: TrackView, i: int) -> (Single, Single) {
    if i < 0 || i >= t.frames {
        (Single { bits: single::ZERO }, Single { bits: single::ZERO })
    } else if t.channels == 1 {
        (t.samples[i], t.samples[i])
    } else {
        (t.samples[2 * i], t.samples[2 * i + 1])
    }
}

/// How long a track lasts, in seconds.
pub open spec fn duration(t: TrackView) -> Double {
    double::quotient(double::from_int(t.frames), double::from_int(t.sample_rate as nat))
}

/// A track lasts as long as its frames take: its duration times its sample rate is their number, up to
/// rounding.
pub proof fn law_frames_take_the_duration(t: TrackView)
    requires
        t.sample_rate > 0,
        0 < t.frames < whole::EXACT,
    ensures
        double::finite(duration(t)),
        near(
            double_value(duration(t)) * t.sample_rate,
            t.frames * pow2(1074) as int,
            pow2(53),
        ),
{
    let n = t.sample_rate as nat;
    let u = pow2(1074);
    identities::law_whole_numbers_are_exact(t.frames);
    lemma_pow2_pos(1074);
    lemma_pow2_adds(52, 1022);
    lemma_pow2_strictly_increases(32, 1022);
    lemma_pow2_pos(52);
    lemma2_to64();
    assert(pow2(52) * n <= t.frames * u) by (nonlinear_arith)
        requires
            n < 0x1_0000_0000,
            pow2(32) == 0x1_0000_0000,
            pow2(32) < pow2(1022),
            u == pow2(52) * pow2(1022),
            t.frames >= 1,
            pow2(52) > 0,
    ;
    means::lemma_mean_is_close(double::from_int(t.frames), n);
}

/// A frame sounds where it was recorded: of two channels the first goes to the left side and the second
/// to the right one, and a single channel goes to both. There are as many frames as the samples fill.
pub proof fn law_frames_keep_their_sides(t: TrackView, i: int)
    requires
        well_formed(t),
        0 <= i,
    ensures
        t.channels == 1 && i < t.samples.len() ==> frame_of(t, i) == (t.samples[i], t.samples[i]),
        t.channels == 2 && 2 * i + 1 < t.samples.len() ==> frame_of(t, i) == (
            t.samples[2 * i],
            t.samples[2 * i + 1],
        ),
        t.channels == 2 && 2 * i + 1 >= t.samples.len() ==> frame_of(t, i).0@.mag == 0 && frame_of(
            t,
            i,
        ).1@.mag == 0,
{
}

/// A track of one channel sounds like the track of two channels that carry the same.
pub proof fn law_mono_sounds_like_two_equal_sides(t: TrackView, s: TrackView, i: int)
    requires
        well_formed(t),
        well_formed(s),
        t.channels == 1,
        s.channels == 2,
        s.samples.len() == 2 * t.samples.len(),
        forall|k: int|
            0 <= k < t.samples.len() ==> s.samples[2 * k] == #[trigger] t.samples[k] && s.samples[2
                * k + 1] == t.samples[k],
    ensures
        frame_of(t, i) == frame_of(s, i),
        t.frames == s.frames,
{
}

impl Clone for Track {
    /// The same track; the samples are shared.
    fn clone(&self) -> (r: Self)
        ensures
            r@ == self@,
    {
        proof {
            use_type_invariant(self);
        }
        Track {
            samples: self.samples.clone(),
            sample_rate: self.sample_rate,
            channels: self.channels,
            frames: self.frames,
            bpm: self.bpm,
        }
    }
}

impl Track {
    pub closed spec fn view(&self) -> TrackView {
        TrackView {
            samples: self.samples@,
            sample_rate: self.sample_rate,
            channels: self.channels,
            frames: self.frames as nat,
            bpm: self.bpm,
        }
    }

    #[verifier::type_invariant]
    spec fn inv(self) -> bool {
        well_formed(self@)
    }

    /// A track of interleaved samples, for one or two channels, a sample rate and
    /// at least one whole frame.
    pub fn from_interleaved(samples: Vec<Single>, sample_rate: u32, channels: u8) -> (r: Option<
        Self,
    >)
        ensures
            r is Some <==> 1 <= channels <= 2 && sample_rate != 0 && samples@.len() > 0
                && samples@.len() % (channels as nat) == 0,
            r matches Some(t) ==> t@ == (TrackView {
                samples: samples@,
                sample_rate,
                channels,
                frames: samples@.len() / (channels as nat),
                bpm: None,
            }),
    {
        if channels < 1 || channels > 2 || sample_rate == 0 {
            return None;
        }
        let n: usize = samples.len();
        if n == 0 || n % channels as usize != 0 {
            return None;
        }
        let frames: usize = n / channels as usize;
        Some(Track { samples: Arc::new(samples), sample_rate, channels, frames, bpm: None })
    }

    /// A track of what was decoded; samples that fill no whole frame stay at its end.
    pub(crate) fn from_decoded(samples: Vec<Single>, sample_rate: u32, channels: u8) -> (r: Self)
        requires
            1 <= channels <= 2,
        ensures
            r@ == (TrackView {
                samples: samples@,
                sample_rate,
                channels,
                frames: samples@.len() / (channels as nat),
                bpm: None,
            }),
    {
        let frames: usize = samples.len() / channels as usize;
        Track { samples: Arc::new(samples), sample_rate, channels, frames, bpm: None }
    }

    /// The same track with another tempo.
    pub fn with_bpm(self, bpm: Option<Double>) -> (r: Self)
        ensures
            r@ == (TrackView { bpm, ..self@ }),
    {
        proof {
            use_type_invariant(&self);
        }
        Track {
            samples: self.samples,
            sample_rate: self.sample_rate,
            channels: self.channels,
            frames: self.frames,
            bpm,
        }
    }

    /// The tempo, if it is known.
    pub fn bpm(&self) -> (r: Option<Double>)
        ensures
            r == self@.bpm,
    {
        self.bpm
    }

    /// Number of frames.
    pub fn frames(&self) -> (r: usize)
        ensures
            r == self@.frames,
            well_formed(self@),
    {
        proof {
            use_type_invariant(self);
        }
        self.frames
    }

    /// Sample rate in hertz.
    pub fn sample_rate(&self) -> (r: u32)
        ensures
            r == self@.sample_rate,
    {
        self.sample_rate
    }

    /// One or two.
    pub fn channels(&self) -> (r: u8)
        ensures
            r == self@.channels,
            1 <= r <= 2,
    {
        proof {
            use_type_invariant(self);
        }
        self.channels
    }

    /// Length in seconds.
    pub fn duration_seconds(&self) -> (r: Double)
        ensures
            r == double::quotient(
                double::from_int(self@.frames),
                double::from_int(self@.sample_rate as nat),
            ),
            r == duration(self@),
    {
        Double::from_u64(self.frames as u64).over(Double::from_u64(self.sample_rate as u64))
    }

    /// The interleaved samples.
    pub fn samples(&self) -> (r: &[Single])
        ensures
            r@ == self@.samples,
    {
        self.samples.as_slice()
    }

    /// One frame, on both sides.
    pub fn frame(&self, frame_index: usize) -> (r: [Single; 2])
        ensures
            (r@[0], r@[1]) == frame_of(self@, frame_index as int),
    {
        proof {
            use_type_invariant(self);
        }
        if frame_index >= self.frames {
            return [Single { bits: single::ZERO }, Single { bits: single::ZERO }];
        }
        if self.channels == 1 {
            let s: Single = self.samples[frame_index];
            [s, s]
        } else {
            let len: usize = self.samples.len();
            assert(self.frames == len / 2);
            let i: usize = frame_index * 2;
            [self.samples[i], self.samples[i + 1]]
        }
    }
}

} // verus!
