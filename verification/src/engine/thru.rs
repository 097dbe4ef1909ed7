//! A record played through: the input of a deck goes to its output as it is.

use vstd::arithmetic::div_mod::*;
use vstd::prelude::*;
use vstd::slice::*;

use crate::engine::deck;
use crate::engine::ring;
use crate::engine::ring::Receiver;
use crate::engine::ring::Sender;
use crate::ieee::single;
use crate::ieee::single::Single;
use crate::timecode::lift;

verus! {

/// Bits of one half.
pub const HALF: u32 = 0x3f00_0000;

/// Configuration of a thru input.
#[derive(Clone, Copy, Debug)]
pub struct ThruInputConfig {
    /// Most frames that one block renders.
    pub max_block_frames: usize,
    /// Sample rate of the input, which must be that of the engine.
    pub input_sample_rate: Single,
}

impl Default for ThruInputConfig {
    fn default() -> (r: Self)
        ensures
            r == (ThruInputConfig {
                max_block_frames: 1024,
                input_sample_rate: Single { bits: lift::DEFAULT_SAMPLE_RATE },
            }),
    {
        ThruInputConfig {
            max_block_frames: 1024,
            input_sample_rate: Single { bits: lift::DEFAULT_SAMPLE_RATE },
        }
    }
}

/// Why a thru source cannot be attached.
#[derive(Clone, Copy, Debug, PartialEq, Eq, Structural)]
pub enum ThruAttachError {
    /// There is no such deck.
    InvalidDeck { idx: usize, count: usize },
    /// The input has another sample rate than the engine.
    SampleRateMismatch { input_sr: Single, engine_sr: Single },
    /// Blocks of no frames.
    BadBlockSize,
    /// The engine takes no more commands now.
    ChannelFull,
}

/// The first fault of a configuration at an engine sample rate.
pub open spec fn fault(c: ThruInputConfig, engine_sr: Single) -> Option<ThruAttachError> {
    if lift::rates_differ(c.input_sample_rate, engine_sr) {
        Some(ThruAttachError::SampleRateMismatch { input_sr: c.input_sample_rate, engine_sr })
    } else if c.max_block_frames == 0 {
        Some(ThruAttachError::BadBlockSize)
    } else {
        None
    }
}

impl ThruInputConfig {
    /// Whether the configuration fits an engine sample rate.
    pub fn validate(&self, engine_sr: Single) -> (r: Result<(), ThruAttachError>)
        ensures
            match r {
                Ok(()) => fault(*self, engine_sr) is None,
                Err(e) => fault(*self, engine_sr) == Some(e),
            },
    {
        if lift::differ(self.input_sample_rate, engine_sr) {
            return Err(
                ThruAttachError::SampleRateMismatch { input_sr: self.input_sample_rate, engine_sr },
            );
        }
        if self.max_block_frames == 0 {
            return Err(ThruAttachError::BadBlockSize);
        }
        Ok(())
    }
}

/// The thru source of a deck.
pub struct ThruSource {
    rx: Receiver<Single>,
    scratch: Vec<Single>,
    bpm_tx: Option<Sender<Single>>,
    peaks_tx: Option<Sender<Single>>,
    mono_scratch: Vec<Single>,
}

/// What went to a tap.
pub ghost struct TapView {
    /// The ring that it goes through.
    pub channel: ring::Channel,
    /// What was offered to it.
    pub offered: Seq<Single>,
    /// What it took of that.
    pub sent: Seq<Single>,
}

/// The state of a thru source.
pub ghost struct ThruView {
    /// What was received.
    pub intake: ring::Intake<Single>,
    /// Most frames of one block.
    pub block_frames: nat,
    /// The tempo tap, if there is one.
    pub bpm: Option<TapView>,
    /// The peaks tap, if there is one.
    pub peaks: Option<TapView>,
}

/// The samples that a block of `want` samples hears: the whole frames of what was
/// received, then silence.
pub open spec fn block_of(received: Seq<Single>, want: nat) -> Seq<Single> {
    Seq::new(
        want,
        |i: int|
            if i < received.len() - received.len() % 2 {
                received[i]
            } else {
                Single { bits: single::ZERO }
            },
    )
}

/// A sample of a block; silence past its end.
pub open spec fn sample_of(block: Seq<Single>, i: int) -> Single {
    if 0 <= i < block.len() {
        block[i]
    } else {
        Single { bits: single::ZERO }
    }
}

/// Frame `k` of a block at a gain.
pub open spec fn scaled_frame(block: Seq<Single>, gain: Single, k: int) -> (Single, Single) {
    (
        single::product(sample_of(block, 2 * k), gain),
        single::product(sample_of(block, 2 * k + 1), gain),
    )
}

/// An output buffer after the first `n` frames of a block were added to it.
pub open spec fn with_frames(
    block: Seq<Single>,
    gain: Single,
    stride: nat,
    offset: nat,
    out: Seq<Single>,
    n: nat,
) -> Seq<Single> {
    Seq::new(
        out.len(),
        |i: int|
            if i / (stride as int) < n {
                deck::added(
                    out[i],
                    i,
                    stride,
                    offset,
                    Some(scaled_frame(block, gain, i / (stride as int))),
                )
            } else {
                out[i]
            },
    )
}

/// An output buffer after a block was added to it.
pub open spec fn with_block(
    block: Seq<Single>,
    gain: Single,
    stride: nat,
    offset: nat,
    out: Seq<Single>,
) -> Seq<Single> {
    Seq::new(
        out.len(),
        |i: int|
            deck::added(
                out[i],
                i,
                stride,
                offset,
                Some(scaled_frame(block, gain, i / (stride as int))),
            ),
    )
}

/// The mean of both channels of every frame.
pub open spec fn mono_of(block: Seq<Single>) -> Seq<Single> {
    Seq::new(
        block.len() / 2,
        |k: int|
            single::product(
                Single { bits: HALF },
                single::sum(block[2 * k], block[2 * k + 1]),
            ),
    )
}

/// A tap after samples were offered to it, of which it took the first ones: all of them
/// before it has taken as many as it has room for.
pub open spec fn tapped(
    before: Option<TapView>,
    after: Option<TapView>,
    mono: Seq<Single>,
) -> bool {
    match before {
        None => after is None,
        Some(s) => exists|n: int|
            0 <= n <= mono.len() && (n < mono.len() ==> s.sent.len() + n >= s.channel.capacity)
                && after == Some(
                TapView {
                    channel: s.channel,
                    offered: s.offered + mono,
                    sent: s.sent + #[trigger] mono.take(n),
                },
            ),
    }
}

/// The most samples that a block takes from the input.
pub open spec fn wanted(v: ThruView, frames: nat) -> nat {
    if 2 * frames < 2 * v.block_frames {
        2 * frames
    } else {
        2 * v.block_frames
    }
}

/// One block turned the source `v` into `w` with `received` samples of input.
pub open spec fn played(v: ThruView, w: ThruView, frames: nat, received: Seq<Single>) -> bool {
    let block = block_of(received, wanted(v, frames));
    &&& received.len() <= wanted(v, frames)
    &&& w.intake == ring::taken_in(v.intake, received, wanted(v, frames))
    &&& w.block_frames == v.block_frames
    &&& tapped(v.bpm, w.bpm, mono_of(block))
    &&& tapped(v.peaks, w.peaks, mono_of(block))
}

/// A block that received `received` turned the source `v` into `w` and the buffer
/// `out` into `mixed`.
pub open spec fn rendered(
    v: ThruView,
    w: ThruView,
    gain: Single,
    stride: nat,
    offset: nat,
    out: Seq<Single>,
    mixed: Seq<Single>,
    received: Seq<Single>,
) -> bool {
    let frames = out.len() / stride;
    &&& played(v, w, frames, received)
    &&& mixed == with_block(block_of(received, wanted(v, frames)), gain, stride, offset, out)
}

proof fn lemma_add_step(
    block: Seq<Single>,
    gain: Single,
    stride: nat,
    offset: nat,
    cells: Seq<Single>,
    k: nat,
)
    requires
        offset + 2 <= stride,
        k * stride + stride <= cells.len(),
    ensures
        ({
            let b = (k * stride + offset) as int;
            let m = with_frames(block, gain, stride, offset, cells, k);
            let (l, r) = scaled_frame(block, gain, k as int);
            m.update(b, single::sum(m[b], l)).update(b + 1, single::sum(m[b + 1], r))
                == with_frames(block, gain, stride, offset, cells, k + 1)
        }),
{
    let b = (k * stride + offset) as int;
    let m = with_frames(block, gain, stride, offset, cells, k);
    let n = with_frames(block, gain, stride, offset, cells, k + 1);
    let (l, r) = scaled_frame(block, gain, k as int);
    let u = m.update(b, single::sum(m[b], l)).update(b + 1, single::sum(m[b + 1], r));
    assert forall|i: int| 0 <= i < cells.len() implies u[i] == n[i] by {
        deck::lemma_cell(i, stride as int, k as int, offset as int);
        deck::lemma_cell(i, stride as int, k as int, (offset + 1) as int);
    }
    assert(u =~= n);
}

/// Adds a block of interleaved stereo at a gain to the channels `offset` and
/// `offset + 1` of a buffer of `stride` channels.
pub fn add_block(
    block: &[Single],
    out: &mut [Single],
    gain: Single,
    stride: usize,
    offset: usize,
)
    requires
        stride >= 2,
        offset + 2 <= stride,
        old(out)@.len() % (stride as nat) == 0,
    ensures
        final(out)@ == with_block(block@, gain, stride as nat, offset as nat, old(out)@),
{
    let ghost cells = out@;
    let len: usize = out.len();
    let frames: usize = len / stride;
    proof {
        let m = with_frames(block@, gain, stride as nat, offset as nat, cells, 0);
        assert forall|i: int| 0 <= i < cells.len() implies m[i] == cells[i] by {
            lemma_div_pos_is_pos(i, stride as int);
        }
        assert(m =~= cells);
    }
    let n: usize = block.len();
    let mut k: usize = 0;
    while k < frames
        invariant
            k <= frames,
            n == block@.len(),
            frames == cells.len() / (stride as nat),
            cells.len() <= usize::MAX,
            stride >= 2,
            offset + 2 <= stride,
            out@ == with_frames(
                block@,
                gain,
                stride as nat,
                offset as nat,
                cells,
                k as nat,
            ),
        decreases frames - k,
    {
        proof {
            deck::lemma_frame_in_range(cells.len(), stride as nat, k as nat);
            assert(2 * k + 2 <= k * stride + stride) by (nonlinear_arith)
                requires
                    stride >= 2,
                    k >= 0,
            ;
            lemma_add_step(block@, gain, stride as nat, offset as nat, cells, k as nat);
        }
        let l: Single = if 2 * k < n {
            block[2 * k]
        } else {
            Single { bits: single::ZERO }
        };
        let r: Single = if 2 * k + 1 < n {
            block[2 * k + 1]
        } else {
            Single { bits: single::ZERO }
        };
        let base: usize = k * stride + offset;
        out[base] = out[base].plus(l.times(gain));
        out[base + 1] = out[base + 1].plus(r.times(gain));
        k = k + 1;
    }
    proof {
        let m = with_frames(block@, gain, stride as nat, offset as nat, cells, frames as nat);
        let w = with_block(block@, gain, stride as nat, offset as nat, cells);
        assert forall|i: int| 0 <= i < cells.len() implies m[i] == w[i] by {
            deck::lemma_frame_of_cell(cells.len(), stride as nat, i);
        }
        assert(m =~= w);
    }
}

/// Writes the mean of both channels of every frame of a block to the front of
/// `mono`.
pub fn downmix(block: &[Single], mono: &mut Vec<Single>)
    requires
        block@.len() / 2 <= old(mono)@.len(),
    ensures
        final(mono)@.len() == old(mono)@.len(),
        final(mono)@.take((block@.len() / 2) as int) == mono_of(block@),
{
    let n: usize = block.len() / 2;
    let mut k: usize = 0;
    while k < n
        invariant
            k <= n,
            n == block@.len() / 2,
            block@.len() <= usize::MAX,
            n <= mono@.len(),
            mono@.len() == old(mono)@.len(),
            forall|j: int| 0 <= j < k ==> #[trigger] mono@[j] == mono_of(block@)[j],
        decreases n - k,
    {
        let s: Single = (Single { bits: HALF }).times(block[2 * k].plus(block[2 * k + 1]));
        mono.set(k, s);
        k = k + 1;
    }
    assert(mono@.take(n as int) =~= mono_of(block@));
}

/// Writes silence from one index up to another.
fn silence(samples: &mut Vec<Single>, from: usize, to: usize)
    requires
        from <= to <= old(samples)@.len(),
    ensures
        final(samples)@.len() == old(samples)@.len(),
        forall|i: int|
            0 <= i < old(samples)@.len() ==> #[trigger] final(samples)@[i] == if from <= i < to {
                Single { bits: single::ZERO }
            } else {
                old(samples)@[i]
            },
{
    let mut i: usize = from;
    while i < to
        invariant
            from <= i <= to <= samples@.len(),
            samples@.len() == old(samples)@.len(),
            forall|j: int|
                0 <= j < samples@.len() ==> #[trigger] samples@[j] == if from <= j < i {
                    Single { bits: single::ZERO }
                } else {
                    old(samples)@[j]
                },
        decreases to - i,
    {
        samples.set(i, Single { bits: single::ZERO });
        i = i + 1;
    }
}

/// What went to the sender of a tap.
pub open spec fn sender_view(tx: Sender<Single>) -> TapView {
    TapView { channel: tx.channel(), offered: tx.offered(), sent: tx.sent() }
}

spec fn tap_view(tap: Option<Sender<Single>>) -> Option<TapView> {
    match tap {
        None => None,
        Some(tx) => Some(sender_view(tx)),
    }
}

/// Sends samples to a tap, as many as it takes.
fn send_to_tap(tap: &mut Option<Sender<Single>>, mono: &[Single])
    ensures
        tapped(tap_view(*old(tap)), tap_view(*final(tap)), mono@),
{
    match tap.take() {
        None => {},
        Some(mut tx) => {
            let n: usize = tx.push_slice(mono);
            assert(mono@.take(n as int).len() == n);
            *tap = Some(tx);
        },
    }
}

impl ThruSource {
    pub closed spec fn view(&self) -> ThruView {
        ThruView {
            intake: self.rx.intake(),
            block_frames: if self.scratch@.len() / 2 < self.mono_scratch@.len() {
                self.scratch@.len() / 2
            } else {
                self.mono_scratch@.len()
            },
            bpm: tap_view(self.bpm_tx),
            peaks: tap_view(self.peaks_tx),
        }
    }

    /// A source of what `rx` receives.
    pub fn new(rx: Receiver<Single>, cfg: ThruInputConfig) -> (r: Self)
        requires
            2 * cfg.max_block_frames <= single::MAX_IN_MEMORY,
        ensures
            r@ == (ThruView {
                intake: rx.intake(),
                block_frames: if cfg.max_block_frames == 0 {
                    1nat
                } else {
                    cfg.max_block_frames as nat
                },
                bpm: None,
                peaks: None,
            }),
    {
        let frames: usize = if cfg.max_block_frames == 0 {
            1
        } else {
            cfg.max_block_frames
        };
        ThruSource {
            rx,
            scratch: vec![Single { bits: single::ZERO }; frames * 2],
            bpm_tx: None,
            peaks_tx: None,
            mono_scratch: vec![Single { bits: single::ZERO }; frames],
        }
    }

    /// The source with a tap for tempo analysis.
    pub fn with_bpm_tee(self, bpm_tx: Sender<Single>, max_block_frames: usize) -> (r: Self)
        requires
            self@.block_frames == if max_block_frames == 0 {
                1
            } else {
                max_block_frames
            },
        ensures
            r@ == (ThruView { bpm: Some(sender_view(bpm_tx)), ..self@ }),
    {
        ThruSource {
            rx: self.rx,
            scratch: self.scratch,
            bpm_tx: Some(bpm_tx),
            peaks_tx: self.peaks_tx,
            mono_scratch: self.mono_scratch,
        }
    }

    /// The source with a tap for the waveform.
    pub fn with_peaks_tap(self, peaks_tx: Sender<Single>) -> (r: Self)
        ensures
            r@ == (ThruView { peaks: Some(sender_view(peaks_tx)), ..self@ }),
    {
        ThruSource {
            rx: self.rx,
            scratch: self.scratch,
            bpm_tx: self.bpm_tx,
            peaks_tx: Some(peaks_tx),
            mono_scratch: self.mono_scratch,
        }
    }

    /// Whether there is a tap for tempo analysis.
    pub fn has_bpm_tee(&self) -> (r: bool)
        ensures
            r == (self@.bpm is Some),
    {
        self.bpm_tx.is_some()
    }

    /// Whether there is a tap for the waveform.
    pub fn has_peaks_tap(&self) -> (r: bool)
        ensures
            r == (self@.peaks is Some),
    {
        self.peaks_tx.is_some()
    }

    /// The ring of the input can say that `n` samples wait.
    pub closed spec fn may_wait(&self, n: usize) -> bool {
        self.rx.may_hold(n)
    }

    /// How many input samples wait now, as their ring says.
    pub fn available(&self) -> (r: usize)
        ensures
            self.may_wait(r),
            r <= self@.intake.channel.capacity,
    {
        self.rx.occupied_len()
    }

    /// Adds one block of input to the channels `offset` and `offset + 1` of a
    /// buffer of `stride` channels, and sends its mean to the taps.
    pub fn render_into(&mut self, out: &mut [Single], gain: Single, stride: usize, offset: usize)
        requires
            stride >= 2,
            offset + 2 <= stride,
            old(out)@.len() % (stride as nat) == 0,
        ensures
            exists|received: Seq<Single>| #[trigger]
                rendered(
                    old(self)@,
                    final(self)@,
                    gain,
                    stride as nat,
                    offset as nat,
                    old(out)@,
                    final(out)@,
                    received,
                ),
    {
        let ghost v = self@;
        let frames: usize = out.len() / stride;
        let room: usize = if self.scratch.len() / 2 < self.mono_scratch.len() {
            self.scratch.len() / 2 * 2
        } else {
            self.mono_scratch.len() * 2
        };
        assert(2 * frames <= out@.len()) by {
            deck::lemma_two_per_frame(out@.len(), stride as nat);
        }
        let want: usize = if frames * 2 < room {
            frames * 2
        } else {
            room
        };
        let (front, _rest) = self.scratch.as_mut_slice().split_at_mut(want);
        let popped: usize = self.rx.pop_slice(front);
        let ghost received = front@.take(popped as int);
        let whole: usize = popped - popped % 2;
        silence(&mut self.scratch, whole, want);
        let block: &[Single] = slice_subrange(self.scratch.as_slice(), 0, want);
        assert(block@ =~= block_of(received, want as nat));
        add_block(block, out, gain, stride, offset);
        let ghost mono = mono_of(block@);
        if self.bpm_tx.is_some() || self.peaks_tx.is_some() {
            downmix(block, &mut self.mono_scratch);
            let tap: &[Single] = slice_subrange(self.mono_scratch.as_slice(), 0, want / 2);
            assert(tap@ =~= mono);
            send_to_tap(&mut self.bpm_tx, tap);
            send_to_tap(&mut self.peaks_tx, tap);
        }
        proof {
            assert(tapped(v.bpm, self@.bpm, mono));
            assert(tapped(v.peaks, self@.peaks, mono));
            assert(rendered(
                v,
                self@,
                gain,
                stride as nat,
                offset as nat,
                old(out)@,
                out@,
                received,
            ));
        }
    }
}

} // verus!
