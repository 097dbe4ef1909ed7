//! Control of a running engine from another thread.

use std::sync::atomic::AtomicU64;
use std::sync::atomic::Ordering;
use std::sync::Arc;
use vstd::prelude::*;

use crate::engine::command::Command;
use crate::engine::declick;
use crate::engine::disposal;
use crate::engine::disposal::Disposal;
use crate::engine::mixer;
use crate::engine::mixer::Engine;
use crate::engine::ring;
use crate::engine::ring::Receiver;
use crate::engine::ring::Sender;
use crate::engine::shared::DeckSharedState;
use crate::engine::thru;
use crate::engine::thru::ThruAttachError;
use crate::engine::thru::ThruInputConfig;
use crate::engine::thru::ThruSource;
use crate::ieee::double;
use crate::ieee::double::Double;
use crate::ieee::single;
use crate::ieee::single::Single;
use crate::peaks::stream;
use crate::peaks::stream::PeakStreamConfig;
use crate::peaks::stream::PeakStreamError;
use crate::timecode::input;
use crate::timecode::input::TimecodeInput;
use crate::timecode::lift;
use crate::timecode::lift::AttachError;
use crate::timecode::lift::TimecodeInputConfig;
use crate::track::Track;

verus! {

/// Most tracks on their way back from the engine.
pub const TRASH_CHANNEL_CAPACITY: usize = 32;

/// Most timecode inputs on their way back from the engine.
pub const TIMECODE_TRASH_CHANNEL_CAPACITY: usize = 8;

/// Most thru sources on their way back from the engine.
pub const THRU_TRASH_CHANNEL_CAPACITY: usize = 8;

/// Seconds of audio that the ring of the tempo tap holds.
pub const BPM_TEE_RING_CAPACITY_SECS: usize = 1;

/// Seconds of audio that the ring of the peaks tap holds.
pub const PEAKS_TAP_RING_CAPACITY_SECS: usize = 1;

/// Fewest samples that the ring of a tap holds.
pub const MIN_TAP_CAPACITY: usize = 1024;

/// Why a command was not sent.
#[derive(Clone, Copy, Debug, PartialEq, Eq, Structural)]
pub enum CommandError {
    /// The engine takes no more commands now.
    ChannelFull,
    /// There is no such deck.
    InvalidDeck { idx: u8, count: u8 },
}

/// Why a thru source with a tempo tap was not attached, or its tempo cannot be
/// tracked. `E` says why tempo analysis does not start.
#[derive(Debug, PartialEq, Eq)]
pub enum ThruAttachWithBpmError<E> {
    Thru(ThruAttachError),
    /// Tempo analysis did not start; the source is attached all the same.
    BadTrackerConfig(E),
    /// The tempo analysis runs at another sample rate than the engine.
    SampleRateMismatch { tracker_sr: u32, engine_sr: u32 },
}

/// Why a thru source with a peaks tap was not attached, or its peaks cannot be
/// captured.
#[derive(Clone, Copy, Debug, PartialEq, Eq, Structural)]
pub enum ThruAttachWithPeaksError {
    Thru(ThruAttachError),
    /// The peak stream cannot start; the source is attached all the same.
    BadPeaksConfig(PeakStreamError),
    /// The peak stream runs at another sample rate than the engine.
    SampleRateMismatch { peaks_sr: u32, engine_sr: u32 },
}

/// Why a thru source with both taps was not attached, or its tempo cannot be tracked
/// or its peaks captured.
#[derive(Debug, PartialEq, Eq)]
pub enum ThruAttachWithTelemetryError<E> {
    Thru(ThruAttachError),
    /// Tempo analysis did not start; the source is attached all the same.
    BadTrackerConfig(E),
    /// The tempo analysis runs at another sample rate than the engine.
    BpmSampleRateMismatch { tracker_sr: u32, engine_sr: u32 },
    /// The peak stream cannot start; the source is attached all the same.
    BadPeaksConfig(PeakStreamError),
    /// The peak stream runs at another sample rate than the engine.
    PeaksSampleRateMismatch { peaks_sr: u32, engine_sr: u32 },
}

/// What a deck showed when it was looked at.
#[derive(Clone, Copy, Debug)]
pub struct DeckSnapshot {
    /// The playhead in frames of the track.
    pub position_frames: Double,
    pub is_playing: bool,
    pub at_end: bool,
}

/// The handle of a running engine.
pub struct EngineHandle {
    tx: Sender<Command>,
    trash_rx: Receiver<Arc<Track>>,
    timecode_trash_rx: Receiver<Box<TimecodeInput>>,
    thru_trash_rx: Receiver<Box<ThruSource>>,
    overflow_counter: Arc<AtomicU64>,
    timecode_trash_overflow: Arc<AtomicU64>,
    thru_trash_overflow: Arc<AtomicU64>,
    deck_shared: [Arc<DeckSharedState>; 2],
    engine_sample_rate: Single,
}

/// What went through a handle.
#[verifier::ext_equal]
pub ghost struct HandleView {
    /// The channel of the commands.
    pub commands: ring::Channel,
    /// The commands that were given to it, in order.
    pub offered: Seq<Command>,
    /// Those that the channel took.
    pub sent: Seq<Command>,
    /// The tracks that came back.
    pub tracks: ring::Intake<Arc<Track>>,
    /// The timecode inputs that came back.
    pub inputs: ring::Intake<Box<TimecodeInput>>,
    /// The thru sources that came back.
    pub thrus: ring::Intake<Box<ThruSource>>,
    /// The counters of what the engine had to give up.
    pub lost_tracks: Arc<AtomicU64>,
    pub lost_inputs: Arc<AtomicU64>,
    pub lost_thrus: Arc<AtomicU64>,
    /// Where the decks show their transport.
    pub boards: Seq<Arc<DeckSharedState>>,
    pub sample_rate: Single,
}

/// What a handle and its engine have in common.
pub ghost struct Wiring {
    /// The channel to the engine.
    pub commands: ring::Channel,
    /// The channels from the engine.
    pub tracks: ring::Channel,
    pub inputs: ring::Channel,
    pub thrus: ring::Channel,
    /// The counters of what the engine had to give up.
    pub lost_tracks: Arc<AtomicU64>,
    pub lost_inputs: Arc<AtomicU64>,
    pub lost_thrus: Arc<AtomicU64>,
    /// Where the decks show their transport.
    pub boards: Seq<Arc<DeckSharedState>>,
}

/// What a handle has in common with its engine.
pub open spec fn wiring(v: HandleView) -> Wiring {
    Wiring {
        commands: v.commands,
        tracks: v.tracks.channel,
        inputs: v.inputs.channel,
        thrus: v.thrus.channel,
        lost_tracks: v.lost_tracks,
        lost_inputs: v.lost_inputs,
        lost_thrus: v.lost_thrus,
        boards: v.boards,
    }
}

/// The channels have the room that they should have.
pub open spec fn roomy(w: Wiring) -> bool {
    &&& w.commands.capacity == mixer::COMMAND_CHANNEL_CAPACITY
    &&& w.tracks.capacity == TRASH_CHANNEL_CAPACITY
    &&& w.inputs.capacity == TIMECODE_TRASH_CHANNEL_CAPACITY
    &&& w.thrus.capacity == THRU_TRASH_CHANNEL_CAPACITY
}

/// A handle through which nothing went.
pub open spec fn fresh(sample_rate: Single, w: Wiring) -> HandleView {
    HandleView {
        commands: w.commands,
        offered: Seq::empty(),
        sent: Seq::empty(),
        tracks: ring::no_intake(w.tracks),
        inputs: ring::no_intake(w.inputs),
        thrus: ring::no_intake(w.thrus),
        lost_tracks: w.lost_tracks,
        lost_inputs: w.lost_inputs,
        lost_thrus: w.lost_thrus,
        boards: w.boards,
        sample_rate,
    }
}

/// The way back of an engine through which nothing went.
pub open spec fn unused<T>(channel: ring::Channel, counter: Arc<AtomicU64>) -> Option<
    disposal::DisposalView<T>,
> {
    Some(
        disposal::DisposalView {
            channel,
            counter,
            offered: Seq::empty(),
            sent: Seq::empty(),
            leaked: 0,
        },
    )
}

/// A handle that was given a command, which the channel took or not.
pub open spec fn asked(v: HandleView, c: Command, took: bool) -> HandleView {
    HandleView {
        offered: v.offered.push(c),
        sent: if took {
            v.sent.push(c)
        } else {
            v.sent
        },
        ..v
    }
}

/// A ring of at most `most` items was emptied of `n` items: it was asked until it
/// had none or gave `most`.
pub open spec fn emptied<T>(
    before: ring::Intake<T>,
    after: ring::Intake<T>,
    most: nat,
    n: nat,
) -> bool {
    &&& n <= most
    &&& after.channel == before.channel
    &&& before.taken.is_prefix_of(after.taken)
    &&& after.taken.len() == before.taken.len() + n
    &&& after.asked == before.asked + if n < most {
        n + 1
    } else {
        n
    }
}

/// The handle took back `a` tracks, `b` timecode inputs and `c` thru sources.
pub open spec fn took_back(v: HandleView, w: HandleView, a: nat, b: nat, c: nat) -> bool {
    &&& emptied(v.tracks, w.tracks, TRASH_CHANNEL_CAPACITY as nat, a)
    &&& emptied(v.inputs, w.inputs, TIMECODE_TRASH_CHANNEL_CAPACITY as nat, b)
    &&& emptied(v.thrus, w.thrus, THRU_TRASH_CHANNEL_CAPACITY as nat, c)
    &&& w == (HandleView { tracks: w.tracks, inputs: w.inputs, thrus: w.thrus, ..v })
}

/// The handle took back all that waited, `n` items.
pub open spec fn reclaimed(v: HandleView, w: HandleView, n: nat) -> bool {
    exists|a: nat, b: nat, c: nat| #[trigger] took_back(v, w, a, b, c) && n == a + b + c
}

/// The error of a deck that does not exist.
pub open spec fn no_deck(idx: usize) -> CommandError {
    CommandError::InvalidDeck { idx: idx as u8, count: mixer::DECK_COUNT as u8 }
}

/// The channel for commands can be full: it has taken as many as it has room for.
pub open spec fn may_be_full(v: HandleView) -> bool {
    v.sent.len() >= v.commands.capacity
}

/// A command for a deck turned the handle `v` into `w`: refused where there is no
/// such deck, or else given to the channel, which took it where the result is
/// good.
pub open spec fn commanded(
    v: HandleView,
    w: HandleView,
    idx: usize,
    c: Command,
    r: Result<(), CommandError>,
) -> bool {
    if idx >= mixer::DECK_COUNT {
        r == Err::<(), CommandError>(no_deck(idx)) && w == v
    } else {
        &&& r is Ok || r == Err::<(), CommandError>(CommandError::ChannelFull) && may_be_full(v)
        &&& w == asked(v, c, r is Ok)
    }
}

/// A track for a deck was given to the channel after the handle took back `n`
/// items; the handle became `m` on the way.
pub open spec fn load_sent(
    v: HandleView,
    m: HandleView,
    w: HandleView,
    n: nat,
    idx: usize,
    source: Arc<Track>,
    took: bool,
) -> bool {
    &&& reclaimed(v, m, n)
    &&& w == asked(m, Command::DeckLoad { idx: idx as u8, source }, took)
}

/// A track for a deck was given to the channel after the handle took back what
/// waited.
pub open spec fn load_given(
    v: HandleView,
    w: HandleView,
    idx: usize,
    source: Arc<Track>,
    took: bool,
) -> bool {
    exists|m: HandleView, n: nat| #[trigger] load_sent(v, m, w, n, idx, source, took)
}

/// Why a timecode input cannot be sent to a deck.
pub open spec fn input_fault(sample_rate: Single, idx: usize, c: TimecodeInputConfig) -> Option<
    AttachError,
> {
    if idx >= mixer::DECK_COUNT {
        Some(AttachError::InvalidDeck { idx, count: mixer::DECK_COUNT })
    } else {
        lift::fault(c, sample_rate)
    }
}

/// The timecode input `x`, whose state is `state`, was given to the channel after
/// the handle took back `n` items; the handle became `m` on the way.
pub open spec fn input_sent(
    v: HandleView,
    m: HandleView,
    w: HandleView,
    n: nat,
    idx: usize,
    x: Box<TimecodeInput>,
    state: input::InputView,
    took: bool,
) -> bool {
    &&& reclaimed(v, m, n)
    &&& x@ == state
    &&& w == asked(m, Command::AttachTimecodeInput { idx: idx as u8, input: x }, took)
}

/// A timecode input in the state `state` was given to the channel after the handle
/// took back what waited.
pub open spec fn input_given(
    v: HandleView,
    w: HandleView,
    idx: usize,
    state: input::InputView,
    took: bool,
) -> bool {
    exists|m: HandleView, n: nat, x: Box<TimecodeInput>| #[trigger]
        input_sent(v, m, w, n, idx, x, state, took)
}

/// The thru source `x`, whose state is `state`, was given to the channel after the
/// handle took back `n` items; the handle became `m` on the way.
pub open spec fn thru_sent(
    v: HandleView,
    m: HandleView,
    w: HandleView,
    n: nat,
    idx: usize,
    x: Box<ThruSource>,
    state: thru::ThruView,
    took: bool,
) -> bool {
    &&& reclaimed(v, m, n)
    &&& x@ == state
    &&& w == asked(m, Command::AttachThruSource { idx: idx as u8, source: x }, took)
}

/// A thru source in the state `state` was given to the channel after the handle
/// took back what waited.
pub open spec fn thru_given(
    v: HandleView,
    w: HandleView,
    idx: usize,
    state: thru::ThruView,
    took: bool,
) -> bool {
    exists|m: HandleView, n: nat, x: Box<ThruSource>| #[trigger]
        thru_sent(v, m, w, n, idx, x, state, took)
}

/// A tap to which nothing went.
pub open spec fn unused_tap(channel: ring::Channel) -> thru::TapView {
    thru::TapView { channel, offered: Seq::empty(), sent: Seq::empty() }
}

/// A thru source that has played nothing, and whose taps `bpm` and `peaks` receive.
pub open spec fn fresh_thru(
    rx: Receiver<Single>,
    c: ThruInputConfig,
    bpm: Option<Receiver<Single>>,
    peaks: Option<Receiver<Single>>,
) -> thru::ThruView {
    thru::ThruView {
        intake: rx.intake(),
        block_frames: c.max_block_frames as nat,
        bpm: match bpm {
            Some(tap) => Some(unused_tap(tap.intake().channel)),
            None => None,
        },
        peaks: match peaks {
            Some(tap) => Some(unused_tap(tap.intake().channel)),
            None => None,
        },
    }
}

/// The receiving end of a tap that holds `secs` seconds of audio and has received
/// nothing.
pub open spec fn is_tap(tap: Receiver<Single>, sample_rate: Single, secs: nat) -> bool {
    &&& tap.intake() == ring::no_intake::<Single>(tap.intake().channel)
    &&& tap.intake().channel.capacity == tap_capacity(sample_rate, secs)
}

/// The sample rate of the engine in whole hertz.
pub open spec fn whole_rate(sample_rate: Single) -> u32 {
    single::floor(sample_rate, u32::MAX as nat) as u32
}

/// Why a thru source with a tempo tap cannot be sent to a deck.
pub open spec fn bpm_fault<E>(
    sample_rate: Single,
    idx: usize,
    c: ThruInputConfig,
    tracker_sr: u32,
) -> Option<ThruAttachWithBpmError<E>> {
    match mixer::thru_fault(sample_rate, idx, c) {
        Some(e) => Some(ThruAttachWithBpmError::Thru(e)),
        None => if tracker_sr != whole_rate(sample_rate) {
            Some(
                ThruAttachWithBpmError::SampleRateMismatch {
                    tracker_sr,
                    engine_sr: whole_rate(sample_rate),
                },
            )
        } else {
            None
        },
    }
}

/// Why a thru source with a peaks tap cannot be sent to a deck.
pub open spec fn peaks_fault(
    sample_rate: Single,
    idx: usize,
    c: ThruInputConfig,
    peaks_sr: u32,
) -> Option<ThruAttachWithPeaksError> {
    match mixer::thru_fault(sample_rate, idx, c) {
        Some(e) => Some(ThruAttachWithPeaksError::Thru(e)),
        None => if peaks_sr != whole_rate(sample_rate) {
            Some(
                ThruAttachWithPeaksError::SampleRateMismatch {
                    peaks_sr,
                    engine_sr: whole_rate(sample_rate),
                },
            )
        } else {
            None
        },
    }
}

/// Why a thru source with both taps cannot be sent to a deck.
pub open spec fn telemetry_fault<E>(
    sample_rate: Single,
    idx: usize,
    c: ThruInputConfig,
    tracker_sr: u32,
    peaks_sr: u32,
) -> Option<ThruAttachWithTelemetryError<E>> {
    match mixer::thru_fault(sample_rate, idx, c) {
        Some(e) => Some(ThruAttachWithTelemetryError::Thru(e)),
        None => if tracker_sr != whole_rate(sample_rate) {
            Some(
                ThruAttachWithTelemetryError::BpmSampleRateMismatch {
                    tracker_sr,
                    engine_sr: whole_rate(sample_rate),
                },
            )
        } else if peaks_sr != whole_rate(sample_rate) {
            Some(
                ThruAttachWithTelemetryError::PeaksSampleRateMismatch {
                    peaks_sr,
                    engine_sr: whole_rate(sample_rate),
                },
            )
        } else {
            None
        },
    }
}

/// The samples for which the ring of a tap has room.
pub open spec fn tap_capacity(sample_rate: Single, secs: nat) -> nat {
    let samples = single::floor(sample_rate, u64::MAX as nat) * secs;
    if samples < MIN_TAP_CAPACITY {
        MIN_TAP_CAPACITY as nat
    } else {
        samples
    }
}

/// A tap can be made.
pub open spec fn taps_fit(sample_rate: Single) -> bool {
    ring::fits::<Single>(tap_capacity(sample_rate, 1))
}

/// The channels of a handle can be made.
pub open spec fn channels_fit() -> bool {
    &&& ring::fits::<Command>(mixer::COMMAND_CHANNEL_CAPACITY as nat)
    &&& ring::fits::<Arc<Track>>(TRASH_CHANNEL_CAPACITY as nat)
    &&& ring::fits::<Box<TimecodeInput>>(TIMECODE_TRASH_CHANNEL_CAPACITY as nat)
    &&& ring::fits::<Box<ThruSource>>(THRU_TRASH_CHANNEL_CAPACITY as nat)
}

/// Whether the channels of a handle can be made.
pub fn can_connect() -> (r: bool)
    ensures
        r == channels_fit(),
{
    ring::can_hold::<Command>(mixer::COMMAND_CHANNEL_CAPACITY) && ring::can_hold::<Arc<Track>>(
        TRASH_CHANNEL_CAPACITY,
    ) && ring::can_hold::<Box<TimecodeInput>>(TIMECODE_TRASH_CHANNEL_CAPACITY) && ring::can_hold::<
        Box<ThruSource>,
    >(THRU_TRASH_CHANNEL_CAPACITY)
}

/// A thru source with the tempo tap `tap` was given to the channel. Where it was
/// taken, tempo analysis of the tap started or failed.
pub open spec fn bpm_attached<B, E, S: FnOnce(Receiver<Single>) -> Result<B, E>>(
    v: HandleView,
    w: HandleView,
    idx: usize,
    rx: Receiver<Single>,
    c: ThruInputConfig,
    spawn: S,
    tap: Receiver<Single>,
    r: Result<B, ThruAttachWithBpmError<E>>,
) -> bool {
    &&& is_tap(tap, v.sample_rate, BPM_TEE_RING_CAPACITY_SECS as nat)
    &&& thru_given(
        v,
        w,
        idx,
        fresh_thru(rx, c, Some(tap), None),
        !(r matches Err(ThruAttachWithBpmError::Thru(_))),
    )
    &&& match r {
        Ok(tracking) => call_ensures(spawn, (tap,), Ok::<B, E>(tracking)),
        Err(ThruAttachWithBpmError::BadTrackerConfig(e)) => call_ensures(
            spawn,
            (tap,),
            Err::<B, E>(e),
        ),
        Err(e) => e == ThruAttachWithBpmError::<E>::Thru(ThruAttachError::ChannelFull)
            && may_be_full(v),
    }
}

/// A thru source with the peaks tap `tap` was given to the channel. Where it was
/// taken, the tap is handed out if a peak stream can start with it.
pub open spec fn peaks_attached(
    v: HandleView,
    w: HandleView,
    idx: usize,
    rx: Receiver<Single>,
    c: ThruInputConfig,
    peaks_cfg: PeakStreamConfig,
    tap: Receiver<Single>,
    r: Result<Receiver<Single>, ThruAttachWithPeaksError>,
) -> bool {
    &&& is_tap(tap, v.sample_rate, PEAKS_TAP_RING_CAPACITY_SECS as nat)
    &&& thru_given(
        v,
        w,
        idx,
        fresh_thru(rx, c, None, Some(tap)),
        !(r matches Err(ThruAttachWithPeaksError::Thru(_))),
    )
    &&& match r {
        Ok(given) => given == tap && stream::fault(peaks_cfg) is None,
        Err(ThruAttachWithPeaksError::BadPeaksConfig(e)) => stream::fault(peaks_cfg) == Some(e),
        Err(e) => e == ThruAttachWithPeaksError::Thru(ThruAttachError::ChannelFull)
            && may_be_full(v),
    }
}

/// A thru source with the taps `bpm` and `peaks` was given to the channel. Where it
/// was taken, tempo analysis of the one started or failed; where it started, the
/// other is handed out if a peak stream can start with it.
pub open spec fn telemetry_attached<B, E, S: FnOnce(Receiver<Single>) -> Result<B, E>>(
    v: HandleView,
    w: HandleView,
    idx: usize,
    rx: Receiver<Single>,
    c: ThruInputConfig,
    spawn: S,
    peaks_cfg: PeakStreamConfig,
    bpm: Receiver<Single>,
    peaks: Receiver<Single>,
    r: Result<(B, Receiver<Single>), ThruAttachWithTelemetryError<E>>,
) -> bool {
    &&& is_tap(bpm, v.sample_rate, BPM_TEE_RING_CAPACITY_SECS as nat)
    &&& is_tap(peaks, v.sample_rate, PEAKS_TAP_RING_CAPACITY_SECS as nat)
    &&& thru_given(
        v,
        w,
        idx,
        fresh_thru(rx, c, Some(bpm), Some(peaks)),
        !(r matches Err(ThruAttachWithTelemetryError::Thru(_))),
    )
    &&& match r {
        Ok((tracking, given)) => call_ensures(spawn, (bpm,), Ok::<B, E>(tracking)) && given == peaks
            && stream::fault(peaks_cfg) is None,
        Err(ThruAttachWithTelemetryError::BadTrackerConfig(e)) => call_ensures(
            spawn,
            (bpm,),
            Err::<B, E>(e),
        ),
        Err(ThruAttachWithTelemetryError::BadPeaksConfig(e)) => stream::fault(peaks_cfg) == Some(e)
            && exists|tracking: B| call_ensures(spawn, (bpm,), Ok::<B, E>(tracking)),
        Err(e) => e == ThruAttachWithTelemetryError::<E>::Thru(ThruAttachError::ChannelFull)
            && may_be_full(v),
    }
}

/// Takes items out of a ring until there are none, at most `most`.
fn empty<T>(rx: &mut Receiver<T>, most: usize) -> (n: usize)
    ensures
        emptied(old(rx).intake(), final(rx).intake(), most as nat, n as nat),
{
    let ghost before = rx.intake();
    let mut n: usize = 0;
    let mut more: bool = true;
    proof {
        assert(before.taken =~= before.taken.subrange(0, before.taken.len() as int));
    }
    while more && n < most
        invariant
            n <= most,
            rx.intake().channel == before.channel,
            before.taken.is_prefix_of(rx.intake().taken),
            rx.intake().taken.len() == before.taken.len() + n,
            rx.intake().asked == before.asked + n + if more {
                0nat
            } else {
                1
            },
            !more ==> n < most,
        decreases most - n + if more { 1int } else { 0 },
    {
        let ghost taken = rx.intake().taken;
        match rx.try_pop() {
            Some(_item) => {
                n = n + 1;
            },
            None => {
                more = false;
            },
        }
        proof {
            assert(before.taken =~= taken.subrange(0, before.taken.len() as int));
            assert(before.taken =~= rx.intake().taken.subrange(0, before.taken.len() as int));
        }
    }
    n
}

/// A reader can find a counter at `n`.
pub open spec fn may_count(counter: AtomicU64, n: u64) -> bool {
    call_ensures(AtomicU64::load, (&counter, Ordering::Relaxed), n)
}

/// A reader can find what `s` says on a board.
pub open spec fn may_show(board: DeckSharedState, s: DeckSnapshot) -> bool {
    &&& board.may_show_position(s.position_frames)
    &&& board.may_show_playing(s.is_playing)
    &&& board.may_show_at_end(s.at_end)
}

/// How often a counter was raised.
fn read_counter(counter: &AtomicU64) -> (r: u64)
    ensures
        may_count(*counter, r),
{
    counter.load(Ordering::Relaxed)
}

impl EngineHandle {
    pub closed spec fn view(&self) -> HandleView {
        HandleView {
            commands: self.tx.channel(),
            offered: self.tx.offered(),
            sent: self.tx.sent(),
            tracks: self.trash_rx.intake(),
            inputs: self.timecode_trash_rx.intake(),
            thrus: self.thru_trash_rx.intake(),
            lost_tracks: self.overflow_counter,
            lost_inputs: self.timecode_trash_overflow,
            lost_thrus: self.thru_trash_overflow,
            boards: self.deck_shared@,
            sample_rate: self.engine_sample_rate,
        }
    }

    /// Commands for one deck.
    pub fn deck(&mut self, idx: usize) -> (r: DeckCommand<'_>)
        ensures
            (*r.handle)@ == old(self)@,
            r.idx == idx,
            (*final(r.handle))@ == final(self)@,
    {
        DeckCommand { handle: self, idx }
    }

    /// The sample rate of the engine.
    pub fn sample_rate(&self) -> (r: Single)
        ensures
            r == self@.sample_rate,
    {
        self.engine_sample_rate
    }

    /// What a deck shows now on its board; nothing where there is no such deck. What a
    /// reader can find there is up to the audio thread.
    pub fn deck_state(&self, idx: usize) -> (r: Option<DeckSnapshot>)
        ensures
            match r {
                Some(s) => idx < mixer::DECK_COUNT && may_show(*self@.boards[idx as int], s),
                None => idx >= mixer::DECK_COUNT,
            },
    {
        if idx >= mixer::DECK_COUNT {
            return None;
        }
        let shared: &Arc<DeckSharedState> = &self.deck_shared[idx];
        Some(
            DeckSnapshot {
                position_frames: shared.load_position(),
                is_playing: shared.load_playing(),
                at_end: shared.load_at_end(),
            },
        )
    }

    /// Takes back what the engine is done with and drops it. Returns how many items
    /// that was.
    pub fn reclaim(&mut self) -> (n: usize)
        ensures
            reclaimed(old(self)@, final(self)@, n as nat),
    {
        let ghost v = self@;
        let a: usize = empty(&mut self.trash_rx, TRASH_CHANNEL_CAPACITY);
        let b: usize = empty(&mut self.timecode_trash_rx, TIMECODE_TRASH_CHANNEL_CAPACITY);
        let c: usize = empty(&mut self.thru_trash_rx, THRU_TRASH_CHANNEL_CAPACITY);
        assert(took_back(v, self@, a as nat, b as nat, c as nat));
        a + b + c
    }

    /// How many tracks the engine had to give up because too many were on their way
    /// back, by its counter, which it raises at any time.
    pub fn trash_overflow_count(&self) -> (r: u64)
        ensures
            may_count(*self@.lost_tracks, r),
    {
        read_counter(&self.overflow_counter)
    }

    /// How many timecode inputs the engine had to give up.
    pub fn timecode_trash_overflow_count(&self) -> (r: u64)
        ensures
            may_count(*self@.lost_inputs, r),
    {
        read_counter(&self.timecode_trash_overflow)
    }

    /// How many thru sources the engine had to give up.
    pub fn thru_trash_overflow_count(&self) -> (r: u64)
        ensures
            may_count(*self@.lost_thrus, r),
    {
        read_counter(&self.thru_trash_overflow)
    }

    /// Asks for a gain of the mix.
    pub fn set_master_gain(&mut self, gain: Single) -> (r: Result<(), CommandError>)
        ensures
            r is Ok || r == Err::<(), CommandError>(CommandError::ChannelFull) && may_be_full(
                old(self)@,
            ),
            final(self)@ == asked(old(self)@, Command::SetMasterGain { gain }, r is Ok),
    {
        self.send(Command::SetMasterGain { gain })
    }

    /// Lets a deck follow a timecode input, from the next block on. An input that
    /// the deck followed before comes back for disposal.
    pub fn attach_timecode_input(
        &mut self,
        idx: usize,
        rx: Receiver<Single>,
        config: TimecodeInputConfig,
    ) -> (r: Result<(), AttachError>)
        requires
            input_fault(old(self)@.sample_rate, idx, config) is None ==> single::less(
                Single { bits: single::ZERO },
                config.input_sample_rate,
            ) && 2 * config.max_block_frames <= single::MAX_IN_MEMORY,
        ensures
            match input_fault(old(self)@.sample_rate, idx, config) {
                Some(e) => r == Err::<(), AttachError>(e) && final(self)@ == old(self)@,
                None => {
                    &&& r is Ok || r == Err::<(), AttachError>(AttachError::ChannelFull)
                        && may_be_full(old(self)@)
                    &&& input_given(
                        old(self)@,
                        final(self)@,
                        idx,
                        (input::InputView {
                            intake: rx.intake(),
                            room: 2 * config.max_block_frames as nat,
                            follower: input::fresh(config),
                        }),
                        r is Ok,
                    )
                },
            },
    {
        let ghost v = self@;
        if idx >= mixer::DECK_COUNT {
            return Err(AttachError::InvalidDeck { idx, count: mixer::DECK_COUNT });
        }
        match config.validate(self.engine_sample_rate) {
            Err(e) => {
                return Err(e);
            },
            Ok(()) => {},
        }
        let n: usize = self.reclaim();
        let ghost m = self@;
        let input: Box<TimecodeInput> = Box::new(TimecodeInput::new(rx, config));
        let r = match self.tx.try_push(Command::AttachTimecodeInput { idx: idx as u8, input }) {
            Ok(()) => Ok(()),
            Err(_) => Err(AttachError::ChannelFull),
        };
        assert(input_sent(v, m, self@, n as nat, idx, input, input@, r is Ok));
        r
    }

    /// Gives a thru source to the channel.
    fn send_thru(&mut self, idx: usize, source: Box<ThruSource>) -> (r: Result<
        (),
        ThruAttachError,
    >)
        requires
            idx < mixer::DECK_COUNT,
        ensures
            r is Ok || r == Err::<(), ThruAttachError>(ThruAttachError::ChannelFull)
                && may_be_full(old(self)@),
            thru_given(old(self)@, final(self)@, idx, source@, r is Ok),
    {
        let ghost v = self@;
        let n: usize = self.reclaim();
        let ghost m = self@;
        let r = match self.tx.try_push(Command::AttachThruSource { idx: idx as u8, source }) {
            Ok(()) => Ok(()),
            Err(_) => Err(ThruAttachError::ChannelFull),
        };
        assert(thru_sent(v, m, self@, n as nat, idx, source, source@, r is Ok));
        r
    }

    /// Whether a thru source can be sent to a deck.
    fn check_thru(&self, idx: usize, config: &ThruInputConfig) -> (r: Result<(), ThruAttachError>)
        ensures
            match r {
                Ok(()) => mixer::thru_fault(self@.sample_rate, idx, *config) is None,
                Err(e) => mixer::thru_fault(self@.sample_rate, idx, *config) == Some(e),
            },
    {
        if idx >= mixer::DECK_COUNT {
            return Err(ThruAttachError::InvalidDeck { idx, count: mixer::DECK_COUNT });
        }
        config.validate(self.engine_sample_rate)
    }

    /// The ring of a tap.
    fn tap_ring(&self, secs: usize) -> (r: (Sender<Single>, Receiver<Single>))
        requires
            secs == 1,
            taps_fit(self@.sample_rate),
        ensures
            thru::sender_view(r.0) == unused_tap(r.1.intake().channel),
            is_tap(r.1, self@.sample_rate, secs as nat),
    {
        let samples: usize = self.engine_sample_rate.to_u64(u64::MAX) as usize * secs;
        let capacity: usize = if samples < MIN_TAP_CAPACITY {
            MIN_TAP_CAPACITY
        } else {
            samples
        };
        assert(capacity == tap_capacity(self@.sample_rate, secs as nat));
        ring::ring(capacity)
    }

    /// Lets a deck play a record through, from the next block on. A source that the
    /// deck had before comes back for disposal.
    pub fn attach_thru_source(
        &mut self,
        idx: usize,
        rx: Receiver<Single>,
        config: ThruInputConfig,
    ) -> (r: Result<(), ThruAttachError>)
        requires
            mixer::thru_fault(old(self)@.sample_rate, idx, config) is None
                ==> 2 * config.max_block_frames <= single::MAX_IN_MEMORY,
        ensures
            match mixer::thru_fault(old(self)@.sample_rate, idx, config) {
                Some(e) => r == Err::<(), ThruAttachError>(e) && final(self)@ == old(self)@,
                None => {
                    &&& r is Ok || r == Err::<(), ThruAttachError>(ThruAttachError::ChannelFull)
                        && may_be_full(old(self)@)
                    &&& thru_given(
                        old(self)@,
                        final(self)@,
                        idx,
                        fresh_thru(rx, config, None, None),
                        r is Ok,
                    )
                },
            },
    {
        match self.check_thru(idx, &config) {
            Err(e) => {
                return Err(e);
            },
            Ok(()) => {},
        }
        let source: Box<ThruSource> = Box::new(ThruSource::new(rx, config));
        self.send_thru(idx, source)
    }

    /// Lets a deck play a record through, with a tap for tempo analysis at
    /// `tracker_sr`. The tap holds a second of audio; `spawn` starts the analysis of
    /// its other end once the source was sent.
    pub fn attach_thru_source_with_bpm_tracking<B, E, S: FnOnce(Receiver<Single>) -> Result<B, E>>(
        &mut self,
        idx: usize,
        rx: Receiver<Single>,
        config: ThruInputConfig,
        tracker_sr: u32,
        spawn: S,
    ) -> (r: Result<B, ThruAttachWithBpmError<E>>)
        requires
            bpm_fault::<E>(old(self)@.sample_rate, idx, config, tracker_sr) is None
                ==> 2 * config.max_block_frames <= single::MAX_IN_MEMORY && taps_fit(
                old(self)@.sample_rate,
            ),
            forall|tap: Receiver<Single>| call_requires(spawn, (tap,)),
        ensures
            match bpm_fault::<E>(old(self)@.sample_rate, idx, config, tracker_sr) {
                Some(e) => r == Err::<B, ThruAttachWithBpmError<E>>(e) && final(self)@
                    == old(self)@,
                None => exists|tap: Receiver<Single>| #[trigger]
                    bpm_attached(old(self)@, final(self)@, idx, rx, config, spawn, tap, r),
            },
    {
        match self.check_thru(idx, &config) {
            Err(e) => {
                return Err(ThruAttachWithBpmError::Thru(e));
            },
            Ok(()) => {},
        }
        let engine_sr: u32 = self.engine_sample_rate.to_u64(u32::MAX as u64) as u32;
        if tracker_sr != engine_sr {
            return Err(ThruAttachWithBpmError::SampleRateMismatch { tracker_sr, engine_sr });
        }
        let (bpm_tx, bpm_rx) = self.tap_ring(BPM_TEE_RING_CAPACITY_SECS);
        let ghost v = self@;
        let ghost tap = bpm_rx;
        let source: Box<ThruSource> = Box::new(
            ThruSource::new(rx, config).with_bpm_tee(bpm_tx, config.max_block_frames),
        );
        let r = match self.send_thru(idx, source) {
            Ok(()) => match spawn(bpm_rx) {
                Ok(tracking) => Ok(tracking),
                Err(e) => Err(ThruAttachWithBpmError::BadTrackerConfig(e)),
            },
            Err(e) => Err(ThruAttachWithBpmError::Thru(e)),
        };
        assert(bpm_attached(v, self@, idx, rx, config, spawn, tap, r));
        r
    }

    /// Lets a deck play a record through, with a tap for its peaks. The tap holds a
    /// second of audio; its other end is returned, unless the peak stream could not
    /// start with it.
    pub fn attach_thru_source_with_peaks_tracking(
        &mut self,
        idx: usize,
        rx: Receiver<Single>,
        config: ThruInputConfig,
        peaks_cfg: PeakStreamConfig,
    ) -> (r: Result<Receiver<Single>, ThruAttachWithPeaksError>)
        requires
            peaks_fault(old(self)@.sample_rate, idx, config, peaks_cfg.sample_rate) is None
                ==> 2 * config.max_block_frames <= single::MAX_IN_MEMORY && taps_fit(
                old(self)@.sample_rate,
            ),
        ensures
            match peaks_fault(old(self)@.sample_rate, idx, config, peaks_cfg.sample_rate) {
                Some(e) => r is Err && r->Err_0 == e && final(self)@ == old(self)@,
                None => exists|tap: Receiver<Single>| #[trigger]
                    peaks_attached(old(self)@, final(self)@, idx, rx, config, peaks_cfg, tap, r),
            },
    {
        match self.check_thru(idx, &config) {
            Err(e) => {
                return Err(ThruAttachWithPeaksError::Thru(e));
            },
            Ok(()) => {},
        }
        let engine_sr: u32 = self.engine_sample_rate.to_u64(u32::MAX as u64) as u32;
        if peaks_cfg.sample_rate != engine_sr {
            return Err(
                ThruAttachWithPeaksError::SampleRateMismatch {
                    peaks_sr: peaks_cfg.sample_rate,
                    engine_sr,
                },
            );
        }
        let (peaks_tx, peaks_rx) = self.tap_ring(PEAKS_TAP_RING_CAPACITY_SECS);
        let ghost v = self@;
        let ghost tap = peaks_rx;
        let source: Box<ThruSource> = Box::new(ThruSource::new(rx, config).with_peaks_tap(peaks_tx));
        let r = match self.send_thru(idx, source) {
            Ok(()) => match peaks_cfg.validate() {
                Ok(()) => Ok(peaks_rx),
                Err(e) => Err(ThruAttachWithPeaksError::BadPeaksConfig(e)),
            },
            Err(e) => Err(ThruAttachWithPeaksError::Thru(e)),
        };
        assert(peaks_attached(v, self@, idx, rx, config, peaks_cfg, tap, r));
        r
    }

    /// Lets a deck play a record through, with both taps. `spawn` starts tempo
    /// analysis of the other end of the one once the source was sent; the other end
    /// of the other is returned, unless the peak stream could not start with it.
    pub fn attach_thru_source_with_telemetry<B, E, S: FnOnce(Receiver<Single>) -> Result<B, E>>(
        &mut self,
        idx: usize,
        rx: Receiver<Single>,
        config: ThruInputConfig,
        tracker_sr: u32,
        spawn: S,
        peaks_cfg: PeakStreamConfig,
    ) -> (r: Result<(B, Receiver<Single>), ThruAttachWithTelemetryError<E>>)
        requires
            telemetry_fault::<E>(
                old(self)@.sample_rate,
                idx,
                config,
                tracker_sr,
                peaks_cfg.sample_rate,
            ) is None ==> 2 * config.max_block_frames <= single::MAX_IN_MEMORY && taps_fit(
                old(self)@.sample_rate,
            ),
            forall|tap: Receiver<Single>| call_requires(spawn, (tap,)),
        ensures
            match telemetry_fault::<E>(
                old(self)@.sample_rate,
                idx,
                config,
                tracker_sr,
                peaks_cfg.sample_rate,
            ) {
                Some(e) => r is Err && r->Err_0 == e && final(self)@ == old(self)@,
                None => exists|bpm: Receiver<Single>, peaks: Receiver<Single>| #[trigger]
                    telemetry_attached(
                        old(self)@,
                        final(self)@,
                        idx,
                        rx,
                        config,
                        spawn,
                        peaks_cfg,
                        bpm,
                        peaks,
                        r,
                    ),
            },
    {
        match self.check_thru(idx, &config) {
            Err(e) => {
                return Err(ThruAttachWithTelemetryError::Thru(e));
            },
            Ok(()) => {},
        }
        let engine_sr: u32 = self.engine_sample_rate.to_u64(u32::MAX as u64) as u32;
        if tracker_sr != engine_sr {
            return Err(ThruAttachWithTelemetryError::BpmSampleRateMismatch { tracker_sr, engine_sr });
        }
        if peaks_cfg.sample_rate != engine_sr {
            return Err(
                ThruAttachWithTelemetryError::PeaksSampleRateMismatch {
                    peaks_sr: peaks_cfg.sample_rate,
                    engine_sr,
                },
            );
        }
        let (bpm_tx, bpm_rx) = self.tap_ring(BPM_TEE_RING_CAPACITY_SECS);
        let (peaks_tx, peaks_rx) = self.tap_ring(PEAKS_TAP_RING_CAPACITY_SECS);
        let ghost v = self@;
        let ghost bpm = bpm_rx;
        let ghost peaks = peaks_rx;
        let source: Box<ThruSource> = Box::new(
            ThruSource::new(rx, config).with_bpm_tee(
                bpm_tx,
                config.max_block_frames,
            ).with_peaks_tap(peaks_tx),
        );
        let r = match self.send_thru(idx, source) {
            Ok(()) => match spawn(bpm_rx) {
                Ok(tracking) => match peaks_cfg.validate() {
                    Ok(()) => Ok((tracking, peaks_rx)),
                    Err(e) => Err(ThruAttachWithTelemetryError::BadPeaksConfig(e)),
                },
                Err(e) => Err(ThruAttachWithTelemetryError::BadTrackerConfig(e)),
            },
            Err(e) => Err(ThruAttachWithTelemetryError::Thru(e)),
        };
        assert(telemetry_attached(
            v,
            self@,
            idx,
            rx,
            config,
            spawn,
            peaks_cfg,
            bpm,
            peaks,
            r,
        ));
        r
    }

    /// Gives a track to the channel, or gives it back.
    fn send_load(&mut self, idx: usize, source: Arc<Track>) -> (r: Result<
        (),
        (CommandError, Arc<Track>),
    >)
        requires
            idx < mixer::DECK_COUNT,
        ensures
            r matches Err(e) ==> e == (CommandError::ChannelFull, source) && may_be_full(
                old(self)@,
            ),
            load_given(old(self)@, final(self)@, idx, source, r is Ok),
    {
        let ghost v = self@;
        let n: usize = self.reclaim();
        let ghost m = self@;
        match self.tx.try_push(Command::DeckLoad { idx: idx as u8, source }) {
            Ok(()) => {
                assert(load_sent(v, m, self@, n as nat, idx, source, true));
                Ok(())
            },
            Err(back) => {
                assert(load_sent(v, m, self@, n as nat, idx, source, false));
                match back {
                    Command::DeckLoad { source: track, .. } => Err(
                        (CommandError::ChannelFull, track),
                    ),
                    _ => Ok(()),
                }
            },
        }
    }

    fn send(&mut self, cmd: Command) -> (r: Result<(), CommandError>)
        ensures
            r is Ok || r == Err::<(), CommandError>(CommandError::ChannelFull) && may_be_full(
                old(self)@,
            ),
            final(self)@ == asked(old(self)@, cmd, r is Ok),
    {
        match self.tx.try_push(cmd) {
            Ok(()) => Ok(()),
            Err(_) => Err(CommandError::ChannelFull),
        }
    }

    fn check_deck(&self, idx: usize) -> (r: Result<u8, CommandError>)
        ensures
            match r {
                Ok(i) => idx < mixer::DECK_COUNT && i == idx,
                Err(e) => idx >= mixer::DECK_COUNT && e == no_deck(idx),
            },
    {
        if idx < mixer::DECK_COUNT {
            return Ok(idx as u8);
        }
        Err(
            CommandError::InvalidDeck {
                idx: #[verifier::truncate]
                (idx as u8),
                count: mixer::DECK_COUNT as u8,
            },
        )
    }
}

/// Commands for one deck of an engine.
pub struct DeckCommand<'h> {
    pub handle: &'h mut EngineHandle,
    pub idx: usize,
}

impl<'h> DeckCommand<'h> {
    /// Starts the deck.
    pub fn play(self) -> (r: Result<(), CommandError>)
        ensures
            commanded(
                (*old(self.handle))@,
                (*final(self.handle))@,
                self.idx,
                Command::DeckPlay { idx: self.idx as u8 },
                r,
            ),
    {
        let handle = self.handle;
        match handle.check_deck(self.idx) {
            Ok(idx) => handle.send(Command::DeckPlay { idx }),
            Err(e) => Err(e),
        }
    }

    /// Pauses the deck where it is.
    pub fn pause(self) -> (r: Result<(), CommandError>)
        ensures
            commanded(
                (*old(self.handle))@,
                (*final(self.handle))@,
                self.idx,
                Command::DeckPause { idx: self.idx as u8 },
                r,
            ),
    {
        let handle = self.handle;
        match handle.check_deck(self.idx) {
            Ok(idx) => handle.send(Command::DeckPause { idx }),
            Err(e) => Err(e),
        }
    }

    /// Moves the playhead of the deck. Outside the track there is silence.
    pub fn seek(self, position_frames: Double) -> (r: Result<(), CommandError>)
        ensures
            commanded(
                (*old(self.handle))@,
                (*final(self.handle))@,
                self.idx,
                Command::DeckSeek { idx: self.idx as u8, position_frames },
                r,
            ),
    {
        let handle = self.handle;
        match handle.check_deck(self.idx) {
            Ok(idx) => handle.send(Command::DeckSeek { idx, position_frames }),
            Err(e) => Err(e),
        }
    }

    /// Sets the rate of the deck; a negative one plays backwards.
    pub fn set_rate(self, rate: Double) -> (r: Result<(), CommandError>)
        ensures
            commanded(
                (*old(self.handle))@,
                (*final(self.handle))@,
                self.idx,
                Command::DeckSetRate { idx: self.idx as u8, rate },
                r,
            ),
    {
        let handle = self.handle;
        match handle.check_deck(self.idx) {
            Ok(idx) => handle.send(Command::DeckSetRate { idx, rate }),
            Err(e) => Err(e),
        }
    }

    /// Sets the gain of the deck.
    pub fn set_gain(self, gain: Single) -> (r: Result<(), CommandError>)
        ensures
            commanded(
                (*old(self.handle))@,
                (*final(self.handle))@,
                self.idx,
                Command::DeckSetGain { idx: self.idx as u8, gain },
                r,
            ),
    {
        let handle = self.handle;
        match handle.check_deck(self.idx) {
            Ok(idx) => handle.send(Command::DeckSetGain { idx, gain }),
            Err(e) => Err(e),
        }
    }

    /// Puts another track on the deck, which keeps its place and goes on playing or
    /// not as before. The handle takes back what waited first. A track that was not
    /// sent comes back with the error.
    pub fn load(self, source: Arc<Track>) -> (r: Result<(), (CommandError, Arc<Track>)>)
        ensures
            if self.idx >= mixer::DECK_COUNT {
                &&& r is Err && r->Err_0 == (no_deck(self.idx), source)
                &&& (*final(self.handle))@ == (*old(self.handle))@
            } else {
                &&& r matches Err(e) ==> e == (CommandError::ChannelFull, source)
                    && may_be_full((*old(self.handle))@)
                &&& load_given(
                    (*old(self.handle))@,
                    (*final(self.handle))@,
                    self.idx,
                    source,
                    r is Ok,
                )
            },
    {
        let handle = self.handle;
        match handle.check_deck(self.idx) {
            Ok(_) => handle.send_load(self.idx, source),
            Err(e) => Err((e, source)),
        }
    }

    /// What the deck shows now on its board; stopped at the start where there is no such
    /// deck.
    pub fn snapshot(&self) -> (r: DeckSnapshot)
        ensures
            self.idx < mixer::DECK_COUNT ==> may_show(
                *(*old(self.handle))@.boards[self.idx as int],
                r,
            ),
            self.idx >= mixer::DECK_COUNT ==> r == (DeckSnapshot {
                position_frames: Double { bits: double::ZERO },
                is_playing: false,
                at_end: false,
            }),
    {
        match self.handle.deck_state(self.idx) {
            Some(s) => s,
            None => DeckSnapshot {
                position_frames: Double { bits: double::ZERO },
                is_playing: false,
                at_end: false,
            },
        }
    }
}

impl Engine {
    /// An engine and the handle that controls it, joined by their channels, their
    /// counters and what the decks show.
    pub fn new_with_handle<F: Fn(Single) -> Single>(
        sample_rate: Single,
        block_size: usize,
        sin: &F,
    ) -> (r: (Self, EngineHandle))
        requires
            channels_fit(),
            declick::ramp_fits(sample_rate, Single { bits: declick::DEFAULT_DECLICK_MS }),
            forall|x: Single| call_requires(*sin, (x,)),
        ensures
            r.0.wf(),
            r.0.received() == Some(ring::no_intake::<Command>(wiring(r.1@).commands)),
            exists|envelope: Seq<Single>| #[trigger]
                declick::is_envelope(
                    *sin,
                    sample_rate,
                    Single { bits: declick::DEFAULT_DECLICK_MS },
                    envelope,
                ) && r.0@ == mixer::fresh(
                    sample_rate,
                    block_size,
                    envelope,
                    r.1@.boards,
                    unused(wiring(r.1@).tracks, r.1@.lost_tracks),
                    unused(wiring(r.1@).inputs, r.1@.lost_inputs),
                    unused(wiring(r.1@).thrus, r.1@.lost_thrus),
                ),
            r.1@ == fresh(sample_rate, wiring(r.1@)),
            roomy(wiring(r.1@)),
    {
        let (tx, cmd_rx) = ring::ring(mixer::COMMAND_CHANNEL_CAPACITY);
        let (trash_tx, trash_rx) = ring::ring(TRASH_CHANNEL_CAPACITY);
        let (timecode_tx, timecode_trash_rx) = ring::ring(TIMECODE_TRASH_CHANNEL_CAPACITY);
        let (thru_tx, thru_trash_rx) = ring::ring(THRU_TRASH_CHANNEL_CAPACITY);
        let overflow_counter: Arc<AtomicU64> = Arc::new(AtomicU64::new(0));
        let timecode_trash_overflow: Arc<AtomicU64> = Arc::new(AtomicU64::new(0));
        let thru_trash_overflow: Arc<AtomicU64> = Arc::new(AtomicU64::new(0));
        let engine = Engine::assemble(
            sample_rate,
            block_size,
            sin,
            Some(cmd_rx),
            Disposal::through(trash_tx, overflow_counter.clone()),
            Disposal::through(timecode_tx, timecode_trash_overflow.clone()),
            Disposal::through(thru_tx, thru_trash_overflow.clone()),
        );
        let handle = EngineHandle {
            tx,
            trash_rx,
            timecode_trash_rx,
            thru_trash_rx,
            overflow_counter,
            timecode_trash_overflow,
            thru_trash_overflow,
            deck_shared: [engine.deck(0).shared(), engine.deck(1).shared()],
            engine_sample_rate: sample_rate,
        };
        (engine, handle)
    }
}

} // verus!
