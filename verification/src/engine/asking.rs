//! What is asked of an engine from outside: what is sent, and what is refused.

use std::sync::Arc;
use vstd::arithmetic::div_mod::*;
use vstd::arithmetic::power2::*;
use vstd::prelude::*;

use crate::engine::command::Command;
use crate::engine::handle;
use crate::engine::handle::CommandError;
use crate::engine::handle::DeckSnapshot;
use crate::engine::handle::HandleView;
use crate::engine::handle::ThruAttachWithBpmError;
use crate::engine::handle::ThruAttachWithPeaksError;
use crate::engine::handle::ThruAttachWithTelemetryError;
use crate::engine::mixer;
use crate::engine::ring::Receiver;
use crate::engine::shared::DeckSharedState;
use crate::engine::thru;
use crate::engine::thru::ThruAttachError;
use crate::engine::thru::ThruInputConfig;
use crate::engine::thru::ThruSource;
use crate::ieee::exact;
use crate::ieee::exact::single_value;
use crate::ieee::single;
use crate::ieee::single::Single;
use crate::peaks::stream::PeakStreamConfig;
use crate::timecode::holding;
use crate::timecode::input;
use crate::timecode::lift;
use crate::timecode::lift::AttachError;
use crate::timecode::lift::TimecodeInputConfig;
use crate::track::Track;

verus! {

/// A command that is accepted is the last one sent, and the only one more; one that is refused is not
/// sent. It is refused for a deck that does not exist, or while the channel may be full, and nothing
/// else changes.
pub proof fn law_accepted_commands_are_sent_once(
    v: HandleView,
    w: HandleView,
    idx: usize,
    c: Command,
    r: Result<(), CommandError>,
)
    requires
        handle::commanded(v, w, idx, c, r),
    ensures
        r is Ok ==> idx < 2 && w.sent == v.sent.push(c) && w.offered == v.offered.push(c),
        r is Err ==> w.sent == v.sent,
        idx >= 2 ==> w == v && r == Err::<(), CommandError>(
            CommandError::InvalidDeck { idx: idx as u8, count: 2 },
        ),
        idx < 2 && v.sent.len() < v.commands.capacity ==> r is Ok,
        idx < 2 && r is Err ==> r == Err::<(), CommandError>(CommandError::ChannelFull),
        w.commands == v.commands,
        w.tracks == v.tracks,
        w.inputs == v.inputs,
        w.thrus == v.thrus,
        w.boards == v.boards,
        w.sample_rate == v.sample_rate,
{
}

/// Taking back what the engine is done with takes items of all three kinds, in the order in which they
/// came, and counts them all; nothing else changes.
pub proof fn law_everything_taken_back_counts(v: HandleView, w: HandleView, n: nat)
    requires
        handle::reclaimed(v, w, n),
    ensures
        v.tracks.taken.is_prefix_of(w.tracks.taken),
        v.inputs.taken.is_prefix_of(w.inputs.taken),
        v.thrus.taken.is_prefix_of(w.thrus.taken),
        n == (w.tracks.taken.len() - v.tracks.taken.len()) + (w.inputs.taken.len()
            - v.inputs.taken.len()) + (w.thrus.taken.len() - v.thrus.taken.len()),
        w.sent == v.sent,
        w.offered == v.offered,
        w.boards == v.boards,
{
}

/// An input is refused for a deck that does not exist, and otherwise for what is wrong with its
/// configuration; by the engine itself also where the deck has one already.
pub proof fn law_inputs_are_checked(
    v: mixer::EngineView,
    idx: usize,
    c: TimecodeInputConfig,
)
    ensures
        idx >= 2 ==> mixer::input_fault(v, idx, c) == Some(
            AttachError::InvalidDeck { idx, count: 2 },
        ) && handle::input_fault(v.sample_rate, idx, c) == Some(
            AttachError::InvalidDeck { idx, count: 2 },
        ),
        idx < 2 ==> handle::input_fault(v.sample_rate, idx, c) == lift::fault(c, v.sample_rate),
        idx < 2 && lift::fault(c, v.sample_rate) is Some ==> mixer::input_fault(v, idx, c)
            == lift::fault(c, v.sample_rate),
        idx < 2 && lift::fault(c, v.sample_rate) is None ==> mixer::input_fault(v, idx, c) == (
        if v.inputs[idx as int] is Some {
            Some(AttachError::AlreadyAttached { idx })
        } else {
            None
        }),
{
}

/// A thru source is refused for a deck that does not exist, for a sample rate more than half a hertz
/// from that of the engine, and for blocks of no frames.
pub proof fn law_thru_sources_are_checked(engine_sr: Single, idx: usize, c: ThruInputConfig)
    requires
        single::finite(c.input_sample_rate),
        single::finite(engine_sr),
        exact::abs(single_value(c.input_sample_rate)) <= pow2(200),
        exact::abs(single_value(engine_sr)) <= pow2(200),
    ensures
        ({
            let apart = exact::abs(single_value(c.input_sample_rate) - single_value(engine_sr));
            let fault = mixer::thru_fault(engine_sr, idx, c);
            &&& idx >= 2 ==> fault == Some(ThruAttachError::InvalidDeck { idx, count: 2 })
            &&& idx < 2 && apart >= pow2(148) + pow2(128) ==> fault == Some(
                ThruAttachError::SampleRateMismatch { input_sr: c.input_sample_rate, engine_sr },
            )
            &&& idx < 2 && apart + pow2(128) <= pow2(148) && c.max_block_frames == 0 ==> fault
                == Some(ThruAttachError::BadBlockSize)
            &&& idx < 2 && apart + pow2(128) <= pow2(148) && c.max_block_frames > 0 ==> fault
                is None
        }),
{
    holding::lemma_rates_differ(c.input_sample_rate, engine_sr);
}

/// A whole sample rate is itself.
proof fn lemma_whole_rate(n: nat, max: nat)
    requires
        n <= 0x100_0000,
        n <= max,
    ensures
        single::floor(single::from_int(n), max) == n,
{
    let u = pow2(149);
    reveal(single::floor);
    exact::lemma_single_count(n);
    lemma_pow2_pos(149);
    lemma_div_multiples_vanish(n as int, u as int);
    assert(n * u == u * n) by (nonlinear_arith);
}

/// At a whole sample rate of the engine, analysis is refused at any other rate, and a tap holds as many
/// seconds of audio as it is made for, but no fewer than 1024 samples.
pub proof fn law_taps_run_at_the_rate_of_the_engine<E>(
    n: u32,
    idx: usize,
    c: ThruInputConfig,
    tracker_sr: u32,
    peaks_sr: u32,
    secs: nat,
)
    requires
        n <= 0x100_0000,
    ensures
        ({
            let engine_sr = single::from_int(n as nat);
            let fault = mixer::thru_fault(engine_sr, idx, c);
            &&& fault is None ==> {
                &&& handle::bpm_fault::<E>(engine_sr, idx, c, tracker_sr) is None <==> tracker_sr
                    == n
                &&& handle::peaks_fault(engine_sr, idx, c, peaks_sr) is None <==> peaks_sr == n
                &&& handle::telemetry_fault::<E>(engine_sr, idx, c, tracker_sr, peaks_sr) is None
                    <==> tracker_sr == n && peaks_sr == n
                &&& tracker_sr != n ==> handle::bpm_fault::<E>(engine_sr, idx, c, tracker_sr)
                    == Some(
                    ThruAttachWithBpmError::<E>::SampleRateMismatch { tracker_sr, engine_sr: n },
                )
                &&& peaks_sr != n ==> handle::peaks_fault(engine_sr, idx, c, peaks_sr) == Some(
                    ThruAttachWithPeaksError::SampleRateMismatch { peaks_sr, engine_sr: n },
                )
                &&& tracker_sr != n ==> handle::telemetry_fault::<E>(
                    engine_sr,
                    idx,
                    c,
                    tracker_sr,
                    peaks_sr,
                ) == Some(
                    ThruAttachWithTelemetryError::<E>::BpmSampleRateMismatch {
                        tracker_sr,
                        engine_sr: n,
                    },
                )
            }
            &&& fault matches Some(e) ==> {
                &&& handle::bpm_fault::<E>(engine_sr, idx, c, tracker_sr) == Some(
                    ThruAttachWithBpmError::<E>::Thru(e),
                )
                &&& handle::peaks_fault(engine_sr, idx, c, peaks_sr) == Some(
                    ThruAttachWithPeaksError::Thru(e),
                )
                &&& handle::telemetry_fault::<E>(engine_sr, idx, c, tracker_sr, peaks_sr) == Some(
                    ThruAttachWithTelemetryError::<E>::Thru(e),
                )
            }
            &&& n * secs >= 1024 ==> handle::tap_capacity(engine_sr, secs) == n * secs
            &&& n * secs < 1024 ==> handle::tap_capacity(engine_sr, secs) == 1024
        }),
{
    lemma_whole_rate(n as nat, u32::MAX as nat);
    lemma_whole_rate(n as nat, u64::MAX as nat);
}

/// A track, an input or a thru source that is given to an engine is offered to it in one command more,
/// for the deck that it is for; where the channel took it, it is the last one sent.
pub proof fn law_what_is_given_is_offered(
    v: HandleView,
    w: HandleView,
    idx: usize,
    track: Arc<Track>,
    state: input::InputView,
    source: thru::ThruView,
    took: bool,
)
    ensures
        handle::load_given(v, w, idx, track, took) ==> {
            let c = Command::DeckLoad { idx: idx as u8, source: track };
            &&& w.offered == v.offered.push(c)
            &&& w.sent == (if took {
                v.sent.push(c)
            } else {
                v.sent
            })
        },
        handle::input_given(v, w, idx, state, took) ==> w.offered.len() == v.offered.len() + 1
            && w.offered.drop_last() == v.offered && (w.offered.last() matches
            Command::AttachTimecodeInput { idx: i, input: x } && i == idx as u8 && x@ == state)
            && w.sent == (if took {
            v.sent.push(w.offered.last())
        } else {
            v.sent
        }),
        handle::thru_given(v, w, idx, source, took) ==> w.offered.len() == v.offered.len() + 1
            && w.offered.drop_last() == v.offered && (w.offered.last() matches
            Command::AttachThruSource { idx: i, source: x } && i == idx as u8 && x@ == source)
            && w.sent == (if took {
            v.sent.push(w.offered.last())
        } else {
            v.sent
        }),
{
    assert(w.offered.len() > 0 ==> w.offered.drop_last().push(w.offered.last()) =~= w.offered);
    if handle::input_given(v, w, idx, state, took) {
        assert(w.offered.drop_last() =~= v.offered);
    }
    if handle::thru_given(v, w, idx, source, took) {
        assert(w.offered.drop_last() =~= v.offered);
    }
}

/// A new thru source reads from the channel that it was given, in blocks of the size that it was
/// configured with, and feeds the taps that were made for it, the one for the tempo and the one for the
/// peaks.
pub proof fn law_new_thru_sources_feed_their_taps(
    rx: Receiver<Single>,
    c: ThruInputConfig,
    bpm: Option<Receiver<Single>>,
    peaks: Option<Receiver<Single>>,
)
    ensures
        ({
            let t = handle::fresh_thru(rx, c, bpm, peaks);
            &&& t.intake == rx.intake()
            &&& t.block_frames == c.max_block_frames
            &&& t.bpm is Some <==> bpm is Some
            &&& t.peaks is Some <==> peaks is Some
            &&& bpm matches Some(tap) ==> t.bpm->0.channel == tap.intake().channel
                && t.bpm->0.sent.len() == 0 && t.bpm->0.offered.len() == 0
            &&& peaks matches Some(tap) ==> t.peaks->0.channel == tap.intake().channel
                && t.peaks->0.sent.len() == 0 && t.peaks->0.offered.len() == 0
        }),
{
}

/// A thru source that is attached with tempo analysis feeds the tap for the tempo and no other, and the
/// analysis gets that tap.
pub proof fn law_tempo_analysis_gets_its_tap<B, E, S: FnOnce(Receiver<Single>) -> Result<B, E>>(
    v: HandleView,
    w: HandleView,
    idx: usize,
    rx: Receiver<Single>,
    c: ThruInputConfig,
    spawn: S,
    tap: Receiver<Single>,
    r: Result<B, ThruAttachWithBpmError<E>>,
)
    requires
        handle::bpm_attached(v, w, idx, rx, c, spawn, tap, r),
    ensures
        w.offered.last() matches Command::AttachThruSource { idx: i, source: x } && i == idx as u8
            && x@.bpm is Some && x@.peaks is None && x@.bpm->0.channel == tap.intake().channel
            && x@.intake == rx.intake(),
        r matches Ok(b) ==> call_ensures(spawn, (tap,), Ok::<B, E>(b)),
        r is Ok ==> w.sent == v.sent.push(w.offered.last()),
{
    let took = !(r matches Err(ThruAttachWithBpmError::Thru(_)));
    let state = handle::fresh_thru(rx, c, Some(tap), None);
    let (m, n, x) = choose|m: HandleView, n: nat, x: Box<ThruSource>| #[trigger]
        handle::thru_sent(v, m, w, n, idx, x, state, took);
    assert(handle::thru_sent(v, m, w, n, idx, x, state, took));
}

/// A thru source that is attached with peaks feeds the tap for the peaks and no other, and the caller
/// gets that tap.
pub proof fn law_peaks_get_their_tap(
    v: HandleView,
    w: HandleView,
    idx: usize,
    rx: Receiver<Single>,
    c: ThruInputConfig,
    cfg: PeakStreamConfig,
    tap: Receiver<Single>,
    r: Result<Receiver<Single>, ThruAttachWithPeaksError>,
)
    requires
        handle::peaks_attached(v, w, idx, rx, c, cfg, tap, r),
    ensures
        w.offered.last() matches Command::AttachThruSource { idx: i, source: x } && i == idx as u8
            && x@.peaks is Some && x@.bpm is None && x@.peaks->0.channel == tap.intake().channel
            && x@.intake == rx.intake(),
        r matches Ok(given) ==> given == tap,
        r is Ok ==> w.sent == v.sent.push(w.offered.last()),
{
    let took = !(r matches Err(ThruAttachWithPeaksError::Thru(_)));
    let state = handle::fresh_thru(rx, c, None, Some(tap));
    let (m, n, x) = choose|m: HandleView, n: nat, x: Box<ThruSource>| #[trigger]
        handle::thru_sent(v, m, w, n, idx, x, state, took);
    assert(handle::thru_sent(v, m, w, n, idx, x, state, took));
}

/// A thru source that is attached with both feeds both taps; the analysis gets the one for the tempo, and
/// the caller the one for the peaks.
pub proof fn law_telemetry_gets_both_taps<B, E, S: FnOnce(Receiver<Single>) -> Result<B, E>>(
    v: HandleView,
    w: HandleView,
    idx: usize,
    rx: Receiver<Single>,
    c: ThruInputConfig,
    spawn: S,
    cfg: PeakStreamConfig,
    bpm: Receiver<Single>,
    peaks: Receiver<Single>,
    r: Result<(B, Receiver<Single>), ThruAttachWithTelemetryError<E>>,
)
    requires
        handle::telemetry_attached(v, w, idx, rx, c, spawn, cfg, bpm, peaks, r),
    ensures
        w.offered.last() matches Command::AttachThruSource { idx: i, source: x } && i == idx as u8
            && x@.bpm is Some && x@.peaks is Some && x@.bpm->0.channel == bpm.intake().channel
            && x@.peaks->0.channel == peaks.intake().channel && x@.intake == rx.intake(),
        r matches Ok((b, given)) ==> given == peaks && call_ensures(spawn, (bpm,), Ok::<B, E>(b)),
        r is Ok ==> w.sent == v.sent.push(w.offered.last()),
{
    let took = !(r matches Err(ThruAttachWithTelemetryError::Thru(_)));
    let state = handle::fresh_thru(rx, c, Some(bpm), Some(peaks));
    let (m, n, x) = choose|m: HandleView, n: nat, x: Box<ThruSource>| #[trigger]
        handle::thru_sent(v, m, w, n, idx, x, state, took);
    assert(handle::thru_sent(v, m, w, n, idx, x, state, took));
}

/// What is read of a deck is what its board may show, each thing in its place.
pub proof fn law_snapshots_show_the_board(board: DeckSharedState, s: DeckSnapshot)
    requires
        handle::may_show(board, s),
    ensures
        board.may_show_position(s.position_frames),
        board.may_show_playing(s.is_playing),
        board.may_show_at_end(s.at_end),
{
}

} // verus!
