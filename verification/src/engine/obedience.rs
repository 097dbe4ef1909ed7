//! Commands and timecode do what they say, and nothing else.

use std::sync::Arc;
use vstd::prelude::*;

use crate::engine::command::Command;
use crate::engine::deck;
use crate::engine::mixer;
use crate::ieee::double;
use crate::ieee::double::Double;
use crate::ieee::single::Single;
use crate::timecode::lift::LiftIntent;
use crate::track::Track;

verus! {

/// The deck `e` fades from what the deck `d` plays, over all of the ramp.
pub open spec fn fades_from(e: deck::DeckView, d: deck::DeckView) -> bool {
    match e.fade {
        None => false,
        Some(f) => {
            &&& f.source == d.source
            &&& f.position == d.position
            &&& f.rate == d.rate
            &&& f.playing == d.playing
            &&& f.remaining == d.envelope.len()
        },
    }
}

/// The deck `e` fades as the deck `d` does, unless its ramp is over.
pub open spec fn fades_on(e: deck::DeckView, d: deck::DeckView) -> bool {
    match d.fade {
        None => e.fade is None,
        Some(f) => if f.remaining == 0 {
            e.fade is None
        } else {
            e.fade == d.fade
        },
    }
}

/// What no transport command touches.
pub open spec fn kept(e: deck::DeckView, d: deck::DeckView) -> bool {
    &&& e.board == d.board
    &&& e.envelope == d.envelope
    &&& e.pending is None
}

/// The frames of a track, or none.
pub open spec fn end_of(source: Option<Arc<Track>>) -> Option<nat> {
    match source {
        None => None,
        Some(t) => Some(t@.frames),
    }
}

/// A command for a deck does to it what it says. Starting, pausing, moving and loading begin a ramp
/// from what the deck played; everything else about the deck stays as it was.
pub proof fn law_transport_commands_do_what_they_say(
    v: mixer::EngineView,
    c: Command,
    w: mixer::EngineView,
)
    requires
        mixer::applied(v, c, w),
        v.decks.len() == mixer::DECK_COUNT,
        forall|i: int|
            0 <= i < mixer::DECK_COUNT ==> deck::well_formed(#[trigger] v.decks[i]),
    ensures
        match c {
            Command::DeckPlay { idx } => idx < 2 ==> {
                let d = v.decks[idx as int];
                let e = w.decks[idx as int];
                &&& e.playing
                &&& (e.source, e.position, e.rate, e.gain) == (d.source, d.position, d.rate, d.gain)
                &&& (e.at_end, e.panic_play) == (d.at_end, d.panic_play)
                &&& kept(e, d)
                &&& d.playing ==> fades_on(e, d)
                &&& !d.playing ==> fades_from(e, d)
            },
            Command::DeckPause { idx } => idx < 2 ==> {
                let d = v.decks[idx as int];
                let e = w.decks[idx as int];
                &&& !e.playing
                &&& (e.source, e.position, e.rate, e.gain) == (d.source, d.position, d.rate, d.gain)
                &&& (e.at_end, e.panic_play) == (d.at_end, d.panic_play)
                &&& kept(e, d)
                &&& d.playing ==> fades_from(e, d)
                &&& !d.playing ==> fades_on(e, d)
            },
            Command::DeckSeek { idx, position_frames } => idx < 2 ==> {
                let d = v.decks[idx as int];
                let e = w.decks[idx as int];
                &&& match end_of(d.source) {
                    None => e.position == position_frames,
                    Some(n) => {
                        let end = double::from_int(n);
                        &&& double::less(end, position_frames) ==> e.position == end
                        &&& !double::less(end, position_frames) ==> e.position == position_frames
                    },
                }
                &&& !e.at_end
                &&& (e.source, e.rate, e.gain) == (d.source, d.rate, d.gain)
                &&& (e.playing, e.panic_play) == (d.playing, d.panic_play)
                &&& kept(e, d)
                &&& fades_from(e, d)
            },
            Command::DeckSetRate { idx, rate } => idx < 2 ==> {
                let d = v.decks[idx as int];
                let e = w.decks[idx as int];
                &&& e.rate == rate
                &&& (e.source, e.position, e.gain) == (d.source, d.position, d.gain)
                &&& (e.playing, e.at_end, e.panic_play) == (d.playing, d.at_end, d.panic_play)
                &&& kept(e, d)
                &&& fades_on(e, d)
            },
            Command::DeckSetGain { idx, gain } => idx < 2 ==> {
                let d = v.decks[idx as int];
                let e = w.decks[idx as int];
                &&& e.gain == gain
                &&& (e.source, e.position, e.rate) == (d.source, d.position, d.rate)
                &&& (e.playing, e.at_end, e.panic_play) == (d.playing, d.at_end, d.panic_play)
                &&& kept(e, d)
                &&& fades_on(e, d)
            },
            Command::DeckLoad { idx, source } => idx < 2 ==> {
                let d = v.decks[idx as int];
                let e = w.decks[idx as int];
                &&& e.source == Some(source)
                &&& !e.at_end
                &&& (e.position, e.rate, e.gain) == (d.position, d.rate, d.gain)
                &&& (e.playing, e.panic_play) == (d.playing, d.panic_play)
                &&& kept(e, d)
                &&& fades_from(e, d)
            },
            _ => true,
        },
{
}

/// The commands that are not for the transport of a deck: the gain of the mix, the inputs, and what
/// a deck does on its own when its record is gone.
pub proof fn law_other_commands_do_what_they_say(
    v: mixer::EngineView,
    c: Command,
    w: mixer::EngineView,
)
    requires
        mixer::applied(v, c, w),
        v.decks.len() == mixer::DECK_COUNT,
        v.inputs.len() == mixer::DECK_COUNT,
        v.thrus.len() == mixer::DECK_COUNT,
        v.panic.len() == mixer::DECK_COUNT,
        forall|i: int|
            0 <= i < mixer::DECK_COUNT ==> deck::well_formed(#[trigger] v.decks[i]),
    ensures
        w.sample_rate == v.sample_rate,
        w.block_size == v.block_size,
        !(c is SetMasterGain) ==> w.master_gain == v.master_gain,
        !(c is AttachThruSource) ==> w.thrus == v.thrus,
        !(c is AttachTimecodeInput) && !(c is DeckPanicPlay) ==> w.inputs == v.inputs,
        !(c is DeckPanicPlay) && !(c is DeckCancelPanicPlay) ==> w.panic == v.panic,
        match c {
            Command::SetMasterGain { gain } => w.master_gain == gain && w.decks == v.decks,
            Command::AttachTimecodeInput { idx, input } => idx < 2 ==> w.inputs[idx as int] == Some(
                input@,
            ) && w.inputs[1 - idx] == v.inputs[1 - idx],
            Command::AttachThruSource { idx, source } => idx < 2 ==> w.thrus[idx as int] == Some(
                source@,
            ) && w.thrus[1 - idx] == v.thrus[1 - idx],
            Command::DeckPanicPlay { idx } => idx < 2 ==> {
                let d = v.decks[idx as int];
                let e = w.decks[idx as int];
                &&& e.playing
                &&& e.panic_play
                &&& w.panic[idx as int]
                &&& w.panic[1 - idx] == v.panic[1 - idx]
                &&& w.inputs[1 - idx] == v.inputs[1 - idx]
                &&& (e.source, e.position, e.gain, e.at_end) == (
                    d.source,
                    d.position,
                    d.gain,
                    d.at_end,
                )
                &&& kept(e, d)
                &&& match v.inputs[idx as int] {
                    None => e.rate == d.rate && w.inputs[idx as int] is None,
                    Some(i) => {
                        &&& e.rate == i.follower.policy.last_locked_rate
                        &&& w.inputs[idx as int] matches Some(j) && !j.follower.policy.engaged
                            && j.follower.decoder == i.follower.decoder && j.intake == i.intake
                    },
                }
            },
            Command::DeckCancelPanicPlay { idx } => idx < 2 ==> {
                let d = v.decks[idx as int];
                let e = w.decks[idx as int];
                &&& !e.panic_play
                &&& !w.panic[idx as int]
                &&& w.panic[1 - idx] == v.panic[1 - idx]
                &&& (e.source, e.position, e.rate, e.gain) == (d.source, d.position, d.rate, d.gain)
                &&& (e.playing, e.at_end) == (d.playing, d.at_end)
                &&& kept(e, d)
                &&& fades_on(e, d)
            },
            _ => true,
        },
{
}

/// A deck obeys its record: a lock plays it at the rate of the record, and ends the time in which it
/// held its rate on its own; a dropout pauses it, with the rate that is held, unless it plays on its
/// own; a block without a frame changes nothing. Pausing and starting begin a ramp.
pub proof fn law_decks_obey_their_record<A: Fn(Double, Double) -> Double>(
    atan2: A,
    v: mixer::EngineView,
    w: mixer::EngineView,
    idx: int,
    received: Seq<Single>,
    intent: Option<LiftIntent>,
)
    requires
        mixer::listened(atan2, v, w, idx, received, intent),
        0 <= idx < 2,
        v.decks.len() == mixer::DECK_COUNT,
        v.inputs.len() == mixer::DECK_COUNT,
        v.panic.len() == mixer::DECK_COUNT,
        deck::well_formed(v.decks[idx]),
    ensures
        ({
            let d = v.decks[idx];
            let e = w.decks[idx];
            &&& w.decks[1 - idx] == v.decks[1 - idx]
            &&& w.inputs[1 - idx] == v.inputs[1 - idx]
            &&& w.panic[1 - idx] == v.panic[1 - idx]
            &&& (e.source, e.position, e.gain, e.at_end) == (d.source, d.position, d.gain, d.at_end)
            &&& e.board == d.board
            &&& e.playing != d.playing ==> fades_from(e, deck::DeckView { rate: e.rate, ..d })
            &&& e.playing == d.playing ==> e.fade == d.fade
            &&& match intent {
                None => e == d && w.panic[idx] == v.panic[idx],
                Some(LiftIntent::Locked { rate }) => {
                    &&& e.playing
                    &&& e.rate == rate
                    &&& !w.panic[idx]
                    &&& v.panic[idx] ==> !e.panic_play
                    &&& !v.panic[idx] ==> e.panic_play == d.panic_play
                },
                Some(LiftIntent::DropoutHoldRate { rate }) => if v.panic[idx] {
                    e == d && w.panic[idx]
                } else {
                    !e.playing && e.rate == rate && !w.panic[idx] && e.panic_play == d.panic_play
                },
            }
        }),
{
}

} // verus!
