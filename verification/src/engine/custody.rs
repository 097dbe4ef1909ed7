//! No track is dropped by the engine: each stays on a deck until it goes back for
//! disposal.

use std::sync::Arc;
use vstd::prelude::*;

use crate::engine::command;
use crate::engine::command::Command;
use crate::engine::deck;
use crate::engine::disposal;
use crate::engine::mixer;
use crate::engine::ring;
use crate::engine::thru;
use crate::engine::thru::ThruSource;
use crate::ieee::double::Double;
use crate::ieee::single::Single;
use crate::timecode::input;
use crate::timecode::input::TimecodeInput;
use crate::timecode::lift::LiftIntent;
use crate::track::Track;

verus! {

/// A deck holds a track: it plays it, fades from it, or keeps it for disposal.
pub open spec fn deck_holds(d: deck::DeckView, t: Arc<Track>) -> bool {
    ||| d.source == Some(t)
    ||| d.fade matches Some(f) && f.source == Some(t)
    ||| d.pending == Some(t)
}

/// A track is on a deck, or was given up for disposal.
pub open spec fn kept(v: mixer::EngineView, t: Arc<Track>) -> bool {
    ||| deck_holds(v.decks[0], t)
    ||| deck_holds(v.decks[1], t)
    ||| v.tracks matches Some(x) && x.offered.contains(t)
}

/// While a track waits for disposal, the deck fades from what it plays or from
/// nothing.
pub open spec fn tidy_deck(d: deck::DeckView) -> bool {
    d.pending is Some ==> (d.fade matches Some(f) && (f.source is None || f.source == d.source))
}

/// An engine with its decks in order and a way back for tracks.
pub open spec fn tidy(v: mixer::EngineView) -> bool {
    &&& v.decks.len() == mixer::DECK_COUNT
    &&& v.inputs.len() == mixer::DECK_COUNT
    &&& v.thrus.len() == mixer::DECK_COUNT
    &&& v.panic.len() == mixer::DECK_COUNT
    &&& tidy_deck(v.decks[0])
    &&& tidy_deck(v.decks[1])
    &&& v.tracks is Some
}

/// Disposal forgets nothing that was given to it before, and nothing that it is
/// given now.
proof fn lemma_disposal_remembers(
    before: Option<disposal::DisposalView<Arc<Track>>>,
    after: Option<disposal::DisposalView<Arc<Track>>>,
    items: Seq<Arc<Track>>,
    t: Arc<Track>,
)
    requires
        disposal::disposed(before, after, items),
        before is Some,
        before->0.offered.contains(t) || items.contains(t),
    ensures
        after is Some,
        after->0.offered.contains(t),
{
    let b = before->0.offered;
    let a = after->0.offered;
    if b.contains(t) {
        let i = choose|i: int| 0 <= i < b.len() && b[i] == t;
        assert(a[i] == t);
    } else {
        let i = choose|i: int| 0 <= i < items.len() && items[i] == t;
        assert(a[b.len() + i] == t);
    }
}

/// A deck that begins a ramp keeps all of its tracks.
proof fn lemma_ramp_keeps(d: deck::DeckView, t: Arc<Track>)
    requires
        tidy_deck(d),
    ensures
        deck_holds(d, t) ==> deck_holds(deck::with_ramp(d), t),
        tidy_deck(deck::with_ramp(d)),
{
}

/// A deck that is swept gives up what it no longer holds.
proof fn lemma_sweep_keeps(d: deck::DeckView, t: Arc<Track>)
    ensures
        deck_holds(d, t) ==> deck_holds(deck::swept(d), t) || deck::swept_tracks(d).contains(t),
        tidy_deck(deck::swept(d)),
{
    let waiting = deck::one_or_none(d.pending);
    let all = deck::swept_tracks(d);
    if d.pending == Some(t) {
        assert(waiting[0] == t);
        assert(all[0] == t);
    }
    match d.fade {
        Some(f) => {
            if f.remaining == 0 && f.source == Some(t) {
                assert(all[waiting.len() as int] == t);
            }
        },
        None => {},
    }
}

/// A deck that is swept in an engine loses no track.
proof fn lemma_swept_as_keeps(
    v: mixer::EngineView,
    idx: int,
    d: deck::DeckView,
    w: mixer::EngineView,
    t: Arc<Track>,
)
    requires
        mixer::swept_as(v, idx, d, w),
        0 <= idx < mixer::DECK_COUNT,
        tidy(v),
    ensures
        tidy(w),
        kept(v, t) && (deck_holds(v.decks[idx], t) ==> deck_holds(d, t)) ==> kept(w, t),
        deck_holds(d, t) ==> kept(w, t),
{
    lemma_sweep_keeps(d, t);
    if deck::swept_tracks(d).contains(t) || v.tracks->0.offered.contains(t) {
        lemma_disposal_remembers(v.tracks, w.tracks, deck::swept_tracks(d), t);
    }
}

/// A load loses no track, and keeps its own.
proof fn lemma_load_keeps(
    v: mixer::EngineView,
    idx: u8,
    source: Arc<Track>,
    w: mixer::EngineView,
    t: Arc<Track>,
)
    requires
        mixer::applied(v, Command::DeckLoad { idx, source }, w),
        tidy(v),
        kept(v, t) || source == t,
    ensures
        tidy(w),
        kept(w, t),
{
    if idx < mixer::DECK_COUNT {
        let old_deck = v.decks[idx as int];
        lemma_ramp_keeps(old_deck, t);
        let d = deck::with_swapped_source(old_deck, source);
        assert(deck_holds(old_deck, t) ==> deck_holds(d, t));
        lemma_swept_as_keeps(v, idx as int, d, w, t);
    } else {
        if source == t {
            assert(seq![source][0] == t);
        }
        if seq![source].contains(t) || v.tracks->0.offered.contains(t) {
            lemma_disposal_remembers(v.tracks, w.tracks, seq![source], t);
        }
    }
}

/// A command loses no track, and keeps the one that it carries.
pub proof fn law_command_loses_no_track(
    v: mixer::EngineView,
    c: Command,
    w: mixer::EngineView,
    t: Arc<Track>,
)
    requires
        mixer::applied(v, c, w),
        tidy(v),
        kept(v, t) || carries(c, t),
    ensures
        tidy(w),
        kept(w, t),
{
    match c {
        Command::DeckLoad { idx, source } => {
            lemma_load_keeps(v, idx, source, w, t);
        },
        Command::SetMasterGain { .. } => {},
        _ => {
            let idx = command::deck_of(c)->0;
            if idx < mixer::DECK_COUNT {
                let i = idx as int;
                lemma_ramp_keeps(v.decks[i], t);
                let (m, d) = swept_from(v, c, w);
                lemma_swept_as_keeps(m, i, d, w, t);
            }
        },
    }
}

/// The engine and the deck that a command leaves before the deck is swept.
spec fn swept_from(v: mixer::EngineView, c: Command, w: mixer::EngineView) -> (
    mixer::EngineView,
    deck::DeckView,
) {
    match c {
        Command::DeckPlay { idx } => (v, deck::with_playing(v.decks[idx as int], true)),
        Command::DeckPause { idx } => (v, deck::with_playing(v.decks[idx as int], false)),
        Command::DeckSeek { idx, position_frames } => (
            v,
            deck::with_position(v.decks[idx as int], position_frames),
        ),
        Command::DeckSetRate { idx, rate } => (
            v,
            deck::DeckView { rate, ..v.decks[idx as int] },
        ),
        Command::DeckSetGain { idx, gain } => (
            v,
            deck::DeckView { gain, ..v.decks[idx as int] },
        ),
        Command::DeckPanicPlay { idx } => (
            mixer::EngineView { inputs: w.inputs, panic: w.panic, ..v },
            mixer::panicked(v.decks[idx as int], v.inputs[idx as int]),
        ),
        Command::DeckCancelPanicPlay { idx } => (
            mixer::EngineView { panic: w.panic, ..v },
            deck::DeckView { panic_play: false, ..v.decks[idx as int] },
        ),
        Command::AttachTimecodeInput { idx, .. } => (
            mixer::EngineView { inputs: w.inputs, spent_inputs: w.spent_inputs, ..v },
            v.decks[idx as int],
        ),
        Command::AttachThruSource { idx, .. } => (
            mixer::EngineView { thrus: w.thrus, spent_thrus: w.spent_thrus, ..v },
            v.decks[idx as int],
        ),
        _ => (v, v.decks[0]),
    }
}

/// A command brings a track with it.
pub open spec fn carries(c: Command, t: Arc<Track>) -> bool {
    c matches Command::DeckLoad { source, .. } && source == t
}

/// A run of commands loses no track, and keeps those that it brings.
proof fn lemma_run_keeps(
    states: Seq<mixer::EngineView>,
    commands: Seq<Command>,
    t: Arc<Track>,
    n: nat,
)
    requires
        mixer::is_run(states, commands),
        tidy(states.first()),
        n <= commands.len(),
        kept(states.first(), t) || exists|i: int|
            0 <= i < n && carries(#[trigger] commands[i], t),
    ensures
        tidy(states[n as int]),
        kept(states[n as int], t),
    decreases n,
{
    if n > 0 {
        let m = (n - 1) as nat;
        let c = commands[m as int];
        assert(mixer::applied(states[m as int], c, states[n as int]));
        if kept(states.first(), t) || exists|i: int|
            0 <= i < m && carries(#[trigger] commands[i], t) {
            lemma_run_keeps(states, commands, t, m);
        } else {
            assert(carries(c, t));
            lemma_run_is_tidy(states, commands, m);
        }
        law_command_loses_no_track(states[m as int], c, states[n as int], t);
    }
}

/// A run of commands leaves the engine in order.
proof fn lemma_run_is_tidy(states: Seq<mixer::EngineView>, commands: Seq<Command>, n: nat)
    requires
        mixer::is_run(states, commands),
        tidy(states.first()),
        n <= commands.len(),
    ensures
        tidy(states[n as int]),
    decreases n,
{
    if n > 0 {
        let m = (n - 1) as nat;
        lemma_run_is_tidy(states, commands, m);
        let v = states[m as int];
        let c = commands[m as int];
        let w = states[n as int];
        assert(mixer::applied(v, c, w));
        lemma_tidy_after(v, c, w);
    }
}

proof fn lemma_tidy_after(v: mixer::EngineView, c: Command, w: mixer::EngineView)
    requires
        mixer::applied(v, c, w),
        tidy(v),
    ensures
        tidy(w),
{
}

/// Timecode loses no track.
proof fn lemma_driven_keeps<A: Fn(Double, Double) -> Double>(
    atan2: A,
    v: mixer::EngineView,
    w: mixer::EngineView,
    idx: int,
    t: Arc<Track>,
)
    requires
        mixer::driven(atan2, v, w, idx),
        0 <= idx < mixer::DECK_COUNT,
        tidy(v),
    ensures
        tidy(w),
        kept(v, t) ==> kept(w, t),
{
    match v.inputs[idx] {
        None => {},
        Some(_) => {
            let (received, intent) = choose|received: Seq<Single>, intent: Option<LiftIntent>|
                #[trigger] mixer::listened(atan2, v, w, idx, received, intent);
            assert(mixer::listened(atan2, v, w, idx, received, intent));
            lemma_ramp_keeps(v.decks[idx], t);
        },
    }
}

/// Playing loses no track.
proof fn lemma_rendered_keeps(d: deck::DeckView, engine_sr: Single, frames: nat, t: Arc<Track>)
    requires
        tidy_deck(d),
    ensures
        tidy_deck(deck::rendered(d, engine_sr, frames)),
        deck_holds(d, t) ==> deck_holds(deck::rendered(d, engine_sr, frames), t),
{
}

/// One deck that loses no track makes an engine that loses none.
proof fn lemma_deck_keeps(
    v: mixer::EngineView,
    w: mixer::EngineView,
    idx: int,
    d: deck::DeckView,
    t: Arc<Track>,
)
    requires
        0 <= idx < mixer::DECK_COUNT,
        tidy(v),
        tidy_deck(d),
        deck_holds(v.decks[idx], t) ==> deck_holds(d, t),
        w == mixer::with_deck(v, idx, d),
    ensures
        tidy(w),
        kept(v, t) ==> kept(w, t),
{
}

/// Mixing loses no track.
proof fn lemma_added_keeps(
    v: mixer::EngineView,
    w: mixer::EngineView,
    idx: int,
    channels: nat,
    route: Option<u32>,
    before: Seq<Single>,
    after: Seq<Single>,
    t: Arc<Track>,
)
    requires
        mixer::deck_added(v, w, idx, channels, route, before, after),
        0 <= idx < mixer::DECK_COUNT,
        tidy(v),
    ensures
        tidy(w),
        kept(v, t) ==> kept(w, t),
{
    match route {
        None => {},
        Some(first) => match v.thrus[idx] {
            Some(_) => {
                let received = choose|received: Seq<Single>| #[trigger]
                    mixer::passed_through(v, w, idx, channels, first, before, after, received);
                assert(mixer::passed_through(v, w, idx, channels, first, before, after, received));
            },
            None => {
                let frames = before.len() / channels;
                lemma_rendered_keeps(v.decks[idx], v.sample_rate, frames, t);
                lemma_deck_keeps(
                    v,
                    w,
                    idx,
                    deck::rendered(v.decks[idx], v.sample_rate, frames),
                    t,
                );
            },
        },
    }
}

/// The sweep at the end of a block loses no track.
proof fn lemma_swept_keeps(v: mixer::EngineView, w: mixer::EngineView, t: Arc<Track>)
    requires
        mixer::all_swept(v, w),
        tidy(v),
    ensures
        tidy(w),
        kept(v, t) ==> kept(w, t),
{
    let a = deck::swept_tracks(v.decks[0]);
    let b = deck::swept_tracks(v.decks[1]);
    lemma_sweep_keeps(v.decks[0], t);
    lemma_sweep_keeps(v.decks[1], t);
    if a.contains(t) {
        let i = choose|i: int| 0 <= i < a.len() && a[i] == t;
        assert((a + b)[i] == t);
    }
    if b.contains(t) {
        let i = choose|i: int| 0 <= i < b.len() && b[i] == t;
        assert((a + b)[a.len() + i] == t);
    }
    if (a + b).contains(t) || v.tracks->0.offered.contains(t) {
        lemma_disposal_remembers(v.tracks, w.tracks, a + b, t);
    }
}

/// A block loses no track: one that was on a deck, or was given up before, or that
/// came with a command of this block, is on a deck afterwards or was given up for
/// disposal.
pub proof fn law_block_loses_no_track<A: Fn(Double, Double) -> Double>(
    atan2: A,
    v: mixer::EngineView,
    before: ring::Intake<Command>,
    a: mixer::EngineView,
    b: mixer::EngineView,
    c: mixer::EngineView,
    w: mixer::EngineView,
    after: ring::Intake<Command>,
    channels: nat,
    routing: Seq<Option<u32>>,
    bus: Seq<Single>,
    t: Arc<Track>,
)
    requires
        mixer::block_rendered(
            atan2,
            v,
            Some(before),
            a,
            b,
            c,
            w,
            Some(after),
            channels,
            routing,
            bus,
        ),
        tidy(v),
        kept(v, t) || exists|i: int|
            before.taken.len() <= i < after.taken.len() && carries(#[trigger] after.taken[i], t),
    ensures
        tidy(w),
        kept(w, t),
{
    let commands = choose|commands: Seq<Command>|
        commands.len() <= mixer::COMMAND_CHANNEL_CAPACITY && Some(after) == Some(
            ring::taken_in(before, commands, mixer::asked_for(commands.len())),
        ) && #[trigger] mixer::ran(v, commands, a);
    assert(mixer::ran(v, commands, a));
    let states = choose|states: Seq<mixer::EngineView>| #[trigger]
        mixer::is_run(states, commands) && states.first() == v && states.last() == a;
    if !kept(v, t) {
        let i = choose|i: int|
            before.taken.len() <= i < after.taken.len() && carries(#[trigger] after.taken[i], t);
        assert(carries(commands[i - before.taken.len()], t));
    }
    lemma_run_keeps(states, commands, t, commands.len());
    lemma_driven_keeps(atan2, a, b, 0, t);
    lemma_driven_keeps(atan2, b, c, 1, t);
    let (m, n, half, full) = choose|
        m: mixer::EngineView,
        n: mixer::EngineView,
        half: Seq<Single>,
        full: Seq<Single>,
    | #[trigger] mixer::block_mixed(c, m, n, w, channels, routing, half, full, bus);
    assert(mixer::block_mixed(c, m, n, w, channels, routing, half, full, bus));
    lemma_added_keeps(c, m, 0, channels, routing[0], mixer::silent_bus(bus.len()), half, t);
    lemma_added_keeps(m, n, 1, channels, routing[1], half, full, t);
    lemma_swept_keeps(n, w, t);
}

/// A timecode input is on a deck in a state, or went for disposal in it.
pub open spec fn input_kept(v: mixer::EngineView, x: input::InputView) -> bool {
    ||| v.inputs[0] == Some(x)
    ||| v.inputs[1] == Some(x)
    ||| v.spent_inputs matches Some(d) && exists|i: int|
        0 <= i < d.offered.len() && (#[trigger] d.offered[i])@ == x
}

/// A thru source is on a deck in a state, or went for disposal in it.
pub open spec fn thru_kept(v: mixer::EngineView, x: thru::ThruView) -> bool {
    ||| v.thrus[0] == Some(x)
    ||| v.thrus[1] == Some(x)
    ||| v.spent_thrus matches Some(d) && exists|i: int|
        0 <= i < d.offered.len() && (#[trigger] d.offered[i])@ == x
}

/// A command brings a timecode input in a state.
pub open spec fn carries_input(c: Command, x: input::InputView) -> bool {
    c matches Command::AttachTimecodeInput { input, .. } && input@ == x
}

/// A command brings a thru source in a state.
pub open spec fn carries_thru(c: Command, x: thru::ThruView) -> bool {
    c matches Command::AttachThruSource { source, .. } && source@ == x
}

/// What was given to disposal before stays, and what is given now follows it.
proof fn lemma_disposal_appends<T>(
    before: Option<disposal::DisposalView<T>>,
    after: Option<disposal::DisposalView<T>>,
    item: T,
)
    requires
        disposal::disposed(before, after, seq![item]),
        before is Some,
    ensures
        after is Some,
        after->0.offered.len() == before->0.offered.len() + 1,
        after->0.offered.last() == item,
        forall|i: int|
            0 <= i < before->0.offered.len() ==> after->0.offered[i] == before->0.offered[i],
{
}

/// A command loses no timecode input, and keeps the one that it carries: one that is
/// displaced goes for disposal as it is. The command that takes a deck away from its
/// input is left out, for it changes the input itself.
pub proof fn law_command_loses_no_input(
    v: mixer::EngineView,
    c: Command,
    w: mixer::EngineView,
    x: input::InputView,
)
    requires
        mixer::applied(v, c, w),
        tidy(v),
        v.spent_inputs is Some,
        !(c is DeckPanicPlay),
        input_kept(v, x) || carries_input(c, x),
    ensures
        w.spent_inputs is Some,
        input_kept(w, x),
{
    match c {
        Command::AttachTimecodeInput { idx, input } => {
            let b = v.spent_inputs->0.offered;
            let a = w.spent_inputs->0.offered;
            if idx < mixer::DECK_COUNT {
                match v.inputs[idx as int] {
                    None => {},
                    Some(held) => {
                        let box_ = choose|y: Box<TimecodeInput>|
                            y@ == held && #[trigger] disposal::disposed(
                                v.spent_inputs,
                                w.spent_inputs,
                                seq![y],
                            );
                        lemma_disposal_appends(v.spent_inputs, w.spent_inputs, box_);
                        assert(a[a.len() - 1]@ == held);
                    },
                }
                assert(w.inputs[idx as int] == Some(input@));
            } else {
                lemma_disposal_appends(v.spent_inputs, w.spent_inputs, input);
                assert(a[a.len() - 1]@ == input@);
            }
            if exists|i: int| 0 <= i < b.len() && (#[trigger] b[i])@ == x {
                let i = choose|i: int| 0 <= i < b.len() && (#[trigger] b[i])@ == x;
                assert(a[i]@ == x);
            }
        },
        _ => {},
    }
}

/// A command loses no thru source, and keeps the one that it carries.
pub proof fn law_command_loses_no_thru_source(
    v: mixer::EngineView,
    c: Command,
    w: mixer::EngineView,
    x: thru::ThruView,
)
    requires
        mixer::applied(v, c, w),
        tidy(v),
        v.spent_thrus is Some,
        thru_kept(v, x) || carries_thru(c, x),
    ensures
        w.spent_thrus is Some,
        thru_kept(w, x),
{
    match c {
        Command::AttachThruSource { idx, source } => {
            let b = v.spent_thrus->0.offered;
            let a = w.spent_thrus->0.offered;
            if idx < mixer::DECK_COUNT {
                match v.thrus[idx as int] {
                    None => {},
                    Some(held) => {
                        let box_ = choose|y: Box<ThruSource>|
                            y@ == held && #[trigger] disposal::disposed(
                                v.spent_thrus,
                                w.spent_thrus,
                                seq![y],
                            );
                        lemma_disposal_appends(v.spent_thrus, w.spent_thrus, box_);
                        assert(a[a.len() - 1]@ == held);
                    },
                }
                assert(w.thrus[idx as int] == Some(source@));
            } else {
                lemma_disposal_appends(v.spent_thrus, w.spent_thrus, source);
                assert(a[a.len() - 1]@ == source@);
            }
            if exists|i: int| 0 <= i < b.len() && (#[trigger] b[i])@ == x {
                let i = choose|i: int| 0 <= i < b.len() && (#[trigger] b[i])@ == x;
                assert(a[i]@ == x);
            }
        },
        _ => {},
    }
}

/// Nothing waits on a deck after a command for it: what the deck was done with went for disposal.
pub proof fn law_command_leaves_nothing_waiting(
    v: mixer::EngineView,
    c: Command,
    w: mixer::EngineView,
    idx: u8,
)
    requires
        mixer::applied(v, c, w),
        v.decks.len() == mixer::DECK_COUNT,
        command::deck_of(c) == Some(idx),
        idx < mixer::DECK_COUNT,
    ensures
        w.decks[idx as int].pending is None,
        w.decks[idx as int].fade matches Some(f) ==> f.remaining > 0,
{
}

/// Nothing waits on any deck after a block.
pub proof fn law_block_leaves_nothing_waiting(v: mixer::EngineView, w: mixer::EngineView, i: int)
    requires
        mixer::all_swept(v, w),
        v.decks.len() == mixer::DECK_COUNT,
        0 <= i < mixer::DECK_COUNT,
    ensures
        w.decks[i].pending is None,
        w.decks[i].fade matches Some(f) ==> f.remaining > 0,
{
}

/// A deck on which nothing waits keeps the track of an earlier ramp when the next one begins.
pub proof fn law_next_ramp_keeps_the_earlier_track(d: deck::DeckView)
    requires
        d.pending is None,
    ensures
        deck::with_ramp(d).pending == match d.fade {
            Some(f) => f.source,
            None => None,
        },
{
}

/// A new engine is in order.
pub proof fn law_new_engine_is_tidy(
    sample_rate: Single,
    block_size: usize,
    envelope: Seq<Single>,
    v: mixer::EngineView,
)
    requires
        v.tracks is Some,
        v == mixer::fresh(
            sample_rate,
            block_size,
            envelope,
            mixer::boards(v),
            v.tracks,
            v.spent_inputs,
            v.spent_thrus,
        ),
    ensures
        tidy(v),
{
}

} // verus!
