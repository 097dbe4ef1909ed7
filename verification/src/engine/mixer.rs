//! The engine: two decks, what drives them, and the bus they are mixed on.

use std::sync::Arc;
use vstd::prelude::*;

use crate::engine::command::Command;
use crate::engine::deck;
use crate::engine::deck::Deck;
use crate::engine::declick;
use crate::engine::declick::DeclickEnvelope;
use crate::engine::disposal;
use crate::engine::disposal::Disposal;
use crate::engine::ring;
use crate::engine::ring::Receiver;
use crate::engine::shared::DeckSharedState;
use crate::engine::thru;
use crate::engine::thru::ThruAttachError;
use crate::engine::thru::ThruInputConfig;
use crate::engine::thru::ThruSource;
use crate::ieee::double::Double;
use crate::ieee::single;
use crate::ieee::single::Single;
use crate::timecode::decoder::DecodeOutput;
use crate::timecode::input;
use crate::timecode::input::TimecodeInput;
use crate::timecode::lift;
use crate::timecode::lift::AttachError;
use crate::timecode::lift::LiftIntent;
use crate::timecode::lift::TimecodeInputConfig;
use crate::track::Track;

verus! {

/// Number of decks.
pub const DECK_COUNT: usize = 2;

/// Most commands that wait for the engine.
pub const COMMAND_CHANNEL_CAPACITY: usize = 256;

/// Bits of the distance from one within which a gain counts as one.
pub const GAIN_EPSILON: u32 = 0x3400_0000;

/// For each deck the first of the two output channels that it goes to, or nothing
/// where it goes to none.
pub type OutputRouting = [Option<u32>; 2];

/// Both decks on the first two channels.
pub open spec fn both_on_main() -> Seq<Option<u32>> {
    seq![Some(0u32), Some(0u32)]
}

/// The routing of the internal mixer: both decks on the first two channels.
pub fn internal_mixer_routing() -> (r: OutputRouting)
    ensures
        r@ == both_on_main(),
{
    [Some(0), Some(0)]
}

/// The engine.
pub struct Engine {
    sample_rate: Single,
    block_size: usize,
    decks: Vec<Deck>,
    master_gain: Single,
    cmd_rx: Option<Receiver<Command>>,
    track_trash: Disposal<Arc<Track>>,
    timecode_trash: Disposal<Box<TimecodeInput>>,
    thru_trash: Disposal<Box<ThruSource>>,
    timecode_inputs: Vec<Option<Box<TimecodeInput>>>,
    thru_sources: Vec<Option<Box<ThruSource>>>,
    panic_play: Vec<bool>,
}

/// The state of an engine, but for the commands it receives.
#[verifier::ext_equal]
pub ghost struct EngineView {
    pub sample_rate: Single,
    pub block_size: usize,
    pub decks: Seq<deck::DeckView>,
    pub master_gain: Single,
    /// Where tracks go for disposal.
    pub tracks: Option<disposal::DisposalView<Arc<Track>>>,
    /// Where timecode inputs go for disposal.
    pub spent_inputs: Option<disposal::DisposalView<Box<TimecodeInput>>>,
    /// Where thru sources go for disposal.
    pub spent_thrus: Option<disposal::DisposalView<Box<ThruSource>>>,
    /// The timecode input of each deck.
    pub inputs: Seq<Option<input::InputView>>,
    /// The thru source of each deck.
    pub thrus: Seq<Option<thru::ThruView>>,
    /// Which decks hold their rate on their own.
    pub panic: Seq<bool>,
}

/// The view of an optional input.
pub open spec fn input_view(x: Option<Box<TimecodeInput>>) -> Option<input::InputView> {
    match x {
        None => None,
        Some(i) => Some(i@),
    }
}

/// The view of an optional thru source.
pub open spec fn thru_view(x: Option<Box<ThruSource>>) -> Option<thru::ThruView> {
    match x {
        None => None,
        Some(t) => Some(t@),
    }
}

/// Where the decks show their transport.
pub open spec fn boards(v: EngineView) -> Seq<Arc<DeckSharedState>> {
    seq![v.decks[0].board, v.decks[1].board]
}

/// An engine that has done nothing, without inputs.
pub open spec fn fresh(
    sample_rate: Single,
    block_size: usize,
    envelope: Seq<Single>,
    boards: Seq<Arc<DeckSharedState>>,
    tracks: Option<disposal::DisposalView<Arc<Track>>>,
    spent_inputs: Option<disposal::DisposalView<Box<TimecodeInput>>>,
    spent_thrus: Option<disposal::DisposalView<Box<ThruSource>>>,
) -> EngineView {
    EngineView {
        sample_rate,
        block_size,
        decks: seq![deck::fresh(envelope, boards[0]), deck::fresh(envelope, boards[1])],
        master_gain: Single { bits: single::ONE },
        tracks,
        spent_inputs,
        spent_thrus,
        inputs: seq![None, None],
        thrus: seq![None, None],
        panic: seq![false, false],
    }
}

/// Why a timecode input cannot be attached to a deck.
pub open spec fn input_fault(v: EngineView, idx: usize, c: TimecodeInputConfig) -> Option<
    AttachError,
> {
    if idx >= DECK_COUNT {
        Some(AttachError::InvalidDeck { idx, count: DECK_COUNT })
    } else if lift::fault(c, v.sample_rate) is Some {
        lift::fault(c, v.sample_rate)
    } else if v.inputs[idx as int] is Some {
        Some(AttachError::AlreadyAttached { idx })
    } else {
        None
    }
}

/// Why a thru source cannot be attached to a deck.
pub open spec fn thru_fault(sample_rate: Single, idx: usize, c: ThruInputConfig) -> Option<
    ThruAttachError,
> {
    if idx >= DECK_COUNT {
        Some(ThruAttachError::InvalidDeck { idx, count: DECK_COUNT })
    } else {
        thru::fault(c, sample_rate)
    }
}

/// The engine with one deck changed.
pub open spec fn with_deck(v: EngineView, idx: int, d: deck::DeckView) -> EngineView {
    EngineView { decks: v.decks.update(idx, d), ..v }
}

/// What a deck becomes when the timecode says what to do, and whether it still
/// holds its rate on its own: a lock ends that, a dropout does not.
pub open spec fn obeyed(d: deck::DeckView, panic: bool, intent: Option<LiftIntent>) -> (
    deck::DeckView,
    bool,
) {
    match intent {
        None => (d, panic),
        Some(LiftIntent::Locked { rate }) => {
            let e = deck::with_playing(deck::DeckView { rate, ..d }, true);
            if panic {
                (deck::DeckView { panic_play: false, ..e }, false)
            } else {
                (e, false)
            }
        },
        Some(LiftIntent::DropoutHoldRate { rate }) => if panic {
            (d, true)
        } else {
            (deck::with_playing(deck::DeckView { rate, ..d }, false), false)
        },
    }
}

/// The deck that holds its last good rate on its own: that of the timecode, where
/// there is an input, or else its own.
pub open spec fn panicked(d: deck::DeckView, input: Option<input::InputView>) -> deck::DeckView {
    let rate = match input {
        Some(i) => i.follower.policy.last_locked_rate,
        None => d.rate,
    };
    deck::DeckView {
        panic_play: true,
        ..deck::with_playing(deck::DeckView { rate, ..d }, true)
    }
}

/// The input after the engine stopped following it.
pub open spec fn disengaged(input: Option<input::InputView>) -> Option<input::InputView> {
    match input {
        None => None,
        Some(i) => Some(
            input::InputView {
                follower: input::FollowerView {
                    policy: lift::PolicyView { engaged: false, ..i.follower.policy },
                    ..i.follower
                },
                ..i
            },
        ),
    }
}

/// A deck of the engine `v` became `d` and was swept, which made the engine `w`: the tracks that
/// the deck is done with were disposed of.
pub open spec fn swept_as(v: EngineView, idx: int, d: deck::DeckView, w: EngineView) -> bool {
    &&& disposal::disposed(v.tracks, w.tracks, deck::swept_tracks(d))
    &&& w == (EngineView { tracks: w.tracks, ..with_deck(v, idx, deck::swept(d)) })
}

/// A command turned the engine `v` into `w`. After every command its deck is swept. A command
/// for a deck that does not exist does nothing but dispose of what it carried.
pub open spec fn applied(v: EngineView, c: Command, w: EngineView) -> bool {
    match c {
        Command::DeckPlay { idx } => if idx < DECK_COUNT {
            swept_as(v, idx as int, deck::with_playing(v.decks[idx as int], true), w)
        } else {
            w == v
        },
        Command::DeckPause { idx } => if idx < DECK_COUNT {
            swept_as(v, idx as int, deck::with_playing(v.decks[idx as int], false), w)
        } else {
            w == v
        },
        Command::DeckSeek { idx, position_frames } => if idx < DECK_COUNT {
            swept_as(v, idx as int, deck::with_position(v.decks[idx as int], position_frames), w)
        } else {
            w == v
        },
        Command::DeckSetRate { idx, rate } => if idx < DECK_COUNT {
            swept_as(v, idx as int, deck::DeckView { rate, ..v.decks[idx as int] }, w)
        } else {
            w == v
        },
        Command::DeckPanicPlay { idx } => if idx < DECK_COUNT {
            swept_as(
                EngineView {
                    inputs: v.inputs.update(idx as int, disengaged(v.inputs[idx as int])),
                    panic: v.panic.update(idx as int, true),
                    ..v
                },
                idx as int,
                panicked(v.decks[idx as int], v.inputs[idx as int]),
                w,
            )
        } else {
            w == v
        },
        Command::DeckCancelPanicPlay { idx } => if idx < DECK_COUNT {
            swept_as(
                EngineView { panic: v.panic.update(idx as int, false), ..v },
                idx as int,
                deck::DeckView { panic_play: false, ..v.decks[idx as int] },
                w,
            )
        } else {
            w == v
        },
        Command::DeckSetGain { idx, gain } => if idx < DECK_COUNT {
            swept_as(v, idx as int, deck::DeckView { gain, ..v.decks[idx as int] }, w)
        } else {
            w == v
        },
        Command::DeckLoad { idx, source } => if idx < DECK_COUNT {
            swept_as(v, idx as int, deck::with_swapped_source(v.decks[idx as int], source), w)
        } else {
            &&& disposal::disposed(v.tracks, w.tracks, seq![source])
            &&& w == (EngineView { tracks: w.tracks, ..v })
        },
        Command::SetMasterGain { gain } => w == (EngineView { master_gain: gain, ..v }),
        Command::AttachTimecodeInput { idx, input } => if idx < DECK_COUNT {
            &&& replaced_input(v.inputs[idx as int], v.spent_inputs, w.spent_inputs)
            &&& swept_as(
                EngineView {
                    inputs: v.inputs.update(idx as int, Some(input@)),
                    spent_inputs: w.spent_inputs,
                    ..v
                },
                idx as int,
                v.decks[idx as int],
                w,
            )
        } else {
            &&& disposal::disposed(v.spent_inputs, w.spent_inputs, seq![input])
            &&& w == (EngineView { spent_inputs: w.spent_inputs, ..v })
        },
        Command::AttachThruSource { idx, source } => if idx < DECK_COUNT {
            &&& replaced_thru(v.thrus[idx as int], v.spent_thrus, w.spent_thrus)
            &&& swept_as(
                EngineView {
                    thrus: v.thrus.update(idx as int, Some(source@)),
                    spent_thrus: w.spent_thrus,
                    ..v
                },
                idx as int,
                v.decks[idx as int],
                w,
            )
        } else {
            &&& disposal::disposed(v.spent_thrus, w.spent_thrus, seq![source])
            &&& w == (EngineView { spent_thrus: w.spent_thrus, ..v })
        },
    }
}

/// The input that a deck had, if any, was disposed of.
pub open spec fn replaced_input(
    old_input: Option<input::InputView>,
    before: Option<disposal::DisposalView<Box<TimecodeInput>>>,
    after: Option<disposal::DisposalView<Box<TimecodeInput>>>,
) -> bool {
    match old_input {
        None => after == before,
        Some(i) => exists|x: Box<TimecodeInput>|
            x@ == i && #[trigger] disposal::disposed(before, after, seq![x]),
    }
}

/// The thru source that a deck had, if any, was disposed of.
pub open spec fn replaced_thru(
    old_source: Option<thru::ThruView>,
    before: Option<disposal::DisposalView<Box<ThruSource>>>,
    after: Option<disposal::DisposalView<Box<ThruSource>>>,
) -> bool {
    match old_source {
        None => after == before,
        Some(t) => exists|x: Box<ThruSource>|
            x@ == t && #[trigger] disposal::disposed(before, after, seq![x]),
    }
}

/// Each command turned one state into the next.
pub open spec fn is_run(states: Seq<EngineView>, commands: Seq<Command>) -> bool {
    &&& states.len() == commands.len() + 1
    &&& forall|i: int|
        0 <= i < commands.len() ==> applied(states[i], #[trigger] commands[i], states[i + 1])
}

/// A run of commands turned the engine `v` into `w`.
pub open spec fn ran(v: EngineView, commands: Seq<Command>, w: EngineView) -> bool {
    exists|states: Seq<EngineView>| #[trigger]
        is_run(states, commands) && states.first() == v && states.last() == w
}

/// One command more.
proof fn lemma_ran_one_more(
    v: EngineView,
    commands: Seq<Command>,
    m: EngineView,
    c: Command,
    w: EngineView,
)
    requires
        ran(v, commands, m),
        applied(m, c, w),
    ensures
        ran(v, commands.push(c), w),
{
    let states = choose|states: Seq<EngineView>| #[trigger]
        is_run(states, commands) && states.first() == v && states.last() == m;
    let next = commands.push(c);
    let longer = states.push(w);
    assert forall|i: int| 0 <= i < next.len() implies applied(
        longer[i],
        #[trigger] next[i],
        longer[i + 1],
    ) by {
        if i < commands.len() {
            assert(next[i] == commands[i]);
        }
    }
    assert(is_run(longer, next) && longer.first() == v && longer.last() == w);
}

/// How many commands the engine asks for when it gets `n`.
pub open spec fn asked_for(n: nat) -> nat {
    if n < COMMAND_CHANNEL_CAPACITY {
        n + 1
    } else {
        n
    }
}

/// The engine received a run of commands and carried them out in order. It asked
/// for the next one until there was none, or until it had as many as the channel
/// holds.
pub open spec fn drained(
    v: EngineView,
    before: Option<ring::Intake<Command>>,
    w: EngineView,
    after: Option<ring::Intake<Command>>,
) -> bool {
    match before {
        None => after is None && w == v,
        Some(b) => exists|commands: Seq<Command>|
            commands.len() <= COMMAND_CHANNEL_CAPACITY && after == Some(
                ring::taken_in(b, commands, asked_for(commands.len())),
            ) && #[trigger] ran(v, commands, w),
    }
}

/// A deck with an input received `received` and did what its follower said.
pub open spec fn listened<A: Fn(Double, Double) -> Double>(
    atan2: A,
    v: EngineView,
    w: EngineView,
    idx: int,
    received: Seq<Single>,
    intent: Option<LiftIntent>,
) -> bool {
    &&& v.inputs[idx] is Some
    &&& w.inputs[idx] is Some
    &&& input::drove(atan2, v.inputs[idx]->0, w.inputs[idx]->0, received, intent)
    &&& w == (EngineView {
        inputs: v.inputs.update(idx, w.inputs[idx]),
        panic: v.panic.update(idx, obeyed(v.decks[idx], v.panic[idx], intent).1),
        ..with_deck(v, idx, obeyed(v.decks[idx], v.panic[idx], intent).0)
    })
}

/// A deck was driven by its timecode input, if it has one.
pub open spec fn driven<A: Fn(Double, Double) -> Double>(
    atan2: A,
    v: EngineView,
    w: EngineView,
    idx: int,
) -> bool {
    match v.inputs[idx] {
        None => w == v,
        Some(_) => exists|received: Seq<Single>, intent: Option<LiftIntent>| #[trigger]
            listened(atan2, v, w, idx, received, intent),
    }
}

/// A thru source received `received` and was added to the bus.
pub open spec fn passed_through(
    v: EngineView,
    w: EngineView,
    idx: int,
    channels: nat,
    first: u32,
    before: Seq<Single>,
    after: Seq<Single>,
    received: Seq<Single>,
) -> bool {
    &&& v.thrus[idx] is Some
    &&& w.thrus[idx] is Some
    &&& thru::rendered(
        v.thrus[idx]->0,
        w.thrus[idx]->0,
        v.decks[idx].gain,
        channels,
        first as nat,
        before,
        after,
        received,
    )
    &&& w == (EngineView { thrus: v.thrus.update(idx, w.thrus[idx]), ..v })
}

/// One deck was added to the bus: not at all where it is routed nowhere, its thru
/// source at its gain where it has one, or else its track.
pub open spec fn deck_added(
    v: EngineView,
    w: EngineView,
    idx: int,
    channels: nat,
    route: Option<u32>,
    before: Seq<Single>,
    after: Seq<Single>,
) -> bool {
    match route {
        None => w == v && after == before,
        Some(first) => match v.thrus[idx] {
            Some(_) => exists|received: Seq<Single>| #[trigger]
                passed_through(v, w, idx, channels, first, before, after, received),
            None => {
                &&& after == deck::mixed(
                    v.decks[idx],
                    v.sample_rate,
                    channels,
                    first as nat,
                    before,
                )
                &&& w == with_deck(
                    v,
                    idx,
                    deck::rendered(v.decks[idx], v.sample_rate, before.len() / channels),
                )
            },
        },
    }
}

/// Silence on the whole bus.
pub open spec fn silent_bus(len: nat) -> Seq<Single> {
    Seq::new(len, |i: int| Single { bits: single::ZERO })
}

/// The gain is far enough from one to matter.
pub open spec fn gain_matters(gain: Single) -> bool {
    single::less(
        Single { bits: GAIN_EPSILON },
        single::magnitude(single::difference(gain, Single { bits: single::ONE })),
    )
}

/// The bus at the master gain.
pub open spec fn at_gain(bus: Seq<Single>, gain: Single) -> Seq<Single> {
    if gain_matters(gain) {
        Seq::new(bus.len(), |i: int| single::product(bus[i], gain))
    } else {
        bus
    }
}

/// Both decks gave up what they were done with.
pub open spec fn all_swept(v: EngineView, w: EngineView) -> bool {
    &&& disposal::disposed(
        v.tracks,
        w.tracks,
        deck::swept_tracks(v.decks[0]) + deck::swept_tracks(v.decks[1]),
    )
    &&& w == (EngineView {
        tracks: w.tracks,
        decks: v.decks.update(0, deck::swept(v.decks[0])).update(1, deck::swept(v.decks[1])),
        ..v
    })
}

/// The decks were mixed into `bus`: the first turned `v` into `m` and left
/// `half`, the second turned `m` into `n` and left `full`.
pub open spec fn block_mixed(
    v: EngineView,
    m: EngineView,
    n: EngineView,
    w: EngineView,
    channels: nat,
    routing: Seq<Option<u32>>,
    half: Seq<Single>,
    full: Seq<Single>,
    bus: Seq<Single>,
) -> bool {
    &&& deck_added(v, m, 0, channels, routing[0], silent_bus(bus.len()), half)
    &&& deck_added(m, n, 1, channels, routing[1], half, full)
    &&& bus == at_gain(full, v.master_gain)
    &&& all_swept(n, w)
}

/// A block turned the engine `v` into `w`: the commands turned it into `a`, the
/// timecode of the decks into `b` and then into `c`, and the mix into `w`.
pub open spec fn block_rendered<A: Fn(Double, Double) -> Double>(
    atan2: A,
    v: EngineView,
    before: Option<ring::Intake<Command>>,
    a: EngineView,
    b: EngineView,
    c: EngineView,
    w: EngineView,
    after: Option<ring::Intake<Command>>,
    channels: nat,
    routing: Seq<Option<u32>>,
    bus: Seq<Single>,
) -> bool {
    &&& drained(v, before, a, after)
    &&& driven(atan2, a, b, 0)
    &&& driven(atan2, b, c, 1)
    &&& exists|m: EngineView, n: EngineView, half: Seq<Single>, full: Seq<Single>| #[trigger]
        block_mixed(c, m, n, w, channels, routing, half, full, bus)
}

/// The routing names pairs of channels that exist.
pub open spec fn routable(routing: Seq<Option<u32>>, channels: nat) -> bool {
    &&& routing[0] matches Some(c) ==> c + 2 <= channels
    &&& routing[1] matches Some(c) ==> c + 2 <= channels
}

/// Silences a bus.
fn fill_silence(out: &mut [Single])
    ensures
        final(out)@ == silent_bus(old(out)@.len()),
{
    let n: usize = out.len();
    let mut i: usize = 0;
    while i < n
        invariant
            i <= n,
            out@.len() == n,
            forall|j: int| 0 <= j < i ==> #[trigger] out@[j] == (Single { bits: single::ZERO }),
        decreases n - i,
    {
        out[i] = Single { bits: single::ZERO };
        i = i + 1;
    }
    assert(out@ =~= silent_bus(n as nat));
}

/// Scales a bus.
fn apply_gain(out: &mut [Single], gain: Single)
    ensures
        final(out)@ == at_gain(old(out)@, gain),
{
    let ghost bus = out@;
    let matters: bool = (Single { bits: GAIN_EPSILON }).lt(
        gain.minus(Single { bits: single::ONE }).abs(),
    );
    if matters {
        let n: usize = out.len();
        let mut i: usize = 0;
        while i < n
            invariant
                i <= n,
                out@.len() == n,
                bus.len() == n,
                forall|j: int| 0 <= j < i ==> #[trigger] out@[j] == single::product(bus[j], gain),
                forall|j: int| i <= j < n ==> #[trigger] out@[j] == bus[j],
            decreases n - i,
        {
            out[i] = out[i].times(gain);
            i = i + 1;
        }
        assert(out@ =~= at_gain(bus, gain));
    }
}

impl Engine {
    pub closed spec fn view(&self) -> EngineView {
        EngineView {
            sample_rate: self.sample_rate,
            block_size: self.block_size,
            decks: Seq::new(self.decks@.len(), |i: int| self.decks@[i]@),
            master_gain: self.master_gain,
            tracks: self.track_trash@,
            spent_inputs: self.timecode_trash@,
            spent_thrus: self.thru_trash@,
            inputs: Seq::new(
                self.timecode_inputs@.len(),
                |i: int| input_view(self.timecode_inputs@[i]),
            ),
            thrus: Seq::new(self.thru_sources@.len(), |i: int| thru_view(self.thru_sources@[i])),
            panic: self.panic_play@,
        }
    }

    /// The commands that were received, if the engine is controlled from outside.
    pub closed spec fn received(&self) -> Option<ring::Intake<Command>> {
        match self.cmd_rx {
            None => None,
            Some(rx) => Some(rx.intake()),
        }
    }

    /// Two of everything, each of it well formed.
    pub closed spec fn wf(&self) -> bool {
        &&& self.decks@.len() == DECK_COUNT
        &&& self.timecode_inputs@.len() == DECK_COUNT
        &&& self.thru_sources@.len() == DECK_COUNT
        &&& self.panic_play@.len() == DECK_COUNT
        &&& forall|i: int| 0 <= i < DECK_COUNT ==> (#[trigger] self.decks@[i]).wf()
        &&& self.track_trash.wf()
        &&& self.timecode_trash.wf()
        &&& self.thru_trash.wf()
    }

    /// Sends the tracks that a deck is done with to where they are disposed of.
    fn sweep_deck_disposal(&mut self, idx: usize)
        requires
            old(self).wf(),
            idx < DECK_COUNT,
        ensures
            final(self).wf(),
            final(self).received() == old(self).received(),
            disposal::disposed(
                old(self)@.tracks,
                final(self)@.tracks,
                deck::swept_tracks(old(self)@.decks[idx as int]),
            ),
            final(self)@ == (EngineView {
                tracks: final(self)@.tracks,
                ..with_deck(old(self)@, idx as int, deck::swept(old(self)@.decks[idx as int]))
            }),
    {
        let ghost v = self@;
        let ghost d = self.decks@[idx as int]@;
        let ghost t0 = self.track_trash@;
        let pending = self.decks[idx].take_pending_disposal();
        let finished = self.decks[idx].take_finished_declick_source();
        proof {
            disposal::lemma_disposed_nothing(t0);
        }
        match pending {
            Some(track) => {
                self.track_trash.dispose(track);
            },
            None => {},
        }
        let ghost t1 = self.track_trash@;
        assert(disposal::disposed(t0, t1, deck::one_or_none(d.pending)));
        proof {
            disposal::lemma_disposed_nothing(t1);
        }
        match finished {
            Some(track) => {
                self.track_trash.dispose(track);
            },
            None => {},
        }
        proof {
            let rest = match d.fade {
                Some(f) if f.remaining == 0 => deck::one_or_none(f.source),
                _ => Seq::empty(),
            };
            assert(disposal::disposed(t1, self.track_trash@, rest));
            disposal::lemma_disposed_composes(
                t0,
                t1,
                self.track_trash@,
                deck::one_or_none(d.pending),
                rest,
            );
            assert(self@.decks =~= v.decks.update(idx as int, deck::swept(d)));
            assert(self@ =~= (EngineView {
                tracks: self@.tracks,
                ..with_deck(v, idx as int, deck::swept(d))
            }));
        }
    }

    /// Carries out one command.
    pub fn apply_command(&mut self, cmd: Command)
        requires
            old(self).wf(),
        ensures
            final(self).wf(),
            final(self).received() == old(self).received(),
            applied(old(self)@, cmd, final(self)@),
    {
        let ghost v = self@;
        match cmd {
            Command::DeckPlay { idx } => {
                let i: usize = idx as usize;
                if i < DECK_COUNT {
                    self.decks[i].set_playing(true);
                    self.sweep_as(i, Ghost(v), Ghost(deck::with_playing(v.decks[i as int], true)));
                }
            },
            Command::DeckPause { idx } => {
                let i: usize = idx as usize;
                if i < DECK_COUNT {
                    self.decks[i].set_playing(false);
                    self.sweep_as(i, Ghost(v), Ghost(deck::with_playing(v.decks[i as int], false)));
                }
            },
            Command::DeckSeek { idx, position_frames } => {
                let i: usize = idx as usize;
                if i < DECK_COUNT {
                    self.decks[i].set_position_frames(position_frames);
                    let ghost d = deck::with_position(v.decks[i as int], position_frames);
                    self.sweep_as(i, Ghost(v), Ghost(d));
                }
            },
            Command::DeckSetRate { idx, rate } => {
                let i: usize = idx as usize;
                if i < DECK_COUNT {
                    self.decks[i].set_rate(rate);
                    self.sweep_as(
                        i,
                        Ghost(v),
                        Ghost(deck::DeckView { rate, ..v.decks[i as int] }),
                    );
                }
            },
            Command::DeckPanicPlay { idx } => {
                let i: usize = idx as usize;
                if i < DECK_COUNT {
                    self.engage_panic_play(i);
                    let ghost held = v.inputs[i as int];
                    let ghost m = EngineView {
                        inputs: v.inputs.update(i as int, disengaged(held)),
                        panic: v.panic.update(i as int, true),
                        ..v
                    };
                    self.sweep_as(i, Ghost(m), Ghost(panicked(v.decks[i as int], held)));
                }
            },
            Command::DeckCancelPanicPlay { idx } => {
                let i: usize = idx as usize;
                if i < DECK_COUNT {
                    self.decks[i].set_panic_play_visible(false);
                    self.panic_play.set(i, false);
                    let ghost m = EngineView { panic: v.panic.update(i as int, false), ..v };
                    assert(self@.panic =~= m.panic);
                    self.sweep_as(
                        i,
                        Ghost(m),
                        Ghost(deck::DeckView { panic_play: false, ..v.decks[i as int] }),
                    );
                }
            },
            Command::DeckSetGain { idx, gain } => {
                let i: usize = idx as usize;
                if i < DECK_COUNT {
                    self.decks[i].set_gain(gain);
                    self.sweep_as(
                        i,
                        Ghost(v),
                        Ghost(deck::DeckView { gain, ..v.decks[i as int] }),
                    );
                }
            },
            Command::DeckLoad { idx, source } => {
                let i: usize = idx as usize;
                if i < DECK_COUNT {
                    self.decks[i].swap_source(source);
                    let ghost d = deck::with_swapped_source(v.decks[i as int], source);
                    self.sweep_as(i, Ghost(v), Ghost(d));
                } else {
                    self.track_trash.dispose(source);
                }
            },
            Command::SetMasterGain { gain } => {
                self.master_gain = gain;
            },
            Command::AttachTimecodeInput { idx, input } => {
                let i: usize = idx as usize;
                if i < DECK_COUNT {
                    let mut slot: Option<Box<TimecodeInput>> = Some(input);
                    core::mem::swap(&mut self.timecode_inputs[i], &mut slot);
                    match slot {
                        Some(displaced) => {
                            self.timecode_trash.dispose(displaced);
                        },
                        None => {},
                    }
                    let ghost m = EngineView {
                        inputs: v.inputs.update(i as int, Some(input@)),
                        spent_inputs: self@.spent_inputs,
                        ..v
                    };
                    assert(self@.inputs =~= m.inputs);
                    self.sweep_as(i, Ghost(m), Ghost(v.decks[i as int]));
                } else {
                    self.timecode_trash.dispose(input);
                }
            },
            Command::AttachThruSource { idx, source } => {
                let i: usize = idx as usize;
                if i < DECK_COUNT {
                    let mut slot: Option<Box<ThruSource>> = Some(source);
                    core::mem::swap(&mut self.thru_sources[i], &mut slot);
                    match slot {
                        Some(displaced) => {
                            self.thru_trash.dispose(displaced);
                        },
                        None => {},
                    }
                    let ghost m = EngineView {
                        thrus: v.thrus.update(i as int, Some(source@)),
                        spent_thrus: self@.spent_thrus,
                        ..v
                    };
                    assert(self@.thrus =~= m.thrus);
                    self.sweep_as(i, Ghost(m), Ghost(v.decks[i as int]));
                } else {
                    self.thru_trash.dispose(source);
                }
            },
        }
    }

    /// Sweeps a deck that a command has turned into `d`, in an engine that is `v` but for that.
    fn sweep_as(&mut self, idx: usize, Ghost(v): Ghost<EngineView>, Ghost(d): Ghost<deck::DeckView>)
        requires
            old(self).wf(),
            idx < DECK_COUNT,
            v.decks.len() == DECK_COUNT,
            old(self)@.decks =~= v.decks.update(idx as int, d),
            old(self)@ == (EngineView { decks: old(self)@.decks, ..v }),
        ensures
            final(self).wf(),
            final(self).received() == old(self).received(),
            swept_as(v, idx as int, d, final(self)@),
    {
        self.sweep_deck_disposal(idx);
        proof {
            assert(self@.decks =~= v.decks.update(idx as int, deck::swept(d)));
        }
    }

    /// Lets a deck hold its last good rate on its own.
    fn engage_panic_play(&mut self, i: usize)
        requires
            old(self).wf(),
            i < DECK_COUNT,
        ensures
            final(self).wf(),
            final(self).received() == old(self).received(),
            final(self)@ == (EngineView {
                inputs: old(self)@.inputs.update(
                    i as int,
                    disengaged(old(self)@.inputs[i as int]),
                ),
                panic: old(self)@.panic.update(i as int, true),
                ..with_deck(
                    old(self)@,
                    i as int,
                    panicked(old(self)@.decks[i as int], old(self)@.inputs[i as int]),
                )
            }),
    {
        let ghost v = self@;
        let mut slot: Option<Box<TimecodeInput>> = None;
        core::mem::swap(&mut self.timecode_inputs[i], &mut slot);
        let rate: Double = match slot {
            Some(mut input) => {
                let rate: Double = input.last_locked_rate();
                input.disengage();
                let mut back: Option<Box<TimecodeInput>> = Some(input);
                core::mem::swap(&mut self.timecode_inputs[i], &mut back);
                rate
            },
            None => self.decks[i].rate(),
        };
        self.decks[i].set_rate(rate);
        self.decks[i].set_playing(true);
        self.decks[i].set_panic_play_visible(true);
        self.panic_play.set(i, true);
        proof {
            assert(self@.inputs =~= v.inputs.update(i as int, disengaged(v.inputs[i as int])));
            assert(self@.decks =~= v.decks.update(
                i as int,
                panicked(v.decks[i as int], v.inputs[i as int]),
            ));
            assert(self@.panic =~= v.panic.update(i as int, true));
        }
    }

    /// Carries out the commands that wait, at most as many as the channel holds.
    fn drain_commands(&mut self)
        requires
            old(self).wf(),
        ensures
            final(self).wf(),
            drained(old(self)@, old(self).received(), final(self)@, final(self).received()),
    {
        let ghost v = self@;
        let ghost taken = self.received();
        let mut rx: Receiver<Command> = match self.cmd_rx.take() {
            None => {
                return ;
            },
            Some(rx) => rx,
        };
        let ghost before = rx.intake();
        let ghost mut commands = Seq::<Command>::empty();
        let mut n: usize = 0;
        let mut more: bool = true;
        proof {
            assert(before.taken + commands =~= before.taken);
            let states = seq![v];
            assert(self@ =~= v);
            assert(is_run(states, commands) && states.first() == v && states.last() == v);
        }
        while more && n < COMMAND_CHANNEL_CAPACITY
            invariant
                n <= COMMAND_CHANNEL_CAPACITY,
                self.wf(),
                self.cmd_rx is None,
                commands.len() == n,
                rx.intake() == ring::taken_in(
                    before,
                    commands,
                    if more {
                        n as nat
                    } else {
                        n as nat + 1
                    },
                ),
                !more ==> n < COMMAND_CHANNEL_CAPACITY,
                ran(v, commands, self@),
            decreases COMMAND_CHANNEL_CAPACITY - n + if more { 1int } else { 0 },
        {
            match rx.try_pop() {
                Some(cmd) => {
                    let ghost m = self@;
                    self.apply_command(cmd);
                    proof {
                        let next = commands.push(cmd);
                        assert(before.taken + next =~= before.taken + commands + seq![cmd]);
                        lemma_ran_one_more(v, commands, m, cmd, self@);
                        commands = next;
                    }
                    n = n + 1;
                },
                None => {
                    proof {
                        assert(before.taken + commands + Seq::<Command>::empty() =~= before.taken
                            + commands);
                    }
                    more = false;
                },
            }
        }
        self.cmd_rx = Some(rx);
        assert(commands.len() <= COMMAND_CHANNEL_CAPACITY && ran(v, commands, self@));
    }

    /// Lets a deck do what its timecode input says.
    fn drive_timecode_input<A: Fn(Double, Double) -> Double>(&mut self, idx: usize, atan2: &A)
        requires
            old(self).wf(),
            idx < DECK_COUNT,
            forall|y: Double, x: Double| call_requires(*atan2, (y, x)),
        ensures
            final(self).wf(),
            final(self).received() == old(self).received(),
            driven(*atan2, old(self)@, final(self)@, idx as int),
    {
        let ghost v = self@;
        let mut slot: Option<Box<TimecodeInput>> = None;
        core::mem::swap(&mut self.timecode_inputs[idx], &mut slot);
        match slot {
            None => {
                assert(self@ =~= v);
            },
            Some(mut input) => {
                let ghost i = input@;
                let intent: Option<LiftIntent> = input.drive(atan2);
                let ghost received = choose|received: Seq<Single>| #[trigger]
                    input::drove(*atan2, i, input@, received, intent);
                let mut back: Option<Box<TimecodeInput>> = Some(input);
                core::mem::swap(&mut self.timecode_inputs[idx], &mut back);
                self.obey(idx, intent);
                proof {
                    assert(self@.inputs =~= v.inputs.update(idx as int, Some(input@)));
                    assert(self@.decks =~= v.decks.update(
                        idx as int,
                        obeyed(v.decks[idx as int], v.panic[idx as int], intent).0,
                    ));
                    assert(listened(*atan2, v, self@, idx as int, received, intent));
                }
            },
        }
    }

    /// Does with a deck what the timecode says.
    fn obey(&mut self, idx: usize, intent: Option<LiftIntent>)
        requires
            old(self).wf(),
            idx < DECK_COUNT,
        ensures
            final(self).wf(),
            final(self).received() == old(self).received(),
            ({
                let (d, p) = obeyed(
                    old(self)@.decks[idx as int],
                    old(self)@.panic[idx as int],
                    intent,
                );
                final(self)@ == (EngineView {
                    panic: old(self)@.panic.update(idx as int, p),
                    ..with_deck(old(self)@, idx as int, d)
                })
            }),
    {
        let ghost v = self@;
        match intent {
            None => {},
            Some(LiftIntent::Locked { rate }) => {
                self.decks[idx].set_rate(rate);
                self.decks[idx].set_playing(true);
                if self.panic_play[idx] {
                    self.decks[idx].set_panic_play_visible(false);
                    self.panic_play.set(idx, false);
                }
            },
            Some(LiftIntent::DropoutHoldRate { rate }) => {
                if !self.panic_play[idx] {
                    self.decks[idx].set_rate(rate);
                    self.decks[idx].set_playing(false);
                }
            },
        }
        proof {
            let (d, p) = obeyed(v.decks[idx as int], v.panic[idx as int], intent);
            assert(self@.decks =~= v.decks.update(idx as int, d));
            assert(self@.panic =~= v.panic.update(idx as int, p));
        }
    }

    /// Adds one deck to the bus.
    fn add_deck(&mut self, idx: usize, out: &mut [Single], channels: usize, route: Option<u32>)
        requires
            old(self).wf(),
            idx < DECK_COUNT,
            channels >= 2,
            old(out)@.len() % (channels as nat) == 0,
            route matches Some(c) ==> c + 2 <= channels,
        ensures
            final(self).wf(),
            final(self).received() == old(self).received(),
            final(out)@.len() == old(out)@.len(),
            deck_added(
                old(self)@,
                final(self)@,
                idx as int,
                channels as nat,
                route,
                old(out)@,
                final(out)@,
            ),
    {
        let ghost v = self@;
        let ghost before = out@;
        let first: u32 = match route {
            None => {
                return ;
            },
            Some(c) => c,
        };
        let gain: Single = self.decks[idx].gain();
        let mut slot: Option<Box<ThruSource>> = None;
        core::mem::swap(&mut self.thru_sources[idx], &mut slot);
        match slot {
            Some(mut source) => {
                let ghost t = source@;
                source.render_into(out, gain, channels, first as usize);
                let ghost received = choose|received: Seq<Single>| #[trigger]
                    thru::rendered(
                        t,
                        source@,
                        gain,
                        channels as nat,
                        first as nat,
                        before,
                        out@,
                        received,
                    );
                let mut back: Option<Box<ThruSource>> = Some(source);
                core::mem::swap(&mut self.thru_sources[idx], &mut back);
                proof {
                    assert(self@.thrus =~= v.thrus.update(idx as int, Some(source@)));
                    assert(self@.decks =~= v.decks);
                    assert(passed_through(
                        v,
                        self@,
                        idx as int,
                        channels as nat,
                        first,
                        before,
                        out@,
                        received,
                    ));
                }
            },
            None => {
                let sr: Single = self.sample_rate;
                self.decks[idx].render_into(out, sr, channels, first as usize);
                proof {
                    assert(self@.decks =~= v.decks.update(
                        idx as int,
                        deck::rendered(v.decks[idx as int], sr, before.len() / (channels as nat)),
                    ));
                    assert(self@.thrus =~= v.thrus);
                }
            },
        }
    }

    /// Mixes one block: the bus is silenced, both decks are added where they are
    /// routed, and the master gain is applied.
    pub fn mix(&mut self, out: &mut [Single], channels: usize, routing: &OutputRouting)
        requires
            old(self).wf(),
            channels >= 2,
            old(out)@.len() % (channels as nat) == 0,
            routable(routing@, channels as nat),
        ensures
            final(self).wf(),
            final(self).received() == old(self).received(),
            final(out)@.len() == old(out)@.len(),
            exists|m: EngineView, n: EngineView, half: Seq<Single>, full: Seq<Single>| #[trigger]
                block_mixed(
                    old(self)@,
                    m,
                    n,
                    final(self)@,
                    channels as nat,
                    routing@,
                    half,
                    full,
                    final(out)@,
                ),
    {
        let ghost v = self@;
        fill_silence(out);
        self.add_deck(0, out, channels, routing[0]);
        let ghost m = self@;
        let ghost half = out@;
        self.add_deck(1, out, channels, routing[1]);
        let ghost n = self@;
        let ghost full = out@;
        assert(n.master_gain == v.master_gain);
        apply_gain(out, self.master_gain);
        self.sweep_deck_disposal(0);
        let ghost a = self@;
        self.sweep_deck_disposal(1);
        proof {
            disposal::lemma_disposed_composes(
                n.tracks,
                a.tracks,
                self@.tracks,
                deck::swept_tracks(n.decks[0]),
                deck::swept_tracks(n.decks[1]),
            );
            assert(self@.decks =~= n.decks.update(0, deck::swept(n.decks[0])).update(
                1,
                deck::swept(n.decks[1]),
            ));
            assert(block_mixed(
                v,
                m,
                n,
                self@,
                channels as nat,
                routing@,
                half,
                full,
                out@,
            ));
        }
    }

    /// Renders one block on the first two channels.
    pub fn render<A: Fn(Double, Double) -> Double>(&mut self, out: &mut [Single], atan2: &A)
        requires
            old(self).wf(),
            old(out)@.len() % 2 == 0,
            forall|y: Double, x: Double| call_requires(*atan2, (y, x)),
        ensures
            final(self).wf(),
            final(out)@.len() == old(out)@.len(),
            exists|a: EngineView, b: EngineView, c: EngineView| #[trigger]
                block_rendered(
                    *atan2,
                    old(self)@,
                    old(self).received(),
                    a,
                    b,
                    c,
                    final(self)@,
                    final(self).received(),
                    2,
                    both_on_main(),
                    final(out)@,
                ),
    {
        self.render_routed(out, 2, &internal_mixer_routing(), atan2);
    }

    /// Renders one block: carries out the commands that wait, lets the timecode
    /// drive the decks, and mixes the decks onto a bus of `num_channels` channels.
    /// A deck that is routed nowhere stands still.
    pub fn render_routed<A: Fn(Double, Double) -> Double>(
        &mut self,
        out: &mut [Single],
        num_channels: usize,
        routing: &OutputRouting,
        atan2: &A,
    )
        requires
            old(self).wf(),
            num_channels >= 2,
            old(out)@.len() % (num_channels as nat) == 0,
            routable(routing@, num_channels as nat),
            forall|y: Double, x: Double| call_requires(*atan2, (y, x)),
        ensures
            final(self).wf(),
            final(out)@.len() == old(out)@.len(),
            exists|a: EngineView, b: EngineView, c: EngineView| #[trigger]
                block_rendered(
                    *atan2,
                    old(self)@,
                    old(self).received(),
                    a,
                    b,
                    c,
                    final(self)@,
                    final(self).received(),
                    num_channels as nat,
                    routing@,
                    final(out)@,
                ),
    {
        let ghost v = self@;
        let ghost before = self.received();
        self.drain_commands();
        let ghost a = self@;
        self.drive_timecode_input(0, atan2);
        let ghost b = self@;
        self.drive_timecode_input(1, atan2);
        let ghost c = self@;
        self.mix(out, num_channels, routing);
        assert(block_rendered(
            *atan2,
            v,
            before,
            a,
            b,
            c,
            self@,
            self.received(),
            num_channels as nat,
            routing@,
            out@,
        ));
    }

    /// An engine that is not controlled from outside.
    pub fn new<F: Fn(Single) -> Single>(sample_rate: Single, block_size: usize, sin: &F) -> (r: Self)
        requires
            declick::ramp_fits(sample_rate, Single { bits: declick::DEFAULT_DECLICK_MS }),
            forall|x: Single| call_requires(*sin, (x,)),
        ensures
            r.wf(),
            r.received() is None,
            exists|envelope: Seq<Single>| #[trigger]
                declick::is_envelope(
                    *sin,
                    sample_rate,
                    Single { bits: declick::DEFAULT_DECLICK_MS },
                    envelope,
                ) && r@ == fresh(
                    sample_rate,
                    block_size,
                    envelope,
                    boards(r@),
                    None,
                    None,
                    None,
                ),
    {
        Self::assemble(
            sample_rate,
            block_size,
            sin,
            None,
            Disposal::none(),
            Disposal::none(),
            Disposal::none(),
        )
    }

    /// An engine from its ends of the rings.
    pub(crate) fn assemble<F: Fn(Single) -> Single>(
        sample_rate: Single,
        block_size: usize,
        sin: &F,
        cmd_rx: Option<Receiver<Command>>,
        track_trash: Disposal<Arc<Track>>,
        timecode_trash: Disposal<Box<TimecodeInput>>,
        thru_trash: Disposal<Box<ThruSource>>,
    ) -> (r: Self)
        requires
            declick::ramp_fits(sample_rate, Single { bits: declick::DEFAULT_DECLICK_MS }),
            forall|x: Single| call_requires(*sin, (x,)),
            track_trash.wf(),
            timecode_trash.wf(),
            thru_trash.wf(),
        ensures
            r.wf(),
            r.received() == match cmd_rx {
                None => None,
                Some(rx) => Some(rx.intake()),
            },
            exists|envelope: Seq<Single>| #[trigger]
                declick::is_envelope(
                    *sin,
                    sample_rate,
                    Single { bits: declick::DEFAULT_DECLICK_MS },
                    envelope,
                ) && r@ == fresh(
                    sample_rate,
                    block_size,
                    envelope,
                    boards(r@),
                    track_trash@,
                    timecode_trash@,
                    thru_trash@,
                ),
    {
        let envelope: Arc<DeclickEnvelope> = DeclickEnvelope::new(
            sample_rate,
            Single { bits: declick::DEFAULT_DECLICK_MS },
            sin,
        );
        let mut decks: Vec<Deck> = Vec::new();
        decks.push(Deck::new(envelope.clone()));
        decks.push(Deck::new(envelope.clone()));
        let mut timecode_inputs: Vec<Option<Box<TimecodeInput>>> = Vec::new();
        timecode_inputs.push(None);
        timecode_inputs.push(None);
        let mut thru_sources: Vec<Option<Box<ThruSource>>> = Vec::new();
        thru_sources.push(None);
        thru_sources.push(None);
        let mut panic_play: Vec<bool> = Vec::new();
        panic_play.push(false);
        panic_play.push(false);
        let r = Engine {
            sample_rate,
            block_size,
            decks,
            master_gain: Single { bits: single::ONE },
            cmd_rx,
            track_trash,
            timecode_trash,
            thru_trash,
            timecode_inputs,
            thru_sources,
            panic_play,
        };
        proof {
            let f = fresh(
                sample_rate,
                block_size,
                envelope@,
                boards(r@),
                track_trash@,
                timecode_trash@,
                thru_trash@,
            );
            assert(r@.decks =~= f.decks);
            assert(r@.inputs =~= f.inputs);
            assert(r@.thrus =~= f.thrus);
            assert(r@.panic =~= f.panic);
        }
        r
    }

    /// Lets a deck follow a timecode input.
    pub fn attach_timecode_input(
        &mut self,
        deck_idx: usize,
        rx: Receiver<Single>,
        config: TimecodeInputConfig,
    ) -> (r: Result<(), AttachError>)
        requires
            old(self).wf(),
            input_fault(old(self)@, deck_idx, config) is None ==> single::less(
                Single { bits: single::ZERO },
                config.input_sample_rate,
            ) && 2 * config.max_block_frames <= single::MAX_IN_MEMORY,
        ensures
            final(self).wf(),
            final(self).received() == old(self).received(),
            match r {
                Err(e) => input_fault(old(self)@, deck_idx, config) == Some(e) && final(self)@
                    == old(self)@,
                Ok(()) => input_fault(old(self)@, deck_idx, config) is None && final(self)@ == (
                EngineView {
                    inputs: old(self)@.inputs.update(
                        deck_idx as int,
                        Some(
                            input::InputView {
                                intake: rx.intake(),
                                room: 2 * config.max_block_frames as nat,
                                follower: input::fresh(config),
                            },
                        ),
                    ),
                    ..old(self)@
                }),
            },
    {
        let ghost v = self@;
        if deck_idx >= DECK_COUNT {
            return Err(AttachError::InvalidDeck { idx: deck_idx, count: DECK_COUNT });
        }
        match config.validate(self.sample_rate) {
            Err(e) => {
                return Err(e);
            },
            Ok(()) => {},
        }
        if self.timecode_inputs[deck_idx].is_some() {
            return Err(AttachError::AlreadyAttached { idx: deck_idx });
        }
        let input = TimecodeInput::new(rx, config);
        self.timecode_inputs.set(deck_idx, Some(Box::new(input)));
        assert(self@.inputs =~= v.inputs.update(deck_idx as int, Some(input@)));
        Ok(())
    }

    /// Takes the timecode input off a deck.
    pub fn detach_timecode_input(&mut self, deck_idx: usize) -> (r: Option<Box<TimecodeInput>>)
        requires
            old(self).wf(),
        ensures
            final(self).wf(),
            final(self).received() == old(self).received(),
            deck_idx >= DECK_COUNT ==> r is None && final(self)@ == old(self)@,
            deck_idx < DECK_COUNT ==> input_view(r) == old(self)@.inputs[deck_idx as int]
                && final(self)@ == (EngineView {
                inputs: old(self)@.inputs.update(deck_idx as int, None),
                ..old(self)@
            }),
    {
        let ghost v = self@;
        if deck_idx >= DECK_COUNT {
            return None;
        }
        let mut slot: Option<Box<TimecodeInput>> = None;
        core::mem::swap(&mut self.timecode_inputs[deck_idx], &mut slot);
        assert(self@.inputs =~= v.inputs.update(deck_idx as int, None));
        slot
    }

    /// What the timecode of a deck last decoded to.
    pub fn timecode_last_output(&self, deck_idx: usize) -> (r: Option<DecodeOutput>)
        requires
            self.wf(),
        ensures
            r == if deck_idx < DECK_COUNT {
                match self@.inputs[deck_idx as int] {
                    Some(i) => i.follower.last_output,
                    None => None,
                }
            } else {
                None
            },
    {
        if deck_idx >= DECK_COUNT {
            return None;
        }
        match &self.timecode_inputs[deck_idx] {
            Some(i) => i.last_output(),
            None => None,
        }
    }

    /// Lets a deck play a record through, in place of its earlier source.
    pub fn attach_thru_source(
        &mut self,
        deck_idx: usize,
        rx: Receiver<Single>,
        config: ThruInputConfig,
    ) -> (r: Result<(), ThruAttachError>)
        requires
            old(self).wf(),
            thru_fault(old(self)@.sample_rate, deck_idx, config) is None
                ==> 2 * config.max_block_frames <= single::MAX_IN_MEMORY,
        ensures
            final(self).wf(),
            final(self).received() == old(self).received(),
            match r {
                Err(e) => thru_fault(old(self)@.sample_rate, deck_idx, config) == Some(e)
                    && final(self)@ == old(self)@,
                Ok(()) => thru_fault(old(self)@.sample_rate, deck_idx, config) is None
                    && final(self)@ == (EngineView {
                    thrus: old(self)@.thrus.update(
                        deck_idx as int,
                        Some(
                            thru::ThruView {
                                intake: rx.intake(),
                                block_frames: config.max_block_frames as nat,
                                bpm: None,
                                peaks: None,
                            },
                        ),
                    ),
                    ..old(self)@
                }),
            },
    {
        let ghost v = self@;
        if deck_idx >= DECK_COUNT {
            return Err(ThruAttachError::InvalidDeck { idx: deck_idx, count: DECK_COUNT });
        }
        match config.validate(self.sample_rate) {
            Err(e) => {
                return Err(e);
            },
            Ok(()) => {},
        }
        let source = ThruSource::new(rx, config);
        self.thru_sources.set(deck_idx, Some(Box::new(source)));
        assert(self@.thrus =~= v.thrus.update(deck_idx as int, Some(source@)));
        Ok(())
    }

    /// Takes the thru source off a deck.
    pub fn detach_thru_source(&mut self, deck_idx: usize) -> (r: Option<Box<ThruSource>>)
        requires
            old(self).wf(),
        ensures
            final(self).wf(),
            final(self).received() == old(self).received(),
            deck_idx >= DECK_COUNT ==> r is None && final(self)@ == old(self)@,
            deck_idx < DECK_COUNT ==> thru_view(r) == old(self)@.thrus[deck_idx as int]
                && final(self)@ == (EngineView {
                thrus: old(self)@.thrus.update(deck_idx as int, None),
                ..old(self)@
            }),
    {
        let ghost v = self@;
        if deck_idx >= DECK_COUNT {
            return None;
        }
        let mut slot: Option<Box<ThruSource>> = None;
        core::mem::swap(&mut self.thru_sources[deck_idx], &mut slot);
        assert(self@.thrus =~= v.thrus.update(deck_idx as int, None));
        slot
    }

    /// Whether a deck plays a record through.
    pub fn thru_attached(&self, deck_idx: usize) -> (r: bool)
        requires
            self.wf(),
        ensures
            r == (deck_idx < DECK_COUNT && self@.thrus[deck_idx as int] is Some),
    {
        if deck_idx >= DECK_COUNT {
            return false;
        }
        self.thru_sources[deck_idx].is_some()
    }

    /// The ring of the thru source of a deck can say that `n` samples wait.
    pub closed spec fn thru_may_wait(&self, deck_idx: usize, n: usize) -> bool {
        self.thru_sources@[deck_idx as int] matches Some(t) && t.may_wait(n)
    }

    /// How many input samples wait for the thru source of a deck, as its ring says.
    pub fn thru_available(&self, deck_idx: usize) -> (r: Option<usize>)
        requires
            self.wf(),
        ensures
            r is Some <==> deck_idx < DECK_COUNT && self@.thrus[deck_idx as int] is Some,
            r matches Some(n) ==> n <= self@.thrus[deck_idx as int]->0.intake.channel.capacity
                && self.thru_may_wait(deck_idx, n),
    {
        if deck_idx >= DECK_COUNT {
            return None;
        }
        match &self.thru_sources[deck_idx] {
            Some(t) => Some(t.available()),
            None => None,
        }
    }

    /// The gain of the mix.
    pub fn master_gain(&self) -> (r: Single)
        ensures
            r == self@.master_gain,
    {
        self.master_gain
    }

    /// Sets the gain of the mix.
    pub fn set_master_gain(&mut self, gain: Single)
        requires
            old(self).wf(),
        ensures
            final(self).wf(),
            final(self).received() == old(self).received(),
            final(self)@ == (EngineView { master_gain: gain, ..old(self)@ }),
    {
        self.master_gain = gain;
    }

    /// The sample rate.
    pub fn sample_rate(&self) -> (r: Single)
        ensures
            r == self@.sample_rate,
    {
        self.sample_rate
    }

    /// Frames per block, as a hint.
    pub fn block_size(&self) -> (r: usize)
        ensures
            r == self@.block_size,
    {
        self.block_size
    }

    /// A deck, to be changed.
    pub fn deck_mut(&mut self, idx: usize) -> (r: &mut Deck)
        requires
            old(self).wf(),
            idx < DECK_COUNT,
        ensures
            (*r)@ == old(self)@.decks[idx as int],
            (*r).wf(),
            (*final(r)).wf() ==> final(self).wf(),
            final(self).received() == old(self).received(),
            final(self)@ == with_deck(old(self)@, idx as int, (*final(r))@),
    {
        &mut self.decks[idx]
    }

    /// A deck.
    pub fn deck(&self, idx: usize) -> (r: &Deck)
        requires
            self.wf(),
            idx < DECK_COUNT,
        ensures
            r@ == self@.decks[idx as int],
            r.wf(),
    {
        &self.decks[idx]
    }
}

} // verus!
