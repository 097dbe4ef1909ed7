//! Blocks join, and commands come one after the other.

use std::sync::Arc;
use vstd::arithmetic::power2::*;
use vstd::prelude::*;

use crate::engine::command::Command;
use crate::engine::deck;
use crate::engine::mixer;
use crate::engine::obedience;
use crate::engine::pacing;
use crate::engine::playback;
use crate::engine::ring;
use crate::engine::shared::DeckSharedState;
use crate::ieee::double;
use crate::ieee::double::Double;
use crate::ieee::exact;
use crate::ieee::exact::single_value;
use crate::ieee::single;
use crate::ieee::single::Single;
use crate::timecode::lift::LiftIntent;
use crate::track::Track;

verus! {

/// It does not matter in which blocks a deck is played: what it adds in frame `k` after a block of `m`
/// frames is what it would have added in frame `m + k`, in the middle of a ramp, too.
pub proof fn law_blocks_join(v: deck::DeckView, engine_sr: Single, m: nat, k: nat)
    requires
        deck::well_formed(v),
    ensures
        deck::contribution(deck::rendered(v, engine_sr, m), engine_sr, k) == deck::contribution(
            v,
            engine_sr,
            m + k,
        ),
{
    let w = deck::rendered(v, engine_sr, m);
    playback::law_steps_of_blocks_add_up(
        v.position,
        deck::increment(v.source, v.rate, engine_sr),
        m,
        k,
    );
    if v.source is Some {
        assert(deck::playhead(w, engine_sr, k) == deck::playhead(v, engine_sr, m + k));
    }
    if let Some(f) = v.fade {
        playback::law_steps_of_blocks_add_up(
            f.position,
            deck::increment(f.source, f.rate, engine_sr),
            m,
            k,
        );
        if m + k < f.remaining {
            let g = w.fade->0;
            assert(g.remaining == f.remaining - m);
            assert(deck::old_playhead(g, engine_sr, k) == deck::old_playhead(f, engine_sr, m + k));
            assert(v.envelope.len() - g.remaining + k == v.envelope.len() - f.remaining + (m + k));
        }
    }
}

/// A deck that is freed of what is ready for disposal sounds as before.
pub proof fn law_sweeping_is_not_heard(v: deck::DeckView, engine_sr: Single, k: nat)
    ensures
        deck::contribution(deck::swept(v), engine_sr, k) == deck::contribution(v, engine_sr, k),
        deck::swept(v).source == v.source,
        deck::swept(v).position == v.position,
        deck::swept(v).playing == v.playing,
{
    assert(deck::playhead(deck::swept(v), engine_sr, k) == deck::playhead(v, engine_sr, k));
}

/// A block plays the ramp on by its frames, until it is over.
pub proof fn law_blocks_play_the_ramp_on(v: deck::DeckView, engine_sr: Single, frames: nat)
    ensures
        match (v.fade, deck::rendered(v, engine_sr, frames).fade) {
            (Some(f), Some(g)) => {
                &&& frames <= f.remaining ==> g.remaining == f.remaining - frames
                &&& frames > f.remaining ==> g.remaining == 0
                &&& g.source == f.source
                &&& g.playing == f.playing
                &&& g.rate == f.rate
            },
            (None, None) => true,
            _ => false,
        },
{
}

/// Commands come one after the other: a sequence of them does what its first part does, and after it
/// what the rest does.
pub proof fn law_commands_come_in_order(
    v: mixer::EngineView,
    a: Seq<Command>,
    b: Seq<Command>,
    w: mixer::EngineView,
)
    requires
        mixer::ran(v, a + b, w),
    ensures
        exists|x: mixer::EngineView| #[trigger] mixer::ran(v, a, x) && mixer::ran(x, b, w),
{
    let c = a + b;
    let states = choose|states: Seq<mixer::EngineView>| #[trigger]
        mixer::is_run(states, c) && states.first() == v && states.last() == w;
    let n = a.len() as int;
    let x = states[n];
    let front = states.take(n + 1);
    let back = states.skip(n);
    assert forall|i: int| 0 <= i < a.len() implies mixer::applied(
        front[i],
        #[trigger] a[i],
        front[i + 1],
    ) by {
        assert(c[i] == a[i]);
    }
    assert forall|i: int| 0 <= i < b.len() implies mixer::applied(
        back[i],
        #[trigger] b[i],
        back[i + 1],
    ) by {
        assert(c[n + i] == b[i]);
        assert(states[n + i + 1] == back[i + 1]);
    }
    assert(mixer::is_run(front, a) && front.first() == v && front.last() == x);
    assert(mixer::is_run(back, b) && back.first() == x && back.last() == w);
    assert(mixer::ran(v, a, x));
}

/// A single command does what it does, and none does nothing.
pub proof fn law_one_command_is_applied(
    v: mixer::EngineView,
    c: Command,
    w: mixer::EngineView,
)
    ensures
        mixer::ran(v, seq![c], w) ==> mixer::applied(v, c, w),
        mixer::ran(v, Seq::empty(), w) ==> w == v,
{
    if mixer::ran(v, seq![c], w) {
        let states = choose|states: Seq<mixer::EngineView>| #[trigger]
            mixer::is_run(states, seq![c]) && states.first() == v && states.last() == w;
        assert(seq![c][0] == c);
        assert(mixer::applied(states[0], seq![c][0], states[1]));
    }
}

/// The last command has the last word: the gain of the mix that is set last is the one that holds.
pub proof fn law_the_last_command_holds(
    v: mixer::EngineView,
    commands: Seq<Command>,
    w: mixer::EngineView,
)
    requires
        mixer::ran(v, commands, w),
        commands.len() > 0,
    ensures
        match commands.last() {
            Command::SetMasterGain { gain } => w.master_gain == gain,
            _ => true,
        },
{
    let c = commands.last();
    let a = commands.drop_last();
    assert(commands =~= a + seq![c]);
    law_commands_come_in_order(v, a, seq![c], w);
    let x = choose|x: mixer::EngineView| #[trigger]
        mixer::ran(v, a, x) && mixer::ran(x, seq![c], w);
    law_one_command_is_applied(x, c, w);
}

/// A block takes the commands that wait, in the order in which they were sent and no more than the
/// channel holds, and they act before anything is heard of the block: it is mixed at the gain that they
/// leave.
pub proof fn law_commands_act_on_their_block<A: Fn(Double, Double) -> Double>(
    atan2: A,
    v: mixer::EngineView,
    before: Option<ring::Intake<Command>>,
    a: mixer::EngineView,
    b: mixer::EngineView,
    c: mixer::EngineView,
    w: mixer::EngineView,
    after: Option<ring::Intake<Command>>,
    channels: nat,
    routing: Seq<Option<u32>>,
    bus: Seq<Single>,
)
    requires
        mixer::block_rendered(
            atan2,
            v,
            before,
            a,
            b,
            c,
            w,
            after,
            channels,
            routing,
            bus,
        ),
    ensures
        match before {
            None => a == v && after is None,
            Some(x) => exists|commands: Seq<Command>|
                {
                    &&& #[trigger] mixer::ran(v, commands, a)
                    &&& commands.len() <= 256
                    &&& after matches Some(y) && y.taken == x.taken + commands && y.channel
                        == x.channel && y.asked == x.asked + commands.len() + (if commands.len()
                        < 256 {
                        1int
                    } else {
                        0int
                    })
                },
        },
        a.inputs[0] is None ==> b == a,
        b.inputs[1] is None ==> c == b,
        c.master_gain == a.master_gain,
        single::finite(a.master_gain) && exact::abs(single_value(a.master_gain)) <= pow2(270)
            && exact::abs(single_value(a.master_gain) - pow2(149)) >= pow2(127) ==> exists|
            full: Seq<Single>,
        |
            full.len() == bus.len() && forall|i: int|
                0 <= i < bus.len() ==> bus[i] == single::product(
                    #[trigger] full[i],
                    a.master_gain,
                ),
        w.master_gain == a.master_gain,
{
    if let Some(x) = before {
        let commands = choose|commands: Seq<Command>|
            commands.len() <= mixer::COMMAND_CHANNEL_CAPACITY && after == Some(
                ring::taken_in(x, commands, mixer::asked_for(commands.len())),
            ) && #[trigger] mixer::ran(v, commands, a);
        assert(mixer::ran(v, commands, a));
    }
    assert(b.master_gain == a.master_gain);
    assert(c.master_gain == b.master_gain);
    let (m, n, half, full) = choose|
        m: mixer::EngineView,
        n: mixer::EngineView,
        half: Seq<Single>,
        full: Seq<Single>,
    | #[trigger]
        mixer::block_mixed(c, m, n, w, channels, routing, half, full, bus);
    lemma_gain_stays(c, m, 0, channels, routing[0], mixer::silent_bus(bus.len()), half);
    lemma_gain_stays(m, n, 1, channels, routing[1], half, full);
    if single::finite(a.master_gain) && exact::abs(single_value(a.master_gain)) <= pow2(270)
        && exact::abs(single_value(a.master_gain) - pow2(149)) >= pow2(127) {
        assert forall|i: int| 0 <= i < bus.len() implies bus[i] == single::product(
            #[trigger] full[i],
            a.master_gain,
        ) by {
            pacing::law_master_gain_scales_the_mix(
                c,
                m,
                n,
                w,
                channels,
                routing,
                half,
                full,
                bus,
                i,
            );
        }
        assert(full.len() == bus.len());
    }
}

/// Before a block is mixed, each deck that has an input listens to it, the first deck first: what it
/// received there is what its input took, and its decoder heard it.
pub proof fn law_blocks_listen_before_they_play<A: Fn(Double, Double) -> Double>(
    atan2: A,
    v: mixer::EngineView,
    before: Option<ring::Intake<Command>>,
    a: mixer::EngineView,
    b: mixer::EngineView,
    c: mixer::EngineView,
    w: mixer::EngineView,
    after: Option<ring::Intake<Command>>,
    channels: nat,
    routing: Seq<Option<u32>>,
    bus: Seq<Single>,
)
    requires
        mixer::block_rendered(
            atan2,
            v,
            before,
            a,
            b,
            c,
            w,
            after,
            channels,
            routing,
            bus,
        ),
        a.inputs.len() == 2,
    ensures
        a.inputs[0] matches Some(x) ==> {
            &&& b.inputs[0] is Some
            &&& x.intake.taken.is_prefix_of(b.inputs[0]->0.intake.taken)
            &&& b.inputs[0]->0.intake.asked == x.intake.asked + x.room
            &&& exists|intent: Option<LiftIntent>| #[trigger]
                mixer::listened(
                    atan2,
                    a,
                    b,
                    0,
                    b.inputs[0]->0.intake.taken.skip(x.intake.taken.len() as int),
                    intent,
                )
        },
        b.inputs[1] matches Some(x) ==> {
            &&& c.inputs[1] is Some
            &&& x.intake.taken.is_prefix_of(c.inputs[1]->0.intake.taken)
            &&& c.inputs[1]->0.intake.asked == x.intake.asked + x.room
            &&& exists|intent: Option<LiftIntent>| #[trigger]
                mixer::listened(
                    atan2,
                    b,
                    c,
                    1,
                    c.inputs[1]->0.intake.taken.skip(x.intake.taken.len() as int),
                    intent,
                )
        },
        exists|
            m: mixer::EngineView,
            n: mixer::EngineView,
            half: Seq<Single>,
            full: Seq<Single>,
        | #[trigger]
            mixer::block_mixed(c, m, n, w, channels, routing, half, full, bus),
{
    if let Some(x) = a.inputs[0] {
        let (received, intent) = choose|received: Seq<Single>, intent: Option<LiftIntent>| #[trigger]
            mixer::listened(atan2, a, b, 0, received, intent);
        assert(mixer::listened(atan2, a, b, 0, received, intent));
        assert(b.inputs[0]->0.intake.taken.skip(x.intake.taken.len() as int) =~= received);
    }
    if let Some(x) = b.inputs[1] {
        let (received, intent) = choose|received: Seq<Single>, intent: Option<LiftIntent>| #[trigger]
            mixer::listened(atan2, b, c, 1, received, intent);
        assert(mixer::listened(atan2, b, c, 1, received, intent));
        assert(c.inputs[1]->0.intake.taken.skip(x.intake.taken.len() as int) =~= received);
    }
}

/// Adding a deck leaves the gain of the mix.
proof fn lemma_gain_stays(
    v: mixer::EngineView,
    w: mixer::EngineView,
    idx: int,
    channels: nat,
    route: Option<u32>,
    before: Seq<Single>,
    after: Seq<Single>,
)
    requires
        mixer::deck_added(v, w, idx, channels, route, before, after),
    ensures
        w.master_gain == v.master_gain,
{
}

/// A new deck is empty and paused at its start, at nominal rate and full gain.
pub proof fn law_new_decks_are_idle(envelope: Seq<Single>, board: Arc<DeckSharedState>)
    ensures
        ({
            let d = deck::fresh(envelope, board);
            &&& d.source is None
            &&& !d.playing
            &&& !d.at_end
            &&& !d.panic_play
            &&& d.fade is None
            &&& d.pending is None
            &&& d.position == (Double { bits: double::ZERO })
            &&& d.rate == (Double { bits: double::ONE })
            &&& d.gain == (Single { bits: single::ONE })
            &&& d.envelope == envelope
            &&& d.board == board
        }),
{
}

/// A track that is loaded starts at its beginning, with a ramp from what the deck played.
pub proof fn law_loaded_tracks_start_at_the_beginning(d: deck::DeckView, t: Arc<Track>)
    ensures
        ({
            let e = deck::with_source(d, t);
            &&& e.source == Some(t)
            &&& e.position == (Double { bits: double::ZERO })
            &&& !e.at_end
            &&& (e.rate, e.gain, e.playing) == (d.rate, d.gain, d.playing)
            &&& obedience::fades_from(e, d)
        }),
{
}

/// What a deck shows is what it is.
pub proof fn law_decks_show_what_they_are(d: deck::DeckView)
    ensures
        deck::shown_of(d).position == d.position,
        deck::shown_of(d).playing == d.playing,
        deck::shown_of(d).at_end == d.at_end,
        deck::shown_of(d).panic_play == d.panic_play,
{
}

} // verus!
