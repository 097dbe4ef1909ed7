//! What holds of the decks and of the engine as a whole.

use std::sync::Arc;
use vstd::prelude::*;

use crate::engine::command;
use crate::engine::command::Command;
use crate::engine::deck;
use crate::engine::mixer;
use crate::engine::thru;
use crate::ieee::binary;
use crate::ieee::double;
use crate::ieee::double::Double;
use crate::ieee::identities;
use crate::ieee::single;
use crate::ieee::single::Single;
use crate::timecode::lift::LiftIntent;
use crate::track;
use crate::track::Track;

verus! {

/// Frames that a deck can address one by one.
pub const EXACT_FRAMES: u64 = 0x20_0000_0000_0000;

/// A sample that interpolation with a finite step leaves alone.
pub open spec fn plain(a: Single, b: Single) -> bool {
    &&& single::finite(a)
    &&& a.bits != 0x8000_0000
    &&& single::finite(single::difference(b, a))
}

/// Frame `n` of a track and the one after it are plain: their samples are finite,
/// so is the step between them, and none is a negative zero.
pub open spec fn plain_frame(t: track::TrackView, n: int) -> bool {
    let a = track::frame_of(t, n);
    let b = if n + 1 < t.frames {
        track::frame_of(t, n + 1)
    } else {
        a
    };
    plain(a.0, b.0) && plain(a.1, b.1)
}

/// At a whole position the track sounds as it was recorded: reading it gives the
/// frame itself, bit for bit.
pub proof fn law_whole_positions_read_frames(t: track::TrackView, n: nat)
    requires
        n < t.frames < EXACT_FRAMES,
        t.frames <= usize::MAX,
        plain_frame(t, n as int),
    ensures
        deck::read_at(t, double::from_int(n)) == track::frame_of(t, n as int),
{
    let pos = double::from_int(n);
    identities::law_narrowed_zero();
    identities::law_whole_numbers_are_exact(n);
    identities::law_whole_numbers_keep_their_order(n, 0);
    identities::law_whole_numbers_keep_their_order(t.frames, n);
    identities::law_whole_numbers_keep_their_order(n, (t.frames - 1) as nat);
    identities::law_whole_part_of_whole(n, usize::MAX as nat);
    identities::law_whole_part_of_whole(n, u64::MAX as nat);
    identities::law_double_difference_with_itself(pos);
    let a = track::frame_of(t, n as int);
    let b = if n + 1 < t.frames {
        track::frame_of(t, (n + 1) as int)
    } else {
        a
    };
    identities::law_adding_a_multiple_of_zero(a.0, single::difference(b.0, a.0));
    identities::law_adding_a_multiple_of_zero(a.1, single::difference(b.1, a.1));
}

/// The playhead of a deck that moves one frame per frame, forward.
proof fn lemma_forward(n: nat, k: nat)
    requires
        n + k < EXACT_FRAMES,
    ensures
        deck::advanced(double::from_int(n), Double { bits: double::ONE }, k) == double::from_int(
            n + k,
        ),
    decreases k,
{
    if k > 0 {
        lemma_forward(n, (k - 1) as nat);
        identities::law_step_forward_is_exact((n + k - 1) as nat);
    }
}

/// The playhead of a deck that moves one frame per frame, backward.
proof fn lemma_backward(n: nat, k: nat)
    requires
        k <= n < EXACT_FRAMES,
    ensures
        deck::advanced(double::from_int(n), Double { bits: identities::MINUS_ONE }, k)
            == double::from_int((n - k) as nat),
    decreases k,
{
    if k > 0 {
        lemma_backward(n, (k - 1) as nat);
        identities::law_step_back_is_exact((n - k + 1) as nat);
    }
}

/// The deck plays the track `t` at the rate `rate` and at full gain, at the sample
/// rate of the track, from frame `n` on.
pub open spec fn plays_at(
    v: deck::DeckView,
    t: Arc<Track>,
    engine_sr: Single,
    rate: u64,
    n: nat,
) -> bool {
    &&& v.source == Some(t)
    &&& v.playing
    &&& v.fade is None
    &&& v.rate == (Double { bits: rate })
    &&& v.gain == (Single { bits: single::ONE })
    &&& v.position == double::from_int(n)
    &&& t@.sample_rate > 0
    &&& single::widened(engine_sr) == double::from_int(t@.sample_rate as nat)
    &&& t@.frames <= usize::MAX
    &&& t@.frames < EXACT_FRAMES
}

/// The track is not yet fading out at frame `n`.
pub open spec fn before_tail(v: deck::DeckView, t: Arc<Track>, n: nat) -> bool {
    deck::tail_scale(double::from_int(t@.frames), double::from_int(n), v.envelope) == (Single {
        bits: single::ONE,
    })
}

proof fn lemma_sounds_like(v: deck::DeckView, t: Arc<Track>, engine_sr: Single, k: nat, n: nat)
    requires
        v.source == Some(t),
        v.playing,
        v.fade is None,
        v.gain == (Single { bits: single::ONE }),
        n < t@.frames < EXACT_FRAMES,
        t@.frames <= usize::MAX,
        deck::playhead(v, engine_sr, k) == double::from_int(n),
        before_tail(v, t, n),
        plain_frame(t@, n as int),
    ensures
        deck::contribution(v, engine_sr, k) == Some(track::frame_of(t@, n as int)),
{
    law_whole_positions_read_frames(t@, n);
    let a = track::frame_of(t@, n as int);
    identities::law_product_with_one(a.0);
    identities::law_product_with_one(a.1);
}

/// Forward playback at unity rate gives the frames of the track as they are, one
/// after the other.
pub proof fn law_forward_playback_is_exact(
    v: deck::DeckView,
    t: Arc<Track>,
    engine_sr: Single,
    n: nat,
    k: nat,
)
    requires
        plays_at(v, t, engine_sr, double::ONE, n),
        n + k < t@.frames,
        before_tail(v, t, n + k),
        plain_frame(t@, (n + k) as int),
    ensures
        deck::playhead(v, engine_sr, k) == double::from_int(n + k),
        deck::contribution(v, engine_sr, k) == Some(track::frame_of(t@, (n + k) as int)),
{
    let sr = double::from_int(t@.sample_rate as nat);
    identities::law_whole_numbers_are_exact(t@.sample_rate as nat);
    identities::law_quotient_with_itself(sr);
    identities::law_double_product_with_one(Double { bits: double::ONE });
    lemma_forward(n, k);
    lemma_sounds_like(v, t, engine_sr, k, n + k);
}

/// Backward playback at unity rate gives the same frames in the opposite order.
pub proof fn law_backward_playback_is_exact(
    v: deck::DeckView,
    t: Arc<Track>,
    engine_sr: Single,
    n: nat,
    k: nat,
)
    requires
        plays_at(v, t, engine_sr, identities::MINUS_ONE, n),
        k <= n < t@.frames,
        before_tail(v, t, (n - k) as nat),
        plain_frame(t@, n - k),
    ensures
        deck::playhead(v, engine_sr, k) == double::from_int((n - k) as nat),
        deck::contribution(v, engine_sr, k) == Some(track::frame_of(t@, n - k)),
{
    let sr = double::from_int(t@.sample_rate as nat);
    identities::law_whole_numbers_are_exact(t@.sample_rate as nat);
    identities::law_quotient_with_itself(sr);
    identities::law_double_product_with_one(Double { bits: identities::MINUS_ONE });
    lemma_backward(n, k);
    lemma_sounds_like(v, t, engine_sr, k, (n - k) as nat);
}

/// A paused deck, once its ramp is over, adds nothing and stays where it is.
pub proof fn law_paused_deck_stands_still(
    v: deck::DeckView,
    engine_sr: Single,
    stride: nat,
    offset: nat,
    out: Seq<Single>,
    frames: nat,
)
    requires
        !v.playing,
        v.fade is None,
    ensures
        deck::mixed(v, engine_sr, stride, offset, out) == out,
        deck::rendered(v, engine_sr, frames) == v,
{
    assert(deck::mixed(v, engine_sr, stride, offset, out) =~= out);
}

/// A deck without a track, once its ramp is over, adds nothing.
pub proof fn law_empty_deck_adds_nothing(
    v: deck::DeckView,
    engine_sr: Single,
    stride: nat,
    offset: nat,
    out: Seq<Single>,
)
    requires
        v.source is None,
        v.fade is None,
    ensures
        deck::mixed(v, engine_sr, stride, offset, out) == out,
{
    assert(deck::mixed(v, engine_sr, stride, offset, out) =~= out);
}

/// Outside of its track a deck reads silence.
pub proof fn law_outside_the_track_is_silence(t: track::TrackView, pos: Double)
    requires
        double::less(pos, Double { bits: double::ZERO }) || double::at_most(
            double::from_int(t.frames),
            pos,
        ),
    ensures
        deck::read_at(t, pos) == deck::silence(),
{
}

/// A deck changes no channel but its own two, and there it adds to what was there.
pub proof fn law_deck_keeps_to_its_channels(
    v: deck::DeckView,
    engine_sr: Single,
    stride: nat,
    offset: nat,
    out: Seq<Single>,
    i: int,
)
    requires
        0 <= i < out.len(),
    ensures
        ({
            let cell = deck::mixed(v, engine_sr, stride, offset, out)[i];
            let c = i % (stride as int);
            match deck::contribution(v, engine_sr, (i / (stride as int)) as nat) {
                None => cell == out[i],
                Some((l, r)) => {
                    &&& c == offset ==> cell == single::sum(out[i], l)
                    &&& c == offset + 1 ==> cell == single::sum(out[i], r)
                    &&& c != offset && c != offset + 1 ==> cell == out[i]
                },
            }
        }),
{
}

/// A thru source changes no channel but its own two either.
pub proof fn law_thru_keeps_to_its_channels(
    block: Seq<Single>,
    gain: Single,
    stride: nat,
    offset: nat,
    out: Seq<Single>,
    i: int,
)
    requires
        0 <= i < out.len(),
        i % (stride as int) != offset,
        i % (stride as int) != offset + 1,
    ensures
        thru::with_block(block, gain, stride, offset, out)[i] == out[i],
{
}

/// At unity gain a record is heard as it is: into a silent buffer goes the input
/// itself, bit for bit. A negative zero becomes a positive one, and what is not a
/// number need not keep its bits.
pub proof fn law_thru_at_unity_is_exact(
    block: Seq<Single>,
    stride: nat,
    offset: nat,
    out: Seq<Single>,
    i: int,
)
    requires
        0 <= i < out.len(),
        offset + 2 <= stride,
        out[i] == (Single { bits: single::ZERO }),
        ({
            let a = thru::sample_of(block, 2 * (i / (stride as int)) + i % (stride as int) - offset);
            a@.mag <= binary::SINGLE_INF && a.bits != 0x8000_0000
        }),
        offset <= i % (stride as int) < offset + 2,
    ensures
        thru::with_block(block, Single { bits: single::ONE }, stride, offset, out)[i]
            == thru::sample_of(block, 2 * (i / (stride as int)) + i % (stride as int) - offset),
{
    let a = thru::sample_of(block, 2 * (i / (stride as int)) + i % (stride as int) - offset);
    identities::law_product_with_one(a);
    identities::law_sum_with_zero(a);
}

/// A deck that plays a record through stands still, whatever it is told to play.
pub proof fn law_thru_deck_stands_still(
    v: mixer::EngineView,
    w: mixer::EngineView,
    idx: int,
    channels: nat,
    route: Option<u32>,
    before: Seq<Single>,
    after: Seq<Single>,
)
    requires
        mixer::deck_added(v, w, idx, channels, route, before, after),
        v.thrus[idx] is Some,
    ensures
        w.decks == v.decks,
{
}

/// A deck that is routed nowhere stands still and is not heard.
pub proof fn law_unrouted_deck_stands_still(
    v: mixer::EngineView,
    w: mixer::EngineView,
    idx: int,
    channels: nat,
    before: Seq<Single>,
    after: Seq<Single>,
)
    requires
        mixer::deck_added(v, w, idx, channels, None, before, after),
    ensures
        w == v,
        after == before,
{
}

/// A channel to which a deck is not routed.
pub open spec fn not_routed(route: Option<u32>, c: int) -> bool {
    match route {
        None => true,
        Some(first) => c != first && c != first + 1,
    }
}

proof fn lemma_deck_added_elsewhere(
    v: mixer::EngineView,
    w: mixer::EngineView,
    idx: int,
    channels: nat,
    route: Option<u32>,
    before: Seq<Single>,
    after: Seq<Single>,
    i: int,
)
    requires
        mixer::deck_added(v, w, idx, channels, route, before, after),
        0 <= i < before.len(),
        not_routed(route, i % (channels as int)),
    ensures
        after.len() == before.len(),
        after[i] == before[i],
{
    match route {
        None => {},
        Some(first) => match v.thrus[idx] {
            Some(_) => {
                let received = choose|received: Seq<Single>| #[trigger]
                    mixer::passed_through(v, w, idx, channels, first, before, after, received);
                assert(mixer::passed_through(
                    v,
                    w,
                    idx,
                    channels,
                    first,
                    before,
                    after,
                    received,
                ));
            },
            None => {},
        },
    }
}

proof fn lemma_deck_added_len(
    v: mixer::EngineView,
    w: mixer::EngineView,
    idx: int,
    channels: nat,
    route: Option<u32>,
    before: Seq<Single>,
    after: Seq<Single>,
)
    requires
        mixer::deck_added(v, w, idx, channels, route, before, after),
    ensures
        after.len() == before.len(),
{
    match route {
        None => {},
        Some(first) => match v.thrus[idx] {
            Some(_) => {
                let received = choose|received: Seq<Single>| #[trigger]
                    mixer::passed_through(v, w, idx, channels, first, before, after, received);
                assert(mixer::passed_through(
                    v,
                    w,
                    idx,
                    channels,
                    first,
                    before,
                    after,
                    received,
                ));
            },
            None => {},
        },
    }
}

/// A channel to which no deck is routed carries nothing but silence, at the gain of
/// the mix.
pub proof fn law_unrouted_channels_are_silent(
    v: mixer::EngineView,
    m: mixer::EngineView,
    n: mixer::EngineView,
    w: mixer::EngineView,
    channels: nat,
    routing: Seq<Option<u32>>,
    half: Seq<Single>,
    full: Seq<Single>,
    bus: Seq<Single>,
    i: int,
)
    requires
        mixer::block_mixed(v, m, n, w, channels, routing, half, full, bus),
        0 <= i < bus.len(),
        not_routed(routing[0], i % (channels as int)),
        not_routed(routing[1], i % (channels as int)),
    ensures
        bus[i] == if mixer::gain_matters(v.master_gain) {
            single::product(Single { bits: single::ZERO }, v.master_gain)
        } else {
            Single { bits: single::ZERO }
        },
{
    let quiet = mixer::silent_bus(bus.len());
    lemma_deck_added_elsewhere(v, m, 0, channels, routing[0], quiet, half, i);
    lemma_deck_added_elsewhere(m, n, 1, channels, routing[1], half, full, i);
}

/// On channels of their own the decks do not hear each other: what one of them puts
/// on its two channels does not depend on the other.
pub proof fn law_decks_on_their_own_channels_are_apart(
    v: mixer::EngineView,
    m: mixer::EngineView,
    n: mixer::EngineView,
    w: mixer::EngineView,
    channels: nat,
    routing: Seq<Option<u32>>,
    half: Seq<Single>,
    full: Seq<Single>,
    bus: Seq<Single>,
    i: int,
)
    requires
        mixer::block_mixed(v, m, n, w, channels, routing, half, full, bus),
        0 <= i < bus.len(),
        not_routed(routing[1], i % (channels as int)),
    ensures
        bus[i] == mixer::at_gain(half, v.master_gain)[i],
        mixer::deck_added(
            v,
            m,
            0,
            channels,
            routing[0],
            mixer::silent_bus(bus.len()),
            half,
        ),
{
    let quiet = mixer::silent_bus(bus.len());
    lemma_deck_added_len(v, m, 0, channels, routing[0], quiet, half);
    lemma_deck_added_elsewhere(m, n, 1, channels, routing[1], half, full, i);
}

proof fn lemma_with_first(v: mixer::EngineView, d: deck::DeckView)
    requires
        v.decks.len() == mixer::DECK_COUNT,
    ensures
        mixer::with_deck(v, 0, d).decks[1] == v.decks[1],
{
}

/// Adding the first deck changes nothing of the second.
pub proof fn lemma_first_leaves_second(
    v: mixer::EngineView,
    w: mixer::EngineView,
    channels: nat,
    route: Option<u32>,
    before: Seq<Single>,
    after: Seq<Single>,
)
    requires
        mixer::deck_added(v, w, 0, channels, route, before, after),
        v.decks.len() == mixer::DECK_COUNT,
        v.thrus.len() == mixer::DECK_COUNT,
    ensures
        w.decks[1] == v.decks[1],
        w.thrus[1] == v.thrus[1],
        w.sample_rate == v.sample_rate,
{
    match route {
        None => {},
        Some(first) => match v.thrus[0] {
            Some(_) => {
                let received = choose|received: Seq<Single>| #[trigger]
                    mixer::passed_through(v, w, 0, channels, first, before, after, received);
                assert(mixer::passed_through(
                    v,
                    w,
                    0,
                    channels,
                    first,
                    before,
                    after,
                    received,
                ));
            },
            None => {
                lemma_with_first(
                    v,
                    deck::rendered(v.decks[0], v.sample_rate, before.len() / channels),
                );
            },
        },
    }
}

/// The same of the second deck: where the first one is not routed, the second is
/// added to silence, and nothing of it has changed on the way.
pub proof fn law_second_deck_is_apart_too(
    v: mixer::EngineView,
    m: mixer::EngineView,
    n: mixer::EngineView,
    w: mixer::EngineView,
    channels: nat,
    routing: Seq<Option<u32>>,
    half: Seq<Single>,
    full: Seq<Single>,
    bus: Seq<Single>,
    i: int,
)
    requires
        mixer::block_mixed(v, m, n, w, channels, routing, half, full, bus),
        v.decks.len() == mixer::DECK_COUNT,
        v.thrus.len() == mixer::DECK_COUNT,
        0 <= i < bus.len(),
        not_routed(routing[0], i % (channels as int)),
    ensures
        half[i] == (Single { bits: single::ZERO }),
        m.decks[1] == v.decks[1],
        m.thrus[1] == v.thrus[1],
        mixer::deck_added(m, n, 1, channels, routing[1], half, full),
        bus[i] == mixer::at_gain(full, v.master_gain)[i],
{
    let quiet = mixer::silent_bus(bus.len());
    lemma_deck_added_elsewhere(v, m, 0, channels, routing[0], quiet, half, i);
    lemma_first_leaves_second(v, m, channels, routing[0], quiet, half);
}

/// A deck that plays nothing and fades from nothing.
pub open spec fn idle(d: deck::DeckView) -> bool {
    &&& d.source is None || !d.playing
    &&& d.fade matches Some(f) ==> f.remaining == 0
}

/// An engine whose decks are idle, without thru sources, is silent.
pub proof fn law_idle_engine_is_silent(
    v: mixer::EngineView,
    m: mixer::EngineView,
    n: mixer::EngineView,
    w: mixer::EngineView,
    channels: nat,
    routing: Seq<Option<u32>>,
    half: Seq<Single>,
    full: Seq<Single>,
    bus: Seq<Single>,
)
    requires
        mixer::block_mixed(v, m, n, w, channels, routing, half, full, bus),
        v.decks.len() == mixer::DECK_COUNT,
        v.thrus == seq![None::<thru::ThruView>, None],
        idle(v.decks[0]),
        idle(v.decks[1]),
    ensures
        bus == mixer::at_gain(mixer::silent_bus(bus.len()), v.master_gain),
{
    let quiet = mixer::silent_bus(bus.len());
    assert(half =~= quiet);
    lemma_first_leaves_second(v, m, channels, routing[0], quiet, half);
    assert(full =~= quiet);
}

/// At unity gain the mix passes as it is.
pub proof fn law_unity_gain_changes_nothing(bus: Seq<Single>)
    ensures
        mixer::at_gain(bus, Single { bits: single::ONE }) == bus,
{
    identities::law_difference_with_itself(Single { bits: single::ONE });
}

/// A lock ends the time in which a deck holds its rate on its own; a dropout does
/// not, and changes nothing of the deck then.
pub proof fn law_lock_ends_panic_play(d: deck::DeckView, rate: Double)
    ensures
        !mixer::obeyed(d, true, Some(LiftIntent::Locked { rate })).1,
        mixer::obeyed(d, true, Some(LiftIntent::Locked { rate })).0.rate == rate,
        mixer::obeyed(d, true, Some(LiftIntent::Locked { rate })).0.playing,
        mixer::obeyed(d, true, Some(LiftIntent::DropoutHoldRate { rate })) == (d, true),
{
}

/// A command changes no deck but its own, and no deck at all where its own does not
/// exist.
pub proof fn law_command_changes_its_deck_only(
    v: mixer::EngineView,
    c: Command,
    w: mixer::EngineView,
    i: int,
)
    requires
        mixer::applied(v, c, w),
        0 <= i < mixer::DECK_COUNT,
        v.decks.len() == mixer::DECK_COUNT,
        v.inputs.len() == mixer::DECK_COUNT,
        v.thrus.len() == mixer::DECK_COUNT,
        v.panic.len() == mixer::DECK_COUNT,
        command::deck_of(c) != Some(i as u8),
    ensures
        w.decks[i] == v.decks[i],
        w.inputs[i] == v.inputs[i],
        w.thrus[i] == v.thrus[i],
        w.panic[i] == v.panic[i],
        w.decks.len() == v.decks.len(),
{
}

} // verus!
