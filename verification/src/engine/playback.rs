//! Where the playhead of a deck goes, and what is heard there.

use std::sync::Arc;
use vstd::arithmetic::div_mod::*;
use vstd::prelude::*;

use crate::engine::deck;
use crate::engine::declick;
use crate::ieee::binary;
use crate::ieee::double;
use crate::ieee::double::Double;
use crate::ieee::identities;
use crate::ieee::order;
use crate::ieee::single;
use crate::ieee::single::Single;
use crate::ieee::whole;
use crate::ieee::whole::whole;
use crate::track::Track;

verus! {

/// A deck that plays a track moves its playhead by one rounded step per frame; a deck that is
/// paused leaves it. A block changes neither the track, nor the rate, the gain, or whether the
/// deck plays.
pub proof fn law_playhead_moves_by_steps(v: deck::DeckView, engine_sr: Single, frames: nat)
    ensures
        ({
            let w = deck::rendered(v, engine_sr, frames);
            let step = deck::increment(v.source, v.rate, engine_sr);
            &&& v.playing && v.source is Some ==> w.position == deck::advanced(
                v.position,
                step,
                frames,
            )
            &&& !v.playing ==> w.position == v.position
            &&& w.source == v.source
            &&& w.rate == v.rate
            &&& w.gain == v.gain
            &&& w.playing == v.playing
        }),
{
}

/// A deck without a track keeps its playhead, too, where that is a number other than a negative
/// zero.
pub proof fn law_empty_deck_keeps_its_playhead(v: deck::DeckView, engine_sr: Single, frames: nat)
    requires
        v.source is None,
        v.position@.mag <= binary::DOUBLE_INF,
        v.position.bits != 0x8000_0000_0000_0000,
    ensures
        deck::rendered(v, engine_sr, frames).position == v.position,
{
    lemma_steps_of_nothing(v.position, deck::faded_frames(v, frames));
}

proof fn lemma_steps_of_nothing(position: Double, n: nat)
    requires
        position@.mag <= binary::DOUBLE_INF,
        position.bits != 0x8000_0000_0000_0000,
    ensures
        deck::advanced(position, Double { bits: double::ZERO }, n) == position,
    decreases n,
{
    if n > 0 {
        lemma_steps_of_nothing(position, (n - 1) as nat);
        identities::law_double_sum_with_zero(position);
    }
}

/// Two blocks move the playhead of a deck as one block of both lengths does.
pub proof fn law_steps_of_blocks_add_up(position: Double, step: Double, m: nat, n: nat)
    ensures
        deck::advanced(deck::advanced(position, step, m), step, n) == deck::advanced(
            position,
            step,
            m + n,
        ),
    decreases n,
{
    if n > 0 {
        law_steps_of_blocks_add_up(position, step, m, (n - 1) as nat);
        assert((m + n - 1) as nat == m + (n - 1) as nat);
    }
}

/// After a block, a deck that plays a track shows where its playhead is, and shows that it is at
/// the end exactly where the playhead lies outside of the track.
pub proof fn law_end_is_shown(v: deck::DeckView, t: Arc<Track>, engine_sr: Single, frames: nat)
    requires
        v.playing,
        v.source == Some(t),
    ensures
        ({
            let w = deck::rendered(v, engine_sr, frames);
            let shown = deck::shown_of(w);
            &&& shown.position == w.position
            &&& shown.playing
            &&& shown.at_end <==> double::less(w.position, Double { bits: double::ZERO })
                || double::at_most(double::from_int(t@.frames), w.position)
        }),
{
}

/// Steps of a whole number of frames from a whole position are exact.
pub proof fn law_whole_steps_are_exact(p: int, r: int, n: nat)
    requires
        -whole::EXACT < p < whole::EXACT,
        -whole::EXACT < r < whole::EXACT,
        -whole::EXACT < p + n * r < whole::EXACT,
    ensures
        deck::advanced(whole(p), whole(r), n) == whole(p + n * r),
    decreases n,
{
    if n == 0 {
        assert(0 * r == 0);
    } else {
        let k = (n - 1) as nat;
        lemma_between(p, r, k, n);
        law_whole_steps_are_exact(p, r, k);
        assert(n * r == k * r + r) by (nonlinear_arith)
            requires
                n == k + 1,
        ;
        whole::law_whole_numbers_add_up(p + k * r, r);
    }
}

/// What lies on the way lies between the ends.
proof fn lemma_between(p: int, r: int, k: nat, n: nat)
    requires
        k <= n,
    ensures
        p <= p + k * r <= p + n * r || p + n * r <= p + k * r <= p,
{
    assert(0 <= k * r <= n * r || n * r <= k * r <= 0) by (nonlinear_arith)
        requires
            0 <= k <= n,
    ;
}

/// The deck plays the track `t`, without a ramp, at its own sample rate: from the whole frame `p`
/// on, `r` frames at a time.
pub open spec fn steps_through(
    v: deck::DeckView,
    t: Arc<Track>,
    engine_sr: Single,
    p: int,
    r: int,
) -> bool {
    &&& v.source == Some(t)
    &&& v.playing
    &&& v.fade is None
    &&& v.position == whole(p)
    &&& v.rate == whole(r)
    &&& t@.sample_rate > 0
    &&& single::widened(engine_sr) == double::from_int(t@.sample_rate as nat)
    &&& -whole::EXACT < p < whole::EXACT
    &&& -whole::EXACT < r < whole::EXACT
}

/// The playhead of such a deck.
proof fn lemma_playhead_of_steps(
    v: deck::DeckView,
    t: Arc<Track>,
    engine_sr: Single,
    p: int,
    r: int,
    k: nat,
)
    requires
        steps_through(v, t, engine_sr, p, r),
        -whole::EXACT < p + k * r < whole::EXACT,
    ensures
        deck::playhead(v, engine_sr, k) == whole(p + k * r),
{
    let sr = double::from_int(t@.sample_rate as nat);
    identities::law_whole_numbers_are_exact(t@.sample_rate as nat);
    identities::law_quotient_with_itself(sr);
    whole::law_whole_is_exact(r);
    identities::law_double_product_with_one(whole(r));
    law_whole_steps_are_exact(p, r, k);
}

/// Playback is symmetric: a deck that starts where another one reads its last frame, and plays at
/// the opposite rate, gives the same frames in the opposite order. This holds at every gain and
/// for every whole rate whose positions are exact.
pub proof fn law_playback_is_symmetric(
    v: deck::DeckView,
    w: deck::DeckView,
    t: Arc<Track>,
    engine_sr: Single,
    p: int,
    r: int,
    n: nat,
    i: nat,
)
    requires
        i < n,
        steps_through(v, t, engine_sr, p, r),
        steps_through(w, t, engine_sr, p + (n - 1) * r, -r),
        w.gain == v.gain,
        w.envelope == v.envelope,
    ensures
        deck::contribution(w, engine_sr, (n - 1 - i) as nat) == deck::contribution(
            v,
            engine_sr,
            i,
        ),
{
    let last = (n - 1) as nat;
    let j = (n - 1 - i) as nat;
    lemma_between(p, r, i, last);
    assert(p + last * r + j * (-r) == p + i * r) by (nonlinear_arith)
        requires
            j == last - i,
    ;
    lemma_playhead_of_steps(v, t, engine_sr, p, r, i);
    lemma_playhead_of_steps(w, t, engine_sr, p + last * r, -r, j);
}

/// The same of what two decks put into silent buffers of `n` frames: channel by channel, one
/// buffer is the other one in the opposite order.
pub proof fn law_rendered_buffers_are_mirrored(
    v: deck::DeckView,
    w: deck::DeckView,
    t: Arc<Track>,
    engine_sr: Single,
    p: int,
    r: int,
    n: nat,
    stride: nat,
    offset: nat,
    i: int,
    c: int,
)
    requires
        0 <= i < n,
        0 <= c < stride,
        steps_through(v, t, engine_sr, p, r),
        steps_through(w, t, engine_sr, p + (n - 1) * r, -r),
        w.gain == v.gain,
        w.envelope == v.envelope,
    ensures
        ({
            let silent = Seq::new(n * stride, |k: int| Single { bits: single::ZERO });
            let forward = deck::mixed(v, engine_sr, stride, offset, silent);
            let backward = deck::mixed(w, engine_sr, stride, offset, silent);
            &&& 0 <= i * stride + c < silent.len()
            &&& 0 <= (n - 1 - i) * stride + c < silent.len()
            &&& backward[(n - 1 - i) * stride + c] == forward[i * stride + c]
        }),
{
    let j = n - 1 - i;
    let s = stride as int;
    law_playback_is_symmetric(v, w, t, engine_sr, p, r, n, i as nat);
    lemma_fundamental_div_mod_converse(i * s + c, s, i, c);
    lemma_fundamental_div_mod_converse(j * s + c, s, j, c);
    assert(0 <= i * s + c < n * s && 0 <= j * s + c < n * s) by (nonlinear_arith)
        requires
            0 <= i < n,
            0 <= j < n,
            0 <= c < s,
    ;
}

/// The scale of the end of a track lies between zero and one. It is one for a track shorter than
/// two ramps, and a ramp or more before the end; at the end and after it, it is zero.
pub proof fn law_tail_scale_is_a_weight(track_len: Double, pos: Double, envelope: Seq<Single>)
    requires
        declick::is_ramp(envelope),
        0 < envelope.len() <= u32::MAX,
    ensures
        ({
            let n = double::from_int(envelope.len());
            let to_end = double::difference(track_len, pos);
            let scale = deck::tail_scale(track_len, pos, envelope);
            let short = double::less(track_len, double::product(Double { bits: deck::TWO }, n));
            &&& single::at_most(Single { bits: single::ZERO }, scale)
            &&& single::at_most(scale, Single { bits: single::ONE })
            &&& short ==> scale == (Single { bits: single::ONE })
            &&& !short && double::at_most(to_end, Double { bits: double::ZERO }) ==> scale == (
            Single { bits: single::ZERO })
            &&& double::at_most(n, to_end) ==> scale == (Single { bits: single::ONE })
        }),
{
    let n = double::from_int(envelope.len());
    let to_end = double::difference(track_len, pos);
    identities::law_whole_numbers_are_exact(envelope.len());
    let i = double::floor(double::difference(n, to_end), u32::MAX as nat);
    let k = if i < envelope.len() - 1 {
        i as int
    } else {
        envelope.len() - 1
    };
    declick::law_weights_add_up(envelope, k, k);
}

/// The scale of the end of a track never rises as the playhead moves on.
pub proof fn law_tail_never_swells(
    track_len: Double,
    pos: Double,
    later: Double,
    envelope: Seq<Single>,
)
    requires
        declick::is_ramp(envelope),
        0 < envelope.len() <= u32::MAX,
        double::finite(track_len),
        double::at_most(pos, later),
    ensures
        single::at_most(
            deck::tail_scale(track_len, later, envelope),
            deck::tail_scale(track_len, pos, envelope),
        ),
{
    let n = double::from_int(envelope.len());
    let x = double::difference(track_len, pos);
    let y = double::difference(track_len, later);
    law_tail_scale_is_a_weight(track_len, pos, envelope);
    law_tail_scale_is_a_weight(track_len, later, envelope);
    identities::law_whole_numbers_are_exact(envelope.len());
    order::law_double_difference_turns_the_order(track_len, pos, later);
    if !double::at_most(y, Double { bits: double::ZERO }) && !double::at_most(n, x) {
        order::law_double_difference_turns_the_order(n, y, x);
        let i = double::floor(double::difference(n, x), u32::MAX as nat);
        let j = double::floor(double::difference(n, y), u32::MAX as nat);
        order::law_floor_keeps_the_order(
            double::difference(n, x),
            double::difference(n, y),
            u32::MAX as nat,
        );
        let last = envelope.len() - 1;
        declick::law_weights_add_up(
            envelope,
            if i < last {
                i as int
            } else {
                last
            },
            if j < last {
                j as int
            } else {
                last
            },
        );
    }
}

} // verus!
