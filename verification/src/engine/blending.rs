//! What a deck adds to the mix: its gain, its ramps and the end of its track.

use std::sync::Arc;
use vstd::arithmetic::power2::*;
use vstd::prelude::*;

use crate::engine::deck;
use crate::engine::declick;
use crate::engine::obedience;
use crate::ieee::arith;
use crate::ieee::binary;
use crate::ieee::double;
use crate::ieee::identities;
use crate::ieee::order;
use crate::ieee::single;
use crate::ieee::single::Single;
use crate::track::Track;

verus! {

/// One.
pub open spec fn one() -> Single {
    Single { bits: single::ONE }
}

/// Multiplying by one first makes no difference to a product, even of what is not a number.
proof fn lemma_times_one_first(a: Single, b: Single)
    ensures
        single::product(single::product(a, one()), b) == single::product(a, b),
{
    if a@.mag <= binary::SINGLE_INF {
        identities::law_product_with_one(a);
    } else {
        reveal(single::product);
        reveal(arith::product);
        lemma2_to64();
        let nan = arith::nan(arith::single());
        assert(single::of(nan)@ == nan);
    }
}

/// What the deck adds in frame `k`, at full gain and without a ramp; silence if it adds nothing.
pub open spec fn alone(v: deck::DeckView, engine_sr: Single, k: nat) -> (Single, Single) {
    match deck::contribution(deck::DeckView { fade: None, gain: one(), ..v }, engine_sr, k) {
        Some(pair) => pair,
        None => (Single { bits: single::ZERO }, Single { bits: single::ZERO }),
    }
}

/// The deck as it was before the ramp.
pub open spec fn before_ramp(v: deck::DeckView, f: deck::FadeView) -> deck::DeckView {
    deck::DeckView {
        source: f.source,
        position: f.position,
        rate: f.rate,
        playing: f.playing,
        ..v
    }
}

/// During a ramp the deck adds the old and the new side, the new one with the weight of the ramp and
/// the old one with what is left of one, at the gain of the deck. Each side is what a deck would add
/// that plays it alone.
pub proof fn law_ramps_blend_two_sides(
    v: deck::DeckView,
    f: deck::FadeView,
    engine_sr: Single,
    k: nat,
)
    requires
        deck::well_formed(v),
        v.fade == Some(f),
        k < f.remaining,
    ensures
        ({
            let w = v.envelope[v.envelope.len() - f.remaining + k];
            let rest = single::difference(one(), w);
            let x = alone(before_ramp(v, f), engine_sr, k);
            let y = alone(v, engine_sr, k);
            let l = single::sum(single::product(x.0, rest), single::product(y.0, w));
            let r = single::sum(single::product(x.1, rest), single::product(y.1, w));
            deck::contribution(v, engine_sr, k) == Some(
                (single::product(l, v.gain), single::product(r, v.gain)),
            )
        }),
{
    let pos = deck::playhead(v, engine_sr, k);
    if let Some(t) = v.source {
        let (l, r) = deck::read_at(t@, pos);
        let edge = deck::tail_scale(double::from_int(t@.frames), pos, v.envelope);
        lemma_times_one_first(l, edge);
        lemma_times_one_first(r, edge);
    }
    let old_pos = deck::old_playhead(f, engine_sr, k);
    if let Some(t) = f.source {
        let (l, r) = deck::read_at(t@, old_pos);
        let edge = deck::tail_scale(double::from_int(t@.frames), old_pos, v.envelope);
        lemma_times_one_first(l, edge);
        lemma_times_one_first(r, edge);
    }
}

/// A sample that can be blended: finite, and no negative zero.
pub open spec fn blendable(pair: (Single, Single)) -> bool {
    &&& single::finite(pair.0) && pair.0.bits != 0x8000_0000
    &&& single::finite(pair.1) && pair.1.bits != 0x8000_0000
}

/// A weight of zero leaves the old side alone, and a weight of one the new one.
proof fn lemma_ends_of_a_blend(x: Single, y: Single, w: Single)
    requires
        single::finite(x) && x.bits != 0x8000_0000,
        single::finite(y) && y.bits != 0x8000_0000,
    ensures
        w@.mag == 0 ==> single::sum(
            single::product(x, single::difference(one(), w)),
            single::product(y, w),
        ) == x,
        w == one() ==> single::sum(
            single::product(x, single::difference(one(), w)),
            single::product(y, w),
        ) == y,
{
    if w@.mag == 0 {
        assert(single::difference(one(), w) == one()) by {
            let minus = Single { bits: if w@.neg {
                0u32
            } else {
                0x8000_0000u32
            } };
            assert(minus@.mag == 0 && minus@.neg == !w@.neg);
            identities::law_sum_with_either_zero(one(), minus);
            reveal(single::difference);
            reveal(single::sum);
        }
        identities::law_product_with_one(x);
        identities::law_multiples_of_zero(w, y);
        identities::law_sum_with_either_zero(x, single::product(y, w));
    }
    if w == one() {
        assert(single::finite(one()));
        identities::law_difference_with_itself(one());
        let z = single::difference(one(), w);
        identities::law_product_with_one(y);
        identities::law_multiples_of_zero(z, x);
        identities::law_sum_with_either_zero(y, single::product(x, z));
        order::law_sum_commutes(y, single::product(x, z));
    }
}

/// Where the weight of the ramp is zero the old side is heard alone, and where it is one the new side.
pub proof fn law_ramps_go_from_one_side_to_the_other(
    v: deck::DeckView,
    f: deck::FadeView,
    engine_sr: Single,
    k: nat,
)
    requires
        deck::well_formed(v),
        v.fade == Some(f),
        k < f.remaining,
        blendable(alone(before_ramp(v, f), engine_sr, k)),
        blendable(alone(v, engine_sr, k)),
    ensures
        ({
            let w = v.envelope[v.envelope.len() - f.remaining + k];
            let x = alone(before_ramp(v, f), engine_sr, k);
            let y = alone(v, engine_sr, k);
            let pair = deck::contribution(v, engine_sr, k);
            &&& w@.mag == 0 ==> pair == Some(
                (single::product(x.0, v.gain), single::product(x.1, v.gain)),
            )
            &&& w == one() ==> pair == Some(
                (single::product(y.0, v.gain), single::product(y.1, v.gain)),
            )
        }),
{
    let w = v.envelope[v.envelope.len() - f.remaining + k];
    let x = alone(before_ramp(v, f), engine_sr, k);
    let y = alone(v, engine_sr, k);
    law_ramps_blend_two_sides(v, f, engine_sr, k);
    lemma_ends_of_a_blend(x.0, y.0, w);
    lemma_ends_of_a_blend(x.1, y.1, w);
}

/// A change of the transport makes no jump: where the ramp starts at zero, the first sample after the
/// change is the one that would have come without it.
pub proof fn law_changes_make_no_jump(d: deck::DeckView, e: deck::DeckView, engine_sr: Single)
    requires
        deck::well_formed(e),
        d.fade is None,
        d.source is Some,
        d.playing,
        obedience::fades_from(e, d),
        e.envelope == d.envelope,
        e.gain == d.gain,
        d.gain == one(),
        d.envelope[0]@.mag == 0,
        deck::contribution(d, engine_sr, 0) matches Some(pair) && blendable(pair),
        blendable(alone(e, engine_sr, 0)),
    ensures
        deck::contribution(e, engine_sr, 0) == deck::contribution(d, engine_sr, 0),
{
    let f = e.fade->0;
    let pair = deck::contribution(d, engine_sr, 0)->0;
    let x = alone(before_ramp(e, f), engine_sr, 0);
    assert(deck::playhead(d, engine_sr, 0) == d.position);
    assert(deck::playhead(before_ramp(e, f), engine_sr, 0) == d.position);
    assert(x == pair);
    law_ramps_go_from_one_side_to_the_other(e, f, engine_sr, 0);
    identities::law_product_with_one(pair.0);
    identities::law_product_with_one(pair.1);
}

/// Once its ramp is over, a deck sounds as it does without one.
pub proof fn law_ramps_end(v: deck::DeckView, f: deck::FadeView, engine_sr: Single, k: nat)
    requires
        v.fade == Some(f),
        k >= f.remaining,
    ensures
        deck::contribution(v, engine_sr, k) == deck::contribution(
            deck::DeckView { fade: None, ..v },
            engine_sr,
            k,
        ),
{
}

/// During a ramp the gain of a deck scales what the deck adds at full gain.
pub proof fn law_gain_scales_a_ramp(
    v: deck::DeckView,
    f: deck::FadeView,
    engine_sr: Single,
    k: nat,
)
    requires
        v.fade == Some(f),
        k < f.remaining,
    ensures
        ({
            let full = deck::contribution(deck::DeckView { gain: one(), ..v }, engine_sr, k);
            full matches Some((l, r)) && deck::contribution(v, engine_sr, k) == Some(
                (single::product(l, v.gain), single::product(r, v.gain)),
            )
        }),
{
    let u = deck::DeckView { gain: one(), ..v };
    assert(deck::playhead(u, engine_sr, k) == deck::playhead(v, engine_sr, k));
    let pos = deck::playhead(v, engine_sr, k);
    let w = declick::weight_in(v.envelope, v.envelope.len() - f.remaining + k);
    let rest = single::difference(one(), w);
    let x = deck::side(f.source, f.playing, deck::old_playhead(f, engine_sr, k), v.envelope);
    let y = deck::side(v.source, v.playing, pos, v.envelope);
    lemma_times_one_first(
        single::sum(single::product(x.0, rest), single::product(y.0, w)),
        v.gain,
    );
    lemma_times_one_first(
        single::sum(single::product(x.1, rest), single::product(y.1, w)),
        v.gain,
    );
}

/// Without a ramp, and a ramp or more before the end of the track, the gain of a deck scales what it
/// reads of its track.
pub proof fn law_gain_scales_the_track(
    v: deck::DeckView,
    t: Arc<Track>,
    engine_sr: Single,
    k: nat,
)
    requires
        v.fade is None,
        v.source == Some(t),
        v.playing,
        deck::tail_scale(
            double::from_int(t@.frames),
            deck::playhead(v, engine_sr, k),
            v.envelope,
        ) == one(),
        single::finite(v.gain),
        single::product(deck::read_at(t@, deck::playhead(v, engine_sr, k)).0, v.gain)@.mag
            <= binary::SINGLE_INF,
        single::product(deck::read_at(t@, deck::playhead(v, engine_sr, k)).1, v.gain)@.mag
            <= binary::SINGLE_INF,
    ensures
        ({
            let full = alone(v, engine_sr, k);
            &&& deck::contribution(v, engine_sr, k) == Some(
                (single::product(full.0, v.gain), single::product(full.1, v.gain)),
            )
            &&& deck::read_at(t@, deck::playhead(v, engine_sr, k)).0@.mag <= binary::SINGLE_INF
                ==> full.0 == deck::read_at(t@, deck::playhead(v, engine_sr, k)).0
            &&& deck::read_at(t@, deck::playhead(v, engine_sr, k)).1@.mag <= binary::SINGLE_INF
                ==> full.1 == deck::read_at(t@, deck::playhead(v, engine_sr, k)).1
        }),
{
    let u = deck::DeckView { fade: None, gain: one(), ..v };
    let pos = deck::playhead(v, engine_sr, k);
    assert(deck::playhead(u, engine_sr, k) == pos);
    let (l, r) = deck::read_at(t@, pos);
    identities::law_product_with_one(single::product(l, v.gain));
    identities::law_product_with_one(single::product(r, v.gain));
    lemma_times_one_first(l, one());
    lemma_times_one_first(r, one());
    lemma_times_one_first(l, v.gain);
    lemma_times_one_first(r, v.gain);
    if l@.mag <= binary::SINGLE_INF {
        identities::law_product_with_one(l);
    }
    if r@.mag <= binary::SINGLE_INF {
        identities::law_product_with_one(r);
    }
}

/// The end of the track fades what a deck reads of it, ramp or not: at full gain a deck adds what it
/// reads, times the scale of the end.
pub proof fn law_the_end_fades_the_track(
    v: deck::DeckView,
    t: Arc<Track>,
    engine_sr: Single,
    k: nat,
)
    requires
        v.source == Some(t),
        v.playing,
    ensures
        ({
            let pos = deck::playhead(v, engine_sr, k);
            let read = deck::read_at(t@, pos);
            let scale = deck::tail_scale(double::from_int(t@.frames), pos, v.envelope);
            alone(v, engine_sr, k) == (
                single::product(read.0, scale),
                single::product(read.1, scale),
            )
        }),
{
    let pos = deck::playhead(v, engine_sr, k);
    let (l, r) = deck::read_at(t@, pos);
    let scale = deck::tail_scale(double::from_int(t@.frames), pos, v.envelope);
    lemma_times_one_first(l, scale);
    lemma_times_one_first(r, scale);
}

} // verus!
