//! What is heard of a record that is played through, and what its taps hear.

use vstd::arithmetic::power2::*;
use vstd::prelude::*;

use crate::engine::deck;
use crate::engine::mixer;
use crate::engine::thru;
use crate::ieee::binary;
use crate::ieee::exact;
use crate::ieee::exact::single_value;
use crate::ieee::exact::sixteen_bit;
use crate::ieee::identities;
use crate::ieee::single;
use crate::ieee::single::Single;

verus! {

/// What was received is heard on the two channels of the deck: the left sample of a frame on the first
/// and the right one on the second, each times the gain and added to what was there. Where no whole
/// frame was received nothing is added, and no other channel changes.
pub proof fn law_records_are_heard_as_received(
    v: thru::ThruView,
    w: thru::ThruView,
    gain: Single,
    stride: nat,
    offset: nat,
    out: Seq<Single>,
    mixed: Seq<Single>,
    received: Seq<Single>,
    k: int,
    c: int,
)
    requires
        thru::rendered(v, w, gain, stride, offset, out, mixed, received),
        offset + 2 <= stride,
        0 <= k < out.len() / stride,
        0 <= c < stride,
        k * stride + c < out.len(),
    ensures
        mixed.len() == out.len(),
        ({
            let was = out[k * stride + c];
            let now = mixed[k * stride + c];
            &&& c < offset || offset + 2 <= c ==> now == was
            &&& offset <= c < offset + 2 && 2 * k + 1 < received.len() ==> now == single::sum(
                was,
                single::product(received[2 * k + (c - offset)], gain),
            )
            &&& offset <= c < offset + 2 && received.len() <= 2 * k + 1 && single::finite(gain)
                && was@.mag <= binary::SINGLE_INF && was.bits != 0x8000_0000 ==> now == was
        }),
{
    let i = k * stride + c;
    deck::lemma_cell(i, stride as int, k, c);
    assert(i >= 0) by (nonlinear_arith)
        requires
            i == k * stride + c,
            k >= 0,
            c >= 0,
            stride >= 0,
    ;
    let zero = Single { bits: single::ZERO };
    let block = thru::block_of(received, thru::wanted(v, out.len() / stride));
    if offset <= c < offset + 2 && received.len() <= 2 * k + 1 && single::finite(gain) {
        assert(thru::sample_of(block, 2 * k + (c - offset)) == zero);
        identities::law_multiples_of_zero(zero, gain);
        if was_plain(out[i]) {
            identities::law_sum_with_either_zero(out[i], single::product(zero, gain));
        }
    }
}

spec fn was_plain(a: Single) -> bool {
    a@.mag <= binary::SINGLE_INF && a.bits != 0x8000_0000
}

/// The mono mix of a frame of sixteen-bit audio is the mean of its two samples, exactly.
pub proof fn law_mono_is_the_mean(block: Seq<Single>, k: int, l: int, r: int)
    requires
        0 <= k < block.len() / 2,
        sixteen_bit(block[2 * k], l),
        sixteen_bit(block[2 * k + 1], r),
    ensures
        thru::mono_of(block).len() == block.len() / 2,
        single::finite(thru::mono_of(block)[k]),
        2 * single_value(thru::mono_of(block)[k]) == (l + r) * pow2(134),
{
    let a = block[2 * k];
    let b = block[2 * k + 1];
    let s = single::sum(a, b);
    let h = Single { bits: thru::HALF };
    lemma2_to64();
    lemma2_to64_rest();
    let z = pow2(134) as int;
    let n = exact::abs(l + r);
    assert(l * z + r * z == (l + r) * z) by (nonlinear_arith);
    exact::lemma_abs_times(l + r, pow2(134) as int);
    lemma_pow2_adds(17, 134);
    lemma_pow2_strictly_increases(151, 277);
    lemma_pow2_pos(134);
    lemma_pow2_strictly_increases(17, 24);
    assert(n * pow2(134) <= pow2(151)) by (nonlinear_arith)
        requires
            n <= 0x1_0000,
            pow2(151) == 0x2_0000 * pow2(134),
            pow2(134) > 0,
    ;
    exact::lemma_single_sum(a, b, n, 134);
    let sv = single_value(s);
    // Half of it.
    binary::lemma_worth_of_encode(24, 0x80_0000, 125);
    assert(binary::encode(24, 0x80_0000, 125) == thru::HALF);
    lemma_pow2_adds(23, 125);
    lemma_pow2_unfold(149);
    lemma_pow2_unfold(134);
    let t = pow2(148) as int;
    let y = pow2(133) as int;
    lemma_pow2_pos(133);
    lemma_pow2_pos(149);
    assert(single_value(h) == t);
    assert(t * sv == ((l + r) * y) * (2 * t)) by (nonlinear_arith)
        requires
            sv == (l + r) * z,
            z == 2 * y,
    ;
    exact::lemma_abs_times(l + r, pow2(133) as int);
    exact::lemma_abs_times((l + r) * y, pow2(149) as int);
    assert(n * y < pow2(277)) by (nonlinear_arith)
        requires
            n * z <= pow2(151),
            pow2(151) < pow2(277),
            z == 2 * y,
            n * y >= 0,
    ;
    exact::lemma_single_product(h, s, n, 133);
    let m = single_value(single::product(h, s));
    assert(m == (l + r) * y) by (nonlinear_arith)
        requires
            m * pow2(149) == ((l + r) * y) * (2 * t),
            pow2(149) == 2 * t,
            pow2(149) > 0,
    ;
    assert(2 * ((l + r) * y) == (l + r) * z) by (nonlinear_arith)
        requires
            z == 2 * y,
    ;
}

/// Both taps of a record are offered the mono mix of what was received, one sample per frame, and the
/// same one: for sixteen-bit audio the mean of each frame.
pub proof fn law_taps_hear_the_mean(
    v: thru::ThruView,
    w: thru::ThruView,
    frames: nat,
    received: Seq<Single>,
    k: int,
    l: int,
    r: int,
)
    requires
        thru::played(v, w, frames, received),
        0 <= k,
        2 * k + 1 < received.len(),
        sixteen_bit(received[2 * k], l),
        sixteen_bit(received[2 * k + 1], r),
    ensures
        v.bpm matches Some(a) ==> {
            &&& w.bpm matches Some(b) && 2 * single_value(b.offered[a.offered.len() + k]) == (l + r)
                * pow2(134) && b.offered.take(a.offered.len() as int) == a.offered
        },
        v.peaks matches Some(a) ==> {
            &&& w.peaks matches Some(b) && 2 * single_value(b.offered[a.offered.len() + k]) == (l
                + r) * pow2(134) && b.offered.take(a.offered.len() as int) == a.offered
        },
        v.bpm is None ==> w.bpm is None,
        v.peaks is None ==> w.peaks is None,
{
    let block = thru::block_of(received, thru::wanted(v, frames));
    assert(block[2 * k] == received[2 * k] && block[2 * k + 1] == received[2 * k + 1]);
    law_mono_is_the_mean(block, k, l, r);
    let mono = thru::mono_of(block);
    if let Some(a) = v.bpm {
        let b = w.bpm->0;
        assert(b.offered == a.offered + mono);
        assert(b.offered.take(a.offered.len() as int) =~= a.offered);
    }
    if let Some(a) = v.peaks {
        let b = w.peaks->0;
        assert(b.offered == a.offered + mono);
        assert(b.offered.take(a.offered.len() as int) =~= a.offered);
    }
}

/// A record is asked for as many samples as a block has, but no more than the source was made for, and
/// what is received goes on where the last block ended.
pub proof fn law_records_are_asked_for_the_block(
    v: thru::ThruView,
    w: thru::ThruView,
    frames: nat,
    received: Seq<Single>,
)
    requires
        thru::played(v, w, frames, received),
    ensures
        ({
            let most = if frames < v.block_frames {
                2 * frames
            } else {
                2 * v.block_frames
            };
            &&& received.len() <= most
            &&& w.intake.asked == v.intake.asked + most
            &&& w.intake.taken == v.intake.taken + received
            &&& w.intake.channel == v.intake.channel
            &&& w.block_frames == v.block_frames
        }),
{
}

/// A tap loses nothing while there is room: what it could not take is the end of a block, and only once
/// as much as the channel holds was sent.
pub proof fn law_taps_lose_nothing_while_there_is_room(
    a: thru::TapView,
    b: thru::TapView,
    mono: Seq<Single>,
)
    requires
        thru::tapped(Some(a), Some(b), mono),
    ensures
        b.channel == a.channel,
        b.offered == a.offered + mono,
        a.sent.is_prefix_of(b.sent),
        b.sent.len() <= a.sent.len() + mono.len(),
        forall|i: int|
            a.sent.len() <= i < b.sent.len() ==> #[trigger] b.sent[i] == mono[i - a.sent.len()],
        a.sent.len() + mono.len() <= a.channel.capacity ==> b.sent == a.sent + mono,
{
    let n = choose|n: int|
        0 <= n <= mono.len() && (n < mono.len() ==> a.sent.len() + n >= a.channel.capacity)
            && Some(b) == Some(
            thru::TapView {
                channel: a.channel,
                offered: a.offered + mono,
                sent: a.sent + #[trigger] mono.take(n),
            },
        );
    if n == mono.len() {
        assert(mono.take(n) =~= mono);
    }
}

/// A deck that plays a record through adds what was received, times the gain of the deck, to its two
/// channels, and does not move.
pub proof fn law_records_play_at_the_gain_of_their_deck(
    v: mixer::EngineView,
    w: mixer::EngineView,
    idx: int,
    channels: nat,
    first: u32,
    before: Seq<Single>,
    after: Seq<Single>,
    k: int,
    c: int,
)
    requires
        mixer::deck_added(v, w, idx, channels, Some(first), before, after),
        0 <= idx < v.thrus.len(),
        v.thrus[idx] is Some,
        first + 2 <= channels,
        0 <= k < before.len() / channels,
        first <= c < first + 2,
        k * channels + c < before.len(),
    ensures
        w.decks == v.decks,
        w.thrus[idx] is Some,
        ({
            let a = v.thrus[idx]->0.intake.taken;
            let b = w.thrus[idx]->0.intake.taken;
            let i = a.len() + 2 * k + (c - first);
            &&& a.is_prefix_of(b)
            &&& a.len() + 2 * k + 1 < b.len() ==> after[k * channels + c] == single::sum(
                before[k * channels + c],
                single::product(b[i], v.decks[idx].gain),
            )
        }),
{
    let received = choose|received: Seq<Single>| #[trigger]
        mixer::passed_through(v, w, idx, channels, first, before, after, received);
    assert(mixer::passed_through(v, w, idx, channels, first, before, after, received));
    law_records_are_heard_as_received(
        v.thrus[idx]->0,
        w.thrus[idx]->0,
        v.decks[idx].gain,
        channels,
        first as nat,
        before,
        after,
        received,
        k,
        c,
    );
}

} // verus!
