//! Two decks together sound like each of them alone, added up.

use vstd::prelude::*;

use crate::engine::deck;
use crate::engine::laws;
use crate::engine::mixer;
use crate::engine::thru;
use crate::ieee::identities;
use crate::ieee::single;
use crate::ieee::single::Single;

verus! {

/// What deck `idx` adds in frame `k`, where its thru source, if it has one, received `received`.
spec fn heard_of(
    v: mixer::EngineView,
    idx: int,
    frames: nat,
    received: Seq<Single>,
    k: nat,
) -> Option<(Single, Single)> {
    match v.thrus[idx] {
        Some(t) => Some(
            thru::scaled_frame(
                thru::block_of(received, thru::wanted(t, frames)),
                v.decks[idx].gain,
                k as int,
            ),
        ),
        None => deck::contribution(v.decks[idx], v.sample_rate, k),
    }
}

/// What the thru source of a deck received in a block, if it has one.
spec fn received_by(v: mixer::EngineView, w: mixer::EngineView, idx: int) -> Seq<Single> {
    match (v.thrus[idx], w.thrus[idx]) {
        (Some(a), Some(b)) => b.intake.taken.skip(a.intake.taken.len() as int),
        _ => Seq::empty(),
    }
}

/// One cell after a deck was added.
spec fn with_deck_added(
    cell: Single,
    i: int,
    channels: nat,
    route: Option<u32>,
    pair: Option<(Single, Single)>,
) -> Single {
    match route {
        None => cell,
        Some(first) => deck::added(cell, i, channels, first as nat, pair),
    }
}

/// A deck adds to each cell what is heard of it there.
proof fn lemma_cell_of(
    v: mixer::EngineView,
    w: mixer::EngineView,
    idx: int,
    channels: nat,
    route: Option<u32>,
    before: Seq<Single>,
    after: Seq<Single>,
    i: int,
)
    requires
        mixer::deck_added(v, w, idx, channels, route, before, after),
        0 <= i < before.len(),
        0 < channels,
    ensures
        after.len() == before.len(),
        after[i] == with_deck_added(
            before[i],
            i,
            channels,
            route,
            heard_of(
                v,
                idx,
                before.len() / channels,
                received_by(v, w, idx),
                (i / (channels as int)) as nat,
            ),
        ),
{
    match route {
        None => {},
        Some(first) => match v.thrus[idx] {
            Some(t) => {
                let received = choose|received: Seq<Single>| #[trigger]
                    mixer::passed_through(v, w, idx, channels, first, before, after, received);
                assert(mixer::passed_through(
                    v,
                    w,
                    idx,
                    channels,
                    first,
                    before,
                    after,
                    received,
                ));
                assert(received_by(v, w, idx) =~= received);
            },
            None => {},
        },
    }
}

/// Adding two decks to silence one after the other is adding what each of them makes of silence.
proof fn lemma_one_after_the_other(
    i: int,
    channels: nat,
    first: Option<u32>,
    second: Option<u32>,
    a: Option<(Single, Single)>,
    b: Option<(Single, Single)>,
)
    ensures
        ({
            let zero = Single { bits: single::ZERO };
            let half = with_deck_added(zero, i, channels, first, a);
            with_deck_added(half, i, channels, second, b) == single::sum(
                half,
                with_deck_added(zero, i, channels, second, b),
            )
        }),
{
    let zero = Single { bits: single::ZERO };
    let half = with_deck_added(zero, i, channels, first, a);
    match a {
        Some((l, r)) => {
            identities::law_sums_settle(zero, l);
            identities::law_sums_settle(zero, r);
        },
        None => {
            identities::law_sums_settle(zero, zero);
        },
    }
    identities::law_sums_settle(zero, zero);
    assert(identities::settled(half));
    match b {
        Some((l, r)) => {
            identities::law_sums_settle(half, l);
            identities::law_sums_settle(half, r);
        },
        None => {
            identities::law_sums_settle(half, zero);
        },
    }
}

/// The thru sources of two runs received the same input.
pub open spec fn same_input(a: Option<thru::ThruView>, b: Option<thru::ThruView>) -> bool {
    match (a, b) {
        (Some(x), Some(y)) => x.intake == y.intake,
        _ => true,
    }
}

/// Both decks of an engine, on whatever channels, sound like each of them alone: of the block at
/// the gain of the mix, every sample is the sum of those that the same engine gives at unity gain
/// with only the first and with only the second deck routed. Thru sources count as long as they
/// receive the same input.
pub proof fn law_decks_add_up(
    v: mixer::EngineView,
    m: mixer::EngineView,
    n: mixer::EngineView,
    w: mixer::EngineView,
    half: Seq<Single>,
    full: Seq<Single>,
    bus: Seq<Single>,
    va: mixer::EngineView,
    ma: mixer::EngineView,
    na: mixer::EngineView,
    wa: mixer::EngineView,
    half_a: Seq<Single>,
    full_a: Seq<Single>,
    bus_a: Seq<Single>,
    vb: mixer::EngineView,
    mb: mixer::EngineView,
    nb: mixer::EngineView,
    wb: mixer::EngineView,
    half_b: Seq<Single>,
    full_b: Seq<Single>,
    bus_b: Seq<Single>,
    channels: nat,
    first: Option<u32>,
    second: Option<u32>,
    i: int,
)
    requires
        v.decks.len() == mixer::DECK_COUNT,
        v.thrus.len() == mixer::DECK_COUNT,
        0 < channels,
        va == (mixer::EngineView { master_gain: Single { bits: single::ONE }, ..v }),
        vb == va,
        mixer::block_mixed(v, m, n, w, channels, seq![first, second], half, full, bus),
        mixer::block_mixed(va, ma, na, wa, channels, seq![first, None], half_a, full_a, bus_a),
        mixer::block_mixed(vb, mb, nb, wb, channels, seq![None, second], half_b, full_b, bus_b),
        bus_a.len() == bus.len(),
        bus_b.len() == bus.len(),
        same_input(ma.thrus[0], m.thrus[0]),
        same_input(nb.thrus[1], n.thrus[1]),
        0 <= i < bus.len(),
    ensures
        bus[i] == if mixer::gain_matters(v.master_gain) {
            single::product(single::sum(bus_a[i], bus_b[i]), v.master_gain)
        } else {
            single::sum(bus_a[i], bus_b[i])
        },
{
    let zero = Single { bits: single::ZERO };
    let quiet = mixer::silent_bus(bus.len());
    let k = (i / (channels as int)) as nat;
    let frames = bus.len() / channels;
    lemma_cell_of(v, m, 0, channels, first, quiet, half, i);
    lemma_cell_of(m, n, 1, channels, second, half, full, i);
    lemma_cell_of(va, ma, 0, channels, first, quiet, half_a, i);
    lemma_cell_of(ma, na, 1, channels, None, half_a, full_a, i);
    lemma_cell_of(vb, mb, 0, channels, None, quiet, half_b, i);
    lemma_cell_of(mb, nb, 1, channels, second, half_b, full_b, i);
    laws::lemma_first_leaves_second(v, m, channels, first, quiet, half);
    let a = heard_of(v, 0, frames, received_by(v, m, 0), k);
    let b = heard_of(m, 1, frames, received_by(m, n, 1), k);
    assert(heard_of(va, 0, frames, received_by(va, ma, 0), k) == a);
    assert(heard_of(mb, 1, frames, received_by(mb, nb, 1), k) == b);
    lemma_one_after_the_other(i, channels, first, second, a, b);
    laws::law_unity_gain_changes_nothing(full_a);
    laws::law_unity_gain_changes_nothing(full_b);
    assert(full[i] == single::sum(bus_a[i], bus_b[i]));
}

} // verus!
