//! A deck: it holds a track, plays it forward or backward at any rate, and mixes
//! it into an output.

use std::sync::Arc;
use vstd::arithmetic::div_mod::*;
use vstd::arithmetic::mul::*;
use vstd::prelude::*;

use crate::engine::declick;
use crate::engine::declick::DeclickEnvelope;
use crate::engine::shared::DeckSharedState;
use crate::engine::shared::Display;
use crate::engine::shared::Shown;
use crate::ieee::double;
use crate::ieee::double::Double;
use crate::ieee::laws;
use crate::ieee::single;
use crate::ieee::single::Single;
use crate::track;
use crate::track::Track;

verus! {

/// Bits of two in double precision.
pub const TWO: u64 = 0x4000_0000_0000_0000;

/// What a deck played before the transport changed, while it fades away.
#[derive(Debug)]
struct Fade {
    source: Option<Arc<Track>>,
    position: Double,
    rate: Double,
    playing: bool,
    remaining: u32,
}

/// A deck.
#[derive(Debug)]
pub struct Deck {
    source: Option<Arc<Track>>,
    position: Double,
    rate: Double,
    gain: Single,
    playing: bool,
    at_end: bool,
    panic_play: bool,
    display: Display,
    envelope: Arc<DeclickEnvelope>,
    fade: Option<Fade>,
    pending_disposal: Option<Arc<Track>>,
}

/// A ramp in flight: what played before, and the samples of the ramp to come.
pub ghost struct FadeView {
    pub source: Option<Arc<Track>>,
    pub position: Double,
    pub rate: Double,
    pub playing: bool,
    pub remaining: nat,
}

/// The state of a deck.
pub ghost struct DeckView {
    /// The loaded track.
    pub source: Option<Arc<Track>>,
    /// The playhead in track frames.
    pub position: Double,
    /// Track frames per output frame at equal sample rates.
    pub rate: Double,
    /// Linear gain.
    pub gain: Single,
    /// Whether the deck plays.
    pub playing: bool,
    /// Whether the playhead has left the track.
    pub at_end: bool,
    /// Whether the deck shows that it holds its rate on its own.
    pub panic_play: bool,
    /// Where the deck shows its transport.
    pub board: Arc<DeckSharedState>,
    /// The weights of a ramp.
    pub envelope: Seq<Single>,
    /// The ramp in flight.
    pub fade: Option<FadeView>,
    /// A track that waits for disposal elsewhere.
    pub pending: Option<Arc<Track>>,
}

/// No ramp has more samples to come than there are weights.
pub open spec fn well_formed(v: DeckView) -> bool {
    &&& declick::MIN_RAMP_SAMPLES <= v.envelope.len() <= u32::MAX
    &&& v.fade matches Some(f) ==> f.remaining <= v.envelope.len()
}

/// What a deck shows to other threads.
pub open spec fn shown_of(v: DeckView) -> Shown {
    Shown {
        position: v.position,
        playing: v.playing,
        at_end: v.at_end,
        panic_play: v.panic_play,
    }
}

/// An empty deck.
pub open spec fn fresh(envelope: Seq<Single>, board: Arc<DeckSharedState>) -> DeckView {
    DeckView {
        source: None,
        position: Double { bits: double::ZERO },
        rate: Double { bits: double::ONE },
        gain: Single { bits: single::ONE },
        playing: false,
        at_end: false,
        panic_play: false,
        board,
        envelope,
        fade: None,
        pending: None,
    }
}

/// Silence on both sides.
pub open spec fn silence() -> (Single, Single) {
    (Single { bits: single::ZERO }, Single { bits: single::ZERO })
}

/// A track read at a fractional position, by linear interpolation between
/// neighbouring frames; silence outside of the track.
pub open spec fn read_at(t: track::TrackView, pos: Double) -> (Single, Single) {
    let len = double::from_int(t.frames);
    let last = double::from_int(if t.frames == 0 {
        0
    } else {
        (t.frames - 1) as nat
    });
    if double::less(pos, Double { bits: double::ZERO }) || double::at_most(len, pos) {
        silence()
    } else {
        let below = double::whole_part(pos);
        let i = double::floor(below, usize::MAX as nat) as int;
        let frac = double::narrowed(double::difference(pos, below));
        let a = track::frame_of(t, i);
        let b = if double::less(below, last) {
            track::frame_of(t, i + 1)
        } else {
            a
        };
        (
            single::sum(a.0, single::product(single::difference(b.0, a.0), frac)),
            single::sum(a.1, single::product(single::difference(b.1, a.1), frac)),
        )
    }
}

/// The scale that fades a track out over its last frames. Tracks shorter than two
/// ramps are not faded.
pub open spec fn tail_scale(track_len: Double, pos: Double, envelope: Seq<Single>) -> Single {
    let n = double::from_int(envelope.len());
    let to_end = double::difference(track_len, pos);
    if double::less(track_len, double::product(Double { bits: TWO }, n)) {
        Single { bits: single::ONE }
    } else if double::at_most(to_end, Double { bits: double::ZERO }) {
        Single { bits: single::ZERO }
    } else if double::at_most(n, to_end) {
        Single { bits: single::ONE }
    } else {
        let i = double::floor(double::difference(n, to_end), u32::MAX as nat);
        declick::weight_out(
            envelope,
            if i < envelope.len() - 1 {
                i as int
            } else {
                envelope.len() - 1
            },
        )
    }
}

/// Track frames per output frame.
pub open spec fn increment(source: Option<Arc<Track>>, rate: Double, engine_sr: Single) -> Double {
    match source {
        None => Double { bits: double::ZERO },
        Some(t) => double::product(
            rate,
            double::quotient(
                double::from_int(t@.sample_rate as nat),
                single::widened(engine_sr),
            ),
        ),
    }
}

/// A position after `n` steps.
pub open spec fn advanced(position: Double, step: Double, n: nat) -> Double
    decreases n,
{
    if n == 0 {
        position
    } else {
        double::sum(advanced(position, step, (n - 1) as nat), step)
    }
}

/// The playhead after `n` frames of playing.
pub open spec fn playhead(v: DeckView, engine_sr: Single, n: nat) -> Double {
    if v.playing {
        advanced(v.position, increment(v.source, v.rate, engine_sr), n)
    } else {
        v.position
    }
}

/// The playhead of the old side after `n` frames.
pub open spec fn old_playhead(f: FadeView, engine_sr: Single, n: nat) -> Double {
    if f.playing {
        advanced(f.position, increment(f.source, f.rate, engine_sr), n)
    } else {
        f.position
    }
}

/// What one side of a crossfade sounds like: silence unless it plays a track.
pub open spec fn side(
    source: Option<Arc<Track>>,
    playing: bool,
    pos: Double,
    envelope: Seq<Single>,
) -> (Single, Single) {
    match source {
        Some(t) if playing => {
            let (l, r) = read_at(t@, pos);
            let edge = tail_scale(double::from_int(t@.frames), pos, envelope);
            (single::product(l, edge), single::product(r, edge))
        },
        _ => silence(),
    }
}

/// How many of `frames` frames the ramp in flight covers.
pub open spec fn faded_frames(v: DeckView, frames: nat) -> nat {
    match v.fade {
        None => 0,
        Some(f) => if f.remaining < frames {
            f.remaining
        } else {
            frames
        },
    }
}

/// What the deck adds at frame `k` of a block: during a ramp the old and the new
/// side, each with its weight; afterwards the track, if it plays.
pub open spec fn contribution(v: DeckView, engine_sr: Single, k: nat) -> Option<(Single, Single)> {
    let pos = playhead(v, engine_sr, k);
    match v.fade {
        Some(f) if k < f.remaining => {
            let w = declick::weight_in(v.envelope, v.envelope.len() - f.remaining + k);
            let u = single::difference(Single { bits: single::ONE }, w);
            let old = side(f.source, f.playing, old_playhead(f, engine_sr, k), v.envelope);
            let new = side(v.source, v.playing, pos, v.envelope);
            let l = single::sum(single::product(old.0, u), single::product(new.0, w));
            let r = single::sum(single::product(old.1, u), single::product(new.1, w));
            Some((single::product(l, v.gain), single::product(r, v.gain)))
        },
        _ => match v.source {
            Some(t) if v.playing => {
                let (l, r) = read_at(t@, pos);
                let edge = tail_scale(double::from_int(t@.frames), pos, v.envelope);
                Some(
                    (
                        single::product(single::product(l, v.gain), edge),
                        single::product(single::product(r, v.gain), edge),
                    ),
                )
            },
            _ => None,
        },
    }
}

/// A cell of an output buffer of `stride` channels after a stereo pair was added
/// at channels `offset` and `offset + 1` of its frame.
pub open spec fn added(
    cell: Single,
    i: int,
    stride: nat,
    offset: nat,
    pair: Option<(Single, Single)>,
) -> Single {
    match pair {
        None => cell,
        Some((l, r)) => if i % (stride as int) == offset {
            single::sum(cell, l)
        } else if i % (stride as int) == offset + 1 {
            single::sum(cell, r)
        } else {
            cell
        },
    }
}

/// An output buffer after the deck was mixed into its first `n` frames.
pub open spec fn mixed_frames(
    v: DeckView,
    engine_sr: Single,
    stride: nat,
    offset: nat,
    out: Seq<Single>,
    n: nat,
) -> Seq<Single> {
    Seq::new(
        out.len(),
        |i: int|
            if i / (stride as int) < n {
                added(
                    out[i],
                    i,
                    stride,
                    offset,
                    contribution(v, engine_sr, (i / (stride as int)) as nat),
                )
            } else {
                out[i]
            },
    )
}

/// An output buffer after the deck was mixed into it.
pub open spec fn mixed(
    v: DeckView,
    engine_sr: Single,
    stride: nat,
    offset: nat,
    out: Seq<Single>,
) -> Seq<Single> {
    Seq::new(
        out.len(),
        |i: int|
            added(
                out[i],
                i,
                stride,
                offset,
                contribution(v, engine_sr, (i / (stride as int)) as nat),
            ),
    )
}

/// The deck after a block of `frames` frames.
pub open spec fn rendered(v: DeckView, engine_sr: Single, frames: nat) -> DeckView {
    let faded = faded_frames(v, frames);
    let position = match v.source {
        Some(_) => playhead(v, engine_sr, frames),
        None => playhead(v, engine_sr, faded),
    };
    DeckView {
        position,
        at_end: match v.source {
            Some(t) if v.playing => double::less(position, Double { bits: double::ZERO })
                || double::at_most(double::from_int(t@.frames), position),
            _ => v.at_end,
        },
        fade: match v.fade {
            None => None,
            Some(f) => Some(
                FadeView {
                    position: old_playhead(f, engine_sr, faded),
                    remaining: (f.remaining - faded) as nat,
                    ..f
                },
            ),
        },
        ..v
    }
}

/// The deck with a ramp begun from what it plays now. A track that an earlier
/// ramp still held waits for disposal, unless another one already does; then it
/// is given up.
pub open spec fn with_ramp(v: DeckView) -> DeckView {
    DeckView {
        pending: match v.fade {
            Some(f) if f.source is Some && v.pending is None => f.source,
            _ => v.pending,
        },
        fade: Some(
            FadeView {
                source: v.source,
                position: v.position,
                rate: v.rate,
                playing: v.playing,
                remaining: v.envelope.len(),
            },
        ),
        ..v
    }
}

/// The deck with a track loaded and the playhead at its start.
pub open spec fn with_source(v: DeckView, track: Arc<Track>) -> DeckView {
    DeckView {
        source: Some(track),
        position: Double { bits: double::ZERO },
        at_end: false,
        ..with_ramp(v)
    }
}

/// The deck with another track under its playhead.
pub open spec fn with_swapped_source(v: DeckView, track: Arc<Track>) -> DeckView {
    DeckView { source: Some(track), at_end: false, ..with_ramp(v) }
}

/// Where a playhead comes to stand that is sent to `position`: not past the end of the track.
pub open spec fn landing(source: Option<Arc<Track>>, position: Double) -> Double {
    match source {
        Some(t) if double::less(double::from_int(t@.frames), position) => double::from_int(
            t@.frames,
        ),
        _ => position,
    }
}

/// The deck with its playhead moved.
pub open spec fn with_position(v: DeckView, position: Double) -> DeckView {
    DeckView { position: landing(v.source, position), at_end: false, ..with_ramp(v) }
}

/// The deck started or paused.
pub open spec fn with_playing(v: DeckView, playing: bool) -> DeckView {
    if v.playing == playing {
        v
    } else {
        DeckView { playing, ..with_ramp(v) }
    }
}

/// The deck without the tracks that are ready for disposal.
pub open spec fn swept(v: DeckView) -> DeckView {
    DeckView {
        pending: None,
        fade: match v.fade {
            Some(f) if f.remaining == 0 => None,
            _ => v.fade,
        },
        ..v
    }
}

/// The tracks that are ready for disposal: the one that waits, then the one that
/// a finished ramp faded from.
pub open spec fn swept_tracks(v: DeckView) -> Seq<Arc<Track>> {
    one_or_none(v.pending) + match v.fade {
        Some(f) if f.remaining == 0 => one_or_none(f.source),
        _ => Seq::empty(),
    }
}

/// The item of an option as a sequence.
pub open spec fn one_or_none<T>(x: Option<T>) -> Seq<T> {
    match x {
        Some(t) => seq![t],
        None => Seq::empty(),
    }
}

/// A cell is the one at channel `c` of frame `k`.
pub proof fn lemma_cell(i: int, stride: int, k: int, c: int)
    requires
        0 <= c < stride,
    ensures
        i == k * stride + c <==> i / stride == k && i % stride == c,
{
    if i == k * stride + c {
        lemma_fundamental_div_mod_converse(i, stride, k, c);
    }
    lemma_fundamental_div_mod(i, stride);
    lemma_mul_is_commutative(stride, i / stride);
}

/// Reads a track at a fractional position.
fn read_stereo_at(t: &Track, pos: Double) -> (r: (Single, Single))
    ensures
        r == read_at(t@, pos),
{
    let frames: usize = t.frames();
    let len: Double = Double::from_u64(frames as u64);
    let last_index: usize = if frames == 0 {
        0
    } else {
        frames - 1
    };
    let last: Double = Double::from_u64(last_index as u64);
    if pos.lt(Double { bits: double::ZERO }) || len.le(pos) {
        return (Single { bits: single::ZERO }, Single { bits: single::ZERO });
    }
    let below: Double = pos.trunc();
    let idx: usize = below.to_u64(usize::MAX as u64) as usize;
    let frac: Single = pos.minus(below).narrow();
    let a: [Single; 2] = t.frame(idx);
    let b: [Single; 2] = if below.lt(last) {
        proof {
            lemma_index_below_last(pos, below, idx as nat, last_index as nat);
        }
        t.frame(idx + 1)
    } else {
        a
    };
    let l: Single = a[0].plus(b[0].minus(a[0]).times(frac));
    let r: Single = a[1].plus(b[1].minus(a[1]).times(frac));
    (l, r)
}

/// The scale of a track near its end.
fn track_tail_fade_scale(track_len: Double, pos: Double, env: &DeclickEnvelope) -> (r: Single)
    ensures
        r == tail_scale(track_len, pos, env@),
{
    let n_u: u32 = env.len();
    let n: Double = Double::from_u64(n_u as u64);
    if track_len.lt(Double { bits: TWO }.times(n)) {
        return Single { bits: single::ONE };
    }
    let to_end: Double = track_len.minus(pos);
    if to_end.le(Double { bits: double::ZERO }) {
        return Single { bits: single::ZERO };
    }
    if n.le(to_end) {
        return Single { bits: single::ONE };
    }
    let i: u32 = n.minus(to_end).to_u64(u32::MAX as u64) as u32;
    if i < n_u - 1 {
        env.fade_out(i)
    } else {
        env.fade_out(n_u - 1)
    }
}

/// What one side of a crossfade sounds like.
fn read_side(
    source: &Option<Arc<Track>>,
    playing: bool,
    pos: Double,
    env: &DeclickEnvelope,
) -> (r: (Single, Single))
    ensures
        r == side(*source, playing, pos, env@),
{
    match source {
        Some(t) if playing => {
            let (l, r) = read_stereo_at(t, pos);
            let len: Double = Double::from_u64(t.frames() as u64);
            let edge: Single = track_tail_fade_scale(len, pos, env);
            (l.times(edge), r.times(edge))
        },
        _ => (Single { bits: single::ZERO }, Single { bits: single::ZERO }),
    }
}

/// Where a playhead comes to stand that is sent to `position`.
fn land(source: &Option<Arc<Track>>, position: Double) -> (r: Double)
    ensures
        r == landing(*source, position),
{
    match source {
        Some(track) => {
            let end: Double = Double::from_u64(track.frames() as u64);
            if end.lt(position) {
                end
            } else {
                position
            }
        },
        None => position,
    }
}

/// Track frames per output frame.
fn step_of(source: &Option<Arc<Track>>, rate: Double, engine_sr: Single) -> (r: Double)
    ensures
        r == increment(*source, rate, engine_sr),
{
    match source {
        None => Double { bits: double::ZERO },
        Some(t) => rate.times(Double::from_u64(t.sample_rate() as u64).over(engine_sr.widen())),
    }
}

/// The lower neighbour of a position below the last frame is below it too.
proof fn lemma_index_below_last(pos: Double, below: Double, idx: nat, last: nat)
    requires
        below == double::whole_part(pos),
        idx == double::floor(below, usize::MAX as nat),
        double::less(below, double::from_int(last)),
        last < usize::MAX,
    ensures
        idx < usize::MAX,
{
    if idx >= usize::MAX {
        laws::law_floor_is_not_above(below, usize::MAX as nat, usize::MAX as nat);
        laws::law_from_int_is_monotone(last, usize::MAX as nat);
    }
}

/// The deck after the part of a block that the ramp covers.
spec fn after_fade(v: DeckView, engine_sr: Single, faded: nat) -> DeckView {
    DeckView {
        position: playhead(v, engine_sr, faded),
        fade: match v.fade {
            None => None,
            Some(f) => Some(
                FadeView {
                    position: old_playhead(f, engine_sr, faded),
                    remaining: (f.remaining - faded) as nat,
                    ..f
                },
            ),
        },
        ..v
    }
}

/// A frame lies inside of the buffer.
pub proof fn lemma_frame_in_range(len: nat, stride: nat, k: nat)
    requires
        stride > 0,
        k < len / stride,
    ensures
        (k + 1) * stride <= len,
        k * stride + stride <= len,
{
    lemma_fundamental_div_mod(len as int, stride as int);
    lemma_mod_bound(len as int, stride as int);
    lemma_mul_inequality((k + 1) as int, len as int / stride as int, stride as int);
    lemma_mul_is_commutative(stride as int, len as int / stride as int);
    assert((k + 1) * stride == k * stride + stride) by (nonlinear_arith);
}

/// Every cell belongs to one of the frames.
pub proof fn lemma_frame_of_cell(len: nat, stride: nat, i: int)
    requires
        stride > 0,
        len % stride == 0,
        0 <= i < len,
    ensures
        0 <= i / (stride as int) < len / stride,
{
    let frames = len / stride;
    lemma_div_pos_is_pos(i, stride as int);
    lemma_fundamental_div_mod(len as int, stride as int);
    lemma_mul_is_commutative(stride as int, frames as int);
    lemma_fundamental_div_mod(i, stride as int);
    lemma_mod_bound(i, stride as int);
    lemma_mul_is_commutative(stride as int, i / (stride as int));
    if i / (stride as int) >= frames {
        lemma_mul_inequality(frames as int, i / (stride as int), stride as int);
    }
}

/// A frame has at least two channels.
pub proof fn lemma_two_per_frame(len: nat, stride: nat)
    requires
        stride >= 2,
    ensures
        2 * (len / stride) <= len,
{
    lemma_fundamental_div_mod(len as int, stride as int);
    lemma_mod_bound(len as int, stride as int);
    lemma_mul_inequality(2, stride as int, len as int / stride as int);
}

/// Adding the contribution of frame `k` mixes one frame more.
proof fn lemma_mix_step(
    v: DeckView,
    engine_sr: Single,
    stride: nat,
    offset: nat,
    cells: Seq<Single>,
    k: nat,
    l: Single,
    r: Single,
)
    requires
        contribution(v, engine_sr, k) == Some((l, r)),
        offset + 2 <= stride,
        k * stride + stride <= cells.len(),
    ensures
        ({
            let b = (k * stride + offset) as int;
            let m = mixed_frames(v, engine_sr, stride, offset, cells, k);
            m.update(b, single::sum(m[b], l)).update(
                b + 1,
                single::sum(m[b + 1], r),
            ) == mixed_frames(v, engine_sr, stride, offset, cells, k + 1)
        }),
{
    let b = (k * stride + offset) as int;
    let m = mixed_frames(v, engine_sr, stride, offset, cells, k);
    let n = mixed_frames(v, engine_sr, stride, offset, cells, k + 1);
    let u = m.update(b, single::sum(m[b], l)).update(
        b + 1,
        single::sum(m[b + 1], r),
    );
    assert forall|i: int| 0 <= i < cells.len() implies u[i] == n[i] by {
        lemma_cell(i, stride as int, k as int, offset as int);
        lemma_cell(i, stride as int, k as int, (offset + 1) as int);
    }
    assert(u =~= n);
}

/// A frame with no contribution stays as it is.
proof fn lemma_mix_nothing(
    v: DeckView,
    engine_sr: Single,
    stride: nat,
    offset: nat,
    cells: Seq<Single>,
    a: nat,
    b: nat,
)
    requires
        a <= b,
        stride > 0,
        forall|k: nat| a <= k < b ==> #[trigger] contribution(v, engine_sr, k) is None,
    ensures
        mixed_frames(v, engine_sr, stride, offset, cells, a) == mixed_frames(
            v,
            engine_sr,
            stride,
            offset,
            cells,
            b,
        ),
{
    let m = mixed_frames(v, engine_sr, stride, offset, cells, a);
    let n = mixed_frames(v, engine_sr, stride, offset, cells, b);
    assert forall|i: int| 0 <= i < cells.len() implies m[i] == n[i] by {
        lemma_div_pos_is_pos(i, stride as int);
        let k = (i / (stride as int)) as nat;
        if a <= k < b {
            assert(contribution(v, engine_sr, k) is None);
        }
    }
    assert(m =~= n);
}

/// Mixing every frame mixes the buffer.
proof fn lemma_all_frames(
    v: DeckView,
    engine_sr: Single,
    stride: nat,
    offset: nat,
    cells: Seq<Single>,
)
    requires
        stride > 0,
        cells.len() % stride == 0,
    ensures
        mixed_frames(v, engine_sr, stride, offset, cells, cells.len() / stride) == mixed(
            v,
            engine_sr,
            stride,
            offset,
            cells,
        ),
{
    let frames = cells.len() / stride;
    let m = mixed_frames(v, engine_sr, stride, offset, cells, frames);
    let n = mixed(v, engine_sr, stride, offset, cells);
    assert forall|i: int| 0 <= i < cells.len() implies m[i] == n[i] by {
        lemma_frame_of_cell(cells.len(), stride, i);
    }
    assert(m =~= n);
}

impl Fade {
    spec fn view(&self) -> FadeView {
        FadeView {
            source: self.source,
            position: self.position,
            rate: self.rate,
            playing: self.playing,
            remaining: self.remaining as nat,
        }
    }
}

impl Deck {
    pub closed spec fn view(&self) -> DeckView {
        DeckView {
            source: self.source,
            position: self.position,
            rate: self.rate,
            gain: self.gain,
            playing: self.playing,
            at_end: self.at_end,
            panic_play: self.panic_play,
            board: self.display.board(),
            envelope: self.envelope@,
            fade: match self.fade {
                None => None,
                Some(f) => Some(f@),
            },
            pending: self.pending_disposal,
        }
    }

    /// What other threads were last shown.
    pub closed spec fn shown(&self) -> Shown {
        self.display.last()
    }

    /// The invariant of a deck: it shows its transport as it is.
    pub open spec fn wf(&self) -> bool {
        &&& well_formed(self@)
        &&& self.shown() == shown_of(self@)
    }

    /// An empty deck.
    pub fn new(envelope: Arc<DeclickEnvelope>) -> (r: Self)
        ensures
            r.wf(),
            r@ == fresh(envelope@, r@.board),
    {
        let len: u32 = envelope.len();
        assert(declick::MIN_RAMP_SAMPLES <= envelope@.len() == len);
        Deck {
            source: None,
            position: Double { bits: double::ZERO },
            rate: Double { bits: double::ONE },
            gain: Single { bits: single::ONE },
            playing: false,
            at_end: false,
            panic_play: false,
            display: Display::new(),
            envelope,
            fade: None,
            pending_disposal: None,
        }
    }

    /// What other threads see of the deck.
    pub fn shared(&self) -> (r: Arc<DeckSharedState>)
        ensures
            r == self@.board,
    {
        self.display.share()
    }

    /// Shows the transport to other threads.
    fn publish(&mut self)
        ensures
            final(self)@ == old(self)@,
            final(self).shown() == shown_of(old(self)@),
    {
        self.display.show(
            Shown {
                position: self.position,
                playing: self.playing,
                at_end: self.at_end,
                panic_play: self.panic_play,
            },
        );
    }

    /// Begins a ramp from what the deck plays now.
    fn start_declick(&mut self)
        requires
            old(self).wf(),
        ensures
            final(self).wf(),
            final(self)@ == with_ramp(old(self)@),
    {
        let n: u32 = self.envelope.len();
        let stranded: Option<Arc<Track>> = match self.fade.take() {
            None => None,
            Some(f) => f.source,
        };
        match stranded {
            None => {},
            Some(track) => {
                if self.pending_disposal.is_none() {
                    self.pending_disposal = Some(track);
                } else {
                    core::mem::forget(track);
                }
            },
        }
        let source: Option<Arc<Track>> = match &self.source {
            None => None,
            Some(t) => Some(t.clone()),
        };
        self.fade =
        Some(
            Fade {
                source,
                position: self.position,
                rate: self.rate,
                playing: self.playing,
                remaining: n,
            },
        );
    }

    /// Loads a track and moves the playhead to its start.
    pub fn set_source(&mut self, track: Arc<Track>)
        requires
            old(self).wf(),
        ensures
            final(self).wf(),
            final(self)@ == with_source(old(self)@, track),
    {
        self.start_declick();
        self.source = Some(track);
        self.position = Double { bits: double::ZERO };
        self.at_end = false;
        self.publish();
    }

    /// Puts another track under the playhead, which stays where it is.
    pub fn swap_source(&mut self, track: Arc<Track>)
        requires
            old(self).wf(),
        ensures
            final(self).wf(),
            final(self)@ == with_swapped_source(old(self)@, track),
    {
        self.start_declick();
        self.source = Some(track);
        self.at_end = false;
        self.publish();
    }

    /// Unloads the track.
    pub fn clear_source(&mut self)
        requires
            old(self).wf(),
        ensures
            final(self).wf(),
            final(self)@ == (DeckView {
                source: None,
                position: Double { bits: double::ZERO },
                at_end: false,
                ..with_ramp(old(self)@)
            }),
    {
        self.start_declick();
        self.source = None;
        self.position = Double { bits: double::ZERO };
        self.at_end = false;
        self.publish();
    }

    /// Takes the track that waits for disposal.
    pub fn take_pending_disposal(&mut self) -> (r: Option<Arc<Track>>)
        requires
            old(self).wf(),
        ensures
            final(self).wf(),
            r == old(self)@.pending,
            final(self)@ == (DeckView { pending: None, ..old(self)@ }),
    {
        self.pending_disposal.take()
    }

    /// Ends a ramp that has run out, and takes the track it faded from.
    pub fn take_finished_declick_source(&mut self) -> (r: Option<Arc<Track>>)
        requires
            old(self).wf(),
        ensures
            final(self).wf(),
            match old(self)@.fade {
                Some(f) if f.remaining == 0 => {
                    &&& r == f.source
                    &&& final(self)@ == (DeckView { fade: None, ..old(self)@ })
                },
                _ => r is None && final(self)@ == old(self)@,
            },
    {
        let finished: bool = match &self.fade {
            Some(f) => f.remaining == 0,
            None => false,
        };
        if finished {
            match self.fade.take() {
                Some(f) => f.source,
                None => None,
            }
        } else {
            None
        }
    }

    /// Cuts any ramp short and gives up the tracks that it held.
    pub fn quiesce_declick(&mut self)
        requires
            old(self).wf(),
        ensures
            final(self).wf(),
            final(self)@ == (DeckView { fade: None, pending: None, ..old(self)@ }),
    {
        self.fade = None;
        self.pending_disposal = None;
    }

    /// The loaded track.
    pub fn source(&self) -> (r: Option<&Arc<Track>>)
        ensures
            match r {
                Some(t) => self@.source == Some(*t),
                None => self@.source is None,
            },
    {
        self.source.as_ref()
    }

    /// The playback rate.
    pub fn rate(&self) -> (r: Double)
        ensures
            r == self@.rate,
    {
        self.rate
    }

    /// Sets the playback rate: one plays at the speed of the track, a negative
    /// rate plays backward, zero stands still.
    pub fn set_rate(&mut self, rate: Double)
        requires
            old(self).wf(),
        ensures
            final(self).wf(),
            final(self)@ == (DeckView { rate, ..old(self)@ }),
    {
        self.rate = rate;
    }

    /// The playhead in track frames.
    pub fn position_frames(&self) -> (r: Double)
        ensures
            r == self@.position,
    {
        self.position
    }

    /// Moves the playhead, at most to the end of the track where there is one.
    pub fn set_position_frames(&mut self, position: Double)
        requires
            old(self).wf(),
        ensures
            final(self).wf(),
            final(self)@ == with_position(old(self)@, position),
    {
        self.start_declick();
        self.position = land(&self.source, position);
        self.at_end = false;
        self.publish();
    }

    /// The linear gain.
    pub fn gain(&self) -> (r: Single)
        ensures
            r == self@.gain,
    {
        self.gain
    }

    /// Sets the linear gain.
    pub fn set_gain(&mut self, gain: Single)
        requires
            old(self).wf(),
        ensures
            final(self).wf(),
            final(self)@ == (DeckView { gain, ..old(self)@ }),
    {
        self.gain = gain;
    }

    /// Whether the deck plays.
    pub fn is_playing(&self) -> (r: bool)
        ensures
            r == self@.playing,
    {
        self.playing
    }

    /// Whether the playhead has left the track.
    pub fn is_at_end(&self) -> (r: bool)
        ensures
            r == self@.at_end,
    {
        self.at_end
    }

    /// Starts or pauses; a change begins a ramp.
    pub fn set_playing(&mut self, playing: bool)
        requires
            old(self).wf(),
        ensures
            final(self).wf(),
            final(self)@ == with_playing(old(self)@, playing),
    {
        if self.playing != playing {
            self.start_declick();
        }
        self.playing = playing;
        self.publish();
    }

    /// Shows whether the deck holds its rate on its own.
    pub fn set_panic_play_visible(&mut self, panic: bool)
        requires
            old(self).wf(),
        ensures
            final(self).wf(),
            final(self)@ == (DeckView { panic_play: panic, ..old(self)@ }),
    {
        self.panic_play = panic;
        self.publish();
    }

    /// Mixes the part of a block that the ramp in flight covers.
    fn render_fade(
        &mut self,
        out: &mut [Single],
        engine_sr: Single,
        stride: usize,
        offset: usize,
        frames: usize,
    ) -> (faded: usize)
        requires
            well_formed(old(self)@),
            stride >= 2,
            offset + 2 <= stride,
            frames == old(out)@.len() / (stride as nat),
        ensures
            well_formed(final(self)@),
            faded == faded_frames(old(self)@, frames as nat),
            final(self)@ == after_fade(old(self)@, engine_sr, faded as nat),
            final(out)@ == mixed_frames(
                old(self)@,
                engine_sr,
                stride as nat,
                offset as nat,
                old(out)@,
                faded as nat,
            ),
    {
        let ghost v = self@;
        let ghost cells = out@;
        let len: usize = out.len();
        assert(cells.len() == len);
        proof {
            let m = mixed_frames(v, engine_sr, stride as nat, offset as nat, cells, 0);
            assert forall|i: int| 0 <= i < cells.len() implies m[i] == cells[i] by {
                lemma_div_pos_is_pos(i, stride as int);
            }
            assert(m =~= cells);
        }
        let mut f: Fade = match self.fade.take() {
            None => {
                return 0;
            },
            Some(f) => f,
        };
        let ghost fv = f@;
        let total: u32 = self.envelope.len();
        let faded: usize = if (f.remaining as usize) < frames {
            f.remaining as usize
        } else {
            frames
        };
        let old_step: Double = step_of(&f.source, f.rate, engine_sr);
        let new_step: Double = step_of(&self.source, self.rate, engine_sr);
        let gain: Single = self.gain;
        let mut pos: Double = self.position;
        let mut k: usize = 0;
        while k < faded
            invariant
                k <= faded <= frames,
                faded <= fv.remaining <= total,
                total == self.envelope@.len(),
                frames == cells.len() / (stride as nat),
                cells.len() <= usize::MAX,
                stride >= 2,
                offset + 2 <= stride,
                v.fade == Some(fv),
                v.envelope == self.envelope@,
                v.source == self.source,
                v.playing == self.playing,
                v.gain == gain,
                old_step == increment(fv.source, fv.rate, engine_sr),
                new_step == increment(v.source, v.rate, engine_sr),
                pos == playhead(v, engine_sr, k as nat),
                f@ == (FadeView {
                    position: old_playhead(fv, engine_sr, k as nat),
                    remaining: (fv.remaining - k) as nat,
                    ..fv
                }),
                out@ == mixed_frames(
                    v,
                    engine_sr,
                    stride as nat,
                    offset as nat,
                    cells,
                    k as nat,
                ),
            decreases faded - k,
        {
            let w: Single = self.envelope.fade_in(total - f.remaining);
            let u: Single = Single { bits: single::ONE }.minus(w);
            let (old_l, old_r) = read_side(&f.source, f.playing, f.position, &self.envelope);
            let (new_l, new_r) = read_side(&self.source, self.playing, pos, &self.envelope);
            let l: Single = old_l.times(u).plus(new_l.times(w)).times(gain);
            let r: Single = old_r.times(u).plus(new_r.times(w)).times(gain);
            proof {
                lemma_frame_in_range(cells.len(), stride as nat, k as nat);
                lemma_mix_step(
                    v,
                    engine_sr,
                    stride as nat,
                    offset as nat,
                    cells,
                    k as nat,
                    l,
                    r,
                );
            }
            let base: usize = k * stride + offset;
            out[base] = out[base].plus(l);
            out[base + 1] = out[base + 1].plus(r);
            if f.playing {
                f.position = f.position.plus(old_step);
            }
            if self.playing {
                pos = pos.plus(new_step);
            }
            f.remaining = f.remaining - 1;
            k = k + 1;
        }
        self.position = pos;
        self.fade = Some(f);
        faded
    }

    /// Mixes the part of a block after the ramp.
    fn render_steady(
        &mut self,
        out: &mut [Single],
        engine_sr: Single,
        stride: usize,
        offset: usize,
        frames: usize,
        faded: usize,
        Ghost(v): Ghost<DeckView>,
        Ghost(cells): Ghost<Seq<Single>>,
    )
        requires
            well_formed(old(self)@),
            well_formed(v),
            stride >= 2,
            offset + 2 <= stride,
            frames == cells.len() / (stride as nat),
            cells.len() <= usize::MAX,
            faded == faded_frames(v, frames as nat),
            old(self)@ == after_fade(v, engine_sr, faded as nat),
            old(out)@ == mixed_frames(
                v,
                engine_sr,
                stride as nat,
                offset as nat,
                cells,
                faded as nat,
            ),
        ensures
            well_formed(final(self)@),
            final(self)@ == rendered(v, engine_sr, frames as nat),
            final(out)@ == mixed_frames(
                v,
                engine_sr,
                stride as nat,
                offset as nat,
                cells,
                frames as nat,
            ),
    {
        if self.playing {
            match &self.source {
                Some(track) => {
                    let len: Double = Double::from_u64(track.frames() as u64);
                    let step: Double = step_of(&self.source, self.rate, engine_sr);
                    let mut pos: Double = self.position;
                    let mut k: usize = faded;
                    while k < frames
                        invariant
                            faded <= k <= frames,
                            faded == faded_frames(v, frames as nat),
                            frames == cells.len() / (stride as nat),
                            cells.len() <= usize::MAX,
                            stride >= 2,
                            offset + 2 <= stride,
                            v.playing,
                            v.source == Some(*track),
                            v.envelope == self.envelope@,
                            v.gain == self.gain,
                            len == double::from_int(track@.frames),
                            step == increment(v.source, v.rate, engine_sr),
                            pos == playhead(v, engine_sr, k as nat),
                            out@ == mixed_frames(
                                v,
                                engine_sr,
                                stride as nat,
                                offset as nat,
                                cells,
                                k as nat,
                            ),
                        decreases frames - k,
                    {
                        let (l, r) = read_stereo_at(track, pos);
                        let edge: Single = track_tail_fade_scale(len, pos, &self.envelope);
                        let l: Single = l.times(self.gain).times(edge);
                        let r: Single = r.times(self.gain).times(edge);
                        proof {
                            lemma_frame_in_range(cells.len(), stride as nat, k as nat);
                            lemma_mix_step(
                                v,
                                engine_sr,
                                stride as nat,
                                offset as nat,
                                cells,
                                k as nat,
                                l,
                                r,
                            );
                        }
                        let base: usize = k * stride + offset;
                        out[base] = out[base].plus(l);
                        out[base + 1] = out[base + 1].plus(r);
                        pos = pos.plus(step);
                        k = k + 1;
                    }
                    let off: bool = pos.lt(Double { bits: double::ZERO }) || len.le(pos);
                    self.position = pos;
                    self.at_end = off;
                    return ;
                },
                None => {},
            }
        }
        proof {
            lemma_mix_nothing(
                v,
                engine_sr,
                stride as nat,
                offset as nat,
                cells,
                faded as nat,
                frames as nat,
            );
        }
    }

    /// Mixes one block into a stereo buffer.
    pub fn render(&mut self, out: &mut [Single], engine_sr: Single)
        requires
            old(self).wf(),
            old(out)@.len() % 2 == 0,
        ensures
            final(self).wf(),
            final(self)@ == rendered(old(self)@, engine_sr, old(out)@.len() / 2),
            final(out)@ == mixed(old(self)@, engine_sr, 2, 0, old(out)@),
    {
        self.render_into(out, engine_sr, 2, 0);
    }

    /// Mixes one block into the channels `offset` and `offset + 1` of a buffer of
    /// `stride` channels.
    pub fn render_into(&mut self, out: &mut [Single], engine_sr: Single, stride: usize, offset: usize)
        requires
            old(self).wf(),
            stride >= 2,
            offset + 2 <= stride,
            old(out)@.len() % (stride as nat) == 0,
        ensures
            final(self).wf(),
            final(self)@ == rendered(
                old(self)@,
                engine_sr,
                old(out)@.len() / (stride as nat),
            ),
            final(out)@ == mixed(
                old(self)@,
                engine_sr,
                stride as nat,
                offset as nat,
                old(out)@,
            ),
    {
        let ghost v = self@;
        let ghost cells = out@;
        let frames: usize = out.len() / stride;
        let faded: usize = self.render_fade(out, engine_sr, stride, offset, frames);
        self.render_steady(
            out,
            engine_sr,
            stride,
            offset,
            frames,
            faded,
            Ghost(v),
            Ghost(cells),
        );
        self.publish();
        proof {
            lemma_all_frames(v, engine_sr, stride as nat, offset as nat, cells);
        }
    }
}

} // verus!
