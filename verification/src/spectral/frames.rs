//! The spectrum of a waveform, frame by frame.
//!
//! The transform and the logarithm come from outside. What is said here holds
//! whatever they return.

use vstd::prelude::*;

use crate::ieee::single;
use crate::ieee::single::Single;
use crate::spectral::bands;

verus! {

/// Bins of the spectrum of one frame.
pub const HALF_SPECTRUM: usize = 513;

/// Bits of one half.
pub const HALF: u32 = 0x3f00_0000;

/// Bits of twice pi in single precision.
pub const TAU: u32 = 0x40c9_0fdb;

/// Bits of the factor of the magnitudes before they are compressed: 1000.
pub const LAMBDA: u32 = 0x447a_0000;

/// The angle of weight `i` of the window.
pub open spec fn phase(i: int) -> Single {
    single::quotient(
        single::product(Single { bits: TAU }, single::from_int(i as nat)),
        single::from_int(bands::FRAME_SIZE as nat),
    )
}

/// The weight of the window for a cosine.
pub open spec fn weight(cosine: Single) -> Single {
    single::product(
        Single { bits: HALF },
        single::difference(Single { bits: single::ONE }, cosine),
    )
}

/// Weight `i` is that of the cosine of its angle.
pub open spec fn is_weight<C: Fn(Single) -> Single>(cos: C, i: int, w: Single) -> bool {
    exists|c: Single| #[trigger] call_ensures(cos, (phase(i),), c) && w == weight(c)
}

/// The weights of the window.
pub open spec fn is_window<C: Fn(Single) -> Single>(cos: C, window: Seq<Single>) -> bool {
    &&& window.len() == bands::FRAME_SIZE
    &&& forall|i: int| 0 <= i < window.len() ==> is_weight(cos, i, #[trigger] window[i])
}

/// Samples under the window.
pub open spec fn windowed(samples: Seq<Single>, window: Seq<Single>) -> Seq<Single> {
    Seq::new(samples.len(), |i: int| single::product(samples[i], window[i]))
}

/// The transform gives these magnitudes for these samples.
pub open spec fn is_spectrum<M: Fn(&[Single]) -> Vec<Single>>(
    fft: M,
    samples: Seq<Single>,
    magnitudes: Seq<Single>,
) -> bool {
    exists|s: &[Single], m: Vec<Single>| #[trigger]
        call_ensures(fft, (s,), m) && s@ == samples && m@ == magnitudes
}

/// A bin lies in one of the bands.
pub open spec fn in_bands(layout: Seq<(usize, usize)>, b: int) -> bool {
    exists|k: int| 0 <= k < layout.len() && (#[trigger] layout[k]).0 <= b < layout[k].1
}

/// A magnitude before its logarithm is taken.
pub open spec fn loudness(magnitude: Single) -> Single {
    single::sum(
        Single { bits: single::ONE },
        single::product(Single { bits: LAMBDA }, magnitude),
    )
}

/// The compressed magnitudes: the logarithms of the loudness in the bands, zero
/// elsewhere.
pub open spec fn compressed<L: Fn(Single) -> Single>(
    ln: L,
    layout: Seq<(usize, usize)>,
    magnitudes: Seq<Single>,
    frame: Seq<Single>,
) -> bool {
    &&& frame.len() == HALF_SPECTRUM
    &&& forall|b: int|
        0 <= b < frame.len() ==> if in_bands(layout, b) {
            call_ensures(ln, (loudness(magnitudes[b]),), #[trigger] frame[b])
        } else {
            frame[b] == (Single { bits: single::ZERO })
        }
}

/// `frame` is the frame of one window of samples.
pub open spec fn is_frame<M: Fn(&[Single]) -> Vec<Single>, L: Fn(Single) -> Single>(
    fft: M,
    ln: L,
    v: StreamView,
    samples: Seq<Single>,
    frame: Seq<Single>,
) -> bool {
    exists|magnitudes: Seq<Single>| #[trigger]
        is_spectrum(fft, windowed(samples, v.window), magnitudes) && compressed(
            ln,
            v.bands,
            magnitudes,
            frame,
        )
}

/// How many frames start in `len` samples.
pub open spec fn frame_count(len: nat) -> nat {
    if len < bands::FRAME_SIZE {
        0
    } else {
        ((len - bands::FRAME_SIZE) / (bands::HOP_SIZE as int) + 1) as nat
    }
}

/// The samples of frame `k`.
pub open spec fn frame_samples(all: Seq<Single>, k: int) -> Seq<Single> {
    all.subrange(k * bands::HOP_SIZE, k * bands::HOP_SIZE + bands::FRAME_SIZE)
}

/// The state of a stream of frames.
#[verifier::ext_equal]
pub ghost struct StreamView {
    pub bands: Seq<(usize, usize)>,
    pub window: Seq<Single>,
    /// The samples from the start of the next frame on.
    pub pending: Seq<Single>,
}

/// A stream after it was given a block.
pub open spec fn given(v: StreamView, block: Seq<Single>) -> StreamView {
    let all = v.pending + block;
    StreamView { pending: all.skip(frame_count(all.len()) * bands::HOP_SIZE), ..v }
}

/// `frames` are the frames that a block completes.
pub open spec fn are_frames<M: Fn(&[Single]) -> Vec<Single>, L: Fn(Single) -> Single>(
    fft: M,
    ln: L,
    v: StreamView,
    block: Seq<Single>,
    frames: Seq<Vec<Single>>,
) -> bool {
    let all = v.pending + block;
    &&& frames.len() == frame_count(all.len())
    &&& forall|k: int|
        0 <= k < frames.len() ==> is_frame(fft, ln, v, frame_samples(all, k), #[trigger] frames[k]@)
}

/// The bands of a sample rate.
pub open spec fn is_layout(sample_rate: u32, layout: Seq<(usize, usize)>) -> bool {
    &&& layout.len() == bands::NUM_BANDS
    &&& forall|k: int|
        0 <= k < layout.len() ==> (
        (#[trigger] layout[k]).0 as nat,
        layout[k].1 as nat,
    ) == bands::band(sample_rate, HALF_SPECTRUM as nat, k)
}

/// The bands lie in the spectrum, one after the other, each with a bin, and the window
/// covers a frame.
pub open spec fn well_formed(v: StreamView) -> bool {
    &&& v.bands.len() == bands::NUM_BANDS
    &&& forall|k: int|
        0 <= k < v.bands.len() ==> (#[trigger] v.bands[k]).0 < v.bands[k].1 <= HALF_SPECTRUM
    &&& forall|k: int| 0 <= k < v.bands.len() - 1 ==> (#[trigger] v.bands[k]).1 == v.bands[k + 1].0
    &&& v.window.len() == bands::FRAME_SIZE
    &&& v.pending.len() < bands::FRAME_SIZE
}

/// It does not matter in which blocks a stream is given its samples: the frames of
/// two blocks are those of one block of both.
pub proof fn law_blocks_do_not_matter<M: Fn(&[Single]) -> Vec<Single>, L: Fn(Single) -> Single>(
    fft: M,
    ln: L,
    v: StreamView,
    a: Seq<Single>,
    b: Seq<Single>,
    first: Seq<Vec<Single>>,
    second: Seq<Vec<Single>>,
)
    requires
        are_frames(fft, ln, v, a, first),
        are_frames(fft, ln, given(v, a), b, second),
    ensures
        given(given(v, a), b) == given(v, a + b),
        are_frames(fft, ln, v, a + b, first + second),
{
    let start = v.pending + a;
    let all = v.pending + (a + b);
    let left = given(v, a).pending;
    let m = first.len();
    assert(all =~= start + b);
    assert(left + b =~= all.skip((m * bands::HOP_SIZE) as int));
    assert(frame_count(all.len()) == m + frame_count((left + b).len()));
    assert forall|k: int| 0 <= k < (first + second).len() implies is_frame(
        fft,
        ln,
        v,
        frame_samples(all, k),
        #[trigger] (first + second)[k]@,
    ) by {
        if k < m {
            assert(frame_samples(all, k) =~= frame_samples(start, k));
            assert((first + second)[k] == first[k]);
        } else {
            assert(frame_samples(all, k) =~= frame_samples(left + b, k - m));
            assert((first + second)[k] == second[k - m]);
        }
    }
    assert(given(given(v, a), b).pending =~= given(v, a + b).pending);
}

/// `f` gives one result for each argument.
pub open spec fn is_function<F: Fn(Single) -> Single>(f: F) -> bool {
    forall|x: Single, a: Single, b: Single|
        #![trigger call_ensures(f, (x,), a), call_ensures(f, (x,), b)]
        call_ensures(f, (x,), a) && call_ensures(f, (x,), b) ==> a == b
}

/// `fft` gives the same magnitudes for the same samples.
pub open spec fn is_transform<M: Fn(&[Single]) -> Vec<Single>>(fft: M) -> bool {
    forall|s: &[Single], t: &[Single], m: Vec<Single>, n: Vec<Single>|
        #![trigger call_ensures(fft, (s,), m), call_ensures(fft, (t,), n)]
        s@ == t@ && call_ensures(fft, (s,), m) && call_ensures(fft, (t,), n) ==> m@ == n@
}

/// A cosine that is a function gives one window.
proof fn lemma_one_window<C: Fn(Single) -> Single>(cos: C, a: Seq<Single>, b: Seq<Single>)
    requires
        is_function(cos),
        is_window(cos, a),
        is_window(cos, b),
    ensures
        a == b,
{
    assert forall|i: int| 0 <= i < a.len() implies a[i] == b[i] by {
        assert(is_weight(cos, i, a[i]));
        assert(is_weight(cos, i, b[i]));
    }
    assert(a =~= b);
}

/// A sample rate has one layout.
proof fn lemma_one_layout(sample_rate: u32, a: Seq<(usize, usize)>, b: Seq<(usize, usize)>)
    requires
        is_layout(sample_rate, a),
        is_layout(sample_rate, b),
    ensures
        a == b,
{
    assert forall|k: int| 0 <= k < a.len() implies a[k] == b[k] by {
        assert((a[k].0 as nat, a[k].1 as nat) == (b[k].0 as nat, b[k].1 as nat));
    }
    assert(a =~= b);
}

/// Functions give one frame for some samples.
proof fn lemma_one_frame<M: Fn(&[Single]) -> Vec<Single>, L: Fn(Single) -> Single>(
    fft: M,
    ln: L,
    v: StreamView,
    samples: Seq<Single>,
    a: Seq<Single>,
    b: Seq<Single>,
)
    requires
        is_transform(fft),
        is_function(ln),
        is_frame(fft, ln, v, samples, a),
        is_frame(fft, ln, v, samples, b),
    ensures
        a == b,
{
    let w = windowed(samples, v.window);
    let m = choose|m: Seq<Single>| #[trigger]
        is_spectrum(fft, w, m) && compressed(ln, v.bands, m, a);
    let n = choose|n: Seq<Single>| #[trigger]
        is_spectrum(fft, w, n) && compressed(ln, v.bands, n, b);
    assert(m == n);
    assert forall|k: int| 0 <= k < a.len() implies a[k] == b[k] by {
        if in_bands(v.bands, k) {
            assert(call_ensures(ln, (loudness(m[k]),), a[k]));
            assert(call_ensures(ln, (loudness(m[k]),), b[k]));
        }
    }
    assert(a =~= b);
}

/// Where the functions that are handed in depend on their arguments alone, a stream at a sample
/// rate gives one sequence of frames for some samples.
pub proof fn law_frames_are_determined<
    C: Fn(Single) -> Single,
    M: Fn(&[Single]) -> Vec<Single>,
    L: Fn(Single) -> Single,
>(
    cos: C,
    fft: M,
    ln: L,
    sample_rate: u32,
    v: StreamView,
    w: StreamView,
    samples: Seq<Single>,
    x: Seq<Vec<Single>>,
    y: Seq<Vec<Single>>,
)
    requires
        is_function(cos),
        is_transform(fft),
        is_function(ln),
        is_layout(sample_rate, v.bands),
        is_layout(sample_rate, w.bands),
        is_window(cos, v.window),
        is_window(cos, w.window),
        v.pending == w.pending,
        are_frames(fft, ln, v, samples, x),
        are_frames(fft, ln, w, samples, y),
    ensures
        v == w,
        x.len() == y.len(),
        forall|k: int| #![auto] 0 <= k < x.len() ==> x[k]@ == y[k]@,
{
    lemma_one_window(cos, v.window, w.window);
    lemma_one_layout(sample_rate, v.bands, w.bands);
    let all = v.pending + samples;
    assert forall|k: int| #![auto] 0 <= k < x.len() implies x[k]@ == y[k]@ by {
        lemma_one_frame(fft, ln, v, frame_samples(all, k), x[k]@, y[k]@);
    }
}

/// A stream keeps the samples of the next frame that it was given, fewer than a
/// frame, and has emitted one frame per hop.
pub proof fn law_frames_come_at_the_hop(v: StreamView, block: Seq<Single>)
    requires
        v.pending.len() < bands::FRAME_SIZE,
    ensures
        given(v, block).pending.len() < bands::FRAME_SIZE,
        frame_count((v.pending + block).len()) * bands::HOP_SIZE + given(v, block).pending.len()
            == v.pending.len() + block.len(),
{
}

/// A stream of frames.
pub struct SpectralFrameStream {
    input_buffer: Vec<Single>,
    window: Vec<Single>,
    bands: [(usize, usize); 8],
}

/// The compressed magnitudes of one frame.
pub fn compress<L: Fn(Single) -> Single>(
    magnitudes: &[Single],
    layout: &[(usize, usize); 8],
    ln: &L,
) -> (r: Vec<Single>)
    requires
        magnitudes@.len() == HALF_SPECTRUM,
        forall|k: int|
            0 <= k < bands::NUM_BANDS ==> (#[trigger] layout@[k]).0 <= layout@[k].1
                <= HALF_SPECTRUM,
        forall|x: Single| call_requires(*ln, (x,)),
    ensures
        compressed(*ln, layout@, magnitudes@, r@),
{
    let mut frame: Vec<Single> = vec![Single { bits: single::ZERO }; HALF_SPECTRUM];
    let ghost none = layout@.take(0);
    let mut k: usize = 0;
    while k < bands::NUM_BANDS
        invariant
            k <= bands::NUM_BANDS,
            layout@.len() == bands::NUM_BANDS,
            magnitudes@.len() == HALF_SPECTRUM,
            forall|j: int|
                0 <= j < bands::NUM_BANDS ==> (#[trigger] layout@[j]).0 <= layout@[j].1
                    <= HALF_SPECTRUM,
            forall|x: Single| call_requires(*ln, (x,)),
            compressed(*ln, layout@.take(k as int), magnitudes@, frame@),
        decreases bands::NUM_BANDS - k,
    {
        let (lo, hi) = layout[k];
        let ghost before = layout@.take(k as int);
        let ghost after = layout@.take(k + 1);
        let mut b: usize = lo;
        while b < hi
            invariant
                lo <= b <= hi <= HALF_SPECTRUM,
                magnitudes@.len() == HALF_SPECTRUM,
                frame@.len() == HALF_SPECTRUM,
                forall|x: Single| call_requires(*ln, (x,)),
                forall|i: int|
                    0 <= i < HALF_SPECTRUM ==> if in_bands(before, i) || lo <= i < b {
                        call_ensures(*ln, (loudness(magnitudes@[i]),), #[trigger] frame@[i])
                    } else {
                        frame@[i] == (Single { bits: single::ZERO })
                    },
            decreases hi - b,
        {
            let x: Single = Single { bits: single::ONE }.plus(
                Single { bits: LAMBDA }.times(magnitudes[b]),
            );
            let y: Single = (*ln)(x);
            frame.set(b, y);
            b = b + 1;
        }
        proof {
            assert forall|i: int| #[trigger] in_bands(after, i) <==> in_bands(before, i) || lo <= i
                < hi by {
                if in_bands(after, i) {
                    let j = choose|j: int|
                        0 <= j < after.len() && (#[trigger] after[j]).0 <= i < after[j].1;
                    if j < k {
                        assert(before[j] == after[j]);
                    }
                }
                if in_bands(before, i) {
                    let j = choose|j: int|
                        0 <= j < before.len() && (#[trigger] before[j]).0 <= i < before[j].1;
                    assert(after[j] == before[j]);
                }
                if lo <= i < hi {
                    assert(after[k as int] == (lo, hi));
                }
            }
        }
        k = k + 1;
    }
    assert(layout@.take(bands::NUM_BANDS as int) =~= layout@);
    frame
}

impl SpectralFrameStream {
    pub closed spec fn view(&self) -> StreamView {
        StreamView {
            bands: self.bands@,
            window: self.window@,
            pending: self.input_buffer@,
        }
    }

    /// A stream at a sample rate.
    pub fn new<C: Fn(Single) -> Single>(sample_rate: u32, cos: &C) -> (r: Self)
        requires
            forall|x: Single| call_requires(*cos, (x,)),
        ensures
            well_formed(r@),
            is_layout(sample_rate, r@.bands),
            is_window(*cos, r@.window),
            r@.pending == Seq::<Single>::empty(),
    {
        let mut window: Vec<Single> = Vec::new();
        let one = Single { bits: single::ONE };
        let size: Single = Single::from_u64(bands::FRAME_SIZE as u64);
        let mut i: usize = 0;
        while i < bands::FRAME_SIZE
            invariant
                i <= bands::FRAME_SIZE,
                window@.len() == i,
                one == (Single { bits: single::ONE }),
                size == single::from_int(bands::FRAME_SIZE as nat),
                forall|x: Single| call_requires(*cos, (x,)),
                forall|j: int| 0 <= j < i ==> is_weight(*cos, j, #[trigger] window@[j]),
            decreases bands::FRAME_SIZE - i,
        {
            let angle: Single = Single { bits: TAU }.times(Single::from_u64(i as u64)).over(size);
            assert(angle == phase(i as int));
            let c: Single = (*cos)(angle);
            window.push(Single { bits: HALF }.times(one.minus(c)));
            assert(is_weight(*cos, i as int, window@[i as int]));
            i = i + 1;
        }
        SpectralFrameStream {
            input_buffer: Vec::new(),
            window,
            bands: bands::compute_band_bins(sample_rate, HALF_SPECTRUM),
        }
    }

    /// Samples per frame.
    pub fn frame_size(&self) -> (r: usize)
        ensures
            r == bands::FRAME_SIZE,
    {
        bands::FRAME_SIZE
    }

    /// Samples between the starts of consecutive frames.
    pub fn hop_size(&self) -> (r: usize)
        ensures
            r == bands::HOP_SIZE,
    {
        bands::HOP_SIZE
    }

    /// Bins of the spectrum of one frame.
    pub fn half_spectrum_size(&self) -> (r: usize)
        ensures
            r == HALF_SPECTRUM,
            r == bands::FRAME_SIZE / 2 + 1,
    {
        HALF_SPECTRUM
    }

    /// The bands.
    pub fn bands(&self) -> (r: &[(usize, usize); 8])
        ensures
            r@ == self@.bands,
    {
        &self.bands
    }

    /// One frame, from the sample `start` of the buffer on.
    fn frame_at<M: Fn(&[Single]) -> Vec<Single>, L: Fn(Single) -> Single>(
        &self,
        start: usize,
        fft: &M,
        ln: &L,
    ) -> (r: Vec<Single>)
        requires
            start + bands::FRAME_SIZE <= self@.pending.len(),
            self@.window.len() == bands::FRAME_SIZE,
            self@.bands.len() == bands::NUM_BANDS,
            forall|k: int|
                0 <= k < self@.bands.len() ==> (#[trigger] self@.bands[k]).0 <= self@.bands[k].1
                    <= HALF_SPECTRUM,
            forall|s: &[Single]| s@.len() == bands::FRAME_SIZE ==> call_requires(*fft, (s,)),
            forall|s: &[Single], m: Vec<Single>|
                s@.len() == bands::FRAME_SIZE && call_ensures(*fft, (s,), m) ==> m@.len()
                    == HALF_SPECTRUM,
            forall|x: Single| call_requires(*ln, (x,)),
        ensures
            is_frame(
                *fft,
                *ln,
                self@,
                self@.pending.subrange(start as int, start + bands::FRAME_SIZE),
                r@,
            ),
    {
        let ghost samples = self@.pending.subrange(start as int, start + bands::FRAME_SIZE);
        let mut fft_in: Vec<Single> = Vec::new();
        let len: usize = self.input_buffer.len();
        let mut i: usize = 0;
        while i < bands::FRAME_SIZE
            invariant
                i <= bands::FRAME_SIZE,
                start + bands::FRAME_SIZE <= len == self.input_buffer@.len(),
                self.window@.len() == bands::FRAME_SIZE,
                samples == self.input_buffer@.subrange(start as int, start + bands::FRAME_SIZE),
                fft_in@ =~= windowed(samples, self.window@).take(i as int),
            decreases bands::FRAME_SIZE - i,
        {
            fft_in.push(self.input_buffer[start + i].times(self.window[i]));
            i = i + 1;
        }
        let input: &[Single] = fft_in.as_slice();
        assert(input@ =~= windowed(samples, self@.window));
        let magnitudes: Vec<Single> = (*fft)(input);
        assert(is_spectrum(*fft, windowed(samples, self@.window), magnitudes@));
        compress(magnitudes.as_slice(), &self.bands, ln)
    }

    /// Takes in samples and appends the frames that they complete to `out`. `fft`
    /// gives the magnitudes of the spectrum of one frame under the window.
    pub fn process<M: Fn(&[Single]) -> Vec<Single>, L: Fn(Single) -> Single>(
        &mut self,
        block: &[Single],
        fft: &M,
        ln: &L,
        out: &mut Vec<Vec<Single>>,
    )
        requires
            well_formed(old(self)@),
            forall|s: &[Single]| s@.len() == bands::FRAME_SIZE ==> call_requires(*fft, (s,)),
            forall|s: &[Single], m: Vec<Single>|
                s@.len() == bands::FRAME_SIZE && call_ensures(*fft, (s,), m) ==> m@.len()
                    == HALF_SPECTRUM,
            forall|x: Single| call_requires(*ln, (x,)),
        ensures
            well_formed(final(self)@),
            final(self)@ == given(old(self)@, block@),
            old(out)@.is_prefix_of(final(out)@),
            are_frames(
                *fft,
                *ln,
                old(self)@,
                block@,
                final(out)@.skip(old(out)@.len() as int),
            ),
    {
        let ghost v = self@;
        let ghost before = out@;
        self.input_buffer.extend_from_slice(block);
        let ghost all = v.pending + block@;
        assert(self.input_buffer@ =~= all);
        assert(before =~= out@.subrange(0, before.len() as int));
        let mut start: usize = 0;
        let ghost mut k: int = 0;
        while self.input_buffer.len() - start >= bands::FRAME_SIZE
            invariant
                self.input_buffer@ == all,
                self.bands@ == v.bands,
                self.window@ == v.window,
                well_formed(v),
                k >= 0,
                start == k * bands::HOP_SIZE,
                start <= all.len(),
                k > 0 ==> (k - 1) * bands::HOP_SIZE + bands::FRAME_SIZE <= all.len(),
                forall|s: &[Single]| s@.len() == bands::FRAME_SIZE ==> call_requires(*fft, (s,)),
                forall|s: &[Single], m: Vec<Single>|
                    s@.len() == bands::FRAME_SIZE && call_ensures(*fft, (s,), m) ==> m@.len()
                        == HALF_SPECTRUM,
                forall|x: Single| call_requires(*ln, (x,)),
                out@.len() == before.len() + k,
                before.is_prefix_of(out@),
                forall|j: int|
                    0 <= j < k ==> is_frame(
                        *fft,
                        *ln,
                        v,
                        frame_samples(all, j),
                        (#[trigger] out@[before.len() + j])@,
                    ),
            decreases all.len() - start,
        {
            let ghost sofar = out@;
            let frame: Vec<Single> = self.frame_at(start, fft, ln);
            out.push(frame);
            proof {
                assert(is_frame(*fft, *ln, v, frame_samples(all, k), frame@));
                assert(before =~= sofar.subrange(0, before.len() as int));
                assert(before =~= out@.subrange(0, before.len() as int));
                k = k + 1;
            }
            start = start + bands::HOP_SIZE;
        }
        let rest: Vec<Single> = self.input_buffer.split_off(start);
        self.input_buffer = rest;
        proof {
            let frames = out@.skip(before.len() as int);
            assert(k == frame_count(all.len()));
            assert forall|j: int| 0 <= j < frames.len() implies is_frame(
                *fft,
                *ln,
                v,
                frame_samples(all, j),
                #[trigger] frames[j]@,
            ) by {
                assert(frames[j] == out@[before.len() + j]);
            }
            assert(self@ =~= given(v, block@));
        }
    }

    /// Forgets the samples that wait.
    pub fn reset(&mut self)
        requires
            well_formed(old(self)@),
        ensures
            well_formed(final(self)@),
            final(self)@ == (StreamView { pending: Seq::empty(), ..old(self)@ }),
    {
        self.input_buffer.clear();
    }
}

} // verus!
