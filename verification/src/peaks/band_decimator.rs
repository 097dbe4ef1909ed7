//! The loudness of each band, hop by hop.

use vstd::prelude::*;
use vstd::slice::*;

use crate::ieee::binary;
use crate::ieee::double;
use crate::ieee::double::Double;
use crate::ieee::identities;
use crate::ieee::order;
use crate::ieee::single;
use crate::ieee::single::Single;
use crate::peaks::chunk;
use crate::peaks::chunk::BandPeakChunk;
use crate::peaks::decimator;
use crate::spectral::bands;
use crate::spectral::frames;
use crate::spectral::frames::SpectralFrameStream;

verus! {

/// The loudness of a band of one frame: the root of the mean square of its bins.
pub open spec fn band_loudness(frame: Seq<Single>, lo: int, hi: int) -> Single {
    decimator::root_mean(decimator::sum_of_squares(frame.subrange(lo, hi)), (hi - lo) as nat)
}

/// The loudness of every band of one frame.
pub open spec fn loudness(layout: Seq<(usize, usize)>, frame: Seq<Single>) -> Seq<Single> {
    Seq::new(
        layout.len(),
        |k: int| band_loudness(frame, layout[k].0 as int, layout[k].1 as int),
    )
}

/// The chunks of some frames.
pub open spec fn are_chunks(
    layout: Seq<(usize, usize)>,
    heard: Seq<Vec<Single>>,
    chunks: Seq<BandPeakChunk>,
) -> bool {
    &&& chunks.len() == heard.len()
    &&& forall|k: int|
        0 <= k < chunks.len() ==> (#[trigger] chunks[k]).rms_per_band@ == loudness(
            layout,
            heard[k]@,
        )
}

/// The chunks that samples complete in a stream.
pub open spec fn are_emitted<M: Fn(&[Single]) -> Vec<Single>, L: Fn(Single) -> Single>(
    fft: M,
    ln: L,
    v: frames::StreamView,
    samples: Seq<Single>,
    chunks: Seq<BandPeakChunk>,
) -> bool {
    exists|heard: Seq<Vec<Single>>| #[trigger]
        frames::are_frames(fft, ln, v, samples, heard) && are_chunks(v.bands, heard, chunks)
}

/// The sum of the squares of some bins.
fn energy(bins: &[Single]) -> (r: Double)
    ensures
        r == decimator::sum_of_squares(bins@),
{
    let mut sumsq = Double { bits: double::ZERO };
    let len: usize = bins.len();
    let mut i: usize = 0;
    assert(bins@.take(0) =~= Seq::<Single>::empty());
    while i < len
        invariant
            i <= len,
            len == bins@.len(),
            sumsq == decimator::sum_of_squares(bins@.take(i as int)),
        decreases len - i,
    {
        let m: Double = bins[i].widen();
        sumsq = sumsq.plus(m.times(m));
        assert(bins@.take(i + 1).drop_last() =~= bins@.take(i as int));
        i = i + 1;
    }
    assert(bins@.take(len as int) =~= bins@);
    sumsq
}

/// The chunk of one frame.
pub fn summarize(frame: &[Single], layout: &[(usize, usize); 8]) -> (r: BandPeakChunk)
    requires
        forall|k: int|
            0 <= k < bands::NUM_BANDS ==> (#[trigger] layout@[k]).0 < layout@[k].1 <= frame@.len(),
    ensures
        r.rms_per_band@ == loudness(layout@, frame@),
{
    let mut chunk = BandPeakChunk::zero();
    let mut k: usize = 0;
    while k < bands::NUM_BANDS
        invariant
            k <= bands::NUM_BANDS,
            layout@.len() == bands::NUM_BANDS,
            chunk.rms_per_band@.len() == bands::NUM_BANDS,
            forall|j: int|
                0 <= j < bands::NUM_BANDS ==> (#[trigger] layout@[j]).0 < layout@[j].1
                    <= frame@.len(),
            forall|j: int|
                0 <= j < k ==> #[trigger] chunk.rms_per_band@[j] == band_loudness(
                    frame@,
                    layout@[j].0 as int,
                    layout@[j].1 as int,
                ),
        decreases bands::NUM_BANDS - k,
    {
        let (lo, hi) = layout[k];
        let sumsq: Double = energy(slice_subrange(frame, lo, hi));
        let rms: Single = decimator::root_mean_square(sumsq, hi - lo);
        chunk.rms_per_band[k] = rms;
        k = k + 1;
    }
    assert(chunk.rms_per_band@ =~= loudness(layout@, frame@));
    chunk
}

/// A decimator into bands.
pub struct BandDecimator {
    spectral: SpectralFrameStream,
}

impl BandDecimator {
    pub closed spec fn view(&self) -> frames::StreamView {
        self.spectral@
    }

    /// A decimator at a sample rate.
    pub fn new<C: Fn(Single) -> Single>(sample_rate: u32, cos: &C) -> (r: Self)
        requires
            forall|x: Single| call_requires(*cos, (x,)),
        ensures
            frames::well_formed(r@),
            frames::is_layout(sample_rate, r@.bands),
            frames::is_window(*cos, r@.window),
            r@.pending == Seq::<Single>::empty(),
    {
        BandDecimator { spectral: SpectralFrameStream::new(sample_rate, cos) }
    }

    /// Samples per chunk.
    pub fn samples_per_chunk(&self) -> (r: usize)
        ensures
            r == chunk::BAND_SAMPLES_PER_CHUNK,
            r == bands::HOP_SIZE,
    {
        chunk::BAND_SAMPLES_PER_CHUNK
    }

    /// Takes in samples and appends one chunk for every frame that they complete to
    /// `out`.
    pub fn feed<M: Fn(&[Single]) -> Vec<Single>, L: Fn(Single) -> Single>(
        &mut self,
        samples: &[Single],
        fft: &M,
        ln: &L,
        out: &mut Vec<BandPeakChunk>,
    )
        requires
            frames::well_formed(old(self)@),
            forall|s: &[Single]| s@.len() == bands::FRAME_SIZE ==> call_requires(*fft, (s,)),
            forall|s: &[Single], m: Vec<Single>|
                s@.len() == bands::FRAME_SIZE && call_ensures(*fft, (s,), m) ==> m@.len()
                    == frames::HALF_SPECTRUM,
            forall|x: Single| call_requires(*ln, (x,)),
        ensures
            frames::well_formed(final(self)@),
            final(self)@ == frames::given(old(self)@, samples@),
            old(out)@.is_prefix_of(final(out)@),
            are_emitted(
                *fft,
                *ln,
                old(self)@,
                samples@,
                final(out)@.skip(old(out)@.len() as int),
            ),
    {
        let ghost v = self@;
        let ghost before = out@;
        let mut heard: Vec<Vec<Single>> = Vec::new();
        self.spectral.process(samples, fft, ln, &mut heard);
        assert(heard@.skip(0) =~= heard@);
        assert(before =~= out@.subrange(0, before.len() as int));
        let count: usize = heard.len();
        let mut k: usize = 0;
        while k < count
            invariant
                k <= count,
                count == heard@.len(),
                frames::are_frames(*fft, *ln, v, samples@, heard@),
                frames::well_formed(v),
                self@.bands == v.bands,
                frames::well_formed(self@),
                self@ == frames::given(v, samples@),
                out@.len() == before.len() + k,
                before.is_prefix_of(out@),
                forall|j: int|
                    0 <= j < k ==> (#[trigger] out@[before.len() + j]).rms_per_band@ == loudness(
                        v.bands,
                        heard@[j]@,
                    ),
            decreases count - k,
        {
            let ghost sofar = out@;
            proof {
                let all = v.pending + samples@;
                assert(frames::is_frame(
                    *fft,
                    *ln,
                    v,
                    frames::frame_samples(all, k as int),
                    heard@[k as int]@,
                ));
            }
            let chunk = summarize(heard[k].as_slice(), self.spectral.bands());
            out.push(chunk);
            proof {
                assert(before =~= sofar.subrange(0, before.len() as int));
                assert(before =~= out@.subrange(0, before.len() as int));
            }
            k = k + 1;
        }
        proof {
            let chunks = out@.skip(before.len() as int);
            assert(are_chunks(v.bands, heard@, chunks)) by {
                assert forall|j: int| 0 <= j < chunks.len() implies (
                #[trigger] chunks[j]).rms_per_band@ == loudness(v.bands, heard@[j]@) by {
                    assert(chunks[j] == out@[before.len() + j]);
                }
            }
            assert(frames::are_frames(*fft, *ln, v, samples@, heard@));
        }
    }

    /// Forgets the samples that wait.
    pub fn reset(&mut self)
        requires
            frames::well_formed(old(self)@),
        ensures
            frames::well_formed(final(self)@),
            final(self)@ == (frames::StreamView { pending: Seq::empty(), ..old(self)@ }),
    {
        self.spectral.reset();
    }
}

/// It does not matter in which blocks samples are fed: the chunks of two blocks are
/// those of one block of both.
pub proof fn law_blocks_do_not_matter<M: Fn(&[Single]) -> Vec<Single>, L: Fn(Single) -> Single>(
    fft: M,
    ln: L,
    v: frames::StreamView,
    a: Seq<Single>,
    b: Seq<Single>,
    first: Seq<BandPeakChunk>,
    second: Seq<BandPeakChunk>,
)
    requires
        are_emitted(fft, ln, v, a, first),
        are_emitted(fft, ln, frames::given(v, a), b, second),
    ensures
        frames::given(frames::given(v, a), b) == frames::given(v, a + b),
        are_emitted(fft, ln, v, a + b, first + second),
{
    let x = choose|x: Seq<Vec<Single>>| #[trigger]
        frames::are_frames(fft, ln, v, a, x) && are_chunks(v.bands, x, first);
    let y = choose|y: Seq<Vec<Single>>| #[trigger]
        frames::are_frames(fft, ln, frames::given(v, a), b, y) && are_chunks(v.bands, y, second);
    frames::law_blocks_do_not_matter(fft, ln, v, a, b, x, y);
    assert(are_chunks(v.bands, x + y, first + second));
    assert(frames::are_frames(fft, ln, v, a + b, x + y));
}

/// One chunk comes out per hop.
pub proof fn law_chunks_come_at_the_hop<M: Fn(&[Single]) -> Vec<Single>, L: Fn(Single) -> Single>(
    fft: M,
    ln: L,
    v: frames::StreamView,
    samples: Seq<Single>,
    chunks: Seq<BandPeakChunk>,
)
    requires
        are_emitted(fft, ln, v, samples, chunks),
    ensures
        chunks.len() == frames::frame_count(v.pending.len() + samples.len()),
{
}

/// The loudness of every band of a frame of numbers is a number, and not negative.
pub proof fn law_band_loudness_is_a_number(v: frames::StreamView, frame: Seq<Single>, k: int)
    requires
        frames::well_formed(v),
        frame.len() == frames::HALF_SPECTRUM,
        decimator::all_numbers(frame),
        0 <= k < v.bands.len(),
    ensures
        single::at_most(Single { bits: single::ZERO }, loudness(v.bands, frame)[k]),
{
    let (lo, hi) = v.bands[k];
    let bins = frame.subrange(lo as int, hi as int);
    assert forall|i: int| 0 <= i < bins.len() implies (#[trigger] bins[i])@.mag
        <= binary::SINGLE_INF by {
        assert(bins[i] == frame[lo + i]);
    }
    decimator::law_loudness_is_a_number(bins);
}

/// The transform gives one magnitude for each bin, a number that is not negative, for a frame of
/// finite samples.
pub open spec fn gives_magnitudes<M: Fn(&[Single]) -> Vec<Single>>(fft: M) -> bool {
    forall|s: &[Single], m: Vec<Single>| #[trigger]
        call_ensures(fft, (s,), m) && (forall|i: int|
            0 <= i < s@.len() ==> single::finite(#[trigger] s@[i])) ==> m@.len()
            == frames::HALF_SPECTRUM && forall|b: int|
            0 <= b < m@.len() ==> single::at_most(
                Single { bits: single::ZERO },
                #[trigger] m@[b],
            )
}

/// The logarithm gives a number for every number that is not negative.
pub open spec fn gives_logarithms<L: Fn(Single) -> Single>(ln: L) -> bool {
    forall|x: Single, y: Single|
        single::at_most(Single { bits: single::ZERO }, x) && #[trigger] call_ensures(ln, (x,), y)
            ==> y@.mag <= binary::SINGLE_INF
}

/// With a transform that gives magnitudes and a logarithm that gives numbers, the bins of a frame
/// of finite samples are numbers, and so is the loudness of every band, which is not negative.
pub proof fn law_finite_samples_have_a_loudness<
    M: Fn(&[Single]) -> Vec<Single>,
    L: Fn(Single) -> Single,
>(fft: M, ln: L, v: frames::StreamView, samples: Seq<Single>, frame: Seq<Single>, k: int)
    requires
        frames::well_formed(v),
        frames::is_frame(fft, ln, v, samples, frame),
        gives_magnitudes(fft),
        gives_logarithms(ln),
        forall|i: int|
            0 <= i < samples.len() ==> single::finite(
                #[trigger] frames::windowed(samples, v.window)[i],
            ),
        0 <= k < v.bands.len(),
    ensures
        decimator::all_numbers(frame),
        single::at_most(Single { bits: single::ZERO }, loudness(v.bands, frame)[k]),
{
    let w = frames::windowed(samples, v.window);
    let m = choose|m: Seq<Single>| #[trigger]
        frames::is_spectrum(fft, w, m) && frames::compressed(ln, v.bands, m, frame);
    assert forall|b: int| 0 <= b < frame.len() implies (#[trigger] frame[b])@.mag
        <= binary::SINGLE_INF by {
        if frames::in_bands(v.bands, b) {
            let lambda = Single { bits: frames::LAMBDA };
            let one = Single { bits: single::ONE };
            assert(single::at_most(Single { bits: single::ZERO }, m[b]));
            order::law_product_is_not_negative(lambda, m[b]);
            order::law_sum_is_not_negative(one, single::product(lambda, m[b]));
            assert(call_ensures(ln, (frames::loudness(m[b]),), frame[b]));
        }
    }
    law_band_loudness_is_a_number(v, frame, k);
}

/// The transform of silence is silent.
pub open spec fn keeps_silence<M: Fn(&[Single]) -> Vec<Single>>(fft: M) -> bool {
    forall|s: &[Single], m: Vec<Single>| #[trigger]
        call_ensures(fft, (s,), m) && (forall|i: int|
            0 <= i < s@.len() ==> (#[trigger] s@[i])@.mag == 0) ==> m@.len()
            == frames::HALF_SPECTRUM && forall|b: int|
            0 <= b < m@.len() ==> (#[trigger] m@[b])@.mag == 0
}

/// The logarithm of one is zero.
pub open spec fn is_zero_at_one<L: Fn(Single) -> Single>(ln: L) -> bool {
    forall|y: Single| #[trigger]
        call_ensures(ln, (Single { bits: single::ONE },), y) ==> y@.mag == 0
}

/// Bins that are zeros have no loudness.
pub proof fn lemma_no_loudness(bins: Seq<Single>)
    requires
        forall|i: int| 0 <= i < bins.len() ==> (#[trigger] bins[i])@.mag == 0,
    ensures
        decimator::sum_of_squares(bins) == (Double { bits: double::ZERO }),
    decreases bins.len(),
{
    if bins.len() > 0 {
        let front = bins.drop_last();
        assert forall|i: int| 0 <= i < front.len() implies (#[trigger] front[i])@.mag == 0 by {
            assert(front[i] == bins[i]);
        }
        lemma_no_loudness(front);
        identities::law_square_of_a_zero(bins.last());
        identities::law_double_zero(1);
    }
}

/// With a transform that keeps silence and a logarithm that is zero at one, silence has no
/// loudness in any band.
pub proof fn law_silence_has_no_loudness<
    M: Fn(&[Single]) -> Vec<Single>,
    L: Fn(Single) -> Single,
>(fft: M, ln: L, v: frames::StreamView, samples: Seq<Single>, frame: Seq<Single>, k: int)
    requires
        frames::well_formed(v),
        frames::is_frame(fft, ln, v, samples, frame),
        keeps_silence(fft),
        is_zero_at_one(ln),
        samples.len() == v.window.len(),
        forall|i: int| 0 <= i < samples.len() ==> (#[trigger] samples[i])@.mag == 0,
        forall|i: int| 0 <= i < v.window.len() ==> single::finite(#[trigger] v.window[i]),
        0 <= k < v.bands.len(),
    ensures
        loudness(v.bands, frame)[k] == (Single { bits: single::ZERO }),
{
    let w = frames::windowed(samples, v.window);
    let m = choose|m: Seq<Single>| #[trigger]
        frames::is_spectrum(fft, w, m) && frames::compressed(ln, v.bands, m, frame);
    assert forall|i: int| 0 <= i < w.len() implies (#[trigger] w[i])@.mag == 0 by {
        identities::law_multiples_of_zero(samples[i], v.window[i]);
    }
    let (lo, hi) = v.bands[k];
    let bins = frame.subrange(lo as int, hi as int);
    assert forall|i: int| 0 <= i < bins.len() implies (#[trigger] bins[i])@.mag == 0 by {
        let b = lo + i;
        assert(v.bands[k].0 <= b < v.bands[k].1);
        assert(frames::in_bands(v.bands, b));
        assert(m[b]@.mag == 0);
        let lambda = Single { bits: frames::LAMBDA };
        let one = Single { bits: single::ONE };
        identities::law_multiples_of_zero(m[b], lambda);
        identities::law_sum_with_either_zero(one, single::product(lambda, m[b]));
        assert(call_ensures(ln, (frames::loudness(m[b]),), frame[b]));
    }
    lemma_no_loudness(bins);
    identities::law_double_zero((hi - lo) as nat);
    identities::law_narrowed_zero();
}

} // verus!
