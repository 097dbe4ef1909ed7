//! The peaks of a whole track at once.

use vstd::arithmetic::power2::*;
use vstd::prelude::*;
use vstd::slice::*;

use crate::engine::hearing;
use crate::engine::thru;
use crate::ieee::exact;
use crate::ieee::order;
use crate::ieee::single;
use crate::ieee::single::Single;
use crate::peaks::band_decimator;
use crate::peaks::band_decimator::BandDecimator;
use crate::peaks::chunk;
use crate::peaks::chunk::BandPeakChunk;
use crate::peaks::chunk::FilteredPeakChunk;
use crate::peaks::chunk::OnsetChunk;
use crate::peaks::chunk::PeakChunk;
use crate::peaks::decimator;
use crate::peaks::decimator::Decimator;
use crate::peaks::filtered;
use crate::peaks::filtered::FilteredDecimator;
use crate::peaks::onset;
use crate::peaks::onset::OnsetDecimator;
use crate::peaks::windows;
use crate::spectral::bands;
use crate::spectral::frames;

verus! {

/// Frames that are decimated at a time.
pub const FEED_CHUNK_FRAMES: usize = 2048;

/// The peaks of a track.
#[derive(Debug)]
pub struct OfflinePeaks {
    pub broadband: Vec<PeakChunk>,
    pub bands: Vec<BandPeakChunk>,
    pub onset: Vec<OnsetChunk>,
    pub filtered: Vec<FilteredPeakChunk>,
    pub sample_rate: u32,
    pub samples_per_broadband_chunk: usize,
    pub samples_per_band_chunk: usize,
    pub samples_per_onset_chunk: usize,
    pub samples_per_filtered_chunk: usize,
}

/// Why a track has no peaks.
#[derive(Clone, Copy, Debug, PartialEq, Eq, Structural)]
pub enum OfflinePeaksError {
    /// A sample rate of zero.
    InvalidSampleRate,
    /// Neither mono nor stereo.
    UnsupportedChannels(u8),
    /// The samples are no whole number of frames.
    Misaligned { len: usize, channels: u8 },
}

/// The first fault of a track.
pub open spec fn fault(len: nat, sample_rate: u32, channels: u8) -> Option<OfflinePeaksError> {
    if sample_rate == 0 {
        Some(OfflinePeaksError::InvalidSampleRate)
    } else if channels < 1 || channels > 2 {
        Some(OfflinePeaksError::UnsupportedChannels(channels))
    } else if len % (channels as nat) != 0 {
        Some(OfflinePeaksError::Misaligned { len: len as usize, channels })
    } else {
        None
    }
}

/// The waveform of a track: its samples, or the mean of its two channels.
pub open spec fn mono(samples: Seq<Single>, channels: u8) -> Seq<Single> {
    if channels == 1 {
        samples
    } else {
        thru::mono_of(samples)
    }
}

/// The broadband chunks of a waveform, with a last one for what is left.
pub open spec fn broadband_of(wave: Seq<Single>) -> Seq<PeakChunk> {
    let v = decimator::fresh(chunk::DEFAULT_SAMPLES_PER_CHUNK as nat);
    decimator::emitted(v, wave) + decimator::remainder(decimator::fed(v, wave))
}

/// The filtered chunks of a waveform, with a last one for what is left.
pub open spec fn filtered_of(c: filtered::Coefficients, wave: Seq<Single>) -> Seq<
    FilteredPeakChunk,
> {
    let v = filtered::fresh(chunk::DEFAULT_SAMPLES_PER_CHUNK as nat, c);
    filtered::emitted(v, wave) + filtered::remainder(filtered::fed(v, wave))
}

/// A stream of frames at a sample rate that was given nothing.
pub open spec fn is_fresh_stream<C: Fn(Single) -> Single>(
    cos: C,
    sample_rate: u32,
    v: frames::StreamView,
) -> bool {
    &&& frames::is_layout(sample_rate, v.bands)
    &&& frames::is_window(cos, v.window)
    &&& v.pending == Seq::<Single>::empty()
}

/// The filtered chunks of a waveform at a sample rate.
pub open spec fn are_filtered<S: Fn(Single) -> Single, C: Fn(Single) -> Single>(
    sin: S,
    cos: C,
    sample_rate: u32,
    wave: Seq<Single>,
    chunks: Seq<FilteredPeakChunk>,
) -> bool {
    exists|c: filtered::Coefficients| #[trigger]
        filtered::is_filter(sin, cos, sample_rate, c) && chunks == filtered_of(c, wave)
}

/// The band chunks of a waveform at a sample rate.
pub open spec fn are_bands<
    C: Fn(Single) -> Single,
    M: Fn(&[Single]) -> Vec<Single>,
    L: Fn(Single) -> Single,
>(
    cos: C,
    fft: M,
    ln: L,
    sample_rate: u32,
    wave: Seq<Single>,
    chunks: Seq<BandPeakChunk>,
) -> bool {
    exists|v: frames::StreamView| #[trigger]
        is_fresh_stream(cos, sample_rate, v) && band_decimator::are_emitted(
            fft,
            ln,
            v,
            wave,
            chunks,
        )
}

/// The onsets of a waveform at a sample rate.
pub open spec fn are_onsets<
    C: Fn(Single) -> Single,
    M: Fn(&[Single]) -> Vec<Single>,
    L: Fn(Single) -> Single,
>(
    cos: C,
    fft: M,
    ln: L,
    sample_rate: u32,
    wave: Seq<Single>,
    chunks: Seq<OnsetChunk>,
) -> bool {
    exists|v: onset::OnsetView, w: onset::OnsetView| #[trigger]
        onset::fed(fft, ln, v, w, wave, chunks) && is_fresh_stream(cos, sample_rate, v.stream)
            && v.seen == onset::unseen()
}

/// The peaks of a waveform at a sample rate.
pub open spec fn are_peaks<
    S: Fn(Single) -> Single,
    C: Fn(Single) -> Single,
    M: Fn(&[Single]) -> Vec<Single>,
    L: Fn(Single) -> Single,
>(
    sin: S,
    cos: C,
    fft: M,
    ln: L,
    sample_rate: u32,
    wave: Seq<Single>,
    p: OfflinePeaks,
) -> bool {
    &&& p.broadband@ == broadband_of(wave)
    &&& are_filtered(sin, cos, sample_rate, wave, p.filtered@)
    &&& are_bands(cos, fft, ln, sample_rate, wave, p.bands@)
    &&& are_onsets(cos, fft, ln, sample_rate, wave, p.onset@)
    &&& p.filtered@.len() == p.broadband@.len()
    &&& p.onset@.len() == p.bands@.len()
    &&& p.sample_rate == sample_rate
    &&& p.samples_per_broadband_chunk == chunk::DEFAULT_SAMPLES_PER_CHUNK
    &&& p.samples_per_band_chunk == chunk::BAND_SAMPLES_PER_CHUNK
    &&& p.samples_per_onset_chunk == chunk::BAND_SAMPLES_PER_CHUNK
    &&& p.samples_per_filtered_chunk == chunk::DEFAULT_SAMPLES_PER_CHUNK
}

/// The four decimators of a track, and what they emitted.
struct Analysis {
    bb: Decimator,
    bd: BandDecimator,
    od: OnsetDecimator,
    fd: FilteredDecimator,
    broadband: Vec<PeakChunk>,
    bands: Vec<BandPeakChunk>,
    onset: Vec<OnsetChunk>,
    filtered: Vec<FilteredPeakChunk>,
}

/// The decimators when nothing was fed.
ghost struct Start {
    bb: decimator::DecimatorView,
    bd: frames::StreamView,
    od: onset::OnsetView,
    fd: filtered::FilteredView,
}

impl Analysis {
    spec fn wf(&self) -> bool {
        &&& self.bb.wf()
        &&& frames::well_formed(self.bd@)
        &&& onset::well_formed(self.od@)
        &&& self.fd.wf()
    }

    /// The decimators were fed `wave` since `s`, and emitted what came of it.
    spec fn heard<M: Fn(&[Single]) -> Vec<Single>, L: Fn(Single) -> Single>(
        &self,
        fft: M,
        ln: L,
        s: Start,
        wave: Seq<Single>,
    ) -> bool {
        &&& s.bb.samples_per_chunk > 0
        &&& s.fd.samples_per_chunk > 0
        &&& self.bb@ == decimator::fed(s.bb, wave)
        &&& self.broadband@ == decimator::emitted(s.bb, wave)
        &&& self.fd@ == filtered::fed(s.fd, wave)
        &&& self.filtered@ == filtered::emitted(s.fd, wave)
        &&& self.bd@ == frames::given(s.bd, wave)
        &&& band_decimator::are_emitted(fft, ln, s.bd, wave, self.bands@)
        &&& onset::fed(fft, ln, s.od, self.od@, wave, self.onset@)
    }

    /// Feeds all decimators.
    fn feed<M: Fn(&[Single]) -> Vec<Single>, L: Fn(Single) -> Single>(
        &mut self,
        slice: &[Single],
        fft: &M,
        ln: &L,
        Ghost(s): Ghost<Start>,
        Ghost(wave): Ghost<Seq<Single>>,
    )
        requires
            old(self).wf(),
            old(self).heard(*fft, *ln, s, wave),
            forall|x: &[Single]| x@.len() == bands::FRAME_SIZE ==> call_requires(*fft, (x,)),
            forall|x: &[Single], m: Vec<Single>|
                x@.len() == bands::FRAME_SIZE && call_ensures(*fft, (x,), m) ==> m@.len()
                    == frames::HALF_SPECTRUM,
            forall|x: Single| call_requires(*ln, (x,)),
        ensures
            final(self).wf(),
            final(self).heard(*fft, *ln, s, wave + slice@),
    {
        let ghost bands_before = self.bands@;
        let ghost onset_before = self.onset@;
        let ghost od_before = self.od@;
        self.bb.feed(slice, &mut self.broadband);
        self.bd.feed(slice, fft, ln, &mut self.bands);
        self.od.feed(slice, fft, ln, &mut self.onset);
        self.fd.feed(slice, &mut self.filtered);
        proof {
            decimator::law_blocks_do_not_matter(s.bb, wave, slice@);
            filtered::law_blocks_do_not_matter(s.fd, wave, slice@);
            let more = self.bands@.skip(bands_before.len() as int);
            assert(bands_before =~= self.bands@.subrange(0, bands_before.len() as int));
            assert(bands_before + more =~= self.bands@);
            band_decimator::law_blocks_do_not_matter(
                *fft,
                *ln,
                s.bd,
                wave,
                slice@,
                bands_before,
                more,
            );
            let hits = self.onset@.skip(onset_before.len() as int);
            assert(onset_before =~= self.onset@.subrange(0, onset_before.len() as int));
            assert(onset_before + hits =~= self.onset@);
            onset::law_blocks_do_not_matter(
                *fft,
                *ln,
                s.od,
                od_before,
                self.od@,
                wave,
                slice@,
                onset_before,
                hits,
            );
        }
    }
}

/// Nothing comes of nothing.
proof fn lemma_nothing_heard<M: Fn(&[Single]) -> Vec<Single>, L: Fn(Single) -> Single>(
    fft: M,
    ln: L,
    s: Start,
)
    requires
        s.bb.pending.len() < s.bb.samples_per_chunk,
        s.fd.pending.len() < s.fd.samples_per_chunk,
        s.bd.pending.len() < bands::FRAME_SIZE,
        s.od.stream.pending.len() < bands::FRAME_SIZE,
    ensures
        decimator::fed(s.bb, Seq::empty()) == s.bb,
        decimator::emitted(s.bb, Seq::empty()) == Seq::<PeakChunk>::empty(),
        filtered::fed(s.fd, Seq::empty()) == s.fd,
        filtered::emitted(s.fd, Seq::empty()) == Seq::<FilteredPeakChunk>::empty(),
        frames::given(s.bd, Seq::empty()) == s.bd,
        band_decimator::are_emitted(fft, ln, s.bd, Seq::empty(), Seq::<BandPeakChunk>::empty()),
        onset::fed(fft, ln, s.od, s.od, Seq::empty(), Seq::<OnsetChunk>::empty()),
{
    let none = Seq::<Single>::empty();
    assert(s.bb.pending + none =~= s.bb.pending);
    windows::lemma_nothing_whole(s.bb.pending, s.bb.samples_per_chunk);
    assert(decimator::emitted(s.bb, none) =~= Seq::<PeakChunk>::empty());
    assert(filtered::heard(s.fd, none) =~= s.fd.pending);
    windows::lemma_nothing_whole(s.fd.pending, s.fd.samples_per_chunk);
    assert(filtered::emitted(s.fd, none) =~= Seq::<FilteredPeakChunk>::empty());
    assert(s.bd.pending + none =~= s.bd.pending);
    assert(s.bd.pending.skip(0) =~= s.bd.pending);
    let quiet = Seq::<Vec<Single>>::empty();
    assert(frames::are_frames(fft, ln, s.bd, none, quiet));
    assert(s.od.stream.pending + none =~= s.od.stream.pending);
    assert(s.od.stream.pending.skip(0) =~= s.od.stream.pending);
    assert(frames::are_frames(fft, ln, s.od.stream, none, quiet));
    assert(onset::onsets(s.od.stream.bands, s.od.seen, quiet) =~= Seq::<OnsetChunk>::empty());
    assert(onset::listened(fft, ln, s.od, s.od, none, quiet, Seq::<OnsetChunk>::empty()));
}

/// The peaks of a track of interleaved samples. The waveform is cut into slices
/// for decimation, which does not matter for what comes out.
pub fn compute_offline_peaks<
    S: Fn(Single) -> Single,
    C: Fn(Single) -> Single,
    M: Fn(&[Single]) -> Vec<Single>,
    L: Fn(Single) -> Single,
>(
    samples: &[Single],
    sample_rate: u32,
    channels: u8,
    sin: &S,
    cos: &C,
    fft: &M,
    ln: &L,
) -> (r: Result<OfflinePeaks, OfflinePeaksError>)
    requires
        forall|x: Single| call_requires(*sin, (x,)),
        forall|x: Single| call_requires(*cos, (x,)),
        forall|x: &[Single]| x@.len() == bands::FRAME_SIZE ==> call_requires(*fft, (x,)),
        forall|x: &[Single], m: Vec<Single>|
            x@.len() == bands::FRAME_SIZE && call_ensures(*fft, (x,), m) ==> m@.len()
                == frames::HALF_SPECTRUM,
        forall|x: Single| call_requires(*ln, (x,)),
    ensures
        match r {
            Err(e) => fault(samples@.len(), sample_rate, channels) == Some(e),
            Ok(p) => {
                &&& fault(samples@.len(), sample_rate, channels) is None
                &&& are_peaks(*sin, *cos, *fft, *ln, sample_rate, mono(samples@, channels), p)
            },
        },
{
    let len: usize = samples.len();
    if sample_rate == 0 {
        return Err(OfflinePeaksError::InvalidSampleRate);
    }
    if channels < 1 || channels > 2 {
        return Err(OfflinePeaksError::UnsupportedChannels(channels));
    }
    if len % (channels as usize) != 0 {
        return Err(OfflinePeaksError::Misaligned { len, channels });
    }
    let mut a = Analysis {
        bb: Decimator::new(chunk::DEFAULT_SAMPLES_PER_CHUNK),
        bd: BandDecimator::new(sample_rate, cos),
        od: OnsetDecimator::new(sample_rate, cos),
        fd: FilteredDecimator::new(sample_rate, chunk::DEFAULT_SAMPLES_PER_CHUNK, sin, cos),
        broadband: Vec::new(),
        bands: Vec::new(),
        onset: Vec::new(),
        filtered: Vec::new(),
    };
    let ghost s = Start { bb: a.bb@, bd: a.bd@, od: a.od@, fd: a.fd@ };
    let ghost wave = mono(samples@, channels);
    let frame_count: usize = len / (channels as usize);
    let mut scratch: Vec<Single> = vec![Single { bits: single::ZERO }; FEED_CHUNK_FRAMES];
    proof {
        lemma_nothing_heard(*fft, *ln, s);
        assert(wave.take(0) =~= Seq::<Single>::empty());
        assert(a.broadband@ =~= Seq::<PeakChunk>::empty());
        assert(a.bands@ =~= Seq::<BandPeakChunk>::empty());
        assert(a.onset@ =~= Seq::<OnsetChunk>::empty());
        assert(a.filtered@ =~= Seq::<FilteredPeakChunk>::empty());
    }
    let mut done: usize = 0;
    while done < frame_count
        invariant
            done <= frame_count,
            len == samples@.len(),
            channels == 1 || channels == 2,
            channels == 1 ==> len == frame_count,
            channels == 2 ==> len == 2 * frame_count,
            wave == mono(samples@, channels),
            wave.len() == frame_count,
            scratch@.len() == FEED_CHUNK_FRAMES,
            a.wf(),
            a.heard(*fft, *ln, s, wave.take(done as int)),
            forall|x: &[Single]| x@.len() == bands::FRAME_SIZE ==> call_requires(*fft, (x,)),
            forall|x: &[Single], m: Vec<Single>|
                x@.len() == bands::FRAME_SIZE && call_ensures(*fft, (x,), m) ==> m@.len()
                    == frames::HALF_SPECTRUM,
            forall|x: Single| call_requires(*ln, (x,)),
        decreases frame_count - done,
    {
        let next: usize = if frame_count - done < FEED_CHUNK_FRAMES {
            frame_count
        } else {
            done + FEED_CHUNK_FRAMES
        };
        let ghost piece = wave.subrange(done as int, next as int);
        assert(wave.take(done as int) + piece =~= wave.take(next as int));
        if channels == 1 {
            let slice: &[Single] = slice_subrange(samples, done, next);
            assert(slice@ =~= piece);
            a.feed(slice, fft, ln, Ghost(s), Ghost(wave.take(done as int)));
        } else {
            let pairs: &[Single] = slice_subrange(samples, 2 * done, 2 * next);
            thru::downmix(pairs, &mut scratch);
            let slice: &[Single] = slice_subrange(scratch.as_slice(), 0, next - done);
            assert(slice@ =~= piece) by {
                let front = scratch@.take((pairs@.len() / 2) as int);
                assert forall|i: int| 0 <= i < slice@.len() implies slice@[i] == piece[i] by {
                    assert(slice@[i] == front[i]);
                }
            }
            a.feed(slice, fft, ln, Ghost(s), Ghost(wave.take(done as int)));
        }
        done = next;
    }
    let mut broadband: Vec<PeakChunk> = a.broadband;
    let mut filtered: Vec<FilteredPeakChunk> = a.filtered;
    let mut bb = a.bb;
    let mut fd = a.fd;
    bb.flush(&mut broadband);
    fd.flush(&mut filtered);
    proof {
        assert(wave.take(frame_count as int) =~= wave);
        let c = s.fd.coefficients;
        filtered::law_filtered_chunks_pair_with_broadband(
            chunk::DEFAULT_SAMPLES_PER_CHUNK as nat,
            c,
            wave,
        );
        assert(filtered::is_filter(*sin, *cos, sample_rate, c));
        assert(filtered@ == filtered_of(c, wave));
        assert(is_fresh_stream(*cos, sample_rate, s.bd));
        assert(is_fresh_stream(*cos, sample_rate, s.od.stream));
    }
    Ok(
        OfflinePeaks {
            broadband,
            bands: a.bands,
            onset: a.onset,
            filtered,
            sample_rate,
            samples_per_broadband_chunk: chunk::DEFAULT_SAMPLES_PER_CHUNK,
            samples_per_band_chunk: chunk::BAND_SAMPLES_PER_CHUNK,
            samples_per_onset_chunk: chunk::BAND_SAMPLES_PER_CHUNK,
            samples_per_filtered_chunk: chunk::DEFAULT_SAMPLES_PER_CHUNK,
        },
    )
}

/// The chunks that a stream emits for some blocks, one after the other.
pub open spec fn streamed(v: decimator::DecimatorView, blocks: Seq<Seq<Single>>) -> Seq<PeakChunk>
    decreases blocks.len(),
{
    if blocks.len() == 0 {
        Seq::empty()
    } else {
        decimator::emitted(v, blocks.first()) + streamed(
            decimator::fed(v, blocks.first()),
            blocks.drop_first(),
        )
    }
}

/// A stream after some blocks.
pub open spec fn after_blocks(
    v: decimator::DecimatorView,
    blocks: Seq<Seq<Single>>,
) -> decimator::DecimatorView
    decreases blocks.len(),
{
    if blocks.len() == 0 {
        v
    } else {
        after_blocks(decimator::fed(v, blocks.first()), blocks.drop_first())
    }
}

/// All samples of some blocks.
pub open spec fn joined(blocks: Seq<Seq<Single>>) -> Seq<Single>
    decreases blocks.len(),
{
    if blocks.len() == 0 {
        Seq::empty()
    } else {
        blocks.first() + joined(blocks.drop_first())
    }
}

/// A stream that is fed in blocks emits what is emitted for all samples at once.
proof fn lemma_streamed(v: decimator::DecimatorView, blocks: Seq<Seq<Single>>)
    requires
        v.samples_per_chunk > 0,
        v.pending.len() < v.samples_per_chunk,
    ensures
        streamed(v, blocks) == decimator::emitted(v, joined(blocks)),
        after_blocks(v, blocks) == decimator::fed(v, joined(blocks)),
    decreases blocks.len(),
{
    if blocks.len() == 0 {
        assert(v.pending + Seq::<Single>::empty() =~= v.pending);
        windows::lemma_nothing_whole(v.pending, v.samples_per_chunk);
        assert(decimator::emitted(v, Seq::empty()) =~= Seq::<PeakChunk>::empty());
    } else {
        let a = blocks.first();
        let rest = blocks.drop_first();
        windows::lemma_bounds(v.pending + a, v.samples_per_chunk);
        lemma_streamed(decimator::fed(v, a), rest);
        decimator::law_blocks_do_not_matter(v, a, joined(rest));
    }
}

/// The broadband chunks of a track are those that a stream of the same samples
/// emits, in whatever blocks it gets them, with a last one for what is left.
pub proof fn law_offline_matches_streaming(blocks: Seq<Seq<Single>>)
    ensures
        ({
            let v = decimator::fresh(chunk::DEFAULT_SAMPLES_PER_CHUNK as nat);
            broadband_of(joined(blocks)) == streamed(v, blocks) + decimator::remainder(
                after_blocks(v, blocks),
            )
        }),
{
    lemma_streamed(decimator::fresh(chunk::DEFAULT_SAMPLES_PER_CHUNK as nat), blocks);
}

/// The broadband chunks cover the whole waveform: one for every full set of
/// samples, and one more if any are left.
pub proof fn law_broadband_covers_the_track(wave: Seq<Single>)
    ensures
        ({
            let n = chunk::DEFAULT_SAMPLES_PER_CHUNK as nat;
            broadband_of(wave).len() == (wave.len() + n - 1) / (n as int)
        }),
{
    let n = chunk::DEFAULT_SAMPLES_PER_CHUNK as nat;
    assert(decimator::fresh(n).pending + wave =~= wave);
    windows::law_cutting_counts(wave, n);
}

/// The same peaks, in every field.
pub open spec fn same_peaks(p: OfflinePeaks, q: OfflinePeaks) -> bool {
    &&& p.broadband@ == q.broadband@
    &&& p.filtered@ == q.filtered@
    &&& p.onset@ == q.onset@
    &&& p.bands@.len() == q.bands@.len()
    &&& forall|k: int|
        #![auto]
        0 <= k < p.bands@.len() ==> p.bands@[k].rms_per_band@ == q.bands@[k].rms_per_band@
    &&& p.sample_rate == q.sample_rate
    &&& p.samples_per_broadband_chunk == q.samples_per_broadband_chunk
    &&& p.samples_per_band_chunk == q.samples_per_band_chunk
    &&& p.samples_per_onset_chunk == q.samples_per_onset_chunk
    &&& p.samples_per_filtered_chunk == q.samples_per_filtered_chunk
}

proof fn lemma_one_filter<S: Fn(Single) -> Single, C: Fn(Single) -> Single>(
    sin: S,
    cos: C,
    sample_rate: u32,
    wave: Seq<Single>,
    x: Seq<FilteredPeakChunk>,
    y: Seq<FilteredPeakChunk>,
)
    requires
        frames::is_function(sin),
        frames::is_function(cos),
        are_filtered(sin, cos, sample_rate, wave, x),
        are_filtered(sin, cos, sample_rate, wave, y),
    ensures
        x == y,
{
    let c = choose|c: filtered::Coefficients| #[trigger]
        filtered::is_filter(sin, cos, sample_rate, c) && x == filtered_of(c, wave);
    let d = choose|d: filtered::Coefficients| #[trigger]
        filtered::is_filter(sin, cos, sample_rate, d) && y == filtered_of(d, wave);
    assert(c == d);
}

proof fn lemma_one_row_of_bands<
    C: Fn(Single) -> Single,
    M: Fn(&[Single]) -> Vec<Single>,
    L: Fn(Single) -> Single,
>(
    cos: C,
    fft: M,
    ln: L,
    sample_rate: u32,
    wave: Seq<Single>,
    x: Seq<BandPeakChunk>,
    y: Seq<BandPeakChunk>,
)
    requires
        frames::is_function(cos),
        frames::is_transform(fft),
        frames::is_function(ln),
        are_bands(cos, fft, ln, sample_rate, wave, x),
        are_bands(cos, fft, ln, sample_rate, wave, y),
    ensures
        x.len() == y.len(),
        forall|k: int| #![auto] 0 <= k < x.len() ==> x[k].rms_per_band@ == y[k].rms_per_band@,
{
    let v = choose|v: frames::StreamView| #[trigger]
        is_fresh_stream(cos, sample_rate, v) && band_decimator::are_emitted(fft, ln, v, wave, x);
    let w = choose|w: frames::StreamView| #[trigger]
        is_fresh_stream(cos, sample_rate, w) && band_decimator::are_emitted(fft, ln, w, wave, y);
    let f = choose|f: Seq<Vec<Single>>| #[trigger]
        frames::are_frames(fft, ln, v, wave, f) && band_decimator::are_chunks(v.bands, f, x);
    let g = choose|g: Seq<Vec<Single>>| #[trigger]
        frames::are_frames(fft, ln, w, wave, g) && band_decimator::are_chunks(w.bands, g, y);
    frames::law_frames_are_determined(cos, fft, ln, sample_rate, v, w, wave, f, g);
    assert forall|k: int| #![auto] 0 <= k < x.len() implies x[k].rms_per_band@
        == y[k].rms_per_band@ by {
        assert(f[k]@ == g[k]@);
    }
}

proof fn lemma_one_row_of_onsets<
    C: Fn(Single) -> Single,
    M: Fn(&[Single]) -> Vec<Single>,
    L: Fn(Single) -> Single,
>(
    cos: C,
    fft: M,
    ln: L,
    sample_rate: u32,
    wave: Seq<Single>,
    x: Seq<OnsetChunk>,
    y: Seq<OnsetChunk>,
)
    requires
        frames::is_function(cos),
        frames::is_transform(fft),
        frames::is_function(ln),
        are_onsets(cos, fft, ln, sample_rate, wave, x),
        are_onsets(cos, fft, ln, sample_rate, wave, y),
    ensures
        x == y,
{
    let (v, v2) = choose|v: onset::OnsetView, w: onset::OnsetView| #[trigger]
        onset::fed(fft, ln, v, w, wave, x) && is_fresh_stream(cos, sample_rate, v.stream)
            && v.seen == onset::unseen();
    let (w, w2) = choose|v: onset::OnsetView, w: onset::OnsetView| #[trigger]
        onset::fed(fft, ln, v, w, wave, y) && is_fresh_stream(cos, sample_rate, v.stream)
            && v.seen == onset::unseen();
    let f = choose|f: Seq<Vec<Single>>| #[trigger] onset::listened(fft, ln, v, v2, wave, f, x);
    let g = choose|g: Seq<Vec<Single>>| #[trigger] onset::listened(fft, ln, w, w2, wave, g, y);
    frames::law_frames_are_determined(
        cos,
        fft,
        ln,
        sample_rate,
        v.stream,
        w.stream,
        wave,
        f,
        g,
    );
    assert forall|k: int| 0 <= k < x.len() implies x[k] == y[k] by {
        assert(f[k]@ == g[k]@);
        if k > 0 {
            assert(f.take(k).last() == f[k - 1]);
            assert(g.take(k).last() == g[k - 1]);
            assert(f[k - 1]@ == g[k - 1]@);
        }
    }
    assert(x =~= y);
}

/// Where the functions that are handed in depend on their arguments alone, a waveform has one set
/// of peaks.
pub proof fn law_peaks_are_determined<
    S: Fn(Single) -> Single,
    C: Fn(Single) -> Single,
    M: Fn(&[Single]) -> Vec<Single>,
    L: Fn(Single) -> Single,
>(
    sin: S,
    cos: C,
    fft: M,
    ln: L,
    sample_rate: u32,
    wave: Seq<Single>,
    p: OfflinePeaks,
    q: OfflinePeaks,
)
    requires
        frames::is_function(sin),
        frames::is_function(cos),
        frames::is_transform(fft),
        frames::is_function(ln),
        are_peaks(sin, cos, fft, ln, sample_rate, wave, p),
        are_peaks(sin, cos, fft, ln, sample_rate, wave, q),
    ensures
        same_peaks(p, q),
{
    lemma_one_filter(sin, cos, sample_rate, wave, p.filtered@, q.filtered@);
    lemma_one_row_of_bands(cos, fft, ln, sample_rate, wave, p.bands@, q.bands@);
    lemma_one_row_of_onsets(cos, fft, ln, sample_rate, wave, p.onset@, q.onset@);
}

/// A stereo track has the peaks of its mono mix, in every field.
pub proof fn law_stereo_has_the_peaks_of_its_mix<
    S: Fn(Single) -> Single,
    C: Fn(Single) -> Single,
    M: Fn(&[Single]) -> Vec<Single>,
    L: Fn(Single) -> Single,
>(
    sin: S,
    cos: C,
    fft: M,
    ln: L,
    sample_rate: u32,
    stereo: Seq<Single>,
    p: OfflinePeaks,
    q: OfflinePeaks,
)
    requires
        frames::is_function(sin),
        frames::is_function(cos),
        frames::is_transform(fft),
        frames::is_function(ln),
        are_peaks(sin, cos, fft, ln, sample_rate, mono(stereo, 2), p),
        are_peaks(sin, cos, fft, ln, sample_rate, mono(thru::mono_of(stereo), 1), q),
    ensures
        same_peaks(p, q),
{
    law_peaks_are_determined(sin, cos, fft, ln, sample_rate, mono(stereo, 2), p, q);
}

/// A stereo track with its channels exchanged.
pub open spec fn exchanged(stereo: Seq<Single>) -> Seq<Single> {
    Seq::new(
        stereo.len(),
        |i: int|
            stereo[if i % 2 == 0 {
                i + 1
            } else {
                i - 1
            }],
    )
}

/// Which channel is left and which is right makes no difference to the waveform of a track, nor
/// to its peaks.
pub proof fn law_channels_can_be_exchanged<
    S: Fn(Single) -> Single,
    C: Fn(Single) -> Single,
    M: Fn(&[Single]) -> Vec<Single>,
    L: Fn(Single) -> Single,
>(
    sin: S,
    cos: C,
    fft: M,
    ln: L,
    sample_rate: u32,
    stereo: Seq<Single>,
    p: OfflinePeaks,
    q: OfflinePeaks,
)
    requires
        frames::is_function(sin),
        frames::is_function(cos),
        frames::is_transform(fft),
        frames::is_function(ln),
        stereo.len() % 2 == 0,
        are_peaks(sin, cos, fft, ln, sample_rate, mono(stereo, 2), p),
        are_peaks(sin, cos, fft, ln, sample_rate, mono(exchanged(stereo), 2), q),
    ensures
        mono(exchanged(stereo), 2) == mono(stereo, 2),
        same_peaks(p, q),
{
    let a = thru::mono_of(exchanged(stereo));
    let b = thru::mono_of(stereo);
    assert forall|k: int| 0 <= k < a.len() implies a[k] == b[k] by {
        assert(exchanged(stereo)[2 * k] == stereo[2 * k + 1]);
        assert(exchanged(stereo)[2 * k + 1] == stereo[2 * k]);
        order::law_sum_commutes(stereo[2 * k], stereo[2 * k + 1]);
    }
    assert(a =~= b);
    law_peaks_are_determined(sin, cos, fft, ln, sample_rate, mono(stereo, 2), p, q);
}

/// Samples are analysed if they have a sample rate, one channel or two, and whole frames; otherwise
/// they are refused for the first of these that is missing.
pub proof fn law_samples_are_checked(len: nat, sample_rate: u32, channels: u8)
    requires
        len <= usize::MAX,
    ensures
        fault(len, sample_rate, channels) is None <==> sample_rate > 0 && (channels == 1 || channels
            == 2 && len % 2 == 0),
        fault(len, sample_rate, channels) == Some(OfflinePeaksError::InvalidSampleRate)
            <==> sample_rate == 0,
        sample_rate > 0 && (channels == 0 || channels > 2) ==> fault(len, sample_rate, channels)
            == Some(OfflinePeaksError::UnsupportedChannels(channels)),
        sample_rate > 0 && channels == 2 && len % 2 == 1 ==> fault(len, sample_rate, channels)
            == Some(OfflinePeaksError::Misaligned { len: len as usize, channels }),
{
}

/// The waveform of one channel is the channel itself; that of two channels of sixteen-bit audio is the
/// mean of each frame, exactly.
pub proof fn law_waveforms_are_means(samples: Seq<Single>, k: int, l: int, r: int)
    ensures
        mono(samples, 1) == samples,
        0 <= k < samples.len() / 2 && exact::sixteen_bit(samples[2 * k], l) && exact::sixteen_bit(
            samples[2 * k + 1],
            r,
        ) ==> 2 * exact::single_value(mono(samples, 2)[k]) == (l + r) * pow2(134),
        mono(samples, 2).len() == samples.len() / 2,
{
    if 0 <= k < samples.len() / 2 && exact::sixteen_bit(samples[2 * k], l) && exact::sixteen_bit(
        samples[2 * k + 1],
        r,
    ) {
        hearing::law_mono_is_the_mean(samples, k, l, r);
    }
}

/// The peaks of a waveform have one broadband and one filtered chunk for every 64 samples that it has
/// begun, and one band chunk and one onset for every frame of 1024 samples, 512 samples apart. The
/// first onset is none.
pub proof fn law_peaks_cover_the_waveform<
    S: Fn(Single) -> Single,
    C: Fn(Single) -> Single,
    M: Fn(&[Single]) -> Vec<Single>,
    L: Fn(Single) -> Single,
>(sin: S, cos: C, fft: M, ln: L, sample_rate: u32, wave: Seq<Single>, p: OfflinePeaks)
    requires
        are_peaks(sin, cos, fft, ln, sample_rate, wave, p),
    ensures
        64 * p.broadband@.len() < wave.len() + 64,
        wave.len() <= 64 * p.broadband@.len(),
        p.filtered@.len() == p.broadband@.len(),
        wave.len() < 1024 ==> p.bands@.len() == 0,
        wave.len() >= 1024 ==> 512 * (p.bands@.len() - 1) + 1024 <= wave.len() < 512
            * p.bands@.len() + 1024,
        p.onset@.len() == p.bands@.len(),
        p.onset@.len() > 0 ==> p.onset@[0].flux == (Single { bits: single::ZERO }),
        p.sample_rate == sample_rate,
        p.samples_per_broadband_chunk == 64,
        p.samples_per_filtered_chunk == 64,
        p.samples_per_band_chunk == 512,
        p.samples_per_onset_chunk == 512,
{
    law_broadband_covers_the_track(wave);
    let v = choose|v: frames::StreamView| #[trigger]
        is_fresh_stream(cos, sample_rate, v) && band_decimator::are_emitted(
            fft,
            ln,
            v,
            wave,
            p.bands@,
        );
    band_decimator::law_chunks_come_at_the_hop(fft, ln, v, wave, p.bands@);
    let (a, b) = choose|a: onset::OnsetView, b: onset::OnsetView| #[trigger]
        onset::fed(fft, ln, a, b, wave, p.onset@) && is_fresh_stream(cos, sample_rate, a.stream)
            && a.seen == onset::unseen();
    let heard = choose|heard: Seq<Vec<Single>>| #[trigger]
        onset::listened(fft, ln, a, b, wave, heard, p.onset@);
    if p.onset@.len() > 0 {
        assert(heard.take(0).len() == 0);
        onset::law_first_frame_is_no_onset(a.stream.bands, heard[0]@);
    }
}

} // verus!
