//! The strength of onsets, hop by hop: how much louder the bands became.

use vstd::prelude::*;

use crate::ieee::identities;
use crate::ieee::order;
use crate::ieee::single;
use crate::ieee::single::Single;
use crate::peaks::chunk;
use crate::peaks::chunk::OnsetChunk;
use crate::spectral::bands;
use crate::spectral::frames;
use crate::spectral::frames::SpectralFrameStream;

verus! {

/// What is kept of the frames so far.
#[verifier::ext_equal]
pub ghost struct Seen {
    /// The bins of the last frame.
    pub prev: Seq<Single>,
    /// Whether there was a frame.
    pub have_prev: bool,
}

/// How much the bins from `lo` up to `hi` rose, added from the lowest; what fell
/// does not count.
pub open spec fn rise(prev: Seq<Single>, frame: Seq<Single>, lo: int, hi: int) -> Single
    decreases hi - lo,
{
    if hi <= lo {
        Single { bits: single::ZERO }
    } else {
        let sofar = rise(prev, frame, lo, hi - 1);
        let step = single::difference(frame[hi - 1], prev[hi - 1]);
        if single::less(Single { bits: single::ZERO }, step) {
            single::sum(sofar, step)
        } else {
            sofar
        }
    }
}

/// The mean rise of each of the first `k` bands over the last frame, added from the
/// lowest.
pub open spec fn flux(
    layout: Seq<(usize, usize)>,
    prev: Seq<Single>,
    frame: Seq<Single>,
    k: nat,
) -> Single
    decreases k,
{
    if k == 0 {
        Single { bits: single::ZERO }
    } else {
        let (lo, hi) = layout[k - 1];
        single::sum(
            flux(layout, prev, frame, (k - 1) as nat),
            single::quotient(
                rise(prev, frame, lo as int, hi as int),
                single::from_int((hi - lo) as nat),
            ),
        )
    }
}

/// The onset of a frame: nothing for the first one.
pub open spec fn onset(layout: Seq<(usize, usize)>, s: Seen, frame: Seq<Single>) -> OnsetChunk {
    OnsetChunk {
        flux: if s.have_prev {
            flux(layout, s.prev, frame, layout.len())
        } else {
            Single { bits: single::ZERO }
        },
    }
}

/// What is kept after a frame: the frame.
pub open spec fn seen(frame: Seq<Single>) -> Seen {
    Seen { prev: frame, have_prev: true }
}

/// What is kept after some frames.
pub open spec fn seen_after(s: Seen, heard: Seq<Vec<Single>>) -> Seen {
    if heard.len() == 0 {
        s
    } else {
        seen(heard.last()@)
    }
}

/// The onsets of some frames.
pub open spec fn onsets(
    layout: Seq<(usize, usize)>,
    s: Seen,
    heard: Seq<Vec<Single>>,
) -> Seq<OnsetChunk> {
    Seq::new(heard.len(), |k: int| onset(layout, seen_after(s, heard.take(k)), heard[k]@))
}

/// One frame more.
proof fn lemma_one_more(
    layout: Seq<(usize, usize)>,
    s: Seen,
    heard: Seq<Vec<Single>>,
    x: Vec<Single>,
)
    ensures
        seen_after(s, heard.push(x)) == seen(x@),
        onsets(layout, s, heard.push(x)) == onsets(layout, s, heard).push(
            onset(layout, seen_after(s, heard), x@),
        ),
{
    let longer = heard.push(x);
    assert(onsets(layout, s, longer) =~= onsets(layout, s, heard).push(
        onset(layout, seen_after(s, heard), x@),
    )) by {
        assert forall|i: int| 0 <= i <= heard.len() implies longer.take(i) == heard.take(i) by {
            assert(longer.take(i) =~= heard.take(i));
        }
        assert(heard.take(heard.len() as int) =~= heard);
    }
}

/// The onsets of two runs of frames are those of the frames of both.
proof fn lemma_runs_compose(
    layout: Seq<(usize, usize)>,
    s: Seen,
    a: Seq<Vec<Single>>,
    b: Seq<Vec<Single>>,
)
    ensures
        seen_after(seen_after(s, a), b) == seen_after(s, a + b),
        onsets(layout, s, a) + onsets(layout, seen_after(s, a), b) == onsets(
            layout,
            s,
            a + b,
        ),
    decreases b.len(),
{
    if b.len() == 0 {
        assert(a + b =~= a);
        assert(onsets(layout, s, a) + onsets(layout, seen_after(s, a), b) =~= onsets(
            layout,
            s,
            a,
        ));
    } else {
        let front = b.drop_last();
        let x = b.last();
        lemma_runs_compose(layout, s, a, front);
        assert(front.push(x) =~= b);
        assert((a + front).push(x) =~= a + b);
        lemma_one_more(layout, seen_after(s, a), front, x);
        lemma_one_more(layout, s, a + front, x);
        let y = onset(layout, seen_after(s, a + front), x@);
        assert(onsets(layout, s, a) + onsets(layout, seen_after(s, a), front).push(y)
            =~= (onsets(layout, s, a) + onsets(layout, seen_after(s, a), front)).push(y));
    }
}

/// The state of an onset decimator.
#[verifier::ext_equal]
pub ghost struct OnsetView {
    pub stream: frames::StreamView,
    pub seen: Seen,
}

/// Samples whose frames are `heard` turned `v` into `w` and gave `chunks`.
pub open spec fn listened<M: Fn(&[Single]) -> Vec<Single>, L: Fn(Single) -> Single>(
    fft: M,
    ln: L,
    v: OnsetView,
    w: OnsetView,
    samples: Seq<Single>,
    heard: Seq<Vec<Single>>,
    chunks: Seq<OnsetChunk>,
) -> bool {
    &&& frames::are_frames(fft, ln, v.stream, samples, heard)
    &&& chunks == onsets(v.stream.bands, v.seen, heard)
    &&& w == (OnsetView {
        stream: frames::given(v.stream, samples),
        seen: seen_after(v.seen, heard),
    })
}

/// Samples turned `v` into `w` and gave `chunks`.
pub open spec fn fed<M: Fn(&[Single]) -> Vec<Single>, L: Fn(Single) -> Single>(
    fft: M,
    ln: L,
    v: OnsetView,
    w: OnsetView,
    samples: Seq<Single>,
    chunks: Seq<OnsetChunk>,
) -> bool {
    exists|heard: Seq<Vec<Single>>| #[trigger] listened(fft, ln, v, w, samples, heard, chunks)
}

/// The bands lie in the spectrum, and the bins of the last frame are those of one.
pub open spec fn well_formed(v: OnsetView) -> bool {
    &&& frames::well_formed(v.stream)
    &&& v.seen.prev.len() == frames::HALF_SPECTRUM
}

/// Nothing seen yet.
pub open spec fn unseen() -> Seen {
    Seen {
        prev: Seq::new(frames::HALF_SPECTRUM as nat, |b: int| Single { bits: single::ZERO }),
        have_prev: false,
    }
}

/// A decimator into onsets.
pub struct OnsetDecimator {
    spectral: SpectralFrameStream,
    prev_log_mag: Vec<Single>,
    have_prev: bool,
}

impl OnsetDecimator {
    pub closed spec fn view(&self) -> OnsetView {
        OnsetView {
            stream: self.spectral@,
            seen: Seen { prev: self.prev_log_mag@, have_prev: self.have_prev },
        }
    }

    /// A decimator at a sample rate.
    pub fn new<C: Fn(Single) -> Single>(sample_rate: u32, cos: &C) -> (r: Self)
        requires
            forall|x: Single| call_requires(*cos, (x,)),
        ensures
            well_formed(r@),
            frames::is_layout(sample_rate, r@.stream.bands),
            frames::is_window(*cos, r@.stream.window),
            r@.stream.pending == Seq::<Single>::empty(),
            r@.seen == unseen(),
    {
        let r = OnsetDecimator {
            spectral: SpectralFrameStream::new(sample_rate, cos),
            prev_log_mag: vec![Single { bits: single::ZERO }; frames::HALF_SPECTRUM],
            have_prev: false,
        };
        assert(r@.seen =~= unseen());
        r
    }

    /// Samples per chunk.
    pub fn samples_per_chunk(&self) -> (r: usize)
        ensures
            r == chunk::BAND_SAMPLES_PER_CHUNK,
            r == bands::HOP_SIZE,
    {
        chunk::BAND_SAMPLES_PER_CHUNK
    }

    /// How much one band of a frame rose over the last frame.
    fn band_rise(&self, frame: &[Single], lo: usize, hi: usize) -> (r: Single)
        requires
            lo <= hi <= frame@.len(),
            frame@.len() == self@.seen.prev.len(),
        ensures
            r == rise(self@.seen.prev, frame@, lo as int, hi as int),
    {
        let zero = Single { bits: single::ZERO };
        let mut band_sum: Single = zero;
        let mut b: usize = lo;
        while b < hi
            invariant
                lo <= b <= hi <= frame@.len(),
                self.prev_log_mag@.len() == frame@.len(),
                zero == (Single { bits: single::ZERO }),
                band_sum == rise(self.prev_log_mag@, frame@, lo as int, b as int),
            decreases hi - b,
        {
            let step: Single = frame[b].minus(self.prev_log_mag[b]);
            if zero.lt(step) {
                band_sum = band_sum.plus(step);
            }
            b = b + 1;
        }
        band_sum
    }

    /// How much a frame rose over the last one, over all bands.
    fn total_rise(&self, frame: &[Single]) -> (r: Single)
        requires
            well_formed(self@),
            frame@.len() == frames::HALF_SPECTRUM,
        ensures
            r == flux(self@.stream.bands, self@.seen.prev, frame@, bands::NUM_BANDS as nat),
    {
        let mut total = Single { bits: single::ZERO };
        let mut k: usize = 0;
        while k < bands::NUM_BANDS
            invariant
                k <= bands::NUM_BANDS,
                frame@.len() == frames::HALF_SPECTRUM,
                well_formed(self@),
                total == flux(self@.stream.bands, self@.seen.prev, frame@, k as nat),
            decreases bands::NUM_BANDS - k,
        {
            let (lo, hi) = self.spectral.bands()[k];
            assert((lo, hi) == self@.stream.bands[k as int]);
            let band_sum: Single = self.band_rise(frame, lo, hi);
            total = total.plus(band_sum.over(Single::from_u64((hi - lo) as u64)));
            k = k + 1;
        }
        total
    }

    /// Keeps a frame for the next one.
    fn keep(&mut self, frame: &[Single])
        requires
            frame@.len() == old(self)@.seen.prev.len(),
        ensures
            final(self)@ == (OnsetView { seen: seen(frame@), ..old(self)@ }),
    {
        let ghost v = self@;
        let len: usize = frame.len();
        let mut b: usize = 0;
        while b < len
            invariant
                b <= len,
                len == frame@.len() == self.prev_log_mag@.len(),
                self.spectral@ == v.stream,
                self.prev_log_mag@.take(b as int) =~= frame@.take(b as int),
            decreases len - b,
        {
            self.prev_log_mag.set(b, frame[b]);
            b = b + 1;
        }
        assert(self.prev_log_mag@.take(len as int) =~= self.prev_log_mag@);
        assert(frame@.take(len as int) =~= frame@);
        self.have_prev = true;
    }

    /// Takes in one frame: its rise over the last one, which it then replaces.
    pub fn step(&mut self, frame: &[Single]) -> (r: OnsetChunk)
        requires
            well_formed(old(self)@),
            frame@.len() == frames::HALF_SPECTRUM,
        ensures
            well_formed(final(self)@),
            r == onset(old(self)@.stream.bands, old(self)@.seen, frame@),
            final(self)@ == (OnsetView { seen: seen(frame@), ..old(self)@ }),
    {
        let flux: Single = if self.have_prev {
            self.total_rise(frame)
        } else {
            Single { bits: single::ZERO }
        };
        self.keep(frame);
        OnsetChunk { flux }
    }

    /// Takes in samples and appends one chunk for every frame that they complete to
    /// `out`.
    pub fn feed<M: Fn(&[Single]) -> Vec<Single>, L: Fn(Single) -> Single>(
        &mut self,
        samples: &[Single],
        fft: &M,
        ln: &L,
        out: &mut Vec<OnsetChunk>,
    )
        requires
            well_formed(old(self)@),
            forall|s: &[Single]| s@.len() == bands::FRAME_SIZE ==> call_requires(*fft, (s,)),
            forall|s: &[Single], m: Vec<Single>|
                s@.len() == bands::FRAME_SIZE && call_ensures(*fft, (s,), m) ==> m@.len()
                    == frames::HALF_SPECTRUM,
            forall|x: Single| call_requires(*ln, (x,)),
        ensures
            well_formed(final(self)@),
            old(out)@.is_prefix_of(final(out)@),
            fed(
                *fft,
                *ln,
                old(self)@,
                final(self)@,
                samples@,
                final(out)@.skip(old(out)@.len() as int),
            ),
    {
        let ghost v = self@;
        let ghost layout = v.stream.bands;
        let ghost before = out@;
        let mut heard: Vec<Vec<Single>> = Vec::new();
        self.spectral.process(samples, fft, ln, &mut heard);
        let count: usize = heard.len();
        let mut k: usize = 0;
        proof {
            assert(heard@.skip(0) =~= heard@);
            assert(heard@.take(0) =~= Seq::<Vec<Single>>::empty());
            assert(before + onsets(layout, v.seen, heard@.take(0)) =~= before);
        }
        while k < count
            invariant
                k <= count,
                count == heard@.len(),
                layout == v.stream.bands,
                frames::are_frames(*fft, *ln, v.stream, samples@, heard@),
                well_formed(v),
                well_formed(self@),
                self@.stream == frames::given(v.stream, samples@),
                self@.seen == seen_after(v.seen, heard@.take(k as int)),
                out@ == before + onsets(layout, v.seen, heard@.take(k as int)),
            decreases count - k,
        {
            proof {
                let all = v.stream.pending + samples@;
                assert(frames::is_frame(
                    *fft,
                    *ln,
                    v.stream,
                    frames::frame_samples(all, k as int),
                    heard@[k as int]@,
                ));
                assert(heard@.take(k + 1) =~= heard@.take(k as int).push(heard@[k as int]));
                lemma_one_more(layout, v.seen, heard@.take(k as int), heard@[k as int]);
            }
            let chunk = self.step(heard[k].as_slice());
            out.push(chunk);
            assert(out@ =~= before + onsets(layout, v.seen, heard@.take(k + 1)));
            k = k + 1;
        }
        proof {
            assert(heard@.take(count as int) =~= heard@);
            let chunks = out@.skip(before.len() as int);
            assert(chunks =~= onsets(layout, v.seen, heard@));
            assert(before =~= out@.subrange(0, before.len() as int));
            assert(listened(*fft, *ln, v, self@, samples@, heard@, chunks));
        }
    }

    /// Forgets the samples that wait and the last frame.
    pub fn reset(&mut self)
        requires
            well_formed(old(self)@),
        ensures
            well_formed(final(self)@),
            final(self)@ == (OnsetView {
                stream: frames::StreamView { pending: Seq::empty(), ..old(self)@.stream },
                seen: unseen(),
            }),
    {
        self.spectral.reset();
        self.prev_log_mag = vec![Single { bits: single::ZERO }; frames::HALF_SPECTRUM];
        self.have_prev = false;
        assert(self@.seen =~= unseen());
    }
}

/// It does not matter in which blocks samples are fed: the onsets of two blocks are
/// those of one block of both.
pub proof fn law_blocks_do_not_matter<M: Fn(&[Single]) -> Vec<Single>, L: Fn(Single) -> Single>(
    fft: M,
    ln: L,
    v: OnsetView,
    m: OnsetView,
    w: OnsetView,
    a: Seq<Single>,
    b: Seq<Single>,
    first: Seq<OnsetChunk>,
    second: Seq<OnsetChunk>,
)
    requires
        fed(fft, ln, v, m, a, first),
        fed(fft, ln, m, w, b, second),
    ensures
        fed(fft, ln, v, w, a + b, first + second),
{
    let x = choose|x: Seq<Vec<Single>>| #[trigger] listened(fft, ln, v, m, a, x, first);
    let y = choose|y: Seq<Vec<Single>>| #[trigger] listened(fft, ln, m, w, b, y, second);
    frames::law_blocks_do_not_matter(fft, ln, v.stream, a, b, x, y);
    lemma_runs_compose(v.stream.bands, v.seen, x, y);
    assert(listened(fft, ln, v, w, a + b, x + y, first + second));
}

/// The first frame has no onset: there is nothing to compare it with.
pub proof fn law_first_frame_is_no_onset(layout: Seq<(usize, usize)>, frame: Seq<Single>)
    ensures
        onset(layout, unseen(), frame).flux == (Single { bits: single::ZERO }),
{
}

/// The onset of a later frame is its rise over the frame before it.
pub proof fn law_onsets_compare_neighbours(
    layout: Seq<(usize, usize)>,
    s: Seen,
    heard: Seq<Vec<Single>>,
    j: int,
)
    requires
        0 < j < heard.len(),
    ensures
        onsets(layout, s, heard)[j].flux == flux(layout, heard[j - 1]@, heard[j]@, layout.len()),
{
    assert(heard.take(j).last() == heard[j - 1]);
}

/// Every band has bins, few enough to be counted.
pub open spec fn bands_have_bins(layout: Seq<(usize, usize)>) -> bool {
    forall|k: int|
        0 <= k < layout.len() ==> (#[trigger] layout[k]).0 < layout[k].1 <= frames::HALF_SPECTRUM
}

proof fn lemma_rise_is_not_negative(prev: Seq<Single>, frame: Seq<Single>, lo: int, hi: int)
    ensures
        single::at_most(Single { bits: single::ZERO }, rise(prev, frame, lo, hi)),
    decreases hi - lo,
{
    if hi > lo {
        lemma_rise_is_not_negative(prev, frame, lo, hi - 1);
        let step = single::difference(frame[hi - 1], prev[hi - 1]);
        if single::less(Single { bits: single::ZERO }, step) {
            order::law_sum_is_not_negative(rise(prev, frame, lo, hi - 1), step);
        }
    }
}

/// The strength of an onset is a number, and not negative, whatever the frames hold.
pub proof fn law_flux_is_not_negative(
    layout: Seq<(usize, usize)>,
    prev: Seq<Single>,
    frame: Seq<Single>,
    k: nat,
)
    requires
        bands_have_bins(layout),
        k <= layout.len(),
    ensures
        single::at_most(Single { bits: single::ZERO }, flux(layout, prev, frame, k)),
    decreases k,
{
    if k > 0 {
        let (lo, hi) = layout[k - 1];
        let d = single::from_int((hi - lo) as nat);
        let r = rise(prev, frame, lo as int, hi as int);
        law_flux_is_not_negative(layout, prev, frame, (k - 1) as nat);
        lemma_rise_is_not_negative(prev, frame, lo as int, hi as int);
        order::law_counts_keep_their_order((hi - lo) as nat, (hi - lo) as nat);
        order::law_quotient_is_not_negative(r, d);
        order::law_sum_is_not_negative(
            flux(layout, prev, frame, (k - 1) as nat),
            single::quotient(r, d),
        );
    }
}

proof fn lemma_nothing_rises(frame: Seq<Single>, lo: int, hi: int)
    ensures
        rise(frame, frame, lo, hi) == (Single { bits: single::ZERO }),
    decreases hi - lo,
{
    if hi > lo {
        lemma_nothing_rises(frame, lo, hi - 1);
        order::law_nothing_exceeds_itself(frame[hi - 1]);
    }
}

/// A frame that repeats the one before it is no onset.
pub proof fn law_equal_frames_are_no_onset(
    layout: Seq<(usize, usize)>,
    frame: Seq<Single>,
    k: nat,
)
    requires
        bands_have_bins(layout),
        k <= layout.len(),
    ensures
        flux(layout, frame, frame, k) == (Single { bits: single::ZERO }),
    decreases k,
{
    if k > 0 {
        let (lo, hi) = layout[k - 1];
        let zero = Single { bits: single::ZERO };
        law_equal_frames_are_no_onset(layout, frame, (k - 1) as nat);
        lemma_nothing_rises(frame, lo as int, hi as int);
        order::law_counts_keep_their_order((hi - lo) as nat, (hi - lo) as nat);
        order::law_quotient_is_not_negative(zero, single::from_int((hi - lo) as nat));
        identities::law_sum_with_zero(zero);
    }
}

/// As many onsets come out as band chunks.
pub proof fn law_onsets_pair_with_bands<M: Fn(&[Single]) -> Vec<Single>, L: Fn(Single) -> Single>(
    fft: M,
    ln: L,
    v: OnsetView,
    w: OnsetView,
    samples: Seq<Single>,
    chunks: Seq<OnsetChunk>,
)
    requires
        fed(fft, ln, v, w, samples, chunks),
    ensures
        chunks.len() == frames::frame_count(v.stream.pending.len() + samples.len()),
{
}

} // verus!
