//! Decimation of what a low-pass filter leaves of a waveform.

use vstd::prelude::*;

use crate::ieee::single;
use crate::ieee::single::Single;
use crate::peaks::chunk::FilteredPeakChunk;
use crate::peaks::decimator;
use crate::peaks::windows;

verus! {

/// Bits of one half.
pub const HALF: u32 = 0x3f00_0000;

/// Bits of two.
pub const TWO: u32 = 0x4000_0000;

/// Bits of minus two.
pub const MINUS_TWO: u32 = 0xc000_0000;

/// Bits of pi in single precision.
pub const PI: u32 = 0x4049_0fdb;

/// Bits of the cutoff of the low band: 180 hertz.
pub const LF_CUTOFF_HZ: u32 = 0x4334_0000;

/// Bits of the quality of a Butterworth filter of two poles: one over the square
/// root of two.
pub const BUTTERWORTH_Q_2POLE: u32 = 0x3f35_04f3;

/// The coefficients of a filter of two poles, scaled so that the first of the
/// denominator is one.
#[derive(Clone, Copy, Debug, PartialEq, Eq, Structural)]
pub struct Coefficients {
    pub b0: Single,
    pub b1: Single,
    pub b2: Single,
    pub a1: Single,
    pub a2: Single,
}

/// The last two samples that went into a filter and that came out of it.
#[derive(Clone, Copy, Debug, PartialEq, Eq, Structural)]
pub struct Memory {
    pub x1: Single,
    pub x2: Single,
    pub y1: Single,
    pub y2: Single,
}

/// The frequency of a cutoff in radians per sample.
pub open spec fn angle(cutoff: Single, sample_rate: Single) -> Single {
    single::quotient(
        single::product(single::product(Single { bits: TWO }, Single { bits: PI }), cutoff),
        sample_rate,
    )
}

/// A low-pass filter of quality `q` for the sine and the cosine of its angle.
pub open spec fn lowpass(sin_w: Single, cos_w: Single, q: Single) -> Coefficients {
    let one = Single { bits: single::ONE };
    let alpha = single::quotient(sin_w, single::product(Single { bits: TWO }, q));
    let b1 = single::difference(one, cos_w);
    let b0 = single::product(b1, Single { bits: HALF });
    let scale = single::quotient(one, single::sum(one, alpha));
    Coefficients {
        b0: single::product(b0, scale),
        b1: single::product(b1, scale),
        b2: single::product(b0, scale),
        a1: single::product(single::product(Single { bits: MINUS_TWO }, cos_w), scale),
        a2: single::product(single::difference(one, alpha), scale),
    }
}

/// A filter that has heard nothing.
pub open spec fn silence() -> Memory {
    let zero = Single { bits: single::ZERO };
    Memory { x1: zero, x2: zero, y1: zero, y2: zero }
}

/// What comes out for one sample.
pub open spec fn output(c: Coefficients, m: Memory, x: Single) -> Single {
    single::difference(
        single::difference(
            single::sum(
                single::sum(single::product(c.b0, x), single::product(c.b1, m.x1)),
                single::product(c.b2, m.x2),
            ),
            single::product(c.a1, m.y1),
        ),
        single::product(c.a2, m.y2),
    )
}

/// The memory after one sample.
pub open spec fn remembered(c: Coefficients, m: Memory, x: Single) -> Memory {
    Memory { x1: x, x2: m.x1, y1: output(c, m, x), y2: m.y1 }
}

/// The memory after some samples.
pub open spec fn memory_after(c: Coefficients, m: Memory, xs: Seq<Single>) -> Memory
    decreases xs.len(),
{
    if xs.len() == 0 {
        m
    } else {
        remembered(c, memory_after(c, m, xs.drop_last()), xs.last())
    }
}

/// What comes out for some samples.
pub open spec fn response(c: Coefficients, m: Memory, xs: Seq<Single>) -> Seq<Single> {
    Seq::new(
        xs.len(),
        |i: int| output(c, memory_after(c, m, xs.take(i)), xs[i]),
    )
}

/// One sample more.
proof fn lemma_one_more(c: Coefficients, m: Memory, xs: Seq<Single>, x: Single)
    ensures
        memory_after(c, m, xs.push(x)) == remembered(c, memory_after(c, m, xs), x),
        response(c, m, xs.push(x)) == response(c, m, xs).push(output(c, memory_after(c, m, xs), x)),
{
    let longer = xs.push(x);
    assert(longer.drop_last() =~= xs);
    assert(response(c, m, longer) =~= response(c, m, xs).push(
        output(c, memory_after(c, m, xs), x),
    )) by {
        assert forall|i: int| 0 <= i <= xs.len() implies longer.take(i) == xs.take(i) by {
            assert(longer.take(i) =~= xs.take(i));
        }
        assert(xs.take(xs.len() as int) =~= xs);
    }
}

/// It does not matter in which blocks a filter hears samples.
pub proof fn law_filter_goes_on(c: Coefficients, m: Memory, a: Seq<Single>, b: Seq<Single>)
    ensures
        memory_after(c, memory_after(c, m, a), b) == memory_after(c, m, a + b),
        response(c, m, a) + response(c, memory_after(c, m, a), b) == response(c, m, a + b),
    decreases b.len(),
{
    if b.len() == 0 {
        assert(a + b =~= a);
        assert(response(c, m, a) + response(c, memory_after(c, m, a), b) =~= response(c, m, a));
    } else {
        let front = b.drop_last();
        let x = b.last();
        law_filter_goes_on(c, m, a, front);
        assert(front.push(x) =~= b);
        assert((a + front).push(x) =~= a + b);
        lemma_one_more(c, memory_after(c, m, a), front, x);
        lemma_one_more(c, m, a + front, x);
        let y = output(c, memory_after(c, m, a + front), x);
        assert(response(c, m, a) + response(c, memory_after(c, m, a), front).push(y) =~= (response(
            c,
            m,
            a,
        ) + response(c, memory_after(c, m, a), front)).push(y));
    }
}

/// A filter of two poles.
#[derive(Clone, Copy, Debug)]
pub struct Biquad {
    pub coefficients: Coefficients,
    pub memory: Memory,
}

impl Biquad {
    /// A low-pass filter of quality `q` for the sine and the cosine of its angle.
    pub fn lowpass(sin_w: Single, cos_w: Single, q: Single) -> (r: Self)
        ensures
            r == (Biquad { coefficients: lowpass(sin_w, cos_w, q), memory: silence() }),
    {
        let one = Single { bits: single::ONE };
        let zero = Single { bits: single::ZERO };
        let alpha: Single = sin_w.over(Single { bits: TWO }.times(q));
        let b1: Single = one.minus(cos_w);
        let b0: Single = b1.times(Single { bits: HALF });
        let scale: Single = one.over(one.plus(alpha));
        Biquad {
            coefficients: Coefficients {
                b0: b0.times(scale),
                b1: b1.times(scale),
                b2: b0.times(scale),
                a1: Single { bits: MINUS_TWO }.times(cos_w).times(scale),
                a2: one.minus(alpha).times(scale),
            },
            memory: Memory { x1: zero, x2: zero, y1: zero, y2: zero },
        }
    }

    /// Filters one sample.
    pub fn process(&mut self, x: Single) -> (y: Single)
        ensures
            y == output(old(self).coefficients, old(self).memory, x),
            *final(self) == (Biquad {
                memory: remembered(old(self).coefficients, old(self).memory, x),
                ..*old(self)
            }),
    {
        let c = self.coefficients;
        let m = self.memory;
        let y: Single = c.b0.times(x).plus(c.b1.times(m.x1)).plus(c.b2.times(m.x2)).minus(
            c.a1.times(m.y1),
        ).minus(c.a2.times(m.y2));
        self.memory = Memory { x1: x, x2: m.x1, y1: y, y2: m.y1 };
        y
    }

    /// Forgets what the filter heard.
    pub fn reset(&mut self)
        ensures
            *final(self) == (Biquad { memory: silence(), ..*old(self) }),
    {
        let zero = Single { bits: single::ZERO };
        self.memory = Memory { x1: zero, x2: zero, y1: zero, y2: zero };
    }
}

/// The chunk that filtered samples become. Only the low band is filtered; the
/// others stay zero.
pub open spec fn summary(filtered: Seq<Single>) -> FilteredPeakChunk {
    let zero = Single { bits: single::ZERO };
    FilteredPeakChunk {
        lf_min: decimator::least(filtered),
        lf_max: decimator::greatest(filtered),
        mf_min: zero,
        mf_max: zero,
        hf_min: zero,
        hf_max: zero,
    }
}

/// The chunks that filtered samples become, but for what is left at their end.
pub open spec fn decimated(filtered: Seq<Single>, n: nat) -> Seq<FilteredPeakChunk> {
    windows::chunks(filtered, n).map_values(|w: Seq<Single>| summary(w))
}

/// A decimator behind a filter.
pub struct FilteredDecimator {
    samples_per_chunk: usize,
    lf: Biquad,
    lf_min: Single,
    lf_max: Single,
    accum_count: usize,
    pending: Ghost<Seq<Single>>,
}

/// The state of a decimator behind a filter.
#[verifier::ext_equal]
pub ghost struct FilteredView {
    pub samples_per_chunk: nat,
    pub coefficients: Coefficients,
    pub memory: Memory,
    /// The filtered samples of the chunk that is not complete.
    pub pending: Seq<Single>,
}

/// A decimator that was fed nothing.
pub open spec fn fresh(n: nat, c: Coefficients) -> FilteredView {
    FilteredView {
        samples_per_chunk: n,
        coefficients: c,
        memory: silence(),
        pending: Seq::empty(),
    }
}

/// The filtered samples that wait or come of `samples`.
pub open spec fn heard(v: FilteredView, samples: Seq<Single>) -> Seq<Single> {
    v.pending + response(v.coefficients, v.memory, samples)
}

/// A decimator after it was fed samples.
pub open spec fn fed(v: FilteredView, samples: Seq<Single>) -> FilteredView {
    FilteredView {
        memory: memory_after(v.coefficients, v.memory, samples),
        pending: windows::rest(heard(v, samples), v.samples_per_chunk),
        ..v
    }
}

/// The chunks that samples complete.
pub open spec fn emitted(v: FilteredView, samples: Seq<Single>) -> Seq<FilteredPeakChunk> {
    decimated(heard(v, samples), v.samples_per_chunk)
}

/// The chunk of the samples that wait, if any.
pub open spec fn remainder(v: FilteredView) -> Seq<FilteredPeakChunk> {
    if v.pending.len() == 0 {
        Seq::empty()
    } else {
        seq![summary(v.pending)]
    }
}

/// The filter that the functions `sin` and `cos` give at a sample rate.
pub open spec fn is_filter<S: Fn(Single) -> Single, C: Fn(Single) -> Single>(
    sin: S,
    cos: C,
    sample_rate: u32,
    c: Coefficients,
) -> bool {
    let w = angle(Single { bits: LF_CUTOFF_HZ }, single::from_int(sample_rate as nat));
    exists|s: Single, k: Single| #[trigger]
        call_ensures(sin, (w,), s) && #[trigger] call_ensures(cos, (w,), k) && c == lowpass(
            s,
            k,
            Single { bits: BUTTERWORTH_Q_2POLE },
        )
}

impl FilteredDecimator {
    pub closed spec fn view(&self) -> FilteredView {
        FilteredView {
            samples_per_chunk: self.samples_per_chunk as nat,
            coefficients: self.lf.coefficients,
            memory: self.lf.memory,
            pending: self.pending@,
        }
    }

    /// Chunks have samples, and what is kept of the samples that wait is right.
    pub closed spec fn wf(&self) -> bool {
        &&& self.samples_per_chunk > 0
        &&& self.accum_count < self.samples_per_chunk
        &&& self.pending@.len() == self.accum_count
        &&& self.lf_min == decimator::least(self.pending@)
        &&& self.lf_max == decimator::greatest(self.pending@)
    }

    /// A decimator at a sample rate for chunks of some samples.
    pub fn new<S: Fn(Single) -> Single, C: Fn(Single) -> Single>(
        sample_rate_hz: u32,
        samples_per_chunk: usize,
        sin: &S,
        cos: &C,
    ) -> (r: Self)
        requires
            samples_per_chunk > 0,
            sample_rate_hz > 0,
            forall|x: Single| call_requires(*sin, (x,)),
            forall|x: Single| call_requires(*cos, (x,)),
        ensures
            r.wf(),
            exists|c: Coefficients| #[trigger]
                is_filter(*sin, *cos, sample_rate_hz, c) && r@ == fresh(
                    samples_per_chunk as nat,
                    c,
                ),
    {
        let sr: Single = Single::from_u64(sample_rate_hz as u64);
        let w: Single = Single { bits: TWO }.times(Single { bits: PI }).times(
            Single { bits: LF_CUTOFF_HZ },
        ).over(sr);
        assert(w == angle(
            Single { bits: LF_CUTOFF_HZ },
            single::from_int(sample_rate_hz as nat),
        ));
        let s: Single = (*sin)(w);
        let k: Single = (*cos)(w);
        let lf = Biquad::lowpass(s, k, Single { bits: BUTTERWORTH_Q_2POLE });
        let r = Self::behind(lf, samples_per_chunk);
        assert(is_filter(*sin, *cos, sample_rate_hz, lf.coefficients));
        r
    }

    /// A decimator behind a filter.
    pub fn behind(lf: Biquad, samples_per_chunk: usize) -> (r: Self)
        requires
            samples_per_chunk > 0,
        ensures
            r.wf(),
            r@ == (FilteredView {
                memory: lf.memory,
                ..fresh(samples_per_chunk as nat, lf.coefficients)
            }),
    {
        FilteredDecimator {
            samples_per_chunk,
            lf,
            lf_min: Single { bits: single::INFINITY },
            lf_max: Single { bits: single::NEG_INFINITY },
            accum_count: 0,
            pending: Ghost(Seq::empty()),
        }
    }

    /// Samples per chunk.
    pub fn samples_per_chunk(&self) -> (r: usize)
        ensures
            r == self@.samples_per_chunk,
    {
        self.samples_per_chunk
    }

    /// How many samples of the next chunk were fed.
    pub fn pending(&self) -> (r: usize)
        requires
            self.wf(),
        ensures
            r == self@.pending.len(),
            r < self@.samples_per_chunk,
    {
        self.accum_count
    }

    /// Takes in one filtered sample; the chunk it completes, if it does.
    fn absorb(&mut self, y: Single) -> (r: Option<FilteredPeakChunk>)
        requires
            old(self).wf(),
        ensures
            final(self).wf(),
            final(self)@ == (FilteredView { pending: final(self)@.pending, ..old(self)@ }),
            old(self)@.pending.len() < old(self)@.samples_per_chunk,
            old(self)@.pending.len() + 1 == old(self)@.samples_per_chunk ==> r == Some(
                summary(old(self)@.pending.push(y)),
            ) && final(self)@.pending == Seq::<Single>::empty(),
            old(self)@.pending.len() + 1 < old(self)@.samples_per_chunk ==> r is None
                && final(self)@.pending == old(self)@.pending.push(y),
    {
        let ghost next = self.pending@.push(y);
        assert(next.drop_last() =~= self.pending@);
        if y.lt(self.lf_min) {
            self.lf_min = y;
        }
        if self.lf_max.lt(y) {
            self.lf_max = y;
        }
        self.accum_count = self.accum_count + 1;
        proof {
            self.pending@ = next;
        }
        if self.accum_count == self.samples_per_chunk {
            let chunk = self.chunk();
            self.clear();
            Some(chunk)
        } else {
            None
        }
    }

    /// The chunk of what is kept.
    fn chunk(&self) -> (r: FilteredPeakChunk)
        requires
            self.lf_min == decimator::least(self.pending@),
            self.lf_max == decimator::greatest(self.pending@),
        ensures
            r == summary(self@.pending),
    {
        let zero = Single { bits: single::ZERO };
        FilteredPeakChunk {
            lf_min: self.lf_min,
            lf_max: self.lf_max,
            mf_min: zero,
            mf_max: zero,
            hf_min: zero,
            hf_max: zero,
        }
    }

    /// Forgets the samples that wait.
    fn clear(&mut self)
        requires
            old(self)@.samples_per_chunk > 0,
        ensures
            final(self).wf(),
            final(self)@ == (FilteredView { pending: Seq::empty(), ..old(self)@ }),
    {
        self.lf_min = Single { bits: single::INFINITY };
        self.lf_max = Single { bits: single::NEG_INFINITY };
        self.accum_count = 0;
        proof {
            self.pending@ = Seq::empty();
        }
    }

    /// Takes in samples and appends the chunks that they complete to `out`.
    pub fn feed(&mut self, samples: &[Single], out: &mut Vec<FilteredPeakChunk>)
        requires
            old(self).wf(),
        ensures
            final(self).wf(),
            final(self)@ == fed(old(self)@, samples@),
            final(out)@ == old(out)@ + emitted(old(self)@, samples@),
    {
        let ghost v = self@;
        let ghost n = v.samples_per_chunk;
        let ghost before = out@;
        proof {
            assert(heard(v, samples@.take(0)) =~= v.pending);
            windows::lemma_nothing_whole(v.pending, n);
            assert(decimated(v.pending, n) =~= Seq::<FilteredPeakChunk>::empty());
            assert(before + Seq::<FilteredPeakChunk>::empty() =~= before);
        }
        let len: usize = samples.len();
        let mut i: usize = 0;
        while i < len
            invariant
                i <= len,
                len == samples@.len(),
                self.wf(),
                n > 0,
                n == v.samples_per_chunk,
                self@ == fed(v, samples@.take(i as int)),
                out@ == before + emitted(v, samples@.take(i as int)),
            decreases len - i,
        {
            let x: Single = samples[i];
            let ghost done = samples@.take(i as int);
            let ghost all = heard(v, done);
            let y: Single = self.lf.process(x);
            proof {
                assert(samples@.take(i + 1) =~= done.push(x));
                lemma_one_more(v.coefficients, v.memory, done, x);
                assert(heard(v, done.push(x)) =~= all.push(y));
                windows::lemma_one_more(all, y, n);
            }
            match self.absorb(y) {
                Some(chunk) => {
                    out.push(chunk);
                    proof {
                        let w = windows::rest(all, n).push(y);
                        assert(decimated(all.push(y), n) =~= decimated(all, n).push(summary(w)));
                        assert(before + decimated(all.push(y), n) =~= (before + decimated(
                            all,
                            n,
                        )).push(chunk));
                    }
                },
                None => {},
            }
            assert(self@ =~= fed(v, samples@.take(i + 1)));
            i = i + 1;
        }
        assert(samples@.take(len as int) =~= samples@);
    }

    /// Forgets the samples that wait and what the filter heard.
    pub fn reset(&mut self)
        requires
            old(self)@.samples_per_chunk > 0,
        ensures
            final(self).wf(),
            final(self)@ == fresh(old(self)@.samples_per_chunk, old(self)@.coefficients),
    {
        self.clear();
        self.lf.reset();
    }

    /// Appends a last chunk of the samples that wait to `out`, if there are any, and
    /// forgets them and what the filter heard.
    pub fn flush(&mut self, out: &mut Vec<FilteredPeakChunk>)
        requires
            old(self).wf(),
        ensures
            final(self).wf(),
            final(self)@ == fresh(old(self)@.samples_per_chunk, old(self)@.coefficients),
            final(out)@ == old(out)@ + remainder(old(self)@),
    {
        if self.accum_count > 0 {
            out.push(self.chunk());
        }
        self.reset();
        assert(out@ =~= old(out)@ + remainder(old(self)@));
    }
}

/// It does not matter in which blocks samples are fed: two blocks give what one
/// block of both gives.
pub proof fn law_blocks_do_not_matter(v: FilteredView, a: Seq<Single>, b: Seq<Single>)
    requires
        v.samples_per_chunk > 0,
    ensures
        fed(fed(v, a), b) == fed(v, a + b),
        emitted(v, a) + emitted(fed(v, a), b) == emitted(v, a + b),
{
    let n = v.samples_per_chunk;
    let all = heard(v, a);
    let more = response(v.coefficients, memory_after(v.coefficients, v.memory, a), b);
    law_filter_goes_on(v.coefficients, v.memory, a, b);
    assert(heard(v, a + b) =~= all + more);
    windows::law_cutting_in_steps(all, more, n);
    assert(decimated(all + more, n) =~= decimated(all, n) + decimated(
        windows::rest(all, n) + more,
        n,
    ));
}

/// One chunk comes out for every full set of samples, and fewer than that wait.
pub proof fn law_every_sample_counts(v: FilteredView, samples: Seq<Single>)
    requires
        v.samples_per_chunk > 0,
    ensures
        emitted(v, samples).len() * v.samples_per_chunk + fed(v, samples).pending.len()
            == v.pending.len() + samples.len(),
        fed(v, samples).pending.len() < v.samples_per_chunk,
{
    windows::law_cutting_counts(heard(v, samples), v.samples_per_chunk);
}

/// Fed the same number of samples from the start, both decimators emit the same
/// number of chunks, and the same number of samples waits.
pub proof fn law_filtered_chunks_pair_with_broadband(
    n: nat,
    c: Coefficients,
    samples: Seq<Single>,
)
    requires
        n > 0,
    ensures
        emitted(fresh(n, c), samples).len() == decimator::emitted(
            decimator::fresh(n),
            samples,
        ).len(),
        fed(fresh(n, c), samples).pending.len() == decimator::fed(
            decimator::fresh(n),
            samples,
        ).pending.len(),
{
    windows::lemma_bounds(heard(fresh(n, c), samples), n);
    windows::lemma_bounds(decimator::fresh(n).pending + samples, n);
}

} // verus!
