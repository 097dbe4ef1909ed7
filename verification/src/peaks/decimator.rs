//! Decimation of a waveform: every chunk of samples becomes its extremes and its
//! loudness.

use vstd::prelude::*;

use crate::ieee::binary;
use crate::ieee::double;
use crate::ieee::double::Double;
use crate::ieee::identities;
use crate::ieee::order;
use crate::ieee::single;
use crate::ieee::single::Single;
use crate::peaks::chunk::PeakChunk;
use crate::peaks::windows;

verus! {

/// The least sample, read from the front; infinity where there is none.
pub open spec fn least(samples: Seq<Single>) -> Single
    decreases samples.len(),
{
    if samples.len() == 0 {
        Single { bits: single::INFINITY }
    } else {
        let m = least(samples.drop_last());
        if single::less(samples.last(), m) {
            samples.last()
        } else {
            m
        }
    }
}

/// The greatest sample, read from the front; minus infinity where there is none.
pub open spec fn greatest(samples: Seq<Single>) -> Single
    decreases samples.len(),
{
    if samples.len() == 0 {
        Single { bits: single::NEG_INFINITY }
    } else {
        let m = greatest(samples.drop_last());
        if single::less(m, samples.last()) {
            samples.last()
        } else {
            m
        }
    }
}

/// The sum of the squares, in double precision, added from the front.
pub open spec fn sum_of_squares(samples: Seq<Single>) -> Double
    decreases samples.len(),
{
    if samples.len() == 0 {
        Double { bits: double::ZERO }
    } else {
        let s = single::widened(samples.last());
        double::sum(sum_of_squares(samples.drop_last()), double::product(s, s))
    }
}

/// The root of the mean of squares whose sum over `count` samples is `sumsq`.
pub open spec fn root_mean(sumsq: Double, count: nat) -> Single {
    double::narrowed(double::square_root(double::quotient(sumsq, double::from_int(count))))
}

/// The chunk that samples become.
pub open spec fn summary(samples: Seq<Single>) -> PeakChunk {
    PeakChunk {
        min: least(samples),
        max: greatest(samples),
        rms: root_mean(sum_of_squares(samples), samples.len()),
    }
}

/// The chunks that a waveform becomes, but for what is left at its end.
pub open spec fn decimated(all: Seq<Single>, n: nat) -> Seq<PeakChunk> {
    windows::chunks(all, n).map_values(|w: Seq<Single>| summary(w))
}

/// One number from a sum of squares and a count.
pub fn root_mean_square(sumsq: Double, count: usize) -> (r: Single)
    ensures
        r == root_mean(sumsq, count as nat),
{
    sumsq.over(Double::from_u64(count as u64)).sqrt().narrow()
}

/// A decimator.
pub struct Decimator {
    samples_per_chunk: usize,
    accum_min: Single,
    accum_max: Single,
    accum_sumsq: Double,
    accum_count: usize,
    pending: Ghost<Seq<Single>>,
}

/// The state of a decimator.
#[verifier::ext_equal]
pub ghost struct DecimatorView {
    pub samples_per_chunk: nat,
    /// The samples of the chunk that is not complete.
    pub pending: Seq<Single>,
}

/// A decimator that was fed nothing.
pub open spec fn fresh(n: nat) -> DecimatorView {
    DecimatorView { samples_per_chunk: n, pending: Seq::empty() }
}

/// A decimator after it was fed samples.
pub open spec fn fed(v: DecimatorView, samples: Seq<Single>) -> DecimatorView {
    DecimatorView { pending: windows::rest(v.pending + samples, v.samples_per_chunk), ..v }
}

/// The chunks that samples complete.
pub open spec fn emitted(v: DecimatorView, samples: Seq<Single>) -> Seq<PeakChunk> {
    decimated(v.pending + samples, v.samples_per_chunk)
}

/// The chunk of the samples that wait, if any.
pub open spec fn remainder(v: DecimatorView) -> Seq<PeakChunk> {
    if v.pending.len() == 0 {
        Seq::empty()
    } else {
        seq![summary(v.pending)]
    }
}

impl Decimator {
    pub closed spec fn view(&self) -> DecimatorView {
        DecimatorView { samples_per_chunk: self.samples_per_chunk as nat, pending: self.pending@ }
    }

    /// Chunks have samples, and what is kept of the samples that wait is right.
    pub closed spec fn wf(&self) -> bool {
        &&& self.samples_per_chunk > 0
        &&& self.accum_count < self.samples_per_chunk
        &&& self.pending@.len() == self.accum_count
        &&& self.accum_min == least(self.pending@)
        &&& self.accum_max == greatest(self.pending@)
        &&& self.accum_sumsq == sum_of_squares(self.pending@)
    }

    /// A decimator for chunks of some samples.
    pub fn new(samples_per_chunk: usize) -> (r: Self)
        requires
            samples_per_chunk > 0,
        ensures
            r.wf(),
            r@ == fresh(samples_per_chunk as nat),
    {
        Decimator {
            samples_per_chunk,
            accum_min: Single { bits: single::INFINITY },
            accum_max: Single { bits: single::NEG_INFINITY },
            accum_sumsq: Double { bits: double::ZERO },
            accum_count: 0,
            pending: Ghost(Seq::empty()),
        }
    }

    /// Samples per chunk.
    pub fn samples_per_chunk(&self) -> (r: usize)
        ensures
            r == self@.samples_per_chunk,
    {
        self.samples_per_chunk
    }

    /// How many samples of the next chunk were fed.
    pub fn pending(&self) -> (r: usize)
        requires
            self.wf(),
        ensures
            r == self@.pending.len(),
            r < self@.samples_per_chunk,
    {
        self.accum_count
    }

    /// Takes in one sample; the chunk it completes, if it does.
    fn absorb(&mut self, s: Single) -> (r: Option<PeakChunk>)
        requires
            old(self).wf(),
        ensures
            final(self).wf(),
            final(self)@.samples_per_chunk == old(self)@.samples_per_chunk,
            old(self)@.pending.len() < old(self)@.samples_per_chunk,
            old(self)@.pending.len() + 1 == old(self)@.samples_per_chunk ==> r == Some(
                summary(old(self)@.pending.push(s)),
            ) && final(self)@.pending == Seq::<Single>::empty(),
            old(self)@.pending.len() + 1 < old(self)@.samples_per_chunk ==> r is None
                && final(self)@.pending == old(self)@.pending.push(s),
    {
        let ghost next = self.pending@.push(s);
        assert(next.drop_last() =~= self.pending@);
        if s.lt(self.accum_min) {
            self.accum_min = s;
        }
        if self.accum_max.lt(s) {
            self.accum_max = s;
        }
        let wide: Double = s.widen();
        self.accum_sumsq = self.accum_sumsq.plus(wide.times(wide));
        self.accum_count = self.accum_count + 1;
        proof {
            self.pending@ = next;
        }
        if self.accum_count == self.samples_per_chunk {
            let chunk = PeakChunk {
                min: self.accum_min,
                max: self.accum_max,
                rms: root_mean_square(self.accum_sumsq, self.samples_per_chunk),
            };
            self.reset();
            Some(chunk)
        } else {
            None
        }
    }

    /// Takes in samples and appends the chunks that they complete to `out`. Samples
    /// that complete no chunk wait for the next call.
    pub fn feed(&mut self, samples: &[Single], out: &mut Vec<PeakChunk>)
        requires
            old(self).wf(),
        ensures
            final(self).wf(),
            final(self)@ == fed(old(self)@, samples@),
            final(out)@ == old(out)@ + emitted(old(self)@, samples@),
    {
        let ghost v = self@;
        let ghost n = v.samples_per_chunk;
        let ghost before = out@;
        let ghost none = samples@.take(0);
        proof {
            assert(v.pending + none =~= v.pending);
            windows::lemma_nothing_whole(v.pending, n);
            assert(decimated(v.pending, n) =~= Seq::<PeakChunk>::empty());
            assert(before + Seq::<PeakChunk>::empty() =~= before);
        }
        let len: usize = samples.len();
        let mut i: usize = 0;
        while i < len
            invariant
                i <= len,
                len == samples@.len(),
                self.wf(),
                n > 0,
                n == v.samples_per_chunk,
                self@ == fed(v, samples@.take(i as int)),
                out@ == before + emitted(v, samples@.take(i as int)),
            decreases len - i,
        {
            let s: Single = samples[i];
            let ghost all = v.pending + samples@.take(i as int);
            proof {
                let longer = samples@.take(i + 1);
                assert(longer =~= samples@.take(i as int).push(s));
                assert(v.pending + longer =~= all.push(s));
                windows::lemma_one_more(all, s, n);
            }
            match self.absorb(s) {
                Some(chunk) => {
                    out.push(chunk);
                    proof {
                        let done = windows::rest(all, n).push(s);
                        assert(decimated(all.push(s), n) =~= decimated(all, n).push(summary(done)));
                        assert(before + decimated(all.push(s), n) =~= (before + decimated(
                            all,
                            n,
                        )).push(chunk));
                    }
                },
                None => {},
            }
            assert(self@ =~= fed(v, samples@.take(i + 1)));
            i = i + 1;
        }
        assert(samples@.take(len as int) =~= samples@);
    }

    /// Forgets the samples that wait.
    pub fn reset(&mut self)
        requires
            old(self)@.samples_per_chunk > 0,
        ensures
            final(self).wf(),
            final(self)@ == fresh(old(self)@.samples_per_chunk),
    {
        self.accum_min = Single { bits: single::INFINITY };
        self.accum_max = Single { bits: single::NEG_INFINITY };
        self.accum_sumsq = Double { bits: double::ZERO };
        self.accum_count = 0;
        proof {
            self.pending@ = Seq::empty();
        }
    }

    /// Appends a last chunk of the samples that wait to `out`, if there are any, and
    /// forgets them.
    pub fn flush(&mut self, out: &mut Vec<PeakChunk>)
        requires
            old(self).wf(),
        ensures
            final(self).wf(),
            final(self)@ == fresh(old(self)@.samples_per_chunk),
            final(out)@ == old(out)@ + remainder(old(self)@),
    {
        if self.accum_count > 0 {
            let chunk = PeakChunk {
                min: self.accum_min,
                max: self.accum_max,
                rms: root_mean_square(self.accum_sumsq, self.accum_count),
            };
            out.push(chunk);
        }
        self.reset();
        assert(out@ =~= old(out)@ + remainder(old(self)@));
    }
}

/// It does not matter in which blocks samples are fed: two blocks give what one
/// block of both gives.
pub proof fn law_blocks_do_not_matter(v: DecimatorView, a: Seq<Single>, b: Seq<Single>)
    requires
        v.samples_per_chunk > 0,
    ensures
        fed(fed(v, a), b) == fed(v, a + b),
        emitted(v, a) + emitted(fed(v, a), b) == emitted(v, a + b),
{
    let n = v.samples_per_chunk;
    let all = v.pending + a;
    assert(v.pending + (a + b) =~= all + b);
    windows::law_cutting_in_steps(all, b, n);
    assert(decimated(all + b, n) =~= decimated(all, n) + decimated(windows::rest(all, n) + b, n));
}

/// One chunk comes out for every full set of samples, and fewer than that wait.
pub proof fn law_every_sample_counts(v: DecimatorView, samples: Seq<Single>)
    requires
        v.samples_per_chunk > 0,
    ensures
        emitted(v, samples).len() * v.samples_per_chunk + fed(v, samples).pending.len()
            == v.pending.len() + samples.len(),
        fed(v, samples).pending.len() < v.samples_per_chunk,
{
    windows::law_cutting_counts(v.pending + samples, v.samples_per_chunk);
}

/// No sample is something that is not a number.
pub open spec fn all_numbers(samples: Seq<Single>) -> bool {
    forall|i: int| 0 <= i < samples.len() ==> (#[trigger] samples[i])@.mag <= binary::SINGLE_INF
}

/// No sample lies below the least one or above the greatest one.
pub proof fn law_chunk_bounds_its_samples(samples: Seq<Single>, i: int)
    requires
        all_numbers(samples),
        0 <= i < samples.len(),
    ensures
        single::at_most(summary(samples).min, samples[i]),
        single::at_most(samples[i], summary(samples).max),
{
    lemma_bounded(samples, i);
}

proof fn lemma_bounded(samples: Seq<Single>, i: int)
    requires
        all_numbers(samples),
        0 <= i < samples.len(),
    ensures
        single::at_most(least(samples), samples[i]),
        single::at_most(samples[i], greatest(samples)),
    decreases samples.len(),
{
    let front = samples.drop_last();
    assert(all_numbers(front)) by {
        assert forall|j: int| 0 <= j < front.len() implies (#[trigger] front[j])@.mag
            <= binary::SINGLE_INF by {
            assert(front[j] == samples[j]);
        }
    }
    lemma_extremes_are_numbers(front);
    assert(samples.last()@.mag <= binary::SINGLE_INF);
    if i < front.len() {
        lemma_bounded(front, i);
        assert(front[i] == samples[i]);
    }
}

proof fn lemma_extremes_are_numbers(samples: Seq<Single>)
    requires
        all_numbers(samples),
    ensures
        least(samples)@.mag <= binary::SINGLE_INF,
        greatest(samples)@.mag <= binary::SINGLE_INF,
    decreases samples.len(),
{
    if samples.len() > 0 {
        let front = samples.drop_last();
        assert(all_numbers(front)) by {
            assert forall|j: int| 0 <= j < front.len() implies (#[trigger] front[j])@.mag
                <= binary::SINGLE_INF by {
                assert(front[j] == samples[j]);
            }
        }
        lemma_extremes_are_numbers(front);
        assert(samples.last()@.mag <= binary::SINGLE_INF);
    }
}

/// Silence becomes a chunk of zeros.
pub proof fn law_silence_becomes_zero(n: nat)
    requires
        0 < n,
    ensures
        ({
            let zero = Single { bits: single::ZERO };
            summary(Seq::new(n, |i: int| zero)) == (PeakChunk { min: zero, max: zero, rms: zero })
        }),
{
    lemma_silence(n);
    identities::law_double_zero(n);
    identities::law_narrowed_zero();
}

proof fn lemma_silence(n: nat)
    requires
        0 < n,
    ensures
        ({
            let zero = Single { bits: single::ZERO };
            let quiet = Seq::new(n, |i: int| zero);
            &&& least(quiet) == zero
            &&& greatest(quiet) == zero
            &&& sum_of_squares(quiet) == (Double { bits: double::ZERO })
        }),
    decreases n,
{
    let zero = Single { bits: single::ZERO };
    let quiet = Seq::new(n, |i: int| zero);
    let front = Seq::new((n - 1) as nat, |i: int| zero);
    assert(quiet.drop_last() =~= front);
    identities::law_double_zero(1);
    assert(quiet.last() == zero);
    if n > 1 {
        lemma_silence((n - 1) as nat);
    } else {
        assert(front =~= Seq::<Single>::empty());
        assert(least(front) == (Single { bits: single::INFINITY }));
        assert(greatest(front) == (Single { bits: single::NEG_INFINITY }));
        assert(sum_of_squares(front) == (Double { bits: double::ZERO }));
    }
}

/// The loudness of samples that are numbers is a number, and not negative.
pub proof fn law_loudness_is_a_number(samples: Seq<Single>)
    requires
        all_numbers(samples),
        0 < samples.len() <= usize::MAX,
    ensures
        single::at_most(
            Single { bits: single::ZERO },
            root_mean(sum_of_squares(samples), samples.len()),
        ),
{
    lemma_squares(samples);
    order::law_root_mean_is_a_number(sum_of_squares(samples), samples.len());
}

proof fn lemma_squares(samples: Seq<Single>)
    requires
        all_numbers(samples),
    ensures
        double::at_most(Double { bits: double::ZERO }, sum_of_squares(samples)),
    decreases samples.len(),
{
    if samples.len() > 0 {
        let front = samples.drop_last();
        assert forall|i: int| 0 <= i < front.len() implies (#[trigger] front[i])@.mag
            <= binary::SINGLE_INF by {
            assert(front[i] == samples[i]);
        }
        lemma_squares(front);
        order::law_squares_add_up(sum_of_squares(front), samples.last());
    }
}

/// The loudness of a chunk is not negative.
pub proof fn law_loudness_is_not_negative(samples: Seq<Single>)
    ensures
        !single::less(summary(samples).rms, Single { bits: single::ZERO }),
{
    identities::law_roots_are_not_negative(
        double::quotient(sum_of_squares(samples), double::from_int(samples.len())),
    );
}

} // verus!
