//! The chunks of a track cover its waveform, sample by sample.

use vstd::arithmetic::div_mod::*;
use vstd::prelude::*;

use crate::ieee::single;
use crate::ieee::single::Single;
use crate::peaks::decimator;
use crate::peaks::filtered;
use crate::peaks::offline;
use crate::peaks::telling;

verus! {

/// Where a sample lies among the chunks of 64.
proof fn lemma_place(len: nat, i: int)
    requires
        0 <= i < len,
    ensures
        0 <= i / 64 <= len / 64,
        i == (i / 64) * 64 + i % 64,
        0 <= i % 64 < 64,
        i / 64 == len / 64 ==> 0 <= i - (len / 64) * 64 < len - (len / 64) * 64,
{
    lemma_fundamental_div_mod(i, 64);
    lemma_fundamental_div_mod(len as int, 64);
}

/// Every sample of a waveform lies within the broadband chunk that tells of it: the one of its 64, and
/// the last one where fewer are left.
pub proof fn law_broadband_peaks_bound_every_sample(wave: Seq<Single>, i: int)
    requires
        decimator::all_numbers(wave),
        0 <= i < wave.len(),
    ensures
        i / 64 < offline::broadband_of(wave).len(),
        single::at_most(offline::broadband_of(wave)[i / 64].min, wave[i]),
        single::at_most(wave[i], offline::broadband_of(wave)[i / 64].max),
{
    let v = decimator::fresh(64);
    let all = v.pending + wave;
    assert(all =~= wave);
    let n = wave.len() / 64;
    let k = i / 64;
    lemma_place(wave.len(), i);
    assert(decimator::emitted(v, wave).len() == n);
    if k < n {
        telling::law_broadband_chunks_bound_the_wave(v, wave, k, i % 64);
    } else {
        let w = decimator::fed(v, wave);
        let j = i - n * 64;
        assert(w.pending == wave.skip((n * 64) as int));
        assert(w.pending[j] == wave[i]);
        assert forall|x: int| 0 <= x < w.pending.len() implies #[trigger] w.pending[x]
            == wave[n * 64 + x] by {}
        telling::law_broadband_remainder_bounds_the_rest(w, j);
    }
}

/// Every sample that comes out of the filter lies within the filtered chunk that tells of it.
pub proof fn law_filtered_peaks_bound_every_sample(
    c: filtered::Coefficients,
    wave: Seq<Single>,
    i: int,
)
    requires
        decimator::all_numbers(filtered::response(c, filtered::silence(), wave)),
        0 <= i < wave.len(),
    ensures
        ({
            let y = filtered::response(c, filtered::silence(), wave);
            let chunks = offline::filtered_of(c, wave);
            &&& i / 64 < chunks.len()
            &&& single::at_most(chunks[i / 64].lf_min, y[i])
            &&& single::at_most(y[i], chunks[i / 64].lf_max)
        }),
{
    let v = filtered::fresh(64, c);
    let y = filtered::response(c, filtered::silence(), wave);
    let all = filtered::heard(v, wave);
    assert(all =~= y);
    let n = y.len() / 64;
    let k = i / 64;
    lemma_place(y.len(), i);
    assert(filtered::emitted(v, wave).len() == n);
    if k < n {
        telling::law_filtered_chunks_bound_the_wave(v, wave, k, i % 64);
    } else {
        let w = filtered::fed(v, wave);
        let j = i - n * 64;
        assert(w.pending == y.skip((n * 64) as int));
        assert(w.pending[j] == y[i]);
        telling::law_filtered_remainder_bounds_the_rest(w, j);
    }
}

} // verus!
