//! Signals whose peaks are known.

use vstd::arithmetic::div_mod::*;
use vstd::arithmetic::mul::*;
use vstd::arithmetic::power2::*;
use vstd::prelude::*;

use crate::ieee::arith;
use crate::ieee::binary;
use crate::ieee::exact;
use crate::ieee::exact::near;
use crate::ieee::exact::single_value;
use crate::ieee::identities;
use crate::ieee::means;
use crate::ieee::single;
use crate::ieee::single::Single;

verus! {

/// Every sample is `amp`.
pub fn constant(amp: Single, n_samples: usize) -> (r: Vec<Single>)
    requires
        n_samples <= single::MAX_IN_MEMORY,
    ensures
        r@ == Seq::new(n_samples as nat, |i: int| amp),
{
    let r: Vec<Single> = vec![amp; n_samples];
    assert(r@ =~= Seq::new(n_samples as nat, |i: int| amp));
    r
}

/// Sample `i` of a ramp of `n` samples.
pub open spec fn saw_sample(peak: Single, n: nat, i: int) -> Single {
    single::quotient(
        single::product(peak, single::from_int(i as nat)),
        single::from_int(n),
    )
}

/// A ramp rises evenly: sample `i` times the number of samples is `i` times the peak, up to rounding,
/// so that it starts at zero and stays below its peak.
pub proof fn law_ramps_rise_evenly(peak: Single, n: nat, i: nat)
    requires
        single::finite(peak),
        pow2(100) <= single_value(peak) <= pow2(240),
        0 < i < n <= 0x100_0000,
    ensures
        near(single_value(saw_sample(peak, n, i as int)) * n, single_value(peak) * i, pow2(22)),
        saw_sample(peak, n, 0)@.mag == 0,
{
    let x = single_value(peak);
    let u = pow2(149) as int;
    let a = single::from_int(i);
    let d = single::from_int(n);
    lemma2_to64();
    lemma2_to64_rest();
    lemma_pow2_pos(149);
    lemma_pow2_pos(100);
    exact::lemma_top();
    arith::lemma_zero_is_worth_nothing(24);
    exact::lemma_single_count(0);
    exact::lemma_single_count(i);
    exact::lemma_single_count(n);
    // At the start.
    let start = single::from_int(0);
    assert(start@.mag == 0) by {
        if start@.mag > 0 {
            binary::lemma_worth_increases(24, 0, start@.mag);
        }
    }
    identities::law_multiples_of_zero(start, peak);
    identities::law_zero_over_a_number(single::product(peak, start), d);
    // Elsewhere.
    let xi = x * i;
    let v = x * (i * u);
    assert(v == xi * u) by (nonlinear_arith)
        requires
            v == x * (i * u),
            xi == x * i,
    ;
    lemma_pow2_adds(240, 24);
    lemma_pow2_adds(100, 149);
    lemma_pow2_adds(264, 149);
    lemma_pow2_strictly_increases(172, 249);
    lemma_pow2_strictly_increases(413, 426);
    assert(pow2(100) <= xi <= pow2(264)) by (nonlinear_arith)
        requires
            xi == x * i,
            1 <= i <= 0x100_0000,
            pow2(100) <= x <= pow2(240),
            pow2(264) == pow2(240) * 0x100_0000,
    ;
    assert(pow2(172) <= v < pow2(426)) by (nonlinear_arith)
        requires
            v == xi * u,
            pow2(100) <= xi <= pow2(264),
            pow2(249) == pow2(100) * u,
            pow2(413) == pow2(264) * u,
            pow2(172) < pow2(249),
            pow2(413) < pow2(426),
            u > 0,
    ;
    means::lemma_single_product_is_close(peak, a);
    let p = single::product(peak, a);
    let y = single_value(p);
    exact::lemma_near_scales(y, xi, u, pow2(24));
    exact::lemma_near_bounds(y, xi, pow2(24));
    lemma_pow2_unfold(265);
    lemma_pow2_unfold(100);
    lemma_pow2_strictly_increases(265, 277);
    lemma_pow2_pos(99);
    assert(single::finite(p));
    let nu = n * u;
    lemma_pow2_adds(24, 149);
    lemma_pow2_adds(23, 173);
    lemma_pow2_adds(99, 149);
    lemma_pow2_strictly_increases(196, 248);
    lemma_pow2_strictly_increases(265, 277);
    assert(u <= nu <= pow2(173)) by (nonlinear_arith)
        requires
            nu == n * u,
            1 <= n <= 0x100_0000,
            pow2(173) == 0x100_0000 * u,
            u > 0,
    ;
    assert(pow2(23) * nu <= y * u && y * u < pow2(277) * nu) by (nonlinear_arith)
        requires
            pow2(99) <= y <= pow2(265),
            u <= nu <= pow2(173),
            pow2(196) == pow2(23) * pow2(173),
            pow2(248) == pow2(99) * u,
            pow2(196) < pow2(248),
            pow2(265) < pow2(277),
            u > 0,
            pow2(23) > 0,
    ;
    means::lemma_single_quotient_is_close(p, d);
    let q = single_value(saw_sample(peak, n, i as int));
    assert(q * nu == (q * n) * u) by (nonlinear_arith)
        requires
            nu == n * u,
    ;
    exact::lemma_near_scales(q * n, y, u, pow2(24));
    exact::lemma_near_chains(q * n, y, xi, pow2(24), pow2(24), pow2(22));
}

/// A ramp from zero towards `peak`.
pub fn saw_ramp(peak: Single, n_samples: usize) -> (r: Vec<Single>)
    requires
        n_samples <= single::MAX_IN_MEMORY,
    ensures
        r@ == Seq::new(
            n_samples as nat,
            |i: int|
                single::quotient(
                    single::product(peak, single::from_int(i as nat)),
                    single::from_int(n_samples as nat),
                ),
        ),
        r@ == Seq::new(n_samples as nat, |i: int| saw_sample(peak, n_samples as nat, i)),
{
    let ghost ramp = Seq::new(n_samples as nat, |i: int| saw_sample(peak, n_samples as nat, i));
    let denom: Single = Single::from_u64(n_samples as u64);
    let mut r: Vec<Single> = Vec::new();
    let mut i: usize = 0;
    while i < n_samples
        invariant
            i <= n_samples,
            denom == single::from_int(n_samples as nat),
            ramp.len() == n_samples,
            forall|j: int|
                0 <= j < n_samples ==> #[trigger] ramp[j] == single::quotient(
                    single::product(peak, single::from_int(j as nat)),
                    denom,
                ),
            r@ =~= ramp.take(i as int),
        decreases n_samples - i,
    {
        r.push(peak.times(Single::from_u64(i as u64)).over(denom));
        i = i + 1;
    }
    assert(r@ =~= ramp);
    r
}

/// Sample `i` of bursts.
pub open spec fn burst_sample(amp: Single, burst: nat, period: nat, i: int) -> Single {
    if i % (period as int) < burst {
        amp
    } else {
        Single { bits: single::ZERO }
    }
}

/// Burst `k` is `burst` samples long, and silence follows it until the next one.
pub proof fn law_bursts_repeat(amp: Single, burst: nat, period: nat, k: nat, i: int)
    requires
        burst <= period,
        0 <= i < period,
    ensures
        burst_sample(amp, burst, period, k * period + i) == (if i < burst {
            amp
        } else {
            Single { bits: single::ZERO }
        }),
{
    lemma_fundamental_div_mod_converse(k * period + i, period as int, k as int, i);
}

/// Bursts of `amp`, each followed by silence.
pub fn bursts(
    amp: Single,
    burst_samples: usize,
    silence_samples: usize,
    n_bursts: usize,
) -> (r: Vec<Single>)
    requires
        burst_samples + silence_samples <= usize::MAX,
        (burst_samples + silence_samples) * n_bursts <= single::MAX_IN_MEMORY,
    ensures
        r@ == Seq::new(
            ((burst_samples + silence_samples) * n_bursts) as nat,
            |i: int|
                burst_sample(
                    amp,
                    burst_samples as nat,
                    (burst_samples + silence_samples) as nat,
                    i,
                ),
        ),
{
    let period: usize = burst_samples + silence_samples;
    let total: usize = period * n_bursts;
    let zero = Single { bits: single::ZERO };
    let mut r: Vec<Single> = Vec::new();
    let mut i: usize = 0;
    while i < total
        invariant
            i <= total,
            period == burst_samples + silence_samples,
            total == period * n_bursts,
            zero == (Single { bits: single::ZERO }),
            r@.len() == i,
            forall|j: int|
                0 <= j < i ==> #[trigger] r@[j] == burst_sample(
                    amp,
                    burst_samples as nat,
                    period as nat,
                    j,
                ),
        decreases total - i,
    {
        assert(period > 0) by {
            lemma_mul_basics(n_bursts as int);
        }
        if i % period < burst_samples {
            r.push(amp);
        } else {
            r.push(zero);
        }
        i = i + 1;
    }
    assert(r@ =~= Seq::new(
        ((burst_samples + silence_samples) * n_bursts) as nat,
        |i: int|
            burst_sample(amp, burst_samples as nat, (burst_samples + silence_samples) as nat, i),
    ));
    r
}

} // verus!
