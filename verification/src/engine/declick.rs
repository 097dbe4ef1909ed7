//! The crossfade that hides the jumps of transport changes.

use std::sync::Arc;
use vstd::arithmetic::power2::*;
use vstd::prelude::*;

use crate::ieee::arith;
use crate::ieee::binary;
use crate::ieee::identities;
use crate::ieee::order;
use crate::ieee::single;
use crate::ieee::single::Single;

verus! {

/// Bits of the default length of a ramp, two milliseconds.
pub const DEFAULT_DECLICK_MS: u32 = 0x4000_0000;

/// No ramp is shorter than this, in samples.
pub const MIN_RAMP_SAMPLES: usize = 16;

/// Bits of a quarter turn.
pub const FRAC_PI_2: u32 = 0x3fc9_0fdb;

/// An equal-power crossfade: the weight of the new side at each sample of the
/// ramp.
#[derive(Debug)]
pub struct DeclickEnvelope {
    fade_in: Vec<Single>,
}

/// Samples in a ramp of `duration_ms` milliseconds.
pub open spec fn ramp_len(sample_rate: Single, duration_ms: Single, max: nat) -> nat {
    let n = single::nearest_int(
        single::quotient(single::product(sample_rate, duration_ms), single::from_int(1000)),
        max,
    );
    if n < MIN_RAMP_SAMPLES {
        MIN_RAMP_SAMPLES as nat
    } else {
        n
    }
}

/// A ramp can be counted and held in memory.
pub open spec fn ramp_fits(sample_rate: Single, duration_ms: Single) -> bool {
    let n = ramp_len(sample_rate, duration_ms, u64::MAX as nat);
    n <= u32::MAX && n <= single::MAX_IN_MEMORY
}

/// The angle at sample `i` of a ramp of `n`: `i / n` of a quarter turn.
pub open spec fn ramp_angle(i: int, n: nat) -> Single {
    single::product(
        single::quotient(single::from_int(i as nat), single::from_int(n)),
        Single { bits: FRAC_PI_2 },
    )
}

/// The weight of the new side: one from the end of the ramp on.
pub open spec fn weight_in(table: Seq<Single>, i: int) -> Single {
    if 0 <= i < table.len() {
        table[i]
    } else {
        Single { bits: single::ONE }
    }
}

/// The weight of the old side.
pub open spec fn weight_out(table: Seq<Single>, i: int) -> Single {
    single::difference(Single { bits: single::ONE }, weight_in(table, i))
}

/// `w` is the square of what `sin` can return for the angle at sample `i`.
pub open spec fn is_weight<F: Fn(Single) -> Single>(sin: F, i: int, n: nat, w: Single) -> bool {
    exists|s: Single|
        #[trigger] call_ensures(sin, (ramp_angle(i, n),), s) && w == single::product(s, s)
}

/// `table` holds the weights of a ramp.
pub open spec fn is_envelope<F: Fn(Single) -> Single>(
    sin: F,
    sample_rate: Single,
    duration_ms: Single,
    table: Seq<Single>,
) -> bool {
    &&& table.len() == ramp_len(sample_rate, duration_ms, u64::MAX as nat)
    &&& forall|i: int| 0 <= i < table.len() ==> is_weight(sin, i, table.len(), #[trigger] table[i])
}

/// `sin` ascends over a quarter turn, from zero to at most one.
pub open spec fn rises_over_a_quarter<F: Fn(Single) -> Single>(sin: F) -> bool {
    let zero = Single { bits: single::ZERO };
    &&& forall|s: Single| #[trigger] call_ensures(sin, (zero,), s) ==> s@.mag == 0
    &&& forall|x: Single, y: Single, s: Single, t: Single|
        #![trigger call_ensures(sin, (x,), s), call_ensures(sin, (y,), t)]
        single::at_most(zero, x) && single::at_most(x, y) && single::at_most(
            y,
            Single { bits: FRAC_PI_2 },
        ) && call_ensures(sin, (x,), s) && call_ensures(sin, (y,), t) ==> single::at_most(zero, s)
            && single::at_most(s, t) && single::at_most(t, Single { bits: single::ONE })
}

/// The weights ascend, between zero and one.
pub open spec fn is_ramp(table: Seq<Single>) -> bool {
    forall|i: int, j: int|
        #![trigger table[i], table[j]]
        0 <= i <= j < table.len() ==> single::at_most(Single { bits: single::ZERO }, table[i])
            && single::at_most(table[i], table[j]) && single::at_most(
            table[j],
            Single { bits: single::ONE },
        )
}

/// The angles ascend from zero, and stay within a quarter turn.
proof fn lemma_angles_ascend(i: nat, j: nat, n: nat)
    requires
        i <= j < n <= u32::MAX,
    ensures
        single::at_most(Single { bits: single::ZERO }, ramp_angle(i as int, n)),
        single::at_most(ramp_angle(i as int, n), ramp_angle(j as int, n)),
        single::at_most(ramp_angle(j as int, n), Single { bits: FRAC_PI_2 }),
{
    let quarter = Single { bits: FRAC_PI_2 };
    let one = Single { bits: single::ONE };
    let d = single::from_int(n);
    order::law_counts_keep_their_order(i, j);
    order::law_counts_keep_their_order(j, n);
    order::law_counts_keep_their_order(n, n);
    let x = single::quotient(single::from_int(i), d);
    let y = single::quotient(single::from_int(j), d);
    order::law_quotient_keeps_the_order(single::from_int(i), single::from_int(j), d);
    order::law_quotient_keeps_the_order(single::from_int(j), d, d);
    identities::law_single_quotient_with_itself(d);
    identities::law_product_with_one(quarter);
    order::law_product_keeps_the_order(x, y, quarter, quarter);
    order::law_product_keeps_the_order(y, one, quarter, quarter);
}

/// The ramp begins at the angle zero.
proof fn lemma_first_angle(n: nat)
    requires
        0 < n <= u32::MAX,
    ensures
        ramp_angle(0, n) == (Single { bits: single::ZERO }),
{
    let f = arith::single();
    order::law_counts_keep_their_order(0, n);
    order::law_counts_keep_their_order(n, n);
    reveal(single::quotient);
    reveal(arith::quotient);
    reveal(single::product);
    reveal(arith::product);
    arith::lemma_zero_is_worth_nothing(f.p);
    lemma_pow2_pos(f.unit);
    let w = binary::worth(f.p, single::from_int(n)@.mag);
    binary::lemma_worth_increases(f.p, 0, single::from_int(n)@.mag);
    assert(0 * pow2(f.unit) == 0);
    assert(0 * w == 0);
    binary::lemma_nearest_exact(f.p, f.inf, 0, w, 0);
    let q = binary::worth(f.p, (Single { bits: FRAC_PI_2 })@.mag);
    assert(0 * q == 0);
    binary::lemma_nearest_exact(f.p, f.inf, 0, pow2(f.unit), 0);
}

/// The square of a zero is zero.
proof fn lemma_square_of_a_zero(s: Single)
    requires
        s@.mag == 0,
    ensures
        single::product(s, s) == (Single { bits: single::ZERO }),
{
    let f = arith::single();
    reveal(single::product);
    reveal(arith::product);
    arith::lemma_zero_is_worth_nothing(f.p);
    lemma_pow2_pos(f.unit);
    assert(0 * pow2(f.unit) == 0);
    binary::lemma_nearest_exact(f.p, f.inf, 0, pow2(f.unit), 0);
}

/// An envelope that is made with a sine that ascends over a quarter turn starts at zero and
/// ascends, between zero and one, over as many samples as the ramp lasts.
pub proof fn law_envelope_ascends<F: Fn(Single) -> Single>(
    sin: F,
    sample_rate: Single,
    duration_ms: Single,
    table: Seq<Single>,
)
    requires
        ramp_fits(sample_rate, duration_ms),
        is_envelope(sin, sample_rate, duration_ms, table),
        rises_over_a_quarter(sin),
    ensures
        table.len() == ramp_len(sample_rate, duration_ms, u64::MAX as nat),
        table.len() >= MIN_RAMP_SAMPLES,
        weight_in(table, 0) == (Single { bits: single::ZERO }),
        is_ramp(table),
{
    let n = table.len();
    let one = Single { bits: single::ONE };
    lemma_first_angle(n);
    assert(is_weight(sin, 0, n, table[0]));
    let s0 = choose|s: Single|
        #[trigger] call_ensures(sin, (ramp_angle(0, n),), s) && table[0] == single::product(s, s);
    lemma_square_of_a_zero(s0);
    identities::law_product_with_one(one);
    assert forall|i: int, j: int|
        #![trigger table[i], table[j]]
        0 <= i <= j < table.len() implies single::at_most(Single { bits: single::ZERO }, table[i])
        && single::at_most(table[i], table[j]) && single::at_most(table[j], one) by {
        lemma_angles_ascend(i as nat, j as nat, n);
        assert(is_weight(sin, i, n, table[i]));
        assert(is_weight(sin, j, n, table[j]));
        let s = choose|s: Single|
            #[trigger] call_ensures(sin, (ramp_angle(i, n),), s) && table[i] == single::product(
                s,
                s,
            );
        let t = choose|s: Single|
            #[trigger] call_ensures(sin, (ramp_angle(j, n),), s) && table[j] == single::product(
                s,
                s,
            );
        order::law_product_keeps_the_order(s, t, s, t);
        order::law_product_keeps_the_order(t, one, t, one);
    }
}

/// The weight of the new side never falls and is one from the end of the ramp on; that of the old
/// side never rises; and the two add up to one at every sample.
pub proof fn law_weights_add_up(table: Seq<Single>, i: int, j: int)
    requires
        is_ramp(table),
        0 <= i <= j,
    ensures
        single::at_most(Single { bits: single::ZERO }, weight_in(table, i)),
        single::at_most(weight_in(table, i), weight_in(table, j)),
        single::at_most(weight_in(table, j), Single { bits: single::ONE }),
        single::at_most(Single { bits: single::ZERO }, weight_out(table, j)),
        single::at_most(weight_out(table, j), weight_out(table, i)),
        single::at_most(weight_out(table, i), Single { bits: single::ONE }),
        single::sum(weight_in(table, i), weight_out(table, i)) == (Single { bits: single::ONE }),
        i >= table.len() ==> weight_in(table, i) == (Single { bits: single::ONE }),
        i >= table.len() ==> weight_out(table, i) == (Single { bits: single::ZERO }),
{
    let one = Single { bits: single::ONE };
    let a = weight_in(table, i);
    let b = weight_in(table, j);
    if i < table.len() {
        assert(single::at_most(table[i], table[i]));
        if j < table.len() {
            assert(single::at_most(table[i], table[j]));
        }
    }
    order::law_complements_add_up(a);
    order::law_complements_add_up(b);
    order::law_difference_turns_the_order(one, a, b);
    identities::law_difference_with_itself(one);
}

impl DeclickEnvelope {
    /// The weights of the new side, in order.
    pub closed spec fn view(&self) -> Seq<Single> {
        self.fade_in@
    }

    #[verifier::type_invariant]
    spec fn inv(self) -> bool {
        MIN_RAMP_SAMPLES <= self.fade_in@.len() <= u32::MAX
    }

    /// The weights of a ramp: the squared sine over a quarter turn.
    pub fn new<F: Fn(Single) -> Single>(sample_rate: Single, duration_ms: Single, sin: &F) -> (r:
        Arc<Self>)
        requires
            ramp_fits(sample_rate, duration_ms),
            forall|x: Single| call_requires(*sin, (x,)),
        ensures
            is_envelope(*sin, sample_rate, duration_ms, r@),
    {
        let raw: u64 = sample_rate.times(duration_ms).over(Single::from_u64(1000)).round_u64(
            u64::MAX,
        );
        let n: usize = if raw < MIN_RAMP_SAMPLES as u64 {
            MIN_RAMP_SAMPLES
        } else {
            raw as usize
        };
        let mut table: Vec<Single> = Vec::with_capacity(n);
        let len: Single = Single::from_u64(n as u64);
        let mut i: usize = 0;
        while i < n
            invariant
                i <= n,
                n <= u32::MAX,
                table@.len() == i,
                len == single::from_int(n as nat),
                forall|x: Single| call_requires(*sin, (x,)),
                forall|j: int| 0 <= j < i ==> is_weight(*sin, j, n as nat, #[trigger] table@[j]),
            decreases n - i,
        {
            let angle: Single = Single::from_u64(i as u64).over(len).times(
                Single { bits: FRAC_PI_2 },
            );
            assert(angle == ramp_angle(i as int, n as nat));
            let s: Single = (*sin)(angle);
            assert(call_ensures(*sin, (ramp_angle(i as int, n as nat),), s));
            assert(is_weight(*sin, i as int, n as nat, single::product(s, s)));
            table.push(s.times(s));
            i = i + 1;
        }
        Arc::new(DeclickEnvelope { fade_in: table })
    }

    /// Number of samples the ramp spans.
    pub fn len(&self) -> (r: u32)
        ensures
            r == self@.len(),
            r >= MIN_RAMP_SAMPLES,
    {
        proof {
            use_type_invariant(self);
        }
        self.fade_in.len() as u32
    }

    /// Whether the ramp spans no sample, which it never does.
    pub fn is_empty(&self) -> (r: bool)
        ensures
            r == (self@.len() == 0),
            !r,
    {
        proof {
            use_type_invariant(self);
        }
        self.fade_in.len() == 0
    }

    /// The weight of the new side at sample `i`.
    pub fn fade_in(&self, i: u32) -> (r: Single)
        ensures
            r == weight_in(self@, i as int),
    {
        if (i as usize) < self.fade_in.len() {
            self.fade_in[i as usize]
        } else {
            Single { bits: single::ONE }
        }
    }

    /// The weight of the old side at sample `i`.
    pub fn fade_out(&self, i: u32) -> (r: Single)
        ensures
            r == weight_out(self@, i as int),
    {
        Single { bits: single::ONE }.minus(self.fade_in(i))
    }
}

} // verus!
