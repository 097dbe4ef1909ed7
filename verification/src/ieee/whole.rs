//! Whole numbers of either sign.

use vstd::arithmetic::mul::*;
use vstd::arithmetic::power2::*;
use vstd::prelude::*;

use crate::ieee::arith;
use crate::ieee::arith::Signed;
use crate::ieee::binary;
use crate::ieee::convert;
use crate::ieee::double;
use crate::ieee::double::Double;
use crate::ieee::identities;

verus! {

/// Whole numbers below this one are represented exactly.
pub const EXACT: u64 = 0x20_0000_0000_0000;

/// The number nearest to an integer of either sign.
pub open spec fn whole(i: int) -> Double {
    if i >= 0 {
        double::from_int(i as nat)
    } else {
        double::of(Signed { neg: true, mag: double::from_int((-i) as nat)@.mag })
    }
}

/// What a whole number is worth.
pub proof fn law_whole_is_exact(i: int)
    requires
        -EXACT < i < EXACT,
    ensures
        double::finite(whole(i)),
        whole(i)@.neg == (i < 0),
        whole(i)@.mag == 0 <==> i == 0,
        arith::value(arith::double(), whole(i)@) == i * pow2(arith::double().unit),
{
    let u = pow2(arith::double().unit);
    let n = if i >= 0 {
        i as nat
    } else {
        (-i) as nat
    };
    identities::law_whole_numbers_are_exact(n);
    assert(i < 0 ==> i * u == -(n * u)) by (nonlinear_arith)
        requires
            i < 0 ==> n == -i,
    ;
}

/// Sums of whole numbers are exact.
pub proof fn law_whole_numbers_add_up(a: int, b: int)
    requires
        -EXACT < a < EXACT,
        -EXACT < b < EXACT,
        -EXACT < a + b < EXACT,
    ensures
        double::sum(whole(a), whole(b)) == whole(a + b),
{
    let f = arith::double();
    let u = pow2(f.unit);
    let c = a + b;
    lemma_pow2_pos(f.unit);
    law_whole_is_exact(a);
    law_whole_is_exact(b);
    law_whole_is_exact(c);
    lemma_mul_is_distributive_add_other_way(u as int, a, b);
    reveal(double::sum);
    reveal(arith::sum);
    reveal(double::from_int);
    reveal(convert::from_nat);
    let n = if c >= 0 {
        c as nat
    } else {
        (-c) as nat
    };
    identities::law_whole_numbers_are_exact(n);
    assert(convert::from_nat(f, n).mag == binary::nearest(f.p, f.inf, n * u, 1));
    binary::law_rounding_is_monotone(f.p, f.inf, n * u, n * u, 1);
    assert(double::from_int(n)@ == convert::from_nat(f, n));
    assert(c > 0 ==> c * u > 0) by (nonlinear_arith)
        requires
            u > 0,
    ;
    assert(c < 0 ==> c * u < 0 && -(c * u) == n * u) by (nonlinear_arith)
        requires
            u > 0,
            c < 0 ==> n == -c,
    ;
    assert(c == 0 ==> c * u == 0) by (nonlinear_arith);
    assert(arith::sum(f, whole(a)@, whole(b)@) == whole(c)@);
}

} // verus!
