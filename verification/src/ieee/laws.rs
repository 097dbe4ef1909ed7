//! What holds of whole numbers among the numbers.

use vstd::arithmetic::div_mod::*;
use vstd::arithmetic::mul::*;
use vstd::arithmetic::power2::*;
use vstd::prelude::*;

use crate::ieee::arith;
use crate::ieee::binary;
use crate::ieee::convert;
use crate::ieee::double;
use crate::ieee::double::Double;

verus! {

/// Conversion from integers keeps the order.
pub proof fn law_from_int_is_monotone(a: nat, b: nat)
    requires
        a <= b,
    ensures
        double::at_most(double::from_int(a), double::from_int(b)),
{
    reveal(double::from_int);
    reveal(convert::from_nat);
    let f = arith::double();
    let u = pow2(f.unit);
    lemma_pow2_pos(f.unit);
    lemma_mul_inequality(a as int, b as int, u as int);
    binary::law_rounding_is_monotone(f.p, f.inf, a * u, b * u, 1);
}

/// A number is not below an integer that its integer part reaches.
pub proof fn law_floor_is_not_above(a: Double, max: nat, n: nat)
    requires
        0 < n <= double::floor(a, max),
    ensures
        double::at_most(double::from_int(n), a),
{
    reveal(double::floor);
    reveal(double::from_int);
    reveal(convert::from_nat);
    let f = arith::double();
    let u = pow2(f.unit);
    lemma_pow2_pos(f.unit);
    binary::law_rounding_is_monotone(f.p, f.inf, n * u, n * u, 1);
    if a@.mag < f.inf {
        let w = binary::worth(f.p, a@.mag);
        assert(w >= n * u) by {
            lemma_fundamental_div_mod(w as int, u as int);
            lemma_mod_bound(w as int, u as int);
            lemma_mul_is_commutative(u as int, w as int / u as int);
            lemma_mul_inequality(n as int, w as int / u as int, u as int);
        }
        binary::law_rounding_is_monotone(f.p, f.inf, n * u, w, 1);
        assert(w * 1 == w);
        binary::lemma_nearest_exact(f.p, f.inf, w, 1, a@.mag);
    }
}

} // verus!
