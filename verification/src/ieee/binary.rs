//! What a binary floating-point number is worth, and how a rational is rounded
//! to one.
//!
//! A format has a precision `p` (the bits of the significand, the leading one
//! counted) and the magnitude `inf` of its infinity. The *magnitude* of a number
//! is its bit pattern without the sign. Magnitudes are ordered as the numbers
//! are, so rounding to nearest is a matter of finding the two neighbouring
//! magnitudes.

use vstd::arithmetic::div_mod::*;
use vstd::arithmetic::mul::*;
use vstd::arithmetic::power2::*;
use vstd::prelude::*;

verus! {

/// Bits of a single-precision significand, the leading one counted.
pub const SINGLE_P: u32 = 24;

/// The magnitude of single-precision infinity.
pub const SINGLE_INF: u64 = 0x7f80_0000;

/// The least positive single-precision number is `2^-SINGLE_UNIT`.
pub const SINGLE_UNIT: u32 = 149;

/// Bits of a double-precision significand, the leading one counted.
pub const DOUBLE_P: u32 = 53;

/// The magnitude of double-precision infinity.
pub const DOUBLE_INF: u64 = 0x7ff0_0000_0000_0000;

/// The least positive double-precision number is `2^-DOUBLE_UNIT`.
pub const DOUBLE_UNIT: u32 = 1074;

/// The weight of the leading bit of a significand of `p` bits.
pub open spec fn hidden(p: nat) -> nat {
    pow2((p - 1) as nat)
}

/// What the magnitude `b` is worth, counted in the least positive number of the
/// format. The magnitude of infinity is worth what the next number after the
/// largest finite one would be.
pub open spec fn worth(p: nat, b: nat) -> nat {
    let e = b / hidden(p);
    let m = b % hidden(p);
    if e == 0 {
        m
    } else {
        (hidden(p) + m) * pow2((e - 1) as nat)
    }
}

/// The magnitude `b` is the largest one that is worth no more than `num / den`.
pub open spec fn is_below(p: nat, num: nat, den: nat, b: nat) -> bool {
    worth(p, b) * den <= num < worth(p, b + 1) * den
}

/// The magnitude nearest to the rational `num / den` (counted, as in `worth`, in
/// the least positive number): of two neighbours equally near the even one, and
/// infinity from halfway past the largest finite number on.
#[verifier::opaque]
pub open spec fn nearest(p: nat, inf: nat, num: nat, den: nat) -> nat {
    if worth(p, inf) * den <= num {
        inf
    } else {
        let b = choose|b: nat| #[trigger] is_below(p, num, den, b);
        let middle = (worth(p, b) + worth(p, b + 1)) * den;
        if 2 * num < middle || (2 * num == middle && b % 2 == 0) {
            b
        } else {
            b + 1
        }
    }
}

/// `q * 2^e` as a magnitude.
pub open spec fn encode(p: nat, q: nat, e: nat) -> nat {
    e * hidden(p) + q
}

pub proof fn lemma_worth_of_encode(p: nat, q: nat, e: nat)
    requires
        p >= 1,
        q <= pow2(p),
        e > 0 ==> hidden(p) <= q,
    ensures
        worth(p, encode(p, q, e)) == q * pow2(e),
{
    let h = hidden(p);
    lemma_pow2_pos((p - 1) as nat);
    lemma_pow2_unfold(p);
    let b = encode(p, q, e);
    lemma2_to64();
    if q < h {
        assert(e == 0 && b == q) by {
            assert(0 * h == 0);
        }
        lemma_fundamental_div_mod_converse(b as int, h as int, 0, q as int);
        assert(q * pow2(0) == q);
    } else if q < 2 * h {
        assert(b == (e + 1) * h + (q - h)) by (nonlinear_arith)
            requires
                b == e * h + q,
        ;
        lemma_fundamental_div_mod_converse(b as int, h as int, (e + 1) as int, q - h);
    } else {
        assert(b == (e + 2) * h) by (nonlinear_arith)
            requires
                b == e * h + q,
                q == 2 * h,
        ;
        lemma_fundamental_div_mod_converse(b as int, h as int, (e + 2) as int, 0);
        lemma_pow2_unfold(e + 1);
        assert(h * (2 * pow2(e)) == (2 * h) * pow2(e)) by (nonlinear_arith);
    }
}

/// Every magnitude has a significand and an exponent.
pub proof fn lemma_decode(p: nat, b: nat) -> (r: (nat, nat))
    requires
        p >= 1,
    ensures
        b == encode(p, r.0, r.1),
        r.0 < pow2(p),
        r.1 > 0 ==> hidden(p) <= r.0,
{
    let h = hidden(p);
    lemma_pow2_pos((p - 1) as nat);
    lemma_pow2_unfold(p);
    lemma_fundamental_div_mod(b as int, h as int);
    lemma_mod_bound(b as int, h as int);
    let e = b / h;
    let m = b % h;
    if e == 0 {
        assert(h * 0 == 0);
        (m, 0)
    } else {
        assert(b == (e - 1) * h + (h + m)) by (nonlinear_arith)
            requires
                b == h * e + m,
        ;
        (h + m, (e - 1) as nat)
    }
}

/// Between neighbours lies one unit of the last place of the lower one.
pub proof fn lemma_worth_step(p: nat, b: nat)
    requires
        p >= 1,
    ensures
        worth(p, b) < worth(p, b + 1),
{
    let (q, e) = lemma_decode(p, b);
    lemma_worth_of_encode(p, q, e);
    lemma_worth_of_encode(p, q + 1, e);
    assert(encode(p, q + 1, e) == b + 1);
    lemma_pow2_pos(e);
    assert(q * pow2(e) < (q + 1) * pow2(e)) by (nonlinear_arith)
        requires
            pow2(e) > 0,
    ;
}

/// A greater magnitude is worth more.
pub proof fn lemma_worth_increases(p: nat, a: nat, b: nat)
    requires
        p >= 1,
        a < b,
    ensures
        worth(p, a) < worth(p, b),
    decreases b - a,
{
    lemma_worth_step(p, a);
    if a + 1 < b {
        lemma_worth_increases(p, a + 1, b);
    }
}

/// The lower neighbour of a rational is unique.
pub proof fn lemma_below_is_unique(p: nat, num: nat, den: nat, a: nat, b: nat)
    requires
        p >= 1,
        den > 0,
        is_below(p, num, den, a),
        is_below(p, num, den, b),
    ensures
        a == b,
{
    if a != b {
        let (lo, hi) = if a < b {
            (a, b)
        } else {
            (b, a)
        };
        if lo + 1 < hi {
            lemma_worth_increases(p, lo + 1, hi);
        }
        lemma_mul_inequality(worth(p, lo + 1) as int, worth(p, hi) as int, den as int);
    }
}

/// Rounding, once the lower neighbour is known.
pub proof fn lemma_nearest(p: nat, inf: nat, num: nat, den: nat, b: nat)
    requires
        p >= 1,
        den > 0,
        is_below(p, num, den, b),
    ensures
        inf <= b ==> nearest(p, inf, num, den) == inf,
        b < inf ==> nearest(p, inf, num, den) == ({
            let middle = (worth(p, b) + worth(p, b + 1)) * den;
            if 2 * num < middle || (2 * num == middle && b % 2 == 0) {
                b
            } else {
                b + 1
            }
        }),
{
    reveal(nearest);
    if inf <= b {
        if inf < b {
            lemma_worth_increases(p, inf, b);
        }
        lemma_mul_inequality(worth(p, inf) as int, worth(p, b) as int, den as int);
    } else {
        if b + 1 < inf {
            lemma_worth_increases(p, b + 1, inf);
        }
        lemma_mul_inequality(worth(p, b + 1) as int, worth(p, inf) as int, den as int);
        let c = choose|b: nat| #[trigger] is_below(p, num, den, b);
        lemma_below_is_unique(p, num, den, b, c);
    }
}

/// A number of the format rounds to itself.
pub proof fn lemma_nearest_exact(p: nat, inf: nat, num: nat, den: nat, b: nat)
    requires
        p >= 1,
        den > 0,
        worth(p, b) * den == num,
        b <= inf,
    ensures
        nearest(p, inf, num, den) == b,
{
    lemma_worth_step(p, b);
    lemma_mul_strict_inequality(worth(p, b) as int, worth(p, b + 1) as int, den as int);
    lemma_nearest(p, inf, num, den, b);
    lemma_mul_is_distributive_add_other_way(den as int, worth(p, b) as int, worth(p, b + 1) as int);
}

/// Every rational has a lower neighbour.
pub proof fn lemma_below_exists(p: nat, num: nat, den: nat, from: nat) -> (b: nat)
    requires
        p >= 1,
        den > 0,
        worth(p, from) * den <= num,
    ensures
        is_below(p, num, den, b),
        from <= b,
    decreases num - from,
{
    lemma_worth_is_at_least(p, from);
    lemma_mul_inequality(from as int, worth(p, from) as int, den as int);
    lemma_mul_inequality(1, den as int, from as int);
    if num < worth(p, from + 1) * den {
        from
    } else {
        lemma_worth_is_at_least(p, from + 1);
        lemma_mul_inequality((from + 1) as int, worth(p, from + 1) as int, den as int);
        assert((from + 1) * den >= from + 1) by (nonlinear_arith)
            requires
                den >= 1,
        ;
        lemma_below_exists(p, num, den, from + 1)
    }
}

proof fn lemma_worth_is_at_least(p: nat, b: nat)
    requires
        p >= 1,
    ensures
        worth(p, b) >= b,
    decreases b,
{
    if b > 0 {
        lemma_worth_step(p, (b - 1) as nat);
        lemma_worth_is_at_least(p, (b - 1) as nat);
    }
}

/// Rounding keeps the order.
pub proof fn law_rounding_is_monotone(p: nat, inf: nat, a: nat, b: nat, den: nat)
    requires
        p >= 1,
        den > 0,
        a <= b,
    ensures
        nearest(p, inf, a, den) <= nearest(p, inf, b, den) <= inf,
{
    lemma_pow2_pos((p - 1) as nat);
    lemma_pow2_pos(p);
    lemma_worth_of_encode(p, 0, 0);
    assert(0 * hidden(p) == 0 && 0 * pow2(0) == 0 && 0 * den == 0);
    let x = lemma_below_exists(p, a, den, 0);
    let y = lemma_below_exists(p, b, den, 0);
    if x > y {
        if y + 1 < x {
            lemma_worth_increases(p, y + 1, x);
        }
        lemma_mul_inequality(worth(p, y + 1) as int, worth(p, x) as int, den as int);
    }
    lemma_nearest(p, inf, a, den, x);
    lemma_nearest(p, inf, b, den, y);
}

} // verus!
