//! The square root in double precision.

use vstd::arithmetic::mul::*;
use vstd::arithmetic::power2::*;
use vstd::bits::*;
use vstd::prelude::*;

use crate::ieee::arith;
use crate::ieee::arith::Parts;
use crate::ieee::binary;
use crate::ieee::rounding;

verus! {

/// The magnitude `b` is the largest one whose square is at most `n`.
pub open spec fn is_below_root(n: nat, b: nat) -> bool {
    let lo = binary::worth(binary::DOUBLE_P as nat, b);
    let hi = binary::worth(binary::DOUBLE_P as nat, b + 1);
    lo * lo <= n < hi * hi
}

/// The magnitude nearest to the square root of `n`, of two equally near the even
/// one.
#[verifier::opaque]
pub open spec fn nearest_root(n: nat) -> nat {
    let b = choose|b: nat| #[trigger] is_below_root(n, b);
    let middle = binary::worth(binary::DOUBLE_P as nat, b) + binary::worth(
        binary::DOUBLE_P as nat,
        b + 1,
    );
    if 4 * n < middle * middle || (4 * n == middle * middle && b % 2 == 0) {
        b
    } else {
        b + 1
    }
}

/// The square root, correctly rounded. The root of a zero is that zero, and
/// other negative numbers have none.
#[verifier::opaque]
pub open spec fn root(x: arith::Signed) -> arith::Signed {
    if x.mag == 0 {
        x
    } else if x.neg || x.mag > binary::DOUBLE_INF {
        arith::nan(arith::double())
    } else if x.mag == binary::DOUBLE_INF {
        x
    } else {
        arith::Signed {
            neg: false,
            mag: nearest_root(
                binary::worth(binary::DOUBLE_P as nat, x.mag) * pow2(binary::DOUBLE_UNIT as nat),
            ),
        }
    }
}

proof fn lemma_square_increases(a: nat, b: nat)
    by (nonlinear_arith)
    requires
        a <= b,
    ensures
        a * a <= b * b,
{
}

proof fn lemma_below_root_is_unique(n: nat, a: nat, b: nat)
    requires
        is_below_root(n, a),
        is_below_root(n, b),
    ensures
        a == b,
{
    let p = binary::DOUBLE_P as nat;
    if a != b {
        let (lo, hi) = if a < b {
            (a, b)
        } else {
            (b, a)
        };
        if lo + 1 < hi {
            binary::lemma_worth_increases(p, lo + 1, hi);
        }
        lemma_square_increases(binary::worth(p, lo + 1), binary::worth(p, hi));
    }
}

/// A number has a lower neighbour of its root below any magnitude whose square is
/// above it.
proof fn lemma_below_root_exists(n: nat, from: nat, top: nat) -> (b: nat)
    requires
        from < top,
        ({
            let lo = binary::worth(binary::DOUBLE_P as nat, from);
            let hi = binary::worth(binary::DOUBLE_P as nat, top);
            lo * lo <= n < hi * hi
        }),
    ensures
        is_below_root(n, b),
        b < top,
    decreases top - from,
{
    let hi = binary::worth(binary::DOUBLE_P as nat, from + 1);
    if n < hi * hi {
        from
    } else {
        lemma_below_root_exists(n, from + 1, top)
    }
}

/// A root is a magnitude of the format, and negative only where it is zero.
pub proof fn lemma_root_is_bounded(x: arith::Signed)
    requires
        x.mag < 0x8000_0000_0000_0000,
    ensures
        root(x).mag < 0x8000_0000_0000_0000,
        root(x).neg ==> root(x).mag == 0,
        !x.neg && x.mag <= binary::DOUBLE_INF ==> root(x).mag <= binary::DOUBLE_INF,
{
    reveal(root);
    lemma2_to64_rest();
    let p = binary::DOUBLE_P as nat;
    let inf = binary::DOUBLE_INF as nat;
    if 0 < x.mag < inf && !x.neg {
        let u = pow2(binary::DOUBLE_UNIT as nat);
        let w = binary::worth(p, x.mag);
        let top = binary::worth(p, inf);
        let n = w * u;
        arith::lemma_zero_is_worth_nothing(p);
        binary::lemma_worth_increases(p, x.mag, inf);
        lemma_pow2_pos(binary::DOUBLE_UNIT as nat);
        assert(top >= u) by {
            binary::lemma_worth_of_encode(p, 0x10_0000_0000_0000, 2046);
            assert(binary::encode(p, 0x10_0000_0000_0000, 2046) == inf);
            lemma_pow2_strictly_increases(binary::DOUBLE_UNIT as nat, 2046);
            assert(0x10_0000_0000_0000 * pow2(2046) >= pow2(2046)) by (nonlinear_arith)
                requires
                    pow2(2046) >= 0,
            ;
        }
        assert(n < top * top) by (nonlinear_arith)
            requires
                n == w * u,
                w < top,
                0 < u <= top,
        ;
        assert(0 * 0 == 0);
        let b = lemma_below_root_exists(n, 0, inf);
        reveal(nearest_root);
        let c = choose|b: nat| #[trigger] is_below_root(n, b);
        lemma_below_root_is_unique(n, b, c);
    }
}

/// The square of the root nearest to that of `n` is off by at most one part in `2^50`, where `n` is
/// the square of a number that is neither tiny nor infinite.
pub proof fn lemma_root_is_close(n: nat)
    requires
        pow2(104) <= n,
        n < pow2(2098) * pow2(2098),
    ensures
        ({
            let r = binary::worth(binary::DOUBLE_P as nat, nearest_root(n));
            &&& pow2(50) * (r * r) <= (pow2(50) + 1) * n
            &&& pow2(50) * (r * r) >= (pow2(50) - 1) * n
            &&& nearest_root(n) <= binary::DOUBLE_INF
        }),
{
    let p = binary::DOUBLE_P as nat;
    let inf = binary::DOUBLE_INF as nat;
    lemma2_to64();
    lemma2_to64_rest();
    lemma_pow2_adds(52, 52);
    lemma_pow2_adds(52, 2046);
    binary::lemma_worth_of_encode(p, 0x10_0000_0000_0000, 0);
    binary::lemma_worth_of_encode(p, 0x10_0000_0000_0000, 2046);
    let one = 0x10_0000_0000_0000nat;
    assert(binary::encode(p, one, 0) == one);
    assert(binary::encode(p, one, 2046) == inf);
    assert(binary::worth(p, one) == one);
    let b = lemma_below_root_exists(n, one, inf);
    reveal(nearest_root);
    let c = choose|b: nat| #[trigger] is_below_root(n, b);
    lemma_below_root_is_unique(n, b, c);
    lemma_below_root_is_past(n, one, b);
    let (q, e) = binary::lemma_decode(p, b);
    lemma_pow2_unfold(53);
    binary::lemma_worth_of_encode(p, q, e);
    binary::lemma_worth_of_encode(p, q + 1, e);
    assert(binary::encode(p, q + 1, e) == b + 1);
    assert(q >= one) by {
        if e == 0 {
            assert(0 * binary::hidden(p) == 0);
        }
    }
    let g = pow2(e);
    let lo = binary::worth(p, b);
    let hi = binary::worth(p, b + 1);
    lemma_pow2_pos(e);
    assert(hi == lo + g && lo >= one * g) by (nonlinear_arith)
        requires
            lo == q * g,
            hi == (q + 1) * g,
            q >= one,
            g > 0,
    ;
    let gap = hi * hi - lo * lo;
    assert(gap == 2 * (lo * g) + g * g) by (nonlinear_arith)
        requires
            gap == hi * hi - lo * lo,
            hi == lo + g,
    ;
    assert(one * (lo * g) <= lo * lo) by (nonlinear_arith)
        requires
            lo >= one * g,
            lo >= 0,
            g > 0,
    ;
    assert(one * (g * g) <= lo * g) by (nonlinear_arith)
        requires
            lo >= one * g,
            g > 0,
    ;
    assert(0x4_0000_0000_0000 * gap <= lo * lo) by (nonlinear_arith)
        requires
            gap == 2 * (lo * g) + g * g,
            one * (lo * g) <= lo * lo,
            one * (g * g) <= lo * g,
            one == 0x10_0000_0000_0000,
            g * g >= 0,
    ;
    let r = binary::worth(p, nearest_root(n));
    let z = r * r;
    assert(z == lo * lo || z == hi * hi);
    assert(z - n <= gap && n - z <= gap);
    let k = pow2(50);
    assert(k == 0x4_0000_0000_0000);
    assert(k * z <= (k + 1) * n && k * z >= (k - 1) * n) by (nonlinear_arith)
        requires
            k * gap <= n,
            z - n <= gap,
            n - z <= gap,
            k > 0,
    ;
}

/// The lower neighbour of a root lies at or past any magnitude whose square is not above.
proof fn lemma_below_root_is_past(n: nat, a: nat, b: nat)
    requires
        is_below_root(n, b),
        ({
            let lo = binary::worth(binary::DOUBLE_P as nat, a);
            lo * lo <= n
        }),
    ensures
        a <= b,
{
    let p = binary::DOUBLE_P as nat;
    if a > b {
        let x = binary::worth(p, a);
        let y = binary::worth(p, b + 1);
        if a > b + 1 {
            binary::lemma_worth_increases(p, b + 1, a);
        }
        assert(y * y <= x * x) by (nonlinear_arith)
            requires
                0 <= y <= x,
        ;
    }
}

/// The integer square root.
fn integer_root(x: u128) -> (r: u64)
    requires
        x < 0x100_0000_0000_0000_0000_0000_0000_0000,
    ensures
        r * r <= x < (r + 1) * (r + 1),
        r < 0x1000_0000_0000_0000,
{
    let mut r: u64 = 0;
    let mut bit: u64 = 0x1000_0000_0000_0000;
    assert(0x1000_0000_0000_0000 * 0x1000_0000_0000_0000
        == 0x100_0000_0000_0000_0000_0000_0000_0000);
    proof {
        lemma2_to64_rest();
        assert(bit == pow2(60));
    }
    while bit > 1
        invariant
            bit >= 1,
            r + bit <= 0x1000_0000_0000_0000,
            r * r <= x < (r + bit) * (r + bit),
            exists|k: nat| bit == #[trigger] pow2(k),
        decreases bit,
    {
        let ghost k = choose|k: nat| bit == #[trigger] pow2(k);
        let half: u64 = bit / 2;
        proof {
            lemma2_to64();
            if k == 0 {
                assert(false);
            }
            lemma_pow2_unfold(k);
            assert(half == pow2((k - 1) as nat));
        }
        let t: u64 = r + half;
        assert(t * t <= 0x1000_0000_0000_0000 * 0x1000_0000_0000_0000) by (nonlinear_arith)
            requires
                0 <= t <= 0x1000_0000_0000_0000,
        ;
        if t as u128 * t as u128 <= x {
            r = t;
        }
        bit = half;
    }
    r
}

/// Rounding the integer root `r` of `x`, where `n` is `x * (2^f)^2`.
proof fn lemma_root(n: nat, x: nat, r: nat, f: nat, shift: nat, q: nat, rem: nat)
    requires
        n == x * (pow2(f) * pow2(f)),
        r * r <= x < (r + 1) * (r + 1),
        shift > 0,
        r == q * pow2(shift) + rem,
        rem < pow2(shift),
        binary::hidden(binary::DOUBLE_P as nat) <= q < pow2(binary::DOUBLE_P as nat),
    ensures
        ({
            let b = binary::encode(binary::DOUBLE_P as nat, q, f + shift);
            let half = pow2((shift - 1) as nat);
            let up = rem > half || (rem == half && (r * r != x || b % 2 == 1));
            nearest_root(n) == if up {
                b + 1
            } else {
                b
            }
        }),
{
    reveal(nearest_root);
    let p = binary::DOUBLE_P as nat;
    let g = pow2(f);
    let s = pow2(shift);
    let half = pow2((shift - 1) as nat);
    let b = binary::encode(p, q, f + shift);
    lemma_pow2_adds(f, shift);
    lemma_pow2_unfold(shift);
    lemma_pow2_pos(f);
    binary::lemma_worth_of_encode(p, q, f + shift);
    binary::lemma_worth_of_encode(p, q + 1, f + shift);
    assert(binary::encode(p, q + 1, f + shift) == b + 1);
    let lo = q * s;
    let hi = (q + 1) * s;
    let y = lo + half;
    assert(hi == lo + s) by (nonlinear_arith)
        requires
            hi == (q + 1) * s,
            lo == q * s,
    ;
    lemma_square_increases(lo, r);
    lemma_square_increases(r + 1, hi);
    let gg = g * g;
    lemma_mul_strictly_positive(g as int, g as int);
    let wl = binary::worth(p, b);
    let wh = binary::worth(p, b + 1);
    assert(wl == lo * g && wh == hi * g) by (nonlinear_arith)
        requires
            wl == q * (g * s),
            wh == (q + 1) * (g * s),
            lo == q * s,
            hi == (q + 1) * s,
    ;
    assert(wl * wl == (lo * lo) * gg && wh * wh == (hi * hi) * gg) by (nonlinear_arith)
        requires
            wl == lo * g,
            wh == hi * g,
            gg == g * g,
    ;
    lemma_mul_inequality((lo * lo) as int, x as int, gg as int);
    lemma_mul_strict_inequality(x as int, (hi * hi) as int, gg as int);
    assert(is_below_root(n, b));
    let c = choose|b: nat| #[trigger] is_below_root(n, b);
    lemma_below_root_is_unique(n, b, c);
    let middle = wl + wh;
    assert(middle * middle == 4 * ((y * y) * gg)) by (nonlinear_arith)
        requires
            middle == lo * g + hi * g,
            hi == lo + 2 * half,
            y == lo + half,
            gg == g * g,
    ;
    if rem < half {
        lemma_square_increases(r + 1, y);
        lemma_mul_strict_inequality(x as int, (y * y) as int, gg as int);
    } else if rem > half {
        lemma_square_increases(y + 1, r);
        assert((y + 1) * (y + 1) > y * y) by (nonlinear_arith);
        lemma_mul_strict_inequality((y * y) as int, x as int, gg as int);
    } else {
        assert(r == y);
        if r * r != x {
            lemma_mul_strict_inequality((y * y) as int, x as int, gg as int);
        }
    }
}

/// The square root.
pub fn sqrt(x: Parts) -> (r: Parts)
    requires
        x.mag < 0x8000_0000_0000_0000,
    ensures
        r@ == root(x@),
        r.mag < 0x8000_0000_0000_0000,
{
    reveal(root);
    if x.mag == 0 {
        return x;
    }
    if x.neg || x.mag > binary::DOUBLE_INF {
        return arith::invalid(binary::DOUBLE_P, binary::DOUBLE_INF, Ghost(arith::double()));
    }
    if x.mag == binary::DOUBLE_INF {
        return x;
    }
    let (m, e) = arith::unpack(binary::DOUBLE_P, binary::DOUBLE_INF, x.mag);
    let len: u32 = rounding::bit_length(m as u128);
    proof {
        lemma2_to64();
        lemma2_to64_rest();
        if len > 54 {
            lemma_pow2_strictly_increases(53, (len - 1) as nat);
        }
    }
    let k: u32 = if (e as u32 + 119 - len) % 2 == 0 {
        119 - len
    } else {
        118 - len
    };
    let f: u32 = (e as u32 + binary::DOUBLE_UNIT - k) / 2;
    proof {
        assert(2 * f == e + binary::DOUBLE_UNIT - k);
        lemma_pow2_pos(k as nat);
        lemma_pow2_adds(len as nat, k as nat);
        lemma_pow2_adds((len - 1) as nat, k as nat);
        assert((len - 1) as nat + k as nat == (len + k - 1) as nat);
        lemma_mul_strict_inequality(m as int, pow2(len as nat) as int, pow2(k as nat) as int);
        lemma_mul_inequality(pow2((len - 1) as nat) as int, m as int, pow2(k as nat) as int);
        lemma_pow2_adds(60, 60);
        lemma_pow2_adds(57, 60);
        lemma_pow2_strictly_increases((len + k) as nat, 120);
        if len + k - 1 > 117 {
            lemma_pow2_strictly_increases(117, (len + k - 1) as nat);
        }
        rounding::lemma_shl(m as u128, k as u128);
        assert(0x1000_0000_0000_0000 * 0x1000_0000_0000_0000
            == 0x100_0000_0000_0000_0000_0000_0000_0000);
        assert(0x200_0000_0000_0000 * 0x1000_0000_0000_0000
            == 0x20_0000_0000_0000_0000_0000_0000_0000);
    }
    let big: u128 = (m as u128) << (k as u128);
    let r: u64 = integer_root(big);
    assert(r >= 0x400_0000_0000_0000) by (nonlinear_arith)
        requires
            big >= 0x20_0000_0000_0000_0000_0000_0000_0000,
            big < (r + 1) * (r + 1),
    ;
    let shift: u64 = if r >= 0x800_0000_0000_0000 {
        7
    } else {
        6
    };
    let q: u64 = if r >= 0x800_0000_0000_0000 {
        r / 128
    } else {
        r / 64
    };
    let rem: u64 = if r >= 0x800_0000_0000_0000 {
        r % 128
    } else {
        r % 64
    };
    let half: u64 = if r >= 0x800_0000_0000_0000 {
        64
    } else {
        32
    };
    let ghost n = binary::worth(binary::DOUBLE_P as nat, x.mag as nat) * pow2(
        binary::DOUBLE_UNIT as nat,
    );
    proof {
        let g = pow2(f as nat);
        lemma_pow2_adds(e as nat, binary::DOUBLE_UNIT as nat);
        lemma_pow2_adds(f as nat, f as nat);
        lemma_pow2_adds(k as nat, (f + f) as nat);
        assert(k as nat + (f + f) as nat == e as nat + binary::DOUBLE_UNIT as nat);
        assert(f as nat + f as nat == (f + f) as nat);
        assert(n == big * (g * g)) by (nonlinear_arith)
            requires
                n == (m * pow2(e as nat)) * pow2(binary::DOUBLE_UNIT as nat),
                big == m * pow2(k as nat),
                pow2(e as nat) * pow2(binary::DOUBLE_UNIT as nat) == pow2(k as nat) * (g * g),
        ;
        assert(r * r <= 0x1000_0000_0000_0000 * 0x1000_0000_0000_0000) by (nonlinear_arith)
            requires
                0 <= r <= 0x1000_0000_0000_0000,
        ;
        lemma_root(n, big as nat, r as nat, f as nat, shift as nat, q as nat, rem as nat);
    }
    let ex: u64 = f as u64 + shift;
    let b: u64 = ex * 0x10_0000_0000_0000 + q;
    assert(b == binary::encode(binary::DOUBLE_P as nat, q as nat, f as nat + shift as nat));
    let exact: bool = r as u128 * r as u128 == big;
    if rem > half || (rem == half && (!exact || b % 2 == 1)) {
        Parts { neg: false, mag: b + 1 }
    } else {
        Parts { neg: false, mag: b }
    }
}

} // verus!
