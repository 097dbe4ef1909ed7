//! Rounding of a long significand to a number of a format.

use vstd::arithmetic::div_mod::*;
use vstd::arithmetic::mul::*;
use vstd::arithmetic::power2::*;
use vstd::bits::*;
use vstd::prelude::*;

use crate::ieee::binary;

verus! {

/// `2^e` for a nonnegative exponent, one for a negative one.
pub open spec fn scale_up(e: int) -> nat {
    if e >= 0 {
        pow2(e as nat)
    } else {
        1
    }
}

/// `2^-e` for a negative exponent, one for a nonnegative one.
pub open spec fn scale_down(e: int) -> nat {
    if e < 0 {
        pow2((-e) as nat)
    } else {
        1
    }
}

/// The rational `num / den` is `m * 2^e` and, where `sticky` says so, a positive
/// rest of less than `2^e`.
pub open spec fn approximates(num: nat, den: nat, m: nat, e: int, sticky: bool) -> bool {
    let k = scale_up(e) * den;
    let n = num * scale_down(e);
    &&& m * k <= n < (m + 1) * k
    &&& sticky <==> n != m * k
}

/// `(p, inf)` are the parameters of single or double precision.
pub open spec fn is_format(p: u32, inf: u64) -> bool {
    ||| p == binary::SINGLE_P && inf == binary::SINGLE_INF
    ||| p == binary::DOUBLE_P && inf == binary::DOUBLE_INF
}

/// Halves `x` times `2^shift` are compared with `num / den` by comparing the bits
/// that are shifted out with half of `2^shift`.
proof fn lemma_shifted_out(
    p: nat,
    num: nat,
    den: nat,
    m: nat,
    e: int,
    sticky: bool,
    shift: nat,
    q: nat,
    rem: nat,
)
    requires
        p >= 1,
        den > 0,
        shift > 0,
        approximates(num, den, m, e, sticky),
        m == q * pow2(shift) + rem,
        rem < pow2(shift),
        e + shift >= 0,
        e + shift > 0 ==> binary::hidden(p) <= q,
        q < pow2(p),
    ensures
        ({
            let b = binary::encode(p, q, (e + shift) as nat);
            let middle = (binary::worth(p, b) + binary::worth(p, b + 1)) * den;
            let half = pow2((shift - 1) as nat);
            &&& binary::is_below(p, num, den, b)
            &&& rem < half ==> 2 * num < middle
            &&& rem == half && !sticky ==> 2 * num == middle
            &&& rem > half || (rem == half && sticky) ==> 2 * num > middle
        }),
{
    let s = pow2(shift);
    let half = pow2((shift - 1) as nat);
    let ex = (e + shift) as nat;
    let t = pow2(ex);
    let a = scale_up(e);
    let c = scale_down(e);
    let k = a * den;
    let n = num * c;
    let b = binary::encode(p, q, ex);
    lemma_pow2_unfold(shift);
    lemma_pow2_pos(shift);
    lemma_pow2_pos(ex);
    binary::lemma_worth_of_encode(p, q, ex);
    binary::lemma_worth_of_encode(p, q + 1, ex);
    assert(binary::encode(p, q + 1, ex) == b + 1);
    assert(c > 0 && a > 0) by {
        if e < 0 {
            lemma_pow2_pos((-e) as nat);
        } else {
            lemma_pow2_pos(e as nat);
        }
    }
    assert(k > 0) by (nonlinear_arith)
        requires
            a > 0,
            den > 0,
            k == a * den,
    ;
    assert(t * c == a * s) by {
        if e < 0 {
            lemma_pow2_adds(ex, (-e) as nat);
            assert(ex + (-e) as nat == shift);
        } else {
            lemma_pow2_adds(e as nat, shift);
            assert(ex == e as nat + shift);
        }
    }
    let x = (q * t) * den;
    let y = ((q + 1) * t) * den;
    assert(x * c == (q * s) * k) by (nonlinear_arith)
        requires
            x == (q * t) * den,
            t * c == a * s,
            k == a * den,
    ;
    assert(y * c == (q * s) * k + s * k) by (nonlinear_arith)
        requires
            y == ((q + 1) * t) * den,
            t * c == a * s,
            k == a * den,
    ;
    assert(m * k == (q * s) * k + rem * k) by (nonlinear_arith)
        requires
            m == q * s + rem,
    ;
    assert((m + 1) * k == m * k + k) by (nonlinear_arith);
    assert((rem + 1) * k == rem * k + k) by (nonlinear_arith);
    assert(s * k == 2 * (half * k)) by (nonlinear_arith)
        requires
            s == 2 * half,
    ;
    lemma_mul_nonnegative(rem as int, k as int);
    lemma_mul_inequality((rem + 1) as int, s as int, k as int);
    lemma_mul_inequality_converse(x as int, num as int, c as int);
    lemma_mul_strict_inequality_converse(num as int, y as int, c as int);
    let middle = (binary::worth(p, b) + binary::worth(p, b + 1)) * den;
    assert(middle == x + y) by (nonlinear_arith)
        requires
            middle == (q * t + (q + 1) * t) * den,
            x == (q * t) * den,
            y == ((q + 1) * t) * den,
    ;
    assert(middle * c == x * c + y * c) by (nonlinear_arith)
        requires
            middle == x + y,
    ;
    assert((2 * num) * c == 2 * n) by (nonlinear_arith)
        requires
            n == num * c,
    ;
    if rem < half {
        lemma_mul_inequality((rem + 1) as int, half as int, k as int);
        lemma_mul_strict_inequality_converse((2 * num) as int, middle as int, c as int);
    } else if rem == half {
        if sticky {
            lemma_mul_strict_inequality_converse(middle as int, (2 * num) as int, c as int);
        } else {
            lemma_mul_is_commutative(c as int, (2 * num) as int);
            lemma_mul_is_commutative(c as int, middle as int);
            lemma_mul_equality_converse(c as int, (2 * num) as int, middle as int);
        }
    } else {
        lemma_mul_inequality((half + 1) as int, rem as int, k as int);
        assert((half + 1) * k == half * k + k) by (nonlinear_arith);
        lemma_mul_strict_inequality_converse(middle as int, (2 * num) as int, c as int);
    }
}

/// Shifting left multiplies by a power of two.
pub proof fn lemma_shl(x: u128, shift: u128)
    requires
        shift < 128,
        x * pow2(shift as nat) <= u128::MAX,
    ensures
        x << shift == x * pow2(shift as nat),
    decreases shift,
{
    lemma2_to64();
    if shift == 0 {
        assert(x << 0u128 == x) by (bit_vector);
        assert(x * 1 == x);
    } else {
        let less: u128 = (shift - 1) as u128;
        lemma_pow2_unfold(shift as nat);
        assert(x * pow2(shift as nat) == 2 * (x * pow2(less as nat))) by (nonlinear_arith)
            requires
                pow2(shift as nat) == 2 * pow2(less as nat),
        ;
        lemma_mul_nonnegative(x as int, pow2(less as nat) as int);
        lemma_shl(x, less);
        let y: u128 = x << less;
        assert(x << shift == y << 1u128) by (bit_vector)
            requires
                y == x << less,
                less < 127,
                shift == less + 1,
        ;
        assert(y << 1u128 == 2 * y) by (bit_vector)
            requires
                y <= 0x7fff_ffff_ffff_ffff_ffff_ffff_ffff_ffff,
        ;
    }
}

/// The number of bits of `m`.
pub fn bit_length(m: u128) -> (len: u32)
    ensures
        len <= 128,
        m < pow2(len as nat),
        m > 0 ==> len > 0 && pow2((len - 1) as nat) <= m,
        m == 0 ==> len == 0,
{
    let ghost m0 = m;
    let mut m: u128 = m;
    let mut n: u32 = 0;
    let mut step: u32 = 64;
    proof {
        lemma2_to64();
        lemma_pow2_adds(64, 64);
    }
    while step > 0
        invariant
            step == 64 || step == 32 || step == 16 || step == 8 || step == 4 || step == 2
                || step == 1 || step == 0,
            n % 2 == 0 || step == 0,
            n + (if step == 0 { 1 } else { 2 * step }) <= 128,
            m < pow2(if step == 0 { 1 } else { (2 * step) as nat }),
            m * pow2(n as nat) <= m0 < (m + 1) * pow2(n as nat),
            n > 0 ==> m > 0,
        decreases step,
    {
        proof {
            lemma2_to64();
            lemma2_to64_rest();
            lemma_pow2_adds(step as nat, step as nat);
        }
        let s: u128 = step as u128;
        let high: u128 = m >> s;
        proof {
            lemma_u128_shr_is_div(m, s);
            lemma_pow2_pos(step as nat);
            lemma_pow2_pos(n as nat);
            lemma_fundamental_div_mod(m as int, pow2(step as nat) as int);
            lemma_mod_bound(m as int, pow2(step as nat) as int);
        }
        if high > 0 {
            proof {
                let w = pow2(step as nat);
                let k = pow2(n as nat);
                lemma_pow2_adds(step as nat, n as nat);
                assert(w * k == pow2((n + step) as nat));
                assert(high * (w * k) <= m * k && (m + 1) * k <= (high + 1) * (w * k))
                    by (nonlinear_arith)
                    requires
                        m == w * high + (m as int) % (w as int),
                        0 <= (m as int) % (w as int) < w,
                        k > 0,
                ;
                assert(high < w) by (nonlinear_arith)
                    requires
                        w * high <= m,
                        m < w * w,
                        w > 0,
                ;
            }
            m = high;
            n = n + step;
        } else {
            assert(m < pow2(step as nat)) by {
                assert(pow2(step as nat) * 0 == 0);
            }
        }
        step = step / 2;
    }
    proof {
        lemma2_to64();
        lemma_pow2_unfold((n + 1) as nat);
    }
    if m == 0 {
        assert(0 * pow2(n as nat) == 0 && 1 * pow2(0) == 1);
        0
    } else {
        assert(m == 1);
        assert(2 * pow2(n as nat) == pow2((n + 1) as nat));
        assert(1 * pow2(n as nat) == pow2(n as nat));
        n + 1
    }
}

/// A number of `len` bits, shifted left to at most `p` bits.
proof fn lemma_bits_up(m: nat, len: nat, left: nat, p: nat)
    requires
        m < pow2(len),
        len > 0,
        pow2((len - 1) as nat) <= m,
        left + len <= p,
        p <= 64,
    ensures
        m * pow2(left) < pow2(p),
        pow2(p) <= 0x1_0000_0000_0000_0000,
        left + len == p ==> binary::hidden(p) <= m * pow2(left),
{
    lemma_pow2_pos(left);
    lemma_pow2_adds(len, left);
    lemma_mul_strict_inequality(m as int, pow2(len) as int, pow2(left) as int);
    if len + left < p {
        lemma_pow2_strictly_increases(len + left, p);
    } else {
        lemma_pow2_adds((len - 1) as nat, left);
        assert((len - 1) as nat + left == (p - 1) as nat);
        lemma_mul_inequality(pow2((len - 1) as nat) as int, m as int, pow2(left) as int);
    }
    lemma2_to64();
    if p < 64 {
        lemma_pow2_strictly_increases(p, 64);
    }
}

/// A number of `len` bits, shifted right to at most `p` bits.
proof fn lemma_bits_down(m: nat, len: nat, s: nat, p: nat, q: nat)
    requires
        m < pow2(len),
        len > 0,
        pow2((len - 1) as nat) <= m,
        s + p >= len,
        q * pow2(s) <= m < (q + 1) * pow2(s),
        0 < p <= 64,
    ensures
        q < pow2(p),
        pow2(p) <= 0x1_0000_0000_0000_0000,
        s + p == len ==> binary::hidden(p) <= q,
{
    lemma_pow2_pos(s);
    lemma_pow2_adds(p, s);
    if len < s + p {
        lemma_pow2_strictly_increases(len, s + p);
    }
    lemma_mul_strict_inequality_converse(q as int, pow2(p) as int, pow2(s) as int);
    if s + p == len {
        lemma_pow2_adds((p - 1) as nat, s);
        assert((p - 1) as nat + s == (len - 1) as nat);
        lemma_mul_strict_inequality_converse(
            binary::hidden(p) as int,
            (q + 1) as int,
            pow2(s) as int,
        );
    }
    lemma2_to64();
    if p < 64 {
        lemma_pow2_strictly_increases(p, 64);
    }
}

proof fn lemma_exact_is_below(p: nat, num: nat, den: nat, b: nat)
    requires
        p >= 1,
        den > 0,
        binary::worth(p, b) * den == num,
    ensures
        binary::is_below(p, num, den, b),
{
    binary::lemma_worth_step(p, b);
    lemma_mul_strict_inequality(
        binary::worth(p, b) as int,
        binary::worth(p, b + 1) as int,
        den as int,
    );
}

/// The magnitude nearest to the rational that `m`, `e` and `sticky` approximate.
#[verifier::rlimit(60)]
pub fn round(
    p: u32,
    inf: u64,
    m: u128,
    e: i32,
    sticky: bool,
    Ghost(num): Ghost<nat>,
    Ghost(den): Ghost<nat>,
) -> (r: u64)
    requires
        is_format(p, inf),
        den > 0,
        m < pow2(120),
        -10000 <= e <= 10000,
        approximates(num, den, m as nat, e as int, sticky),
        sticky ==> m >= pow2(p as nat),
    ensures
        r == binary::nearest(p as nat, inf as nat, num, den),
        r <= inf,
{
    let h: u64 = if p == binary::SINGLE_P {
        0x80_0000
    } else {
        0x10_0000_0000_0000
    };
    let w: i32 = if p == binary::SINGLE_P {
        255
    } else {
        2047
    };
    let ghost pp = p as nat;
    proof {
        lemma2_to64();
        lemma2_to64_rest();
        assert(h == binary::hidden(pp));
        assert(inf == w * h);
        assert(scale_down(e as int) > 0 && scale_up(e as int) > 0) by {
            lemma_pow2_pos((-e) as nat);
            lemma_pow2_pos(e as nat);
        }
    }
    if m == 0 {
        proof {
            let k = scale_up(e as int) * den;
            assert(0 * k == 0);
            lemma_pow2_pos(pp);
            assert(num == 0) by (nonlinear_arith)
                requires
                    num * scale_down(e as int) == 0,
                    scale_down(e as int) > 0,
            ;
            assert(binary::worth(pp, 0) == 0) by {
                vstd::arithmetic::div_mod::lemma_basic_div(0, h as int);
                vstd::arithmetic::div_mod::lemma_small_mod(0, h as nat);
            }
            assert(0 * den == 0);
            binary::lemma_nearest_exact(pp, inf as nat, num, den, 0);
        }
        return 0;
    }
    let len: i32 = bit_length(m) as i32;
    proof {
        if len > 120 {
            if len > 121 {
                lemma_pow2_strictly_increases(120, (len - 1) as nat);
            }
        }
    }
    let shift: i32 = if len - p as i32 > -e {
        len - p as i32
    } else {
        -e
    };
    let ex: i32 = e + shift;
    if shift <= 0 {
        let left: u128 = (-shift) as u128;
        proof {
            if sticky && len <= p {
                if len < p {
                    lemma_pow2_strictly_increases(len as nat, pp);
                }
            }
            lemma_bits_up(m as nat, len as nat, left as nat, pp);
            lemma_shl(m, left);
            lemma_pow2_adds(left as nat, ex as nat);
            assert(left as nat + ex as nat == e as nat);
        }
        let q: u128 = m << left;
        proof {
            let k = pow2(e as nat) * den;
            binary::lemma_worth_of_encode(pp, q as nat, ex as nat);
            assert((q * pow2(ex as nat)) * den == num) by (nonlinear_arith)
                requires
                    q == m * pow2(left as nat),
                    pow2(e as nat) == pow2(left as nat) * pow2(ex as nat),
                    num == m * (pow2(e as nat) * den),
            ;
        }
        let ghost b = binary::encode(pp, q as nat, ex as nat);
        if ex >= w {
            proof {
                assert(b >= inf) by (nonlinear_arith)
                    requires
                        b == ex * h + q,
                        ex >= w,
                        inf == w * h,
                        h > 0,
                ;
                lemma_exact_is_below(pp, num, den, b);
                binary::lemma_nearest(pp, inf as nat, num, den, b);
            }
            return inf;
        }
        assert(ex * h <= 0x7ff * 0x10_0000_0000_0000) by (nonlinear_arith)
            requires
                0 <= ex < 0x7ff,
                0 <= h <= 0x10_0000_0000_0000,
        ;
        let r: u64 = ex as u64 * h + q as u64;
        assert(r == b);
        proof {
            lemma_exact_is_below(pp, num, den, b);
            binary::lemma_nearest(pp, inf as nat, num, den, b);
            if b <= inf {
                binary::lemma_nearest_exact(pp, inf as nat, num, den, b);
            }
        }
        if r >= inf {
            inf
        } else {
            r
        }
    } else if shift > 120 {
        proof {
            if shift > 121 {
                lemma_pow2_strictly_increases(120, (shift - 1) as nat);
            }
            lemma_pow2_unfold(shift as nat);
            assert(ex == 0);
            lemma_pow2_pos(pp);
            assert(0 * pow2(shift as nat) == 0 && 0 * h == 0);
            lemma_shifted_out(pp, num, den, m as nat, e as int, sticky, shift as nat, 0, m as nat);
            binary::lemma_nearest(pp, inf as nat, num, den, 0);
        }
        0
    } else {
        let s: u128 = shift as u128;
        let q: u128 = m >> s;
        proof {
            lemma_u128_shr_is_div(m, s);
            lemma_pow2_pos(s as nat);
            lemma_fundamental_div_mod(m as int, pow2(s as nat) as int);
            lemma_mod_bound(m as int, pow2(s as nat) as int);
            lemma_mul_is_commutative(q as int, pow2(s as nat) as int);
            lemma_shl(q, s);
            assert((q + 1) * pow2(s as nat) == q * pow2(s as nat) + pow2(s as nat)) by (nonlinear_arith);
            lemma_bits_down(m as nat, len as nat, s as nat, pp, q as nat);
        }
        let rem: u128 = m - (q << s);
        let half: u128 = 1u128 << ((shift - 1) as u128);
        proof {
            lemma_pow2_strictly_increases((shift - 1) as nat, 120);
            lemma_pow2_adds(60, 60);
            lemma_shl(1, (shift - 1) as u128);
            lemma_shifted_out(
                pp,
                num,
                den,
                m as nat,
                e as int,
                sticky,
                shift as nat,
                q as nat,
                rem as nat,
            );
        }
        let ghost b = binary::encode(pp, q as nat, ex as nat);
        proof {
            binary::lemma_nearest(pp, inf as nat, num, den, b);
        }
        if ex >= w {
            assert(b >= inf) by (nonlinear_arith)
                requires
                    b == ex * h + q,
                    ex >= w,
                    inf == w * h,
                    h > 0,
            ;
            return inf;
        }
        assert(ex * h <= 0x7ff * 0x10_0000_0000_0000) by (nonlinear_arith)
            requires
                0 <= ex < 0x7ff,
                0 <= h <= 0x10_0000_0000_0000,
        ;
        let r: u64 = ex as u64 * h + q as u64;
        assert(r == b);
        if r >= inf {
            return inf;
        }
        assert(b % 2 == (q as nat) % 2) by {
            assert(h % 2 == 0);
            assert(ex * h == 2 * (ex * (h / 2))) by (nonlinear_arith)
                requires
                    h == 2 * (h / 2),
            ;
        }
        if rem > half || (rem == half && (sticky || q % 2 == 1)) {
            r + 1
        } else {
            r
        }
    }
}

} // verus!
