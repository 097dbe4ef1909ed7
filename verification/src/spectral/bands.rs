//! The log-spaced frequency bands.

use vstd::arithmetic::div_mod::*;
use vstd::arithmetic::mul::*;
use vstd::arithmetic::power2::*;
use vstd::prelude::*;

use crate::ieee::arith;
use crate::ieee::binary;
use crate::ieee::convert;
use crate::ieee::single;
use crate::ieee::single::Single;

verus! {

/// Samples in one analysis frame.
pub const FRAME_SIZE: usize = 1024;

/// Samples between the starts of consecutive frames.
pub const HOP_SIZE: usize = 512;

/// Number of bands.
pub const NUM_BANDS: usize = 8;

/// Lower edge of the lowest band in hertz.
pub const BAND_MIN_HZ: u32 = 30;

/// Upper edge of the highest band in hertz.
pub const BAND_MAX_HZ: u32 = 16_000;

/// The bits of the edge `k` in hertz, in single precision:
/// `BAND_MIN_HZ * (BAND_MAX_HZ / BAND_MIN_HZ)^(k / NUM_BANDS)`.
pub open spec fn edge_bits(k: int) -> u32 {
    if k <= 0 {
        0x41f0_0000
    } else if k == 1 {
        0x4283_87c7
    } else if k == 2 {
        0x4310_2b2e
    } else if k == 3 {
        0x439e_0576
    } else if k == 4 {
        0x442d_347f
    } else if k == 5 {
        0x44bd_d905
    } else if k == 6 {
        0x4550_16ec
    } else if k == 7 {
        0x45e4_1589
    } else {
        0x4679_fffc
    }
}

/// The width of one bin of the spectrum in hertz.
pub open spec fn bin_width(sample_rate: u32) -> Single {
    single::quotient(single::from_int(sample_rate as nat), single::from_int(FRAME_SIZE as nat))
}

/// The bin at which edge `k` falls: the first one not below it, but not the bin
/// of zero frequency and none past the last.
pub open spec fn edge_bin(sample_rate: u32, n_bins: nat, k: int) -> nat {
    let bin = single::ceiling(
        single::quotient(Single { bits: edge_bits(k) }, bin_width(sample_rate)),
        n_bins,
    );
    if bin < 1 {
        1
    } else {
        bin
    }
}

/// The last bin at which band `k` may start so that every band from it on has a bin.
/// Where there are too few bins for that, any will do.
pub open spec fn room(n_bins: nat, k: int) -> nat {
    if n_bins > NUM_BANDS {
        (n_bins - (NUM_BANDS - k)) as nat
    } else {
        n_bins
    }
}

/// Where band `k` starts: at its edge, but past the start of the band before it and
/// early enough to leave bins for the bands above.
pub open spec fn cut(sample_rate: u32, n_bins: nat, k: int) -> nat
    decreases k,
{
    let edge = edge_bin(sample_rate, n_bins, k);
    let first = if k <= 0 {
        edge
    } else {
        let past = cut(sample_rate, n_bins, k - 1) + 1;
        if edge > past {
            edge
        } else {
            past
        }
    };
    if first < room(n_bins, k) {
        first
    } else {
        room(n_bins, k)
    }
}

/// The bins of band `k`: from its start up to the start of the next one.
pub open spec fn band(sample_rate: u32, n_bins: nat, k: int) -> (nat, nat) {
    (cut(sample_rate, n_bins, k), cut(sample_rate, n_bins, k + 1))
}

proof fn lemma_edge_bin_in_range(sample_rate: u32, n_bins: nat, k: int)
    requires
        n_bins >= 1,
    ensures
        1 <= edge_bin(sample_rate, n_bins, k) <= n_bins,
{
    reveal(single::ceiling);
}

/// A greater dividend gives no smaller ceiling.
proof fn lemma_ceiling_of_quotient_is_monotone(a: Single, b: Single, y: Single, max: nat)
    requires
        a.bits <= b.bits < 0x7f80_0000,
        y.bits < 0x8000_0000,
    ensures
        single::ceiling(single::quotient(a, y), max) <= single::ceiling(
            single::quotient(b, y),
            max,
        ),
{
    reveal(single::quotient);
    reveal(single::ceiling);
    reveal(arith::quotient);
    let f = arith::single();
    let x = arith::quotient(f, a@, y@);
    let z = arith::quotient(f, b@, y@);
    lemma_pow2_pos(f.unit);
    lemma_pow2_pos((f.p - 2) as nat);
    lemma2_to64();
    if a@.mag < b@.mag {
        binary::lemma_worth_increases(f.p, a@.mag, b@.mag);
    }
    arith::lemma_zero_is_worth_nothing(f.p);
    if 0 < y@.mag {
        binary::lemma_worth_increases(f.p, 0, y@.mag);
    }
    let u = pow2(f.unit);
    let na = binary::worth(f.p, a@.mag) * u;
    let nb = binary::worth(f.p, b@.mag) * u;
    lemma_mul_inequality(
        binary::worth(f.p, a@.mag) as int,
        binary::worth(f.p, b@.mag) as int,
        u as int,
    );
    if 0 < y@.mag < f.inf {
        binary::law_rounding_is_monotone(f.p, f.inf, na, nb, binary::worth(f.p, y@.mag));
    }
    assert(single::of(x)@ == x && single::of(z)@ == z);
    if x.mag < z.mag {
        binary::lemma_worth_increases(f.p, x.mag, z.mag);
    }
    if x.mag <= z.mag <= f.inf {
        lemma_div_is_ordered(
            binary::worth(f.p, x.mag) + u - 1,
            binary::worth(f.p, z.mag) + u - 1,
            u as int,
        );
    }
}

/// The edges ascend.
pub proof fn law_edges_ascend(sample_rate: u32, n_bins: nat, k: int)
    requires
        n_bins >= 1,
        0 <= k < NUM_BANDS,
    ensures
        1 <= edge_bin(sample_rate, n_bins, k) <= edge_bin(sample_rate, n_bins, k + 1) <= n_bins,
{
    lemma_edge_bin_in_range(sample_rate, n_bins, k);
    lemma_edge_bin_in_range(sample_rate, n_bins, k + 1);
    lemma_bin_width_is_positive(sample_rate);
    lemma_ceiling_of_quotient_is_monotone(
        Single { bits: edge_bits(k) },
        Single { bits: edge_bits(k + 1) },
        bin_width(sample_rate),
        n_bins,
    );
}

proof fn lemma_bin_width_is_positive(sample_rate: u32)
    ensures
        bin_width(sample_rate).bits < 0x8000_0000,
{
    reveal(single::quotient);
    reveal(single::from_int);
    reveal(convert::from_nat);
    reveal(arith::quotient);
    let f = arith::single();
    let u = pow2(f.unit);
    lemma_pow2_pos(f.unit);
    lemma2_to64();
    binary::law_rounding_is_monotone(f.p, f.inf, sample_rate as nat * u, sample_rate as nat * u, 1);
    binary::law_rounding_is_monotone(f.p, f.inf, FRAME_SIZE as nat * u, FRAME_SIZE as nat * u, 1);
    let a = single::from_int(sample_rate as nat);
    let b = single::from_int(FRAME_SIZE as nat);
    assert(!a@.neg && !b@.neg);
    arith::lemma_zero_is_worth_nothing(f.p);
    if 0 < b@.mag {
        binary::lemma_worth_increases(f.p, 0, b@.mag);
        let w = binary::worth(f.p, b@.mag);
        let n = binary::worth(f.p, a@.mag) * u;
        binary::law_rounding_is_monotone(f.p, f.inf, n, n, w);
    }
}

/// Starts lie in the spectrum and do not descend; where there are bins enough they
/// ascend.
proof fn lemma_cuts(sample_rate: u32, n_bins: nat, k: int)
    requires
        n_bins >= 1,
        0 <= k <= NUM_BANDS,
    ensures
        1 <= cut(sample_rate, n_bins, k) <= room(n_bins, k) <= n_bins,
        0 < k ==> cut(sample_rate, n_bins, k - 1) <= cut(sample_rate, n_bins, k),
        0 < k && n_bins > NUM_BANDS ==> cut(sample_rate, n_bins, k - 1) < cut(
            sample_rate,
            n_bins,
            k,
        ),
    decreases k,
{
    lemma_edge_bin_in_range(sample_rate, n_bins, k);
    if k > 0 {
        lemma_cuts(sample_rate, n_bins, k - 1);
    }
}

/// Adjacent bands are contiguous and do not overlap. The lowest one leaves out the bin
/// of zero frequency, and none goes past the last bin. Where there are bins enough,
/// every band has one.
pub proof fn law_bands_are_contiguous(sample_rate: u32, n_bins: nat, k: int)
    requires
        n_bins >= 1,
        0 <= k < NUM_BANDS,
    ensures
        ({
            let (lo, hi) = band(sample_rate, n_bins, k);
            &&& 1 <= lo <= hi <= n_bins
            &&& n_bins > NUM_BANDS ==> lo < hi
            &&& hi == band(sample_rate, n_bins, k + 1).0
        }),
{
    lemma_cuts(sample_rate, n_bins, k);
    lemma_cuts(sample_rate, n_bins, k + 1);
}

/// Where the edges fall into bins of their own, below the last one, a band goes from
/// its lower edge up to its upper edge.
pub proof fn law_bands_follow_their_edges(sample_rate: u32, n_bins: nat, k: int)
    requires
        n_bins > NUM_BANDS,
        0 <= k <= NUM_BANDS,
        forall|j: int|
            0 <= j < NUM_BANDS ==> #[trigger] edge_bin(sample_rate, n_bins, j) < edge_bin(
                sample_rate,
                n_bins,
                j + 1,
            ),
    ensures
        cut(sample_rate, n_bins, k) == edge_bin(sample_rate, n_bins, k),
    decreases k,
{
    lemma_edges_leave_room(sample_rate, n_bins, k);
    if k > 0 {
        law_bands_follow_their_edges(sample_rate, n_bins, k - 1);
        assert(edge_bin(sample_rate, n_bins, k - 1) < edge_bin(sample_rate, n_bins, (k - 1) + 1));
    }
}

proof fn lemma_edges_leave_room(sample_rate: u32, n_bins: nat, k: int)
    requires
        n_bins > NUM_BANDS,
        0 <= k <= NUM_BANDS,
        forall|j: int|
            0 <= j < NUM_BANDS ==> #[trigger] edge_bin(sample_rate, n_bins, j) < edge_bin(
                sample_rate,
                n_bins,
                j + 1,
            ),
    ensures
        edge_bin(sample_rate, n_bins, k) <= room(n_bins, k),
    decreases NUM_BANDS - k,
{
    lemma_edge_bin_in_range(sample_rate, n_bins, k);
    if k < NUM_BANDS {
        lemma_edges_leave_room(sample_rate, n_bins, k + 1);
        assert(edge_bin(sample_rate, n_bins, k) < edge_bin(sample_rate, n_bins, k + 1));
    }
}

fn edge_hz(k: usize) -> (r: Single)
    ensures
        r == (Single { bits: edge_bits(k as int) }),
{
    let bits: u32 = match k {
        0 => 0x41f0_0000,
        1 => 0x4283_87c7,
        2 => 0x4310_2b2e,
        3 => 0x439e_0576,
        4 => 0x442d_347f,
        5 => 0x44bd_d905,
        6 => 0x4550_16ec,
        7 => 0x45e4_1589,
        _ => 0x4679_fffc,
    };
    Single { bits }
}

/// The bin of edge `k`.
fn find_edge(bin_hz: Single, n_bins: usize, k: usize, Ghost(sample_rate): Ghost<u32>) -> (r: usize)
    requires
        bin_hz == bin_width(sample_rate),
        n_bins >= 1,
    ensures
        r == edge_bin(sample_rate, n_bins as nat, k as int),
        1 <= r <= n_bins,
{
    proof {
        lemma_edge_bin_in_range(sample_rate, n_bins as nat, k as int);
    }
    let bin: u64 = edge_hz(k).over(bin_hz).ceil_u64(n_bins as u64);
    if bin < 1 {
        1
    } else {
        bin as usize
    }
}

/// The start of band `k`, given its edge and the first bin that is free.
fn place(edge: usize, past: usize, n_bins: usize, k: usize) -> (r: usize)
    requires
        k <= NUM_BANDS,
    ensures
        r == ({
            let first = if edge > past {
                edge as nat
            } else {
                past as nat
            };
            if first < room(n_bins as nat, k as int) {
                first
            } else {
                room(n_bins as nat, k as int)
            }
        }),
{
    let most: usize = if n_bins > NUM_BANDS {
        n_bins - (NUM_BANDS - k)
    } else {
        n_bins
    };
    let first: usize = if edge > past {
        edge
    } else {
        past
    };
    if first < most {
        first
    } else {
        most
    }
}

/// Lays out `NUM_BANDS` half-open ranges of bins, log-spaced from `BAND_MIN_HZ` to
/// `BAND_MAX_HZ`, over a spectrum of `n_bins` bins. Adjacent bands are contiguous and do
/// not overlap, and each has at least one bin where there are bins enough.
pub fn compute_band_bins(sample_rate: u32, n_bins: usize) -> (r: [(usize, usize); 8])
    requires
        n_bins >= 1,
    ensures
        forall|k: int|
            0 <= k < NUM_BANDS ==> {
                let b = #[trigger] r@[k];
                &&& (b.0 as nat, b.1 as nat) == band(sample_rate, n_bins as nat, k)
                &&& 1 <= b.0 <= b.1 <= n_bins
                &&& n_bins > NUM_BANDS ==> b.0 < b.1
            },
        forall|k: int| 0 <= k < NUM_BANDS - 1 ==> (#[trigger] r@[k]).1 == r@[k + 1].0,
{
    let bin_hz: Single = Single::from_u64(sample_rate as u64).over(
        Single::from_u64(FRAME_SIZE as u64),
    );
    let mut r: [(usize, usize); 8] = [(0, 0); 8];
    let mut lo: usize = place(
        find_edge(bin_hz, n_bins, 0, Ghost(sample_rate)),
        0,
        n_bins,
        0,
    );
    let mut k: usize = 0;
    proof {
        lemma_cuts(sample_rate, n_bins as nat, 0);
    }
    while k < NUM_BANDS
        invariant
            n_bins >= 1,
            k <= NUM_BANDS,
            bin_hz == bin_width(sample_rate),
            lo == cut(sample_rate, n_bins as nat, k as int),
            1 <= lo <= n_bins,
            k < NUM_BANDS ==> lo < usize::MAX,
            forall|j: int|
                0 <= j < k ==> {
                    let b = #[trigger] r@[j];
                    &&& (b.0 as nat, b.1 as nat) == band(sample_rate, n_bins as nat, j)
                    &&& 1 <= b.0 <= b.1 <= n_bins
                    &&& n_bins > NUM_BANDS ==> b.0 < b.1
                },
        decreases NUM_BANDS - k,
    {
        let edge: usize = find_edge(bin_hz, n_bins, k + 1, Ghost(sample_rate));
        let hi: usize = place(edge, lo + 1, n_bins, k + 1);
        proof {
            lemma_cuts(sample_rate, n_bins as nat, (k + 1) as int);
        }
        r[k] = (lo, hi);
        lo = hi;
        k = k + 1;
    }
    r
}

/// The edge `k` counted in units of `2^-19` hertz, which is exact.
pub open spec fn edge_units(k: int) -> nat {
    let bits = edge_bits(k) as nat;
    (bits % 0x80_0000 + 0x80_0000) * pow2((bits / 0x80_0000 - 131) as nat)
}

/// What the bits of an edge are worth.
pub proof fn lemma_edge_units(k: int)
    ensures
        binary::worth(24, edge_bits(k) as nat) == edge_units(k) * pow2(130),
{
    lemma2_to64();
    let bits = edge_bits(k) as nat;
    let q = bits % 0x80_0000 + 0x80_0000;
    let e = (bits / 0x80_0000 - 1) as nat;
    assert(131 <= bits / 0x80_0000);
    binary::lemma_worth_of_encode(24, q, e);
    assert(binary::encode(24, q, e) == bits);
    let x = (bits / 0x80_0000 - 131) as nat;
    lemma_pow2_adds(x, 130);
    lemma_mul_is_associative(q as int, pow2(x) as int, pow2(130) as int);
}

/// The edges in units of `2^-19` hertz.
pub proof fn lemma_edge_values()
    ensures
        edge_units(0) == 15728640,
        edge_units(1) == 34479900,
        edge_units(2) == 75585904,
        edge_units(3) == 165697376,
        edge_units(4) == 363237344,
        edge_units(5) == 796279104,
        edge_units(6) == 1745581568,
        edge_units(7) == 3826616576,
        edge_units(8) == 8388605952,
{
    lemma2_to64();
    assert(edge_units(0) == 15728640) by {
        let bits = edge_bits(0) as nat;
        assert(bits % 0x80_0000 + 0x80_0000 == 15728640);
        assert((bits / 0x80_0000 - 131) as nat == 0);
        assert(pow2(0) == 1);
    }
    assert(edge_units(1) == 34479900) by {
        let bits = edge_bits(1) as nat;
        assert(bits % 0x80_0000 + 0x80_0000 == 8619975);
        assert((bits / 0x80_0000 - 131) as nat == 2);
        assert(pow2(2) == 4);
    }
    assert(edge_units(2) == 75585904) by {
        let bits = edge_bits(2) as nat;
        assert(bits % 0x80_0000 + 0x80_0000 == 9448238);
        assert((bits / 0x80_0000 - 131) as nat == 3);
        assert(pow2(3) == 8);
    }
    assert(edge_units(3) == 165697376) by {
        let bits = edge_bits(3) as nat;
        assert(bits % 0x80_0000 + 0x80_0000 == 10356086);
        assert((bits / 0x80_0000 - 131) as nat == 4);
        assert(pow2(4) == 16);
    }
    assert(edge_units(4) == 363237344) by {
        let bits = edge_bits(4) as nat;
        assert(bits % 0x80_0000 + 0x80_0000 == 11351167);
        assert((bits / 0x80_0000 - 131) as nat == 5);
        assert(pow2(5) == 32);
    }
    assert(edge_units(5) == 796279104) by {
        let bits = edge_bits(5) as nat;
        assert(bits % 0x80_0000 + 0x80_0000 == 12441861);
        assert((bits / 0x80_0000 - 131) as nat == 6);
        assert(pow2(6) == 64);
    }
    assert(edge_units(6) == 1745581568) by {
        let bits = edge_bits(6) as nat;
        assert(bits % 0x80_0000 + 0x80_0000 == 13637356);
        assert((bits / 0x80_0000 - 131) as nat == 7);
        assert(pow2(7) == 128);
    }
    assert(edge_units(7) == 3826616576) by {
        let bits = edge_bits(7) as nat;
        assert(bits % 0x80_0000 + 0x80_0000 == 14947721);
        assert((bits / 0x80_0000 - 131) as nat == 8);
        assert(pow2(8) == 256);
    }
    assert(edge_units(8) == 8388605952) by {
        let bits = edge_bits(8) as nat;
        assert(bits % 0x80_0000 + 0x80_0000 == 16383996);
        assert((bits / 0x80_0000 - 131) as nat == 9);
        assert(pow2(9) == 512);
    }
}

/// The edges are spaced evenly on a logarithmic scale: each inner one is the geometric mean of its
/// neighbours, up to one part in a million. The first is the lowest frequency exactly, and the last
/// the highest one up to one part in a million.
pub proof fn law_edges_are_log_spaced(k: int)
    requires
        0 <= k <= NUM_BANDS,
    ensures
        binary::worth(24, edge_bits(k) as nat) == edge_units(k) * pow2(130),
        edge_units(0) == BAND_MIN_HZ * 0x8_0000,
        edge_units(NUM_BANDS as int) <= BAND_MAX_HZ * 0x8_0000,
        1_000_000 * (BAND_MAX_HZ * 0x8_0000 - edge_units(NUM_BANDS as int)) <= BAND_MAX_HZ
            * 0x8_0000,
        0 < k < NUM_BANDS ==> ({
            let square = edge_units(k) * edge_units(k);
            let product = edge_units(k - 1) * edge_units(k + 1);
            &&& 1_000_000 * (square - product) <= square
            &&& 1_000_000 * (product - square) <= square
        }),
{
    lemma_edge_units(k);
    lemma_edge_values();
    let (x, y, z) = (edge_units(k - 1), edge_units(k), edge_units(k + 1));
    if k == 1 {
        assert(y * y == 1188863504010000 && x * z == 1188863473090560) by (nonlinear_arith)
            requires
                x == 15728640,
                y == 34479900,
                z == 75585904,
        ;
    }
    if k == 2 {
        assert(y * y == 5713228883497216 && x * z == 5713228954742400) by (nonlinear_arith)
            requires
                x == 34479900,
                y == 75585904,
                z == 165697376,
        ;
    }
    if k == 3 {
        assert(y * y == 27455620413285376 && x * z == 27455623012798976) by (nonlinear_arith)
            requires
                x == 75585904,
                y == 165697376,
                z == 363237344,
        ;
    }
    if k == 4 {
        assert(y * y == 131941368076174336 && x * z == 131941358096431104) by (nonlinear_arith)
            requires
                x == 165697376,
                y == 363237344,
                z == 796279104,
        ;
    }
    if k == 5 {
        assert(y * y == 634060411467042816 && x * z == 634060412495675392) by (nonlinear_arith)
            requires
                x == 363237344,
                y == 796279104,
                z == 1745581568,
        ;
    }
    if k == 6 {
        assert(y * y == 3047055010541338624 && x * z == 3047054818488827904) by (nonlinear_arith)
            requires
                x == 796279104,
                y == 1745581568,
                z == 3826616576,
        ;
    }
    if k == 7 {
        assert(y * y == 14642994419717963776 && x * z == 14642995931026292736) by (nonlinear_arith)
            requires
                x == 1745581568,
                y == 3826616576,
                z == 8388605952,
        ;
    }
}

} // verus!
