//! Where the edges of the bands fall among the bins.

use vstd::arithmetic::div_mod::*;
use vstd::arithmetic::power2::*;
use vstd::prelude::*;

use crate::ieee::arith;
use crate::ieee::binary;
use crate::ieee::exact;
use crate::ieee::exact::near;
use crate::ieee::exact::single_value;
use crate::ieee::means;
use crate::ieee::single;
use crate::ieee::single::Single;
use crate::spectral::bands;
use crate::spectral::frames;

verus! {

/// The width of a bin: times the length of a frame it is the sample rate.
proof fn lemma_width(n: nat)
    requires
        0 < n < 0x100_0000,
    ensures
        ({
            let w = single::quotient(single::from_int(n), single::from_int(1024));
            &&& single::finite(w)
            &&& !w@.neg
            &&& w@.mag > 0
            &&& near(single_value(w) * 1024, n * pow2(149) as int, pow2(24))
            &&& pow2(138) <= single_value(w) <= pow2(164)
        }),
{
    let a = single::from_int(n);
    let d = single::from_int(1024);
    let u = pow2(149) as int;
    lemma2_to64();
    lemma2_to64_rest();
    lemma_pow2_pos(149);
    exact::lemma_top();
    arith::lemma_zero_is_worth_nothing(24);
    exact::lemma_single_count(n);
    exact::lemma_single_count(1024);
    let nu = n * u;
    let du = 1024 * u;
    lemma_pow2_adds(10, 149);
    lemma_pow2_adds(23, 159);
    lemma_pow2_adds(149, 149);
    lemma_pow2_strictly_increases(182, 298);
    lemma_pow2_adds(24, 149);
    lemma_pow2_adds(173, 149);
    lemma_pow2_adds(277, 159);
    lemma_pow2_strictly_increases(322, 436);
    assert(u <= nu <= pow2(173)) by (nonlinear_arith)
        requires
            nu == n * u,
            1 <= n < 0x100_0000,
            pow2(173) == 0x100_0000 * u,
            u > 0,
    ;
    assert(pow2(23) * du <= nu * u && nu * u < pow2(277) * du) by (nonlinear_arith)
        requires
            u <= nu <= pow2(173),
            du == pow2(159),
            pow2(182) == pow2(23) * pow2(159),
            pow2(298) == u * u,
            pow2(182) < pow2(298),
            pow2(322) == pow2(173) * u,
            pow2(436) == pow2(277) * pow2(159),
            pow2(322) < pow2(436),
            u > 0,
    ;
    means::lemma_single_quotient_is_close(a, d);
    let w = single::quotient(a, d);
    let x = single_value(w);
    assert(x * du == (x * 1024) * u) by (nonlinear_arith)
        requires
            du == 1024 * u,
    ;
    exact::lemma_near_scales(x * 1024, nu, u, pow2(24));
    exact::lemma_near_bounds(x * 1024, nu, pow2(24));
    lemma_pow2_adds(138, 10);
    lemma_pow2_unfold(149);
    lemma_pow2_adds(164, 10);
    lemma_pow2_unfold(174);
    lemma_pow2_pos(138);
    lemma_pow2_strictly_increases(164, 277);
}

/// The place of an edge among the bins, before it is rounded up.
proof fn lemma_place(n: nat, e: Single, units: nat)
    requires
        0 < n < 0x100_0000,
        single::finite(e),
        single_value(e) == units * pow2(130),
        0x80_0000 <= units < 0x4_0000_0000,
    ensures
        ({
            let w = single::quotient(single::from_int(n), single::from_int(1024));
            let q = single::quotient(e, w);
            &&& single::finite(q)
            &&& !q@.neg
            &&& near(single_value(q) * n, units * pow2(140) as int, pow2(21))
        }),
{
    let w = single::quotient(single::from_int(n), single::from_int(1024));
    let u = pow2(149) as int;
    let x = single_value(w);
    let y = single_value(e);
    let z = pow2(130) as int;
    lemma2_to64();
    lemma2_to64_rest();
    lemma_pow2_pos(149);
    lemma_pow2_pos(130);
    exact::lemma_top();
    lemma_width(n);
    lemma_pow2_adds(23, 130);
    lemma_pow2_adds(34, 130);
    assert(pow2(153) <= y <= pow2(164)) by (nonlinear_arith)
        requires
            y == units * z,
            0x80_0000 <= units < 0x4_0000_0000,
            pow2(153) == 0x80_0000 * z,
            pow2(164) == 0x4_0000_0000 * z,
            z > 0,
    ;
    lemma_pow2_adds(23, 164);
    lemma_pow2_adds(153, 149);
    lemma_pow2_strictly_increases(187, 302);
    lemma_pow2_adds(164, 149);
    lemma_pow2_adds(277, 138);
    lemma_pow2_strictly_increases(313, 415);
    lemma_pow2_pos(138);
    assert(pow2(23) * x <= y * u && y * u < pow2(277) * x) by (nonlinear_arith)
        requires
            pow2(138) <= x <= pow2(164),
            pow2(153) <= y <= pow2(164),
            pow2(187) == pow2(23) * pow2(164),
            pow2(302) == pow2(153) * u,
            pow2(187) < pow2(302),
            pow2(313) == pow2(164) * u,
            pow2(415) == pow2(277) * pow2(138),
            pow2(313) < pow2(415),
            u > 0,
            pow2(277) > 0,
    ;
    means::lemma_single_quotient_is_close(e, w);
    let q = single::quotient(e, w);
    let p = single_value(q);
    let yu = y * u;
    assert(yu > 0) by (nonlinear_arith)
        requires
            yu == y * u,
            y > 0,
            u > 0,
    ;
    exact::lemma_near_bounds(p * x, yu, pow2(24));
    // Times the sample rate.
    let nu = n * u;
    exact::lemma_near_coarser(x * 1024, nu, pow2(24), pow2(23) + 1);
    exact::lemma_near_turns(x * 1024, nu, pow2(23));
    exact::lemma_near_times(nu, x * 1024, p, pow2(23));
    exact::lemma_near_scales(p * x, yu, 1024, pow2(24));
    assert((x * 1024) * p == (p * x) * 1024) by (nonlinear_arith);
    exact::lemma_near_chains(nu * p, (p * x) * 1024, yu * 1024, pow2(23), pow2(24), pow2(21));
    assert(nu * p == (p * n) * u) by (nonlinear_arith)
        requires
            nu == n * u,
    ;
    lemma_pow2_adds(130, 10);
    assert(yu * 1024 == (units * pow2(140)) * u) by (nonlinear_arith)
        requires
            yu == y * u,
            y == units * z,
            pow2(140) == z * 1024,
    ;
    exact::lemma_near_scales(p * n, (units * pow2(140)) as int, u, pow2(21));
    // It is finite.
    assert(single::finite(q)) by {
        if q@.mag >= binary::SINGLE_INF {
            assert(p == pow2(277));
            assert(2 * (p * x) >= 2 * (pow2(277) * pow2(138))) by (nonlinear_arith)
                requires
                    p == pow2(277),
                    x >= pow2(138),
            ;
            lemma_pow2_unfold(314);
            lemma_pow2_unfold(315);
            lemma_pow2_strictly_increases(315, 415);
            assert(yu <= pow2(313)) by (nonlinear_arith)
                requires
                    yu == y * u,
                    y <= pow2(164),
                    pow2(313) == pow2(164) * u,
                    u > 0,
            ;
        }
    }
}

/// An edge falls into the first bin whose frequency is not below it, up to one part in two million:
/// the frequency of bin `b` is `b` times the sample rate over the length of a frame. No edge falls
/// into the bin of zero frequency, and none past the last bin.
pub proof fn law_edges_fall_into_their_bins(sample_rate: u32, n_bins: nat, k: int)
    requires
        0 < sample_rate < 0x100_0000,
        n_bins >= 1,
    ensures
        ({
            let b = bands::edge_bin(sample_rate, n_bins, k);
            let edge = bands::edge_units(k);
            let width = sample_rate * 0x200;
            &&& 1 <= b <= n_bins
            &&& b < n_bins ==> (b * width) * 0x20_0000 >= edge * 0x1f_ffff
            &&& b > 1 ==> ((b - 1) * width) * 0x20_0000 <= edge * 0x20_0001
        }),
{
    let n = sample_rate as nat;
    let e = Single { bits: bands::edge_bits(k) };
    let units = bands::edge_units(k);
    let q = single::quotient(e, bands::bin_width(sample_rate));
    let u = pow2(149);
    lemma2_to64();
    bands::lemma_edge_units(k);
    bands::lemma_edge_values();
    assert(0x80_0000 <= units < 0x4_0000_0000) by {
        if k <= 0 {
            assert(bands::edge_bits(k) == bands::edge_bits(0));
        } else if k >= 8 {
            assert(bands::edge_bits(k) == bands::edge_bits(8));
        }
    }
    lemma_place(n, e, units);
    reveal(single::ceiling);
    let p = single_value(q) as nat;
    lemma_pow2_pos(149);
    let b = ((p + u - 1) / (u as int)) as nat;
    lemma_fundamental_div_mod(p + u - 1, u as int);
    lemma_mod_bound(p + u - 1, u as int);
    assert(b * u >= p && b * u <= p + u - 1) by (nonlinear_arith)
        requires
            p + u - 1 == u * ((p + u - 1) / (u as int)) + (p + u - 1) % (u as int),
            0 <= (p + u - 1) % (u as int) < u,
            b == (p + u - 1) / (u as int),
    ;
    lemma_pow2_adds(9, 140);
    lemma_pow2_pos(140);
    assert((b - 1) * u == b * u - u) by (nonlinear_arith);
    lemma_bins(b as int, p as int, n as int, units as int, pow2(140) as int, u as int);
    assert(b >= 1) by {
        if b == 0 {
            assert(0 * (n * 0x200) == 0) by (nonlinear_arith);
        }
    }
    let width = (n * 0x200) as int;
    let r = bands::edge_bin(sample_rate, n_bins, k) as int;
    assert(r == if b > n_bins {
        n_bins as int
    } else {
        b as int
    });
    assert((r - 1) * width <= (b - 1) * width) by (nonlinear_arith)
        requires
            r <= b,
            width > 0,
    ;
}

/// Where the edges fall into bins of their own, band `k` of a layout goes from the bin of edge `k` up to
/// the bin of edge `k + 1`, so that its first bin is the first whose frequency is not below its edge.
pub proof fn law_layouts_follow_the_edges(
    sample_rate: u32,
    layout: Seq<(usize, usize)>,
    k: int,
)
    requires
        frames::is_layout(sample_rate, layout),
        0 < sample_rate < 0x100_0000,
        0 <= k < 8,
        forall|j: int|
            0 <= j < 8 ==> #[trigger] bands::edge_bin(sample_rate, 513, j) < bands::edge_bin(
                sample_rate,
                513,
                j + 1,
            ),
    ensures
        layout.len() == 8,
        ({
            let (lo, hi) = layout[k];
            let width = sample_rate * 0x200;
            &&& (lo * width) * 0x20_0000 >= bands::edge_units(k) * 0x1f_ffff
            &&& lo > 1 ==> ((lo - 1) * width) * 0x20_0000 <= bands::edge_units(k) * 0x20_0001
            &&& hi < 513 ==> (hi * width) * 0x20_0000 >= bands::edge_units(k + 1) * 0x1f_ffff
            &&& ((hi - 1) * width) * 0x20_0000 <= bands::edge_units(k + 1) * 0x20_0001
        }),
{
    bands::law_bands_follow_their_edges(sample_rate, 513, k);
    bands::law_bands_follow_their_edges(sample_rate, 513, k + 1);
    law_edges_fall_into_their_bins(sample_rate, 513, k);
    law_edges_fall_into_their_bins(sample_rate, 513, k + 1);
    assert(bands::edge_bin(sample_rate, 513, k) < bands::edge_bin(sample_rate, 513, k + 1));
    assert((layout[k].0 as nat, layout[k].1 as nat) == bands::band(
        sample_rate,
        frames::HALF_SPECTRUM as nat,
        k,
    ));
}

/// The integers behind a bin.
proof fn lemma_bins(b: int, p: int, n: int, units: int, h: int, u: int)
    requires
        u == 0x200 * h,
        h > 0,
        n > 0,
        units > 0,
        b >= 0,
        b * u >= p,
        (b - 1) * u < p,
        near(p * n, units * h, pow2(21)),
    ensures
        (b * (n * 0x200)) * 0x20_0000 >= units * 0x1f_ffff,
        ((b - 1) * (n * 0x200)) * 0x20_0000 <= units * 0x20_0001,
{
    lemma2_to64();
    let x = p * n;
    let y = units * h;
    assert(y > 0) by (nonlinear_arith)
        requires
            y == units * h,
            units > 0,
            h > 0,
    ;
    let c = (b * (n * 0x200)) * h;
    assert(c >= x) by (nonlinear_arith)
        requires
            c == (b * (n * 0x200)) * h,
            x == p * n,
            b * u >= p,
            u == 0x200 * h,
            n > 0,
    ;
    let d = ((b - 1) * (n * 0x200)) * h;
    assert(d <= x) by (nonlinear_arith)
        requires
            d == ((b - 1) * (n * 0x200)) * h,
            x == p * n,
            (b - 1) * u < p,
            u == 0x200 * h,
            n > 0,
    ;
    let bn = b * (n * 0x200);
    let cn = (b - 1) * (n * 0x200);
    assert(bn * 0x20_0000 >= units * 0x1f_ffff) by (nonlinear_arith)
        requires
            c == bn * h,
            c * 0x20_0000 >= y * 0x1f_ffff,
            y == units * h,
            h > 0,
    ;
    assert(cn * 0x20_0000 <= units * 0x20_0001) by (nonlinear_arith)
        requires
            d == cn * h,
            d * 0x20_0000 <= y * 0x20_0001,
            y == units * h,
            h > 0,
    ;
}

} // verus!
