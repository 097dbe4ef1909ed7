//! The layout of the frequency bands.

use dub::spectral::bands::{compute_band_bins, FRAME_SIZE, NUM_BANDS};

fn by_formula(sample_rate: u32, n_bins: usize) -> [(usize, usize); NUM_BANDS] {
    let bin_hz = sample_rate as f32 / FRAME_SIZE as f32;
    let ratio = (16_000.0f32 / 30.0f32).powf(1.0 / NUM_BANDS as f32);
    let mut edges = [0usize; NUM_BANDS + 1];
    for (i, slot) in edges.iter_mut().enumerate() {
        let hz = 30.0f32 * ratio.powi(i as i32);
        *slot = ((hz / bin_hz).ceil() as usize).clamp(1, n_bins);
    }
    let room = |k: usize| if n_bins > NUM_BANDS { n_bins - (NUM_BANDS - k) } else { n_bins };
    let mut bands = [(0usize, 0usize); NUM_BANDS];
    let mut lo = edges[0].min(room(0));
    for k in 0..NUM_BANDS {
        let hi = edges[k + 1].max(lo + 1).min(room(k + 1));
        bands[k] = (lo, hi);
        lo = hi;
    }
    bands
}

#[test]
fn bins_follow_the_formula() {
    let n_bins = FRAME_SIZE / 2 + 1;
    for sample_rate in [
        0, 1, 7, 100, 8_000, 11_025, 16_000, 22_050, 32_000, 44_100, 47_999, 48_000, 48_001, 88_200,
        96_000, 176_400, 192_000, 384_000, 1_000_000, 16_777_217, u32::MAX,
    ] {
        assert_eq!(compute_band_bins(sample_rate, n_bins), by_formula(sample_rate, n_bins));
        assert_eq!(compute_band_bins(sample_rate, 1), by_formula(sample_rate, 1));
    }
    for sample_rate in (8_000..200_000).step_by(37) {
        assert_eq!(compute_band_bins(sample_rate, n_bins), by_formula(sample_rate, n_bins));
    }
}

#[test]
fn bins_at_48k_exactly() {
    assert_eq!(
        compute_band_bins(48_000, 513),
        [(1, 2), (2, 4), (4, 7), (7, 15), (15, 33), (33, 72), (72, 156), (156, 342)]
    );
}

#[test]
fn band_bins_are_contiguous_and_non_overlapping_at_48k() {
    let n_bins = FRAME_SIZE / 2 + 1;
    let bands = compute_band_bins(48_000, n_bins);
    assert!(bands[0].0 >= 1, "lowest band must skip DC: {bands:?}");
    assert!(
        bands[NUM_BANDS - 1].1 <= n_bins,
        "highest band must stay within Nyquist: {bands:?}"
    );
    for (k, &(lo, hi)) in bands.iter().enumerate() {
        assert!(hi > lo, "band {k} has zero width: {bands:?}");
    }
    for k in 0..NUM_BANDS - 1 {
        let gap = bands[k + 1].0 as i64 - bands[k].1 as i64;
        assert!(gap.abs() <= 1, "bands {k} and {} not contiguous: {bands:?}", k + 1);
    }
}

#[test]
fn band_bins_layout_is_sane_at_44_1k() {
    let n_bins = FRAME_SIZE / 2 + 1;
    let bands = compute_band_bins(44_100, n_bins);
    for (k, &(lo, hi)) in bands.iter().enumerate() {
        assert!(hi > lo, "band {k} empty at 44.1k: {bands:?}");
        assert!(lo >= 1, "band {k} includes DC at 44.1k: {bands:?}");
        assert!(hi <= n_bins, "band {k} past Nyquist at 44.1k: {bands:?}");
    }
}

#[test]
fn band_bins_layout_is_sane_at_96k() {
    let n_bins = FRAME_SIZE / 2 + 1;
    let bands = compute_band_bins(96_000, n_bins);
    for (k, &(lo, hi)) in bands.iter().enumerate() {
        assert!(hi > lo, "band {k} empty at 96k: {bands:?}");
        assert!(lo >= 1, "band {k} includes DC at 96k: {bands:?}");
        assert!(hi <= n_bins, "band {k} past Nyquist at 96k: {bands:?}");
    }
}

#[test]
fn edges_in_one_bin_push_the_next_band_up() {
    let bands = compute_band_bins(96_000, FRAME_SIZE / 2 + 1);
    assert_eq!(bands[0], (1, 2));
    assert_eq!(bands[1], (2, 3));
    assert_eq!(bands[2].0, 3);
}

#[test]
fn bands_above_the_spectrum_keep_a_bin() {
    let bands = compute_band_bins(8_000, FRAME_SIZE / 2 + 1);
    assert_eq!(bands[NUM_BANDS - 2], (427, 512));
    assert_eq!(bands[NUM_BANDS - 1], (512, 513));
    assert_eq!(
        compute_band_bins(0, 9),
        [(1, 2), (2, 3), (3, 4), (4, 5), (5, 6), (6, 7), (7, 8), (8, 9)]
    );
}

#[test]
fn every_band_has_bins_of_its_own() {
    for sample_rate in (0..400_000).step_by(997) {
        for n_bins in [9, 10, 64, 513] {
            let bands = compute_band_bins(sample_rate, n_bins);
            assert!(bands[0].0 >= 1 && bands[NUM_BANDS - 1].1 <= n_bins);
            for k in 0..NUM_BANDS {
                assert!(bands[k].0 < bands[k].1, "{sample_rate} {n_bins}: {bands:?}");
                assert!(k == 0 || bands[k - 1].1 == bands[k].0);
            }
        }
    }
}

#[test]
fn too_few_bins_leave_bands_empty() {
    let bands = compute_band_bins(0, 5);
    assert_eq!(bands, [(5, 5); NUM_BANDS]);
}
