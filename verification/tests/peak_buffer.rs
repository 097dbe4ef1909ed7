//! Buffers of captured chunks.

use dub::ieee::single::Single;
use dub::peaks::buffer::PeakBuffer;
use dub::peaks::chunk::BandPeakChunk;
use dub::peaks::chunk::PeakChunk;

fn s(x: f32) -> Single {
    Single { bits: x.to_bits() }
}

fn f(x: Single) -> f32 {
    f32::from_bits(x.bits)
}

fn pc(min: f32, max: f32, rms: f32) -> PeakChunk {
    PeakChunk { min: s(min), max: s(max), rms: s(rms) }
}

fn bpc(seed: f32) -> BandPeakChunk {
    BandPeakChunk {
        rms_per_band: std::array::from_fn(|k| {
            let off = k as f32 * 0.01;
            s(seed + off)
        }),
    }
}

#[test]
fn fresh_buffer_is_empty() {
    let b = PeakBuffer::with_capacity(8);
    assert_eq!(b.len(), 0);
    assert!(b.is_empty());
}

#[test]
fn push_increments_len() {
    let mut b = PeakBuffer::with_capacity(8);
    b.push_chunks(&[pc(-0.1, 0.2, 0.15), pc(-0.3, 0.4, 0.25)]);
    assert_eq!(b.len(), 2);
}

#[test]
fn pushing_empty_slice_is_noop() {
    let mut b = PeakBuffer::with_capacity(8);
    b.push_chunks(&[]);
    assert_eq!(b.len(), 0);
}

#[test]
fn snapshot_captures_all_pushed_chunks_in_order() {
    let mut b = PeakBuffer::with_capacity(8);
    b.push_chunks(&[pc(0.0, 0.1, 0.05), pc(0.0, 0.2, 0.1)]);
    b.push_chunks(&[pc(0.0, 0.3, 0.15)]);
    let snap = b.snapshot();
    assert_eq!(snap.len(), 3);
    assert!((f(snap.chunks[0].max) - 0.1).abs() < 1e-6);
    assert!((f(snap.chunks[1].max) - 0.2).abs() < 1e-6);
    assert!((f(snap.chunks[2].max) - 0.3).abs() < 1e-6);
}

#[test]
fn extend_chunks_returns_total_len() {
    let mut b = PeakBuffer::with_capacity(8);
    b.push_chunks(&[pc(0.0, 0.1, 0.05); 3]);
    let mut dst = Vec::new();
    let new_len = b.extend_chunks(0, &mut dst);
    assert_eq!(new_len, 3);
    assert_eq!(dst.len(), 3);
}

#[test]
fn extend_chunks_appends_only_new() {
    let mut b = PeakBuffer::with_capacity(8);
    b.push_chunks(&[pc(0.0, 0.1, 0.05); 3]);
    let mut dst = Vec::new();
    let n1 = b.extend_chunks(0, &mut dst);
    assert_eq!(n1, 3);
    b.push_chunks(&[pc(0.0, 0.2, 0.1); 2]);
    let n2 = b.extend_chunks(n1, &mut dst);
    assert_eq!(n2, 5);
    assert_eq!(dst.len(), 5, "renderer mirror should have all 5 now");
    for c in &dst[..3] {
        assert!((f(c.max) - 0.1).abs() < 1e-6);
    }
    for c in &dst[3..] {
        assert!((f(c.max) - 0.2).abs() < 1e-6);
    }
}

#[test]
fn extend_chunks_with_caught_up_start_idx_is_noop() {
    let mut b = PeakBuffer::with_capacity(8);
    b.push_chunks(&[pc(0.0, 0.1, 0.05); 5]);
    let mut dst = vec![pc(9.0, 9.0, 9.0)];
    let new_len = b.extend_chunks(5, &mut dst);
    assert_eq!(new_len, 5);
    assert_eq!(dst.len(), 1, "no new chunks → dst untouched");
    assert!((f(dst[0].max) - 9.0).abs() < 1e-6, "sentinel preserved");
}

#[test]
fn extend_chunks_with_start_past_len_is_noop() {
    let mut b = PeakBuffer::with_capacity(8);
    b.push_chunks(&[pc(0.0, 0.1, 0.05); 5]);
    let mut dst = Vec::new();
    let new_len = b.extend_chunks(10, &mut dst);
    assert_eq!(new_len, 5);
    assert!(dst.is_empty());
}

#[test]
fn no_band_storage_unless_constructed_with_bands() {
    let mut b = PeakBuffer::with_capacity(8);
    assert!(!b.has_bands());
    assert_eq!(b.band_len(), 0);
    b.push_band_chunks(&[bpc(0.1)]);
    assert_eq!(b.band_len(), 0, "push must no-op when bands off");
    let mut dst = Vec::new();
    let new_len = b.extend_band_chunks(0, &mut dst);
    assert_eq!(new_len, 0);
    assert!(dst.is_empty());
    assert!(b.band_snapshot().is_empty());
}

#[test]
fn with_capacity_with_bands_enables_band_storage() {
    let mut b = PeakBuffer::with_capacity_with_bands(8, 4);
    assert!(b.has_bands());
    assert_eq!(b.band_len(), 0);
    b.push_band_chunks(&[bpc(0.1), bpc(0.2)]);
    assert_eq!(b.band_len(), 2);
    let snap = b.band_snapshot();
    assert_eq!(snap.len(), 2);
    assert!((f(snap.chunks[0].rms_per_band[0]) - 0.1).abs() < 1e-6);
    assert!((f(snap.chunks[1].rms_per_band[0]) - 0.2).abs() < 1e-6);
}

#[test]
fn band_extend_chunks_appends_only_new() {
    let mut b = PeakBuffer::with_capacity_with_bands(8, 4);
    b.push_band_chunks(&[bpc(0.1), bpc(0.2), bpc(0.3)]);
    let mut dst = Vec::new();
    let n1 = b.extend_band_chunks(0, &mut dst);
    assert_eq!(n1, 3);
    b.push_band_chunks(&[bpc(0.4)]);
    let n2 = b.extend_band_chunks(n1, &mut dst);
    assert_eq!(n2, 4);
    assert_eq!(dst.len(), 4);
    assert!((f(dst[3].rms_per_band[0]) - 0.4).abs() < 1e-6);
}

#[test]
fn band_and_broadband_storage_are_independent() {
    let mut b = PeakBuffer::with_capacity_with_bands(8, 4);
    b.push_chunks(&[pc(0.0, 0.5, 0.3); 10]);
    assert_eq!(b.len(), 10);
    assert_eq!(b.band_len(), 0);
    b.push_band_chunks(&[bpc(0.7)]);
    assert_eq!(b.len(), 10);
    assert_eq!(b.band_len(), 1);
}
