//! Decimation of a waveform.

use dub::ieee::single::Single;
use dub::peaks::decimator::Decimator;

fn s(x: f32) -> Single {
    Single { bits: x.to_bits() }
}

fn f(x: Single) -> f32 {
    f32::from_bits(x.bits)
}

fn singles(x: &[f32]) -> Vec<Single> {
    x.iter().map(|v| s(*v)).collect()
}

#[derive(Clone, Copy, Debug, PartialEq)]
struct Chunk {
    min: f32,
    max: f32,
    rms: f32,
}

struct Feeder(Decimator);

impl Feeder {
    fn new(samples_per_chunk: usize) -> Self {
        Feeder(Decimator::new(samples_per_chunk))
    }

    fn feed(&mut self, samples: &[f32], mut emit: impl FnMut(Chunk)) {
        let mut out = Vec::new();
        self.0.feed(&singles(samples), &mut out);
        for c in out {
            emit(Chunk { min: f(c.min), max: f(c.max), rms: f(c.rms) });
        }
    }

    fn flush(&mut self, mut emit: impl FnMut(Chunk)) {
        let mut out = Vec::new();
        self.0.flush(&mut out);
        for c in out {
            emit(Chunk { min: f(c.min), max: f(c.max), rms: f(c.rms) });
        }
    }

    fn reset(&mut self) {
        self.0.reset();
    }

    fn pending(&self) -> usize {
        self.0.pending()
    }
}

fn run(spc: usize, samples: &[f32]) -> Vec<Chunk> {
    let mut d = Feeder::new(spc);
    let mut out = Vec::new();
    d.feed(samples, |c| out.push(c));
    out
}

#[test]
fn emits_one_chunk_per_full_block() {
    let chunks = run(4, &[0.1, 0.2, 0.3, 0.4]);
    assert_eq!(chunks.len(), 1);
}

#[test]
fn decimator_no_emit_until_full_chunk() {
    let chunks = run(4, &[0.1, 0.2, 0.3]);
    assert_eq!(chunks.len(), 0, "partial chunk must not emit");
}

#[test]
fn three_chunks_for_twelve_samples_at_spc4() {
    let chunks = run(
        4,
        &[0.1, 0.2, 0.3, 0.4, 0.5, 0.6, 0.7, 0.8, 0.9, 1.0, 1.1, 1.2],
    );
    assert_eq!(chunks.len(), 3);
}

#[test]
fn partial_tail_carries_over_to_next_feed() {
    let mut d = Feeder::new(4);
    let mut out = Vec::new();
    d.feed(&[0.1, 0.2, 0.3], |c| out.push(c));
    assert!(out.is_empty());
    d.feed(&[0.4, 0.5, 0.6, 0.7, 0.8], |c| out.push(c));
    assert_eq!(out.len(), 2);
}

#[test]
fn min_max_match_input_extremes() {
    let chunks = run(4, &[-0.7, 0.1, 0.9, -0.3]);
    assert_eq!(chunks.len(), 1);
    assert!((chunks[0].min - -0.7).abs() < 1e-6);
    assert!((chunks[0].max - 0.9).abs() < 1e-6);
}

#[test]
fn rms_of_constant_signal_equals_signal() {
    let chunks = run(8, &[0.5; 8]);
    assert!(
        (chunks[0].rms - 0.5).abs() < 1e-6,
        "rms of constant 0.5 should be 0.5, got {}",
        chunks[0].rms
    );
}

#[test]
fn rms_of_alternating_unit_signal_equals_one() {
    let chunks = run(4, &[1.0, -1.0, 1.0, -1.0]);
    assert!((chunks[0].rms - 1.0).abs() < 1e-6);
    assert!((chunks[0].min - -1.0).abs() < 1e-6);
    assert!((chunks[0].max - 1.0).abs() < 1e-6);
}

#[test]
fn decimator_silence_chunk_is_zero() {
    let chunks = run(4, &[0.0, 0.0, 0.0, 0.0]);
    assert_eq!(chunks[0].min, 0.0);
    assert_eq!(chunks[0].max, 0.0);
    assert_eq!(chunks[0].rms, 0.0);
}

#[test]
fn reset_drops_partial_without_emit() {
    let mut d = Feeder::new(8);
    let mut out = Vec::new();
    d.feed(&[0.5, 0.5, 0.5], |c| out.push(c));
    assert_eq!(d.pending(), 3);
    d.reset();
    assert_eq!(d.pending(), 0);
    assert!(out.is_empty());
    d.feed(&[0.1; 8], |c| out.push(c));
    assert_eq!(out.len(), 1);
    assert!((out[0].rms - 0.1).abs() < 1e-6);
}

#[test]
fn flush_emits_partial_with_correct_rms() {
    let mut d = Feeder::new(8);
    let mut out = Vec::new();
    d.feed(&[1.0, 1.0, 1.0], |c| out.push(c));
    d.flush(|c| out.push(c));
    assert_eq!(out.len(), 1);
    assert!(
        (out[0].rms - 1.0).abs() < 1e-6,
        "partial-chunk rms should be over the 3 fed samples, got {}",
        out[0].rms
    );
    assert_eq!(d.pending(), 0, "flush must reset state");
}

#[test]
fn flush_with_no_partial_emits_nothing() {
    let mut d = Feeder::new(4);
    let mut out = Vec::new();
    d.feed(&[0.1, 0.2, 0.3, 0.4], |c| out.push(c));
    assert_eq!(out.len(), 1);
    d.flush(|c| out.push(c));
    assert_eq!(out.len(), 1, "flush with empty partial must not emit");
}

#[test]
fn ramp_of_known_length_produces_expected_chunk_count() {
    let mut samples = vec![0.0_f32; 1000];
    for (i, s) in samples.iter_mut().enumerate() {
        *s = (i as f32) / 1000.0;
    }
    let mut d = Feeder::new(64);
    let mut out = Vec::new();
    d.feed(&samples, |c| out.push(c));
    assert_eq!(out.len(), 15);
    assert_eq!(d.pending(), 40);
}

#[test]
fn ramp_chunks_are_strictly_increasing_in_max() {
    let n_samples = 8 * 64;
    let mut samples = vec![0.0_f32; n_samples];
    for (i, s) in samples.iter_mut().enumerate() {
        *s = (i as f32) / n_samples as f32;
    }
    let chunks = run(64, &samples);
    assert_eq!(chunks.len(), 8);
    for w in chunks.windows(2) {
        assert!(
            w[1].max > w[0].max,
            "ramp chunks should have monotonically increasing max"
        );
    }
}

#[test]
fn decimator_block_size_does_not_change_output() {
    let mut samples = vec![0.0_f32; 256];
    for (i, s) in samples.iter_mut().enumerate() {
        let f = (i as f32).mul_add(0.01, -1.28);
        *s = f.sin();
    }

    let mut by_one = Vec::new();
    let mut d1 = Feeder::new(64);
    for s in &samples {
        d1.feed(std::slice::from_ref(s), |c| by_one.push(c));
    }

    let mut by_seven = Vec::new();
    let mut d7 = Feeder::new(64);
    for chunk in samples.chunks(7) {
        d7.feed(chunk, |c| by_seven.push(c));
    }

    let mut by_all = Vec::new();
    let mut da = Feeder::new(64);
    da.feed(&samples, |c| by_all.push(c));

    assert_eq!(by_one, by_seven, "block size 1 vs 7 differs");
    assert_eq!(by_one, by_all, "block size 1 vs all differs");
}
