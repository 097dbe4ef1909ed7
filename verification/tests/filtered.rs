//! Decimation behind the low-pass filter.

use dub::ieee::single::Single;
use dub::peaks::chunk::FilteredPeakChunk;
use dub::peaks::chunk::DEFAULT_SAMPLES_PER_CHUNK;
use dub::peaks::filtered::FilteredDecimator;

fn s(x: f32) -> Single {
    Single { bits: x.to_bits() }
}

fn f(x: Single) -> f32 {
    f32::from_bits(x.bits)
}

fn singles(x: &[f32]) -> Vec<Single> {
    x.iter().map(|v| s(*v)).collect()
}

fn sin(x: Single) -> Single {
    s(f(x).sin())
}

fn cos(x: Single) -> Single {
    s(f(x).cos())
}

#[derive(Clone, Copy, Debug, PartialEq)]
struct Chunk {
    lf_min: f32,
    lf_max: f32,
    mf_min: f32,
    mf_max: f32,
    hf_min: f32,
    hf_max: f32,
}

impl Chunk {
    const ZERO: Chunk = Chunk {
        lf_min: 0.0,
        lf_max: 0.0,
        mf_min: 0.0,
        mf_max: 0.0,
        hf_min: 0.0,
        hf_max: 0.0,
    };

    fn of(c: FilteredPeakChunk) -> Self {
        Chunk {
            lf_min: f(c.lf_min),
            lf_max: f(c.lf_max),
            mf_min: f(c.mf_min),
            mf_max: f(c.mf_max),
            hf_min: f(c.hf_min),
            hf_max: f(c.hf_max),
        }
    }
}

struct Feeder(FilteredDecimator);

impl Feeder {
    fn new(sample_rate: u32, samples_per_chunk: usize) -> Self {
        Feeder(FilteredDecimator::new(sample_rate, samples_per_chunk, &sin, &cos))
    }

    fn feed(&mut self, samples: &[f32], mut emit: impl FnMut(Chunk)) {
        let mut out = Vec::new();
        self.0.feed(&singles(samples), &mut out);
        for c in out {
            emit(Chunk::of(c));
        }
    }

    fn flush(&mut self, mut emit: impl FnMut(Chunk)) {
        let mut out = Vec::new();
        self.0.flush(&mut out);
        for c in out {
            emit(Chunk::of(c));
        }
    }

    fn reset(&mut self) {
        self.0.reset();
    }

    fn pending(&self) -> usize {
        self.0.pending()
    }
}

fn run(sr: u32, spc: usize, samples: &[f32]) -> Vec<Chunk> {
    let mut d = Feeder::new(sr, spc);
    let mut out = Vec::new();
    d.feed(samples, |c| out.push(c));
    out
}

#[test]
fn filtered_no_emit_until_full_chunk() {
    let out = run(48_000, 64, &[0.0f32; 63]);
    assert!(out.is_empty(), "partial chunk must not emit");
}

#[test]
fn filtered_silence_chunk_is_zero() {
    let out = run(48_000, 64, &[0.0f32; 64]);
    assert_eq!(out.len(), 1);
    let c = out[0];
    assert_eq!(c.lf_min, 0.0);
    assert_eq!(c.lf_max, 0.0);
    assert_eq!(c.mf_min, 0.0);
    assert_eq!(c.mf_max, 0.0);
    assert_eq!(c.hf_min, 0.0);
    assert_eq!(c.hf_max, 0.0);
}

#[test]
fn partial_carries_across_feeds() {
    let mut d = Feeder::new(48_000, 64);
    let mut out = Vec::new();
    d.feed(&[0.5f32; 32], |c| out.push(c));
    assert!(out.is_empty());
    d.feed(&[0.5f32; 32], |c| out.push(c));
    assert_eq!(out.len(), 1);
}

#[test]
fn dc_passes_through_at_unity_gain() {
    let warmup = vec![0.5f32; 4096];
    let mut d = Feeder::new(48_000, 64);
    let mut last = Chunk::ZERO;
    d.feed(&warmup, |c| last = c);
    assert!(
        (last.lf_max - 0.5).abs() < 1e-3,
        "DC steady-state max should be ~0.5, got {}",
        last.lf_max
    );
    assert!(
        (last.lf_min - 0.5).abs() < 1e-3,
        "DC steady-state min should be ~0.5, got {}",
        last.lf_min
    );
}

#[test]
fn in_band_sine_passes_through() {
    let sr = 48_000;
    let freq = 80.0;
    let n = sr as usize;
    let samples: Vec<f32> = (0..n)
        .map(|i| (2.0 * core::f32::consts::PI * freq * i as f32 / sr as f32).sin())
        .collect();
    let chunks = run(sr, 64, &samples);
    let last = chunks.last().expect("got chunks");
    let peak = last.lf_max.max(-last.lf_min);
    assert!(
        peak > 0.85,
        "80 Hz sine should pass through at near-unity, peak = {peak}"
    );
}

#[test]
fn out_of_band_sine_is_rejected() {
    let sr = 48_000;
    let freq = 2_000.0;
    let n = sr as usize;
    let samples: Vec<f32> = (0..n)
        .map(|i| (2.0 * core::f32::consts::PI * freq * i as f32 / sr as f32).sin())
        .collect();
    let chunks = run(sr, 64, &samples);
    let last = chunks.last().expect("got chunks");
    let peak = last.lf_max.max(-last.lf_min);
    assert!(
        peak < 0.05,
        "2 kHz sine should be rejected (>30 dB), peak = {peak}"
    );
}

#[test]
fn synthetic_kick_pops_against_sustained_bass() {
    let sr: u32 = 48_000;
    let n = sr as usize;
    let mut samples = vec![0.0f32; n];

    let bass_freq = 80.0;
    let kick_freq = 60.0;
    let kick_start_sample = n / 2;
    let kick_len_samples = (sr as f32 * 0.030) as usize;
    let kick_decay_tau = sr as f32 * 0.020;

    for (i, s) in samples.iter_mut().enumerate() {
        let t = i as f32 / sr as f32;
        let bass = 0.4 * (2.0 * core::f32::consts::PI * bass_freq * t).sin();
        let kick = if i >= kick_start_sample && i < kick_start_sample + kick_len_samples {
            let kt = (i - kick_start_sample) as f32;
            let envelope = (-kt / kick_decay_tau).exp();
            let phase = 2.0 * core::f32::consts::PI * kick_freq * (kt / sr as f32);
            0.9 * envelope * phase.sin()
        } else {
            0.0
        };
        *s = bass + kick;
    }

    let chunks = run(sr, 64, &samples);

    let kick_start_chunk = kick_start_sample / 64;
    let kick_end_chunk = kick_start_chunk + 45;

    let warmup_chunks = 150;
    let pre_kick_chunks = &chunks[warmup_chunks..(kick_start_chunk - 5)];
    let kick_chunks = &chunks[kick_start_chunk..kick_end_chunk];

    let pre_kick_peak = pre_kick_chunks
        .iter()
        .map(|c| c.lf_max.max(-c.lf_min))
        .fold(0.0f32, f32::max);
    let kick_peak = kick_chunks
        .iter()
        .map(|c| c.lf_max.max(-c.lf_min))
        .fold(0.0f32, f32::max);

    let ratio = kick_peak / pre_kick_peak.max(1e-6);
    assert!(
        ratio >= 1.8,
        "kick LF peak ({kick_peak}) should be ≥ 1.8× sustained-bass peak \
         ({pre_kick_peak}); got ratio {ratio}"
    );
}

#[test]
fn snare_lf_residual_stays_below_kick() {
    let sr: u32 = 48_000;
    let n = sr as usize / 2;

    let mut kick_buf = vec![0.0f32; n];
    let kick_len = (sr as f32 * 0.030) as usize;
    let kick_tau = sr as f32 * 0.020;
    for i in 0..kick_len {
        let kt = i as f32;
        let env = (-kt / kick_tau).exp();
        let phase = 2.0 * core::f32::consts::PI * 60.0 * (kt / sr as f32);
        kick_buf[i + 1000] = 0.9 * env * phase.sin();
    }

    let mut snare_buf = vec![0.0f32; n];
    let snare_len = (sr as f32 * 0.030) as usize;
    let snare_tau = sr as f32 * 0.020;
    for i in 0..snare_len {
        let kt = i as f32;
        let env = (-kt / snare_tau).exp();
        let fund = 0.45 * env * (2.0 * core::f32::consts::PI * 180.0 * (kt / sr as f32)).sin();
        let body = 0.45 * env * (2.0 * core::f32::consts::PI * 400.0 * (kt / sr as f32)).sin();
        snare_buf[i + 1000] = fund + body;
    }

    let kick_chunks = run(sr, 64, &kick_buf);
    let snare_chunks = run(sr, 64, &snare_buf);

    let kick_lf = kick_chunks
        .iter()
        .map(|c| c.lf_max.max(-c.lf_min))
        .fold(0.0f32, f32::max);
    let snare_lf = snare_chunks
        .iter()
        .map(|c| c.lf_max.max(-c.lf_min))
        .fold(0.0f32, f32::max);

    let ratio = snare_lf / kick_lf.max(1e-6);
    assert!(
        ratio < 0.65,
        "snare LF peak ({snare_lf}) should be < 65 % of kick LF peak \
         ({kick_lf}) at matched broadband amplitude; got ratio {ratio}"
    );
}

#[test]
fn reset_clears_filter_state() {
    let mut d = Feeder::new(48_000, 64);
    let mut out = Vec::new();
    d.feed(&[1.0f32; 100], |c| out.push(c));
    d.reset();
    out.clear();
    d.feed(&[0.0f32; 64], |c| out.push(c));
    assert_eq!(out.len(), 1);
    assert!(
        out[0].lf_min.abs() < 1e-6 && out[0].lf_max.abs() < 1e-6,
        "post-reset silence chunk should be exactly zero, got ({}, {})",
        out[0].lf_min,
        out[0].lf_max
    );
}

#[test]
fn flush_emits_partial() {
    let mut d = Feeder::new(48_000, DEFAULT_SAMPLES_PER_CHUNK);
    let mut out = Vec::new();
    d.feed(&[0.5f32; 32], |c| out.push(c));
    assert!(out.is_empty(), "partial chunk must not auto-emit");
    d.flush(|c| out.push(c));
    assert_eq!(out.len(), 1, "flush must emit the partial chunk");
    assert_eq!(d.pending(), 0);
}

#[test]
fn filtered_block_size_does_not_change_output() {
    let sr = 48_000;
    let n = 1024;
    let samples: Vec<f32> = (0..n).map(|i| (i as f32 * 0.01).sin() * 0.5).collect();

    let by_one: Vec<_> = {
        let mut d = Feeder::new(sr, 64);
        let mut out = Vec::new();
        for s in &samples {
            d.feed(std::slice::from_ref(s), |c| out.push(c));
        }
        out
    };
    let by_all: Vec<_> = {
        let mut d = Feeder::new(sr, 64);
        let mut out = Vec::new();
        d.feed(&samples, |c| out.push(c));
        out
    };

    assert_eq!(by_one.len(), by_all.len());
    for (a, b) in by_one.iter().zip(by_all.iter()) {
        assert!(
            (a.lf_min - b.lf_min).abs() < 1e-6,
            "lf_min divergence: {a:?} vs {b:?}"
        );
        assert!(
            (a.lf_max - b.lf_max).abs() < 1e-6,
            "lf_max divergence: {a:?} vs {b:?}"
        );
    }
}
