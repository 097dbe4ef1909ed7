//! Decimation per frequency band.

use dub::ieee::single::Single;
use dub::peaks::band_decimator::BandDecimator;
use dub::peaks::chunk::BandPeakChunk;
use dub::peaks::chunk::BAND_SAMPLES_PER_CHUNK;
use dub::spectral::bands::FRAME_SIZE;
use dub::spectral::bands::HOP_SIZE;
use dub::spectral::bands::NUM_BANDS;
use realfft::RealFftPlanner;

fn s(x: f32) -> Single {
    Single { bits: x.to_bits() }
}

fn f(x: Single) -> f32 {
    f32::from_bits(x.bits)
}

fn singles(x: &[f32]) -> Vec<Single> {
    x.iter().map(|v| s(*v)).collect()
}

fn cos(x: Single) -> Single {
    s(f(x).cos())
}

fn ln(x: Single) -> Single {
    s(f(x).ln())
}

fn spectrum() -> impl Fn(&[Single]) -> Vec<Single> {
    let plan = RealFftPlanner::<f32>::new().plan_fft_forward(1024);
    move |frame: &[Single]| {
        let mut input: Vec<f32> = frame.iter().map(|x| f(*x)).collect();
        let mut output = plan.make_output_vec();
        plan.process(&mut input, &mut output).expect("a frame of the planned size");
        output.iter().map(|c| s(c.norm())).collect()
    }
}

struct Chunk {
    rms_per_band: [f32; NUM_BANDS],
}

struct Feeder(BandDecimator);

impl Feeder {
    fn new(sample_rate: u32) -> Self {
        Feeder(BandDecimator::new(sample_rate, &cos))
    }

    fn feed(&mut self, samples: &[f32], mut emit: impl FnMut(Chunk)) {
        let mut out = Vec::new();
        self.0.feed(&singles(samples), &spectrum(), &ln, &mut out);
        for c in out {
            emit(Chunk { rms_per_band: c.rms_per_band.map(f) });
        }
    }

    fn samples_per_chunk(&self) -> usize {
        self.0.samples_per_chunk()
    }

    fn reset(&mut self) {
        self.0.reset();
    }
}

const SR: u32 = 48_000;

fn collect_chunks(samples: &[f32]) -> Vec<Chunk> {
    let mut d = Feeder::new(SR);
    let mut out = Vec::new();
    d.feed(samples, |c| out.push(c));
    out
}

#[test]
fn band_decimator_fresh_decimator_emits_nothing_on_short_input() {
    let chunks = collect_chunks(&[0.0f32; FRAME_SIZE - 1]);
    assert_eq!(chunks.len(), 0, "need a full frame before emit");
}

#[test]
fn band_decimator_one_frame_then_one_hop_emits_two_chunks() {
    let chunks = collect_chunks(&vec![0.5f32; FRAME_SIZE + HOP_SIZE]);
    assert_eq!(chunks.len(), 2);
}

#[test]
fn band_decimator_samples_per_chunk_equals_hop_size() {
    let d = Feeder::new(SR);
    assert_eq!(d.samples_per_chunk(), BAND_SAMPLES_PER_CHUNK);
    assert_eq!(BAND_SAMPLES_PER_CHUNK, HOP_SIZE);
}

#[test]
fn silence_produces_zero_band_chunks() {
    let chunks = collect_chunks(&vec![0.0f32; FRAME_SIZE * 4]);
    assert!(!chunks.is_empty());
    for c in &chunks {
        for (k, &v) in c.rms_per_band.iter().enumerate() {
            assert!(v < 1e-3, "band {k} non-zero on silence: {v}");
        }
    }
}

#[test]
fn pure_low_tone_excites_low_bands_more_than_high_bands() {
    let n = FRAME_SIZE * 16;
    let audio: Vec<f32> = (0..n)
        .map(|i| {
            let t = i as f32 / SR as f32;
            (std::f32::consts::TAU * 60.0 * t).sin() * 0.5
        })
        .collect();
    let chunks = collect_chunks(&audio);
    assert!(!chunks.is_empty());

    let mut sums = [0.0f32; NUM_BANDS];
    for c in &chunks {
        for (k, v) in c.rms_per_band.iter().enumerate() {
            sums[k] += v;
        }
    }
    let mean: [f32; NUM_BANDS] = std::array::from_fn(|k| sums[k] / chunks.len() as f32);

    assert!(
        mean[0] > mean[NUM_BANDS - 1] * 5.0,
        "low tone should excite low band: {mean:?}"
    );
}

#[test]
fn pure_high_tone_excites_high_bands_more_than_low_bands() {
    let n = FRAME_SIZE * 16;
    let audio: Vec<f32> = (0..n)
        .map(|i| {
            let t = i as f32 / SR as f32;
            (std::f32::consts::TAU * 10_000.0 * t).sin() * 0.5
        })
        .collect();
    let chunks = collect_chunks(&audio);
    assert!(!chunks.is_empty());

    let mut sums = [0.0f32; NUM_BANDS];
    for c in &chunks {
        for (k, v) in c.rms_per_band.iter().enumerate() {
            sums[k] += v;
        }
    }
    let mean: [f32; NUM_BANDS] = std::array::from_fn(|k| sums[k] / chunks.len() as f32);

    assert!(
        mean[NUM_BANDS - 1] > mean[0] * 5.0,
        "high tone should excite top band: {mean:?}"
    );
}

#[test]
fn block_size_does_not_affect_band_chunks() {
    let audio: Vec<f32> = (0..48_000)
        .map(|i| (i as f32 * 0.001).sin() * 0.3)
        .collect();

    let one_shot = collect_chunks(&audio);

    let mut d = Feeder::new(SR);
    let mut streamed = Vec::new();
    for chunk in audio.chunks(123) {
        d.feed(chunk, |c| streamed.push(c));
    }

    assert_eq!(one_shot.len(), streamed.len());
    for (i, (a, b)) in one_shot.iter().zip(streamed.iter()).enumerate() {
        for (k, (av, bv)) in a.rms_per_band.iter().zip(b.rms_per_band.iter()).enumerate() {
            assert!(
                (av - bv).abs() < 1e-4,
                "chunk {i} band {k}: one-shot={av} streamed={bv}"
            );
        }
    }
}

#[test]
fn band_decimator_reset_clears_overlap_buffer() {
    let mut d = Feeder::new(SR);
    let mut chunks = 0usize;
    d.feed(&vec![0.5f32; FRAME_SIZE / 2], |_| chunks += 1);
    assert_eq!(chunks, 0);
    d.reset();
    d.feed(&vec![0.5f32; FRAME_SIZE / 2], |_| chunks += 1);
    assert_eq!(chunks, 0, "reset did not clear overlap buffer");
    d.feed(&vec![0.5f32; FRAME_SIZE / 2], |_| chunks += 1);
    assert_eq!(chunks, 1);
}

#[test]
fn band_peak_chunk_zero_default() {
    let c = BandPeakChunk::default();
    for v in c.rms_per_band {
        assert_eq!(f(v), 0.0);
    }
    assert_eq!(c, BandPeakChunk::zero());
}
