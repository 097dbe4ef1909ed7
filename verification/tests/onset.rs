//! Onset strength.

use dub::ieee::single::Single;
use dub::peaks::chunk::BAND_SAMPLES_PER_CHUNK;
use dub::peaks::onset::OnsetDecimator;
use dub::spectral::bands::FRAME_SIZE;
use dub::spectral::bands::HOP_SIZE;
use realfft::RealFftPlanner;

fn s(x: f32) -> Single {
    Single { bits: x.to_bits() }
}

fn f(x: Single) -> f32 {
    f32::from_bits(x.bits)
}

fn singles(x: &[f32]) -> Vec<Single> {
    x.iter().map(|v| s(*v)).collect()
}

fn cos(x: Single) -> Single {
    s(f(x).cos())
}

fn ln(x: Single) -> Single {
    s(f(x).ln())
}

fn spectrum() -> impl Fn(&[Single]) -> Vec<Single> {
    let plan = RealFftPlanner::<f32>::new().plan_fft_forward(1024);
    move |frame: &[Single]| {
        let mut input: Vec<f32> = frame.iter().map(|x| f(*x)).collect();
        let mut output = plan.make_output_vec();
        plan.process(&mut input, &mut output).expect("a frame of the planned size");
        output.iter().map(|c| s(c.norm())).collect()
    }
}

struct Chunk {
    flux: f32,
}

struct Feeder(OnsetDecimator);

impl Feeder {
    fn new(sample_rate: u32) -> Self {
        Feeder(OnsetDecimator::new(sample_rate, &cos))
    }

    fn feed(&mut self, samples: &[f32], mut emit: impl FnMut(Chunk)) {
        let mut out = Vec::new();
        self.0.feed(&singles(samples), &spectrum(), &ln, &mut out);
        for c in out {
            emit(Chunk { flux: f(c.flux) });
        }
    }

    fn samples_per_chunk(&self) -> usize {
        self.0.samples_per_chunk()
    }

    fn reset(&mut self) {
        self.0.reset();
    }
}

const SR: u32 = 48_000;

fn collect_chunks(samples: &[f32]) -> Vec<Chunk> {
    let mut d = Feeder::new(SR);
    let mut out = Vec::new();
    d.feed(samples, |c| out.push(c));
    out
}

#[test]
fn onset_fresh_decimator_emits_nothing_on_short_input() {
    let chunks = collect_chunks(&[0.0f32; FRAME_SIZE - 1]);
    assert_eq!(chunks.len(), 0);
}

#[test]
fn onset_one_frame_then_one_hop_emits_two_chunks() {
    let chunks = collect_chunks(&vec![0.5f32; FRAME_SIZE + HOP_SIZE]);
    assert_eq!(chunks.len(), 2);
}

#[test]
fn onset_samples_per_chunk_equals_hop_size() {
    let d = Feeder::new(SR);
    assert_eq!(d.samples_per_chunk(), BAND_SAMPLES_PER_CHUNK);
    assert_eq!(BAND_SAMPLES_PER_CHUNK, HOP_SIZE);
}

#[test]
fn silence_produces_zero_flux() {
    let chunks = collect_chunks(&vec![0.0f32; FRAME_SIZE * 8]);
    assert!(!chunks.is_empty());
    for (i, c) in chunks.iter().enumerate() {
        assert!(c.flux < 1e-3, "silence chunk {i} non-zero: {}", c.flux);
    }
}

#[test]
fn click_track_produces_periodic_spikes() {
    let beat_period_samples: usize = (u64::from(SR) * 60 / 120) as usize;
    let mut audio = vec![0.0f32; SR as usize * 5];
    let mut t = 0;
    while t < audio.len() {
        for s in t..(t + 16).min(audio.len()) {
            audio[s] = 1.0;
        }
        t += beat_period_samples;
    }
    let chunks = collect_chunks(&audio);
    let max_flux = chunks.iter().fold(0.0f32, |a, c| a.max(c.flux));
    let mean_flux = chunks.iter().map(|c| c.flux).sum::<f32>() / chunks.len() as f32;
    assert!(
        max_flux > 5.0 * mean_flux,
        "click ODF should be spiky; max={max_flux} mean={mean_flux}"
    );
}

#[test]
fn block_size_invariance() {
    let audio: Vec<f32> = (0..48_000_i32)
        .map(|i| {
            let t = i as f32;
            (t * 0.01).sin() * 0.3
        })
        .collect();

    let one_shot = collect_chunks(&audio);

    let mut d = Feeder::new(SR);
    let mut streamed = Vec::new();
    for chunk in audio.chunks(123) {
        d.feed(chunk, |c| streamed.push(c));
    }

    assert_eq!(one_shot.len(), streamed.len());
    for (i, (a, b)) in one_shot.iter().zip(streamed.iter()).enumerate() {
        assert!(
            (a.flux - b.flux).abs() < 1e-4,
            "chunk {i}: one-shot={} streamed={}",
            a.flux,
            b.flux
        );
    }
}

#[test]
fn reset_clears_have_prev() {
    let mut d = Feeder::new(SR);
    let mut chunks = Vec::new();
    d.feed(&vec![0.5f32; FRAME_SIZE * 4], |c| chunks.push(c));
    let pre_reset_len = chunks.len();
    assert!(pre_reset_len > 0);
    d.reset();
    chunks.clear();
    d.feed(&vec![1.0f32; FRAME_SIZE], |c| chunks.push(c));
    assert_eq!(chunks.len(), 1);
    assert_eq!(chunks[0].flux, 0.0);
}

#[test]
fn a_repeated_frame_is_no_onset() {
    let mut d = OnsetDecimator::new(SR, &cos);
    let frame: Vec<Single> = (0..513).map(|i| s((i % 7) as f32 * 0.25)).collect();
    assert_eq!(f(d.step(&frame).flux), 0.0);
    assert_eq!(f(d.step(&frame).flux), 0.0);
    let louder: Vec<Single> = frame.iter().map(|x| s(f(*x) + 1.0)).collect();
    assert_eq!(f(d.step(&louder).flux), 8.0);
    assert_eq!(f(d.step(&frame).flux), 0.0);
    let odd = vec![s(f32::NAN); 513];
    assert_eq!(f(d.step(&odd).flux), 0.0);
    assert_eq!(f(d.step(&odd).flux), 0.0);
}
