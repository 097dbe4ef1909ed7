//! Frames of the compressed spectrum.

use dub::ieee::single::Single;
use dub::spectral::bands::FRAME_SIZE;
use dub::spectral::bands::HOP_SIZE;
use dub::spectral::frames::SpectralFrameStream;
use realfft::RealFftPlanner;

fn s(x: f32) -> Single {
    Single { bits: x.to_bits() }
}

fn f(x: Single) -> f32 {
    f32::from_bits(x.bits)
}

fn singles(x: &[f32]) -> Vec<Single> {
    x.iter().map(|v| s(*v)).collect()
}

fn cos(x: Single) -> Single {
    s(f(x).cos())
}

fn ln(x: Single) -> Single {
    s(f(x).ln())
}

fn spectrum() -> impl Fn(&[Single]) -> Vec<Single> {
    let plan = RealFftPlanner::<f32>::new().plan_fft_forward(1024);
    move |frame: &[Single]| {
        let mut input: Vec<f32> = frame.iter().map(|x| f(*x)).collect();
        let mut output = plan.make_output_vec();
        plan.process(&mut input, &mut output).expect("a frame of the planned size");
        output.iter().map(|c| s(c.norm())).collect()
    }
}

struct Feeder(SpectralFrameStream);

impl Feeder {
    fn new(sample_rate: u32) -> Self {
        Feeder(SpectralFrameStream::new(sample_rate, &cos))
    }

    fn process(&mut self, block: &[f32], mut emit: impl FnMut(&[f32], &[(usize, usize); 8])) {
        let mut out = Vec::new();
        self.0.process(&singles(block), &spectrum(), &ln, &mut out);
        for frame in out {
            let magnitudes: Vec<f32> = frame.iter().map(|x| f(*x)).collect();
            emit(&magnitudes, self.0.bands());
        }
    }

    fn frame_size(&self) -> usize {
        self.0.frame_size()
    }

    fn hop_size(&self) -> usize {
        self.0.hop_size()
    }

    fn half_spectrum_size(&self) -> usize {
        self.0.half_spectrum_size()
    }

    fn reset(&mut self) {
        self.0.reset();
    }
}

#[test]
fn frame_and_hop_sizes_are_constants() {
    let s = Feeder::new(48_000);
    assert_eq!(s.frame_size(), FRAME_SIZE);
    assert_eq!(s.hop_size(), HOP_SIZE);
    assert_eq!(s.half_spectrum_size(), FRAME_SIZE / 2 + 1);
}

#[test]
fn fresh_stream_emits_no_frames_on_short_input() {
    let mut s = Feeder::new(48_000);
    let mut frames = 0usize;
    s.process(&[0.0f32; FRAME_SIZE - 1], |_, _| frames += 1);
    assert_eq!(frames, 0, "should need a full frame before emitting");
}

#[test]
fn one_frame_then_one_hop_emits_two_frames() {
    let mut s = Feeder::new(48_000);
    let mut frames = 0usize;
    s.process(&vec![0.5f32; FRAME_SIZE + HOP_SIZE], |_, _| frames += 1);
    assert_eq!(frames, 2);
}

#[test]
fn block_size_invariance_one_shot_vs_streamed() {
    let audio: Vec<f32> = (0..48_000).map(|i| (i as f32 * 0.001).sin()).collect();

    let mut one_shot_frames: Vec<Vec<f32>> = Vec::new();
    let mut a = Feeder::new(48_000);
    a.process(&audio, |mags, _| one_shot_frames.push(mags.to_vec()));

    let mut streamed_frames: Vec<Vec<f32>> = Vec::new();
    let mut b = Feeder::new(48_000);
    for chunk in audio.chunks(123) {
        b.process(chunk, |mags, _| streamed_frames.push(mags.to_vec()));
    }

    assert_eq!(one_shot_frames.len(), streamed_frames.len());
    for (i, (a, b)) in one_shot_frames.iter().zip(streamed_frames.iter()).enumerate() {
        assert_eq!(a.len(), b.len(), "frame {i} length mismatch");
        for (j, (av, bv)) in a.iter().zip(b.iter()).enumerate() {
            assert!(
                (av - bv).abs() < 1e-5,
                "frame {i} bin {j}: one-shot={av} streamed={bv}"
            );
        }
    }
}

#[test]
fn lib_reset_clears_overlap_buffer() {
    let mut s = Feeder::new(48_000);
    let mut frames = 0usize;
    s.process(&vec![0.5f32; FRAME_SIZE / 2], |_, _| frames += 1);
    assert_eq!(frames, 0);
    s.reset();
    s.process(&vec![0.5f32; FRAME_SIZE / 2], |_, _| frames += 1);
    assert_eq!(
        frames, 0,
        "reset should have cleared the accumulated half-frame"
    );
    s.process(&vec![0.5f32; FRAME_SIZE / 2], |_, _| frames += 1);
    assert_eq!(frames, 1, "now we've fed a full frame post-reset");
}

#[test]
fn silence_produces_compressed_mags_near_zero() {
    let mut s = Feeder::new(48_000);
    let mut max_mag = 0.0f32;
    s.process(&vec![0.0f32; FRAME_SIZE * 4], |mags, _| {
        for &m in mags {
            if m > max_mag {
                max_mag = m;
            }
        }
    });
    assert!(
        max_mag < 1e-3,
        "silence should compress to ~0 magnitude; got max {max_mag}"
    );
}
