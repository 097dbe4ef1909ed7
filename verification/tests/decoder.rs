//! Decoding of timecode.

use assert_no_alloc::assert_no_alloc;
use dub::ieee::double::Double;
use dub::ieee::single::Single;
use dub::timecode::decoder::Decoder;
use dub::timecode::format::Format;

fn s(x: f32) -> Single {
    Single { bits: x.to_bits() }
}

fn f(x: Single) -> f32 {
    f32::from_bits(x.bits)
}

fn fd(x: Double) -> f64 {
    f64::from_bits(x.bits)
}

fn atan2(y: Double, x: Double) -> Double {
    Double { bits: fd(y).atan2(fd(x)).to_bits() }
}

struct Generator {
    carrier: f64,
    sample_rate: f64,
    phase: f64,
}

impl Generator {
    fn new(format: Format, sample_rate: f32) -> Self {
        Generator {
            carrier: f64::from(f(format.carrier_hz())),
            sample_rate: f64::from(sample_rate),
            phase: 0.0,
        }
    }

    fn render(&mut self, out: &mut [f32], rate: f64, amplitude: f32) {
        let step = core::f64::consts::TAU * self.carrier * rate / self.sample_rate;
        for frame in out.chunks_exact_mut(2) {
            frame[0] = amplitude * self.phase.sin() as f32;
            frame[1] = amplitude * self.phase.cos() as f32;
            self.phase += step;
        }
    }
}

struct Heard {
    rate: f64,
    position_secs: f64,
    amplitude: f32,
    confidence: f32,
}

fn decode(dec: &mut Decoder, block: &[f32]) -> Heard {
    let cells: Vec<Single> = block.iter().map(|x| s(*x)).collect();
    let out = dec.process(&cells, &atan2);
    Heard {
        rate: fd(out.rate),
        position_secs: fd(out.position_secs),
        amplitude: f(out.amplitude),
        confidence: f(out.confidence),
    }
}

fn roundtrip(rate: f64, n_frames: usize) -> Heard {
    let sr = 48_000.0_f32;
    let mut gen = Generator::new(Format::SeratoCv02, sr);
    let mut dec = Decoder::new(Format::SeratoCv02, s(sr));
    let mut buf = vec![0.0f32; n_frames * 2];
    gen.render(&mut buf, rate, 0.5);
    decode(&mut dec, &buf)
}

const RATE_TOL: f64 = 0.005;

#[test]
fn unity_rate_decodes_to_unity() {
    let out = roundtrip(1.0, 4_800);
    assert!(
        (out.rate - 1.0).abs() < RATE_TOL,
        "rate = {} (want ≈1.0)",
        out.rate
    );
    assert!(out.confidence > 0.99, "confidence = {}", out.confidence);
    assert!((out.amplitude - 0.5).abs() < 0.01);
}

#[test]
fn half_rate_decodes_to_half() {
    let out = roundtrip(0.5, 4_800);
    assert!(
        (out.rate - 0.5).abs() < RATE_TOL,
        "rate = {} (want ≈0.5)",
        out.rate
    );
    assert!(out.confidence > 0.99);
}

#[test]
fn double_rate_decodes_to_double() {
    let out = roundtrip(2.0, 4_800);
    assert!(
        (out.rate - 2.0).abs() < RATE_TOL,
        "rate = {} (want ≈2.0)",
        out.rate
    );
}

#[test]
fn reverse_unity_decodes_to_negative_unity() {
    let out = roundtrip(-1.0, 4_800);
    assert!(
        (out.rate - (-1.0)).abs() < RATE_TOL,
        "rate = {} (want ≈-1.0)",
        out.rate
    );
    assert!(out.confidence > 0.99);
}

#[test]
fn stopped_decodes_to_zero_rate() {
    let out = roundtrip(0.0, 4_800);
    assert!(out.rate.abs() < 1e-9, "rate = {}", out.rate);
    assert!(out.confidence > 0.99);
}

#[test]
fn silence_yields_low_confidence() {
    let mut dec = Decoder::new(Format::SeratoCv02, s(48_000.0));
    let buf = vec![0.0f32; 4_800 * 2];
    let out = decode(&mut dec, &buf);
    assert!(out.amplitude < 1e-6, "amplitude = {}", out.amplitude);
    assert!(out.confidence < 0.01, "confidence = {}", out.confidence);
}

#[test]
fn position_integrates_at_unity() {
    let sr = 48_000.0_f32;
    let mut gen = Generator::new(Format::SeratoCv02, sr);
    let mut dec = Decoder::new(Format::SeratoCv02, s(sr));
    let mut buf = vec![0.0f32; 48_000 * 2];
    gen.render(&mut buf, 1.0, 0.5);
    let out = decode(&mut dec, &buf);
    assert!(
        (out.position_secs - 1.0).abs() < 0.01,
        "position = {} (want ≈1.0s)",
        out.position_secs
    );
}

#[test]
fn position_is_signed_under_reverse() {
    let sr = 48_000.0_f32;
    let mut gen = Generator::new(Format::SeratoCv02, sr);
    let mut dec = Decoder::new(Format::SeratoCv02, s(sr));
    let mut buf = vec![0.0f32; 24_000 * 2];

    gen.render(&mut buf, 1.0, 0.5);
    decode(&mut dec, &buf);
    gen.render(&mut buf, -1.0, 0.5);
    let out = decode(&mut dec, &buf);

    assert!(
        out.position_secs.abs() < 0.02,
        "net position = {} (want ≈0)",
        out.position_secs
    );
}

#[test]
fn block_size_independent_at_unity() {
    let sr = 48_000.0_f32;
    let mut gen_big = Generator::new(Format::SeratoCv02, sr);
    let mut dec_big = Decoder::new(Format::SeratoCv02, s(sr));
    let mut big = vec![0.0f32; 9_600 * 2];
    gen_big.render(&mut big, 1.0, 0.5);
    let big_out = decode(&mut dec_big, &big);

    let mut gen_small = Generator::new(Format::SeratoCv02, sr);
    let mut dec_small = Decoder::new(Format::SeratoCv02, s(sr));
    let mut small = vec![0.0f32; 64 * 2];
    let mut last = Heard {
        rate: 0.0,
        position_secs: 0.0,
        amplitude: 0.0,
        confidence: 0.0,
    };
    for _ in 0..(9_600 / 64) {
        gen_small.render(&mut small, 1.0, 0.5);
        last = decode(&mut dec_small, &small);
    }
    assert!(
        (big_out.position_secs - last.position_secs).abs() < 1e-3,
        "big={} small={}",
        big_out.position_secs,
        last.position_secs
    );
}

fn roundtrip_format(format: Format, rate: f64, n_frames: usize) -> Heard {
    let sr = 48_000.0_f32;
    let mut gen = Generator::new(format, sr);
    let mut dec = Decoder::new(format, s(sr));
    let mut buf = vec![0.0f32; n_frames * 2];
    gen.render(&mut buf, rate, 0.5);
    decode(&mut dec, &buf)
}

#[test]
fn traktor_mk1_unity_decodes_to_unity() {
    let out = roundtrip_format(Format::TraktorMk1, 1.0, 4_800);
    assert!(
        (out.rate - 1.0).abs() < RATE_TOL,
        "MK1 rate = {} (want ≈1.0)",
        out.rate
    );
    assert!(out.confidence > 0.99);
    assert!((out.amplitude - 0.5).abs() < 0.01);
}

#[test]
fn traktor_mk2_unity_decodes_to_unity() {
    let out = roundtrip_format(Format::TraktorMk2, 1.0, 4_800);
    assert!(
        (out.rate - 1.0).abs() < RATE_TOL,
        "MK2 rate = {} (want ≈1.0)",
        out.rate
    );
    assert!(out.confidence > 0.99);
}

#[test]
fn traktor_mk1_reverse_decodes_negative() {
    let out = roundtrip_format(Format::TraktorMk1, -1.0, 4_800);
    assert!(
        (out.rate - (-1.0)).abs() < RATE_TOL,
        "MK1 reverse = {}",
        out.rate
    );
}

#[test]
fn traktor_mk2_reverse_decodes_negative() {
    let out = roundtrip_format(Format::TraktorMk2, -1.0, 4_800);
    assert!(
        (out.rate - (-1.0)).abs() < RATE_TOL,
        "MK2 reverse = {}",
        out.rate
    );
}

#[test]
fn traktor_mk2_4x_rate_clears_alias_band() {
    let out = roundtrip_format(Format::TraktorMk2, 4.0, 4_800);
    assert!(
        (out.rate - 4.0).abs() < RATE_TOL * 4.0,
        "MK2 4× rate = {} (want ≈4.0, well clear of alias band)",
        out.rate
    );
}

#[test]
fn traktor_position_integrates_at_unity_for_both_generations() {
    for format in [Format::TraktorMk1, Format::TraktorMk2] {
        let sr = 48_000.0_f32;
        let mut gen = Generator::new(format, sr);
        let mut dec = Decoder::new(format, s(sr));
        let mut buf = vec![0.0f32; 48_000 * 2];
        gen.render(&mut buf, 1.0, 0.5);
        let out = decode(&mut dec, &buf);
        assert!(
            (out.position_secs - 1.0).abs() < 0.01,
            "{format:?} position = {} (want ≈1.0s)",
            out.position_secs
        );
    }
}

#[test]
fn mk2_vinyl_decoded_as_mk1_plays_back_too_fast_by_25_percent() {
    let sr = 48_000.0_f32;
    let mut gen_mk2 = Generator::new(Format::TraktorMk2, sr);
    let mut dec_mk1 = Decoder::new(Format::TraktorMk1, s(sr));
    let mut buf = vec![0.0f32; 4_800 * 2];
    gen_mk2.render(&mut buf, 1.0, 0.5);
    let out = decode(&mut dec_mk1, &buf);
    let expected = 2500.0 / 2000.0;
    assert!(
        (out.rate - expected).abs() < 0.01,
        "MK2-vinyl-as-MK1-decoder rate = {} (want ≈{} = wrong-by-25%)",
        out.rate,
        expected
    );
}

#[test]
fn traktor_silence_yields_low_confidence() {
    for format in [Format::TraktorMk1, Format::TraktorMk2] {
        let mut dec = Decoder::new(format, s(48_000.0));
        let buf = vec![0.0f32; 4_800 * 2];
        let out = decode(&mut dec, &buf);
        assert!(
            out.confidence < 0.01,
            "{format:?} confidence on silence = {}",
            out.confidence
        );
    }
}

#[test]
fn varying_rate_tracks_continuously() {
    let sr = 48_000.0_f32;
    let block = 480_usize;
    let mut gen = Generator::new(Format::SeratoCv02, sr);
    let mut dec = Decoder::new(Format::SeratoCv02, s(sr));
    let mut buf = vec![0.0f32; block * 2];
    let mut max_err = 0.0_f64;
    for step in 0..100i32 {
        let want = 1.0 - f64::from(step) * 0.01;
        gen.render(&mut buf, want, 0.5);
        let out = decode(&mut dec, &buf);
        let err = (out.rate - want).abs();
        if err > max_err {
            max_err = err;
        }
    }
    assert!(max_err < 0.02, "max rate err = {max_err}");
}

#[test]
fn process_is_alloc_free() {
    let sr = 48_000.0_f32;
    let mut gen = Generator::new(Format::SeratoCv02, sr);
    let mut dec = Decoder::new(Format::SeratoCv02, s(sr));
    let mut buf = vec![0.0f32; 64 * 2];
    let mut cells = vec![s(0.0); 64 * 2];
    gen.render(&mut buf, 1.0, 0.5);
    decode(&mut dec, &buf);

    assert_no_alloc(|| {
        for _ in 0..100 {
            gen.render(&mut buf, 1.0, 0.5);
            for (c, x) in cells.iter_mut().zip(buf.iter()) {
                *c = s(*x);
            }
            let _ = dec.process(&cells, &atan2);
        }
    });
}

#[test]
fn reset_starts_over() {
    let sr = 48_000.0_f32;
    let mut gen = Generator::new(Format::SeratoCv02, sr);
    let mut dec = Decoder::new(Format::SeratoCv02, s(sr));
    let mut buf = vec![0.0f32; 480 * 2];
    gen.render(&mut buf, 1.0, 0.5);
    let first = decode(&mut dec, &buf);
    assert_eq!(fd(dec.position_secs()), first.position_secs);
    dec.reset();
    assert_eq!(fd(dec.position_secs()), 0.0);
    let again = decode(&mut dec, &buf);
    assert_eq!(again.rate, first.rate);
    assert_eq!(again.position_secs, first.position_secs);
    assert_eq!(again.amplitude, first.amplitude);
    assert_eq!(again.confidence, first.confidence);
}

#[test]
fn silence_inspires_no_confidence_whatever_came_before() {
    let mut gen = Generator::new(Format::SeratoCv02, 48_000.0);
    let mut dec = Decoder::new(Format::SeratoCv02, s(48_000.0));
    let mut block = vec![0.0f32; 512];
    gen.render(&mut block, 1.0, 0.8);
    assert!(decode(&mut dec, &block).confidence > 0.9);
    let mut quiet = vec![0.0f32; 512];
    quiet[3] = -0.0;
    let heard = decode(&mut dec, &quiet);
    assert_eq!(heard.amplitude, 0.0);
    assert_eq!(heard.confidence, 0.0);
}

#[test]
fn confidence_stays_between_zero_and_one() {
    let mut dec = Decoder::new(Format::TraktorMk1, s(44_100.0));
    let mut state = 12_345u32;
    for scale in [1.0e-20f32, 1.0e-6, 0.5, 1.0, 1.0e10] {
        let block: Vec<f32> = (0..256)
            .map(|_| {
                state = state.wrapping_mul(1_664_525).wrapping_add(1_013_904_223);
                (state as f32 / u32::MAX as f32 - 0.5) * scale
            })
            .collect();
        let heard = decode(&mut dec, &block);
        assert!((0.0..=1.0).contains(&heard.confidence), "{}", heard.confidence);
    }
}

#[test]
fn a_reversed_record_decodes_to_the_opposite() {
    let sr = 48_000.0;
    let mut gen = Generator::new(Format::SeratoCv02, sr);
    let mut forward = Decoder::new(Format::SeratoCv02, s(sr));
    let mut backward = Decoder::new(Format::SeratoCv02, s(sr));
    for rate in [1.0, 0.3, -2.0, 8.0] {
        let mut block = vec![0.0f32; 256];
        gen.render(&mut block, rate, 0.4);
        let mirrored: Vec<f32> =
            block.iter().enumerate().map(|(i, x)| if i % 2 == 0 { -x } else { *x }).collect();
        let a = decode(&mut forward, &block);
        let b = decode(&mut backward, &mirrored);
        assert_eq!(b.rate, -a.rate);
        assert_eq!(b.position_secs, -a.position_secs);
        assert_eq!(b.amplitude, a.amplitude);
        assert_eq!(b.confidence, a.confidence);
    }
}

#[test]
fn rate_stays_below_the_alias_limit() {
    let sr = 48_000.0f32;
    let mut dec = Decoder::new(Format::SeratoCv02, s(sr));
    let limit = 0.5 * f64::from(sr) / f64::from(f(Format::SeratoCv02.carrier_hz()));
    for step in [1.0f32, 2.0, 3.0, 3.141, -3.1, 5.0] {
        let block: Vec<f32> = (0..64)
            .flat_map(|i| [(i as f32 * step).sin(), (i as f32 * step).cos()])
            .collect();
        let out = decode(&mut dec, &block);
        assert!(out.rate.abs() <= limit * (1.0 + 1e-15));
        assert!((0.0..=1.0).contains(&out.confidence));
    }
    let out = decode(&mut dec, &[f32::MAX; 64]);
    assert!((0.0..=1.0).contains(&out.confidence));
    assert!(out.amplitude >= 0.0);
}

#[test]
fn silence_leaves_the_position() {
    let sr = 48_000.0;
    let mut gen = Generator::new(Format::SeratoCv02, sr);
    let mut dec = Decoder::new(Format::SeratoCv02, s(sr));
    let mut block = vec![0.0f32; 512];
    gen.render(&mut block, 1.0, 0.4);
    let at = decode(&mut dec, &block).position_secs;
    assert!(at > 0.0);
    for quiet in [vec![], vec![0.0f32; 64], vec![-0.0f32; 64]] {
        let out = decode(&mut dec, &quiet);
        assert_eq!(out.rate, 0.0);
        assert_eq!(out.position_secs, at);
        assert_eq!(out.amplitude, 0.0);
        assert_eq!(out.confidence, 0.0);
    }
}
