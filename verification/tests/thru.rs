//! A record played through.

use assert_no_alloc::assert_no_alloc;
use dub::engine::ring::ring;
use dub::engine::ring::Receiver;
use dub::engine::ring::Sender;
use dub::engine::thru::ThruAttachError;
use dub::engine::thru::ThruInputConfig;
use dub::engine::thru::ThruSource;
use dub::ieee::single::Single;

fn s(x: f32) -> Single {
    Single { bits: x.to_bits() }
}

fn f(x: Single) -> f32 {
    f32::from_bits(x.bits)
}

fn config() -> ThruInputConfig {
    ThruInputConfig { max_block_frames: 256, input_sample_rate: s(SR) }
}

fn build(cfg: ThruInputConfig, capacity: usize) -> (ThruSource, Sender<Single>) {
    let (tx, rx) = ring(capacity);
    (ThruSource::new(rx, cfg), tx)
}

fn push_const(tx: &mut Sender<Single>, n: usize, l: f32, r: f32) -> usize {
    let mut pushed = 0;
    for _ in 0..n {
        if tx.try_push(s(l)).is_err() {
            break;
        }
        pushed += 1;
        if tx.try_push(s(r)).is_err() {
            break;
        }
        pushed += 1;
    }
    pushed
}

fn pop(rx: &mut Receiver<Single>, out: &mut [f32]) -> usize {
    let mut cells = vec![s(0.0); out.len()];
    let n = rx.pop_slice(&mut cells);
    for (o, c) in out.iter_mut().zip(cells) {
        *o = f(c);
    }
    n
}

fn render(src: &mut ThruSource, out: &mut [f32], gain: f32, stride: usize, offset: usize) {
    let mut cells: Vec<Single> = out.iter().map(|x| s(*x)).collect();
    src.render_into(&mut cells, s(gain), stride, offset);
    for (o, c) in out.iter_mut().zip(cells) {
        *o = f(c);
    }
}

const SR: f32 = 48_000.0;

fn zeros(frames: usize) -> Vec<f32> {
    vec![0.0_f32; frames * 2]
}

#[test]
fn validate_sample_rate_mismatch() {
    let cfg = ThruInputConfig {
        max_block_frames: 256,
        input_sample_rate: s(44_100.0),
    };
    let err = cfg.validate(s(48_000.0)).unwrap_err();
    assert!(matches!(err, ThruAttachError::SampleRateMismatch { .. }));
}

#[test]
fn validate_zero_block_size() {
    let cfg = ThruInputConfig {
        max_block_frames: 0,
        input_sample_rate: s(SR),
    };
    let err = cfg.validate(s(SR)).unwrap_err();
    assert!(matches!(err, ThruAttachError::BadBlockSize));
}

#[test]
fn validate_matching_sr_within_tolerance() {
    let cfg = ThruInputConfig {
        max_block_frames: 256,
        input_sample_rate: s(48_000.4),
    };
    cfg.validate(s(48_000.0)).unwrap();
}

#[test]
fn passes_input_through_at_unit_gain() {
    let (mut src, mut tx) = build(config(), 4096);
    let pushed = push_const(&mut tx, 128, 0.4, -0.2);
    assert_eq!(pushed, 256);

    let mut out = zeros(128);
    render(&mut src, &mut out, 1.0, 2, 0);

    for i in 0..128 {
        assert!(
            (out[i * 2] - 0.4).abs() < 1e-6,
            "frame {i} L = {} expected 0.4",
            out[i * 2]
        );
        assert!(
            (out[i * 2 + 1] - (-0.2)).abs() < 1e-6,
            "frame {i} R = {} expected -0.2",
            out[i * 2 + 1]
        );
    }
}

#[test]
fn thru_render_is_additive_not_replacing() {
    let (mut src, mut tx) = build(config(), 4096);
    let _ = push_const(&mut tx, 64, 0.1, 0.2);
    let mut out = vec![0.5_f32; 64 * 2];
    render(&mut src, &mut out, 1.0, 2, 0);
    for i in 0..64 {
        assert!(
            (out[i * 2] - 0.6).abs() < 1e-5,
            "frame {i}: out_l = {} expected 0.6 (0.5 base + 0.1 input)",
            out[i * 2]
        );
        assert!(
            (out[i * 2 + 1] - 0.7).abs() < 1e-5,
            "frame {i}: out_r = {} expected 0.7 (0.5 base + 0.2 input)",
            out[i * 2 + 1]
        );
    }
}

#[test]
fn render_into_writes_at_offset_only() {
    let (mut src, mut tx) = build(config(), 4096);
    let _ = push_const(&mut tx, 32, 0.7, 0.7);

    let mut out = vec![9.99_f32; 32 * 8];
    render(&mut src, &mut out, 1.0, 8, 4);

    for frame in 0..32 {
        for ch in [0, 1, 2, 3, 6, 7] {
            let v = out[frame * 8 + ch];
            assert!(
                (v - 9.99).abs() < 1e-6,
                "frame {frame} ch {ch} touched: {v}"
            );
        }
        assert!(
            (out[frame * 8 + 4] - 10.69).abs() < 1e-4,
            "frame {frame} ch4 = {}",
            out[frame * 8 + 4]
        );
        assert!(
            (out[frame * 8 + 5] - 10.69).abs() < 1e-4,
            "frame {frame} ch5 = {}",
            out[frame * 8 + 5]
        );
    }
}

#[test]
fn thru_gain_scales_output() {
    let (mut src, mut tx) = build(config(), 4096);
    let _ = push_const(&mut tx, 64, 1.0, 1.0);
    let mut out = zeros(64);
    render(&mut src, &mut out, 0.5, 2, 0);
    for i in 0..64 {
        assert!(
            (out[i * 2] - 0.5).abs() < 1e-6,
            "frame {i}: out_l = {} expected 0.5",
            out[i * 2]
        );
        assert!(
            (out[i * 2 + 1] - 0.5).abs() < 1e-6,
            "frame {i}: out_r = {} expected 0.5",
            out[i * 2 + 1]
        );
    }
}

#[test]
fn empty_ring_renders_silence_additively() {
    let (mut src, _tx) = build(config(), 4096);
    let mut out = vec![0.5_f32; 64 * 2];
    render(&mut src, &mut out, 1.0, 2, 0);
    for s in &out {
        assert!(
            (s - 0.5).abs() < 1e-9,
            "expected 0.5 (underrun adds 0.0), got {s}"
        );
    }
}

#[test]
fn partial_underrun_renders_received_then_silence() {
    let (mut src, mut tx) = build(config(), 4096);
    let _ = push_const(&mut tx, 16, 0.3, -0.3);
    let mut out = vec![1.0_f32; 64 * 2];
    render(&mut src, &mut out, 1.0, 2, 0);
    for i in 0..16 {
        assert!(
            (out[i * 2] - 1.3).abs() < 1e-5,
            "frame {i} L = {}",
            out[i * 2]
        );
        assert!(
            (out[i * 2 + 1] - 0.7).abs() < 1e-5,
            "frame {i} R = {}",
            out[i * 2 + 1]
        );
    }
    for i in 16..64 {
        assert!(
            (out[i * 2] - 1.0).abs() < 1e-9,
            "frame {i} L = {}",
            out[i * 2]
        );
        assert!(
            (out[i * 2 + 1] - 1.0).abs() < 1e-9,
            "frame {i} R = {}",
            out[i * 2 + 1]
        );
    }
}

#[test]
fn render_is_alloc_free() {
    let (mut src, mut tx) = build(config(), 4096);
    let _ = push_const(&mut tx, 1024, 0.3, 0.4);
    let mut out = vec![s(0.0); 512];
    assert_no_alloc(|| {
        src.render_into(&mut out, s(1.0), 2, 0);
    });
}

#[test]
fn empty_ring_render_is_alloc_free() {
    let (mut src, _tx) = build(config(), 4096);
    let mut out = vec![s(0.0); 512];
    assert_no_alloc(|| {
        src.render_into(&mut out, s(1.0), 2, 0);
    });
}

#[test]
fn available_reports_buffered_samples() {
    let (src, mut tx) = build(config(), 4096);
    assert_eq!(src.available(), 0);
    let _ = push_const(&mut tx, 32, 0.1, 0.2);
    assert_eq!(src.available(), 64);
}

#[test]
fn fresh_thru_source_has_no_bpm_tee() {
    let (src, _tx) = build(config(), 4096);
    assert!(!src.has_bpm_tee());
}

#[test]
fn with_bpm_tee_attaches() {
    let (src, _tx) = build(config(), 4096);
    let (bpm_tx, _bpm_rx) = ring(4096);
    let src = src.with_bpm_tee(bpm_tx, 256);
    assert!(src.has_bpm_tee());
}

#[test]
fn bpm_tee_receives_mono_downmix_of_input() {
    let (src, mut tx) = build(config(), 4096);
    let (bpm_tx, mut bpm_rx) = ring(4096);
    let mut src = src.with_bpm_tee(bpm_tx, 256);

    let pushed = push_const(&mut tx, 128, 0.4, -0.2);
    assert_eq!(pushed, 256);

    let mut out = zeros(128);
    render(&mut src, &mut out, 1.0, 2, 0);

    let mut mono = [0.0f32; 128];
    let n = pop(&mut bpm_rx, &mut mono);
    assert_eq!(n, 128, "expected 128 mono samples in the tee, got {n}");
    for (i, &s) in mono.iter().enumerate() {
        assert!(
            (s - 0.10).abs() < 1e-6,
            "frame {i}: mono = {s}, expected 0.10"
        );
    }
}

#[test]
fn bpm_tee_unaffected_by_gain() {
    let (src, mut tx) = build(config(), 4096);
    let (bpm_tx, mut bpm_rx) = ring(4096);
    let mut src = src.with_bpm_tee(bpm_tx, 256);
    let _ = push_const(&mut tx, 64, 1.0, 1.0);

    let mut out = zeros(64);
    render(&mut src, &mut out, 0.5, 2, 0);

    for i in 0..64 {
        assert!(
            (out[i * 2] - 0.5).abs() < 1e-6,
            "out L {} != 0.5",
            out[i * 2]
        );
    }

    let mut mono = [0.0f32; 64];
    let n = pop(&mut bpm_rx, &mut mono);
    assert_eq!(n, 64);
    for (i, &s) in mono.iter().enumerate() {
        assert!(
            (s - 1.0).abs() < 1e-6,
            "frame {i}: tee = {s}, expected 1.0 (pre-gain)"
        );
    }
}

#[test]
fn bpm_tee_silently_drops_on_full_ring() {
    let (src, mut tx) = build(config(), 4096);
    let (bpm_tx, mut bpm_rx) = ring(16);
    let mut src = src.with_bpm_tee(bpm_tx, 256);
    let _ = push_const(&mut tx, 64, 0.5, 0.5);

    let mut out = zeros(64);
    render(&mut src, &mut out, 1.0, 2, 0);

    for i in 0..64 {
        assert!((out[i * 2] - 0.5).abs() < 1e-6);
    }

    let mut mono = [0.0f32; 64];
    let n = pop(&mut bpm_rx, &mut mono);
    assert!(
        n <= 16,
        "tee ring capacity 16 should cap reads at 16, got {n}"
    );
}

#[test]
fn bpm_tee_render_is_alloc_free() {
    let (src, mut tx) = build(config(), 4096);
    let (bpm_tx, _bpm_rx) = ring(4096);
    let mut src = src.with_bpm_tee(bpm_tx, 256);
    let _ = push_const(&mut tx, 256, 0.3, 0.4);

    let mut out = vec![s(0.0); 512];
    assert_no_alloc(|| {
        src.render_into(&mut out, s(1.0), 2, 0);
    });
}

#[test]
fn fresh_thru_source_has_no_peaks_tap() {
    let (src, _tx) = build(config(), 4096);
    assert!(!src.has_peaks_tap());
}

#[test]
fn with_peaks_tap_attaches() {
    let (src, _tx) = build(config(), 4096);
    let (peaks_tx, _peaks_rx) = ring(4096);
    let src = src.with_peaks_tap(peaks_tx);
    assert!(src.has_peaks_tap());
}

#[test]
fn peaks_tap_receives_mono_downmix() {
    let (src, mut tx) = build(config(), 4096);
    let (peaks_tx, mut peaks_rx) = ring(4096);
    let mut src = src.with_peaks_tap(peaks_tx);

    let _ = push_const(&mut tx, 128, 0.4, -0.2);
    let mut out = zeros(128);
    render(&mut src, &mut out, 1.0, 2, 0);

    let mut mono = [0.0f32; 128];
    let n = pop(&mut peaks_rx, &mut mono);
    assert_eq!(n, 128);
    for (i, &s) in mono.iter().enumerate() {
        assert!(
            (s - 0.10).abs() < 1e-6,
            "frame {i}: peaks_tap mono = {s}, expected 0.10"
        );
    }
}

#[test]
fn peaks_tap_unaffected_by_gain() {
    let (src, mut tx) = build(config(), 4096);
    let (peaks_tx, mut peaks_rx) = ring(4096);
    let mut src = src.with_peaks_tap(peaks_tx);
    let _ = push_const(&mut tx, 64, 1.0, 1.0);

    let mut out = zeros(64);
    render(&mut src, &mut out, 0.25, 2, 0);

    for i in 0..64 {
        assert!(
            (out[i * 2] - 0.25).abs() < 1e-6,
            "out L {} != 0.25",
            out[i * 2]
        );
    }

    let mut mono = [0.0f32; 64];
    let n = pop(&mut peaks_rx, &mut mono);
    assert_eq!(n, 64);
    for (i, &s) in mono.iter().enumerate() {
        assert!(
            (s - 1.0).abs() < 1e-6,
            "frame {i}: peaks_tap = {s}, expected 1.0 (pre-gain)"
        );
    }
}

#[test]
fn peaks_tap_silently_drops_on_full_ring() {
    let (src, mut tx) = build(config(), 4096);
    let (peaks_tx, mut peaks_rx) = ring(16);
    let mut src = src.with_peaks_tap(peaks_tx);
    let _ = push_const(&mut tx, 64, 0.5, 0.5);

    let mut out = zeros(64);
    render(&mut src, &mut out, 1.0, 2, 0);

    for i in 0..64 {
        assert!((out[i * 2] - 0.5).abs() < 1e-6);
    }

    let mut mono = [0.0f32; 64];
    let n = pop(&mut peaks_rx, &mut mono);
    assert!(
        n <= 16,
        "tap ring capacity 16 should cap reads at 16, got {n}"
    );
}

#[test]
fn peaks_tap_render_is_alloc_free() {
    let (src, mut tx) = build(config(), 4096);
    let (peaks_tx, _peaks_rx) = ring(4096);
    let mut src = src.with_peaks_tap(peaks_tx);
    let _ = push_const(&mut tx, 256, 0.3, 0.4);

    let mut out = vec![s(0.0); 512];
    assert_no_alloc(|| {
        src.render_into(&mut out, s(1.0), 2, 0);
    });
}

#[test]
fn peaks_tap_underrun_pushes_zeros() {
    let (src, _tx) = build(config(), 4096);
    let (peaks_tx, mut peaks_rx) = ring(4096);
    let mut src = src.with_peaks_tap(peaks_tx);

    let mut out = zeros(128);
    render(&mut src, &mut out, 1.0, 2, 0);

    let mut mono = [0.0f32; 128];
    let n = pop(&mut peaks_rx, &mut mono);
    assert_eq!(n, 128, "peaks tap should push zero-fill on underrun");
    for &s in &mono {
        assert!(s.abs() < 1e-9);
    }
}

#[test]
fn bpm_and_peaks_tap_both_receive_same_mono_downmix() {
    let (src, mut tx) = build(config(), 4096);
    let (bpm_tx, mut bpm_rx) = ring(4096);
    let (peaks_tx, mut peaks_rx) = ring(4096);
    let mut src = src.with_bpm_tee(bpm_tx, 256).with_peaks_tap(peaks_tx);
    assert!(src.has_bpm_tee());
    assert!(src.has_peaks_tap());

    let _ = push_const(&mut tx, 64, 0.6, 0.2);

    let mut out = zeros(64);
    render(&mut src, &mut out, 1.0, 2, 0);

    let mut bpm_mono = [0.0f32; 64];
    let mut peaks_mono = [0.0f32; 64];
    let nb = pop(&mut bpm_rx, &mut bpm_mono);
    let np = pop(&mut peaks_rx, &mut peaks_mono);
    assert_eq!(nb, 64);
    assert_eq!(np, 64);
    for i in 0..64 {
        assert!(
            (bpm_mono[i] - 0.4).abs() < 1e-6 && (peaks_mono[i] - 0.4).abs() < 1e-6,
            "frame {i}: bpm = {}, peaks = {}, expected both 0.4",
            bpm_mono[i],
            peaks_mono[i]
        );
        assert!(
            (bpm_mono[i] - peaks_mono[i]).abs() < 1e-9,
            "frame {i}: bpm and peaks taps must see identical mono samples"
        );
    }
}

#[test]
fn both_taps_render_is_alloc_free() {
    let (src, mut tx) = build(config(), 4096);
    let (bpm_tx, _bpm_rx) = ring(4096);
    let (peaks_tx, _peaks_rx) = ring(4096);
    let mut src = src.with_bpm_tee(bpm_tx, 256).with_peaks_tap(peaks_tx);
    let _ = push_const(&mut tx, 256, 0.3, 0.4);

    let mut out = vec![s(0.0); 512];
    assert_no_alloc(|| {
        src.render_into(&mut out, s(1.0), 2, 0);
    });
}

#[test]
fn bpm_tee_underrun_pushes_zeros() {
    let (src, _tx) = build(config(), 4096);
    let (bpm_tx, mut bpm_rx) = ring(4096);
    let mut src = src.with_bpm_tee(bpm_tx, 256);

    let mut out = zeros(128);
    render(&mut src, &mut out, 1.0, 2, 0);

    let mut mono = [0.0f32; 128];
    let n = pop(&mut bpm_rx, &mut mono);
    assert_eq!(n, 128, "tee should push zero-fill on underrun");
    for &s in &mono {
        assert!(s.abs() < 1e-9, "underrun frame {s} should be 0");
    }
}

#[test]
fn default_config() {
    let cfg = ThruInputConfig::default();
    assert_eq!(cfg.max_block_frames, 1024);
    assert_eq!(f(cfg.input_sample_rate), 48_000.0);
    assert!(cfg.validate(s(48_000.0)).is_ok());
    assert_eq!(
        cfg.validate(s(44_100.0)),
        Err(ThruAttachError::SampleRateMismatch {
            input_sr: s(48_000.0),
            engine_sr: s(44_100.0),
        })
    );
}

#[test]
fn odd_sample_at_the_end_is_left_out() {
    let (mut src, mut tx) = build(config(), 64);
    for x in [1.0, 2.0, 3.0] {
        assert!(tx.try_push(s(x)).is_ok());
    }
    let mut out = vec![0.0f32; 8];
    render(&mut src, &mut out, 1.0, 2, 0);
    assert_eq!(out, vec![1.0, 2.0, 0.0, 0.0, 0.0, 0.0, 0.0, 0.0]);
    assert_eq!(src.available(), 0);
}

#[test]
fn longer_blocks_than_configured_end_in_silence() {
    let cfg = ThruInputConfig { max_block_frames: 2, input_sample_rate: s(SR) };
    let (mut src, mut tx) = build(cfg, 64);
    assert_eq!(push_const(&mut tx, 4, 1.0, 2.0), 8);
    let mut out = vec![0.0f32; 8];
    render(&mut src, &mut out, 1.0, 2, 0);
    assert_eq!(out, vec![1.0, 2.0, 1.0, 2.0, 0.0, 0.0, 0.0, 0.0]);
    assert_eq!(src.available(), 4);
}

#[test]
fn validate_refuses_what_is_not_a_number() {
    let cfg = ThruInputConfig { input_sample_rate: s(f32::NAN), ..config() };
    assert!(matches!(cfg.validate(s(SR)), Err(ThruAttachError::SampleRateMismatch { .. })));
    assert!(matches!(
        config().validate(s(f32::NAN)),
        Err(ThruAttachError::SampleRateMismatch { .. })
    ));
}
