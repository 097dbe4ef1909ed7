//! When a deck follows its timecode and when it lets go.

use dub::ieee::double::Double;
use dub::ieee::single::Single;
use dub::timecode::decoder::DecodeOutput;
use dub::timecode::format::Format;
use dub::timecode::lift::AttachError;
use dub::timecode::lift::LiftIntent;
use dub::timecode::lift::LiftPolicy;
use dub::timecode::lift::TimecodeInputConfig;

fn s(x: f32) -> Single {
    Single { bits: x.to_bits() }
}

fn d(x: f64) -> Double {
    Double { bits: x.to_bits() }
}

fn fd(x: Double) -> f64 {
    f64::from_bits(x.bits)
}

fn make(engage: f32, disengage: f32, sticky: u32) -> LiftPolicy {
    LiftPolicy::new(&TimecodeInputConfig {
        format: Format::SeratoCv02,
        input_sample_rate: s(48_000.0),
        max_block_frames: 64,
        confidence_threshold: s(engage),
        disengage_threshold: s(disengage),
        sticky_blocks_to_disengage: sticky,
        amplitude_threshold: s(0.01),
    })
}

fn out(rate: f64, confidence: f32) -> DecodeOutput {
    out_with_amp(rate, confidence, 0.5)
}

fn out_with_amp(rate: f64, confidence: f32, amplitude: f32) -> DecodeOutput {
    DecodeOutput {
        rate: d(rate),
        position_secs: d(0.0),
        amplitude: s(amplitude),
        confidence: s(confidence),
    }
}

#[test]
fn engages_only_at_or_above_engage_threshold() {
    let mut p = make(0.8, 0.5, 4);
    let i = p.step(out(1.0, 0.79));
    assert!(matches!(i, LiftIntent::DropoutHoldRate { .. }));
    let i = p.step(out(1.0, 0.80));
    assert!(matches!(i, LiftIntent::Locked { rate } if (fd(rate) - 1.0).abs() < 1e-9));
}

#[test]
fn sticky_window_holds_deck_during_brief_dropouts() {
    let mut p = make(0.8, 0.5, 4);
    assert!(matches!(p.step(out(1.0, 0.95)), LiftIntent::Locked { .. }));
    for _ in 0..3 {
        match p.step(out(0.0, 0.0)) {
            LiftIntent::Locked { rate } => assert!((fd(rate) - 1.0).abs() < 1e-9),
            LiftIntent::DropoutHoldRate { .. } => panic!("disengaged inside sticky window"),
        }
    }
}

#[test]
fn disengages_exactly_after_sticky_window() {
    let mut p = make(0.8, 0.5, 4);
    p.step(out(1.0, 0.95));
    for _ in 0..3 {
        assert!(matches!(p.step(out(0.0, 0.0)), LiftIntent::Locked { .. }));
    }
    let i = p.step(out(0.0, 0.0));
    assert!(matches!(i, LiftIntent::DropoutHoldRate { rate } if (fd(rate) - 1.0).abs() < 1e-9));
    let i = p.step(out(0.0, 0.0));
    assert!(matches!(i, LiftIntent::DropoutHoldRate { .. }));
}

#[test]
fn lukewarm_band_holds_rate_but_keeps_engaged() {
    let mut p = make(0.8, 0.5, 4);
    p.step(out(1.0, 0.95));
    for _ in 0..3 {
        p.step(out(0.0, 0.0));
    }
    match p.step(out(0.5, 0.6)) {
        LiftIntent::Locked { rate } => assert!((fd(rate) - 1.0).abs() < 1e-9),
        LiftIntent::DropoutHoldRate { .. } => panic!("disengaged in lukewarm band"),
    }
    for _ in 0..3 {
        assert!(matches!(p.step(out(0.0, 0.0)), LiftIntent::Locked { .. }));
    }
    assert!(matches!(
        p.step(out(0.0, 0.0)),
        LiftIntent::DropoutHoldRate { .. }
    ));
}

#[test]
fn lukewarm_does_not_re_engage_from_disengaged() {
    let mut p = make(0.8, 0.5, 1);
    p.step(out(1.0, 0.95));
    p.step(out(0.0, 0.0));
    let i = p.step(out(1.0, 0.7));
    assert!(
        matches!(i, LiftIntent::DropoutHoldRate { .. }),
        "lukewarm shouldn't re-engage; got {i:?}"
    );
    let i = p.step(out(1.0, 0.85));
    assert!(matches!(i, LiftIntent::Locked { .. }));
}

#[test]
fn engaged_full_lock_resets_sticky_countdown() {
    let mut p = make(0.8, 0.5, 4);
    p.step(out(1.0, 0.95));
    for _ in 0..3 {
        p.step(out(0.0, 0.0));
    }
    p.step(out(1.2, 0.95));
    for _ in 0..3 {
        assert!(matches!(p.step(out(0.0, 0.0)), LiftIntent::Locked { .. }));
    }
    assert!(matches!(
        p.step(out(0.0, 0.0)),
        LiftIntent::DropoutHoldRate { rate } if (fd(rate) - 1.2).abs() < 1e-9
    ));
}

#[test]
fn config_validate_rejects_inverted_hysteresis() {
    let cfg = TimecodeInputConfig {
        confidence_threshold: s(0.5),
        disengage_threshold: s(0.8),
        ..TimecodeInputConfig::default()
    };
    let err = cfg.validate(s(48_000.0)).unwrap_err();
    assert!(matches!(err, AttachError::InvalidHysteresis { .. }));
}

#[test]
fn lift_with_lukewarm_noise_disengages_via_amplitude_gate() {
    let mut p = make(0.8, 0.5, 4);
    p.step(out_with_amp(1.0, 0.95, 0.5));
    for _ in 0..3 {
        match p.step(out_with_amp(0.0, 0.7, 0.001)) {
            LiftIntent::Locked { rate } => assert!((fd(rate) - 1.0).abs() < 1e-9),
            LiftIntent::DropoutHoldRate { .. } => panic!("disengaged inside sticky window"),
        }
    }
    let i = p.step(out_with_amp(0.0, 0.7, 0.001));
    assert!(
        matches!(i, LiftIntent::DropoutHoldRate { .. }),
        "amplitude gate should disengage even with lukewarm confidence; got {i:?}"
    );
}

#[test]
fn quiet_high_confidence_does_not_re_engage() {
    let mut p = make(0.8, 0.5, 1);
    p.step(out_with_amp(1.0, 0.95, 0.5));
    p.step(out_with_amp(0.0, 0.0, 0.001));
    let i = p.step(out_with_amp(1.0, 0.95, 0.001));
    assert!(
        matches!(i, LiftIntent::DropoutHoldRate { .. }),
        "quiet block must not re-engage even with high confidence; got {i:?}"
    );
    let i = p.step(out_with_amp(1.0, 0.95, 0.5));
    assert!(matches!(i, LiftIntent::Locked { .. }));
}

#[test]
fn amplitude_gate_disabled_at_zero_threshold() {
    let mut p = LiftPolicy::new(&TimecodeInputConfig {
        format: Format::SeratoCv02,
        input_sample_rate: s(48_000.0),
        max_block_frames: 64,
        confidence_threshold: s(0.8),
        disengage_threshold: s(0.5),
        sticky_blocks_to_disengage: 1,
        amplitude_threshold: s(0.0),
    });
    let i = p.step(out_with_amp(1.0, 0.95, 0.0));
    assert!(matches!(i, LiftIntent::Locked { .. }));
}

#[test]
fn accessors_track_state_machine() {
    let mut p = make(0.8, 0.5, 3);
    assert!(!p.is_engaged());
    assert_eq!(p.consecutive_below(), 0);
    assert!((fd(p.last_locked_rate()) - 0.0).abs() < 1e-12);

    p.step(out(1.5, 0.95));
    assert!(p.is_engaged());
    assert_eq!(p.consecutive_below(), 0);
    assert!((fd(p.last_locked_rate()) - 1.5).abs() < 1e-9);

    p.step(out(0.0, 0.0));
    assert!(p.is_engaged());
    assert_eq!(p.consecutive_below(), 1);

    p.step(out(0.0, 0.0));
    assert_eq!(p.consecutive_below(), 2);

    p.step(out(0.0, 0.0));
    assert!(!p.is_engaged(), "sticky=3 should disengage on 3rd block");
}

#[test]
fn config_validate_rejects_negative_amplitude_threshold() {
    let cfg = TimecodeInputConfig {
        amplitude_threshold: s(-0.001),
        ..TimecodeInputConfig::default()
    };
    let err = cfg.validate(s(48_000.0)).unwrap_err();
    assert!(matches!(err, AttachError::InvalidAmplitudeThreshold { .. }));
}

#[test]
fn config_faults() {
    let good = TimecodeInputConfig::default();
    assert!(good.validate(s(48_000.0)).is_ok());
    assert_eq!(
        good.validate(s(44_100.0)),
        Err(AttachError::SampleRateMismatch { input_sr: s(48_000.0), engine_sr: s(44_100.0) })
    );
    let empty = TimecodeInputConfig { max_block_frames: 0, ..good };
    assert_eq!(empty.validate(s(48_000.0)), Err(AttachError::BadBlockSize));
    assert!(good.validate(s(48_000.5)).is_ok());
    assert!(good.validate(s(48_000.504)).is_err());
}

#[test]
fn config_refuses_what_is_not_a_number() {
    let good = TimecodeInputConfig::default();
    let nan = s(f32::NAN);
    assert!(matches!(good.validate(nan), Err(AttachError::SampleRateMismatch { .. })));
    let rate = TimecodeInputConfig { input_sample_rate: nan, ..good };
    assert!(matches!(
        rate.validate(s(48_000.0)),
        Err(AttachError::SampleRateMismatch { .. })
    ));
    let infinite = TimecodeInputConfig { input_sample_rate: s(f32::INFINITY), ..good };
    assert!(infinite.validate(s(f32::INFINITY)).is_err());
    let lower = TimecodeInputConfig { disengage_threshold: nan, ..good };
    assert!(matches!(
        lower.validate(s(48_000.0)),
        Err(AttachError::InvalidHysteresis { .. })
    ));
    let upper = TimecodeInputConfig { confidence_threshold: nan, ..good };
    assert!(matches!(
        upper.validate(s(48_000.0)),
        Err(AttachError::InvalidHysteresis { .. })
    ));
    let floor = TimecodeInputConfig { amplitude_threshold: nan, ..good };
    assert!(matches!(
        floor.validate(s(48_000.0)),
        Err(AttachError::InvalidAmplitudeThreshold { .. })
    ));
}

#[test]
fn disengage_waits_for_the_next_lock() {
    let mut p = make(0.8, 0.5, 4);
    p.step(out(1.25, 0.95));
    p.disengage();
    assert!(!p.is_engaged());
    assert_eq!(fd(p.last_locked_rate()), 1.25);
    match p.step(out(0.5, 0.6)) {
        LiftIntent::DropoutHoldRate { rate } => assert_eq!(fd(rate), 1.25),
        LiftIntent::Locked { .. } => panic!("engaged without a lock"),
    }
    assert!(matches!(p.step(out(0.5, 0.9)), LiftIntent::Locked { .. }));
}
