//! The weights of the crossfade.

use dub::engine::declick::DeclickEnvelope;
use dub::engine::declick::MIN_RAMP_SAMPLES;
use dub::ieee::single::Single;

fn s(x: f32) -> Single {
    Single { bits: x.to_bits() }
}

fn f(x: Single) -> f32 {
    f32::from_bits(x.bits)
}

fn sine(x: Single) -> Single {
    s(f(x).sin())
}

#[test]
fn envelope_length_matches_ms_at_48k() {
    let env = DeclickEnvelope::new(s(48_000.0), s(2.0), &sine);
    assert_eq!(env.len(), 96);
}

#[test]
fn envelope_length_matches_ms_at_44k() {
    let env = DeclickEnvelope::new(s(44_100.0), s(2.0), &sine);
    assert_eq!(env.len(), 88);
}

#[test]
fn envelope_endpoints_are_correct() {
    let env = DeclickEnvelope::new(s(48_000.0), s(2.0), &sine);
    assert!(f(env.fade_in(0)) < 1e-6);
    assert!((f(env.fade_out(0)) - 1.0).abs() < 1e-6);
    let last = f(env.fade_in(env.len() - 1));
    assert!(last > 0.99, "last fade_in was {last}");
    assert!(last < 1.0);
}

#[test]
fn envelope_is_equal_power() {
    let env = DeclickEnvelope::new(s(48_000.0), s(2.0), &sine);
    for i in 0..env.len() {
        let sum = f(env.fade_in(i)) + f(env.fade_out(i));
        assert!((sum - 1.0).abs() < 1e-6, "i={i}: sum={sum}");
    }
}

#[test]
fn envelope_is_monotonically_increasing() {
    let env = DeclickEnvelope::new(s(48_000.0), s(2.0), &sine);
    let mut prev = -1.0;
    for i in 0..env.len() {
        let v = f(env.fade_in(i));
        assert!(v >= prev, "i={i}: {v} < {prev}");
        prev = v;
    }
}

#[test]
fn envelope_clamps_to_minimum_length() {
    let env = DeclickEnvelope::new(s(1.0), s(2.0), &sine);
    assert!(env.len() as usize >= MIN_RAMP_SAMPLES);
}

#[test]
fn weights_past_the_ramp() {
    let env = DeclickEnvelope::new(s(48_000.0), s(2.0), &sine);
    assert!(!env.is_empty());
    assert_eq!(f(env.fade_in(env.len())), 1.0);
    assert_eq!(f(env.fade_out(env.len())), 0.0);
    assert_eq!(f(env.fade_in(u32::MAX)), 1.0);
}

#[test]
fn weights_are_squared_sines() {
    let env = DeclickEnvelope::new(s(48_000.0), s(2.0), &sine);
    for i in 0..96u32 {
        let x = (i as f32 / 96.0 * core::f32::consts::FRAC_PI_2).sin();
        assert_eq!(f(env.fade_in(i)), x * x);
    }
}

#[test]
fn weights_add_up_to_one() {
    for ms in [2.0, 5.0, 11.3] {
        let env = DeclickEnvelope::new(s(44_100.0), s(ms), &sine);
        assert_eq!(f(env.fade_in(0)), 0.0);
        for i in 0..env.len() + 2 {
            assert_eq!(f(env.fade_in(i)) + f(env.fade_out(i)), 1.0, "sample {i}");
            assert!(f(env.fade_in(i)) <= f(env.fade_in(i + 1)), "sample {i}");
        }
    }
}
