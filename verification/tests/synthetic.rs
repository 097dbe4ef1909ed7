//! Test signals.

use dub::ieee::single::Single;
use dub::peaks::synthetic::bursts;
use dub::peaks::synthetic::constant;
use dub::peaks::synthetic::saw_ramp;

fn s(x: f32) -> Single {
    Single { bits: x.to_bits() }
}

fn heard(x: Vec<Single>) -> Vec<f32> {
    x.iter().map(|v| f32::from_bits(v.bits)).collect()
}

#[test]
fn constant_is_constant() {
    let v = heard(constant(s(0.5), 100));
    assert_eq!(v.len(), 100);
    for v in v {
        assert!((v - 0.5).abs() < 1e-6);
    }
}

#[test]
fn saw_ramp_endpoints_and_monotonic() {
    let v = heard(saw_ramp(s(1.0), 100));
    assert_eq!(v.len(), 100);
    assert_eq!(v[0], 0.0);
    assert!((v[99] - 0.99).abs() < 1e-6);
    for w in v.windows(2) {
        assert!(w[1] >= w[0]);
    }
}

#[test]
fn bursts_have_correct_layout() {
    let v = heard(bursts(s(0.5), 2, 4, 3));
    assert_eq!(v.len(), 18);
    assert_eq!(v[0], 0.5);
    assert_eq!(v[1], 0.5);
    assert_eq!(v[2], 0.0);
    assert_eq!(v[5], 0.0);
    assert_eq!(v[6], 0.5);
}

#[test]
fn bursts_empty_for_zero_bursts() {
    assert!(bursts(s(0.5), 4, 4, 0).is_empty());
}
