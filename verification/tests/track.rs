//! Tracks in memory.

use dub::ieee::double::Double;
use dub::ieee::single::Single;
use dub::track::Track;
use dub::VERSION;

fn s(x: f32) -> Single {
    Single { bits: x.to_bits() }
}

fn f(x: Single) -> f32 {
    f32::from_bits(x.bits)
}

fn singles(x: &[f32]) -> Vec<Single> {
    x.iter().map(|v| s(*v)).collect()
}

fn d(x: f64) -> Double {
    Double { bits: x.to_bits() }
}

fn fd(x: Double) -> f64 {
    f64::from_bits(x.bits)
}

#[test]
fn from_interleaved_constructs_stereo() {
    let track = Track::from_interleaved(singles(&[0.1, 0.2, 0.3, 0.4]), 48_000, 2).unwrap();
    assert_eq!(track.frames(), 2);
    assert_eq!(track.channels(), 2);
    assert_eq!(track.sample_rate(), 48_000);
    assert!((fd(track.duration_seconds()) - (2.0 / 48_000.0)).abs() < 1e-9);
}

#[test]
fn from_interleaved_constructs_mono() {
    let track = Track::from_interleaved(singles(&[0.1, 0.2, 0.3]), 44_100, 1).unwrap();
    assert_eq!(track.frames(), 3);
    assert_eq!(track.channels(), 1);
}

#[test]
fn from_interleaved_rejects_bad_layouts() {
    assert!(Track::from_interleaved(singles(&[0.1, 0.2, 0.3]), 48_000, 2).is_none());
    assert!(Track::from_interleaved(singles(&[]), 48_000, 2).is_none());
    assert!(Track::from_interleaved(singles(&[0.0; 6]), 48_000, 6).is_none());
    assert!(Track::from_interleaved(singles(&[0.1, 0.2]), 0, 2).is_none());
}

#[test]
fn frame_at_returns_silence_past_end() {
    let track = Track::from_interleaved(singles(&[0.5, -0.5]), 48_000, 2).unwrap();
    assert_eq!(track.frame(0).map(f), [0.5, -0.5]);
    assert_eq!(track.frame(1).map(f), [0.0, 0.0]);
    assert_eq!(track.frame(usize::MAX).map(f), [0.0, 0.0]);
}

#[test]
fn mono_frame_duplicates_to_stereo() {
    let track = Track::from_interleaved(singles(&[0.7, -0.3]), 48_000, 1).unwrap();
    assert_eq!(track.frame(0).map(f), [0.7, 0.7]);
    assert_eq!(track.frame(1).map(f), [-0.3, -0.3]);
}

#[test]
fn bpm_defaults_to_none() {
    let track = Track::from_interleaved(singles(&[0.1, 0.2]), 48_000, 2).unwrap();
    assert!(track.bpm().is_none());
}

#[test]
fn with_bpm_attaches_and_overrides() {
    let track = Track::from_interleaved(singles(&[0.1, 0.2]), 48_000, 2).unwrap();
    let with = track.clone().with_bpm(Some(d(128.0)));
    assert_eq!(with.bpm().map(fd), Some(128.0));
    assert!(track.bpm().is_none());

    let cleared = with.with_bpm(None);
    assert!(cleared.bpm().is_none());
}

#[test]
fn lib_version_is_nonempty() {
    assert!(!VERSION.is_empty());
}
