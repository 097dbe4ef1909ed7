//! Analysis of a whole track.

use dub::ieee::single::Single;
use dub::peaks::chunk::PeakChunk;
use dub::peaks::chunk::BAND_SAMPLES_PER_CHUNK;
use dub::peaks::chunk::DEFAULT_SAMPLES_PER_CHUNK;
use dub::peaks::decimator::Decimator;
use dub::peaks::offline::compute_offline_peaks;
use dub::peaks::offline::OfflinePeaks;
use dub::peaks::offline::OfflinePeaksError;
use realfft::RealFftPlanner;

fn s(x: f32) -> Single {
    Single { bits: x.to_bits() }
}

fn f(x: Single) -> f32 {
    f32::from_bits(x.bits)
}

fn singles(x: &[f32]) -> Vec<Single> {
    x.iter().map(|v| s(*v)).collect()
}

fn sin(x: Single) -> Single {
    s(f(x).sin())
}

fn cos(x: Single) -> Single {
    s(f(x).cos())
}

fn ln(x: Single) -> Single {
    s(f(x).ln())
}

fn spectrum() -> impl Fn(&[Single]) -> Vec<Single> {
    let plan = RealFftPlanner::<f32>::new().plan_fft_forward(1024);
    move |frame: &[Single]| {
        let mut input: Vec<f32> = frame.iter().map(|x| f(*x)).collect();
        let mut output = plan.make_output_vec();
        plan.process(&mut input, &mut output).expect("a frame of the planned size");
        output.iter().map(|c| s(c.norm())).collect()
    }
}

fn analyse(
    samples: &[f32],
    sample_rate: u32,
    channels: u8,
) -> Result<OfflinePeaks, OfflinePeaksError> {
    compute_offline_peaks(&singles(samples), sample_rate, channels, &sin, &cos, &spectrum(), &ln)
}

#[test]
fn rejects_zero_sample_rate() {
    let err = analyse(&[0.0f32; 64], 0, 1).unwrap_err();
    assert_eq!(err, OfflinePeaksError::InvalidSampleRate);
}

#[test]
fn rejects_unsupported_channels() {
    let err = analyse(&[0.0f32; 64], 48_000, 0).unwrap_err();
    assert_eq!(err, OfflinePeaksError::UnsupportedChannels(0));
    let err = analyse(&[0.0f32; 64], 48_000, 5).unwrap_err();
    assert_eq!(err, OfflinePeaksError::UnsupportedChannels(5));
}

#[test]
fn rejects_misaligned_stereo() {
    let err = analyse(&[0.0f32; 65], 48_000, 2).unwrap_err();
    assert_eq!(
        err,
        OfflinePeaksError::Misaligned {
            len: 65,
            channels: 2
        }
    );
}

#[test]
fn mono_silence_produces_zero_chunks() {
    let peaks = analyse(&[0.0f32; 64], 48_000, 1).unwrap();
    assert_eq!(peaks.broadband.len(), 1);
    assert_eq!(peaks.broadband[0], PeakChunk::zero());
    assert_eq!(peaks.sample_rate, 48_000);
    assert_eq!(peaks.samples_per_broadband_chunk, DEFAULT_SAMPLES_PER_CHUNK);
}

#[test]
fn mono_constant_signal_recovers_amplitude() {
    let peaks = analyse(&[0.5f32; 4_096], 48_000, 1).unwrap();
    assert_eq!(peaks.broadband.len(), 4_096 / DEFAULT_SAMPLES_PER_CHUNK);
    for chunk in &peaks.broadband {
        assert!(
            (f(chunk.rms) - 0.5).abs() < 1e-6,
            "rms should be ~0.5, got {}",
            f(chunk.rms)
        );
        assert!((f(chunk.max) - 0.5).abs() < 1e-6);
        assert!((f(chunk.min) - 0.5).abs() < 1e-6);
    }
}

#[test]
fn stereo_downmix_averages_l_and_r() {
    let stereo: Vec<f32> = (0..4_096).flat_map(|_| [1.0f32, -1.0f32]).collect();
    let peaks = analyse(&stereo, 48_000, 2).unwrap();
    assert_eq!(peaks.broadband.len(), 4_096 / DEFAULT_SAMPLES_PER_CHUNK);
    for chunk in &peaks.broadband {
        assert!(
            f(chunk.rms).abs() < 1e-6,
            "rms should be ~0, got {}",
            f(chunk.rms)
        );
        assert!(f(chunk.min).abs() < 1e-6);
        assert!(f(chunk.max).abs() < 1e-6);
    }
}

#[test]
fn stereo_l_only_recovers_half_amplitude() {
    let stereo: Vec<f32> = (0..4_096).flat_map(|_| [0.8f32, 0.0]).collect();
    let peaks = analyse(&stereo, 48_000, 2).unwrap();
    for chunk in &peaks.broadband {
        assert!(
            (f(chunk.rms) - 0.4).abs() < 1e-6,
            "expected rms ~0.4, got {}",
            f(chunk.rms)
        );
    }
}

#[test]
fn trailing_partial_chunk_is_flushed() {
    let peaks = analyse(&[1.0f32; 100], 48_000, 1).unwrap();
    assert_eq!(peaks.broadband.len(), 2);
    assert!((f(peaks.broadband[1].rms) - 1.0).abs() < 1e-6);
}

#[test]
fn offline_emits_onset_chunks_at_hop_cadence() {
    let peaks = analyse(&vec![0.1f32; 8_192], 48_000, 1).unwrap();
    assert_eq!(
        peaks.bands.len(),
        peaks.onset.len(),
        "bands and onset must share cadence"
    );
    for c in &peaks.onset {
        assert!(f(c.flux) >= 0.0, "onset flux must be non-negative");
    }
    assert_eq!(peaks.samples_per_onset_chunk, BAND_SAMPLES_PER_CHUNK);
}

#[test]
fn offline_silence_produces_zero_flux() {
    let peaks = analyse(&vec![0.0f32; 8_192], 48_000, 1).unwrap();
    for (i, c) in peaks.onset.iter().enumerate() {
        assert!(f(c.flux) < 1e-3, "silence onset {i}: {}", f(c.flux));
    }
}

#[test]
fn band_chunks_emitted_at_band_cadence() {
    let peaks = analyse(&vec![0.1f32; 8_192], 48_000, 1).unwrap();
    let max_possible = 8_192 / BAND_SAMPLES_PER_CHUNK;
    assert!(
        peaks.bands.len() >= max_possible - 4 && peaks.bands.len() <= max_possible,
        "expected ~{max_possible} band chunks (\u{00b1} FFT analysis-buffer prime), \
         got {}",
        peaks.bands.len()
    );
    for chunk in &peaks.bands {
        for &b in &chunk.rms_per_band {
            assert!(f(b) >= 0.0);
        }
    }
}

#[test]
fn capacity_avoids_reallocations_for_long_input() {
    let _peaks = analyse(&vec![0.0f32; 1_000_000], 48_000, 1).unwrap();
}

#[test]
fn chunk_durations_round_trip_back_to_sample_rate() {
    let peaks = analyse(&vec![0.0f32; 48_000], 48_000, 1).unwrap();
    let bb_dur = peaks.samples_per_broadband_chunk as f64 / f64::from(peaks.sample_rate);
    assert!((bb_dur - (64.0 / 48_000.0)).abs() < 1e-9);
}

#[test]
fn matches_streaming_decimator_kernel_for_mono_input() {
    let input: Vec<f32> = (0..4_096_i32)
        .map(|i| {
            let t = i as f32;
            (t * 0.01).sin()
        })
        .collect();

    let offline = analyse(&input, 48_000, 1).unwrap();

    let mut streaming = Vec::new();
    let mut d = Decimator::new(DEFAULT_SAMPLES_PER_CHUNK);
    d.feed(&singles(&input), &mut streaming);

    assert_eq!(
        offline.broadband, streaming,
        "offline must equal streaming kernel"
    );
}

fn assert_same(p: &OfflinePeaks, q: &OfflinePeaks) {
    assert_eq!(p.broadband, q.broadband);
    assert_eq!(p.bands, q.bands);
    assert_eq!(p.onset, q.onset);
    assert_eq!(p.filtered, q.filtered);
    assert_eq!(p.sample_rate, q.sample_rate);
}

#[test]
fn stereo_has_the_peaks_of_its_mix() {
    let stereo: Vec<f32> = (0..6000).map(|i| (i as f32 * i as f32 * 0.001).sin()).collect();
    let mix: Vec<f32> = stereo.chunks(2).map(|lr| 0.5 * (lr[0] + lr[1])).collect();
    let exchanged: Vec<f32> = stereo.chunks(2).flat_map(|lr| [lr[1], lr[0]]).collect();
    let p = analyse(&stereo, 44_100, 2).unwrap();
    assert!(!p.bands.is_empty());
    assert_same(&p, &analyse(&mix, 44_100, 1).unwrap());
    assert_same(&p, &analyse(&exchanged, 44_100, 2).unwrap());
}

#[test]
fn every_peak_is_a_number_at_low_rates() {
    let samples: Vec<f32> = (0..8192).map(|i| (i as f32 * 0.9).sin()).collect();
    let p = analyse(&samples, 8_000, 1).unwrap();
    assert!(!p.bands.is_empty());
    for chunk in &p.bands {
        for x in chunk.rms_per_band {
            assert!(f(x) >= 0.0 && f(x).is_finite());
        }
    }
    for chunk in &p.onset {
        assert!(f(chunk.flux) >= 0.0 && f(chunk.flux).is_finite());
    }
}
