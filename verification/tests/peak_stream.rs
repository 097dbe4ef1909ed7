//! Peak streams: their configuration, and the chunks of what they receive.

use dub::engine::ring::can_hold;
use dub::engine::ring::ring;
use dub::engine::ring::Receiver;
use dub::ieee::single::Single;
use dub::peaks::buffer::PeakBuffer;
use dub::peaks::chunk::BAND_SAMPLES_PER_CHUNK;
use dub::peaks::chunk::DEFAULT_BUFFER_CAPACITY_SECS;
use dub::peaks::chunk::DEFAULT_SAMPLES_PER_CHUNK;
use dub::peaks::stream::PeakStreamConfig;
use dub::peaks::stream::PeakStreamError;
use dub::peaks::worker::NextPoll;
use dub::peaks::worker::PeakWorker;
use dub::peaks::worker::DRAIN_BLOCK_SAMPLES;
use realfft::RealFftPlanner;

fn s(x: f32) -> Single {
    Single { bits: x.to_bits() }
}

fn f(x: Single) -> f32 {
    f32::from_bits(x.bits)
}

fn cos(x: Single) -> Single {
    s(f(x).cos())
}

fn ln(x: Single) -> Single {
    s(f(x).ln())
}

fn spectrum() -> impl Fn(&[Single]) -> Vec<Single> {
    let plan = RealFftPlanner::<f32>::new().plan_fft_forward(1024);
    move |frame: &[Single]| {
        let mut input: Vec<f32> = frame.iter().map(|x| f(*x)).collect();
        let mut output = plan.make_output_vec();
        plan.process(&mut input, &mut output).expect("a frame of the planned size");
        output.iter().map(|c| s(c.norm())).collect()
    }
}

struct Capture {
    worker: PeakWorker,
    buffer: PeakBuffer,
}

impl Capture {
    fn start(rx: Receiver<Single>, cfg: PeakStreamConfig) -> Result<Self, PeakStreamError> {
        let (worker, buffer) = PeakWorker::new(rx, cfg, &cos)?;
        Ok(Capture { worker, buffer })
    }

    fn poll(&mut self, shut_down: bool) -> NextPoll {
        self.worker.poll(shut_down, &spectrum(), &ln, &mut self.buffer)
    }

    fn catch_up(&mut self) -> NextPoll {
        loop {
            let next = self.poll(false);
            if next != NextPoll::Again {
                return next;
            }
        }
    }
}

fn plain_config() -> PeakStreamConfig {
    PeakStreamConfig {
        sample_rate: 48_000,
        samples_per_chunk: 64,
        buffer_capacity_secs: 1,
        bands_enabled: false,
    }
}

#[test]
fn zero_sample_rate_rejected() {
    let (_tx, rx) = ring::<Single>(64);
    let cfg = PeakStreamConfig {
        sample_rate: 0,
        samples_per_chunk: 64,
        buffer_capacity_secs: 1,
        bands_enabled: false,
    };
    assert!(matches!(
        Capture::start(rx, cfg),
        Err(PeakStreamError::InvalidSampleRate)
    ));
}

#[test]
fn zero_chunk_size_rejected() {
    let (_tx, rx) = ring::<Single>(64);
    let cfg = PeakStreamConfig {
        sample_rate: 48_000,
        samples_per_chunk: 0,
        buffer_capacity_secs: 1,
        bands_enabled: false,
    };
    assert!(matches!(
        Capture::start(rx, cfg),
        Err(PeakStreamError::InvalidChunkSize)
    ));
}

#[test]
fn config_at_uses_defaults() {
    let cfg = PeakStreamConfig::at(48_000);
    assert_eq!(cfg.samples_per_chunk, DEFAULT_SAMPLES_PER_CHUNK);
    assert_eq!(cfg.buffer_capacity_secs, DEFAULT_BUFFER_CAPACITY_SECS);
    assert!(cfg.bands_enabled, "bands on by default");
}

#[test]
fn samples_pushed_become_chunks_in_buffer() {
    let (mut tx, rx) = ring(1024);
    let mut stream = Capture::start(rx, plain_config()).expect("spawn");

    let buf = vec![s(0.3); 256];
    let n = tx.push_slice(&buf);
    assert_eq!(n, 256);

    stream.catch_up();
    assert!(stream.buffer.len() >= 4, "expected >=4 chunks, got {}", stream.buffer.len());

    let snap = stream.buffer.snapshot();
    for c in &snap.chunks[..4] {
        assert!((f(c.min) - 0.3).abs() < 1e-6, "min = {}", f(c.min));
        assert!((f(c.max) - 0.3).abs() < 1e-6, "max = {}", f(c.max));
        assert!((f(c.rms) - 0.3).abs() < 1e-6, "rms = {}", f(c.rms));
    }
}

#[test]
fn incremental_reader_streams_chunks() {
    let (mut tx, rx) = ring(2048);
    let mut stream = Capture::start(rx, plain_config()).expect("spawn");

    let buf = vec![s(0.1); 64 * 8];
    let mut remaining = &buf[..];
    while !remaining.is_empty() {
        let n = tx.push_slice(remaining);
        remaining = &remaining[n..];
    }

    let mut mirror = Vec::new();
    let mut start = 0usize;
    while mirror.len() < 8 {
        stream.poll(false);
        start = stream.buffer.extend_chunks(start, &mut mirror);
    }
    assert_eq!(start, 8);
}

#[test]
fn dropping_producer_terminates_thread() {
    let (tx, rx) = ring::<Single>(64);
    let mut stream = Capture::start(rx, PeakStreamConfig::at(48_000)).expect("spawn");
    assert_eq!(stream.catch_up(), NextPoll::Wait);
    drop(tx);
    assert_eq!(stream.catch_up(), NextPoll::Stop);
}

#[test]
fn what_was_sent_before_the_end_is_captured() {
    let (mut tx, rx) = ring(1024);
    let mut stream = Capture::start(rx, plain_config()).expect("spawn");
    assert_eq!(tx.push_slice(&[s(0.25); 128]), 128);
    drop(tx);
    assert_eq!(stream.poll(false), NextPoll::Again);
    assert_eq!(stream.poll(false), NextPoll::Stop);
    assert_eq!(stream.buffer.len(), 2);
}

#[test]
fn explicit_shutdown_joins_promptly() {
    let (_tx, rx) = ring::<Single>(64);
    let mut stream = Capture::start(rx, PeakStreamConfig::at(48_000)).expect("spawn");
    assert_eq!(stream.poll(true), NextPoll::Stop);
}

#[test]
fn silence_pushes_zero_chunks_through() {
    let (mut tx, rx) = ring(1024);
    let mut stream = Capture::start(rx, PeakStreamConfig::at(48_000)).expect("spawn");
    let buf = vec![s(0.0); 256];
    let _ = tx.push_slice(&buf);
    stream.catch_up();
    assert!(stream.buffer.len() >= 4);
    let snap = stream.buffer.snapshot();
    for c in &snap.chunks[..4] {
        assert_eq!(f(c.min), 0.0);
        assert_eq!(f(c.max), 0.0);
        assert_eq!(f(c.rms), 0.0);
    }
}

#[test]
fn bands_off_means_no_band_storage() {
    let (_tx, rx) = ring::<Single>(64);
    let stream = Capture::start(rx, plain_config()).expect("spawn");
    assert!(stream.worker.samples_per_band_chunk().is_none());
    assert_eq!(stream.buffer.band_len(), 0);
    assert!(!stream.buffer.has_bands());
}

#[test]
fn bands_on_produces_band_chunks() {
    let (mut tx, rx) = ring(8192);
    let cfg = PeakStreamConfig::at(48_000);
    assert!(cfg.bands_enabled);
    let mut stream = Capture::start(rx, cfg).expect("spawn");
    assert_eq!(
        stream.worker.samples_per_band_chunk(),
        Some(BAND_SAMPLES_PER_CHUNK)
    );
    assert!(stream.buffer.has_bands());

    let buf = vec![s(0.5); 4096];
    let n = tx.push_slice(&buf);
    assert_eq!(n, 4096);

    stream.catch_up();
    assert!(
        stream.buffer.band_len() >= 4,
        "expected >=4 band chunks, got {}",
        stream.buffer.band_len()
    );
}

#[test]
fn bands_on_keeps_broadband_capture_intact() {
    let (mut tx, rx) = ring(2048);
    let cfg = PeakStreamConfig::at(48_000);
    let mut stream = Capture::start(rx, cfg).expect("spawn");

    let buf = vec![s(0.3); 256];
    let n = tx.push_slice(&buf);
    assert_eq!(n, 256);

    stream.catch_up();
    assert!(stream.buffer.len() >= 4, "broadband: expected >=4 chunks, got {}", stream.buffer.len());

    let snap = stream.buffer.snapshot();
    for c in &snap.chunks[..4] {
        assert!((f(c.min) - 0.3).abs() < 1e-6);
        assert!((f(c.max) - 0.3).abs() < 1e-6);
        assert!((f(c.rms) - 0.3).abs() < 1e-6);
    }
}

#[test]
fn buffer_handle_outlives_explicit_shutdown() {
    let (mut tx, rx) = ring(1024);
    let mut stream = Capture::start(rx, PeakStreamConfig::at(48_000)).expect("spawn");
    let buf = vec![s(0.5); 256];
    let _ = tx.push_slice(&buf);
    stream.catch_up();
    assert!(stream.buffer.len() >= 4);
    assert_eq!(stream.poll(true), NextPoll::Stop);
    let handle = stream.buffer;
    drop(stream.worker);
    assert!(handle.len() >= 4);
    let snap = handle.snapshot();
    assert!(snap.len() >= 4);
}

#[test]
fn one_poll_takes_at_most_one_block() {
    let (mut tx, rx) = ring(3 * DRAIN_BLOCK_SAMPLES);
    let mut stream = Capture::start(rx, plain_config()).expect("spawn");
    let buf = vec![s(0.5); DRAIN_BLOCK_SAMPLES + 64];
    assert_eq!(tx.push_slice(&buf), DRAIN_BLOCK_SAMPLES + 64);
    assert_eq!(stream.poll(false), NextPoll::Again);
    assert_eq!(stream.buffer.len(), DRAIN_BLOCK_SAMPLES / 64);
    assert_eq!(stream.poll(false), NextPoll::Again);
    assert_eq!(stream.buffer.len(), DRAIN_BLOCK_SAMPLES / 64 + 1);
    assert_eq!(stream.poll(false), NextPoll::Wait);
    assert_eq!(stream.worker.samples_per_chunk(), 64);
}

#[test]
fn a_ring_hands_on_what_it_took_in_order() {
    let (mut tx, mut rx) = ring(4);
    assert_eq!(rx.try_pop(), None);
    assert_eq!(tx.try_push(1u32), Ok(()));
    assert_eq!(tx.push_slice(&[2, 3, 4, 5]), 3);
    assert_eq!(tx.try_push(6), Err(6));
    assert_eq!(rx.occupied_len(), 4);
    assert_eq!(rx.try_pop(), Some(1));
    let mut got = [0u32; 4];
    assert_eq!(rx.pop_slice(&mut got), 3);
    assert_eq!(got, [2, 3, 4, 0]);
    assert!(rx.is_connected());
    drop(tx);
    assert!(!rx.is_connected());
}

#[test]
fn rings_that_cannot_be_made() {
    assert!(can_hold::<u32>(4));
    assert!(!can_hold::<u32>(0));
    assert!(!can_hold::<u32>(usize::MAX));
    assert!(can_hold::<u64>(isize::MAX as usize / 8));
    assert!(!can_hold::<u64>(isize::MAX as usize / 8 + 1));
    assert!(can_hold::<()>(isize::MAX as usize / 2));
    assert!(!can_hold::<()>(isize::MAX as usize / 2 + 1));
}

#[test]
fn capacities() {
    let cfg = PeakStreamConfig::at(48_000);
    assert_eq!(cfg.initial_chunk_capacity(), 450_000);
    assert_eq!(cfg.initial_band_chunk_capacity(), 56_250);
    let huge = PeakStreamConfig {
        sample_rate: u32::MAX,
        samples_per_chunk: 0,
        buffer_capacity_secs: u64::MAX,
        bands_enabled: false,
    };
    assert_eq!(huge.initial_chunk_capacity(), usize::MAX);
    assert_eq!(huge.initial_band_chunk_capacity(), usize::MAX / 512);
}

#[test]
fn validation_names_the_first_fault() {
    let mut cfg = PeakStreamConfig::at(48_000);
    assert_eq!(cfg.validate(), Ok(()));
    cfg.samples_per_chunk = 0;
    assert_eq!(cfg.validate(), Err(PeakStreamError::InvalidChunkSize));
    cfg.sample_rate = 0;
    assert_eq!(cfg.validate(), Err(PeakStreamError::InvalidSampleRate));
}
