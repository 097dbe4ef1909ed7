//! Test signals through a ring into captured chunks.

use dub::engine::ring::ring;
use dub::engine::ring::Receiver;
use dub::engine::ring::Sender;
use dub::ieee::single::Single;
use dub::peaks::buffer::PeakBuffer;
use dub::peaks::chunk::PeakChunk;
use dub::peaks::stream::PeakStreamConfig;
use dub::peaks::synthetic;
use dub::peaks::worker::NextPoll;
use dub::peaks::worker::PeakWorker;

const SR: u32 = 48_000;

fn s(x: f32) -> Single {
    Single { bits: x.to_bits() }
}

fn f(x: Single) -> f32 {
    f32::from_bits(x.bits)
}

fn unused(x: Single) -> Single {
    x
}

fn no_spectrum(_frame: &[Single]) -> Vec<Single> {
    vec![s(0.0); 513]
}

struct Capture {
    worker: PeakWorker,
    buffer: PeakBuffer,
}

impl Capture {
    fn start(rx: Receiver<Single>) -> Self {
        let cfg = PeakStreamConfig {
            sample_rate: SR,
            samples_per_chunk: 64,
            buffer_capacity_secs: 1,
            bands_enabled: false,
        };
        let (worker, buffer) = PeakWorker::new(rx, cfg, &unused).expect("spawn");
        Capture { worker, buffer }
    }

    fn poll(&mut self) -> NextPoll {
        self.worker.poll(false, &no_spectrum, &unused, &mut self.buffer)
    }

    fn catch_up(&mut self) {
        while self.poll() == NextPoll::Again {}
    }
}

fn push_all(tx: &mut Sender<Single>, stream: &mut Capture, mut samples: &[Single]) {
    while !samples.is_empty() {
        let n = tx.push_slice(samples);
        samples = &samples[n..];
        stream.catch_up();
    }
}

#[test]
fn constant_signal_yields_uniform_chunks() {
    let (mut tx, rx) = ring(4096);
    let mut stream = Capture::start(rx);

    let signal = synthetic::constant(s(0.7), 64 * 32);
    push_all(&mut tx, &mut stream, &signal);
    assert!(stream.buffer.len() >= 32, "expected >=32 chunks, got {}", stream.buffer.len());

    let snap = stream.buffer.snapshot();
    for (i, c) in snap.chunks[..32].iter().enumerate() {
        assert!((f(c.min) - 0.7).abs() < 1e-6, "chunk {i} min = {}", f(c.min));
        assert!((f(c.max) - 0.7).abs() < 1e-6, "chunk {i} max = {}", f(c.max));
        assert!((f(c.rms) - 0.7).abs() < 1e-6, "chunk {i} rms = {}", f(c.rms));
    }
}

#[test]
fn bursts_have_silent_chunks_between() {
    let (mut tx, rx) = ring(4096);
    let mut stream = Capture::start(rx);

    let signal = synthetic::bursts(s(0.5), 64, 64, 8);
    push_all(&mut tx, &mut stream, &signal);
    assert!(stream.buffer.len() >= 16, "expected >=16 chunks, got {}", stream.buffer.len());

    let snap = stream.buffer.snapshot();
    for i in 0..16 {
        let c = snap.chunks[i];
        if i % 2 == 0 {
            assert!((f(c.rms) - 0.5).abs() < 1e-6, "burst chunk {i} rms = {}", f(c.rms));
            assert!((f(c.max) - 0.5).abs() < 1e-6, "burst chunk {i} max = {}", f(c.max));
        } else {
            assert!(f(c.rms).abs() < 1e-9, "silent chunk {i} rms = {}", f(c.rms));
            assert!(f(c.max).abs() < 1e-9, "silent chunk {i} max = {}", f(c.max));
            assert!(f(c.min).abs() < 1e-9, "silent chunk {i} min = {}", f(c.min));
        }
    }
}

#[test]
fn incremental_extend_mirrors_full_stream() {
    let (mut tx, rx) = ring(8192);
    let mut stream = Capture::start(rx);

    let signal = synthetic::saw_ramp(s(1.0), 64 * 100);
    let mut mirror: Vec<PeakChunk> = Vec::new();
    let mut start = 0usize;
    for part in signal.chunks(1000) {
        assert_eq!(tx.push_slice(part), part.len());
        stream.poll();
        start = stream.buffer.extend_chunks(start, &mut mirror);
    }
    stream.catch_up();
    let _ = stream.buffer.extend_chunks(start, &mut mirror);
    assert!(mirror.len() >= 100, "incremental mirror only reached {}", mirror.len());

    let snap = stream.buffer.snapshot();
    assert_eq!(mirror.len(), snap.len());
    for (i, (m, c)) in mirror.iter().zip(snap.chunks.iter()).enumerate() {
        assert_eq!(m, c, "mirror diverges from snapshot at idx {i}");
    }

    for (i, w) in mirror.windows(2).enumerate() {
        assert!(
            f(w[1].max) >= f(w[0].max),
            "saw ramp chunk {} -> {}: max went {} -> {}",
            i,
            i + 1,
            f(w[0].max),
            f(w[1].max)
        );
    }
}
