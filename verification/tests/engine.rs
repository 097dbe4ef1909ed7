//! The engine: mixing, routing, commands, timecode and thru decks.

use std::sync::Arc;

use assert_no_alloc::assert_no_alloc;
use dub::engine::command::Command;
use dub::engine::handle::can_connect;
use dub::engine::handle::CommandError;
use dub::engine::handle::ThruAttachWithBpmError;
use dub::engine::handle::ThruAttachWithPeaksError;
use dub::engine::handle::ThruAttachWithTelemetryError;
use dub::engine::handle::THRU_TRASH_CHANNEL_CAPACITY;
use dub::engine::handle::TIMECODE_TRASH_CHANNEL_CAPACITY;
use dub::engine::handle::TRASH_CHANNEL_CAPACITY;
use dub::engine::mixer::internal_mixer_routing;
use dub::engine::mixer::Engine;
use dub::engine::mixer::OutputRouting;
use dub::engine::mixer::COMMAND_CHANNEL_CAPACITY;
use dub::engine::mixer::DECK_COUNT;
use dub::engine::ring::ring;
use dub::engine::ring::Receiver;
use dub::engine::ring::Sender;
use dub::engine::thru::ThruAttachError;
use dub::engine::thru::ThruInputConfig;
use dub::engine::thru::ThruSource;
use dub::ieee::double::Double;
use dub::ieee::single::Single;
use dub::peaks::stream::PeakStreamConfig;
use dub::peaks::stream::PeakStreamError;
use dub::timecode::format::Format;
use dub::timecode::input::TimecodeInput;
use dub::timecode::lift::AttachError;
use dub::timecode::lift::TimecodeInputConfig;
use dub::track::Track;

fn s(x: f32) -> Single {
    Single { bits: x.to_bits() }
}

fn f(x: Single) -> f32 {
    f32::from_bits(x.bits)
}

fn d(x: f64) -> Double {
    Double { bits: x.to_bits() }
}

fn fd(x: Double) -> f64 {
    f64::from_bits(x.bits)
}

fn singles(xs: &[f32]) -> Vec<Single> {
    xs.iter().map(|x| s(*x)).collect()
}

fn unpack(cells: &[Single], out: &mut [f32]) {
    for (o, c) in out.iter_mut().zip(cells) {
        *o = f(*c);
    }
}

fn sine(x: Single) -> Single {
    s(f(x).sin())
}

fn atan2(y: Double, x: Double) -> Double {
    d(fd(y).atan2(fd(x)))
}

fn render(engine: &mut Engine, out: &mut [f32]) {
    let mut cells = singles(out);
    engine.render(&mut cells, &atan2);
    unpack(&cells, out);
}

fn render_routed(engine: &mut Engine, out: &mut [f32], channels: usize, routing: &OutputRouting) {
    let mut cells = singles(out);
    engine.render_routed(&mut cells, channels, routing, &atan2);
    unpack(&cells, out);
}

fn pump_one_block(engine: &mut Engine) {
    let mut out = vec![0.0_f32; 256 * 2];
    render(engine, &mut out);
}

struct Generator {
    carrier: f64,
    sample_rate: f64,
    phase: f64,
}

impl Generator {
    fn new(format: Format, sample_rate: f32) -> Self {
        Generator {
            carrier: f64::from(f(format.carrier_hz())),
            sample_rate: f64::from(sample_rate),
            phase: 0.0,
        }
    }

    fn render(&mut self, out: &mut [f32], rate: f64, amplitude: f32) {
        let step = core::f64::consts::TAU * self.carrier * rate / self.sample_rate;
        for frame in out.chunks_exact_mut(2) {
            frame[0] = amplitude * self.phase.sin() as f32;
            frame[1] = amplitude * self.phase.cos() as f32;
            self.phase += step;
        }
    }
}

fn drive_one_block(
    engine: &mut Engine,
    tx: &mut Sender<Single>,
    gen: &mut Generator,
    sig: &mut [f32],
    buf: &mut [f32],
) {
    gen.render(sig, 1.0, 0.5);
    let _ = tx.push_slice(&singles(sig));
    render(engine, buf);
}

fn tight_config(sr: f32, block: usize) -> TimecodeInputConfig {
    TimecodeInputConfig {
        format: Format::SeratoCv02,
        input_sample_rate: s(sr),
        max_block_frames: block.max(64),
        confidence_threshold: s(0.7),
        disengage_threshold: s(0.5),
        sticky_blocks_to_disengage: 1,
        amplitude_threshold: s(0.001),
    }
}

fn engine_with_tc_deck0(sr: f32, block: usize) -> (Engine, Sender<Single>) {
    let mut engine = Engine::new(s(sr), block, &sine);
    let (tx, rx) = ring((sr as usize) * 2);
    engine
        .attach_timecode_input(0, rx, tight_config(sr, block))
        .expect("attach should succeed");
    (engine, tx)
}

fn engine_with_two_decks(deck0_v: f32, deck1_v: f32) -> Engine {
    let mut engine = Engine::new(s(48_000.0), 16, &sine);
    for (i, v) in [deck0_v, deck1_v].into_iter().enumerate() {
        engine.deck_mut(i).set_source(constant_track(v, 64));
        engine.deck_mut(i).set_playing(true);
        engine.deck_mut(i).quiesce_declick();
    }
    engine
}

fn constant_track(v: f32, samples: usize) -> Arc<Track> {
    Arc::new(Track::from_interleaved(vec![s(v); samples], 48_000, 2).unwrap())
}

fn thru_cfg(sr: f32) -> ThruInputConfig {
    ThruInputConfig { max_block_frames: 1024, input_sample_rate: s(sr) }
}

fn push_thru_input(tx: &mut Sender<Single>, n: usize, l: f32, r: f32) {
    for _ in 0..n {
        if tx.try_push(s(l)).is_err() {
            return;
        }
        if tx.try_push(s(r)).is_err() {
            return;
        }
    }
}

#[test]
fn engine_constructs() {
    let engine = Engine::new(s(48_000.0), 64, &sine);
    assert!((f(engine.sample_rate()) - 48_000.0).abs() < f32::EPSILON);
    assert_eq!(engine.block_size(), 64);
    for i in 0..DECK_COUNT {
        assert!(engine.deck(i).source().is_none());
    }
}

#[test]
fn render_with_no_decks_loaded_is_silent() {
    let mut engine = Engine::new(s(48_000.0), 64, &sine);
    let mut buffer = vec![1.0f32; 128];

    let mut cells = singles(&buffer);
    assert_no_alloc(|| {
        engine.render(&mut cells, &atan2);
    });
    unpack(&cells, &mut buffer);

    for sample in &buffer {
        assert_eq!(*sample, 0.0);
    }
}

#[test]
fn render_with_loaded_deck_is_alloc_free() {
    let track = Arc::new(
        Track::from_interleaved(singles(&vec![0.1, 0.2, 0.3, 0.4, 0.5, 0.6, 0.7, 0.8]), 48_000, 2)
            .unwrap(),
    );
    let mut engine = Engine::new(s(48_000.0), 4, &sine);
    engine.deck_mut(0).set_source(track);
    engine.deck_mut(0).set_playing(true);
    engine.deck_mut(0).quiesce_declick();

    let mut buffer = vec![0.0f32; 8];

    let mut cells = singles(&buffer);
    assert_no_alloc(|| {
        engine.render(&mut cells, &atan2);
    });
    unpack(&cells, &mut buffer);

    let expected = [0.1, 0.2, 0.3, 0.4, 0.5, 0.6, 0.7, 0.8];
    for (got, want) in buffer.iter().zip(expected.iter()) {
        assert!((got - want).abs() < 1e-6, "got {got} want {want}");
    }
}

#[test]
fn render_routed_internal_mixer_matches_render() {
    let mut engine_a = engine_with_two_decks(0.3, 0.5);
    let mut engine_b = engine_with_two_decks(0.3, 0.5);
    let mut buf_a = vec![0.0_f32; 32];
    let mut buf_b = vec![0.0_f32; 32];
    render(&mut engine_a, &mut buf_a);
    render_routed(&mut engine_b, &mut buf_b, 2, &internal_mixer_routing());
    for (i, (a, b)) in buf_a.iter().zip(buf_b.iter()).enumerate() {
        assert!(
            (a - b).abs() < 1e-9,
            "frame {i}: render={a} render_routed={b}"
        );
    }
    for s in &buf_a {
        assert!((s - 0.8).abs() < 1e-6, "got {s}, expected 0.8");
    }
}

#[test]
fn render_routed_external_4ch_isolates_decks() {
    let mut engine = engine_with_two_decks(0.3, 0.7);
    let mut out = vec![0.0_f32; 64];
    render_routed(&mut engine, &mut out, 4, &[Some(0), Some(2)]);
    for (i, frame) in out.chunks_exact(4).enumerate() {
        assert!(
            (frame[0] - 0.3).abs() < 1e-6 && (frame[1] - 0.3).abs() < 1e-6,
            "frame {i}: deck 0 should be on ch 0+1, got [{}, {}, {}, {}]",
            frame[0],
            frame[1],
            frame[2],
            frame[3],
        );
        assert!(
            (frame[2] - 0.7).abs() < 1e-6 && (frame[3] - 0.7).abs() < 1e-6,
            "frame {i}: deck 1 should be on ch 2+3, got [{}, {}, {}, {}]",
            frame[0],
            frame[1],
            frame[2],
            frame[3],
        );
    }
}

#[test]
fn render_routed_overlapping_decks_sum_like_internal_mixer() {
    let mut engine = engine_with_two_decks(0.3, 0.5);
    let mut out = vec![0.0_f32; 64];
    render_routed(&mut engine, &mut out, 4, &[Some(0), Some(0)]);
    for (i, frame) in out.chunks_exact(4).enumerate() {
        assert!(
            (frame[0] - 0.8).abs() < 1e-6 && (frame[1] - 0.8).abs() < 1e-6,
            "frame {i}: ch 0+1 should sum to 0.8, got {frame:?}",
        );
        assert_eq!(frame[2], 0.0, "frame {i}: ch 2 must stay zero");
        assert_eq!(frame[3], 0.0, "frame {i}: ch 3 must stay zero");
    }
}

#[test]
fn render_routed_none_drops_deck() {
    let mut engine = engine_with_two_decks(0.3, 0.7);
    let mut out = vec![0.0_f32; 64];
    render_routed(&mut engine, &mut out, 4, &[Some(0), None]);
    for (i, frame) in out.chunks_exact(4).enumerate() {
        assert!(
            (frame[0] - 0.3).abs() < 1e-6 && (frame[1] - 0.3).abs() < 1e-6,
            "frame {i}: deck 0 on ch 0+1 expected 0.3, got {frame:?}",
        );
        assert_eq!(frame[2], 0.0, "frame {i}: ch 2 must stay zero");
        assert_eq!(frame[3], 0.0, "frame {i}: ch 3 must stay zero");
    }
}

#[test]
fn render_routed_none_does_not_advance_transport() {
    let mut engine = engine_with_two_decks(0.3, 0.7);
    let pos_before = fd(engine.deck(1).position_frames());
    let mut out = vec![0.0_f32; 64];
    render_routed(&mut engine, &mut out, 4, &[Some(0), None]);
    let pos_after = fd(engine.deck(1).position_frames());
    assert_eq!(
        pos_before, pos_after,
        "deck 1 routed=None must not advance: before={pos_before}, after={pos_after}"
    );
}

#[test]
fn render_routed_mute_via_gain_keeps_transport_advancing() {
    let mut engine = engine_with_two_decks(0.3, 0.7);
    engine.deck_mut(1).set_gain(s(0.0));
    let pos_before = fd(engine.deck(1).position_frames());
    let mut out = vec![0.0_f32; 64];
    render_routed(&mut engine, &mut out, 4, &[Some(0), Some(2)]);
    let pos_after = fd(engine.deck(1).position_frames());
    for (i, frame) in out.chunks_exact(4).enumerate() {
        assert_eq!(frame[2], 0.0, "frame {i}: muted deck 1 should be zero");
        assert_eq!(frame[3], 0.0, "frame {i}: muted deck 1 should be zero");
    }
    assert!(
        (pos_after - pos_before - 16.0).abs() < 0.5,
        "deck 1 with gain=0 still advances: before={pos_before}, after={pos_after}"
    );
}

#[test]
fn render_routed_master_gain_applies_only_to_routed_channels() {
    let mut engine = engine_with_two_decks(0.4, 0.4);
    engine.set_master_gain(s(0.5));
    let mut out = vec![0.0_f32; 64];
    render_routed(&mut engine, &mut out, 4, &[Some(0), Some(2)]);
    for (i, frame) in out.chunks_exact(4).enumerate() {
        for (ch, s) in frame.iter().enumerate() {
            assert!(
                (s - 0.2).abs() < 1e-6,
                "frame {i} ch {ch}: expected 0.2 with master 0.5, got {s}"
            );
        }
    }
}

#[test]
fn render_routed_4ch_is_alloc_free() {
    let mut engine = engine_with_two_decks(0.3, 0.5);
    let mut out = vec![0.0_f32; 64];
    let mut cells = singles(&out);
    assert_no_alloc(|| {
        engine.render_routed(&mut cells, 4, &[Some(0), Some(2)], &atan2);
    });
    unpack(&cells, &mut out);
}

#[test]
fn handle_play_and_pause_apply_on_render() {
    let track = Arc::new(Track::from_interleaved(singles(&vec![0.5; 1024]), 48_000, 2).unwrap());
    let (mut engine, mut handle) = Engine::new_with_handle(s(48_000.0), 4, &sine);
    engine.deck_mut(0).set_source(track);
    engine.deck_mut(0).quiesce_declick();

    let mut buffer = vec![0.0f32; 8];
    render(&mut engine, &mut buffer);
    for s in &buffer {
        assert_eq!(*s, 0.0);
    }

    handle.deck(0).play().unwrap();
    let mut buffer = vec![0.0f32; 256 * 2];
    render(&mut engine, &mut buffer);
    for (i, s) in buffer.chunks_exact(2).enumerate().skip(100) {
        assert!(
            (s[0] - 0.5).abs() < 1e-6,
            "post-fade frame {i} L={}, expected 0.5",
            s[0]
        );
    }

    let snap = handle.deck_state(0).unwrap();
    assert!(snap.is_playing);
    assert!((fd(snap.position_frames) - 256.0).abs() < 1e-9);

    handle.deck(0).pause().unwrap();
    let mut buffer = vec![0.0f32; 256 * 2];
    render(&mut engine, &mut buffer);
    for (i, s) in buffer.chunks_exact(2).enumerate().skip(100) {
        assert!(
            s[0].abs() < 1e-6,
            "post-fade frame {i} after pause: L={} (want silence)",
            s[0]
        );
    }
    let snap = handle.deck_state(0).unwrap();
    assert!(!snap.is_playing);
}

#[test]
fn handle_seek_repositions_playhead() {
    let mut samples = Vec::with_capacity(2048);
    for i in 0..1024 {
        let v = i as f32 * 0.001;
        samples.push(v);
        samples.push(v);
    }
    let track = Arc::new(Track::from_interleaved(singles(&samples), 48_000, 2).unwrap());

    let (mut engine, mut handle) = Engine::new_with_handle(s(48_000.0), 4, &sine);
    engine.deck_mut(0).set_source(track);
    engine.deck_mut(0).quiesce_declick();
    engine.deck_mut(0).set_playing(true);
    engine.deck_mut(0).quiesce_declick();

    handle.deck(0).seek(d(100.0)).unwrap();
    let mut buffer = vec![0.0f32; 256 * 2];
    render(&mut engine, &mut buffer);

    for (i, s) in buffer.chunks_exact(2).enumerate().skip(100) {
        let expected = (100 + i) as f32 * 0.001;
        assert!(
            (s[0] - expected).abs() < 1e-6,
            "frame {i}: got {} want {expected}",
            s[0]
        );
    }
    assert!((fd(handle.deck_state(0).unwrap().position_frames) - (100.0 + 256.0)).abs() < 1e-9);
}

#[test]
fn drain_is_alloc_free() {
    let track = Arc::new(Track::from_interleaved(singles(&vec![0.1; 16]), 48_000, 2).unwrap());
    let (mut engine, mut handle) = Engine::new_with_handle(s(48_000.0), 4, &sine);
    engine.deck_mut(0).set_source(track);

    handle.deck(0).play().unwrap();
    handle.deck(0).set_gain(s(0.5)).unwrap();
    handle.deck(0).seek(d(2.0)).unwrap();

    let mut buffer = vec![0.0f32; 8];
    let mut cells = singles(&buffer);
    assert_no_alloc(|| {
        engine.render(&mut cells, &atan2);
    });
    unpack(&cells, &mut buffer);
}

#[test]
fn hot_load_swaps_source_and_returns_old_via_trash() {
    let track_a = Arc::new(Track::from_interleaved(singles(&vec![0.5; 1024]), 48_000, 2).unwrap());
    let track_b = Arc::new(Track::from_interleaved(singles(&vec![0.25; 1024]), 48_000, 2).unwrap());

    let track_a_for_engine = track_a.clone();
    assert_eq!(Arc::strong_count(&track_a), 2);

    let (mut engine, mut handle) = Engine::new_with_handle(s(48_000.0), 4, &sine);
    engine.deck_mut(0).set_source(track_a_for_engine);
    engine.deck_mut(0).set_playing(true);
    engine.deck_mut(0).quiesce_declick();

    let mut buffer = vec![0.0f32; 8];
    render(&mut engine, &mut buffer);
    for s in &buffer {
        assert!((s - 0.5).abs() < 1e-6);
    }

    handle.deck(0).load(track_b.clone()).unwrap();
    let mut buffer = vec![0.0f32; 256 * 2];
    render(&mut engine, &mut buffer);
    for (i, s) in buffer.chunks_exact(2).enumerate().skip(100) {
        assert!(
            (s[0] - 0.25).abs() < 1e-6,
            "post-fade frame {i}: got {} want 0.25",
            s[0]
        );
    }
    assert_eq!(
        Arc::strong_count(&track_a),
        2,
        "old Arc should be in the trash channel after fade completes"
    );

    let n = handle.reclaim();
    assert_eq!(n, 1, "reclaim should have dropped exactly one Arc");
    assert_eq!(Arc::strong_count(&track_a), 1);
    assert_eq!(handle.trash_overflow_count(), 0);
}

#[test]
fn hot_load_drain_is_alloc_free() {
    let track_a = Arc::new(Track::from_interleaved(singles(&vec![0.1; 16]), 48_000, 2).unwrap());
    let track_b = Arc::new(Track::from_interleaved(singles(&vec![0.2; 16]), 48_000, 2).unwrap());
    let (mut engine, mut handle) = Engine::new_with_handle(s(48_000.0), 4, &sine);
    engine.deck_mut(0).set_source(track_a);

    handle.deck(0).load(track_b).unwrap();

    let mut buffer = vec![0.0f32; 8];
    let mut cells = singles(&buffer);
    assert_no_alloc(|| {
        engine.render(&mut cells, &atan2);
    });
    unpack(&cells, &mut buffer);
}

#[test]
fn auto_reclaim_on_load_keeps_trash_drained() {
    let (mut engine, mut handle) = Engine::new_with_handle(s(48_000.0), 4, &sine);
    let mut buffer = vec![0.0f32; 8];
    for _ in 0..100 {
        let t = Arc::new(Track::from_interleaved(singles(&vec![0.1; 8]), 48_000, 2).unwrap());
        handle.deck(0).load(t).unwrap();
        render(&mut engine, &mut buffer);
    }
    assert_eq!(handle.trash_overflow_count(), 0);
}

#[test]
fn two_decks_mix_additively() {
    let track_a = Arc::new(Track::from_interleaved(singles(&vec![0.5; 8]), 48_000, 2).unwrap());
    let track_b = Arc::new(Track::from_interleaved(singles(&vec![0.25; 8]), 48_000, 2).unwrap());
    let mut engine = Engine::new(s(48_000.0), 4, &sine);
    engine.deck_mut(0).set_source(track_a);
    engine.deck_mut(0).set_playing(true);
    engine.deck_mut(0).quiesce_declick();
    engine.deck_mut(1).set_source(track_b);
    engine.deck_mut(1).set_playing(true);
    engine.deck_mut(1).quiesce_declick();

    let mut buffer = vec![0.0f32; 8];
    let mut cells = singles(&buffer);
    assert_no_alloc(|| {
        engine.render(&mut cells, &atan2);
    });
    unpack(&cells, &mut buffer);

    for s in buffer {
        assert!((s - 0.75).abs() < 1e-6);
    }
}

#[test]
fn master_gain_scales_summed_output() {
    let track_a = Arc::new(Track::from_interleaved(singles(&vec![0.5; 8]), 48_000, 2).unwrap());
    let track_b = Arc::new(Track::from_interleaved(singles(&vec![0.25; 8]), 48_000, 2).unwrap());
    let mut engine = Engine::new(s(48_000.0), 4, &sine);
    engine.deck_mut(0).set_source(track_a);
    engine.deck_mut(0).set_playing(true);
    engine.deck_mut(0).quiesce_declick();
    engine.deck_mut(1).set_source(track_b);
    engine.deck_mut(1).set_playing(true);
    engine.deck_mut(1).quiesce_declick();
    engine.set_master_gain(s(0.5));

    let mut buffer = vec![0.0f32; 8];
    render(&mut engine, &mut buffer);
    for s in buffer {
        assert!((s - 0.375).abs() < 1e-6, "got {s} want 0.375");
    }
}

#[test]
fn master_gain_unity_is_pass_through() {
    let track_a = Arc::new(Track::from_interleaved(singles(&vec![0.5; 8]), 48_000, 2).unwrap());
    let mut engine = Engine::new(s(48_000.0), 4, &sine);
    engine.deck_mut(0).set_source(track_a);
    engine.deck_mut(0).set_playing(true);
    engine.deck_mut(0).quiesce_declick();

    let mut buffer = vec![0.0f32; 8];
    render(&mut engine, &mut buffer);
    for s in buffer {
        assert!((s - 0.5).abs() < 1e-6);
    }
}

#[test]
fn master_gain_command_applies_via_handle() {
    let track = Arc::new(Track::from_interleaved(singles(&vec![0.5; 1024]), 48_000, 2).unwrap());
    let (mut engine, mut handle) = Engine::new_with_handle(s(48_000.0), 64, &sine);
    engine.deck_mut(0).set_source(track);
    engine.deck_mut(0).set_playing(true);
    engine.deck_mut(0).quiesce_declick();

    handle.set_master_gain(s(0.25)).unwrap();

    let mut buffer = vec![0.0f32; 64 * 2];
    render(&mut engine, &mut buffer);

    for s in buffer {
        assert!(
            (s - 0.125).abs() < 1e-6,
            "got {s} want 0.125 (= 0.5 * 0.25)"
        );
    }
}

#[test]
fn two_decks_independent_transport_via_handle() {
    let track_a = Arc::new(Track::from_interleaved(singles(&vec![0.5; 1024]), 48_000, 2).unwrap());
    let track_b = Arc::new(Track::from_interleaved(singles(&vec![0.25; 1024]), 48_000, 2).unwrap());
    let (mut engine, mut handle) = Engine::new_with_handle(s(48_000.0), 64, &sine);
    engine.deck_mut(0).set_source(track_a);
    engine.deck_mut(0).set_playing(true);
    engine.deck_mut(0).quiesce_declick();
    engine.deck_mut(1).set_source(track_b);
    engine.deck_mut(1).quiesce_declick();

    let mut buffer = vec![0.0f32; 64 * 2];
    render(&mut engine, &mut buffer);
    for s in &buffer {
        assert!((s - 0.5).abs() < 1e-6, "deck 1 should be silent: got {s}");
    }

    handle.deck(1).play().unwrap();
    let mut buffer = vec![0.0f32; 256 * 2];
    render(&mut engine, &mut buffer);
    for (i, s) in buffer.chunks_exact(2).enumerate().skip(100) {
        assert!(
            (s[0] - 0.75).abs() < 1e-6,
            "post-fade frame {i}: got {} want 0.75",
            s[0]
        );
    }
}

#[test]
fn master_gain_path_is_alloc_free() {
    let track = Arc::new(Track::from_interleaved(singles(&vec![0.5; 1024]), 48_000, 2).unwrap());
    let (mut engine, mut handle) = Engine::new_with_handle(s(48_000.0), 64, &sine);
    engine.deck_mut(0).set_source(track);
    engine.deck_mut(0).set_playing(true);
    handle.set_master_gain(s(0.5)).unwrap();

    let mut buffer = vec![0.0f32; 64 * 2];
    let mut cells = singles(&buffer);
    assert_no_alloc(|| {
        engine.render(&mut cells, &atan2);
    });
    unpack(&cells, &mut buffer);
}

#[test]
fn timecode_attach_rejects_bad_deck_idx() {
    let mut engine = Engine::new(s(48_000.0), 64, &sine);
    let (_tx, rx) = ring(64);
    let err = engine
        .attach_timecode_input(99, rx, TimecodeInputConfig::default())
        .expect_err("idx 99 is out of range");
    assert!(matches!(err, AttachError::InvalidDeck { .. }));
}

#[test]
fn timecode_attach_rejects_sr_mismatch() {
    let mut engine = Engine::new(s(48_000.0), 64, &sine);
    let (_tx, rx) = ring(64);
    let cfg = TimecodeInputConfig {
        input_sample_rate: s(44_100.0),
        ..TimecodeInputConfig::default()
    };
    let err = engine
        .attach_timecode_input(0, rx, cfg)
        .expect_err("44.1k input vs 48k engine should be rejected");
    assert!(matches!(
        err,
        AttachError::SampleRateMismatch { .. }
    ));
}

#[test]
fn timecode_attach_rejects_double_attach() {
    let mut engine = Engine::new(s(48_000.0), 64, &sine);
    let (_tx1, rx1) = ring(64);
    engine
        .attach_timecode_input(0, rx1, TimecodeInputConfig::default())
        .unwrap();
    let (_tx2, rx2) = ring(64);
    let err = engine
        .attach_timecode_input(0, rx2, TimecodeInputConfig::default())
        .expect_err("second attach should fail");
    assert!(matches!(err, AttachError::AlreadyAttached { .. }));
}

#[test]
fn timecode_lock_drives_deck_rate_and_plays() {
    let sr = 48_000.0_f32;
    let block = 256_usize;
    let (mut engine, mut tx) = engine_with_tc_deck0(sr, block);

    let track =
        Arc::new(Track::from_interleaved(singles(&vec![0.5_f32; 48_000 * 2]), 48_000, 2).unwrap());
    engine.deck_mut(0).set_source(track);
    engine.deck_mut(0).quiesce_declick();
    assert!(!engine.deck(0).is_playing(), "deck should start paused");

    let n = block * 4;
    let mut sig = vec![0.0_f32; n * 2];
    let mut gen = Generator::new(Format::SeratoCv02, sr);
    gen.render(&mut sig, 1.0, 0.5);
    let pushed = tx.push_slice(&singles(&sig));
    assert_eq!(pushed, sig.len(), "ring should be large enough");

    let mut buf = vec![0.0_f32; block * 2];
    for _ in 0..4 {
        render(&mut engine, &mut buf);
    }

    let last = engine
        .timecode_last_output(0)
        .expect("decoder ran at least once");
    assert!(
        f(last.confidence) > 0.99,
        "synthetic input should lock 1.000 (got {})",
        f(last.confidence)
    );
    assert!(
        (fd(last.rate) - 1.0).abs() < 0.01,
        "rate should be ≈1.0 (got {})",
        fd(last.rate)
    );
    assert!(
        engine.deck(0).is_playing(),
        "deck should be playing after lock"
    );
    let pos = fd(engine.deck(0).position_frames());
    assert!(pos > 200.0, "deck position should advance (got {pos})");
    assert!(pos < 1100.0, "and not run away (got {pos})");
}

#[test]
fn timecode_silence_pauses_deck() {
    let sr = 48_000.0_f32;
    let block = 256_usize;
    let (mut engine, mut tx) = engine_with_tc_deck0(sr, block);

    let track =
        Arc::new(Track::from_interleaved(singles(&vec![0.5_f32; 48_000 * 2]), 48_000, 2).unwrap());
    engine.deck_mut(0).set_source(track);
    engine.deck_mut(0).quiesce_declick();

    let silence = vec![0.0_f32; block * 2 * 2];
    let pushed = tx.push_slice(&singles(&silence));
    assert_eq!(pushed, silence.len());

    let mut buf = vec![0.0_f32; block * 2];
    render(&mut engine, &mut buf);
    render(&mut engine, &mut buf);

    let last = engine.timecode_last_output(0).unwrap();
    assert!(
        f(last.confidence) < 0.2,
        "silence should yield low confidence (got {})",
        f(last.confidence)
    );
    assert!(
        !engine.deck(0).is_playing(),
        "low confidence should mute the deck"
    );
    for s in &buf {
        assert!(s.abs() < 0.01, "expected silence on output, got {s}");
    }
}

#[test]
fn timecode_reverse_lock_drives_negative_rate() {
    let sr = 48_000.0_f32;
    let block = 256_usize;
    let (mut engine, mut tx) = engine_with_tc_deck0(sr, block);

    let track =
        Arc::new(Track::from_interleaved(singles(&vec![0.5_f32; 48_000 * 2]), 48_000, 2).unwrap());
    engine.deck_mut(0).set_source(track);
    engine.deck_mut(0).set_position_frames(d(10_000.0));
    engine.deck_mut(0).quiesce_declick();

    let n = block * 4;
    let mut sig = vec![0.0_f32; n * 2];
    let mut gen = Generator::new(Format::SeratoCv02, sr);
    gen.render(&mut sig, -1.0, 0.5);
    tx.push_slice(&singles(&sig));

    let mut buf = vec![0.0_f32; block * 2];
    for _ in 0..4 {
        render(&mut engine, &mut buf);
    }

    let last = engine.timecode_last_output(0).unwrap();
    assert!(
        (fd(last.rate) - (-1.0)).abs() < 0.01,
        "reverse should give rate ≈-1.0 (got {})",
        fd(last.rate)
    );
    assert!(
        fd(engine.deck(0).position_frames()) < 10_000.0,
        "reverse should walk position back from 10000 (got {})",
        fd(engine.deck(0).position_frames())
    );
}

#[test]
fn timecode_detach_returns_input_for_main_thread_drop() {
    let mut engine = Engine::new(s(48_000.0), 64, &sine);
    let (_tx, rx) = ring(64);
    engine
        .attach_timecode_input(0, rx, TimecodeInputConfig::default())
        .unwrap();
    let detached = engine.detach_timecode_input(0);
    assert!(detached.is_some(), "detach should return the input");
    let (_tx2, rx2) = ring(64);
    engine
        .attach_timecode_input(0, rx2, TimecodeInputConfig::default())
        .expect("re-attach after detach should succeed");
}

#[test]
fn handle_attach_to_empty_slot_starts_decoding() {
    let sr = 48_000.0_f32;
    let block = 256_usize;
    let (mut engine, mut handle) = Engine::new_with_handle(s(sr), block, &sine);

    assert!(engine.timecode_last_output(0).is_none());

    let (mut tx, rx) = ring((sr as usize) * 2);

    let mut gen = Generator::new(Format::SeratoCv02, sr);
    let mut sig = vec![0.0_f32; block * 2];
    gen.render(&mut sig, 1.0, 0.5);
    let _ = tx.push_slice(&singles(&sig));

    handle
        .attach_timecode_input(
            0,
            rx,
            TimecodeInputConfig {
                format: Format::SeratoCv02,
                input_sample_rate: s(sr),
                max_block_frames: block.max(64),
                confidence_threshold: s(0.7),
                disengage_threshold: s(0.5),
                sticky_blocks_to_disengage: 1,
                amplitude_threshold: s(0.001),
            },
        )
        .expect("empty-slot attach should succeed");

    let mut buf = vec![0.0_f32; block * 2];
    for _ in 0..4 {
        drive_one_block(&mut engine, &mut tx, &mut gen, &mut sig, &mut buf);
    }

    let last = engine
        .timecode_last_output(0)
        .expect("decoder should have run after handle attach");
    assert!(
        f(last.confidence) > 0.95,
        "synthetic input should lock high (got {})",
        f(last.confidence)
    );
}

#[test]
fn handle_attach_to_filled_slot_replaces_and_trashes_previous() {
    let sr = 48_000.0_f32;
    let block = 256_usize;
    let (mut engine, mut handle) = Engine::new_with_handle(s(sr), block, &sine);

    let cfg = TimecodeInputConfig {
        format: Format::SeratoCv02,
        input_sample_rate: s(sr),
        max_block_frames: block.max(64),
        confidence_threshold: s(0.7),
        disengage_threshold: s(0.5),
        sticky_blocks_to_disengage: 1,
        amplitude_threshold: s(0.001),
    };

    let (_tx1, rx1) = ring(1024);
    handle.attach_timecode_input(0, rx1, cfg).unwrap();

    let mut buf = vec![0.0_f32; block * 2];
    render(&mut engine, &mut buf);

    let (_tx2, rx2) = ring(1024);
    handle
        .attach_timecode_input(0, rx2, cfg)
        .expect("re-attach should succeed via command channel");

    render(&mut engine, &mut buf);

    let n = handle.reclaim();
    assert_eq!(
        n, 1,
        "re-attach should have produced exactly one trashed TimecodeInput"
    );
    assert_eq!(
        handle.timecode_trash_overflow_count(),
        0,
        "trash channel should not have overflowed"
    );
}

#[test]
fn handle_attach_rejects_invalid_deck_idx() {
    let sr = 48_000.0_f32;
    let block = 256_usize;
    let (_engine, mut handle) = Engine::new_with_handle(s(sr), block, &sine);
    let (_tx, rx) = ring(64);
    let err = handle
        .attach_timecode_input(99, rx, TimecodeInputConfig::default())
        .expect_err("idx 99 is out of range");
    assert!(matches!(err, AttachError::InvalidDeck { .. }));
}

#[test]
fn handle_attach_rejects_sr_mismatch_before_sending_command() {
    let sr = 48_000.0_f32;
    let block = 256_usize;
    let (mut engine, mut handle) = Engine::new_with_handle(s(sr), block, &sine);
    let (_tx, rx) = ring(64);
    let cfg = TimecodeInputConfig {
        input_sample_rate: s(44_100.0),
        ..TimecodeInputConfig::default()
    };
    let err = handle
        .attach_timecode_input(0, rx, cfg)
        .expect_err("44.1k vs 48k engine should be rejected");
    assert!(matches!(
        err,
        AttachError::SampleRateMismatch { .. }
    ));

    let mut buf = vec![0.0_f32; block * 2];
    render(&mut engine, &mut buf);
    assert!(engine.timecode_last_output(0).is_none());
}

#[test]
fn handle_attach_to_invalid_idx_does_not_leak() {
    let sr = 48_000.0_f32;
    let block = 64_usize;
    let (mut engine, mut handle) = Engine::new_with_handle(s(sr), block, &sine);

    let cfg = TimecodeInputConfig {
        format: Format::SeratoCv02,
        input_sample_rate: s(sr),
        max_block_frames: block.max(64),
        confidence_threshold: s(0.7),
        disengage_threshold: s(0.5),
        sticky_blocks_to_disengage: 1,
        amplitude_threshold: s(0.001),
    };
    let (_tx, rx) = ring(64);
    let bogus_input = Box::new(TimecodeInput::new(rx, cfg));
    engine.apply_command(Command::AttachTimecodeInput {
        idx: 99,
        input: bogus_input,
    });
    assert_eq!(handle.timecode_trash_overflow_count(), 0);
    let n = handle.reclaim();
    assert_eq!(n, 1, "bad-idx box must trash, not leak or panic");
}

#[test]
fn thru_attach_rejects_bad_deck_idx() {
    let mut engine = Engine::new(s(48_000.0), 256, &sine);
    let (_tx, rx) = ring(64);
    let err = engine
        .attach_thru_source(DECK_COUNT, rx, thru_cfg(48_000.0))
        .unwrap_err();
    assert!(
        matches!(err, ThruAttachError::InvalidDeck { .. }),
        "expected InvalidDeck, got {err:?}"
    );
}

#[test]
fn thru_attach_rejects_sr_mismatch() {
    let mut engine = Engine::new(s(48_000.0), 256, &sine);
    let (_tx, rx) = ring(64);
    let cfg = ThruInputConfig {
        max_block_frames: 256,
        input_sample_rate: s(44_100.0),
    };
    let err = engine.attach_thru_source(0, rx, cfg).unwrap_err();
    assert!(
        matches!(err, ThruAttachError::SampleRateMismatch { .. }),
        "expected SampleRateMismatch, got {err:?}"
    );
}

#[test]
fn thru_attached_deck_skips_track_render_path() {
    let sr = 48_000.0;
    let mut engine = Engine::new(s(sr), 256, &sine);

    let track = Arc::new(Track::from_interleaved(singles(&vec![0.7; 8]), 48_000, 2).unwrap());
    engine.deck_mut(0).set_source(track);
    engine.deck_mut(0).set_playing(true);
    engine.deck_mut(0).quiesce_declick();

    let (_tx, rx) = ring(4096);
    engine.attach_thru_source(0, rx, thru_cfg(sr)).unwrap();

    let mut out = vec![1.0_f32; 4 * 2];
    render(&mut engine, &mut out);

    for (i, s) in out.iter().enumerate() {
        assert!(s.abs() < 1e-9, "frame {i}: expected silence, got {s}");
    }
}

#[test]
fn thru_attached_deck_passes_input_through() {
    let sr = 48_000.0;
    let mut engine = Engine::new(s(sr), 256, &sine);
    let (mut tx, rx) = ring(8192);
    engine.attach_thru_source(0, rx, thru_cfg(sr)).unwrap();

    push_thru_input(&mut tx, 64, 0.3, -0.4);
    let mut out = vec![0.0_f32; 64 * 2];
    render(&mut engine, &mut out);
    for i in 0..64 {
        assert!(
            (out[i * 2] - 0.3).abs() < 1e-5,
            "frame {i} L = {} expected 0.3",
            out[i * 2]
        );
        assert!(
            (out[i * 2 + 1] - (-0.4)).abs() < 1e-5,
            "frame {i} R = {} expected -0.4",
            out[i * 2 + 1]
        );
    }
}

#[test]
fn thru_render_does_not_advance_deck_transport() {
    let sr = 48_000.0;
    let mut engine = Engine::new(s(sr), 256, &sine);
    let track = Arc::new(Track::from_interleaved(singles(&vec![0.5; 1024]), 48_000, 2).unwrap());
    engine.deck_mut(0).set_source(track);
    engine.deck_mut(0).set_playing(true);
    engine.deck_mut(0).quiesce_declick();
    let pos_before = fd(engine.deck(0).position_frames());

    let (_tx, rx) = ring(4096);
    engine.attach_thru_source(0, rx, thru_cfg(sr)).unwrap();

    let mut out = vec![0.0_f32; 256 * 2];
    render(&mut engine, &mut out);
    render(&mut engine, &mut out);
    render(&mut engine, &mut out);

    let pos_after = fd(engine.deck(0).position_frames());
    assert!(
        (pos_after - pos_before).abs() < 1e-9,
        "deck transport advanced under thru: {pos_before} -> {pos_after}"
    );
}

#[test]
fn track_deck_unaffected_when_other_deck_is_thru() {
    let sr = 48_000.0;
    let mut engine = Engine::new(s(sr), 256, &sine);

    let track = Arc::new(Track::from_interleaved(singles(&vec![0.5; 1024]), 48_000, 2).unwrap());
    engine.deck_mut(1).set_source(track);
    engine.deck_mut(1).set_playing(true);
    engine.deck_mut(1).quiesce_declick();

    let (_tx, rx) = ring(4096);
    engine.attach_thru_source(0, rx, thru_cfg(sr)).unwrap();

    let mut out = vec![0.0_f32; 16 * 4];
    render_routed(&mut engine, &mut out, 4, &[Some(0), Some(2)]);

    for frame in 0..16 {
        assert!(out[frame * 4].abs() < 1e-9, "frame {frame} ch0 nonzero");
        assert!(out[frame * 4 + 1].abs() < 1e-9, "frame {frame} ch1 nonzero");
        assert!(
            (out[frame * 4 + 2] - 0.5).abs() < 1e-5,
            "frame {frame} ch2 = {} expected 0.5",
            out[frame * 4 + 2]
        );
        assert!(
            (out[frame * 4 + 3] - 0.5).abs() < 1e-5,
            "frame {frame} ch3 = {} expected 0.5",
            out[frame * 4 + 3]
        );
    }
}

#[test]
fn thru_routing_to_4ch_lands_on_correct_pair() {
    let sr = 48_000.0;
    let mut engine = Engine::new(s(sr), 256, &sine);
    let (mut tx, rx) = ring(8192);
    engine.attach_thru_source(0, rx, thru_cfg(sr)).unwrap();

    push_thru_input(&mut tx, 32, 0.6, 0.6);
    let mut out = vec![0.0_f32; 32 * 4];
    render_routed(&mut engine, &mut out, 4, &[Some(2), None]);
    for frame in 0..32 {
        assert!(out[frame * 4].abs() < 1e-9, "frame {frame} ch0");
        assert!(out[frame * 4 + 1].abs() < 1e-9, "frame {frame} ch1");
        assert!(
            (out[frame * 4 + 2] - 0.6).abs() < 1e-5,
            "frame {frame} ch2 = {}",
            out[frame * 4 + 2]
        );
        assert!(
            (out[frame * 4 + 3] - 0.6).abs() < 1e-5,
            "frame {frame} ch3 = {}",
            out[frame * 4 + 3]
        );
    }
}

#[test]
fn thru_render_respects_deck_gain() {
    let sr = 48_000.0;
    let mut engine = Engine::new(s(sr), 256, &sine);
    let (mut tx, rx) = ring(8192);
    engine.attach_thru_source(0, rx, thru_cfg(sr)).unwrap();
    engine.deck_mut(0).set_gain(s(0.5));

    push_thru_input(&mut tx, 32, 1.0, 1.0);
    let mut out = vec![0.0_f32; 32 * 2];
    render(&mut engine, &mut out);
    for frame in 0..32 {
        assert!(
            (out[frame * 2] - 0.5).abs() < 1e-5,
            "frame {frame}: out_l = {} expected 0.5",
            out[frame * 2]
        );
    }
}

#[test]
fn thru_render_is_alloc_free() {
    let sr = 48_000.0;
    let mut engine = Engine::new(s(sr), 256, &sine);
    let (mut tx, rx) = ring(8192);
    engine.attach_thru_source(0, rx, thru_cfg(sr)).unwrap();
    push_thru_input(&mut tx, 1024, 0.3, 0.4);
    let mut out = vec![0.0_f32; 256 * 2];
    let mut cells = singles(&out);
    assert_no_alloc(|| {
        engine.render(&mut cells, &atan2);
    });
    unpack(&cells, &mut out);
}

#[test]
fn detach_thru_returns_source_for_main_thread_drop() {
    let sr = 48_000.0;
    let mut engine = Engine::new(s(sr), 256, &sine);
    let (_tx, rx) = ring(4096);
    engine.attach_thru_source(0, rx, thru_cfg(sr)).unwrap();
    assert!(engine.thru_attached(0));
    let detached = engine.detach_thru_source(0);
    assert!(detached.is_some(), "expected Some(ThruSource)");
    assert!(
        !engine.thru_attached(0),
        "slot should be empty after detach"
    );
    drop(detached);
}

#[test]
fn handle_attach_thru_to_empty_slot_starts_dispatching() {
    let sr = 48_000.0;
    let (mut engine, mut handle) = Engine::new_with_handle(s(sr), 256, &sine);
    let (_tx, rx) = ring(4096);
    handle.attach_thru_source(0, rx, thru_cfg(sr)).unwrap();
    pump_one_block(&mut engine);
    assert!(engine.thru_attached(0));
    assert!(!engine.thru_attached(1));
}

#[test]
fn handle_attach_thru_to_filled_slot_replaces_and_trashes_previous() {
    let sr = 48_000.0;
    let (mut engine, mut handle) = Engine::new_with_handle(s(sr), 256, &sine);
    let (_tx, rx) = ring(4096);
    handle.attach_thru_source(0, rx, thru_cfg(sr)).unwrap();
    pump_one_block(&mut engine);
    let (_tx2, rx2) = ring(4096);
    handle.attach_thru_source(0, rx2, thru_cfg(sr)).unwrap();
    pump_one_block(&mut engine);
    assert_eq!(handle.thru_trash_overflow_count(), 0);
    let n = handle.reclaim();
    assert_eq!(
        n, 1,
        "expected exactly one displaced ThruSource to be reclaimed"
    );
}

#[test]
fn handle_attach_thru_rejects_invalid_deck_idx() {
    let sr = 48_000.0;
    let (_engine, mut handle) = Engine::new_with_handle(s(sr), 256, &sine);
    let (_tx, rx) = ring(64);
    let err = handle
        .attach_thru_source(DECK_COUNT, rx, thru_cfg(sr))
        .unwrap_err();
    assert!(matches!(err, ThruAttachError::InvalidDeck { .. }));
}

#[test]
fn handle_attach_thru_rejects_sr_mismatch_before_sending_command() {
    let sr = 48_000.0;
    let (mut engine, mut handle) = Engine::new_with_handle(s(sr), 256, &sine);
    let (_tx, rx) = ring(64);
    let bad_cfg = ThruInputConfig {
        max_block_frames: 256,
        input_sample_rate: s(44_100.0),
    };
    let err = handle.attach_thru_source(0, rx, bad_cfg).unwrap_err();
    assert!(matches!(err, ThruAttachError::SampleRateMismatch { .. }));
    pump_one_block(&mut engine);
    assert!(!engine.thru_attached(0));
}

#[test]
fn handle_apply_command_bad_idx_thru_attach_routes_to_trash() {
    let sr = 48_000.0;
    let (mut engine, mut handle) = Engine::new_with_handle(s(sr), 256, &sine);
    let (_tx, rx) = ring(64);
    let bogus = Box::new(ThruSource::new(rx, thru_cfg(sr)));
    engine.apply_command(Command::AttachThruSource {
        idx: 99,
        source: bogus,
    });
    assert_eq!(handle.thru_trash_overflow_count(), 0);
    let n = handle.reclaim();
    assert_eq!(n, 1, "bad-idx box must trash, not leak");
}

#[test]
fn timecode_drive_path_is_alloc_free() {
    let sr = 48_000.0_f32;
    let block = 256_usize;
    let (mut engine, mut tx) = engine_with_tc_deck0(sr, block);
    engine.deck_mut(0).set_source(constant_track(0.5, 48_000 * 2));
    engine.deck_mut(0).quiesce_declick();

    let mut gen = Generator::new(Format::SeratoCv02, sr);
    let mut sig = vec![0.0_f32; block * 2];
    let mut cells = vec![s(0.0); block * 2];
    let mut buf = vec![s(0.0); block * 2];
    gen.render(&mut sig, 1.0, 0.5);
    tx.push_slice(&singles(&sig));
    engine.render(&mut buf, &atan2);

    assert_no_alloc(|| {
        for _ in 0..50 {
            gen.render(&mut sig, 1.0, 0.5);
            for (c, x) in cells.iter_mut().zip(sig.iter()) {
                *c = s(*x);
            }
            let _ = tx.push_slice(&cells);
            engine.render(&mut buf, &atan2);
        }
    });
}

#[derive(Debug, PartialEq)]
struct ZeroPeriod;

fn start(tap: Receiver<Single>) -> Result<Receiver<Single>, ZeroPeriod> {
    Ok(tap)
}

fn track_every(analysis_period_samples: usize) -> Result<(), ZeroPeriod> {
    if analysis_period_samples == 0 {
        return Err(ZeroPeriod);
    }
    Ok(())
}

#[test]
fn handle_attach_thru_with_bpm_tracking_spawns_stream() {
    let sr = 48_000.0;
    let (mut engine, mut handle) = Engine::new_with_handle(s(sr), 256, &sine);
    let (mut tx, rx) = ring(4096);
    let mut tap = handle
        .attach_thru_source_with_bpm_tracking(0, rx, thru_cfg(sr), 48_000, start)
        .expect("attach with bpm");
    push_thru_input(&mut tx, 256, 0.5, 0.25);
    pump_one_block(&mut engine);
    assert!(engine.thru_attached(0));
    let mut mono = vec![s(0.0); 512];
    assert_eq!(tap.pop_slice(&mut mono), 256);
    assert!(mono[..256].iter().all(|x| f(*x) == 0.375));
    assert!(tap.is_connected());
    drop(engine);
    assert!(!tap.is_connected());
}

#[test]
fn handle_attach_thru_with_bpm_rejects_engine_sr_mismatch() {
    let sr = 48_000.0;
    let (_engine, mut handle) = Engine::new_with_handle(s(sr), 256, &sine);
    let (_tx, rx) = ring(64);
    let err = handle
        .attach_thru_source_with_bpm_tracking(0, rx, thru_cfg(sr), 44_100, start)
        .err();
    assert_eq!(
        err,
        Some(ThruAttachWithBpmError::SampleRateMismatch { tracker_sr: 44_100, engine_sr: 48_000 })
    );
}

#[test]
fn handle_attach_thru_with_bpm_rejects_invalid_tracker_config() {
    let sr = 48_000.0;
    let (mut engine, mut handle) = Engine::new_with_handle(s(sr), 256, &sine);
    let (_tx, rx) = ring(64);
    let err = handle
        .attach_thru_source_with_bpm_tracking(0, rx, thru_cfg(sr), 48_000, |_tap| {
            track_every(0)
        })
        .unwrap_err();
    assert!(matches!(err, ThruAttachWithBpmError::BadTrackerConfig(_)));
    pump_one_block(&mut engine);
    assert!(engine.thru_attached(0));
}

#[test]
fn handle_attach_thru_with_bpm_forwards_invalid_deck_idx() {
    let sr = 48_000.0;
    let (_engine, mut handle) = Engine::new_with_handle(s(sr), 256, &sine);
    let (_tx, rx) = ring(64);
    let err = handle
        .attach_thru_source_with_bpm_tracking(DECK_COUNT, rx, thru_cfg(sr), 48_000, start)
        .err();
    assert!(matches!(
        err,
        Some(ThruAttachWithBpmError::Thru(ThruAttachError::InvalidDeck { .. }))
    ));
}

#[test]
fn attach_thru_with_peaks() {
    let sr = 48_000.0;
    let (mut engine, mut handle) = Engine::new_with_handle(s(sr), 256, &sine);
    let (mut tx, rx) = ring(4096);
    let mut tap = handle
        .attach_thru_source_with_peaks_tracking(0, rx, thru_cfg(sr), PeakStreamConfig::at(48_000))
        .expect("attach with peaks");
    push_thru_input(&mut tx, 256, 1.0, 0.5);
    pump_one_block(&mut engine);
    let mut mono = vec![s(0.0); 512];
    assert_eq!(tap.pop_slice(&mut mono), 256);
    assert!(mono[..256].iter().all(|x| f(*x) == 0.75));

    let (_tx, rx) = ring(64);
    assert_eq!(
        handle
            .attach_thru_source_with_peaks_tracking(
                0,
                rx,
                thru_cfg(sr),
                PeakStreamConfig::at(44_100)
            )
            .err(),
        Some(ThruAttachWithPeaksError::SampleRateMismatch {
            peaks_sr: 44_100,
            engine_sr: 48_000
        })
    );
    let (_tx, rx) = ring(64);
    let mut cfg = PeakStreamConfig::at(48_000);
    cfg.samples_per_chunk = 0;
    assert_eq!(
        handle.attach_thru_source_with_peaks_tracking(1, rx, thru_cfg(sr), cfg).err(),
        Some(ThruAttachWithPeaksError::BadPeaksConfig(PeakStreamError::InvalidChunkSize))
    );
    pump_one_block(&mut engine);
    assert!(engine.thru_attached(1));
}

#[test]
fn attach_thru_with_telemetry() {
    let sr = 48_000.0;
    let (mut engine, mut handle) = Engine::new_with_handle(s(sr), 256, &sine);
    let (mut tx, rx) = ring(4096);
    let (mut bpm, mut peaks) = handle
        .attach_thru_source_with_telemetry(
            1,
            rx,
            thru_cfg(sr),
            48_000,
            start,
            PeakStreamConfig::at(48_000),
        )
        .expect("attach with both");
    push_thru_input(&mut tx, 8, 0.5, 0.25);
    pump_one_block(&mut engine);
    let mut a = vec![s(9.0); 512];
    let mut b = vec![s(9.0); 512];
    assert_eq!(bpm.pop_slice(&mut a), 256);
    assert_eq!(peaks.pop_slice(&mut b), 256);
    assert_eq!(a, b);
    assert_eq!(f(a[7]), 0.375);
    assert_eq!(f(a[8]), 0.0);

    let (_tx, rx) = ring(64);
    assert_eq!(
        handle
            .attach_thru_source_with_telemetry(
                0,
                rx,
                thru_cfg(sr),
                44_100,
                start,
                PeakStreamConfig::at(48_000)
            )
            .err(),
        Some(ThruAttachWithTelemetryError::BpmSampleRateMismatch {
            tracker_sr: 44_100,
            engine_sr: 48_000
        })
    );
    let (_tx, rx) = ring(64);
    assert_eq!(
        handle
            .attach_thru_source_with_telemetry(
                0,
                rx,
                thru_cfg(sr),
                48_000,
                start,
                PeakStreamConfig::at(44_100)
            )
            .err(),
        Some(ThruAttachWithTelemetryError::PeaksSampleRateMismatch {
            peaks_sr: 44_100,
            engine_sr: 48_000
        })
    );
    let (_tx, rx) = ring(64);
    assert!(matches!(
        handle
            .attach_thru_source_with_telemetry(
                2,
                rx,
                thru_cfg(sr),
                48_000,
                start,
                PeakStreamConfig::at(48_000)
            )
            .err(),
        Some(ThruAttachWithTelemetryError::Thru(ThruAttachError::InvalidDeck { idx: 2, count: 2 }))
    ));
    let (_tx, rx) = ring(64);
    let mut cfg = PeakStreamConfig::at(48_000);
    cfg.samples_per_chunk = 0;
    assert_eq!(
        handle.attach_thru_source_with_telemetry(0, rx, thru_cfg(sr), 48_000, start, cfg).err(),
        Some(ThruAttachWithTelemetryError::BadPeaksConfig(PeakStreamError::InvalidChunkSize))
    );
    let (_tx, rx) = ring(64);
    assert_eq!(
        handle
            .attach_thru_source_with_telemetry(
                0,
                rx,
                thru_cfg(sr),
                48_000,
                |_tap| track_every(0),
                cfg
            )
            .err(),
        Some(ThruAttachWithTelemetryError::BadTrackerConfig(ZeroPeriod))
    );
}

#[test]
fn full_channel_gives_the_track_back() {
    let (_engine, mut handle) = Engine::new_with_handle(s(48_000.0), 64, &sine);
    for _ in 0..COMMAND_CHANNEL_CAPACITY {
        handle.deck(1).play().unwrap();
    }
    assert_eq!(handle.deck(1).pause(), Err(CommandError::ChannelFull));
    assert_eq!(handle.set_master_gain(s(0.5)), Err(CommandError::ChannelFull));
    let track = constant_track(0.5, 8);
    match handle.deck(0).load(track.clone()) {
        Err((CommandError::ChannelFull, back)) => assert!(Arc::ptr_eq(&back, &track)),
        other => panic!("{:?}", other.is_ok()),
    }
    let (_tx, rx) = ring(64);
    assert_eq!(
        handle.attach_timecode_input(0, rx, TimecodeInputConfig::default()),
        Err(AttachError::ChannelFull)
    );
    let (_tx, rx) = ring(64);
    assert_eq!(
        handle.attach_thru_source(0, rx, thru_cfg(48_000.0)),
        Err(ThruAttachError::ChannelFull)
    );
}

#[test]
fn missing_decks_are_refused() {
    let (_engine, mut handle) = Engine::new_with_handle(s(48_000.0), 64, &sine);
    let missing = CommandError::InvalidDeck { idx: 2, count: 2 };
    assert_eq!(handle.deck(2).play(), Err(missing));
    assert_eq!(handle.deck(2).seek(d(1.0)), Err(missing));
    assert_eq!(handle.deck(2).set_rate(d(1.0)), Err(missing));
    assert_eq!(
        handle.deck(258).set_gain(s(1.0)),
        Err(CommandError::InvalidDeck { idx: 2, count: 2 })
    );
    let track = constant_track(0.5, 8);
    match handle.deck(7).load(track.clone()) {
        Err((e, back)) => {
            assert_eq!(e, CommandError::InvalidDeck { idx: 7, count: 2 });
            assert!(Arc::ptr_eq(&back, &track));
        }
        Ok(()) => panic!("loaded"),
    }
    assert!(handle.deck_state(2).is_none());
    let snap = handle.deck(2).snapshot();
    assert_eq!(fd(snap.position_frames), 0.0);
    assert!(!snap.is_playing && !snap.at_end);
}

#[test]
fn one_block_takes_all_commands_that_wait() {
    let (mut engine, mut handle) = Engine::new_with_handle(s(48_000.0), 64, &sine);
    for i in 0..COMMAND_CHANNEL_CAPACITY {
        handle.deck(0).set_gain(s(i as f32)).unwrap();
    }
    pump_one_block(&mut engine);
    assert_eq!(f(engine.deck(0).gain()), 255.0);
    handle.deck(0).set_rate(d(-2.0)).unwrap();
    pump_one_block(&mut engine);
    assert_eq!(fd(engine.deck(0).rate()), -2.0);
}

#[test]
fn load_keeps_the_place() {
    let (mut engine, mut handle) = Engine::new_with_handle(s(48_000.0), 64, &sine);
    engine.deck_mut(0).set_source(constant_track(0.5, 4096));
    engine.deck_mut(0).set_playing(true);
    engine.deck_mut(0).quiesce_declick();
    pump_one_block(&mut engine);
    handle.deck(0).load(constant_track(0.25, 4096)).unwrap();
    pump_one_block(&mut engine);
    assert_eq!(fd(engine.deck(0).position_frames()), 512.0);
    assert!(engine.deck(0).is_playing());
}

#[test]
fn overflow_is_counted() {
    let (mut engine, handle) = Engine::new_with_handle(s(48_000.0), 64, &sine);
    for _ in 0..TRASH_CHANNEL_CAPACITY + 3 {
        engine.apply_command(Command::DeckLoad { idx: 9, source: constant_track(0.5, 8) });
    }
    assert_eq!(handle.trash_overflow_count(), 3);
    for _ in 0..TIMECODE_TRASH_CHANNEL_CAPACITY + 1 {
        let (_tx, rx) = ring(64);
        let input = Box::new(TimecodeInput::new(rx, tight_config(48_000.0, 64)));
        engine.apply_command(Command::AttachTimecodeInput { idx: 9, input });
    }
    assert_eq!(handle.timecode_trash_overflow_count(), 1);
    for _ in 0..THRU_TRASH_CHANNEL_CAPACITY + 2 {
        let (_tx, rx) = ring(64);
        let source = Box::new(ThruSource::new(rx, thru_cfg(48_000.0)));
        engine.apply_command(Command::AttachThruSource { idx: 9, source });
    }
    assert_eq!(handle.thru_trash_overflow_count(), 2);
    let mut handle = handle;
    assert_eq!(
        handle.reclaim(),
        TRASH_CHANNEL_CAPACITY + TIMECODE_TRASH_CHANNEL_CAPACITY + THRU_TRASH_CHANNEL_CAPACITY
    );
    assert_eq!(handle.reclaim(), 0);
}

#[test]
fn no_track_is_dropped_by_a_block() {
    let (mut engine, mut handle) = Engine::new_with_handle(s(48_000.0), 64, &sine);
    let a = constant_track(0.5, 4096);
    let b = constant_track(0.25, 4096);
    let c = constant_track(0.125, 4096);
    for t in [&a, &b, &c] {
        handle.deck(0).load(t.clone()).unwrap();
    }
    handle.deck(0).play().unwrap();
    handle.deck(0).seek(d(10.0)).unwrap();
    handle.deck(0).pause().unwrap();
    pump_one_block(&mut engine);
    assert_eq!(Arc::strong_count(&a), 2);
    assert_eq!(Arc::strong_count(&b), 2);
    assert!(Arc::strong_count(&c) >= 2);
    assert!(handle.reclaim() >= 2);
    assert_eq!(Arc::strong_count(&a), 1);
    assert_eq!(Arc::strong_count(&b), 1);
}

#[test]
fn panic_play_holds_the_rate_until_the_next_lock() {
    let sr = 48_000.0_f32;
    let block = 256_usize;
    let (mut engine, mut tx) = engine_with_tc_deck0(sr, block);
    engine.deck_mut(0).set_source(constant_track(0.5, 48_000 * 2));
    engine.deck_mut(0).quiesce_declick();
    let mut gen = Generator::new(Format::SeratoCv02, sr);
    let mut sig = vec![0.0_f32; block * 2];
    let mut buf = vec![0.0_f32; block * 2];
    for _ in 0..4 {
        drive_one_block(&mut engine, &mut tx, &mut gen, &mut sig, &mut buf);
    }
    let rate = fd(engine.deck(0).rate());
    assert!((rate - 1.0).abs() < 0.01);

    engine.apply_command(Command::DeckPanicPlay { idx: 0 });
    assert!(engine.deck(0).is_playing());
    let silence = vec![s(0.0); block * 2];
    for _ in 0..4 {
        tx.push_slice(&silence);
        render(&mut engine, &mut buf);
        assert!(engine.deck(0).is_playing());
        assert!((fd(engine.deck(0).rate()) - rate).abs() < 0.01);
    }
    for _ in 0..4 {
        drive_one_block(&mut engine, &mut tx, &mut gen, &mut sig, &mut buf);
    }
    assert!(engine.deck(0).is_playing());
    for _ in 0..4 {
        tx.push_slice(&silence);
        render(&mut engine, &mut buf);
    }
    assert!(!engine.deck(0).is_playing());

    engine.apply_command(Command::DeckPanicPlay { idx: 0 });
    assert!(engine.deck(0).is_playing());
    engine.apply_command(Command::DeckCancelPanicPlay { idx: 0 });
    tx.push_slice(&silence);
    render(&mut engine, &mut buf);
    assert!(!engine.deck(0).is_playing());
}

#[test]
fn commands_for_missing_decks_do_nothing() {
    let mut engine = engine_with_two_decks(0.5, 0.25);
    for c in [
        Command::DeckPlay { idx: 2 },
        Command::DeckPause { idx: 3 },
        Command::DeckSeek { idx: 2, position_frames: d(7.0) },
        Command::DeckSetRate { idx: 2, rate: d(3.0) },
        Command::DeckSetGain { idx: 2, gain: s(0.0) },
        Command::DeckPanicPlay { idx: 2 },
        Command::DeckCancelPanicPlay { idx: 2 },
    ] {
        engine.apply_command(c);
    }
    let mut out = vec![0.0_f32; 32];
    render(&mut engine, &mut out);
    assert!(out.iter().all(|x| *x == 0.75));
}

#[test]
fn command_labels() {
    assert_eq!(Command::DeckPlay { idx: 1 }.label(), "DeckPlay");
    assert_eq!(Command::DeckPlay { idx: 1 }.deck(), Some(1));
    assert_eq!(Command::SetMasterGain { gain: s(1.0) }.label(), "SetMasterGain");
    assert_eq!(Command::SetMasterGain { gain: s(1.0) }.deck(), None);
    assert_eq!(
        Command::DeckLoad { idx: 0, source: constant_track(0.5, 8) }.label(),
        "DeckLoad"
    );
}

#[test]
fn handles_can_connect() {
    assert!(can_connect());
}

#[test]
fn command_is_send_and_bounded() {
    fn assert_send<T: Send>() {}
    assert_send::<Command>();
    assert!(core::mem::size_of::<Command>() <= 64);
}

#[test]
fn samples_that_wait_for_a_thru_source_are_counted() {
    let sr = 48_000.0;
    let mut engine = Engine::new(s(sr), 64, &sine);
    assert_eq!(engine.thru_available(0), None);
    let (mut tx, rx) = ring(64);
    engine.attach_thru_source(0, rx, thru_cfg(sr)).expect("attach");
    push_thru_input(&mut tx, 3, 0.5, 0.5);
    assert_eq!(engine.thru_available(0), Some(6));
    assert_eq!(engine.thru_available(DECK_COUNT), None);
}

#[test]
fn a_deck_shows_that_it_left_its_track() {
    let (mut engine, mut handle) = Engine::new_with_handle(s(48_000.0), 64, &sine);
    handle.deck(0).load(constant_track(0.5, 200)).ok().expect("load");
    handle.deck(0).play().unwrap();
    let mut out = vec![s(0.0); 128];
    engine.render(&mut out, &atan2);
    assert!(!handle.deck(0).snapshot().at_end);
    assert!(!engine.deck(0).is_at_end());
    engine.render(&mut out, &atan2);
    let shown = handle.deck_state(0).unwrap();
    assert!(shown.at_end && shown.is_playing);
    assert!(engine.deck(0).is_at_end());
    assert_eq!(shown.position_frames, engine.deck(0).position_frames());
    assert!(!engine.deck(0).shared().load_panic_play());
    engine.apply_command(Command::DeckPanicPlay { idx: 0 });
    assert!(engine.deck(0).shared().load_panic_play());
}

#[test]
fn a_cleared_deck_is_at_the_start_of_nothing() {
    let mut engine = Engine::new(s(48_000.0), 64, &sine);
    engine.deck_mut(1).set_source(constant_track(0.5, 1_000));
    engine.deck_mut(1).set_playing(true);
    engine.deck_mut(1).clear_source();
    assert!(engine.deck(1).source().is_none());
    assert_eq!(fd(engine.deck(1).position_frames()), 0.0);
    engine.deck_mut(1).quiesce_declick();
    let mut out = vec![s(1.0); 128];
    engine.render(&mut out, &atan2);
    assert!(out.iter().all(|x| f(*x) == 0.0));
}

#[test]
fn every_command_sends_back_what_its_deck_is_done_with() {
    let (mut engine, mut handle) = Engine::new_with_handle(s(48_000.0), 64, &sine);
    let a = constant_track(0.5, 4096);
    let b = constant_track(0.25, 4096);
    engine.apply_command(Command::DeckLoad { idx: 0, source: a.clone() });
    engine.apply_command(Command::DeckLoad { idx: 0, source: b.clone() });
    assert_eq!(Arc::strong_count(&a), 2);
    for frame in 0..3 {
        engine.apply_command(Command::DeckSeek { idx: 0, position_frames: d(frame.into()) });
    }
    assert_eq!(handle.reclaim(), 3);
    assert_eq!(Arc::strong_count(&a), 1);
    assert_eq!(Arc::strong_count(&b), 3);
    engine.apply_command(Command::DeckPlay { idx: 0 });
    assert_eq!(handle.reclaim(), 1);
    engine.apply_command(Command::DeckPause { idx: 0 });
    assert_eq!(handle.reclaim(), 1);
    engine.apply_command(Command::DeckPanicPlay { idx: 0 });
    assert_eq!(handle.reclaim(), 1);
    engine.apply_command(Command::DeckSetRate { idx: 0, rate: d(1.5) });
    engine.apply_command(Command::DeckSetGain { idx: 0, gain: s(0.5) });
    assert_eq!(handle.reclaim(), 0);
    assert_eq!(Arc::strong_count(&b), 3);
    assert_eq!(handle.trash_overflow_count(), 0);
}

#[test]
fn both_decks_are_the_sum_of_each_alone() {
    let samples = |step: f32| -> Vec<f32> { (0..1024).map(|i| (i as f32 * step).sin()).collect() };
    let play = |routing: &OutputRouting, gain: f32| -> Vec<f32> {
        let mut engine = Engine::new(s(48_000.0), 64, &sine);
        engine.set_master_gain(s(gain));
        for (idx, step) in [(0, 0.3), (1, 0.7)] {
            let track = Track::from_interleaved(singles(&samples(step)), 48_000, 2).unwrap();
            engine.deck_mut(idx).set_source(Arc::new(track));
            engine.deck_mut(idx).set_gain(s(0.9));
            engine.deck_mut(idx).set_playing(true);
            engine.deck_mut(idx).quiesce_declick();
        }
        let mut out = vec![7.0f32; 64 * 4];
        render_routed(&mut engine, &mut out, 4, routing);
        out
    };
    for (a, b) in [(0, 0), (0, 1), (0, 2), (1, 0)] {
        let both = play(&[Some(a), Some(b)], 0.6);
        let first = play(&[Some(a), None], 1.0);
        let second = play(&[None, Some(b)], 1.0);
        for j in 0..both.len() {
            assert_eq!(both[j], (first[j] + second[j]) * 0.6);
        }
        assert!(both.iter().any(|x| *x != 0.0));
    }
}

#[test]
fn commands_name_what_they_carry() {
    let load = Command::DeckLoad { idx: 0, source: constant_track(0.5, 8) };
    assert_eq!(load.payload(), Some(("source", "<Arc<Track>>")));
    let (_tx, rx) = ring(64);
    let input = Box::new(TimecodeInput::new(rx, tight_config(48_000.0, 64)));
    let attach = Command::AttachTimecodeInput { idx: 0, input };
    assert_eq!(attach.payload(), Some(("input", "<Box<TimecodeInput>>")));
    let (_tx, rx) = ring(64);
    let source = Box::new(ThruSource::new(rx, thru_cfg(48_000.0)));
    let attach = Command::AttachThruSource { idx: 0, source };
    assert_eq!(attach.payload(), Some(("source", "<Box<ThruSource>>")));
    assert_eq!(Command::DeckPlay { idx: 0 }.payload(), None);
}

#[test]
fn handle_knows_the_sample_rate() {
    let (_engine, handle) = Engine::new_with_handle(s(44_100.0), 64, &sine);
    assert_eq!(f(handle.sample_rate()), 44_100.0);
}
