//! Playback, fades and disposal on one deck.

use std::sync::Arc;

use dub::engine::deck::Deck;
use dub::engine::declick::DeclickEnvelope;
use dub::ieee::double::Double;
use dub::ieee::single::Single;
use dub::track::Track;

fn s(x: f32) -> Single {
    Single { bits: x.to_bits() }
}

fn f(x: Single) -> f32 {
    f32::from_bits(x.bits)
}

fn d(x: f64) -> Double {
    Double { bits: x.to_bits() }
}

fn fd(x: Double) -> f64 {
    f64::from_bits(x.bits)
}

fn singles(xs: &[f32]) -> Vec<Single> {
    xs.iter().map(|x| s(*x)).collect()
}

fn sine(x: Single) -> Single {
    s(f(x).sin())
}

fn render(deck: &mut Deck, out: &mut [f32], engine_sr: f32) {
    let mut cells = singles(out);
    deck.render(&mut cells, s(engine_sr));
    for (o, c) in out.iter_mut().zip(cells) {
        *o = f(c);
    }
}

fn const_track(samples: &[f32], channels: u8, sample_rate: u32) -> Arc<Track> {
    Arc::new(Track::from_interleaved(singles(samples), sample_rate, channels).unwrap())
}

fn test_deck() -> Deck {
    Deck::new(DeclickEnvelope::new(s(48_000.0), s(2.0), &sine))
}

#[test]
fn empty_deck_renders_silence() {
    let mut deck = test_deck();
    let mut out = [0.5f32; 8];
    render(&mut deck, &mut out, 48_000.0);
    for s in out {
        assert_eq!(s, 0.5);
    }
}

#[test]
fn paused_deck_does_not_advance() {
    let mut deck = test_deck();
    deck.set_source(const_track(&[0.5, -0.5, 0.5, -0.5], 2, 48_000));
    deck.set_playing(false);
    deck.quiesce_declick();
    let mut out = [0.0f32; 8];
    render(&mut deck, &mut out, 48_000.0);
    for s in out {
        assert_eq!(s, 0.0);
    }
    assert_eq!(fd(deck.position_frames()), 0.0);
}

#[test]
fn forward_playback_at_unity_rate_matches_source() {
    let mut samples = Vec::new();
    for i in 0..4 {
        samples.push(i as f32);
        samples.push(-(i as f32));
    }
    let mut deck = test_deck();
    deck.set_source(const_track(&samples, 2, 48_000));
    deck.set_playing(true);
    deck.quiesce_declick();

    let mut out = vec![0.0f32; 8];
    render(&mut deck, &mut out, 48_000.0);

    for f in 0..4 {
        assert_eq!(out[f * 2], f as f32);
        assert_eq!(out[f * 2 + 1], -(f as f32));
    }
}

#[test]
fn reverse_playback_reads_in_reverse() {
    let track = const_track(&[1.0, 2.0, 3.0, 4.0], 1, 48_000);
    let mut deck = test_deck();
    deck.set_source(track);
    deck.set_playing(true);
    deck.set_position_frames(d(3.0));
    deck.set_rate(d(-1.0));
    deck.quiesce_declick();

    let mut out = vec![0.0f32; 8];
    render(&mut deck, &mut out, 48_000.0);

    let expected = [4.0, 4.0, 3.0, 3.0, 2.0, 2.0, 1.0, 1.0];
    for (got, want) in out.iter().zip(expected.iter()) {
        assert!((got - want).abs() < 1e-6, "got {got}, want {want}");
    }
}

#[test]
fn out_of_range_position_is_silent() {
    let track = const_track(&[1.0, 2.0, 3.0, 4.0], 1, 48_000);
    let mut deck = test_deck();
    deck.set_source(track);
    deck.set_playing(true);
    deck.set_rate(d(1.0));
    deck.set_position_frames(d(-100.0));
    deck.quiesce_declick();

    let mut out = vec![0.5f32; 8];
    render(&mut deck, &mut out, 48_000.0);
    for s in out {
        assert_eq!(s, 0.5);
    }
}

#[test]
fn deck_render_is_additive_not_replacing() {
    let track = const_track(&[1.0, 1.0, 1.0, 1.0], 1, 48_000);
    let mut deck = test_deck();
    deck.set_source(track);
    deck.set_playing(true);
    deck.quiesce_declick();

    let mut out = vec![0.5f32; 8];
    render(&mut deck, &mut out, 48_000.0);
    for s in out {
        assert!((s - 1.5).abs() < 1e-6, "got {s}");
    }
}

#[test]
fn deck_gain_scales_output() {
    let track = const_track(&[1.0, 1.0, 1.0, 1.0], 1, 48_000);
    let mut deck = test_deck();
    deck.set_source(track);
    deck.set_playing(true);
    deck.set_gain(s(0.25));
    deck.quiesce_declick();

    let mut out = vec![0.0f32; 8];
    render(&mut deck, &mut out, 48_000.0);
    for s in out {
        assert!((s - 0.25).abs() < 1e-6);
    }
}

#[test]
fn sample_rate_conversion_44k_to_48k() {
    let track = const_track(&[0.1, 0.2, 0.3, 0.4], 1, 44_100);
    let mut deck = test_deck();
    deck.set_source(track);
    deck.set_playing(true);
    deck.quiesce_declick();

    let mut out = vec![0.0f32; 8];
    render(&mut deck, &mut out, 48_000.0);

    let expected = 4.0 * 44_100.0 / 48_000.0;
    assert!(
        (fd(deck.position_frames()) - expected).abs() < 1e-6,
        "got {} want {}",
        fd(deck.position_frames()),
        expected
    );
}

fn const_value_track(value: f32, frames: usize) -> Arc<Track> {
    let samples: Vec<f32> = std::iter::repeat_n(value, frames * 2).collect();
    Arc::new(Track::from_interleaved(singles(&samples), 48_000, 2).unwrap())
}

#[test]
fn declick_fade_in_starts_at_zero_and_reaches_full() {
    let mut deck = test_deck();
    deck.set_source(const_value_track(1.0, 1024));
    deck.set_playing(true);

    let mut out = vec![0.0f32; 256 * 2];
    render(&mut deck, &mut out, 48_000.0);

    assert!(
        out[0].abs() < 1e-6,
        "first sample was {}, expected ~0",
        out[0]
    );
    for (i, s) in out.chunks_exact(2).enumerate().skip(96) {
        assert!(
            (s[0] - 1.0).abs() < 1e-6,
            "post-fade frame {i}: got {}, expected 1.0",
            s[0]
        );
    }
}

#[test]
fn declick_fade_is_monotonic_no_jump_discontinuity() {
    let mut deck = test_deck();
    deck.set_source(const_value_track(1.0, 1024));
    deck.set_playing(true);

    let mut out = vec![0.0f32; 256 * 2];
    render(&mut deck, &mut out, 48_000.0);

    let l_channel: Vec<f32> = out.iter().step_by(2).copied().collect();
    let mut max_diff = 0.0f32;
    for w in l_channel.windows(2) {
        let d = (w[1] - w[0]).abs();
        if d > max_diff {
            max_diff = d;
        }
    }
    assert!(
        max_diff < 0.05,
        "max sample-to-sample delta = {max_diff} (want < 0.05); a true \
         jump-discontinuity would produce a delta of ~1.0"
    );
}

#[test]
fn declick_fade_out_to_silence_on_pause() {
    let mut deck = test_deck();
    deck.set_source(const_value_track(1.0, 1024));
    deck.set_playing(true);
    deck.quiesce_declick();

    deck.set_playing(false);

    let mut out = vec![0.0f32; 256 * 2];
    render(&mut deck, &mut out, 48_000.0);

    assert!(
        (out[0] - 1.0).abs() < 1e-6,
        "first sample {} should be ~1.0 (start of fade-out)",
        out[0]
    );
    for (i, s) in out.chunks_exact(2).enumerate().skip(96) {
        assert!(
            s[0].abs() < 1e-6,
            "post-fade frame {i}: got {}, expected silence",
            s[0]
        );
    }
}

#[test]
fn declick_crossfade_between_two_tracks() {
    let mut deck = test_deck();
    deck.set_source(const_value_track(1.0, 1024));
    deck.set_playing(true);
    deck.quiesce_declick();

    deck.swap_source(const_value_track(-1.0, 1024));

    let mut out = vec![0.0f32; 256 * 2];
    render(&mut deck, &mut out, 48_000.0);

    assert!(
        (out[0] - 1.0).abs() < 1e-6,
        "fade-start should be old value 1.0, got {}",
        out[0]
    );
    for (i, s) in out.chunks_exact(2).enumerate().skip(96) {
        assert!(
            (s[0] - (-1.0)).abs() < 1e-6,
            "post-fade frame {i}: got {}, expected -1.0",
            s[0]
        );
    }
    let l: Vec<f32> = out.iter().step_by(2).copied().collect();
    let mut max_diff = 0.0f32;
    for w in l.windows(2) {
        let d = (w[1] - w[0]).abs();
        if d > max_diff {
            max_diff = d;
        }
    }
    assert!(max_diff < 0.1, "max delta {max_diff} suggests a jump");
}

#[test]
fn declick_back_to_back_swaps_strand_no_arcs() {
    let track_a = Arc::new(Track::from_interleaved(singles(&[0.5f32; 1024]), 48_000, 2).unwrap());
    let track_b = Arc::new(Track::from_interleaved(singles(&[0.25f32; 1024]), 48_000, 2).unwrap());
    let track_c = Arc::new(Track::from_interleaved(singles(&[0.1f32; 1024]), 48_000, 2).unwrap());

    let count_a_initial = Arc::strong_count(&track_a);
    let count_b_initial = Arc::strong_count(&track_b);
    let count_c_initial = Arc::strong_count(&track_c);

    let mut deck = test_deck();
    deck.set_source(track_a.clone());
    deck.swap_source(track_b.clone());
    deck.swap_source(track_c.clone());

    let pending = deck.take_pending_disposal();
    assert!(pending.is_some(), "pending_disposal should hold A");
    assert!(Arc::ptr_eq(pending.as_ref().unwrap(), &track_a));

    drop(pending);

    let mut out = vec![0.0f32; 256 * 2];
    deck.set_playing(true);
    deck.quiesce_declick();
    render(&mut deck, &mut out, 48_000.0);

    assert_eq!(
        Arc::strong_count(&track_a),
        count_a_initial,
        "A's count should be restored"
    );
    let _ = count_b_initial;
    assert!(Arc::strong_count(&track_c) >= count_c_initial);
}

#[test]
fn track_tail_fade_smooths_natural_end_of_track() {
    let track = const_value_track(1.0, 1024);
    let mut deck = test_deck();
    deck.set_source(track);
    deck.set_playing(true);
    deck.set_position_frames(d(900.0));
    deck.quiesce_declick();

    let mut out = vec![0.0f32; 256 * 2];
    render(&mut deck, &mut out, 48_000.0);

    let l: Vec<f32> = out.iter().step_by(2).copied().collect();

    assert!(
        l[200].abs() < 1e-6,
        "post-end frame 200: {} should be silent",
        l[200]
    );

    let mut max_diff = 0.0f32;
    for w in l.windows(2) {
        let d = (w[1] - w[0]).abs();
        if d > max_diff {
            max_diff = d;
        }
    }
    assert!(
        max_diff < 0.1,
        "max sample-to-sample delta = {max_diff}; without tail-fade \
         it would be 1.0 at the track-end boundary"
    );
}

#[test]
fn track_tail_fade_skipped_for_short_tracks() {
    let track = const_track(&[1.0, 1.0, 1.0, 1.0], 1, 48_000);
    let mut deck = test_deck();
    deck.set_source(track);
    deck.set_playing(true);
    deck.quiesce_declick();

    let mut out = vec![0.0f32; 8];
    render(&mut deck, &mut out, 48_000.0);

    for s in &out {
        assert!(
            (s - 1.0).abs() < 1e-6,
            "tail-fade shouldn't fire on a 4-frame track; got {s}"
        );
    }
}

#[test]
fn seek_past_the_end_lands_on_the_end() {
    let mut deck = test_deck();
    deck.set_position_frames(d(10.0));
    assert_eq!(fd(deck.position_frames()), 10.0);
    deck.set_source(const_track(&[1.0, 2.0, 3.0, 4.0], 1, 48_000));
    deck.set_position_frames(d(10.0));
    assert_eq!(fd(deck.position_frames()), 4.0);
    assert_eq!(fd(deck.shared().load_position()), 4.0);
    assert!(!deck.is_at_end());
    deck.set_position_frames(d(f64::INFINITY));
    assert_eq!(fd(deck.position_frames()), 4.0);
    deck.set_position_frames(d(4.0));
    assert_eq!(fd(deck.position_frames()), 4.0);
    deck.set_position_frames(d(3.5));
    assert_eq!(fd(deck.position_frames()), 3.5);
    deck.set_position_frames(d(-2.0));
    assert_eq!(fd(deck.position_frames()), -2.0);
}

#[test]
fn whole_rates_play_alike_in_both_directions() {
    let samples: Vec<f32> = (0..400).map(|i| (i as f32 * 0.37).sin()).collect();
    let track = const_track(&samples, 2, 48_000);
    let n = 8;
    let play = |from: f64, rate: f64| {
        let mut deck = test_deck();
        deck.set_source(Arc::clone(&track));
        deck.set_playing(true);
        deck.set_position_frames(d(from));
        deck.set_rate(d(rate));
        deck.set_gain(s(0.7));
        deck.quiesce_declick();
        let mut out = vec![0.0f32; n * 2];
        render(&mut deck, &mut out, 48_000.0);
        (out, fd(deck.position_frames()))
    };
    let (forward, end) = play(-5.0, 3.0);
    assert_eq!(end, -5.0 + 8.0 * 3.0);
    let (backward, end) = play(-5.0 + 7.0 * 3.0, -3.0);
    assert_eq!(end, -5.0 - 3.0);
    for i in 0..n {
        for c in 0..2 {
            assert_eq!(backward[(n - 1 - i) * 2 + c], forward[i * 2 + c]);
        }
    }
    assert!(forward.iter().any(|x| *x != 0.0));
}

#[test]
fn leaving_the_track_is_shown() {
    let mut deck = test_deck();
    deck.set_source(const_track(&[1.0, 2.0, 3.0, 4.0], 1, 48_000));
    deck.set_playing(true);
    deck.quiesce_declick();
    let board = deck.shared();
    let mut out = vec![0.0f32; 6];
    render(&mut deck, &mut out, 48_000.0);
    assert_eq!(fd(board.load_position()), 3.0);
    assert!(!board.load_at_end());
    render(&mut deck, &mut out, 48_000.0);
    assert_eq!(fd(board.load_position()), 6.0);
    assert!(board.load_at_end());
    assert!(board.load_playing());
    deck.set_rate(d(-1.0));
    render(&mut deck, &mut out, 48_000.0);
    assert_eq!(fd(board.load_position()), 3.0);
    assert!(!board.load_at_end());
    for _ in 0..2 {
        render(&mut deck, &mut out, 48_000.0);
    }
    assert_eq!(fd(board.load_position()), -3.0);
    assert!(board.load_at_end());
}

#[test]
fn a_deck_without_a_track_stays_where_it_is() {
    let mut deck = test_deck();
    deck.set_position_frames(d(2.5));
    deck.set_playing(true);
    let mut out = vec![0.0f32; 64];
    render(&mut deck, &mut out, 48_000.0);
    assert_eq!(fd(deck.position_frames()), 2.5);
}

#[test]
fn the_end_of_a_track_never_swells() {
    let mut deck = test_deck();
    deck.set_source(const_value_track(1.0, 256));
    deck.set_playing(true);
    deck.quiesce_declick();
    let mut out = vec![0.0f32; 2 * 300];
    render(&mut deck, &mut out, 48_000.0);
    for i in 1..300 {
        assert!(out[2 * i] <= out[2 * i - 2], "frame {i}");
    }
    assert_eq!(out[2 * 160], 1.0);
    assert_eq!(out[2 * 256], 0.0);
    assert_eq!(out[2 * 299], 0.0);
}
