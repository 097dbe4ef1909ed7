//! Loading of tracks, event by event.

use dub::ieee::single::Single;
use dub::track::loader::choose_stream;
use dub::track::loader::DecodeEvent;
use dub::track::loader::PacketEvent;
use dub::track::loader::PacketStep;
use dub::track::loader::StreamInfo;
use dub::track::loader::TrackLoader;
use dub::track::LoadError;

fn singles(x: &[f32]) -> Vec<Single> {
    x.iter().map(|v| Single { bits: v.to_bits() }).collect()
}

fn stream(id: u32, has_codec: bool) -> StreamInfo {
    StreamInfo { id, has_codec }
}

fn decoded(rate: u32, channel_count: usize, samples: &[f32]) -> DecodeEvent {
    DecodeEvent::Decoded { rate, channel_count, samples: singles(samples) }
}

fn format_message(e: LoadError) -> String {
    match e {
        LoadError::Format(why) => why,
        other => panic!("expected a format error, got {other:?}"),
    }
}

#[test]
fn the_first_stream_with_a_codec_is_chosen() {
    let streams = [stream(4, false), stream(7, true), stream(9, true)];
    assert_eq!(choose_stream(&streams).unwrap(), 7);
    assert!(matches!(choose_stream(&streams[..1]), Err(LoadError::NoAudioTrack)));
    assert!(matches!(choose_stream(&[]), Err(LoadError::NoAudioTrack)));
}

#[test]
fn packets_of_other_streams_are_skipped() {
    let loader = TrackLoader::new(7, None, None);
    assert!(matches!(
        loader.on_packet(PacketEvent::Packet { track_id: 7 }),
        PacketStep::Decode
    ));
    assert!(matches!(
        loader.on_packet(PacketEvent::Packet { track_id: 9 }),
        PacketStep::Skip
    ));
    assert!(matches!(loader.on_packet(PacketEvent::EndOfFile), PacketStep::Finish));
}

#[test]
fn trouble_with_packets_fails() {
    let loader = TrackLoader::new(7, None, None);
    match loader.on_packet(PacketEvent::ResetRequired) {
        PacketStep::Fail(e) => assert_eq!(format_message(e), "decoder reset required"),
        other => panic!("{other:?}"),
    }
    match loader.on_packet(PacketEvent::Failed("torn".to_string())) {
        PacketStep::Fail(e) => assert_eq!(format_message(e), "torn"),
        other => panic!("{other:?}"),
    }
}

#[test]
fn the_file_says_the_rate_before_the_packets_do() {
    let mut loader = TrackLoader::new(1, Some(44_100), Some(2));
    loader.on_decode(decoded(48_000, 1, &[0.25, -0.25])).unwrap();
    let track = loader.finish().unwrap();
    assert_eq!(track.sample_rate(), 44_100);
    assert_eq!(track.channels(), 2);
    assert_eq!(track.frames(), 1);
}

#[test]
fn the_first_packet_settles_what_the_file_left_open() {
    let mut loader = TrackLoader::new(1, None, None);
    loader.on_decode(decoded(48_000, 1, &[0.5])).unwrap();
    loader.on_decode(decoded(96_000, 2, &[0.25, 0.75])).unwrap();
    let track = loader.finish().unwrap();
    assert_eq!(track.sample_rate(), 48_000);
    assert_eq!(track.channels(), 1);
    assert_eq!(track.samples(), &singles(&[0.5, 0.25, 0.75])[..]);
    assert!(track.bpm().is_none());
}

#[test]
fn damaged_packets_are_left_out() {
    let mut loader = TrackLoader::new(1, None, None);
    loader.on_decode(DecodeEvent::Damaged).unwrap();
    loader.on_decode(decoded(48_000, 2, &[0.5, 0.5])).unwrap();
    loader.on_decode(DecodeEvent::Damaged).unwrap();
    assert_eq!(loader.finish().unwrap().frames(), 1);
}

#[test]
fn a_decoder_that_cannot_go_on_fails() {
    let mut loader = TrackLoader::new(1, None, None);
    let e = loader.on_decode(DecodeEvent::Failed("bad table".to_string())).unwrap_err();
    assert_eq!(format_message(e), "bad table");
}

#[test]
fn an_odd_sample_at_the_end_makes_no_frame() {
    let mut loader = TrackLoader::new(1, Some(48_000), Some(2));
    loader.on_decode(decoded(48_000, 2, &[0.5, 0.25, 0.75])).unwrap();
    let track = loader.finish().unwrap();
    assert_eq!(track.frames(), 1);
    assert_eq!(track.samples().len(), 3);
}

#[test]
fn what_is_missing_is_named_in_order() {
    let e = TrackLoader::new(1, None, None).finish().unwrap_err();
    assert_eq!(format_message(e), "no sample rate found");
    let e = TrackLoader::new(1, Some(48_000), None).finish().unwrap_err();
    assert_eq!(format_message(e), "no channel layout found");
    let e = TrackLoader::new(1, Some(48_000), Some(6)).finish().unwrap_err();
    assert!(matches!(e, LoadError::UnsupportedChannels(6)));
    let e = TrackLoader::new(1, Some(48_000), Some(1_000)).finish().unwrap_err();
    assert!(matches!(e, LoadError::UnsupportedChannels(255)));
    let e = TrackLoader::new(1, Some(48_000), Some(0)).finish().unwrap_err();
    assert!(matches!(e, LoadError::UnsupportedChannels(0)));
    let e = TrackLoader::new(1, Some(48_000), Some(2)).finish().unwrap_err();
    assert!(matches!(e, LoadError::Empty));
}
