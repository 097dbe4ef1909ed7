//! The decisions of decoding a file, one event at a time.
//!
//! Whoever reads the file asks the loader what to do with each packet and hands it
//! what the decoder made of it.

use vstd::prelude::*;

use crate::ieee::single::Single;
use crate::track;
use crate::track::LoadError;
use crate::track::Track;

verus! {

/// What came of asking the file for its next packet.
#[derive(Debug)]
pub enum PacketEvent {
    /// A packet of a stream.
    Packet { track_id: u32 },
    /// The file is at its end.
    EndOfFile,
    /// The streams of the file change.
    ResetRequired,
    /// The file could not be read on.
    Failed(String),
}

/// What to do after asking for a packet.
#[derive(Debug)]
pub enum PacketStep {
    /// Decode the packet.
    Decode,
    /// Ask for the next one.
    Skip,
    /// The track is complete.
    Finish,
    /// The track cannot be loaded.
    Fail(LoadError),
}

/// What came of decoding a packet.
#[derive(Debug)]
pub enum DecodeEvent {
    /// Interleaved samples, with the sample rate and the number of channels.
    Decoded { rate: u32, channel_count: usize, samples: Vec<Single> },
    /// The packet is damaged.
    Damaged,
    /// The decoder cannot go on.
    Failed(String),
}

/// One stream of a file.
#[derive(Clone, Copy, Debug)]
pub struct StreamInfo {
    pub id: u32,
    /// Whether its codec is known.
    pub has_codec: bool,
}

/// What was decoded so far.
pub struct TrackLoader {
    track_id: u32,
    sample_rate: Option<u32>,
    channels: Option<u8>,
    samples: Vec<Single>,
}

/// The state of a loader.
#[verifier::ext_equal]
pub ghost struct LoaderView {
    /// The stream that is decoded.
    pub track_id: u32,
    pub sample_rate: Option<u32>,
    pub channels: Option<u8>,
    pub samples: Seq<Single>,
}

/// A number of channels in one byte.
pub open spec fn narrow_count(count: nat) -> u8 {
    if count > u8::MAX {
        u8::MAX
    } else {
        count as u8
    }
}

/// The loader after samples were decoded: the first ones settle what the file did
/// not say.
pub open spec fn decoded(
    v: LoaderView,
    rate: u32,
    channel_count: nat,
    samples: Seq<Single>,
) -> LoaderView {
    LoaderView {
        sample_rate: match v.sample_rate {
            Some(r) => Some(r),
            None => Some(rate),
        },
        channels: match v.channels {
            Some(c) => Some(c),
            None => Some(narrow_count(channel_count)),
        },
        samples: v.samples + samples,
        ..v
    }
}

/// The first packet settles what the file did not say, and no later one changes it; samples are kept in
/// the order in which they came.
pub proof fn law_first_packet_settles(
    v: LoaderView,
    rate: u32,
    count: nat,
    samples: Seq<Single>,
    later_rate: u32,
    later_count: nat,
    more: Seq<Single>,
)
    ensures
        ({
            let a = decoded(v, rate, count, samples);
            let b = decoded(a, later_rate, later_count, more);
            &&& a.sample_rate == Some(
                if v.sample_rate is Some {
                    v.sample_rate->0
                } else {
                    rate
                },
            )
            &&& v.channels is Some ==> a.channels == v.channels
            &&& v.channels is None && count <= u8::MAX ==> a.channels == Some(count as u8)
            &&& v.channels is None && count > u8::MAX ==> a.channels == Some(u8::MAX)
            &&& b.sample_rate == a.sample_rate
            &&& b.channels == a.channels
            &&& b.samples == v.samples + samples + more
            &&& b.track_id == v.track_id
        }),
{
}

/// A format error that says `text`.
pub open spec fn is_format_error(e: LoadError, text: Seq<char>) -> bool {
    e matches LoadError::Format(s) && s@ == text
}

/// The first stream whose codec is known.
pub fn choose_stream(streams: &[StreamInfo]) -> (r: Result<u32, LoadError>)
    ensures
        match r {
            Ok(id) => exists|i: int|
                0 <= i < streams@.len() && (#[trigger] streams@[i]).has_codec && streams@[i].id
                    == id && forall|j: int| 0 <= j < i ==> !(#[trigger] streams@[j]).has_codec,
            Err(e) => e == LoadError::NoAudioTrack && forall|j: int|
                0 <= j < streams@.len() ==> !(#[trigger] streams@[j]).has_codec,
        },
{
    let len: usize = streams.len();
    let mut i: usize = 0;
    while i < len
        invariant
            i <= len,
            len == streams@.len(),
            forall|j: int| 0 <= j < i ==> !(#[trigger] streams@[j]).has_codec,
        decreases len - i,
    {
        if streams[i].has_codec {
            return Ok(streams[i].id);
        }
        i = i + 1;
    }
    Err(LoadError::NoAudioTrack)
}

/// A number of channels in one byte; what does not fit becomes the greatest.
fn channels_of(count: usize) -> (r: u8)
    ensures
        r == narrow_count(count as nat),
{
    if count > u8::MAX as usize {
        u8::MAX
    } else {
        count as u8
    }
}

impl TrackLoader {
    pub closed spec fn view(&self) -> LoaderView {
        LoaderView {
            track_id: self.track_id,
            sample_rate: self.sample_rate,
            channels: self.channels,
            samples: self.samples@,
        }
    }

    /// A loader for the stream `track_id`, with what the file says of it.
    pub fn new(track_id: u32, sample_rate: Option<u32>, channel_count: Option<usize>) -> (r: Self)
        ensures
            r@ == (LoaderView {
                track_id,
                sample_rate,
                channels: match channel_count {
                    Some(n) => Some(narrow_count(n as nat)),
                    None => None,
                },
                samples: Seq::empty(),
            }),
    {
        TrackLoader {
            track_id,
            sample_rate,
            channels: match channel_count {
                Some(n) => Some(channels_of(n)),
                None => None,
            },
            samples: Vec::new(),
        }
    }

    /// What to do after asking for a packet: packets of other streams are skipped.
    pub fn on_packet(&self, event: PacketEvent) -> (r: PacketStep)
        ensures
            match event {
                PacketEvent::Packet { track_id } => r == if track_id == self@.track_id {
                    PacketStep::Decode
                } else {
                    PacketStep::Skip
                },
                PacketEvent::EndOfFile => r == PacketStep::Finish,
                PacketEvent::ResetRequired => r matches PacketStep::Fail(e) && is_format_error(
                    e,
                    "decoder reset required"@,
                ),
                PacketEvent::Failed(why) => r == PacketStep::Fail(LoadError::Format(why)),
            },
    {
        match event {
            PacketEvent::Packet { track_id } => if track_id == self.track_id {
                PacketStep::Decode
            } else {
                PacketStep::Skip
            },
            PacketEvent::EndOfFile => PacketStep::Finish,
            PacketEvent::ResetRequired => PacketStep::Fail(
                LoadError::Format("decoder reset required".to_string()),
            ),
            PacketEvent::Failed(why) => PacketStep::Fail(LoadError::Format(why)),
        }
    }

    /// Takes in what the decoder made of a packet; a damaged one is left out.
    pub fn on_decode(&mut self, event: DecodeEvent) -> (r: Result<(), LoadError>)
        ensures
            match event {
                DecodeEvent::Decoded { rate, channel_count, samples } => r is Ok && final(self)@
                    == decoded(old(self)@, rate, channel_count as nat, samples@),
                DecodeEvent::Damaged => r is Ok && final(self)@ == old(self)@,
                DecodeEvent::Failed(why) => r is Err && r->Err_0 == LoadError::Format(why)
                    && final(self)@ == old(self)@,
            },
    {
        match event {
            DecodeEvent::Decoded { rate, channel_count, samples } => {
                if self.sample_rate.is_none() {
                    self.sample_rate = Some(rate);
                }
                if self.channels.is_none() {
                    self.channels = Some(channels_of(channel_count));
                }
                let mut more: Vec<Single> = samples;
                self.samples.append(&mut more);
                Ok(())
            },
            DecodeEvent::Damaged => Ok(()),
            DecodeEvent::Failed(why) => Err(LoadError::Format(why)),
        }
    }

    /// The track, once the file is at its end.
    pub fn finish(self) -> (r: Result<Track, LoadError>)
        ensures
            match (self@.sample_rate, self@.channels) {
                (None, _) => r matches Err(e) && is_format_error(e, "no sample rate found"@),
                (Some(_), None) => r matches Err(e) && is_format_error(
                    e,
                    "no channel layout found"@,
                ),
                (Some(sample_rate), Some(channels)) => if channels < 1 || channels > 2 {
                    r is Err && r->Err_0 == LoadError::UnsupportedChannels(channels)
                } else if self@.samples.len() == 0 {
                    r is Err && r->Err_0 == LoadError::Empty
                } else {
                    r matches Ok(t) && t@ == (track::TrackView {
                        samples: self@.samples,
                        sample_rate,
                        channels,
                        frames: self@.samples.len() / (channels as nat),
                        bpm: None,
                    })
                },
            },
    {
        let sample_rate: u32 = match self.sample_rate {
            Some(r) => r,
            None => {
                return Err(LoadError::Format("no sample rate found".to_string()));
            },
        };
        let channels: u8 = match self.channels {
            Some(c) => c,
            None => {
                return Err(LoadError::Format("no channel layout found".to_string()));
            },
        };
        if channels < 1 || channels > 2 {
            return Err(LoadError::UnsupportedChannels(channels));
        }
        if self.samples.len() == 0 {
            return Err(LoadError::Empty);
        }
        Ok(Track::from_decoded(self.samples, sample_rate, channels))
    }
}

} // verus!
