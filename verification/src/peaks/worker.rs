//! The work of a peak stream, one poll at a time.

use vstd::prelude::*;
use vstd::slice::*;

use crate::engine::ring;
use crate::engine::ring::Receiver;
use crate::ieee::single;
use crate::ieee::single::Single;
use crate::peaks::band_decimator;
use crate::peaks::band_decimator::BandDecimator;
use crate::peaks::buffer;
use crate::peaks::buffer::PeakBuffer;
use crate::peaks::chunk;
use crate::peaks::chunk::BandPeakChunk;
use crate::peaks::chunk::PeakChunk;
use crate::peaks::decimator;
use crate::peaks::decimator::Decimator;
use crate::peaks::stream;
use crate::peaks::stream::PeakStreamConfig;
use crate::peaks::stream::PeakStreamError;
use crate::spectral::bands;
use crate::spectral::frames;

verus! {

/// Most samples that one poll takes.
pub const DRAIN_BLOCK_SAMPLES: usize = 4096;

/// Milliseconds to wait when there was nothing.
pub const POLL_INTERVAL_MS: u64 = 20;

/// What to do after a poll.
#[derive(Clone, Copy, Debug, PartialEq, Eq, Structural)]
pub enum NextPoll {
    /// There was audio: poll again.
    Again,
    /// There was none: wait, then poll again.
    Wait,
    /// The stream is over.
    Stop,
}

/// What a peak stream works with.
pub struct PeakWorker {
    audio_rx: Receiver<Single>,
    block: Vec<Single>,
    decimator: Decimator,
    band_decimator: Option<BandDecimator>,
}

/// The state of the work.
#[verifier::ext_equal]
pub ghost struct WorkerView {
    pub intake: ring::Intake<Single>,
    pub decimator: decimator::DecimatorView,
    /// The state of the bands, where they are captured.
    pub bands: Option<frames::StreamView>,
}

/// Audio turned `v` into `w` and gave `chunks` and `band_chunks`.
pub open spec fn worked<M: Fn(&[Single]) -> Vec<Single>, L: Fn(Single) -> Single>(
    fft: M,
    ln: L,
    v: WorkerView,
    w: WorkerView,
    received: Seq<Single>,
    chunks: Seq<PeakChunk>,
    band_chunks: Seq<BandPeakChunk>,
) -> bool {
    &&& received.len() <= DRAIN_BLOCK_SAMPLES
    &&& w.intake == ring::taken_in(v.intake, received, DRAIN_BLOCK_SAMPLES as nat)
    &&& w.decimator == decimator::fed(v.decimator, received)
    &&& chunks == decimator::emitted(v.decimator, received)
    &&& match v.bands {
        None => w.bands is None && band_chunks == Seq::<BandPeakChunk>::empty(),
        Some(s) => w.bands == Some(frames::given(s, received)) && band_decimator::are_emitted(
            fft,
            ln,
            s,
            received,
            band_chunks,
        ),
    }
}

/// What to do after a poll that received `received` samples, where `connected` says
/// whether the sender still existed before.
pub open spec fn next_of(received: nat, connected: bool) -> NextPoll {
    if received > 0 {
        NextPoll::Again
    } else if connected {
        NextPoll::Wait
    } else {
        NextPoll::Stop
    }
}

/// What to do after a poll that received `received` samples, where `connected` says
/// whether the sender still existed before.
pub fn next_poll(received: usize, connected: bool) -> (r: NextPoll)
    ensures
        r == next_of(received as nat, connected),
{
    if received > 0 {
        NextPoll::Again
    } else if connected {
        NextPoll::Wait
    } else {
        NextPoll::Stop
    }
}

/// A poll that received `received` turned `v` into `w`.
pub open spec fn polled<M: Fn(&[Single]) -> Vec<Single>, L: Fn(Single) -> Single>(
    fft: M,
    ln: L,
    v: WorkerView,
    w: WorkerView,
    received: Seq<Single>,
    connected: bool,
    chunks: Seq<PeakChunk>,
    band_chunks: Seq<BandPeakChunk>,
    next: NextPoll,
) -> bool {
    &&& worked(fft, ln, v, w, received, chunks, band_chunks)
    &&& next == next_of(received.len(), connected)
}

/// A buffer was made with room for the chunks of the time that is configured.
pub open spec fn has_room(cfg: PeakStreamConfig, captured: PeakBuffer) -> bool {
    let chunks = stream::chunk_capacity(
        cfg.sample_rate,
        cfg.buffer_capacity_secs,
        cfg.samples_per_chunk as nat,
    ) as usize;
    let band_chunks = stream::chunk_capacity(
        cfg.sample_rate,
        cfg.buffer_capacity_secs,
        chunk::BAND_SAMPLES_PER_CHUNK as nat,
    ) as usize;
    if cfg.bands_enabled {
        captured.made_for_both(chunks, band_chunks)
    } else {
        captured.made_for(chunks)
    }
}

impl PeakWorker {
    pub closed spec fn view(&self) -> WorkerView {
        WorkerView {
            intake: self.audio_rx.intake(),
            decimator: self.decimator@,
            bands: match self.band_decimator {
                Some(b) => Some(b@),
                None => None,
            },
        }
    }

    /// The parts are well formed.
    pub closed spec fn wf(&self) -> bool {
        &&& self.decimator.wf()
        &&& self.block@.len() == DRAIN_BLOCK_SAMPLES
        &&& self.band_decimator matches Some(b) ==> frames::well_formed(b@)
    }

    /// The ring can say that the sending end exists, or not.
    pub closed spec fn may_be_connected(&self, connected: bool) -> bool {
        self.audio_rx.may_be_connected(connected)
    }

    /// What a stream of the audio that `audio_rx` receives works with, and the buffer
    /// for its chunks.
    pub fn new<C: Fn(Single) -> Single>(
        audio_rx: Receiver<Single>,
        cfg: PeakStreamConfig,
        cos: &C,
    ) -> (r: Result<(Self, PeakBuffer), PeakStreamError>)
        requires
            forall|x: Single| call_requires(*cos, (x,)),
            stream::fault(cfg) is None ==> stream::chunk_capacity(
                cfg.sample_rate,
                cfg.buffer_capacity_secs,
                cfg.samples_per_chunk as nat,
            ) <= buffer::MAX_CHUNKS && stream::chunk_capacity(
                cfg.sample_rate,
                cfg.buffer_capacity_secs,
                chunk::BAND_SAMPLES_PER_CHUNK as nat,
            ) <= buffer::MAX_BAND_CHUNKS,
        ensures
            match r {
                Err(e) => stream::fault(cfg) == Some(e),
                Ok((worker, captured)) => {
                    &&& stream::fault(cfg) is None
                    &&& worker.wf()
                    &&& worker@.intake == audio_rx.intake()
                    &&& worker@.decimator == decimator::fresh(cfg.samples_per_chunk as nat)
                    &&& match worker@.bands {
                        None => !cfg.bands_enabled,
                        Some(s) => cfg.bands_enabled && frames::is_layout(cfg.sample_rate, s.bands)
                            && frames::is_window(*cos, s.window) && s.pending == Seq::<
                            Single,
                        >::empty(),
                    }
                    &&& captured@ == (buffer::BufferView {
                        chunks: Seq::empty(),
                        bands: if cfg.bands_enabled {
                            Some(Seq::empty())
                        } else {
                            None
                        },
                    })
                    &&& has_room(cfg, captured)
                },
            },
    {
        match cfg.validate() {
            Err(e) => {
                return Err(e);
            },
            Ok(()) => {},
        }
        let captured = if cfg.bands_enabled {
            PeakBuffer::with_capacity_with_bands(
                cfg.initial_chunk_capacity(),
                cfg.initial_band_chunk_capacity(),
            )
        } else {
            PeakBuffer::with_capacity(cfg.initial_chunk_capacity())
        };
        let worker = PeakWorker {
            audio_rx,
            block: vec![Single { bits: single::ZERO }; DRAIN_BLOCK_SAMPLES],
            decimator: Decimator::new(cfg.samples_per_chunk),
            band_decimator: if cfg.bands_enabled {
                Some(BandDecimator::new(cfg.sample_rate, cos))
            } else {
                None
            },
        };
        Ok((worker, captured))
    }

    /// Samples per broadband chunk.
    pub fn samples_per_chunk(&self) -> (r: usize)
        ensures
            r == self@.decimator.samples_per_chunk,
    {
        self.decimator.samples_per_chunk()
    }

    /// Samples per band chunk, where bands are captured.
    pub fn samples_per_band_chunk(&self) -> (r: Option<usize>)
        ensures
            r == match self@.bands {
                Some(_) => Some(chunk::BAND_SAMPLES_PER_CHUNK),
                None => None,
            },
    {
        match &self.band_decimator {
            Some(_) => Some(chunk::BAND_SAMPLES_PER_CHUNK),
            None => None,
        }
    }

    /// Takes in what has arrived, at most one block, and appends the chunks that it
    /// completes. Says what to do next: where nothing arrived the stream is over
    /// once the sender is gone. Where the stream was shut down, nothing is done.
    pub fn poll<M: Fn(&[Single]) -> Vec<Single>, L: Fn(Single) -> Single>(
        &mut self,
        shut_down: bool,
        fft: &M,
        ln: &L,
        captured: &mut PeakBuffer,
    ) -> (next: NextPoll)
        requires
            old(self).wf(),
            forall|s: &[Single]| s@.len() == bands::FRAME_SIZE ==> call_requires(*fft, (s,)),
            forall|s: &[Single], m: Vec<Single>|
                s@.len() == bands::FRAME_SIZE && call_ensures(*fft, (s,), m) ==> m@.len()
                    == frames::HALF_SPECTRUM,
            forall|x: Single| call_requires(*ln, (x,)),
        ensures
            final(self).wf(),
            shut_down ==> next == NextPoll::Stop && final(self)@ == old(self)@
                && final(captured)@ == old(captured)@,
            !shut_down ==> exists|connected: bool|
                old(self).may_be_connected(connected) && #[trigger] captured_more(
                    *fft,
                    *ln,
                    connected,
                    old(self)@,
                    final(self)@,
                    old(captured)@,
                    final(captured)@,
                    next,
                ),
    {
        if shut_down {
            return NextPoll::Stop;
        }
        let ghost v = self@;
        let ghost held = captured@;
        let connected: bool = self.audio_rx.is_connected();
        let n: usize = self.audio_rx.pop_slice(self.block.as_mut_slice());
        let block: &[Single] = slice_subrange(self.block.as_slice(), 0, n);
        let ghost received = block@;
        assert(received =~= self.block@.take(n as int));
        let mut chunks: Vec<PeakChunk> = Vec::new();
        self.decimator.feed(block, &mut chunks);
        assert(chunks@ =~= decimator::emitted(v.decimator, received));
        captured.push_chunks(chunks.as_slice());
        let mut band_chunks: Vec<BandPeakChunk> = Vec::new();
        match &mut self.band_decimator {
            Some(bd) => {
                bd.feed(block, fft, ln, &mut band_chunks);
                assert(band_chunks@.skip(0) =~= band_chunks@);
            },
            None => {},
        }
        captured.push_band_chunks(band_chunks.as_slice());
        let next: NextPoll = next_poll(n, connected);
        proof {
            assert(polled(*fft, *ln, v, self@, received, connected, chunks@, band_chunks@, next));
            assert(captured@ =~= appended(held, chunks@, band_chunks@));
            assert(old(self).may_be_connected(connected));
            assert(captured_more(*fft, *ln, connected, v, self@, held, captured@, next));
        }
        next
    }
}

/// A buffer after chunks were appended to it.
pub open spec fn appended(
    v: buffer::BufferView,
    chunks: Seq<PeakChunk>,
    band_chunks: Seq<BandPeakChunk>,
) -> buffer::BufferView {
    buffer::BufferView {
        chunks: v.chunks + chunks,
        bands: match v.bands {
            Some(b) => Some(b + band_chunks),
            None => None,
        },
    }
}

/// The polls of a worker join: the broadband chunks of two polls are those of one stream of all that was
/// received, and what was received goes on from poll to poll.
pub proof fn law_polls_join<M: Fn(&[Single]) -> Vec<Single>, L: Fn(Single) -> Single>(
    fft: M,
    ln: L,
    v: WorkerView,
    x: WorkerView,
    w: WorkerView,
    first: Seq<Single>,
    chunks: Seq<PeakChunk>,
    band_chunks: Seq<BandPeakChunk>,
    second: Seq<Single>,
    more: Seq<PeakChunk>,
    more_bands: Seq<BandPeakChunk>,
)
    requires
        worked(fft, ln, v, x, first, chunks, band_chunks),
        worked(fft, ln, x, w, second, more, more_bands),
        v.decimator.samples_per_chunk > 0,
    ensures
        chunks + more == decimator::emitted(v.decimator, first + second),
        w.decimator == decimator::fed(v.decimator, first + second),
        w.intake.taken == v.intake.taken + first + second,
{
    decimator::law_blocks_do_not_matter(v.decimator, first, second);
}

/// What was captured stays, and what is new comes after it; of the bands, only where bands are captured
/// at all.
pub proof fn law_captures_grow(
    v: buffer::BufferView,
    chunks: Seq<PeakChunk>,
    band_chunks: Seq<BandPeakChunk>,
)
    ensures
        ({
            let w = appended(v, chunks, band_chunks);
            let n = v.chunks.len() as int;
            &&& w.chunks.take(n) == v.chunks
            &&& w.chunks.skip(n) == chunks
            &&& v.bands is None ==> w.bands is None
            &&& v.bands matches Some(b) ==> w.bands is Some && w.bands->0.take(b.len() as int) == b
                && w.bands->0.skip(b.len() as int) == band_chunks
        }),
{
    let w = appended(v, chunks, band_chunks);
    assert(w.chunks.take(v.chunks.len() as int) =~= v.chunks);
    assert(w.chunks.skip(v.chunks.len() as int) =~= chunks);
    if let Some(b) = v.bands {
        assert(w.bands->0.take(b.len() as int) =~= b);
        assert(w.bands->0.skip(b.len() as int) =~= band_chunks);
    }
}

/// A poll appended the chunks of what it received to a buffer. Before it, the ring had answered
/// `connected` to the question whether the sender exists.
pub open spec fn captured_more<M: Fn(&[Single]) -> Vec<Single>, L: Fn(Single) -> Single>(
    fft: M,
    ln: L,
    connected: bool,
    v: WorkerView,
    w: WorkerView,
    held: buffer::BufferView,
    holds: buffer::BufferView,
    next: NextPoll,
) -> bool {
    exists|
        received: Seq<Single>,
        chunks: Seq<PeakChunk>,
        band_chunks: Seq<BandPeakChunk>,
    | #[trigger]
        polled(fft, ln, v, w, received, connected, chunks, band_chunks, next) && holds == appended(
            held,
            chunks,
            band_chunks,
        )
}

/// A stream whose sender is gone goes on while anything is left in the ring, and stops with the
/// first poll that finds nothing. While the sender exists, no poll ends the stream.
pub proof fn law_stream_ends_with_its_sender<
    M: Fn(&[Single]) -> Vec<Single>,
    L: Fn(Single) -> Single,
>(
    fft: M,
    ln: L,
    connected: bool,
    v: WorkerView,
    w: WorkerView,
    held: buffer::BufferView,
    holds: buffer::BufferView,
    next: NextPoll,
)
    requires
        captured_more(fft, ln, connected, v, w, held, holds, next),
    ensures
        connected ==> next != NextPoll::Stop,
        !connected ==> next != NextPoll::Wait,
        next == NextPoll::Again <==> v.intake.taken.len() < w.intake.taken.len(),
        next != NextPoll::Again ==> w.intake.taken == v.intake.taken && w.decimator
            == decimator::fed(v.decimator, Seq::empty()),
{
    let (received, chunks, band_chunks) = choose|
        received: Seq<Single>,
        chunks: Seq<PeakChunk>,
        band_chunks: Seq<BandPeakChunk>,
    | #[trigger]
        polled(fft, ln, v, w, received, connected, chunks, band_chunks, next) && holds == appended(
            held,
            chunks,
            band_chunks,
        );
    if received.len() == 0 {
        assert(received =~= Seq::<Single>::empty());
        assert(v.intake.taken + received =~= v.intake.taken);
    }
}

} // verus!
