//! What a peak stream is configured with.

use vstd::arithmetic::div_mod::*;
use vstd::prelude::*;

use crate::peaks::chunk;

verus! {

/// Configuration of a peak stream.
#[derive(Clone, Copy, Debug)]
pub struct PeakStreamConfig {
    /// Engine sample rate in hertz.
    pub sample_rate: u32,
    /// Samples per broadband chunk.
    pub samples_per_chunk: usize,
    /// Seconds of audio for which the buffer reserves room.
    pub buffer_capacity_secs: u64,
    /// Whether to capture the loudness of the bands too.
    pub bands_enabled: bool,
}

/// Why a peak stream cannot start.
#[derive(Clone, Copy, Debug, PartialEq, Eq, Structural)]
pub enum PeakStreamError {
    InvalidSampleRate,
    InvalidChunkSize,
}

/// The first fault of a configuration.
pub open spec fn fault(c: PeakStreamConfig) -> Option<PeakStreamError> {
    if c.sample_rate == 0 {
        Some(PeakStreamError::InvalidSampleRate)
    } else if c.samples_per_chunk == 0 {
        Some(PeakStreamError::InvalidChunkSize)
    } else {
        None
    }
}

/// Chunks of `per_chunk` samples in `secs` seconds, where the number of samples
/// is cut off at `usize::MAX`.
pub open spec fn chunk_capacity(sample_rate: u32, secs: u64, per_chunk: nat) -> nat {
    let total = sample_rate * (secs as usize);
    let cut = if total > usize::MAX {
        usize::MAX as nat
    } else {
        total as nat
    };
    cut / if per_chunk == 0 {
        1nat
    } else {
        per_chunk
    }
}

/// Room is reserved for all the chunks that fit in the time, and no more: one more would not be full.
pub proof fn law_room_is_for_whole_chunks(sample_rate: u32, secs: u64, per_chunk: nat)
    requires
        0 < per_chunk,
        sample_rate * (secs as usize) <= usize::MAX,
        secs <= usize::MAX,
    ensures
        ({
            let n = chunk_capacity(sample_rate, secs, per_chunk);
            n * per_chunk <= sample_rate * secs < (n + 1) * per_chunk
        }),
{
    let total = sample_rate * (secs as usize);
    lemma_fundamental_div_mod(total as int, per_chunk as int);
    lemma_mod_bound(total as int, per_chunk as int);
    let n = chunk_capacity(sample_rate, secs, per_chunk);
    assert((n + 1) * per_chunk == per_chunk * n + per_chunk && n * per_chunk == per_chunk * n)
        by (nonlinear_arith);
}

/// A stream needs a sample rate and a chunk size, and starts with both.
pub proof fn law_streams_need_rate_and_size(c: PeakStreamConfig)
    ensures
        fault(c) is None <==> c.sample_rate > 0 && c.samples_per_chunk > 0,
        fault(c) == Some(PeakStreamError::InvalidSampleRate) <==> c.sample_rate == 0,
{
}

impl PeakStreamConfig {
    /// The defaults at a sample rate.
    pub fn at(sample_rate: u32) -> (r: Self)
        ensures
            r.sample_rate == sample_rate,
            r.samples_per_chunk == chunk::DEFAULT_SAMPLES_PER_CHUNK,
            r.buffer_capacity_secs == chunk::DEFAULT_BUFFER_CAPACITY_SECS,
            r.bands_enabled,
    {
        PeakStreamConfig {
            sample_rate,
            samples_per_chunk: chunk::DEFAULT_SAMPLES_PER_CHUNK,
            buffer_capacity_secs: chunk::DEFAULT_BUFFER_CAPACITY_SECS,
            bands_enabled: true,
        }
    }

    /// Samples for which to reserve room, at most `usize::MAX`.
    fn samples_to_hold(&self) -> (r: usize)
        ensures
            ({
                let total = self.sample_rate * (self.buffer_capacity_secs as usize);
                r == if total > usize::MAX {
                    usize::MAX as int
                } else {
                    total
                }
            }),
    {
        match (self.sample_rate as usize).checked_mul(self.buffer_capacity_secs as usize) {
            Some(total) => total,
            None => usize::MAX,
        }
    }

    /// Broadband chunks for which to reserve room.
    pub fn initial_chunk_capacity(&self) -> (r: usize)
        ensures
            r == chunk_capacity(
                self.sample_rate,
                self.buffer_capacity_secs,
                self.samples_per_chunk as nat,
            ),
    {
        let total: usize = self.samples_to_hold();
        if self.samples_per_chunk == 0 {
            total
        } else {
            total / self.samples_per_chunk
        }
    }

    /// Band chunks for which to reserve room.
    pub fn initial_band_chunk_capacity(&self) -> (r: usize)
        ensures
            r == chunk_capacity(
                self.sample_rate,
                self.buffer_capacity_secs,
                chunk::BAND_SAMPLES_PER_CHUNK as nat,
            ),
    {
        let total: usize = self.samples_to_hold();
        total / chunk::BAND_SAMPLES_PER_CHUNK
    }

    /// Whether a stream can start with this configuration.
    pub fn validate(&self) -> (r: Result<(), PeakStreamError>)
        ensures
            match r {
                Ok(()) => fault(*self) is None,
                Err(e) => fault(*self) == Some(e),
            },
    {
        if self.sample_rate == 0 {
            return Err(PeakStreamError::InvalidSampleRate);
        }
        if self.samples_per_chunk == 0 {
            return Err(PeakStreamError::InvalidChunkSize);
        }
        Ok(())
    }
}

} // verus!
