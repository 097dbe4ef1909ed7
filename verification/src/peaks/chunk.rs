//! The chunks that decimation produces.

use vstd::prelude::*;

use crate::ieee::single;
use crate::ieee::single::Single;
use crate::spectral::bands;

verus! {

/// Samples per broadband chunk.
pub const DEFAULT_SAMPLES_PER_CHUNK: usize = 64;

/// Samples per band chunk: one hop of the spectral analysis.
pub const BAND_SAMPLES_PER_CHUNK: usize = 512;

/// Seconds of audio for which buffers reserve room.
pub const DEFAULT_BUFFER_CAPACITY_SECS: u64 = 600;

/// Seconds of audio that the tap ring holds.
pub const PEAKS_TAP_RING_CAPACITY_SECS: usize = 1;

/// Zero in single precision.
pub open spec fn zero() -> Single {
    Single { bits: single::ZERO }
}

/// One decimated chunk of a waveform: the least and the greatest sample and the
/// root of the mean square.
#[derive(Clone, Copy, Debug, PartialEq, Eq, Structural)]
pub struct PeakChunk {
    pub min: Single,
    pub max: Single,
    pub rms: Single,
}

impl PeakChunk {
    /// Silence.
    pub fn zero() -> (r: Self)
        ensures
            r == (PeakChunk { min: zero(), max: zero(), rms: zero() }),
    {
        PeakChunk {
            min: Single { bits: single::ZERO },
            max: Single { bits: single::ZERO },
            rms: Single { bits: single::ZERO },
        }
    }
}

/// The loudness of each band over one hop.
#[derive(Clone, Copy, Debug, PartialEq, Eq)]
pub struct BandPeakChunk {
    pub rms_per_band: [Single; 8],
}

impl BandPeakChunk {
    /// Silence.
    pub fn zero() -> (r: Self)
        ensures
            forall|k: int| 0 <= k < bands::NUM_BANDS ==> #[trigger] r.rms_per_band@[k] == zero(),
    {
        BandPeakChunk { rms_per_band: [Single { bits: single::ZERO }; 8] }
    }
}

impl Default for BandPeakChunk {
    fn default() -> (r: Self)
        ensures
            forall|k: int| 0 <= k < bands::NUM_BANDS ==> #[trigger] r.rms_per_band@[k] == zero(),
    {
        BandPeakChunk::zero()
    }
}

/// The strength of an onset over one hop.
#[derive(Clone, Copy, Debug, PartialEq, Eq, Structural)]
pub struct OnsetChunk {
    pub flux: Single,
}

/// The extremes of a chunk after a filter for each of three bands.
#[derive(Clone, Copy, Debug, PartialEq, Eq, Structural)]
pub struct FilteredPeakChunk {
    pub lf_min: Single,
    pub lf_max: Single,
    pub mf_min: Single,
    pub mf_max: Single,
    pub hf_min: Single,
    pub hf_max: Single,
}

} // verus!
