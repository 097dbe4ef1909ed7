//! Timecode vinyl: the formats and the decoder of their carriers.

pub mod coherence;
pub mod decoder;
pub mod following;
pub mod format;
pub mod holding;
pub mod input;
pub mod lift;
pub mod mirror;
pub mod pace;
pub mod turning;
