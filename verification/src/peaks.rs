//! Waveform peaks: decimation of audio into chunks for display.

pub mod band_decimator;
pub mod buffer;
pub mod chunk;
pub mod covering;
pub mod decimator;
pub mod filtered;
pub mod offline;
pub mod onset;
pub mod passband;
pub mod rising;
pub mod stream;
pub mod synthetic;
pub mod telling;
pub mod windows;
pub mod worker;
