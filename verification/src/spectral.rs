//! Spectral analysis: the layout of the frequency bands and the stream of
//! windowed frames.

pub mod bands;
pub mod edges;
pub mod frames;
pub mod windowing;
