//! The engine: decks, their inputs, the mixer and its control from outside.

pub mod asking;
pub mod blending;
pub mod command;
pub mod custody;
pub mod deck;
pub mod declick;
pub mod disposal;
pub mod forget;
pub mod handle;
pub mod hearing;
pub mod joining;
pub mod laws;
pub mod mixer;
pub mod obedience;
pub mod pacing;
pub mod playback;
pub mod ramps;
pub mod reading;
pub mod ring;
pub mod shared;
pub mod summing;
pub mod thru;
