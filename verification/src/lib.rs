//! A two-deck audio engine for timecode vinyl, in software arithmetic whose
//! every bit is specified.

pub mod engine;
pub mod ieee;
pub mod peaks;
pub mod spectral;
pub mod text;
pub mod timecode;
pub mod track;

use vstd::prelude::*;

verus! {

/// The version of the library.
pub const VERSION: &'static str = "0.1.0";

} // verus!
