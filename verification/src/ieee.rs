//! Binary floating-point arithmetic on bit patterns.
//!
//! Every operation is the correctly rounded one of IEEE 754 (round to nearest,
//! ties to even), so that a computation gives the same bits on every machine.

pub mod binary;
pub mod arith;
pub mod bounds;
pub mod convert;
pub mod double;
pub mod exact;
pub mod identities;
pub mod laws;
pub mod means;
pub mod nearness;
pub mod order;
pub mod root;
pub mod rounding;
pub mod single;
pub mod whole;
