//! What other threads ask of the engine.

use std::sync::Arc;
use vstd::prelude::*;

use crate::engine::thru::ThruSource;
use crate::ieee::double::Double;
use crate::ieee::single::Single;
use crate::timecode::input::TimecodeInput;
use crate::track::Track;

verus! {

/// One request to the engine. `idx` is the deck it is for.
pub enum Command {
    /// Start a deck.
    DeckPlay { idx: u8 },
    /// Pause a deck.
    DeckPause { idx: u8 },
    /// Move the playhead of a deck.
    DeckSeek { idx: u8, position_frames: Double },
    /// Set the rate of a deck.
    DeckSetRate { idx: u8, rate: Double },
    /// Let a deck play on at its last good rate, whatever the timecode says, until
    /// the timecode locks again.
    DeckPanicPlay { idx: u8 },
    /// Hand a deck back to its timecode.
    DeckCancelPanicPlay { idx: u8 },
    /// Set the gain of a deck.
    DeckSetGain { idx: u8, gain: Single },
    /// Put another track on a deck.
    DeckLoad { idx: u8, source: Arc<Track> },
    /// Set the gain of the mix.
    SetMasterGain { gain: Single },
    /// Let a deck follow a timecode input.
    AttachTimecodeInput { idx: u8, input: Box<TimecodeInput> },
    /// Let a deck play a record through.
    AttachThruSource { idx: u8, source: Box<ThruSource> },
}

/// The deck that a command is for.
pub open spec fn deck_of(c: Command) -> Option<u8> {
    match c {
        Command::DeckPlay { idx } => Some(idx),
        Command::DeckPause { idx } => Some(idx),
        Command::DeckSeek { idx, .. } => Some(idx),
        Command::DeckSetRate { idx, .. } => Some(idx),
        Command::DeckPanicPlay { idx } => Some(idx),
        Command::DeckCancelPanicPlay { idx } => Some(idx),
        Command::DeckSetGain { idx, .. } => Some(idx),
        Command::DeckLoad { idx, .. } => Some(idx),
        Command::SetMasterGain { .. } => None,
        Command::AttachTimecodeInput { idx, .. } => Some(idx),
        Command::AttachThruSource { idx, .. } => Some(idx),
    }
}

/// The name of a command.
pub open spec fn label_of(c: Command) -> Seq<char> {
    match c {
        Command::DeckPlay { .. } => "DeckPlay"@,
        Command::DeckPause { .. } => "DeckPause"@,
        Command::DeckSeek { .. } => "DeckSeek"@,
        Command::DeckSetRate { .. } => "DeckSetRate"@,
        Command::DeckPanicPlay { .. } => "DeckPanicPlay"@,
        Command::DeckCancelPanicPlay { .. } => "DeckCancelPanicPlay"@,
        Command::DeckSetGain { .. } => "DeckSetGain"@,
        Command::DeckLoad { .. } => "DeckLoad"@,
        Command::SetMasterGain { .. } => "SetMasterGain"@,
        Command::AttachTimecodeInput { .. } => "AttachTimecodeInput"@,
        Command::AttachThruSource { .. } => "AttachThruSource"@,
    }
}

/// What a command carries on the heap: the name of the field, and what stands for it in a text.
pub open spec fn payload_of(c: Command) -> Option<(Seq<char>, Seq<char>)> {
    match c {
        Command::DeckLoad { .. } => Some(("source"@, "<Arc<Track>>"@)),
        Command::AttachTimecodeInput { .. } => Some(("input"@, "<Box<TimecodeInput>>"@)),
        Command::AttachThruSource { .. } => Some(("source"@, "<Box<ThruSource>>"@)),
        _ => None,
    }
}

impl Command {
    /// What the command carries on the heap, if anything: the name of the field, and what stands
    /// for it in a text.
    pub fn payload(&self) -> (r: Option<(&'static str, &'static str)>)
        ensures
            match (r, payload_of(*self)) {
                (Some(a), Some(b)) => a.0@ == b.0 && a.1@ == b.1,
                (None, None) => true,
                _ => false,
            },
    {
        match self {
            Command::DeckLoad { .. } => Some(("source", "<Arc<Track>>")),
            Command::AttachTimecodeInput { .. } => Some(("input", "<Box<TimecodeInput>>")),
            Command::AttachThruSource { .. } => Some(("source", "<Box<ThruSource>>")),
            _ => None,
        }
    }

    /// The name of the command.
    pub fn label(&self) -> (r: &'static str)
        ensures
            r@ == label_of(*self),
    {
        match self {
            Command::DeckPlay { .. } => "DeckPlay",
            Command::DeckPause { .. } => "DeckPause",
            Command::DeckSeek { .. } => "DeckSeek",
            Command::DeckSetRate { .. } => "DeckSetRate",
            Command::DeckPanicPlay { .. } => "DeckPanicPlay",
            Command::DeckCancelPanicPlay { .. } => "DeckCancelPanicPlay",
            Command::DeckSetGain { .. } => "DeckSetGain",
            Command::DeckLoad { .. } => "DeckLoad",
            Command::SetMasterGain { .. } => "SetMasterGain",
            Command::AttachTimecodeInput { .. } => "AttachTimecodeInput",
            Command::AttachThruSource { .. } => "AttachThruSource",
        }
    }

    /// The deck that the command is for.
    pub fn deck(&self) -> (r: Option<u8>)
        ensures
            r == deck_of(*self),
    {
        match self {
            Command::DeckPlay { idx } => Some(*idx),
            Command::DeckPause { idx } => Some(*idx),
            Command::DeckSeek { idx, .. } => Some(*idx),
            Command::DeckSetRate { idx, .. } => Some(*idx),
            Command::DeckPanicPlay { idx } => Some(*idx),
            Command::DeckCancelPanicPlay { idx } => Some(*idx),
            Command::DeckSetGain { idx, .. } => Some(*idx),
            Command::DeckLoad { idx, .. } => Some(*idx),
            Command::SetMasterGain { .. } => None,
            Command::AttachTimecodeInput { idx, .. } => Some(*idx),
            Command::AttachThruSource { idx, .. } => Some(*idx),
        }
    }
}

} // verus!
