//! What the audio thread shows of a deck to other threads.

use std::sync::atomic::AtomicBool;
use std::sync::atomic::AtomicU64;
use std::sync::atomic::Ordering;
use std::sync::Arc;
use vstd::prelude::*;

use crate::ieee::double;
use crate::ieee::double::Double;

verus! {

/// The transport of a deck as other threads see it. One thread writes, any thread
/// reads; each value is consistent by itself. What a reader finds depends on when
/// it looks: a writer stores to its value, a reader returns what a load of its value can
/// return, and nothing is said of when the one finds what the other stored.
#[derive(Debug)]
pub struct DeckSharedState {
    position_bits: AtomicU64,
    is_playing: AtomicBool,
    at_end: AtomicBool,
    is_panic_play: AtomicBool,
}

impl DeckSharedState {
    /// It was made to show a deck that is stopped at the start.
    pub closed spec fn made_at_rest(&self) -> bool {
        &&& call_ensures(AtomicU64::new, (double::ZERO,), self.position_bits)
        &&& call_ensures(AtomicBool::new, (false,), self.is_playing)
        &&& call_ensures(AtomicBool::new, (false,), self.at_end)
        &&& call_ensures(AtomicBool::new, (false,), self.is_panic_play)
    }

    /// A reader can find the playhead at `frames`.
    pub closed spec fn may_show_position(&self, frames: Double) -> bool {
        call_ensures(AtomicU64::load, (&self.position_bits, Ordering::Relaxed), frames.bits)
    }

    /// A reader can find the deck playing, or not.
    pub closed spec fn may_show_playing(&self, playing: bool) -> bool {
        call_ensures(AtomicBool::load, (&self.is_playing, Ordering::Relaxed), playing)
    }

    /// A reader can find the playhead outside of the track, or not.
    pub closed spec fn may_show_at_end(&self, at_end: bool) -> bool {
        call_ensures(AtomicBool::load, (&self.at_end, Ordering::Relaxed), at_end)
    }

    /// A reader can find the deck holding its rate on its own, or not.
    pub closed spec fn may_show_panic_play(&self, panic: bool) -> bool {
        call_ensures(AtomicBool::load, (&self.is_panic_play, Ordering::Relaxed), panic)
    }

    /// A playhead at `frames` was stored, where readers look for the playhead.
    pub closed spec fn stored_position(&self, frames: Double) -> bool {
        call_ensures(
            AtomicU64::store,
            (&self.position_bits, frames.bits, Ordering::Relaxed),
            (),
        )
    }

    /// That the deck plays, or not, was stored where readers look for it.
    pub closed spec fn stored_playing(&self, playing: bool) -> bool {
        call_ensures(AtomicBool::store, (&self.is_playing, playing, Ordering::Relaxed), ())
    }

    /// That the playhead is outside of the track, or not, was stored where readers look for it.
    pub closed spec fn stored_at_end(&self, at_end: bool) -> bool {
        call_ensures(AtomicBool::store, (&self.at_end, at_end, Ordering::Relaxed), ())
    }

    /// That the deck holds its rate on its own, or not, was stored where readers look for it.
    pub closed spec fn stored_panic_play(&self, panic: bool) -> bool {
        call_ensures(AtomicBool::store, (&self.is_panic_play, panic, Ordering::Relaxed), ())
    }

    /// Stopped at the start.
    pub fn new() -> (r: Self)
        ensures
            r.made_at_rest(),
    {
        DeckSharedState {
            position_bits: AtomicU64::new(double::ZERO),
            is_playing: AtomicBool::new(false),
            at_end: AtomicBool::new(false),
            is_panic_play: AtomicBool::new(false),
        }
    }

    /// Shows a playhead.
    pub(crate) fn store_position(&self, frames: Double)
        ensures
            self.stored_position(frames),
    {
        self.position_bits.store(frames.bits, Ordering::Relaxed);
    }

    /// The playhead that was shown.
    pub fn load_position(&self) -> (r: Double)
        ensures
            self.may_show_position(r),
    {
        Double { bits: self.position_bits.load(Ordering::Relaxed) }
    }

    /// Shows whether the deck plays.
    pub(crate) fn store_playing(&self, playing: bool)
        ensures
            self.stored_playing(playing),
    {
        self.is_playing.store(playing, Ordering::Relaxed);
    }

    /// Whether the deck was shown to play.
    pub fn load_playing(&self) -> (r: bool)
        ensures
            self.may_show_playing(r),
    {
        self.is_playing.load(Ordering::Relaxed)
    }

    /// Shows whether the playhead has left the track.
    pub(crate) fn store_at_end(&self, at_end: bool)
        ensures
            self.stored_at_end(at_end),
    {
        self.at_end.store(at_end, Ordering::Relaxed);
    }

    /// Whether the playhead was shown to have left the track.
    pub fn load_at_end(&self) -> (r: bool)
        ensures
            self.may_show_at_end(r),
    {
        self.at_end.load(Ordering::Relaxed)
    }

    /// Shows whether the deck holds its rate on its own.
    pub(crate) fn store_panic_play(&self, panic: bool)
        ensures
            self.stored_panic_play(panic),
    {
        self.is_panic_play.store(panic, Ordering::Relaxed);
    }

    /// Whether the deck was shown to hold its rate on its own.
    pub fn load_panic_play(&self) -> (r: bool)
        ensures
            self.may_show_panic_play(r),
    {
        self.is_panic_play.load(Ordering::Relaxed)
    }
}

/// What a deck shows.
#[derive(Clone, Copy, Debug, PartialEq, Eq, Structural)]
pub struct Shown {
    pub position: Double,
    pub playing: bool,
    pub at_end: bool,
    pub panic_play: bool,
}

/// Each value of `s` that differs from the one `before` was stored for readers.
pub open spec fn changes_stored(board: DeckSharedState, before: Shown, s: Shown) -> bool {
    &&& s.position != before.position ==> board.stored_position(s.position)
    &&& s.playing != before.playing ==> board.stored_playing(s.playing)
    &&& s.at_end != before.at_end ==> board.stored_at_end(s.at_end)
    &&& s.panic_play != before.panic_play ==> board.stored_panic_play(s.panic_play)
}

/// The writing end of a shared state, with what was last written.
#[derive(Debug)]
pub struct Display {
    board: Arc<DeckSharedState>,
    last: Shown,
}

impl Display {
    /// Where it writes.
    pub closed spec fn board(&self) -> Arc<DeckSharedState> {
        self.board
    }

    /// What it last wrote.
    pub closed spec fn last(&self) -> Shown {
        self.last
    }

    /// A new shared state.
    pub fn new() -> (r: Self)
        ensures
            r.board().made_at_rest(),
            r.last() == (Shown {
                position: Double { bits: double::ZERO },
                playing: false,
                at_end: false,
                panic_play: false,
            }),
    {
        Display {
            board: Arc::new(DeckSharedState::new()),
            last: Shown {
                position: Double { bits: double::ZERO },
                playing: false,
                at_end: false,
                panic_play: false,
            },
        }
    }

    /// The shared state, for readers.
    pub fn share(&self) -> (r: Arc<DeckSharedState>)
        ensures
            r == self.board(),
    {
        self.board.clone()
    }

    /// Shows what has changed: each value that differs from the last one is stored.
    pub fn show(&mut self, s: Shown)
        ensures
            final(self).board() == old(self).board(),
            final(self).last() == s,
            changes_stored(*final(self).board(), old(self).last(), s),
    {
        if s.position != self.last.position {
            self.board.store_position(s.position);
        }
        if s.playing != self.last.playing {
            self.board.store_playing(s.playing);
        }
        if s.at_end != self.last.at_end {
            self.board.store_at_end(s.at_end);
        }
        if s.panic_play != self.last.panic_play {
            self.board.store_panic_play(s.panic_play);
        }
        self.last = s;
    }
}

} // verus!
