//! Chunks that were captured, in order.

use vstd::prelude::*;
use vstd::slice::*;

use crate::peaks::chunk::BandPeakChunk;
use crate::peaks::chunk::PeakChunk;

verus! {

/// Most broadband chunks that fit into memory.
pub const MAX_CHUNKS: usize = isize::MAX as usize / 12;

/// Most band chunks that fit into memory.
pub const MAX_BAND_CHUNKS: usize = isize::MAX as usize / 32;

/// The chunks that were captured. Chunks are appended and never removed.
#[derive(Debug)]
pub struct PeakBuffer {
    chunks: Vec<PeakChunk>,
    bands: Option<Vec<BandPeakChunk>>,
}

/// What a buffer holds.
#[verifier::ext_equal]
pub ghost struct BufferView {
    pub chunks: Seq<PeakChunk>,
    /// The band chunks, where they are captured.
    pub bands: Option<Seq<BandPeakChunk>>,
}

/// The band chunks of a buffer; none where they are not captured.
pub open spec fn band_chunks(v: BufferView) -> Seq<BandPeakChunk> {
    match v.bands {
        Some(b) => b,
        None => Seq::empty(),
    }
}

/// What follows the first `start` items; nothing where there are not so many.
pub open spec fn tail<T>(items: Seq<T>, start: nat) -> Seq<T> {
    if start < items.len() {
        items.skip(start as int)
    } else {
        Seq::empty()
    }
}

/// A copy of what a buffer held.
#[derive(Debug)]
pub struct PeakSnapshot {
    pub chunks: Vec<PeakChunk>,
}

/// A copy of the band chunks that a buffer held.
#[derive(Debug)]
pub struct BandPeakSnapshot {
    pub chunks: Vec<BandPeakChunk>,
}

/// Appends items from `start` on.
fn append_from<T: Copy>(items: &Vec<T>, start: usize, dst: &mut Vec<T>)
    requires
        start <= items@.len(),
    ensures
        final(dst)@ == old(dst)@ + items@.skip(start as int),
{
    let ghost before = dst@;
    let len: usize = items.len();
    let mut i: usize = start;
    assert(before + items@.subrange(start as int, start as int) =~= before);
    while i < len
        invariant
            start <= i <= len,
            len == items@.len(),
            dst@ == before + items@.subrange(start as int, i as int),
        decreases len - i,
    {
        dst.push(items[i]);
        assert(items@.subrange(start as int, i + 1) =~= items@.subrange(
            start as int,
            i as int,
        ).push(items@[i as int]));
        assert(before + items@.subrange(start as int, i + 1) =~= (before + items@.subrange(
            start as int,
            i as int,
        )).push(items@[i as int]));
        i = i + 1;
    }
    assert(items@.subrange(start as int, len as int) =~= items@.skip(start as int));
}

/// Appends items.
fn append<T: Copy>(items: &[T], dst: &mut Vec<T>)
    ensures
        final(dst)@ == old(dst)@ + items@,
{
    let ghost before = dst@;
    let len: usize = items.len();
    let mut i: usize = 0;
    assert(before + items@.take(0) =~= before);
    while i < len
        invariant
            i <= len,
            len == items@.len(),
            dst@ == before + items@.take(i as int),
        decreases len - i,
    {
        dst.push(items[i]);
        assert(before + items@.take(i + 1) =~= (before + items@.take(i as int)).push(
            items@[i as int],
        ));
        i = i + 1;
    }
    assert(items@.take(len as int) =~= items@);
}

impl PeakBuffer {
    pub closed spec fn view(&self) -> BufferView {
        BufferView {
            chunks: self.chunks@,
            bands: match self.bands {
                Some(b) => Some(b@),
                None => None,
            },
        }
    }

    /// The chunks are held as they were when room for `capacity` of them was asked for.
    pub closed spec fn made_for(&self, capacity: usize) -> bool {
        call_ensures(Vec::<PeakChunk>::with_capacity, (capacity,), self.chunks)
    }

    /// It was made with room for `capacity` chunks and `band_capacity` band chunks.
    pub closed spec fn made_for_both(&self, capacity: usize, band_capacity: usize) -> bool {
        &&& self.made_for(capacity)
        &&& self.bands matches Some(b) && call_ensures(
            Vec::<BandPeakChunk>::with_capacity,
            (band_capacity,),
            b,
        )
    }

    /// An empty buffer without bands, with room for some chunks. It grows where that
    /// is not enough.
    pub fn with_capacity(capacity: usize) -> (r: Self)
        requires
            capacity <= MAX_CHUNKS,
        ensures
            r@ == (BufferView { chunks: Seq::empty(), bands: None }),
            r.made_for(capacity),
    {
        PeakBuffer { chunks: Vec::with_capacity(capacity), bands: None }
    }

    /// An empty buffer with bands, with room for some chunks of each kind.
    pub fn with_capacity_with_bands(capacity: usize, band_capacity: usize) -> (r: Self)
        requires
            capacity <= MAX_CHUNKS,
            band_capacity <= MAX_BAND_CHUNKS,
        ensures
            r@ == (BufferView { chunks: Seq::empty(), bands: Some(Seq::empty()) }),
            r.made_for_both(capacity, band_capacity),
    {
        let chunks: Vec<PeakChunk> = Vec::with_capacity(capacity);
        let bands: Vec<BandPeakChunk> = Vec::with_capacity(band_capacity);
        PeakBuffer { chunks, bands: Some(bands) }
    }

    /// Whether bands are captured.
    pub fn has_bands(&self) -> (r: bool)
        ensures
            r == (self@.bands is Some),
    {
        self.bands.is_some()
    }

    /// How many chunks were captured.
    pub fn len(&self) -> (r: usize)
        ensures
            r == self@.chunks.len(),
    {
        self.chunks.len()
    }

    /// Whether no chunk was captured.
    pub fn is_empty(&self) -> (r: bool)
        ensures
            r == (self@.chunks.len() == 0),
    {
        self.chunks.len() == 0
    }

    /// Appends chunks.
    pub fn push_chunks(&mut self, chunks: &[PeakChunk])
        ensures
            final(self)@ == (BufferView { chunks: old(self)@.chunks + chunks@, ..old(self)@ }),
    {
        append(chunks, &mut self.chunks);
    }

    /// Appends the chunks from `start_idx` on to `dst` and returns how many there are
    /// in all: where to go on next time.
    pub fn extend_chunks(&self, start_idx: usize, dst: &mut Vec<PeakChunk>) -> (r: usize)
        ensures
            r == self@.chunks.len(),
            final(dst)@ == old(dst)@ + tail(self@.chunks, start_idx as nat),
    {
        let len: usize = self.chunks.len();
        if start_idx >= len {
            assert(dst@ + Seq::<PeakChunk>::empty() =~= dst@);
            return len;
        }
        append_from(&self.chunks, start_idx, dst);
        len
    }

    /// A copy of all chunks.
    pub fn snapshot(&self) -> (r: PeakSnapshot)
        ensures
            r.chunks@ == self@.chunks,
    {
        let mut chunks: Vec<PeakChunk> = Vec::new();
        append(self.chunks.as_slice(), &mut chunks);
        assert(chunks@ =~= self.chunks@);
        PeakSnapshot { chunks }
    }

    /// How many band chunks were captured.
    pub fn band_len(&self) -> (r: usize)
        ensures
            r == band_chunks(self@).len(),
    {
        match &self.bands {
            Some(b) => b.len(),
            None => 0,
        }
    }

    /// Appends band chunks, where they are captured.
    pub fn push_band_chunks(&mut self, chunks: &[BandPeakChunk])
        ensures
            final(self)@ == (BufferView {
                bands: match old(self)@.bands {
                    Some(b) => Some(b + chunks@),
                    None => None,
                },
                ..old(self)@
            }),
    {
        match self.bands.take() {
            Some(mut b) => {
                append(chunks, &mut b);
                self.bands = Some(b);
            },
            None => {},
        }
    }

    /// Appends the band chunks from `start_idx` on to `dst` and returns how many
    /// there are in all.
    pub fn extend_band_chunks(&self, start_idx: usize, dst: &mut Vec<BandPeakChunk>) -> (r: usize)
        ensures
            r == band_chunks(self@).len(),
            final(dst)@ == old(dst)@ + tail(band_chunks(self@), start_idx as nat),
    {
        assert(dst@ + Seq::<BandPeakChunk>::empty() =~= dst@);
        match &self.bands {
            None => 0,
            Some(b) => {
                let len: usize = b.len();
                if start_idx < len {
                    append_from(b, start_idx, dst);
                }
                len
            },
        }
    }

    /// A copy of all band chunks.
    pub fn band_snapshot(&self) -> (r: BandPeakSnapshot)
        ensures
            r.chunks@ == band_chunks(self@),
    {
        let mut chunks: Vec<BandPeakChunk> = Vec::new();
        match &self.bands {
            Some(b) => {
                append(b.as_slice(), &mut chunks);
                assert(chunks@ =~= b@);
            },
            None => {},
        }
        BandPeakSnapshot { chunks }
    }
}

impl PeakSnapshot {
    /// How many chunks there are.
    pub fn len(&self) -> (r: usize)
        ensures
            r == self.chunks@.len(),
    {
        self.chunks.len()
    }

    /// Whether there are none.
    pub fn is_empty(&self) -> (r: bool)
        ensures
            r == (self.chunks@.len() == 0),
    {
        self.chunks.len() == 0
    }
}

impl BandPeakSnapshot {
    /// How many chunks there are.
    pub fn len(&self) -> (r: usize)
        ensures
            r == self.chunks@.len(),
    {
        self.chunks.len()
    }

    /// Whether there are none.
    pub fn is_empty(&self) -> (r: bool)
        ensures
            r == (self.chunks@.len() == 0),
    {
        self.chunks.len() == 0
    }
}

/// A reader that goes on where it stopped has a copy of the whole buffer: if its
/// copy was right when there were `seen` items, it is right after it appended what
/// came since.
pub proof fn law_reader_keeps_up<T>(items: Seq<T>, more: Seq<T>, seen: nat)
    requires
        seen <= items.len(),
    ensures
        items.take(seen as int) + tail(items + more, seen) == items + more,
{
    let all = items + more;
    if seen < all.len() {
        assert(items.take(seen as int) + all.skip(seen as int) =~= all);
    } else {
        assert(items.take(seen as int) =~= all);
        assert(items.take(seen as int) + Seq::<T>::empty() =~= all);
    }
}

} // verus!
