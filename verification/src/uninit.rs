//! Slots that are set aside before there are values for them.
//!
//! A run of free slots of the current chunk is described by [`RawSlots`]:
//! where it lies and how long it is. [`UninitSlots`] is the right to fill
//! such a run. It borrows the chunks of the arena, so the arena cannot be
//! used for anything else until the run is filled or given up, and a slot
//! counts as allocated only once a value was written to it: no slot is ever
//! read before it holds a value.

use crate::chunk::ChunkView;
use crate::chunk_list::concat;
use crate::chunk_list::lemma_concat_with_current;
use crate::chunk_list::with_current_items;
use crate::chunk_list::ChunkList;
use vstd::prelude::*;

verus! {

/// Where a run of slots lies: in which chunk, counted from the oldest, from
/// which slot on, and how many slots it has.
#[derive(Clone, Copy, Debug, PartialEq, Eq, Structural)]
pub struct RawSlots {
    pub chunk: usize,
    pub start: usize,
    pub len: usize,
}

/// The free slots of the current chunk of `chunks`.
pub open spec fn free_slots<T>(chunks: Seq<ChunkView<T>>) -> RawSlots {
    RawSlots {
        chunk: (chunks.len() - 1) as usize,
        start: chunks.last().items.len() as usize,
        len: chunks.last().free() as usize,
    }
}

/// A run of `len` slots of the current chunk, from slot `start` on, that was
/// set aside to be filled in order. The slots in front of the end of the
/// chunk are filled; the others are still raw.
pub struct UninitSlots<'a, T> {
    /// The chunks of the arena, borrowed from it.
    pub chunks: &'a mut ChunkList<T>,
    /// The first slot of the run.
    pub start: usize,
    /// The number of slots of the run.
    pub len: usize,
}

/// What a run in filling is to a contract: the chunks of the arena, as they
/// are now, and where the run lies in the current one.
pub struct UninitSlotsView<T> {
    pub chunks: Seq<ChunkView<T>>,
    pub start: usize,
    pub len: usize,
}

impl<'a, T> View for UninitSlots<'a, T> {
    type V = UninitSlotsView<T>;

    open spec fn view(&self) -> UninitSlotsView<T> {
        UninitSlotsView { chunks: self.chunks@, start: self.start, len: self.len }
    }
}

impl<'a, T> UninitSlots<'a, T> {
    /// The run lies in the current chunk, and the values of the chunk end in
    /// it.
    pub open spec fn wf(&self) -> bool {
        &&& self.chunks.wf()
        &&& self.start <= self.chunks@.last().items.len() <= self.start + self.len
            <= self.chunks@.last().capacity
    }

    /// The number of slots of the run that hold a value.
    pub open spec fn filled(&self) -> int {
        self.chunks@.last().items.len() - self.start
    }

    /// Where the run lies.
    pub fn region(&self) -> (region: RawSlots)
        requires
            self.wf(),
        ensures
            region == (RawSlots {
                chunk: (self@.chunks.len() - 1) as usize,
                start: self.start,
                len: self.len,
            }),
    {
        RawSlots { chunk: self.chunks.rest_len(), start: self.start, len: self.len }
    }

    /// The number of slots of the run.
    pub fn len(&self) -> (len: usize)
        ensures
            len == self.len,
    {
        self.len
    }

    /// The number of slots of the run that hold a value.
    pub fn initialized(&self) -> (count: usize)
        requires
            self.wf(),
        ensures
            count == self.filled(),
    {
        self.chunks.current_len() - self.start
    }

    /// Writes `value` to the first raw slot of the run. With that the value
    /// is allocated: it is the last value of the arena.
    pub fn write(&mut self, value: T)
        requires
            old(self).wf(),
            old(self).filled() < old(self).len,
        ensures
            final(self).wf(),
            final(self).start == old(self).start,
            final(self).len == old(self).len,
            final(self).chunks@ == with_current_items(
                old(self).chunks@,
                old(self).chunks@.last().items.push(value),
            ),
            concat(final(self).chunks@) == concat(old(self).chunks@).push(value),
            *final(final(self).chunks) == *final(old(self).chunks),
    {
        proof {
            let chunks = self.chunks@;
            let current = chunks.last();
            lemma_concat_with_current(
                chunks,
                ChunkView { items: current.items.push(value), capacity: current.capacity },
            );
            assert(concat(chunks.drop_last()) + current.items.push(value) =~= (concat(
                chunks.drop_last(),
            ) + current.items).push(value));
        }
        self.chunks.push(value);
    }

    /// Gives the run up and returns the values that were written to it, in
    /// order, as one slice. Slots that are still raw are free again.
    pub fn assume_init(self) -> (slice: &'a mut [T])
        requires
            self.wf(),
        ensures
            slice@ == self@.chunks.last().items.subrange(
                self.start as int,
                self@.chunks.last().items.len() as int,
            ),
            final(slice)@.len() == slice@.len(),
            final(self.chunks)@ == with_current_items(
                self@.chunks,
                self@.chunks.last().items.subrange(0, self.start as int) + final(slice)@,
            ),
            concat(final(self.chunks)@) == concat(self@.chunks).subrange(
                0,
                concat(self@.chunks).len() - slice@.len(),
            ) + final(slice)@,
    {
        proof {
            let chunks = self.chunks@;
            let current = chunks.last();
            let kept = current.items.subrange(0, self.start as int);
            assert forall|written: Seq<T>|
                concat(#[trigger] with_current_items(chunks, kept + written)) == concat(
                    chunks,
                ).subrange(0, concat(chunks).len() - (current.items.len() - self.start))
                    + written by {
                lemma_concat_with_current(
                    chunks,
                    ChunkView { items: kept + written, capacity: current.capacity },
                );
                assert(concat(chunks.drop_last()) + (kept + written) =~= (concat(
                    chunks.drop_last(),
                ) + current.items).subrange(
                    0,
                    concat(chunks).len() - (current.items.len() - self.start),
                ) + written);
            }
        }
        self.chunks.current_tail_mut(self.start)
    }
}

} // verus!
