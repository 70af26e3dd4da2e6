//! The chunks of an arena: the closed ones, oldest first, and the one that
//! is still being filled.
//!
//! To a contract a chunk list is the sequence of its chunks in the order in
//! which they were made; the last one is the current chunk. Growing the list
//! closes the current chunk as it is and opens a larger, empty one. Nothing
//! here rewrites or reorders a chunk that was closed.

use crate::chunk::Chunk;
use crate::chunk::ChunkView;
use crate::growth::can_grow;
use crate::growth::grow;
use crate::growth::grown_capacity;
use vstd::prelude::*;

verus! {

/// Every chunk has at least one slot and holds no more values than it has
/// slots, and each chunk has at least twice the slots of the one before it.
pub open spec fn chunks_wf<T>(chunks: Seq<ChunkView<T>>) -> bool {
    &&& chunks.len() >= 1
    &&& forall|i: int|
        0 <= i < chunks.len() ==> (#[trigger] chunks[i]).wf() && chunks[i].capacity >= 1
    &&& forall|i: int, j: int|
        0 <= i && j == i + 1 && j < chunks.len() ==> 2 * (#[trigger] chunks[i]).capacity <= (
        #[trigger] chunks[j]).capacity
}

/// The values of all chunks, one chunk after the other: the order in which
/// the values were allocated.
pub open spec fn concat<T>(chunks: Seq<ChunkView<T>>) -> Seq<T>
    decreases chunks.len(),
{
    if chunks.len() == 0 {
        Seq::empty()
    } else {
        concat(chunks.drop_last()) + chunks.last().items
    }
}

/// The chunks with the values of the last one replaced by `items`.
pub open spec fn with_current_items<T>(chunks: Seq<ChunkView<T>>, items: Seq<T>) -> Seq<
    ChunkView<T>,
> {
    chunks.update(
        chunks.len() - 1,
        ChunkView { items, capacity: chunks.last().capacity },
    )
}

/// The chunks with the last one replaced by `chunk`.
pub open spec fn with_current<T>(chunks: Seq<ChunkView<T>>, chunk: ChunkView<T>) -> Seq<
    ChunkView<T>,
> {
    chunks.update(chunks.len() - 1, chunk)
}

/// The chunks after a new, empty one was opened to hold `additional` values.
pub open spec fn grown<T>(chunks: Seq<ChunkView<T>>, additional: nat) -> Seq<ChunkView<T>> {
    chunks.push(
        ChunkView {
            items: Seq::empty(),
            capacity: grown_capacity(chunks.last().capacity, additional),
        },
    )
}

/// Appending a chunk appends its values.
pub proof fn lemma_concat_push<T>(chunks: Seq<ChunkView<T>>, chunk: ChunkView<T>)
    ensures
        concat(chunks.push(chunk)) == concat(chunks) + chunk.items,
{
    assert(chunks.push(chunk).drop_last() == chunks);
}

/// Replacing the last chunk replaces the last run of values.
pub proof fn lemma_concat_with_current<T>(chunks: Seq<ChunkView<T>>, chunk: ChunkView<T>)
    requires
        chunks.len() >= 1,
    ensures
        concat(with_current(chunks, chunk)) == concat(chunks.drop_last()) + chunk.items,
        concat(chunks) == concat(chunks.drop_last()) + chunks.last().items,
{
    assert(with_current(chunks, chunk).drop_last() == chunks.drop_last());
}

/// Of two chunks the later one has at least twice the slots of the earlier
/// one, however many chunks lie between them.
pub proof fn lemma_capacities_double<T>(chunks: Seq<ChunkView<T>>, i: int, j: int)
    requires
        chunks_wf(chunks),
        0 <= i < j < chunks.len(),
    ensures
        2 * chunks[i].capacity <= chunks[j].capacity,
    decreases j - i,
{
    if i + 1 < j {
        lemma_capacities_double(chunks, i, j - 1);
        assert(2 * chunks[j - 1].capacity <= chunks[j].capacity);
    }
}

/// The chunk list of an arena.
pub struct ChunkList<T> {
    // The closed chunks come first: they are dropped first, so that all
    // values are dropped in the order in which they were allocated.
    rest: Vec<Chunk<T>>,
    current: Chunk<T>,
}

impl<T> View for ChunkList<T> {
    type V = Seq<ChunkView<T>>;

    closed spec fn view(&self) -> Seq<ChunkView<T>> {
        views(self.rest@).push(self.current@)
    }
}

/// The views of closed chunks.
spec fn views<T>(rest: Seq<Chunk<T>>) -> Seq<ChunkView<T>> {
    rest.map_values(|chunk: Chunk<T>| chunk@)
}

impl<T> ChunkList<T> {
    /// The invariant of a chunk list: see [`chunks_wf`].
    pub open spec fn wf(&self) -> bool {
        chunks_wf(self@)
    }

    /// A list of one empty chunk with `capacity` slots.
    pub fn new(capacity: usize) -> (list: Self)
        requires
            capacity >= 1,
        ensures
            list@ == seq![ChunkView { items: Seq::<T>::empty(), capacity: capacity as nat }],
            list.wf(),
    {
        let list = ChunkList { rest: Vec::new(), current: Chunk::with_capacity(capacity) };
        assert(list@ =~= seq![ChunkView { items: Seq::<T>::empty(), capacity: capacity as nat }]);
        list
    }

    /// The number of closed chunks.
    pub fn rest_len(&self) -> (len: usize)
        ensures
            len == self@.len() - 1,
    {
        self.rest.len()
    }

    /// The number of values in the current chunk.
    pub fn current_len(&self) -> (len: usize)
        ensures
            len == self@.last().items.len(),
    {
        self.current.len()
    }

    /// The number of slots of the current chunk.
    pub fn current_capacity(&self) -> (capacity: usize)
        ensures
            capacity == self@.last().capacity,
    {
        self.current.capacity()
    }

    /// The number of values in the closed chunk `index`.
    pub fn rest_chunk_len(&self, index: usize) -> (len: usize)
        requires
            index < self@.len() - 1,
        ensures
            len == self@[index as int].items.len(),
    {
        self.rest[index].len()
    }

    /// Closes the current chunk as it is and opens an empty one that has at
    /// least twice its slots and at least the next power of two of
    /// `additional`.
    pub fn reserve(&mut self, additional: usize)
        requires
            old(self).wf(),
            can_grow(old(self)@.last().capacity, additional as nat),
        ensures
            final(self)@ == grown(old(self)@, additional as nat),
            final(self).wf(),
    {
        let new_capacity: usize = grow(self.current.capacity(), additional);
        let mut chunk = Chunk::with_capacity(new_capacity);
        core::mem::swap(&mut self.current, &mut chunk);
        self.rest.push(chunk);
        assert(self@ =~= grown(old(self)@, additional as nat));
    }

    /// Writes `value` into the first free slot of the current chunk.
    pub fn push(&mut self, value: T)
        requires
            old(self).wf(),
            old(self)@.last().free() > 0,
        ensures
            final(self)@ == with_current_items(old(self)@, old(self)@.last().items.push(value)),
            final(self).wf(),
    {
        self.current.push(value);
        assert(self@ =~= with_current_items(old(self)@, old(self)@.last().items.push(value)));
    }

    /// Appends everything that `iter` yields to the current chunk, which no
    /// value may have left yet: it is free to outgrow its slots.
    pub fn extend<I: Iterator<Item = T>>(&mut self, iter: I)
        requires
            old(self).wf(),
            vstd::std_specs::iter::IteratorSpec::obeys_prophetic_iter_laws(&iter),
            vstd::std_specs::iter::IteratorSpec::decrease(&iter) is Some,
        ensures
            final(self)@ == with_current(
                old(self)@,
                old(self)@.last().extended(vstd::std_specs::iter::IteratorSpec::remaining(&iter)),
            ),
            final(self).wf(),
    {
        assert(self@.last() == self.current@);
        self.current.extend(iter);
        assert(self@ =~= with_current(
            old(self)@,
            old(self)@.last().extended(vstd::std_specs::iter::IteratorSpec::remaining(&iter)),
        ));
    }

    /// Moves the last `count` values of the chunk that was closed last to
    /// the end of the current chunk, in order. As in [`ChunkList::extend`]
    /// the current chunk may outgrow its slots.
    pub fn reclaim(&mut self, count: usize)
        requires
            old(self).wf(),
            old(self)@.len() >= 2,
            count <= old(self)@[old(self)@.len() - 2].items.len(),
        ensures
            final(self)@ == reclaimed(old(self)@, count as nat),
            final(self).wf(),
    {
        let last: usize = self.rest.len() - 1;
        let ghost before = self@;
        let previous_chunk = &mut self.rest[last];
        let previous_chunk_len: usize = previous_chunk.len();
        let mut moved = previous_chunk.split_off(previous_chunk_len - count);
        assert(before.last() == self.current@);
        self.current.append(&mut moved);
        assert(self@ =~= reclaimed(before, count as nat));
    }

    /// The value in slot `index` of the current chunk, borrowed mutably.
    pub fn current_slot_mut(&mut self, index: usize) -> (slot: &mut T)
        requires
            old(self).wf(),
            index < old(self)@.last().items.len(),
        ensures
            *slot == old(self)@.last().items[index as int],
            final(self)@ == with_current_items(
                old(self)@,
                old(self)@.last().items.update(index as int, *final(slot)),
            ),
            final(self).wf(),
    {
        proof {
            self.lemma_view_current();
        }
        self.current.slot_mut(index)
    }

    /// The values of the current chunk from slot `start` on, borrowed mutably
    /// as one slice.
    pub fn current_tail_mut(&mut self, start: usize) -> (tail: &mut [T])
        requires
            old(self).wf(),
            start <= old(self)@.last().items.len(),
        ensures
            tail@ == old(self)@.last().items.subrange(
                start as int,
                old(self)@.last().items.len() as int,
            ),
            final(tail)@.len() == tail@.len(),
            final(self)@ == with_current_items(
                old(self)@,
                old(self)@.last().items.subrange(0, start as int) + final(tail)@,
            ),
            final(self).wf(),
    {
        proof {
            self.lemma_view_current();
        }
        self.current.tail_mut(start)
    }

    /// The value in slot `offset` of chunk `index`, borrowed mutably; the
    /// current chunk is the last one.
    pub fn slot_mut(&mut self, index: usize, offset: usize) -> (slot: &mut T)
        requires
            old(self).wf(),
            index < old(self)@.len(),
            offset < old(self)@[index as int].items.len(),
        ensures
            *slot == old(self)@[index as int].items[offset as int],
            final(self)@ == with_slot(old(self)@, index as int, offset as int, *final(slot)),
            final(self).wf(),
    {
        proof {
            self.lemma_view_current();
            self.lemma_view_rest(index as int);
        }
        if index < self.rest.len() {
            let chunk = &mut self.rest[index];
            chunk.slot_mut(offset)
        } else {
            self.current.slot_mut(offset)
        }
    }

    /// Whatever takes the place of the current chunk takes the last place of
    /// the view.
    proof fn lemma_view_current(&self)
        ensures
            forall|chunk: ChunkView<T>| #[trigger]
                views(self.rest@).push(chunk) == with_current(self@, chunk),
    {
        assert forall|chunk: ChunkView<T>| #[trigger]
            views(self.rest@).push(chunk) == with_current(self@, chunk) by {
            assert(views(self.rest@).push(chunk) =~= with_current(self@, chunk));
        }
    }

    /// Whatever takes the place of the closed chunk `index` takes that place
    /// of the view.
    proof fn lemma_view_rest(&self, index: int)
        ensures
            forall|chunk: Chunk<T>|
                0 <= index < self.rest@.len() ==> views(
                    #[trigger] self.rest@.update(index, chunk),
                ).push(self.current@) == self@.update(index, chunk@),
    {
        assert forall|chunk: Chunk<T>| 0 <= index < self.rest@.len() implies views(
            #[trigger] self.rest@.update(index, chunk),
        ).push(self.current@) == self@.update(index, chunk@) by {
            assert(views(self.rest@.update(index, chunk)).push(self.current@) =~= self@.update(
                index,
                chunk@,
            ));
        }
    }

    /// The number of values in all chunks, or `usize::MAX` where there are
    /// more.
    pub fn total_len(&self) -> (len: usize)
        ensures
            len == if concat(self@).len() <= usize::MAX {
                concat(self@).len()
            } else {
                usize::MAX as nat
            },
    {
        let mut len: usize = 0;
        let mut index: usize = 0;
        while index < self.rest.len()
            invariant
                index <= self.rest@.len(),
                len == saturated(concat(self@.subrange(0, index as int)).len()),
            decreases self.rest@.len() - index,
        {
            proof {
                let upto = self@.subrange(0, index + 1);
                assert(upto.drop_last() == self@.subrange(0, index as int));
                assert(upto.last() == self@[index as int]);
            }
            len = len.saturating_add(self.rest[index].len());
            index = index + 1;
        }
        proof {
            assert(self@.drop_last() == self@.subrange(0, index as int));
        }
        len.saturating_add(self.current.len())
    }

    /// Moves all values out, chunk after chunk: in the order of allocation.
    pub fn into_vec(self) -> (values: Vec<T>)
        ensures
            values@ == concat(self@),
    {
        let n: usize = self.total_len();
        let ghost chunks = self@;
        let mut result: Vec<T> = Vec::with_capacity(n);
        let mut rest = self.rest;
        let mut current = self.current;
        let mut index: usize = 0;
        while index < rest.len()
            invariant
                index <= rest@.len(),
                rest@.len() == chunks.len() - 1,
                current@ == chunks.last(),
                result@ == concat(chunks.subrange(0, index as int)),
                forall|i: int| index <= i < rest@.len() ==> (#[trigger] rest@[i])@ == chunks[i],
            decreases rest@.len() - index,
        {
            proof {
                let upto = chunks.subrange(0, index + 1);
                assert(upto.drop_last() == chunks.subrange(0, index as int));
                assert(upto.last() == chunks[index as int]);
            }
            let chunk = &mut rest[index];
            chunk.drain_into(&mut result);
            index = index + 1;
        }
        proof {
            assert(chunks.drop_last() == chunks.subrange(0, index as int));
        }
        current.drain_into(&mut result);
        result
    }
}

/// A count as a `usize` holds it: `usize::MAX` stands for all that is
/// larger.
pub open spec fn saturated(n: nat) -> nat {
    if n <= usize::MAX {
        n
    } else {
        usize::MAX as nat
    }
}

/// The chunks after the last `count` values of the last but one chunk were
/// moved to the end of the last one.
pub open spec fn reclaimed<T>(chunks: Seq<ChunkView<T>>, count: nat) -> Seq<ChunkView<T>> {
    let previous = chunks[chunks.len() - 2];
    let kept = previous.items.len() - count;
    chunks.update(
        chunks.len() - 2,
        ChunkView { items: previous.items.subrange(0, kept), capacity: previous.capacity },
    ).update(
        chunks.len() - 1,
        chunks.last().extended(previous.items.subrange(kept, previous.items.len() as int)),
    )
}

/// The chunks with `value` in slot `offset` of chunk `index`.
pub open spec fn with_slot<T>(chunks: Seq<ChunkView<T>>, index: int, offset: int, value: T) -> Seq<
    ChunkView<T>,
> {
    chunks.update(
        index,
        ChunkView {
            items: chunks[index].items.update(offset, value),
            capacity: chunks[index].capacity,
        },
    )
}

} // verus!
