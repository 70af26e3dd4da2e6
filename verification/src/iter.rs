//! Walking the values of an arena in the order of allocation, with the right
//! to change each.
//!
//! The cursor borrows the chunks of the arena for as long as it lives, so
//! nothing can be allocated meanwhile. It walks the closed chunks by index,
//! oldest first, and then the current chunk.

use crate::chunk::ChunkView;
use crate::chunk_list::chunks_wf;
use crate::chunk_list::concat;
use crate::chunk_list::saturated;
use crate::chunk_list::with_slot;
use crate::chunk_list::ChunkList;
use vstd::prelude::*;

verus! {

/// Where a cursor stands.
#[derive(Clone, Copy, Debug)]
pub enum IterMutState {
    /// In the closed chunk `index`, before its slot `offset`.
    ChunkListRest { index: usize, offset: usize },
    /// In the current chunk, before its slot `offset`.
    ChunkListCurrent { offset: usize },
}

/// The number of values in front of slot `offset` of chunk `index`.
pub open spec fn slots_before<T>(chunks: Seq<ChunkView<T>>, index: int, offset: int) -> int {
    concat(chunks.subrange(0, index)).len() + offset
}

/// Two chunk lists agree in the number of chunks and in the slots and the
/// number of values of each.
pub open spec fn same_shape<T>(a: Seq<ChunkView<T>>, b: Seq<ChunkView<T>>) -> bool {
    &&& a.len() == b.len()
    &&& forall|i: int|
        0 <= i < a.len() ==> (#[trigger] a[i]).capacity == b[i].capacity && a[i].items.len()
            == b[i].items.len()
}

impl IterMutState {
    /// The chunk in which the cursor stands, of `count` chunks.
    pub open spec fn chunk(self, count: nat) -> int {
        match self {
            IterMutState::ChunkListRest { index, offset } => index as int,
            IterMutState::ChunkListCurrent { offset } => count - 1,
        }
    }

    /// The slot before which the cursor stands.
    pub open spec fn offset(self) -> int {
        match self {
            IterMutState::ChunkListRest { index, offset } => offset as int,
            IterMutState::ChunkListCurrent { offset } => offset as int,
        }
    }

    /// The cursor stands in a chunk of `chunks`, at one of its values or
    /// behind the last one.
    pub open spec fn wf<T>(self, chunks: Seq<ChunkView<T>>) -> bool {
        &&& self is ChunkListRest ==> self.chunk(chunks.len()) < chunks.len() - 1
        &&& 0 <= self.chunk(chunks.len()) < chunks.len()
        &&& self.offset() <= chunks[self.chunk(chunks.len())].items.len()
    }
}

/// A cursor over the values of an arena, made by
/// [`Arena::iter_mut`](crate::arena::Arena::iter_mut).
pub struct IterMut<'a, T> {
    /// The chunks of the arena, borrowed from it.
    pub chunks: &'a mut ChunkList<T>,
    /// Where the cursor stands in them.
    pub state: IterMutState,
}

/// What a cursor is to a contract: the chunks that it walks, as they are
/// now, and where it stands in them.
pub struct IterMutView<T> {
    pub chunks: Seq<ChunkView<T>>,
    pub state: IterMutState,
}

impl<'a, T> View for IterMut<'a, T> {
    type V = IterMutView<T>;

    open spec fn view(&self) -> IterMutView<T> {
        IterMutView { chunks: self.chunks@, state: self.state }
    }
}

impl<'a, T> IterMut<'a, T> {
    /// The chunks are in order and the cursor stands in them.
    pub open spec fn wf(&self) -> bool {
        self.chunks.wf() && self.state.wf(self.chunks@)
    }

    /// The number of values that lie in front of the cursor.
    pub open spec fn position(&self) -> int {
        slots_before(self.chunks@, self.state.chunk(self.chunks@.len()), self.state.offset())
    }

    /// The values that the cursor has yet to yield, in order.
    pub open spec fn remaining(&self) -> Seq<T> {
        concat(self.chunks@).subrange(self.position(), concat(self.chunks@).len() as int)
    }

    /// The cursor on the first value of `chunks`.
    pub fn new(chunks: &'a mut ChunkList<T>) -> (cursor: IterMut<'a, T>)
        requires
            old(chunks).wf(),
        ensures
            cursor.wf(),
            cursor.position() == 0,
            cursor.chunks@ == old(chunks)@,
            cursor.remaining() == concat(old(chunks)@),
            final(chunks)@ == final(cursor.chunks)@,
    {
        let state = if chunks.rest_len() > 0 {
            IterMutState::ChunkListRest { index: 0, offset: 0 }
        } else {
            IterMutState::ChunkListCurrent { offset: 0 }
        };
        proof {
            assert(concat(chunks@.subrange(0, 0)) =~= Seq::<T>::empty());
            assert(concat(chunks@).subrange(0, concat(chunks@).len() as int) =~= concat(chunks@));
        }
        IterMut { chunks, state }
    }

    /// Yields the next value in the order of allocation, or `None` behind
    /// the last one.
    ///
    /// The reference is to the slot of the value: what is written through it
    /// is what the arena holds there. Nothing else changes, and the cursor
    /// moves on by one value.
    pub fn next(&mut self) -> (result: Option<&mut T>)
        requires
            old(self).wf(),
        ensures
            final(self).wf(),
            *final(final(self).chunks) == *final(old(self).chunks),
            same_shape(final(self).chunks@, old(self).chunks@),
            result is Some <==> old(self).position() < concat(old(self).chunks@).len(),
            result is None ==> final(self).chunks@ == old(self).chunks@ && final(self).position()
                == old(self).position(),
            result matches Some(slot) ==> *slot == concat(old(self).chunks@)[old(self).position()],
            result matches Some(slot) ==> final(self).position() == old(self).position() + 1,
            result matches Some(slot) ==> final(self).remaining() == old(
                self,
            ).remaining().drop_first(),
            result matches Some(slot) ==> concat(final(self).chunks@) == concat(
                old(self).chunks@,
            ).update(old(self).position(), *final(slot)),
    {
        let ghost chunks = self.chunks@;
        loop
            invariant
                self.wf(),
                self.chunks@ == chunks,
                old(self).chunks@ == chunks,
                self.position() == old(self).position(),
                *final(self.chunks) == *final(old(self).chunks),
            decreases chunks.len() - self.state.chunk(chunks.len()),
        {
            match self.state {
                IterMutState::ChunkListRest { index, offset } => {
                    if offset < self.chunks.rest_chunk_len(index) {
                        self.state = IterMutState::ChunkListRest { index, offset: offset + 1 };
                        proof {
                            lemma_slot(chunks, index as int, offset as int);
                        }
                        return Some(self.chunks.slot_mut(index, offset));
                    } else {
                        proof {
                            lemma_slots_before_next_chunk(chunks, index as int);
                        }
                        let rest_len: usize = self.chunks.rest_len();
                        let index: usize = index + 1;
                        if index < rest_len {
                            self.state = IterMutState::ChunkListRest { index, offset: 0 };
                        } else {
                            self.state = IterMutState::ChunkListCurrent { offset: 0 };
                        }
                    }
                },
                IterMutState::ChunkListCurrent { offset } => {
                    proof {
                        lemma_slots_before_next_chunk(chunks, chunks.len() - 1);
                        assert(chunks.subrange(0, chunks.len() as int) == chunks);
                    }
                    if offset < self.chunks.current_len() {
                        self.state = IterMutState::ChunkListCurrent { offset: offset + 1 };
                        proof {
                            lemma_slot(chunks, chunks.len() - 1, offset as int);
                        }
                        let index: usize = self.chunks.rest_len();
                        return Some(self.chunks.slot_mut(index, offset));
                    } else {
                        return None;
                    }
                },
            }
        }
    }

    /// Bounds on the number of values that the cursor has yet to yield.
    ///
    /// Without closed chunks both bounds are that number. With closed chunks
    /// the lower bound counts what lies ahead in the current chunk and in
    /// the chunk that was closed last, and the upper bound adds the slots of
    /// the current chunk, which are more than all older chunks hold. No
    /// chunk is looked at but those two. A lower bound of `usize::MAX`
    /// stands for that or more; there is no upper bound where it cannot be
    /// counted.
    pub fn size_hint(&self) -> (bounds: (usize, Option<usize>))
        requires
            self.wf(),
        ensures
            bounds == hint(self@.chunks, self@.state),
            bounds.0 <= self.remaining().len(),
            bounds.1 matches Some(upper) ==> self.remaining().len() <= upper,
            self@.chunks.len() == 1 ==> bounds == (
                self.remaining().len() as usize,
                Some(self.remaining().len() as usize),
            ),
    {
        let current_len: usize = self.chunks.current_len();
        let current_cap: usize = self.chunks.current_capacity();
        let rest_len: usize = self.chunks.rest_len();
        proof {
            lemma_hint_bounds(self.chunks@, self.state);
        }
        match self.state {
            IterMutState::ChunkListRest { index, offset } => {
                let last_chunk_len: usize = self.chunks.rest_chunk_len(rest_len - 1);
                let last_chunk_left: usize = if index == rest_len - 1 {
                    last_chunk_len - offset
                } else {
                    last_chunk_len
                };
                let min: usize = current_len.saturating_add(last_chunk_left);
                let max: Option<usize> = min.checked_add(current_cap);
                (min, max)
            },
            IterMutState::ChunkListCurrent { offset } => {
                let min: usize = current_len - offset;
                if rest_len == 0 {
                    (min, Some(min))
                } else {
                    (min, min.checked_add(current_cap))
                }
            },
        }
    }
}

/// The number of values ahead of the cursor that the current chunk and the
/// chunk that was closed last hold.
pub open spec fn counted_ahead<T>(chunks: Seq<ChunkView<T>>, state: IterMutState) -> int {
    let current = chunks.last();
    match state {
        IterMutState::ChunkListRest { index, offset } => {
            let last_closed = chunks[chunks.len() - 2];
            if index == chunks.len() - 2 {
                last_closed.items.len() - offset + current.items.len()
            } else {
                (last_closed.items.len() + current.items.len()) as int
            }
        },
        IterMutState::ChunkListCurrent { offset } => current.items.len() - offset,
    }
}

/// The bounds that [`IterMut::size_hint`] gives for a cursor that stands at
/// `state` in `chunks`.
pub open spec fn hint<T>(chunks: Seq<ChunkView<T>>, state: IterMutState) -> (
    usize,
    Option<usize>,
) {
    let min = saturated(counted_ahead(chunks, state) as nat);
    if chunks.len() == 1 {
        (min as usize, Some(min as usize))
    } else {
        (
            min as usize,
            if min + chunks.last().capacity <= usize::MAX {
                Some((min + chunks.last().capacity) as usize)
            } else {
                None
            },
        )
    }
}

/// The number of values left behind a cursor that stands at `state` in
/// `chunks`.
pub open spec fn left<T>(chunks: Seq<ChunkView<T>>, state: IterMutState) -> int {
    concat(chunks).len() - slots_before(chunks, state.chunk(chunks.len()), state.offset())
}

/// The values of the first `index + 1` chunks are those of the first `index`
/// chunks and those of chunk `index`.
pub proof fn lemma_slots_before_next_chunk<T>(chunks: Seq<ChunkView<T>>, index: int)
    requires
        0 <= index < chunks.len(),
    ensures
        concat(chunks.subrange(0, index + 1)) == concat(chunks.subrange(0, index))
            + chunks[index].items,
        slots_before(chunks, index + 1, 0) == slots_before(
            chunks,
            index,
            chunks[index].items.len() as int,
        ),
{
    let upto = chunks.subrange(0, index + 1);
    assert(upto.drop_last() == chunks.subrange(0, index));
    assert(upto.last() == chunks[index]);
}

/// The value in slot `offset` of chunk `index` is the value of the arena
/// that has as many values in front of it as [`slots_before`] says, and
/// writing to the slot changes that value of the arena and no other.
pub proof fn lemma_slot<T>(chunks: Seq<ChunkView<T>>, index: int, offset: int)
    requires
        0 <= index < chunks.len(),
        0 <= offset < chunks[index].items.len(),
    ensures
        0 <= slots_before(chunks, index, offset) < concat(chunks).len(),
        concat(chunks)[slots_before(chunks, index, offset)] == chunks[index].items[offset],
        forall|value: T|
            concat(#[trigger] with_slot(chunks, index, offset, value)) == concat(chunks).update(
                slots_before(chunks, index, offset),
                value,
            ),
        forall|value: T| same_shape(#[trigger] with_slot(chunks, index, offset, value), chunks),
        forall|value: T|
            chunks_wf(chunks) ==> chunks_wf(#[trigger] with_slot(chunks, index, offset, value)),
        forall|value: T|
            (#[trigger] with_slot(chunks, index, offset, value)).subrange(0, index)
                == chunks.subrange(0, index),
        forall|value: T|
            concat(#[trigger] with_slot(chunks, index, offset, value)).subrange(
                slots_before(chunks, index, offset) + 1,
                concat(chunks).len() as int,
            ) == concat(chunks).subrange(
                slots_before(chunks, index, offset),
                concat(chunks).len() as int,
            ).drop_first(),
    decreases chunks.len(),
{
    assert forall|value: T|
        (#[trigger] with_slot(chunks, index, offset, value)).subrange(0, index)
            == chunks.subrange(0, index) by {
        assert(with_slot(chunks, index, offset, value).subrange(0, index) =~= chunks.subrange(
            0,
            index,
        ));
    }
    let front = chunks.drop_last();
    if index == chunks.len() - 1 {
        assert(chunks.subrange(0, index) == front);
        assert forall|value: T|
            concat(#[trigger] with_slot(chunks, index, offset, value)) == concat(chunks).update(
                slots_before(chunks, index, offset),
                value,
            ) by {
            let after = with_slot(chunks, index, offset, value);
            assert(after.drop_last() == front);
            assert(concat(front) + chunks[index].items.update(offset, value) =~= (concat(front)
                + chunks[index].items).update(slots_before(chunks, index, offset), value));
        }
    } else {
        lemma_slot(front, index, offset);
        assert(front.subrange(0, index) == chunks.subrange(0, index));
        assert forall|value: T|
            concat(#[trigger] with_slot(chunks, index, offset, value)) == concat(chunks).update(
                slots_before(chunks, index, offset),
                value,
            ) by {
            let after = with_slot(chunks, index, offset, value);
            assert(after.drop_last() == with_slot(front, index, offset, value));
            assert(concat(front).update(slots_before(chunks, index, offset), value)
                + chunks.last().items =~= (concat(front) + chunks.last().items).update(
                slots_before(chunks, index, offset),
                value,
            ));
        }
    }
    assert forall|value: T|
        concat(#[trigger] with_slot(chunks, index, offset, value)).subrange(
            slots_before(chunks, index, offset) + 1,
            concat(chunks).len() as int,
        ) == concat(chunks).subrange(
            slots_before(chunks, index, offset),
            concat(chunks).len() as int,
        ).drop_first() by {
        assert(concat(chunks).update(slots_before(chunks, index, offset), value).subrange(
            slots_before(chunks, index, offset) + 1,
            concat(chunks).len() as int,
        ) =~= concat(chunks).subrange(
            slots_before(chunks, index, offset),
            concat(chunks).len() as int,
        ).drop_first());
    }
}

/// The slots of all chunks in front of chunk `index`, together.
pub open spec fn slots_in_front<T>(chunks: Seq<ChunkView<T>>, index: int) -> int
    decreases index,
{
    if index <= 0 {
        0
    } else {
        slots_in_front(chunks, index - 1) + chunks[index - 1].capacity
    }
}

/// As every chunk has twice the slots of the one before it, a chunk has more
/// slots than all chunks in front of it together, and so more slots than
/// those chunks hold values.
pub proof fn lemma_capacity_exceeds_front<T>(chunks: Seq<ChunkView<T>>, index: int)
    requires
        chunks_wf(chunks),
        0 <= index < chunks.len(),
    ensures
        slots_in_front(chunks, index) < chunks[index].capacity,
        concat(chunks.subrange(0, index)).len() <= slots_in_front(chunks, index),
    decreases index,
{
    if index > 0 {
        lemma_capacity_exceeds_front(chunks, index - 1);
        lemma_slots_before_next_chunk(chunks, index - 1);
        assert(chunks[index - 1].wf());
        assert(2 * chunks[index - 1].capacity <= chunks[index].capacity);
    } else {
        assert(chunks[0].capacity >= 1);
        assert(concat(chunks.subrange(0, 0)) =~= Seq::<T>::empty());
    }
}

/// The more chunks are counted, the more values there are.
pub proof fn lemma_slots_before_is_monotonic<T>(chunks: Seq<ChunkView<T>>, i: int, j: int)
    requires
        0 <= i <= j <= chunks.len(),
    ensures
        concat(chunks.subrange(0, i)).len() <= concat(chunks.subrange(0, j)).len(),
    decreases j - i,
{
    if i < j {
        lemma_slots_before_is_monotonic(chunks, i, j - 1);
        lemma_slots_before_next_chunk(chunks, j - 1);
    }
}

/// The bounds of [`hint`] hold the number of values left between them, and
/// without closed chunks both are that number.
pub proof fn lemma_hint_bounds<T>(chunks: Seq<ChunkView<T>>, state: IterMutState)
    requires
        chunks_wf(chunks),
        state.wf(chunks),
    ensures
        0 <= left(chunks, state),
        hint(chunks, state).0 <= left(chunks, state),
        hint(chunks, state).1 matches Some(upper) ==> left(chunks, state) <= upper,
        chunks.len() == 1 ==> hint(chunks, state) == (
            left(chunks, state) as usize,
            Some(left(chunks, state) as usize),
        ),
{
    let count = chunks.len() as int;
    lemma_slots_before_next_chunk(chunks, count - 1);
    assert(chunks.subrange(0, count) == chunks);
    assert(chunks[count - 1].wf());
    match state {
        IterMutState::ChunkListRest { index, offset } => {
            lemma_slots_before_next_chunk(chunks, count - 2);
            lemma_slots_before_next_chunk(chunks, index as int);
            if index < count - 2 {
                lemma_slots_before_is_monotonic(chunks, index + 1, count - 2);
            }
            lemma_capacity_exceeds_front(chunks, count - 2);
            assert(2 * chunks[count - 2].capacity <= chunks[count - 1].capacity);
            assert(chunks[count - 2].wf());
        },
        IterMutState::ChunkListCurrent { offset } => {},
    }
}

} // verus!
