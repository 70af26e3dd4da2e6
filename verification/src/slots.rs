//! Slots: where a value lives.
//!
//! A value of an arena lives in one slot of one chunk. The statements here
//! are about the chunk lists alone: an allocation takes a slot that held
//! nothing, and a value that was allocated keeps its slot through whatever is
//! allocated later. So a reference that an allocation has returned can never
//! come to point at another allocation's value.

use crate::arena::allocated;
use crate::arena::extended;
use crate::chunk::ChunkView;
use vstd::prelude::*;

verus! {

/// A slot: the chunk, counted from the oldest, and the place in it.
pub struct Slot {
    pub chunk: int,
    pub offset: int,
}

/// There is a current chunk: a last chunk of at least one slot that holds no
/// more values than it has slots.
pub open spec fn has_current<T>(chunks: Seq<ChunkView<T>>) -> bool {
    chunks.len() >= 1 && chunks.last().capacity >= 1 && chunks.last().free() >= 0
}

/// The slot holds a value.
pub open spec fn occupied<T>(chunks: Seq<ChunkView<T>>, slot: Slot) -> bool {
    0 <= slot.chunk < chunks.len() && 0 <= slot.offset < chunks[slot.chunk].items.len()
}

/// The value that the slot holds.
pub open spec fn value_at<T>(chunks: Seq<ChunkView<T>>, slot: Slot) -> T {
    chunks[slot.chunk].items[slot.offset]
}

/// The slot that the next single allocation takes.
pub open spec fn next_slot<T>(chunks: Seq<ChunkView<T>>) -> Slot {
    if chunks.last().free() > 0 {
        Slot { chunk: chunks.len() - 1, offset: chunks.last().items.len() as int }
    } else {
        Slot { chunk: chunks.len() as int, offset: 0 }
    }
}

/// The chunks after `values` were allocated one by one.
pub open spec fn allocated_all<T>(chunks: Seq<ChunkView<T>>, values: Seq<T>) -> Seq<ChunkView<T>>
    decreases values.len(),
{
    if values.len() == 0 {
        chunks
    } else {
        allocated(allocated_all(chunks, values.drop_last()), values.last())
    }
}

/// The slot that allocation number `k` of `values` takes.
pub open spec fn slot_of<T>(chunks: Seq<ChunkView<T>>, values: Seq<T>, k: int) -> Slot {
    next_slot(allocated_all(chunks, values.take(k)))
}

/// A single allocation takes a slot that held nothing and puts its value
/// there; every slot that held a value holds the same value afterwards.
pub proof fn lemma_allocation_takes_a_free_slot<T>(chunks: Seq<ChunkView<T>>, value: T)
    requires
        has_current(chunks),
    ensures
        !occupied(chunks, next_slot(chunks)),
        occupied(allocated(chunks, value), next_slot(chunks)),
        value_at(allocated(chunks, value), next_slot(chunks)) == value,
        forall|slot: Slot| #[trigger]
            occupied(chunks, slot) ==> occupied(allocated(chunks, value), slot) && value_at(
                allocated(chunks, value),
                slot,
            ) == value_at(chunks, slot),
{
}

/// A bulk allocation leaves every slot that held a value as it was: the
/// values that it moves to keep its own in one piece are its own.
pub proof fn lemma_bulk_allocation_keeps_slots<T>(
    chunks: Seq<ChunkView<T>>,
    min_len: nat,
    values: Seq<T>,
)
    requires
        chunks.len() >= 1,
    ensures
        forall|slot: Slot| #[trigger]
            occupied(chunks, slot) ==> occupied(extended(chunks, min_len, values), slot)
                && value_at(extended(chunks, min_len, values), slot) == value_at(chunks, slot),
{
}

/// Single allocations never close the list or leave a chunk with more
/// values than slots.
pub proof fn lemma_allocated_all_is_a_list<T>(chunks: Seq<ChunkView<T>>, values: Seq<T>)
    requires
        has_current(chunks),
    ensures
        has_current(allocated_all(chunks, values)),
    decreases values.len(),
{
    if values.len() > 0 {
        lemma_allocated_all_is_a_list(chunks, values.drop_last());
    }
}

/// A value that was allocated keeps its slot and stays what it is while
/// further values are allocated.
pub proof fn lemma_slots_outlive_allocations<T>(
    chunks: Seq<ChunkView<T>>,
    values: Seq<T>,
    k: int,
    slot: Slot,
)
    requires
        has_current(chunks),
        0 <= k <= values.len(),
        occupied(allocated_all(chunks, values.take(k)), slot),
    ensures
        occupied(allocated_all(chunks, values), slot),
        value_at(allocated_all(chunks, values), slot) == value_at(
            allocated_all(chunks, values.take(k)),
            slot,
        ),
    decreases values.len() - k,
{
    if k == values.len() {
        assert(values.take(k) == values);
    } else {
        let front = values.drop_last();
        assert(front.take(k) == values.take(k));
        lemma_slots_outlive_allocations(chunks, front, k, slot);
        lemma_allocated_all_is_a_list(chunks, front);
        lemma_allocation_takes_a_free_slot(allocated_all(chunks, front), values.last());
    }
}

/// Each of a run of single allocations finds its value in its slot once all
/// are done, whatever number of chunks was opened on the way.
pub proof fn lemma_allocations_stay<T>(chunks: Seq<ChunkView<T>>, values: Seq<T>, i: int)
    requires
        has_current(chunks),
        0 <= i < values.len(),
    ensures
        occupied(allocated_all(chunks, values), slot_of(chunks, values, i)),
        value_at(allocated_all(chunks, values), slot_of(chunks, values, i)) == values[i],
{
    let before = allocated_all(chunks, values.take(i));
    let upto = values.take(i + 1);
    assert(upto.drop_last() == values.take(i));
    assert(upto.last() == values[i]);
    lemma_allocated_all_is_a_list(chunks, values.take(i));
    lemma_allocation_takes_a_free_slot(before, values[i]);
    lemma_slots_outlive_allocations(chunks, values, i + 1, slot_of(chunks, values, i));
}

/// No two of a run of single allocations take the same slot.
pub proof fn lemma_allocations_are_apart<T>(
    chunks: Seq<ChunkView<T>>,
    values: Seq<T>,
    i: int,
    j: int,
)
    requires
        has_current(chunks),
        0 <= i < j < values.len(),
    ensures
        slot_of(chunks, values, i) != slot_of(chunks, values, j),
{
    let upto = values.take(j);
    assert(upto.take(i) == values.take(i));
    assert(upto[i] == values[i]);
    lemma_allocations_stay(chunks, upto, i);
    lemma_allocated_all_is_a_list(chunks, upto);
    lemma_allocation_takes_a_free_slot(allocated_all(chunks, upto), values[j]);
}

} // verus!
