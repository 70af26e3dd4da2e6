//! The arena and its ways of allocating.
//!
//! An arena is described by its chunks in the order in which they were made
//! ([`Arena::chunks`]); its view is the values of all chunks in the order in
//! which they were allocated. Every allocation says exactly which chunks the
//! arena has afterwards, and none of them moves a value that an earlier call
//! has handed out: a value lives in the slot it was given.
//!
//! Access to an arena is exclusive by construction: every operation that
//! changes it takes `&mut self`, so no operation can start while another one,
//! or a reference that one has returned, is still alive.

use crate::chunk::ChunkView;
use crate::chunk_list::chunks_wf;
use crate::chunk_list::concat;
use crate::chunk_list::grown;
use crate::chunk_list::with_current_items;
use crate::chunk_list::ChunkList;
use crate::growth::can_grow;
use crate::growth::growable;
use crate::growth::grown_capacity;
use crate::growth::larger;
use crate::growth::lemma_grown_capacity_doubles;
use crate::growth::lemma_next_power_of_two_is_power;
use crate::iter::IterMut;
use crate::slots::has_current;
use crate::uninit::free_slots;
use crate::uninit::RawSlots;
use crate::uninit::UninitSlots;
use vstd::pervasive::unreached;
use vstd::prelude::*;
use vstd::std_specs::iter::IteratorSpec;

verus! {

/// The size in bytes that the first chunk of a new arena aims at.
pub const INITIAL_SIZE: usize = 1024;

/// The least number of slots of a chunk.
pub const MIN_CAPACITY: usize = 1;

/// The slots of the first chunk of [`Arena::new`]: as many values of `T` as
/// fit in [`INITIAL_SIZE`] bytes, and at least [`MIN_CAPACITY`].
pub open spec fn initial_capacity<T>() -> nat {
    let size = if vstd::layout::size_of::<T>() >= 1 {
        vstd::layout::size_of::<T>()
    } else {
        1
    };
    if INITIAL_SIZE as nat / size >= MIN_CAPACITY {
        INITIAL_SIZE as nat / size
    } else {
        MIN_CAPACITY as nat
    }
}

/// A new chunk of at least `capacity` slots that holds `values`: it has as
/// many slots as values where those are more.
pub open spec fn fresh_chunk<T>(capacity: nat, values: Seq<T>) -> ChunkView<T> {
    (ChunkView { items: Seq::<T>::empty(), capacity }).extended(values)
}

/// The chunks after one value was allocated: it goes into the first free slot
/// of the current chunk, or, where there is none, into slot 0 of a new chunk
/// with twice the slots.
pub open spec fn allocated<T>(chunks: Seq<ChunkView<T>>, value: T) -> Seq<ChunkView<T>> {
    let current = chunks.last();
    if current.free() > 0 {
        with_current_items(chunks, current.items.push(value))
    } else {
        chunks.push(ChunkView { items: seq![value], capacity: 2 * current.capacity })
    }
}

/// Whether one more value can be allocated: there is a free slot, or twice
/// the slots of the current chunk can be counted.
pub open spec fn can_allocate<T>(chunks: Seq<ChunkView<T>>) -> bool {
    chunks.last().free() > 0 || 2 * chunks.last().capacity <= usize::MAX
}

/// The chunks after `values` were allocated in bulk by a producer that
/// promised `min_len` of them or more.
///
/// - The promise exceeds the free slots: a new chunk is opened for the
///   promise, and all values go there.
/// - Else, the values fit into the free slots: they go there.
/// - Else the promise was too low: a new chunk with twice the slots is
///   opened and takes all values, so that they lie in one piece. The chunk
///   that was current is closed as it was before the call.
pub open spec fn extended<T>(chunks: Seq<ChunkView<T>>, min_len: nat, values: Seq<T>) -> Seq<
    ChunkView<T>,
> {
    let current = chunks.last();
    if min_len > current.free() {
        chunks.push(fresh_chunk(grown_capacity(current.capacity, min_len), values))
    } else if values.len() <= current.free() {
        with_current_items(chunks, current.items + values)
    } else {
        chunks.push(fresh_chunk(2 * current.capacity, values))
    }
}

/// Whether `count` values can be allocated in bulk on a promise of
/// `min_len`: no chunk is needed, or the size of the chunk that is needed
/// can be counted.
pub open spec fn can_extend<T>(chunks: Seq<ChunkView<T>>, min_len: nat, count: nat) -> bool {
    let current = chunks.last();
    if min_len > current.free() {
        can_grow(current.capacity, min_len)
    } else {
        count <= current.free() || 2 * current.capacity <= usize::MAX
    }
}

/// The chunks once the current one has `num` free slots: as they are where
/// it has them, and else with a new chunk that is opened for `num` values.
pub open spec fn reserved<T>(chunks: Seq<ChunkView<T>>, num: nat) -> Seq<ChunkView<T>> {
    if num > chunks.last().free() {
        grown(chunks, num)
    } else {
        chunks
    }
}

/// A promise of `min_len` values is one that the arena cannot take: it
/// exceeds the free slots of the current chunk, and the size of a chunk for
/// it cannot be counted.
pub open spec fn refuses<T>(chunks: Seq<ChunkView<T>>, min_len: nat) -> bool {
    min_len > chunks.last().free() && !can_grow(chunks.last().capacity, min_len)
}

/// `after` is what `chunks` becomes by a bulk allocation of `values` on a
/// promise that a producer can make and that the arena can take.
pub open spec fn extended_on_a_promise<T>(
    chunks: Seq<ChunkView<T>>,
    values: Seq<T>,
    after: Seq<ChunkView<T>>,
) -> bool {
    exists|min_len: nat|
        min_len <= usize::MAX && !refuses(chunks, min_len) && after == #[trigger] extended(
            chunks,
            min_len,
            values,
        )
}

/// The slot at which the values of a bulk allocation start in the current
/// chunk.
pub open spec fn extended_start<T>(chunks: Seq<ChunkView<T>>, min_len: nat, count: nat) -> nat {
    let current = chunks.last();
    if min_len <= current.free() && count <= current.free() {
        current.items.len()
    } else {
        0
    }
}

/// `Iterator::size_hint`, the lower bound of it: the number of values that
/// `iter` promises at least. Nothing is known of that number: an iterator may
/// go on to yield fewer values or more.
#[verifier::external_body]
fn lower_bound<I: Iterator>(iter: &I) -> (min_len: usize) {
    iter.size_hint().0
}

/// An arena of values of type `T`.
pub struct Arena<T> {
    chunks: ChunkList<T>,
}

impl<T> View for Arena<T> {
    type V = Seq<T>;

    /// All values of the arena in the order in which they were allocated.
    open spec fn view(&self) -> Seq<T> {
        concat(self.chunks())
    }
}

impl<T> Arena<T> {
    /// The chunks of the arena in the order in which they were made. The
    /// last one is the current chunk.
    pub closed spec fn chunks(&self) -> Seq<ChunkView<T>> {
        self.chunks@
    }

    /// The invariant of an arena: see [`chunks_wf`].
    pub open spec fn wf(&self) -> bool {
        chunks_wf(self.chunks())
    }

    /// An empty arena whose first chunk takes about [`INITIAL_SIZE`] bytes.
    pub fn new() -> (arena: Arena<T>)
        ensures
            arena.chunks() == seq![
                ChunkView { items: Seq::<T>::empty(), capacity: initial_capacity::<T>() },
            ],
            arena@ == Seq::<T>::empty(),
            can_allocate(arena.chunks()),
            arena.wf(),
    {
        let size: usize = larger(1, core::mem::size_of::<T>());
        Arena::with_capacity(INITIAL_SIZE / size)
    }

    /// An empty arena whose first chunk has `n` slots, and one slot where `n`
    /// is 0.
    pub fn with_capacity(n: usize) -> (arena: Arena<T>)
        ensures
            arena.chunks() == seq![
                ChunkView {
                    items: Seq::<T>::empty(),
                    capacity: if n >= MIN_CAPACITY {
                        n as nat
                    } else {
                        MIN_CAPACITY as nat
                    },
                },
            ],
            arena@ == Seq::<T>::empty(),
            can_allocate(arena.chunks()),
            arena.wf(),
    {
        let n: usize = larger(MIN_CAPACITY, n);
        let arena = Arena { chunks: ChunkList::new(n) };
        proof {
            reveal_with_fuel(concat, 2);
            assert(arena@ =~= Seq::<T>::empty());
        }
        arena
    }

    /// Allocates `value` and returns a reference to it.
    ///
    /// The value goes behind all values that the arena holds, and the
    /// reference is to that new slot: what is written through it is what the
    /// arena holds there. No other slot changes.
    pub fn allocate(&mut self, value: T) -> (slot: &mut T)
        requires
            old(self).wf(),
            can_allocate(old(self).chunks()),
        ensures
            *slot == value,
            final(self).chunks() == allocated(old(self).chunks(), *final(slot)),
            final(self)@ == old(self)@.push(*final(slot)),
            final(self).wf(),
    {
        proof {
            lemma_allocated(self.chunks());
            lemma_allocated_pushes::<T>(self.chunks());
        }
        if self.chunks.current_len() < self.chunks.current_capacity() {
            match self.alloc_fast_path(value) {
                Ok(slot) => slot,
                Err(_) => unreached(),
            }
        } else {
            self.alloc_slow_path(value)
        }
    }

    /// Allocates `value` where the current chunk has a free slot, and hands
    /// it back where it has none. The arena never grows here.
    pub fn alloc_fast_path(&mut self, value: T) -> (result: Result<&mut T, T>)
        requires
            old(self).wf(),
        ensures
            old(self).chunks().last().free() > 0 <==> result is Ok,
            result matches Ok(slot) ==> *slot == value && final(self).chunks()
                == with_current_items(
                old(self).chunks(),
                old(self).chunks().last().items.push(*final(slot)),
            ),
            result matches Ok(slot) ==> final(self)@ == old(self)@.push(*final(slot)),
            result matches Err(rejected) ==> rejected == value && final(self).chunks() == old(
                self,
            ).chunks(),
            final(self).wf(),
    {
        proof {
            lemma_allocated_pushes::<T>(self.chunks());
            assert forall|written: T|
                old(self).chunks().last().free() > 0 implies concat(
                #[trigger] with_current_items(
                    old(self).chunks(),
                    old(self).chunks().last().items.push(written),
                ),
            ) == old(self)@.push(written) by {
                assert(allocated(old(self).chunks(), written) == with_current_items(
                    old(self).chunks(),
                    old(self).chunks().last().items.push(written),
                ));
            }
        }
        let len: usize = self.chunks.current_len();
        if len < self.chunks.current_capacity() {
            self.chunks.push(value);
            let ghost pushed = self.chunks@;
            proof {
                assert forall|written: T|
                    with_current_items(pushed, pushed.last().items.update(len as int, written))
                        == with_current_items(
                        old(self).chunks(),
                        old(self).chunks().last().items.push(written),
                    ) by {
                    assert(pushed.last().items.update(len as int, written) =~= old(
                        self,
                    ).chunks().last().items.push(written));
                }
            }
            Ok(self.chunks.current_slot_mut(len))
        } else {
            Err(value)
        }
    }

    /// Allocates `value` as a bulk allocation of one value, and returns a
    /// reference to it.
    pub fn alloc_slow_path(&mut self, value: T) -> (slot: &mut T)
        requires
            old(self).wf(),
            can_extend(old(self).chunks(), 1, 1),
        ensures
            *slot == value,
            final(self).chunks() == extended(old(self).chunks(), 1, seq![*final(slot)]),
            final(self)@ == old(self)@.push(*final(slot)),
            final(self).wf(),
    {
        proof {
            lemma_extended_appends::<T>(self.chunks(), 1);
            assert forall|written: T| #[trigger]
                (old(self)@ + seq![written]) == old(self)@.push(written) by {
                assert(old(self)@ + seq![written] =~= old(self)@.push(written));
            }
        }
        let single: Vec<T> = vec![value];
        assert(single@ =~= seq![value]);
        let slice = self.alloc_extend_hinted(single.into_iter(), 1);
        proof {
            assert forall|written: T| #[trigger] slice@.update(0, written) == seq![written] by {
                assert(slice@.update(0, written) =~= seq![written]);
            }
        }
        slice.first_mut().unwrap()
    }

    /// Allocates all values that `iterable` yields, in that order, and
    /// returns them as one slice.
    ///
    /// The number of values that the producer promises decides what is done:
    /// see [`Arena::alloc_extend_promised`], which is called with that
    /// number. Nothing is known of the number here, so the result is sure
    /// to be `Some` only where the current chunk has free slots for any
    /// promise.
    pub fn alloc_extend<I: Iterator<Item = T>>(&mut self, iterable: I) -> (result: Option<
        &mut [T],
    >)
        requires
            old(self).wf(),
            iterable.obeys_prophetic_iter_laws(),
            iterable.decrease() is Some,
            iterable.remaining().len() <= old(self).chunks().last().free() || 2 * old(
                self,
            ).chunks().last().capacity <= usize::MAX,
        ensures
            result is None ==> final(self).chunks() == old(self).chunks(),
            old(self).chunks().last().free() >= usize::MAX ==> result is Some,
            result matches Some(slice) ==> slice@ == iterable.remaining(),
            result matches Some(slice) ==> final(slice)@.len() == slice@.len(),
            result matches Some(slice) ==> final(self)@ == old(self)@ + final(slice)@,
            result matches Some(slice) ==> extended_on_a_promise(
                old(self).chunks(),
                final(slice)@,
                final(self).chunks(),
            ),
            final(self).wf(),
    {
        let min_len: usize = lower_bound(&iterable);
        proof {
            assert forall|values: Seq<T>|
                !refuses(self.chunks(), min_len as nat) implies extended_on_a_promise(
                self.chunks(),
                values,
                #[trigger] extended(self.chunks(), min_len as nat, values),
            ) by {}
        }
        self.alloc_extend_promised(iterable, min_len)
    }

    /// Allocates all values that `iterable` yields, in that order, and
    /// returns them as one slice, for a producer that promises `min_len`
    /// values or more; or allocates nothing and returns `None`, where the
    /// arena cannot take that promise ([`refuses`]).
    pub fn alloc_extend_promised<I: Iterator<Item = T>>(
        &mut self,
        iterable: I,
        min_len: usize,
    ) -> (result: Option<&mut [T]>)
        requires
            old(self).wf(),
            iterable.obeys_prophetic_iter_laws(),
            iterable.decrease() is Some,
            iterable.remaining().len() <= old(self).chunks().last().free() || 2 * old(
                self,
            ).chunks().last().capacity <= usize::MAX,
        ensures
            result is None <==> refuses(old(self).chunks(), min_len as nat),
            result is None ==> final(self).chunks() == old(self).chunks(),
            result matches Some(slice) ==> slice@ == iterable.remaining(),
            result matches Some(slice) ==> final(slice)@.len() == slice@.len(),
            result matches Some(slice) ==> final(self).chunks() == extended(
                old(self).chunks(),
                min_len as nat,
                final(slice)@,
            ),
            result matches Some(slice) ==> final(self)@ == old(self)@ + final(slice)@,
            final(self).wf(),
    {
        let free: usize = self.chunks.current_capacity() - self.chunks.current_len();
        if min_len > free && !growable(self.chunks.current_capacity(), min_len) {
            None
        } else {
            Some(self.alloc_extend_hinted(iterable, min_len))
        }
    }

    /// Allocates all values that `iterable` yields, in that order, and
    /// returns them as one slice, for a producer that promises `min_len`
    /// values or more.
    ///
    /// The slice is the end of the current chunk as it is after the call:
    /// see [`extended`] for the chunk that this is. What is written through
    /// the slice is what the arena holds there.
    pub fn alloc_extend_hinted<I: Iterator<Item = T>>(
        &mut self,
        iterable: I,
        min_len: usize,
    ) -> (slice: &mut [T])
        requires
            old(self).wf(),
            iterable.obeys_prophetic_iter_laws(),
            iterable.decrease() is Some,
            can_extend(old(self).chunks(), min_len as nat, iterable.remaining().len()),
        ensures
            slice@ == iterable.remaining(),
            final(slice)@.len() == slice@.len(),
            final(self).chunks() == extended(old(self).chunks(), min_len as nat, final(slice)@),
            final(self)@ == old(self)@ + final(slice)@,
            final(self).wf(),
    {
        let mut iter = iterable;
        let ghost before = self.chunks@;
        let ghost all = iter.remaining();
        let current_len: usize = self.chunks.current_len();
        let free: usize = self.chunks.current_capacity() - current_len;
        let mut next_item_index: usize = current_len;
        if min_len > free {
            self.chunks.reserve(min_len);
            self.chunks.extend(iter);
            next_item_index = 0;
            proof {
                lemma_next_power_of_two_is_power(min_len as nat);
            }
        } else {
            let mut i: usize = 0;
            loop
                invariant_except_break
                    self.chunks.wf(),
                    iter.obeys_prophetic_iter_laws(),
                    iter.decrease() is Some,
                    i <= free,
                    i <= all.len(),
                    all.subrange(0, i as int) + iter.remaining() == all,
                    self.chunks@ == with_current_items(
                        before,
                        before.last().items + all.subrange(0, i as int),
                    ),
                    next_item_index == current_len,
                invariant
                    chunks_wf(before),
                    free == before.last().free(),
                    current_len == before.last().items.len(),
                    min_len <= free,
                    can_extend(before, min_len as nat, all.len()),
                ensures
                    self.chunks.wf(),
                    self.chunks@ == extended(before, min_len as nat, all),
                    next_item_index == extended_start(before, min_len as nat, all.len()),
                decreases iter.decrease()->0,
            {
                let ghost remaining = iter.remaining();
                match iter.next() {
                    Some(elem) => {
                        assert(all.subrange(0, i as int).push(elem) =~= all.subrange(
                            0,
                            i + 1,
                        )) by {
                            assert(all[i as int] == (all.subrange(0, i as int) + remaining)[i as int]);
                        }
                        assert(all.subrange(0, i + 1) + iter.remaining() =~= all.subrange(
                            0,
                            i as int,
                        ) + remaining);
                        if self.chunks.current_len() == self.chunks.current_capacity() {
                            // The producer yields more than it promised and
                            // more than fits: the values of this call move to
                            // a new chunk, so that they stay in one piece.
                            proof {
                                lemma_grown_capacity_doubles(before.last().capacity, (i + 1) as nat);
                                lemma_next_power_of_two_is_power((i + 1) as nat);
                            }
                            let ghost full = self.chunks@;
                            self.chunks.reserve(i + 1);
                            self.chunks.reclaim(i);
                            self.chunks.push(elem);
                            let ghost moved = self.chunks@.last().items;
                            assert(moved =~= all.subrange(0, i + 1)) by {
                                assert(full.last().items.subrange(
                                    current_len as int,
                                    full.last().items.len() as int,
                                ) =~= all.subrange(0, i as int));
                            }
                            self.chunks.extend(iter);
                            next_item_index = 0;
                            proof {
                                assert(self.chunks@.last().items =~= all);
                                assert(self.chunks@ =~= extended(before, min_len as nat, all)) by {
                                    assert(full.last().items.subrange(0, current_len as int)
                                        =~= before.last().items);
                                }
                            }
                            break ;
                        } else {
                            self.chunks.push(elem);
                            assert(self.chunks@ =~= with_current_items(
                                before,
                                before.last().items + all.subrange(0, i + 1),
                            )) by {
                                assert((before.last().items + all.subrange(0, i as int)).push(elem)
                                    =~= before.last().items + all.subrange(0, i + 1));
                            }
                        }
                        i = i + 1;
                    },
                    None => {
                        assert(all.subrange(0, i as int) =~= all);
                        break ;
                    },
                }
            }
        }
        let ghost filled = self.chunks@;
        proof {
            lemma_extended_appends::<T>(before, min_len as nat);
            assert forall|written: Seq<T>| written.len() == all.len() implies with_current_items(
                filled,
                filled.last().items.subrange(0, next_item_index as int) + written,
            ) == #[trigger] extended(before, min_len as nat, written) by {
                assert(filled.last().items.subrange(0, next_item_index as int) + written
                    =~= extended(before, min_len as nat, written).last().items);
                assert(with_current_items(
                    filled,
                    filled.last().items.subrange(0, next_item_index as int) + written,
                ) =~= extended(before, min_len as nat, written));
            }
            assert forall|written: Seq<T>| written.len() == all.len() implies concat(
                #[trigger] with_current_items(
                    filled,
                    filled.last().items.subrange(0, next_item_index as int) + written,
                ),
            ) == concat(before) + written by {
                assert(extended(before, min_len as nat, written) == with_current_items(
                    filled,
                    filled.last().items.subrange(0, next_item_index as int) + written,
                ));
            }
            assert(filled.last().items.subrange(
                next_item_index as int,
                filled.last().items.len() as int,
            ) =~= all);
        }
        self.chunks.current_tail_mut(next_item_index)
    }

    /// Sets `num` slots of the current chunk aside, to be filled through the
    /// result, one value after the other.
    ///
    /// Where the current chunk has fewer free slots, a new chunk is opened
    /// for them first, as a bulk allocation of `num` values would do. The
    /// arena stays borrowed until the result is gone, and then holds the
    /// values that were written.
    pub fn alloc_uninitialized(&mut self, num: usize) -> (slots: UninitSlots<'_, T>)
        requires
            old(self).wf(),
            num > old(self).chunks().last().free() ==> can_grow(
                old(self).chunks().last().capacity,
                num as nat,
            ),
        ensures
            slots.wf(),
            slots.len == num,
            slots.filled() == 0,
            slots.chunks@ == reserved(old(self).chunks(), num as nat),
            concat(slots.chunks@) == old(self)@,
            final(self).chunks() == final(slots.chunks)@,
    {
        proof {
            crate::chunk_list::lemma_concat_push(
                self.chunks(),
                grown(self.chunks(), num as nat).last(),
            );
            assert(old(self)@ + Seq::<T>::empty() =~= old(self)@);
        }
        if num > self.chunks.current_capacity() - self.chunks.current_len() {
            proof {
                lemma_next_power_of_two_is_power(num as nat);
            }
            self.chunks.reserve(num);
        }
        // At this point, the current chunk has `num` free slots.
        let next_item_index: usize = self.chunks.current_len();
        UninitSlots { chunks: &mut self.chunks, start: next_item_index, len: num }
    }

    /// The free slots of the current chunk. They are not allocated by this:
    /// the next allocation uses them.
    pub fn uninitialized_array(&self) -> (slots: RawSlots)
        requires
            self.wf(),
        ensures
            slots == free_slots(self.chunks()),
    {
        let len: usize = self.chunks.current_capacity() - self.chunks.current_len();
        let next_item_index: usize = self.chunks.current_len();
        RawSlots { chunk: self.chunks.rest_len(), start: next_item_index, len }
    }

    /// A cursor that yields a mutable reference to each value, in the order
    /// in which they were allocated. The arena is borrowed until the cursor
    /// is gone, and then holds what was written through the references.
    pub fn iter_mut(&mut self) -> (cursor: IterMut<'_, T>)
        requires
            old(self).wf(),
        ensures
            cursor.wf(),
            cursor.position() == 0,
            cursor.chunks@ == old(self).chunks(),
            cursor.remaining() == old(self)@,
            final(self).chunks() == final(cursor.chunks)@,
    {
        IterMut::new(&mut self.chunks)
    }

    /// Turns the arena into a `Vec` of its values, in the order in which
    /// they were allocated.
    pub fn into_vec(self) -> (values: Vec<T>)
        ensures
            values@ == self@,
    {
        self.chunks.into_vec()
    }
}

impl<T> Default for Arena<T> {
    /// The arena of [`Arena::new`].
    fn default() -> (arena: Self)
        ensures
            arena.chunks() == seq![
                ChunkView { items: Seq::<T>::empty(), capacity: initial_capacity::<T>() },
            ],
            arena@ == Seq::<T>::empty(),
            can_allocate(arena.chunks()),
            arena.wf(),
    {
        Self::new()
    }
}

/// A single allocation is a bulk allocation of one value on a promise of one.
pub proof fn lemma_allocated<T>(chunks: Seq<ChunkView<T>>)
    requires
        chunks_wf(chunks),
    ensures
        can_allocate(chunks) == can_extend(chunks, 1, 1),
        forall|written: T| #[trigger] allocated(chunks, written) == extended(chunks, 1, seq![written]),
{
    lemma_grown_capacity_doubles(chunks.last().capacity, 1);
    assert forall|written: T| #[trigger]
        allocated(chunks, written) == extended(chunks, 1, seq![written]) by {
        let current = chunks.last();
        if current.free() > 0 {
            assert(current.items.push(written) =~= current.items + seq![written]);
        } else {
            assert(fresh_chunk(2 * current.capacity, seq![written]).items =~= seq![written]);
        }
    }
}

/// An allocation puts its value behind all others.
pub proof fn lemma_allocated_pushes<T>(chunks: Seq<ChunkView<T>>)
    requires
        chunks.len() >= 1,
    ensures
        forall|value: T| concat(#[trigger] allocated(chunks, value)) == concat(chunks).push(value),
{
    assert forall|value: T| concat(#[trigger] allocated(chunks, value)) == concat(chunks).push(
        value,
    ) by {
        let current = chunks.last();
        if current.free() > 0 {
            crate::chunk_list::lemma_concat_with_current(
                chunks,
                ChunkView { items: current.items.push(value), capacity: current.capacity },
            );
            assert(concat(chunks.drop_last()) + current.items.push(value) =~= (concat(
                chunks.drop_last(),
            ) + current.items).push(value));
        } else {
            crate::chunk_list::lemma_concat_push(
                chunks,
                ChunkView { items: seq![value], capacity: 2 * current.capacity },
            );
            assert(concat(chunks) + seq![value] =~= concat(chunks).push(value));
        }
    }
}

/// The values of a bulk allocation lie in one piece: they are the end of the
/// current chunk, from slot [`extended_start`] on, in the order in which they
/// were produced.
pub proof fn lemma_extended_is_one_piece<T>(
    chunks: Seq<ChunkView<T>>,
    min_len: nat,
    values: Seq<T>,
)
    requires
        chunks_wf(chunks),
    ensures
        ({
            let current = extended(chunks, min_len, values).last();
            let start = extended_start(chunks, min_len, values.len()) as int;
            &&& start + values.len() == current.items.len()
            &&& current.items.subrange(start, current.items.len() as int) == values
        }),
{
    let current = extended(chunks, min_len, values).last();
    let start = extended_start(chunks, min_len, values.len()) as int;
    assert(chunks.last().wf());
    assert(current.items.subrange(start, current.items.len() as int) =~= values);
}

/// A bulk allocation keeps the chunks in order: a chunk that it opens has at
/// least twice the slots of the one before it.
pub proof fn lemma_extended_wf<T>(chunks: Seq<ChunkView<T>>, min_len: nat, values: Seq<T>)
    requires
        chunks_wf(chunks),
        can_extend(chunks, min_len, values.len()),
        values.len() <= usize::MAX,
    ensures
        chunks_wf(extended(chunks, min_len, values)),
{
    let after = extended(chunks, min_len, values);
    assert(chunks.last().wf());
    assert forall|i: int| 0 <= i < after.len() implies (#[trigger] after[i]).wf()
        && after[i].capacity >= 1 by {
        if i < chunks.len() - 1 {
            assert(chunks[i].wf());
        }
    }
    assert forall|i: int, j: int| 0 <= i && j == i + 1 && j < after.len() implies 2 * (
    #[trigger] after[i]).capacity <= (#[trigger] after[j]).capacity by {
        if j < chunks.len() {
            assert(2 * chunks[i].capacity <= chunks[j].capacity);
        }
    }
}

/// A single allocation keeps the chunks in order, as the bulk allocation
/// that it is.
pub proof fn lemma_allocated_wf<T>(chunks: Seq<ChunkView<T>>, value: T)
    requires
        chunks_wf(chunks),
        can_allocate(chunks),
    ensures
        chunks_wf(allocated(chunks, value)),
{
    lemma_allocated(chunks);
    lemma_extended_wf(chunks, 1, seq![value]);
}

/// Values that are allocated one by one come out in the order in which they
/// went in, behind the values that were there, however many chunks they
/// span.
pub proof fn lemma_allocated_all_in_order<T>(chunks: Seq<ChunkView<T>>, values: Seq<T>)
    requires
        has_current(chunks),
    ensures
        concat(crate::slots::allocated_all(chunks, values)) == concat(chunks) + values,
    decreases values.len(),
{
    if values.len() == 0 {
        assert(concat(chunks) + values =~= concat(chunks));
    } else {
        let front = values.drop_last();
        lemma_allocated_all_in_order(chunks, front);
        crate::slots::lemma_allocated_all_is_a_list(chunks, front);
        lemma_allocated_pushes(crate::slots::allocated_all(chunks, front));
        assert((concat(chunks) + front).push(values.last()) =~= concat(chunks) + values);
    }
}

/// A bulk allocation puts its values behind all others, in their order,
/// whatever the producer promised.
pub proof fn lemma_extended_appends<T>(chunks: Seq<ChunkView<T>>, min_len: nat)
    requires
        chunks.len() >= 1,
    ensures
        forall|values: Seq<T>| concat(#[trigger] extended(chunks, min_len, values)) == concat(chunks) + values,
{
    assert forall|values: Seq<T>| concat(#[trigger] extended(chunks, min_len, values)) == concat(
        chunks,
    ) + values by {
        let current = chunks.last();
        if min_len > current.free() {
            let chunk = fresh_chunk(grown_capacity(current.capacity, min_len), values);
            crate::chunk_list::lemma_concat_push(chunks, chunk);
            assert(chunk.items =~= values);
        } else if values.len() <= current.free() {
            crate::chunk_list::lemma_concat_with_current(
                chunks,
                ChunkView { items: current.items + values, capacity: current.capacity },
            );
            assert(concat(chunks.drop_last()) + (current.items + values) =~= (concat(
                chunks.drop_last(),
            ) + current.items) + values);
        } else {
            let chunk = fresh_chunk(2 * current.capacity, values);
            crate::chunk_list::lemma_concat_push(chunks, chunk);
            assert(chunk.items =~= values);
        }
    }
}

} // verus!
