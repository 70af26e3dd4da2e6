//! One fixed-capacity block of arena storage.
//!
//! A chunk is a buffer with a set number of slots, filled from slot 0
//! upwards. Values are only ever appended, and the number of slots is settled
//! by the end of the call that creates the chunk, so a value that has been
//! handed to a caller never changes its slot.

use vstd::prelude::*;
use vstd::std_specs::iter::IteratorSpec;

verus! {

/// What a chunk is to a contract: the values written so far, in slot order,
/// and the number of slots.
pub struct ChunkView<T> {
    pub items: Seq<T>,
    pub capacity: nat,
}

impl<T> ChunkView<T> {
    /// The number of slots that hold no value yet.
    pub open spec fn free(self) -> int {
        self.capacity - self.items.len()
    }

    /// No more slots are used than there are.
    pub open spec fn wf(self) -> bool {
        self.items.len() <= self.capacity <= usize::MAX
    }
}

/// A contiguous buffer of `capacity` slots, of which the first `len` hold a
/// value.
pub struct Chunk<T> {
    items: Vec<T>,
    cap: usize,
}

impl<T> View for Chunk<T> {
    type V = ChunkView<T>;

    closed spec fn view(&self) -> ChunkView<T> {
        ChunkView { items: self.items@, capacity: self.cap as nat }
    }
}

/// `Vec`'s `index_mut` for a `RangeFrom<usize>`, written `&mut v[start..]`:
/// the borrowed slice holds the elements from `start` on, it keeps its length
/// for as long as it is borrowed, and whatever is written through it is what
/// `v` holds from `start` on afterwards. The elements before `start` stay.
/// A `start` behind the end of `v` would panic and is ruled out.
#[verifier::external_body]
fn vec_tail_mut<T>(v: &mut Vec<T>, start: usize) -> (tail: &mut [T])
    requires
        start <= old(v)@.len(),
    ensures
        tail@ == old(v)@.subrange(start as int, old(v)@.len() as int),
        final(tail)@.len() == tail@.len(),
        final(v)@ == old(v)@.subrange(0, start as int) + final(tail)@,
{
    &mut v[start..]
}

impl<T> Chunk<T> {
    /// An empty chunk with `capacity` slots.
    pub fn with_capacity(capacity: usize) -> (chunk: Self)
        ensures
            chunk@ == (ChunkView { items: Seq::<T>::empty(), capacity: capacity as nat }),
    {
        Chunk { items: Vec::with_capacity(capacity), cap: capacity }
    }

    /// The number of slots that hold a value.
    pub fn len(&self) -> (len: usize)
        ensures
            len == self@.items.len(),
    {
        self.items.len()
    }

    /// The number of slots.
    pub fn capacity(&self) -> (capacity: usize)
        ensures
            capacity == self@.capacity,
    {
        self.cap
    }

    /// Writes `value` into the first free slot.
    pub fn push(&mut self, value: T)
        requires
            old(self)@.free() > 0,
        ensures
            final(self)@ == (ChunkView {
                items: old(self)@.items.push(value),
                capacity: old(self)@.capacity,
            }),
    {
        self.items.push(value);
    }

    /// The value in slot `index`, borrowed mutably.
    pub fn slot_mut(&mut self, index: usize) -> (slot: &mut T)
        requires
            index < old(self)@.items.len(),
        ensures
            *slot == old(self)@.items[index as int],
            final(self)@ == (ChunkView {
                items: old(self)@.items.update(index as int, *final(slot)),
                capacity: old(self)@.capacity,
            }),
    {
        &mut self.items[index]
    }

    /// The values from slot `start` on, borrowed mutably as one slice.
    pub fn tail_mut(&mut self, start: usize) -> (tail: &mut [T])
        requires
            start <= old(self)@.items.len(),
        ensures
            tail@ == old(self)@.items.subrange(start as int, old(self)@.items.len() as int),
            final(tail)@.len() == tail@.len(),
            final(self)@ == (ChunkView {
                items: old(self)@.items.subrange(0, start as int) + final(tail)@,
                capacity: old(self)@.capacity,
            }),
    {
        vec_tail_mut(&mut self.items, start)
    }

    /// Appends everything that `iter` yields. A chunk that no value has left
    /// yet may outgrow the slots it was made with: it then has exactly as
    /// many slots as it holds values.
    pub fn extend<I: Iterator<Item = T>>(&mut self, iter: I)
        requires
            old(self)@.wf(),
            iter.obeys_prophetic_iter_laws(),
            iter.decrease() is Some,
        ensures
            final(self)@ == old(self)@.extended(iter.remaining()),
            final(self)@.wf(),
    {
        let mut iter = iter;
        let ghost all = iter.remaining();
        loop
            invariant
                iter.obeys_prophetic_iter_laws(),
                iter.decrease() is Some,
                self.cap == old(self).cap,
                old(self).items@ + all == self.items@ + iter.remaining(),
            ensures
                self.cap == old(self).cap,
                self.items@ == old(self).items@ + all,
            decreases iter.decrease()->0,
        {
            match iter.next() {
                Some(value) => {
                    self.items.push(value);
                },
                None => {
                    break ;
                },
            }
        }
        self.settle();
    }

    /// Moves the values from slot `at` on out of the chunk, in order.
    pub fn split_off(&mut self, at: usize) -> (tail: Vec<T>)
        requires
            at <= old(self)@.items.len(),
        ensures
            tail@ == old(self)@.items.subrange(at as int, old(self)@.items.len() as int),
            final(self)@ == (ChunkView {
                items: old(self)@.items.subrange(0, at as int),
                capacity: old(self)@.capacity,
            }),
    {
        self.items.split_off(at)
    }

    /// Moves the values of `other` behind those of the chunk and leaves
    /// `other` empty. The chunk may outgrow its slots as in [`Chunk::extend`].
    pub fn append(&mut self, other: &mut Vec<T>)
        requires
            old(self)@.wf(),
        ensures
            final(self)@ == old(self)@.extended(old(other)@),
            final(self)@.wf(),
            final(other)@ == Seq::<T>::empty(),
    {
        self.items.append(other);
        self.settle();
    }

    /// Moves the values of the chunk behind those of `target` and leaves the
    /// chunk empty.
    pub fn drain_into(&mut self, target: &mut Vec<T>)
        ensures
            final(target)@ == old(target)@ + old(self)@.items,
            final(self)@ == (ChunkView {
                items: Seq::<T>::empty(),
                capacity: old(self)@.capacity,
            }),
    {
        target.append(&mut self.items);
    }

    /// Counts every value as a slot, where the buffer has outgrown the slots
    /// it was given.
    fn settle(&mut self)
        ensures
            final(self).items@ == old(self).items@,
            final(self).cap == if old(self).items@.len() > old(self).cap {
                old(self).items@.len()
            } else {
                old(self).cap as nat
            },
    {
        let len: usize = self.items.len();
        if len > self.cap {
            self.cap = len;
        }
    }
}

impl<T> ChunkView<T> {
    /// The chunk after `more` was appended to it while it could still grow.
    pub open spec fn extended(self, more: Seq<T>) -> ChunkView<T> {
        let items = self.items + more;
        ChunkView {
            items,
            capacity: if items.len() > self.capacity {
                items.len()
            } else {
                self.capacity
            },
        }
    }
}

} // verus!
