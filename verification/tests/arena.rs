use typed_arena::Arena;
use typed_arena::RawSlots;

#[test]
fn into_vec_keeps_the_order_of_allocation() {
    let mut arena = Arena::new();
    arena.allocate("a");
    arena.allocate("b");
    arena.allocate("c");
    let easy_as_123 = arena.into_vec();
    assert_eq!(easy_as_123, vec!["a", "b", "c"]);
}

#[test]
fn allocate_returns_the_value() {
    let mut arena = Arena::new();
    let x = arena.allocate(42);
    assert_eq!(*x, 42);
    *x += 1;
    assert_eq!(arena.into_vec(), vec![43]);
}

#[test]
fn order_is_kept_across_chunks() {
    let mut arena = Arena::with_capacity(1);
    arena.allocate("a");
    arena.allocate("b");
    arena.allocate("c");
    assert_eq!(arena.uninitialized_array().chunk, 1);
    assert_eq!(arena.into_vec(), vec!["a", "b", "c"]);
}

#[test]
fn order_is_kept_across_many_chunks() {
    let mut arena = Arena::with_capacity(1);
    let mut expected = Vec::new();
    for i in 0..1000u32 {
        arena.allocate(i);
        expected.push(i);
    }
    assert_eq!(arena.uninitialized_array().chunk, 9);
    assert_eq!(arena.into_vec(), expected);
}

#[test]
fn a_written_value_stays_when_others_are_allocated() {
    let mut arena = Arena::with_capacity(2);
    *arena.allocate(1) = 10;
    *arena.allocate(2) = 20;
    *arena.allocate(3) = 30;
    *arena.allocate(4) = 40;
    *arena.allocate(5) = 50;
    assert_eq!(arena.into_vec(), vec![10, 20, 30, 40, 50]);
}

#[test]
fn capacity_zero_is_capacity_one() {
    let mut arena = Arena::with_capacity(0);
    assert_eq!(arena.uninitialized_array(), RawSlots { chunk: 0, start: 0, len: 1 });
    assert_eq!(*arena.allocate(7), 7);
    assert_eq!(arena.uninitialized_array(), RawSlots { chunk: 0, start: 1, len: 0 });
    assert_eq!(arena.into_vec(), vec![7]);
}

#[test]
fn new_arena_aims_at_1024_bytes() {
    let bytes: Arena<u8> = Arena::new();
    assert_eq!(bytes.uninitialized_array(), RawSlots { chunk: 0, start: 0, len: 1024 });
    let words: Arena<u64> = Arena::new();
    assert_eq!(words.uninitialized_array().len, 128);
    let large: Arena<[u8; 4096]> = Arena::new();
    assert_eq!(large.uninitialized_array().len, 1);
    let units: Arena<()> = Arena::new();
    assert_eq!(units.uninitialized_array().len, 1024);
}

#[test]
fn default_is_new() {
    let mut arena: Arena<u32> = Arena::default();
    assert_eq!(arena.uninitialized_array().len, 256);
    arena.allocate(1);
    assert_eq!(arena.into_vec(), vec![1]);
}

#[test]
fn fast_path_fills_and_then_hands_back() {
    let mut arena = Arena::with_capacity(2);
    assert_eq!(arena.alloc_fast_path(1).ok().map(|slot| *slot), Some(1));
    assert_eq!(arena.alloc_fast_path(2).ok().map(|slot| *slot), Some(2));
    assert_eq!(arena.alloc_fast_path(3).err(), Some(3));
    assert_eq!(arena.uninitialized_array(), RawSlots { chunk: 0, start: 2, len: 0 });
    assert_eq!(arena.into_vec(), vec![1, 2]);
}

#[test]
fn slow_path_opens_a_chunk_of_twice_the_slots() {
    let mut arena = Arena::with_capacity(3);
    arena.allocate(1);
    arena.allocate(2);
    arena.allocate(3);
    assert_eq!(*arena.alloc_slow_path(4), 4);
    assert_eq!(arena.uninitialized_array(), RawSlots { chunk: 1, start: 1, len: 5 });
    assert_eq!(arena.into_vec(), vec![1, 2, 3, 4]);
}

#[test]
fn chunks_at_least_double() {
    let mut arena = Arena::with_capacity(3);
    let mut capacities = Vec::new();
    let mut chunk = usize::MAX;
    for i in 0..200u32 {
        arena.allocate(i);
        let free = arena.uninitialized_array();
        if free.chunk != chunk {
            chunk = free.chunk;
            capacities.push(free.start + free.len);
        }
    }
    assert_eq!(capacities, vec![3, 6, 12, 24, 48, 96, 192]);
    for pair in capacities.windows(2) {
        assert!(pair[1] >= 2 * pair[0]);
    }
}

#[test]
fn a_large_bulk_request_more_than_doubles() {
    let mut arena = Arena::with_capacity(2);
    arena.allocate(0u32);
    let slice = arena.alloc_extend(1..=100).unwrap();
    assert_eq!(slice.len(), 100);
    let free = arena.uninitialized_array();
    assert_eq!(free, RawSlots { chunk: 1, start: 100, len: 28 });
    arena.allocate(101);
    assert_eq!(arena.uninitialized_array(), RawSlots { chunk: 1, start: 101, len: 27 });
}

#[test]
fn alloc_extend_returns_what_was_produced() {
    let mut arena = Arena::new();
    let abc = arena.alloc_extend("abcdefg".chars().take(3)).unwrap();
    assert_eq!(abc, ['a', 'b', 'c']);
}

#[test]
fn alloc_extend_into_free_slots_returns_only_the_new_values() {
    let mut arena = Arena::with_capacity(8);
    arena.allocate(1);
    arena.allocate(2);
    let slice = arena.alloc_extend(vec![3, 4, 5].into_iter()).unwrap();
    assert_eq!(slice, [3, 4, 5]);
    slice[1] = 40;
    assert_eq!(arena.uninitialized_array(), RawSlots { chunk: 0, start: 5, len: 3 });
    assert_eq!(arena.into_vec(), vec![1, 2, 3, 40, 5]);
}

#[test]
fn alloc_extend_with_a_promise_beyond_the_free_slots_opens_a_chunk() {
    let mut arena = Arena::with_capacity(4);
    arena.allocate(1);
    arena.allocate(2);
    let slice = arena.alloc_extend(vec![3, 4, 5].into_iter()).unwrap();
    assert_eq!(slice, [3, 4, 5]);
    // The first chunk keeps its two free slots; the new one has max(8, 4) slots.
    assert_eq!(arena.uninitialized_array(), RawSlots { chunk: 1, start: 3, len: 5 });
    assert_eq!(arena.into_vec(), vec![1, 2, 3, 4, 5]);
}

#[test]
fn alloc_extend_is_contiguous_when_the_promise_was_too_low() {
    let mut arena = Arena::with_capacity(3);
    arena.allocate(100);
    let producer = (0..5).filter(|_| true);
    assert_eq!(producer.size_hint().0, 0);
    let slice = arena.alloc_extend(producer).unwrap();
    assert_eq!(slice.len(), 5);
    assert_eq!(slice, [0, 1, 2, 3, 4]);
    // Two values were written to the first chunk and moved on: the new chunk
    // of 6 slots holds all five.
    assert_eq!(arena.uninitialized_array(), RawSlots { chunk: 1, start: 5, len: 1 });
    assert_eq!(arena.into_vec(), vec![100, 0, 1, 2, 3, 4]);
}

#[test]
fn alloc_extend_moves_nothing_when_the_chunk_was_full() {
    let mut arena = Arena::with_capacity(1);
    arena.allocate(9);
    let slice = arena.alloc_extend((0..3).filter(|_| true)).unwrap();
    assert_eq!(slice, [0, 1, 2]);
    // The new chunk was made with 2 slots and has outgrown them.
    assert_eq!(arena.uninitialized_array(), RawSlots { chunk: 1, start: 3, len: 0 });
    arena.allocate(3);
    assert_eq!(arena.uninitialized_array(), RawSlots { chunk: 2, start: 1, len: 5 });
    assert_eq!(arena.into_vec(), vec![9, 0, 1, 2, 3]);
}

#[test]
fn alloc_extend_that_fills_the_chunk_exactly_stays_in_it() {
    let mut arena = Arena::with_capacity(4);
    arena.allocate(1);
    let slice = arena.alloc_extend((2..5).filter(|_| true)).unwrap();
    assert_eq!(slice, [2, 3, 4]);
    assert_eq!(arena.uninitialized_array(), RawSlots { chunk: 0, start: 4, len: 0 });
    assert_eq!(arena.into_vec(), vec![1, 2, 3, 4]);
}

#[test]
fn alloc_extend_of_nothing_returns_an_empty_slice() {
    let mut arena = Arena::with_capacity(4);
    arena.allocate(1);
    let slice = arena.alloc_extend(Vec::<i32>::new().into_iter()).unwrap();
    assert!(slice.is_empty());
    assert_eq!(arena.uninitialized_array(), RawSlots { chunk: 0, start: 1, len: 3 });
    assert_eq!(arena.into_vec(), vec![1]);
}

#[test]
fn alloc_extend_hinted_follows_the_promise_it_is_given() {
    let mut arena = Arena::with_capacity(4);
    arena.allocate(1);
    // A promise of 9 values: a chunk of max(8, 16) slots, though only two come.
    let slice = arena.alloc_extend_hinted(vec![2, 3].into_iter(), 9);
    assert_eq!(slice, [2, 3]);
    assert_eq!(arena.uninitialized_array(), RawSlots { chunk: 1, start: 2, len: 14 });
    // A promise of nothing: the values go where there is room.
    let slice = arena.alloc_extend_hinted(vec![4, 5].into_iter(), 0);
    assert_eq!(slice, [4, 5]);
    assert_eq!(arena.uninitialized_array(), RawSlots { chunk: 1, start: 4, len: 12 });
    assert_eq!(arena.into_vec(), vec![1, 2, 3, 4, 5]);
}

struct Boaster;

impl Iterator for Boaster {
    type Item = u8;

    fn next(&mut self) -> Option<u8> {
        None
    }

    fn size_hint(&self) -> (usize, Option<usize>) {
        (usize::MAX, None)
    }
}

#[test]
fn alloc_extend_refuses_a_promise_that_no_chunk_can_hold() {
    let mut arena = Arena::with_capacity(4);
    arena.allocate(1u8);
    assert!(arena.alloc_extend(Boaster).is_none());
    assert_eq!(arena.uninitialized_array(), RawSlots { chunk: 0, start: 1, len: 3 });
    assert_eq!(arena.into_vec(), vec![1]);
}

#[test]
fn into_vec_of_an_empty_arena_is_empty() {
    let arena: Arena<String> = Arena::new();
    assert_eq!(arena.into_vec(), Vec::<String>::new());
}

#[test]
fn values_are_moved_not_copied() {
    let mut arena = Arena::with_capacity(1);
    arena.allocate(String::from("one"));
    arena.alloc_extend(vec![String::from("two"), String::from("three")].into_iter()).unwrap();
    arena.allocate(String::from("four"));
    assert_eq!(arena.into_vec(), vec!["one", "two", "three", "four"]);
}

struct Noisy {
    id: u32,
    log: std::rc::Rc<std::cell::RefCell<Vec<u32>>>,
}

impl Drop for Noisy {
    fn drop(&mut self) {
        self.log.borrow_mut().push(self.id);
    }
}

#[test]
fn values_are_dropped_in_the_order_of_allocation() {
    let log = std::rc::Rc::new(std::cell::RefCell::new(Vec::new()));
    {
        let mut arena = Arena::with_capacity(2);
        for id in 0..11 {
            arena.allocate(Noisy { id, log: log.clone() });
        }
        assert!(arena.uninitialized_array().chunk >= 2);
        assert!(log.borrow().is_empty());
    }
    assert_eq!(*log.borrow(), (0..11).collect::<Vec<u32>>());
}

#[test]
fn into_vec_drops_nothing() {
    let log = std::rc::Rc::new(std::cell::RefCell::new(Vec::new()));
    let mut arena = Arena::with_capacity(1);
    for id in 0..5 {
        arena.allocate(Noisy { id, log: log.clone() });
    }
    arena.alloc_extend((5..9).map(|id| Noisy { id, log: log.clone() }).filter(|_| true));
    let values = arena.into_vec();
    assert!(log.borrow().is_empty());
    assert_eq!(values.iter().map(|noisy| noisy.id).collect::<Vec<u32>>(), (0..9).collect::<Vec<u32>>());
    drop(values);
    assert_eq!(log.borrow().len(), 9);
}

#[test]
fn allocations_take_different_slots() {
    let mut arena = Arena::with_capacity(1);
    let mut slots = Vec::new();
    for i in 0..40 {
        let free = arena.uninitialized_array();
        // A full chunk: the value goes to slot 0 of the chunk that is opened.
        let slot = if free.len > 0 { (free.chunk, free.start) } else { (free.chunk + 1, 0) };
        assert!(!slots.contains(&slot));
        slots.push(slot);
        arena.allocate(i);
        let free = arena.uninitialized_array();
        assert_eq!((free.chunk, free.start), (slot.0, slot.1 + 1));
    }
    let mut cursor = arena.iter_mut();
    let mut expected = 0;
    while let Some(value) = cursor.next() {
        assert_eq!(*value, expected);
        expected += 1;
    }
    assert_eq!(expected, 40);
}

struct UnitBoaster {
    left: usize,
}

impl Iterator for UnitBoaster {
    type Item = ();

    fn next(&mut self) -> Option<()> {
        if self.left == 0 {
            None
        } else {
            self.left -= 1;
            Some(())
        }
    }

    fn size_hint(&self) -> (usize, Option<usize>) {
        (usize::MAX, None)
    }
}

#[test]
fn alloc_extend_takes_any_promise_that_the_free_slots_hold() {
    let mut arena: Arena<()> = Arena::with_capacity(usize::MAX);
    let slice = arena.alloc_extend(UnitBoaster { left: 3 }).unwrap();
    assert_eq!(slice.len(), 3);
    assert_eq!(arena.uninitialized_array(), RawSlots { chunk: 0, start: 3, len: usize::MAX - 3 });
    assert_eq!(arena.into_vec(), vec![(), (), ()]);
}

#[test]
fn alloc_extend_takes_a_promise_that_a_chunk_can_be_made_for() {
    let mut arena = Arena::with_capacity(2);
    arena.allocate(0u8);
    arena.allocate(1);
    // The promise of 1 exceeds the free slots, and a chunk of 4 slots can be made.
    let slice = arena.alloc_extend(vec![2u8].into_iter()).unwrap();
    assert_eq!(slice, [2]);
    assert_eq!(arena.uninitialized_array(), RawSlots { chunk: 1, start: 1, len: 3 });
}

#[test]
fn alloc_extend_promised_refuses_exactly_the_promise_it_cannot_take() {
    let mut arena = Arena::with_capacity(4);
    arena.allocate(1u8);
    // Within the free slots, any producer is taken.
    assert_eq!(arena.alloc_extend_promised(vec![2u8].into_iter(), 3).unwrap(), [2]);
    // Beyond them, a chunk is made where its size can be counted.
    let most = usize::MAX / 2 + 1;
    assert!(arena.alloc_extend_promised(Vec::new().into_iter(), most + 1).is_none());
    assert!(arena.alloc_extend_promised(Vec::new().into_iter(), usize::MAX).is_none());
    assert_eq!(arena.uninitialized_array(), RawSlots { chunk: 0, start: 2, len: 2 });
    assert_eq!(arena.alloc_extend_promised(vec![3u8, 4].into_iter(), 3).unwrap(), [3, 4]);
    assert_eq!(arena.uninitialized_array(), RawSlots { chunk: 1, start: 2, len: 6 });
    assert_eq!(arena.into_vec(), vec![1, 2, 3, 4]);
}
