use typed_arena::Arena;
use typed_arena::RawSlots;

#[test]
fn uninitialized_slots_end_up_in_their_place() {
    let mut arena = Arena::with_capacity(8);
    arena.allocate(1);
    let mut slots = arena.alloc_uninitialized(3);
    assert_eq!(slots.len(), 3);
    assert_eq!(slots.region(), RawSlots { chunk: 0, start: 1, len: 3 });
    slots.write(2);
    slots.write(3);
    assert_eq!(slots.initialized(), 2);
    slots.write(4);
    assert_eq!(slots.initialized(), 3);
    arena.allocate(5);
    assert_eq!(arena.into_vec(), vec![1, 2, 3, 4, 5]);
}

#[test]
fn uninitialized_slots_open_a_chunk_where_they_do_not_fit() {
    let mut arena = Arena::with_capacity(4);
    arena.allocate(1);
    arena.allocate(2);
    let mut slots = arena.alloc_uninitialized(3);
    assert_eq!(slots.region(), RawSlots { chunk: 1, start: 0, len: 3 });
    slots.write(3);
    slots.write(4);
    slots.write(5);
    let slice = slots.assume_init();
    assert_eq!(slice, [3, 4, 5]);
    slice[0] = 30;
    assert_eq!(arena.uninitialized_array(), RawSlots { chunk: 1, start: 3, len: 5 });
    assert_eq!(arena.into_vec(), vec![1, 2, 30, 4, 5]);
}

#[test]
fn uninitialized_slots_of_growing_length() {
    const LIMIT: usize = 15;
    let mut arena: Arena<(usize, usize)> = Arena::with_capacity(4);
    let mut expected = Vec::new();
    for i in 0..LIMIT {
        let mut slots = arena.alloc_uninitialized(i);
        for j in 0..i {
            slots.write((i, j));
            expected.push((i, j));
        }
        assert_eq!(slots.assume_init().len(), i);
    }
    assert_eq!(expected.len(), (0..LIMIT).sum::<usize>());
    assert_eq!(arena.into_vec(), expected);
}

#[test]
fn slots_that_were_not_written_are_free_again() {
    let mut arena = Arena::with_capacity(8);
    arena.allocate(1);
    let mut slots = arena.alloc_uninitialized(4);
    slots.write(2);
    assert_eq!(slots.assume_init(), [2]);
    assert_eq!(arena.uninitialized_array(), RawSlots { chunk: 0, start: 2, len: 6 });
    arena.allocate(3);
    assert_eq!(arena.into_vec(), vec![1, 2, 3]);
}

#[test]
fn uninitialized_array_reports_the_free_slots_and_takes_none() {
    let mut arena = Arena::with_capacity(2);
    let free = arena.uninitialized_array();
    assert!(free.len >= 2);
    assert_eq!(free, RawSlots { chunk: 0, start: 0, len: 2 });
    arena.alloc_extend(0..2).unwrap();
    let moved_on = arena.uninitialized_array();
    assert!(moved_on != free);
    assert_eq!(moved_on, RawSlots { chunk: 0, start: 2, len: 0 });
    arena.allocate(0);
    assert_eq!(arena.uninitialized_array().len, 3);
    assert_eq!(arena.into_vec(), vec![0, 1, 0]);
}
