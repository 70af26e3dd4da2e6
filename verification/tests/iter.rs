use typed_arena::Arena;

#[derive(Debug, PartialEq, Eq)]
struct Point {
    x: i32,
    y: i32,
}

#[test]
fn iter_mut_changes_the_values_in_place() {
    let mut arena = Arena::new();
    arena.allocate(Point { x: 0, y: 0 });
    arena.allocate(Point { x: 1, y: 1 });
    let mut cursor = arena.iter_mut();
    while let Some(point) = cursor.next() {
        point.x += 10;
    }
    let points = arena.into_vec();
    assert_eq!(points, vec![Point { x: 10, y: 0 }, Point { x: 11, y: 1 }]);
}

fn filled(chunks: usize) -> (Arena<usize>, Vec<usize>) {
    let mut arena = Arena::with_capacity(2);
    let mut expected = Vec::new();
    let mut next = 0;
    while arena.uninitialized_array().chunk + 1 < chunks {
        arena.allocate(next);
        expected.push(next);
        next += 1;
    }
    arena.alloc_extend((next..next + 3).filter(|_| true)).unwrap();
    expected.extend(next..next + 3);
    (arena, expected)
}

#[test]
fn iter_mut_visits_in_the_order_of_into_vec() {
    for chunks in 1..8 {
        let (mut arena, expected) = filled(chunks);
        let mut visited = Vec::new();
        let mut cursor = arena.iter_mut();
        while let Some(value) = cursor.next() {
            visited.push(*value);
        }
        assert_eq!(visited, expected);
        assert_eq!(arena.into_vec(), expected);
    }
}

#[test]
fn iter_mut_ends_and_stays_ended() {
    let mut arena = Arena::with_capacity(1);
    arena.allocate('a');
    arena.allocate('b');
    let mut cursor = arena.iter_mut();
    assert_eq!(cursor.next(), Some(&mut 'a'));
    assert_eq!(cursor.next(), Some(&mut 'b'));
    assert_eq!(cursor.next(), None);
    assert_eq!(cursor.next(), None);
}

#[test]
fn iter_mut_of_an_empty_arena_yields_nothing() {
    let mut arena: Arena<u8> = Arena::new();
    let mut cursor = arena.iter_mut();
    assert_eq!(cursor.size_hint(), (0, Some(0)));
    assert_eq!(cursor.next(), None);
}

#[test]
fn iter_mut_passes_over_a_chunk_that_was_closed_with_free_slots() {
    let mut arena = Arena::with_capacity(4);
    arena.allocate(1);
    arena.alloc_extend(vec![2, 3, 4, 5].into_iter()).unwrap();
    arena.alloc_extend_hinted(Vec::new().into_iter(), 100);
    arena.allocate(6);
    let mut visited = Vec::new();
    let mut cursor = arena.iter_mut();
    while let Some(value) = cursor.next() {
        visited.push(*value);
    }
    assert_eq!(visited, vec![1, 2, 3, 4, 5, 6]);
}

#[test]
fn size_hint_is_exact_without_closed_chunks() {
    let mut arena = Arena::with_capacity(8);
    arena.allocate(1);
    arena.allocate(2);
    arena.allocate(3);
    let cursor = arena.iter_mut();
    assert_eq!(cursor.size_hint(), (3, Some(3)));
}

#[test]
fn size_hint_bounds_the_count_with_closed_chunks() {
    let mut arena = Arena::with_capacity(2);
    for i in 0..5 {
        arena.allocate(i);
    }
    // Chunks of 2 and 4 slots with 2 and 3 values.
    let cursor = arena.iter_mut();
    assert_eq!(cursor.size_hint(), (5, Some(9)));

    let mut arena = Arena::with_capacity(1);
    for i in 0..12 {
        arena.allocate(i);
    }
    // Chunks of 1, 2, 4 and 8 slots with 1, 2, 4 and 5 values.
    let cursor = arena.iter_mut();
    let (lower, upper) = cursor.size_hint();
    assert_eq!((lower, upper), (9, Some(17)));
    assert!(lower <= 12 && 12 <= upper.unwrap());
}

#[test]
fn size_hint_counts_what_is_left_without_closed_chunks() {
    let mut arena = Arena::with_capacity(4);
    arena.allocate(1);
    arena.allocate(2);
    let mut cursor = arena.iter_mut();
    assert_eq!(cursor.size_hint(), (2, Some(2)));
    cursor.next();
    assert_eq!(cursor.size_hint(), (1, Some(1)));
    cursor.next();
    assert_eq!(cursor.size_hint(), (0, Some(0)));
    assert_eq!(cursor.next(), None);
    assert_eq!(cursor.size_hint(), (0, Some(0)));
}

#[test]
fn size_hint_of_a_stepped_cursor_bounds_what_is_left() {
    // Chunks of 1, 2, 4 and 8 slots with 1, 2, 4 and 5 values.
    let mut arena = Arena::with_capacity(1);
    for i in 0..12 {
        arena.allocate(i);
    }
    let mut cursor = arena.iter_mut();
    let mut left = 12;
    let mut hints = Vec::new();
    loop {
        let (lower, upper) = cursor.size_hint();
        assert!(lower <= left);
        assert!(left <= upper.unwrap());
        hints.push((lower, upper.unwrap()));
        if cursor.next().is_none() {
            break;
        }
        left -= 1;
    }
    assert_eq!(left, 0);
    assert_eq!(
        hints,
        vec![
            // In the chunks of 1 and 2 slots: the last two chunks lie ahead.
            (9, 17),
            (9, 17),
            (9, 17),
            (9, 17),
            // In the chunk that was closed last, with 3 down to 0 values left.
            (8, 16),
            (7, 15),
            (6, 14),
            (5, 13),
            // In the current chunk, with 4 down to 0 values left.
            (4, 12),
            (3, 11),
            (2, 10),
            (1, 9),
            (0, 8),
        ]
    );
}

#[test]
fn size_hint_of_a_cursor_at_the_end_has_lower_bound_zero() {
    // Chunks of 1 and 2 slots with 1 and 2 values.
    let mut arena = Arena::with_capacity(1);
    for i in 0..3 {
        arena.allocate(i);
    }
    let mut cursor = arena.iter_mut();
    assert_eq!(cursor.size_hint(), (3, Some(5)));
    while cursor.next().is_some() {}
    assert_eq!(cursor.size_hint(), (0, Some(2)));
}
