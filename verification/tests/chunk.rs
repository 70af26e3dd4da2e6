use typed_arena::chunk::Chunk;

#[test]
fn chunk_starts_empty_with_its_slots() {
    let chunk: Chunk<u8> = Chunk::with_capacity(5);
    assert_eq!(chunk.len(), 0);
    assert_eq!(chunk.capacity(), 5);
}

#[test]
fn chunk_push_fills_slots_in_order() {
    let mut chunk = Chunk::with_capacity(3);
    chunk.push('a');
    chunk.push('b');
    assert_eq!(chunk.len(), 2);
    assert_eq!(chunk.capacity(), 3);
    assert_eq!(*chunk.slot_mut(0), 'a');
    assert_eq!(*chunk.slot_mut(1), 'b');
}

#[test]
fn chunk_slot_mut_writes_one_slot() {
    let mut chunk = Chunk::with_capacity(3);
    chunk.push(1);
    chunk.push(2);
    chunk.push(3);
    *chunk.slot_mut(1) = 20;
    assert_eq!(chunk.tail_mut(0), [1, 20, 3]);
}

#[test]
fn chunk_tail_mut_starts_where_it_is_told() {
    let mut chunk = Chunk::with_capacity(4);
    chunk.push(1);
    chunk.push(2);
    chunk.push(3);
    assert_eq!(chunk.tail_mut(1), [2, 3]);
    assert!(chunk.tail_mut(3).is_empty());
    chunk.tail_mut(2)[0] = 30;
    assert_eq!(chunk.tail_mut(0), [1, 2, 30]);
}

#[test]
fn chunk_extend_within_its_slots_keeps_them() {
    let mut chunk = Chunk::with_capacity(4);
    chunk.push(1);
    chunk.extend(vec![2, 3].into_iter());
    assert_eq!(chunk.len(), 3);
    assert_eq!(chunk.capacity(), 4);
    assert_eq!(chunk.tail_mut(0), [1, 2, 3]);
}

#[test]
fn chunk_extend_beyond_its_slots_has_as_many_slots_as_values() {
    let mut chunk = Chunk::with_capacity(2);
    chunk.push(1);
    chunk.extend(2..=7);
    assert_eq!(chunk.len(), 7);
    assert_eq!(chunk.capacity(), 7);
    assert_eq!(chunk.tail_mut(0), [1, 2, 3, 4, 5, 6, 7]);
}

#[test]
fn chunk_split_off_and_append_move_the_tail() {
    let mut from = Chunk::with_capacity(4);
    from.extend(vec![1, 2, 3, 4].into_iter());
    let mut tail = from.split_off(1);
    assert_eq!(tail, vec![2, 3, 4]);
    assert_eq!(from.len(), 1);
    assert_eq!(from.capacity(), 4);
    let mut to = Chunk::with_capacity(8);
    to.push(0);
    to.append(&mut tail);
    assert!(tail.is_empty());
    assert_eq!(to.capacity(), 8);
    assert_eq!(to.tail_mut(0), [0, 2, 3, 4]);
}

#[test]
fn chunk_drain_into_empties_the_chunk() {
    let mut chunk = Chunk::with_capacity(2);
    chunk.push("x");
    chunk.push("y");
    let mut target = vec!["w"];
    chunk.drain_into(&mut target);
    assert_eq!(target, vec!["w", "x", "y"]);
    assert_eq!(chunk.len(), 0);
    assert_eq!(chunk.capacity(), 2);
}
