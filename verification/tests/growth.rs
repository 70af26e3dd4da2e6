use typed_arena::growth::grow;
use typed_arena::growth::growable;
use typed_arena::growth::larger;

#[test]
fn grow_doubles_for_small_requests() {
    assert_eq!(grow(1, 0), 2);
    assert_eq!(grow(1, 1), 2);
    assert_eq!(grow(4, 3), 8);
    assert_eq!(grow(4, 8), 8);
    assert_eq!(grow(1024, 1), 2048);
}

#[test]
fn grow_takes_the_next_power_of_two_for_large_requests() {
    assert_eq!(grow(1, 3), 4);
    assert_eq!(grow(4, 9), 16);
    assert_eq!(grow(1, 100), 128);
    assert_eq!(grow(3, 1000), 1024);
    assert_eq!(grow(1, 1024), 1024);
    assert_eq!(grow(1, 1025), 2048);
}

#[test]
fn growable_says_when_the_size_can_be_counted() {
    assert!(growable(1, 1));
    assert!(growable(usize::MAX / 2, 1));
    assert!(!growable(usize::MAX / 2 + 1, 1));
    assert!(growable(1, usize::MAX / 2 + 1));
    assert!(!growable(1, usize::MAX / 2 + 2));
    assert!(!growable(usize::MAX, usize::MAX));
}

#[test]
fn larger_picks_the_larger() {
    assert_eq!(larger(1, 2), 2);
    assert_eq!(larger(2, 1), 2);
    assert_eq!(larger(3, 3), 3);
    assert_eq!(larger(0, usize::MAX), usize::MAX);
}
