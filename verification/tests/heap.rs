use typepy_stdlib::heap::{zeroed, Heap};

#[test]
fn blocks_are_zero_filled_and_keep_what_is_stored() {
    let mut heap = Heap::new();
    assert!(!heap.contains(0));
    assert!(!heap.contains(1));
    let a = heap.allocate(3);
    let b = heap.allocate(0);
    assert_ne!(a, 0);
    assert_ne!(b, 0);
    assert_ne!(a, b);
    assert!(heap.contains(a));
    assert!(heap.contains(b));
    assert_eq!(heap.block_len(a), 3);
    assert_eq!(heap.block_len(b), 0);
    for index in 0..3 {
        assert_eq!(heap.load(a, index), 0);
    }
    heap.store(a, 1, 0xfeed);
    assert_eq!(heap.load(a, 0), 0);
    assert_eq!(heap.load(a, 1), 0xfeed);
    assert_eq!(heap.load(a, 2), 0);
}

#[test]
fn released_blocks_are_gone_and_new_ones_are_zero_again() {
    let mut heap = Heap::new();
    let a = heap.allocate(2);
    let b = heap.allocate(2);
    heap.store(a, 0, 7);
    heap.store(b, 1, 9);
    heap.release(a, 2);
    assert!(!heap.contains(a));
    assert!(heap.contains(b));
    assert_eq!(heap.load(b, 1), 9);
    let c = heap.allocate(4);
    assert!(heap.contains(c));
    assert_ne!(c, b);
    assert_eq!(heap.block_len(c), 4);
    for index in 0..4 {
        assert_eq!(heap.load(c, index), 0);
    }
    heap.release(b, 2);
    heap.release(c, 4);
    assert!(!heap.contains(b));
    assert!(!heap.contains(c));
}

#[test]
fn zeroed_gives_a_block_of_zeros() {
    assert_eq!(zeroed(0), Vec::<u64>::new());
    assert_eq!(zeroed(5), vec![0u64; 5]);
}
