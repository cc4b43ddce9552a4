//! Allocation, freeing and exhaustion behavior of the node arena.

use arbor::node::{Node, NodeBuffer, INVALID_INDEX, STATUS_ALIVE, STATUS_GARBAGE};

#[test]
fn new_arena_is_empty_and_garbage() {
    let nb = NodeBuffer::new(10);
    assert_eq!(nb.size(), 10);
    assert_eq!(nb.current_size(), 0);
    for i in 0..10 {
        let n = nb.get(i);
        assert_eq!(n.status, STATUS_GARBAGE);
        assert_eq!(n.leftChildIndex, INVALID_INDEX);
        assert_eq!(n.rightChildIndex, INVALID_INDEX);
        assert_eq!(n.parentIndex, INVALID_INDEX);
        assert_eq!(n.length, 0);
    }
}

#[test]
fn allocate_is_lifo_and_signals_exhaustion() {
    let mut nb = NodeBuffer::new(3);
    assert_eq!(nb.allocate(), Some(2));
    assert_eq!(nb.allocate(), Some(1));
    assert_eq!(nb.allocate(), Some(0));
    assert_eq!(nb.current_size(), 3);
    // Exhaustion is an explicit signal and leaves the arena unchanged.
    assert_eq!(nb.allocate(), None);
    assert_eq!(nb.current_size(), 3);
    assert_eq!(nb.allocate(), None);
    assert_eq!(nb.current_size(), 3);
}

#[test]
fn free_forces_garbage_and_is_reused_first() {
    let mut nb = NodeBuffer::new(4);
    let a = nb.allocate().unwrap();
    let b = nb.allocate().unwrap();
    let mut n = Node::new();
    n.status = STATUS_ALIVE;
    nb.set(a, n);
    nb.set(b, n);
    assert_eq!(nb.current_size(), 2);
    nb.free(a);
    assert_eq!(nb.get(a).status, STATUS_GARBAGE);
    assert_eq!(nb.current_size(), 1);
    // LIFO reuse: the most recently freed index comes back first.
    assert_eq!(nb.allocate(), Some(a));
}

#[test]
fn get_set_roundtrip() {
    let mut nb = NodeBuffer::new(5);
    let i = nb.allocate().unwrap();
    let mut n = Node::new();
    n.status = STATUS_ALIVE;
    n.length = 123_456;
    n.age = 7;
    n.visible = 1;
    nb.set(i, n);
    let back = nb.get(i);
    assert_eq!(back, n);
}

#[test]
fn alloc_insert_places_node_at_popped_index() {
    let mut nb = NodeBuffer::new(3);
    let mut n = Node::new();
    n.status = STATUS_ALIVE;
    n.length = 42;
    nb.alloc_insert(n);
    // The first popped index of a fresh arena is the highest one.
    assert_eq!(nb.get(2).length, 42);
    assert_eq!(nb.current_size(), 1);
}

#[test]
fn allocate_free_cycles_partition_indices() {
    let mut nb = NodeBuffer::new(4);
    let a = nb.allocate().unwrap();
    let b = nb.allocate().unwrap();
    nb.free(a);
    let c = nb.allocate().unwrap();
    assert_eq!(c, a);
    let d = nb.allocate().unwrap();
    let e = nb.allocate().unwrap();
    // All four distinct indices are now allocated; nothing is both free and
    // allocated, so the next request must fail.
    let mut seen = vec![b, c, d, e];
    seen.sort();
    seen.dedup();
    assert_eq!(seen.len(), 4);
    assert_eq!(nb.allocate(), None);
}
