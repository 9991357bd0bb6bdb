use graph_search::heap::{decrease_key, heapify_up, pop_heap};
use rand::Rng;

fn push(heap: &mut Vec<(u32, u64)>, entry: (u32, u64)) {
    heap.push(entry);
    let last = heap.len() - 1;
    heapify_up(heap, last);
}

#[test]
fn draining_random_heap_is_sorted() {
    let mut rng = rand::thread_rng();
    let n = 200u32;
    let mut heap: Vec<(u32, u64)> = Vec::new();
    for k in 0..n {
        push(&mut heap, (k, rng.gen_range(0..1_000_000u64)));
    }
    let mut last = 0u64;
    for _ in 0..n {
        let (_, p) = pop_heap(&mut heap);
        assert!(p >= last);
        last = p;
    }
    assert!(heap.is_empty());
}

#[test]
fn pop_returns_the_minimum() {
    let mut heap: Vec<(u32, u64)> = Vec::new();
    push(&mut heap, (0, 40));
    push(&mut heap, (1, 10));
    push(&mut heap, (2, 30));
    push(&mut heap, (3, 20));
    assert_eq!(pop_heap(&mut heap), (1, 10));
    assert_eq!(pop_heap(&mut heap), (3, 20));
    assert_eq!(pop_heap(&mut heap), (2, 30));
    assert_eq!(pop_heap(&mut heap), (0, 40));
}

#[test]
fn decrease_key_pops_fresh_priority() {
    let mut heap: Vec<(u32, u64)> = Vec::new();
    push(&mut heap, (0, 50));
    push(&mut heap, (1, 60));
    push(&mut heap, (2, 70));
    decrease_key(&mut heap, 2, 5);
    // key 2 now carries 5, never the stale 70
    assert_eq!(pop_heap(&mut heap), (2, 5));
    assert_eq!(pop_heap(&mut heap), (0, 50));
    // raising is a no-op
    decrease_key(&mut heap, 1, 90);
    assert_eq!(pop_heap(&mut heap), (1, 60));
}

#[test]
fn single_element_heap() {
    let mut heap: Vec<(u32, u64)> = vec![(7, 3)];
    assert_eq!(pop_heap(&mut heap), (7, 3));
    assert!(heap.is_empty());
}
