//! Lifecycle, allocation and release checks against a fresh arena.

use my_malloc::{Arena, FreeError, FitStrategy, HEAP_SIZE, NODE_BYTES, TAG_BYTES};

#[test]
fn test_init_and_check_available_memory() {
    let mut a = Arena::heap();
    a.reset_heap();
    let size = a.available_memory();
    assert_eq!(size, HEAP_SIZE - (2 * TAG_BYTES) - NODE_BYTES);
}

#[test]
fn check_number_of_free_node() {
    let mut a = Arena::heap();
    a.reset_heap();
    let count = a.number_of_free_nodes();
    assert_eq!(count, 1);
}

#[test]
fn simple_malloc_call() {
    let mut a = Arena::heap();
    a.reset_heap();
    let p = a.my_malloc(128);
    assert!(p.is_some());
}

#[test]
fn simple_malloc_call_number_of_free_node() {
    let mut a = Arena::heap();
    a.reset_heap();
    let p = a.my_malloc(128);
    assert!(p.is_some());
    let count = a.number_of_free_nodes();
    assert_eq!(count, 1);
}

#[test]
fn malloc_too_much_memory() {
    let mut a = Arena::heap();
    a.reset_heap();
    let p = a.my_malloc(10000);
    assert!(p.is_none());
}

#[test]
fn simple_malloc_call_check_available_memory() {
    let mut a = Arena::heap();
    a.reset_heap();
    let p = a.my_malloc(128);
    assert!(p.is_some());
    let size = a.available_memory();
    assert_eq!(size, HEAP_SIZE - (4 * TAG_BYTES) - NODE_BYTES - 128);
}

#[test]
fn check_your_head() {
    let mut a = Arena::heap();
    a.reset_heap();
    let p = a.my_malloc(128);
    assert!(p.is_some());

    let head = a.tag_at(p.unwrap()).unwrap();

    assert_eq!(head.a, 1);
}

#[test]
fn simple_free_check() {
    let mut a = Arena::heap();
    a.reset_heap();
    let p = a.my_malloc(128);
    assert!(p.is_some());

    let k = a.my_malloc(128);
    assert!(k.is_some());

    a.my_free(p.unwrap()).unwrap();

    assert_eq!(a.number_of_free_nodes(), 2);
}

#[test]
fn first_payload_sits_after_the_header() {
    let mut a = Arena::heap();
    let p = a.my_malloc(16);
    assert_eq!(p, Some(TAG_BYTES));
}

#[test]
fn malloc_reserves_node_room_for_tiny_requests() {
    let mut a = Arena::heap();
    let before = a.available_memory();
    let p = a.my_malloc(1).unwrap();
    assert_eq!(before - a.available_memory(), NODE_BYTES + 2 * TAG_BYTES);
    let head = a.tag_at(p).unwrap();
    assert_eq!(head.size, NODE_BYTES);
    a.my_free(p).unwrap();
    assert_eq!(a.available_memory(), before);
}

#[test]
fn exact_fit_leaves_a_zero_size_remainder_listed() {
    let mut a = Arena::heap();
    // The whole initial block minus the carve-out's own two tags.
    let whole = HEAP_SIZE - (4 * TAG_BYTES) - NODE_BYTES;
    let p = a.my_malloc(whole).unwrap();
    assert_eq!(a.number_of_free_nodes(), 1);
    assert_eq!(a.available_memory(), 0);
    assert_eq!(a.describe_free_list(), vec![0]);
    assert!(a.my_malloc(1).is_none());
    a.my_free(p).unwrap();
    assert_eq!(a.number_of_free_nodes(), 1);
    assert_eq!(a.available_memory(), HEAP_SIZE - (2 * TAG_BYTES) - NODE_BYTES);
}

#[test]
fn free_of_an_unknown_pointer_is_refused() {
    let mut a = Arena::heap();
    let p = a.my_malloc(64).unwrap();
    let list = a.describe_free_list();
    assert_eq!(a.my_free(p + 1), Err(FreeError::UnknownPointer));
    assert_eq!(a.my_free(3), Err(FreeError::UnknownPointer));
    assert_eq!(a.describe_free_list(), list);
}

#[test]
fn double_free_is_refused() {
    let mut a = Arena::heap();
    let p = a.my_malloc(16).unwrap();
    let q = a.my_malloc(16).unwrap();
    a.my_free(p).unwrap();
    let list = a.describe_free_list();
    assert_eq!(a.my_free(p), Err(FreeError::NotAllocated));
    assert_eq!(a.describe_free_list(), list);
    a.my_free(q).unwrap();
}

#[test]
fn reset_heap_keeps_the_configured_strategy() {
    let mut a = Arena::heap();
    a.strategy = FitStrategy::BestFit;
    let _ = a.my_malloc(200);
    a.reset_heap();
    assert_eq!(a.strategy, FitStrategy::BestFit);
    assert_eq!(a.number_of_free_nodes(), 1);
    assert_eq!(a.available_memory(), HEAP_SIZE - (2 * TAG_BYTES) - NODE_BYTES);
}

#[test]
fn tag_at_reads_free_and_missing_blocks() {
    let mut a = Arena::heap();
    let tag = a.tag_at(TAG_BYTES).unwrap();
    assert_eq!(tag.a, 0);
    assert_eq!(tag.size, HEAP_SIZE - (2 * TAG_BYTES) - NODE_BYTES);
    assert!(a.tag_at(0).is_none());
    assert!(a.tag_at(HEAP_SIZE).is_none());
    let p = a.my_malloc(32).unwrap();
    let tag = a.tag_at(p).unwrap();
    assert_eq!(tag.size, 32);
    assert_eq!(tag.a, 1);
}
