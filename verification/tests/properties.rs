//! Checks of the allocator's stated global properties on concrete runs:
//! conservation of bytes, absence of adjacent free blocks, diagnostic
//! idempotence, split accounting, the four-case coalescing round trip,
//! and guard rejection.

use my_malloc::{Arena, FreeError, HEAP_SIZE, NODE_BYTES, TAG_BYTES};

/// Sum of every block's payload size plus its per-block overhead, read
/// off a physical scan: conservation says this is the whole capacity.
fn bytes_accounted(a: &Arena) -> usize {
    let mut total: usize = 0;
    for tag in a.describe_blocks() {
        total += tag.size + 2 * TAG_BYTES;
        if tag.a == 0 {
            total += NODE_BYTES;
        }
    }
    total
}

/// True when no two physically consecutive blocks are both free.
fn no_adjacent_free(a: &Arena) -> bool {
    let tags = a.describe_blocks();
    tags.windows(2).all(|w| !(w[0].a == 0 && w[1].a == 0))
}

#[test]
fn conservation_at_every_observation_point() {
    let mut a = Arena::heap();
    assert_eq!(bytes_accounted(&a), HEAP_SIZE);
    let p = a.my_malloc(100).unwrap();
    assert_eq!(bytes_accounted(&a), HEAP_SIZE);
    let q = a.my_malloc(20).unwrap();
    let r = a.my_malloc(300).unwrap();
    assert_eq!(bytes_accounted(&a), HEAP_SIZE);
    a.my_free(q).unwrap();
    assert_eq!(bytes_accounted(&a), HEAP_SIZE);
    a.my_free(p).unwrap();
    assert_eq!(bytes_accounted(&a), HEAP_SIZE);
    a.my_free(r).unwrap();
    assert_eq!(bytes_accounted(&a), HEAP_SIZE);
    assert_eq!(a.available_memory(), HEAP_SIZE - 2 * TAG_BYTES - NODE_BYTES);
}

#[test]
fn no_adjacent_free_blocks_after_each_release() {
    let mut a = Arena::heap();
    let p = a.my_malloc(40).unwrap();
    let q = a.my_malloc(40).unwrap();
    let r = a.my_malloc(40).unwrap();
    let s = a.my_malloc(40).unwrap();
    a.my_free(q).unwrap();
    assert!(no_adjacent_free(&a));
    a.my_free(s).unwrap();
    assert!(no_adjacent_free(&a));
    a.my_free(p).unwrap();
    assert!(no_adjacent_free(&a));
    a.my_free(r).unwrap();
    assert!(no_adjacent_free(&a));
    assert_eq!(a.number_of_free_nodes(), 1);
}

#[test]
fn diagnostics_are_idempotent() {
    let mut a = Arena::heap();
    let _ = a.my_malloc(64).unwrap();
    assert_eq!(a.available_memory(), a.available_memory());
    assert_eq!(a.number_of_free_nodes(), a.number_of_free_nodes());
    assert_eq!(a.describe_free_list(), a.describe_free_list());
}

#[test]
fn split_accounting_on_a_fresh_arena() {
    let mut a = Arena::heap();
    a.reset_heap();
    let before = a.available_memory();
    let p = a.my_malloc(16);
    assert!(p.is_some());
    assert_eq!(a.number_of_free_nodes(), 1);
    assert_eq!(before - a.available_memory(), 16 + 2 * TAG_BYTES);
}

#[test]
fn coalescing_round_trip_merges_all_three() {
    let mut a = Arena::heap();
    a.reset_heap();
    let base = a.number_of_free_nodes();
    assert_eq!(base, 1);
    let p = a.my_malloc(16).unwrap();
    let q = a.my_malloc(16).unwrap();
    let r = a.my_malloc(16).unwrap();
    let s = a.my_malloc(16).unwrap();
    a.my_free(r).unwrap();
    a.my_free(p).unwrap();
    // The released blocks plus the split remainder at the arena's tail.
    assert_eq!(a.number_of_free_nodes(), 3);
    // Both physical neighbors of q are free now: the release merges all
    // three into one block, so the count net of the ever-present
    // remainder is back to zero.
    a.my_free(q).unwrap();
    assert_eq!(a.number_of_free_nodes(), 2);
    let list = a.describe_free_list();
    // Head: p, q and r's regions as one contiguous free block, both
    // swallowed boundaries' overhead reclaimed.
    assert_eq!(list[0], 4 * TAG_BYTES + 2 * NODE_BYTES);
    assert_eq!(list[1], HEAP_SIZE - 2 * TAG_BYTES - NODE_BYTES - 4 * (16 + 2 * TAG_BYTES));
    // s is untouched.
    assert_eq!(a.tag_at(s).unwrap().a, 1);
    assert!(no_adjacent_free(&a));
    // Releasing s merges everything back into the single start block.
    a.my_free(s).unwrap();
    assert_eq!(a.number_of_free_nodes(), 1);
    assert_eq!(a.available_memory(), HEAP_SIZE - 2 * TAG_BYTES - NODE_BYTES);
}

#[test]
fn guard_rejection_leaves_the_free_list_alone() {
    let mut a = Arena::heap();
    let p = a.my_malloc(64).unwrap();
    let list = a.describe_free_list();
    assert!(a.overwrite_guard(p, 77));
    let e = a.my_free(p);
    assert_eq!(e, Err(FreeError::BadGuard));
    assert_eq!(a.describe_free_list(), list);
    assert_eq!(a.number_of_free_nodes(), 1);
    assert_eq!(a.tag_at(p).unwrap().a, 77);
}

#[test]
fn overwrite_guard_touches_only_allocated_blocks() {
    let mut a = Arena::heap();
    // The initial block is free: nothing to scribble on.
    assert!(!a.overwrite_guard(TAG_BYTES, 5));
    assert!(!a.overwrite_guard(0, 5));
    let p = a.my_malloc(16).unwrap();
    assert!(a.overwrite_guard(p, 5));
    assert_eq!(a.tag_at(p).unwrap().a, 5);
}

#[test]
fn lifo_insertion_keeps_the_newest_block_at_the_head() {
    let mut a = Arena::heap();
    let p = a.my_malloc(24).unwrap();
    let _q = a.my_malloc(32).unwrap();
    let r = a.my_malloc(40).unwrap();
    let _s = a.my_malloc(48).unwrap();
    a.my_free(p).unwrap();
    a.my_free(r).unwrap();
    // Head first: r's region, then p's, then the split remainder.
    let list = a.describe_free_list();
    assert_eq!(list.len(), 3);
    assert_eq!(list[0], 40 - NODE_BYTES);
    assert_eq!(list[1], 24 - NODE_BYTES);
}
