//! Checks of the three fit strategies, on the candidate search itself
//! and through the allocator.

use my_malloc::{find_candidate, Arena, FitStrategy, NODE_BYTES};

#[test]
fn fit_strategies_on_the_documented_free_list() {
    let sizes = vec![64usize, 256, 32];
    assert_eq!(find_candidate(&sizes, 40, FitStrategy::FirstFit), Some(0));
    assert_eq!(find_candidate(&sizes, 40, FitStrategy::WorstFit), Some(1));
    assert_eq!(find_candidate(&sizes, 40, FitStrategy::BestFit), Some(0));
}

#[test]
fn no_strategy_finds_a_block_that_is_too_small() {
    let sizes = vec![64usize, 256, 32];
    assert_eq!(find_candidate(&sizes, 257, FitStrategy::FirstFit), None);
    assert_eq!(find_candidate(&sizes, 257, FitStrategy::WorstFit), None);
    assert_eq!(find_candidate(&sizes, 257, FitStrategy::BestFit), None);
    assert_eq!(find_candidate(&Vec::new(), 1, FitStrategy::FirstFit), None);
}

#[test]
fn ties_keep_the_first_block_encountered() {
    let sizes = vec![80usize, 80, 80];
    assert_eq!(find_candidate(&sizes, 40, FitStrategy::WorstFit), Some(0));
    assert_eq!(find_candidate(&sizes, 40, FitStrategy::BestFit), Some(0));
    let sizes = vec![30usize, 50, 80, 50, 80];
    assert_eq!(find_candidate(&sizes, 40, FitStrategy::WorstFit), Some(2));
    assert_eq!(find_candidate(&sizes, 40, FitStrategy::BestFit), Some(1));
}

#[test]
fn exact_fit_is_accepted_by_every_strategy() {
    let sizes = vec![64usize, 256, 32];
    assert_eq!(find_candidate(&sizes, 32, FitStrategy::BestFit), Some(2));
    assert_eq!(find_candidate(&sizes, 256, FitStrategy::FirstFit), Some(1));
    assert_eq!(find_candidate(&sizes, 256, FitStrategy::WorstFit), Some(1));
}

#[test]
fn worst_fit_takes_the_largest_block_through_the_allocator() {
    let mut a = Arena::heap();
    a.strategy = FitStrategy::WorstFit;
    // Carve the arena into [p][q][rest], then free p to get a free list
    // of a small block and the large tail.
    let p = a.my_malloc(100).unwrap();
    let _q = a.my_malloc(16).unwrap();
    a.my_free(p).unwrap();
    assert_eq!(a.describe_free_list().len(), 2);
    // First-fit would reuse p's slot (head of the list); worst-fit must
    // carve from the large tail instead, leaving p's slot as is.
    let r = a.my_malloc(16).unwrap();
    assert!(r > p);
    let list = a.describe_free_list();
    assert_eq!(list[0], 100 - NODE_BYTES);
}

#[test]
fn best_fit_takes_the_smallest_sufficient_block_through_the_allocator() {
    let mut a = Arena::heap();
    a.strategy = FitStrategy::BestFit;
    let p = a.my_malloc(100).unwrap();
    let _q = a.my_malloc(16).unwrap();
    a.my_free(p).unwrap();
    // p's freed block (84 usable) is smaller than the tail and still
    // hosts the request, so best-fit reuses it: the new payload sits
    // exactly where p's was.
    let r = a.my_malloc(16).unwrap();
    assert_eq!(r, p);
}
