//! The global laws of the allocator, stated over the arena's model and
//! proved once and for all: every operation's contract ends in `wf`, so
//! each law holds at every observation point between completed calls.

use vstd::prelude::*;

use crate::arena::Arena;
use crate::layout::{lemma_chain_total, lemma_sum_parts, sum_allocated, sum_free, sum_overhead,
    HEAP_SIZE};

verus! {

/// Conservation: in every well-formed arena, the memory still available
/// (`available_memory`'s result, the free blocks' payload sizes) plus
/// the live allocated payload sizes plus the per-block overhead of every
/// block currently existing equals the arena's capacity exactly.  No
/// bytes are created or lost by any sequence of `my_malloc`/`my_free`
/// calls.
pub proof fn lemma_conservation(a: Arena)
    requires
        a.wf(),
    ensures
        sum_free(a.blocks@) + sum_allocated(a.blocks@) + sum_overhead(a.blocks@) == HEAP_SIZE,
{
    lemma_chain_total(a.blocks@);
    lemma_sum_parts(a.blocks@);
}

/// Coalescing postcondition: in every well-formed arena — so after every
/// completed `my_free` — a scan of the arena by physical address never
/// finds two consecutive free blocks.
pub proof fn lemma_no_adjacent_free(a: Arena, i: int)
    requires
        a.wf(),
        0 <= i < a.blocks@.len() - 1,
    ensures
        !(a.blocks@[i].is_free() && a.blocks@[i + 1].is_free()),
{
}

/// Idempotence of the diagnostics: `available_memory` and
/// `number_of_free_nodes` each promise a result that is a pure function
/// of the arena state, so any two calls with no intervening mutation
/// return identical values.
pub proof fn lemma_diagnostics_idempotent(a: Arena, r1: usize, r2: usize, c1: u32, c2: u32)
    requires
        r1 as int == sum_free(a.blocks@),
        r2 as int == sum_free(a.blocks@),
        c1 as int == a.free@.len(),
        c2 as int == a.free@.len(),
    ensures
        r1 == r2,
        c1 == c2,
{
}

} // verus!
