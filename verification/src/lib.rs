//! A user-space heap allocator over a single fixed-size arena, with an
//! explicit free list, block splitting on allocation and boundary-tag
//! coalescing on release.
//!
//! The arena is modelled arena-indexed: the backing region is never
//! touched through raw pointers.  Every block is an offset range into the
//! [`layout::HEAP_SIZE`]-byte arena, bracketed by boundary tags, and the
//! free list is an explicit sequence of entries in list order, head
//! first.  `Arena::my_malloc` picks a candidate by the configured
//! [`FitStrategy`] and splits it; `Arena::my_free` validates the guard,
//! flips the tags and merges free physical neighbors; the diagnostics
//! report the free list without changing it.  [`laws`] states the global
//! invariants — conservation of bytes, no adjacent free blocks,
//! idempotent diagnostics — that every operation is proved to preserve.

pub mod allocator;
pub mod arena;
pub mod coalesce;
pub mod fit;
pub mod laws;
pub mod layout;

pub use arena::Arena;
pub use coalesce::FreeError;
pub use fit::{find_candidate, FitStrategy};
pub use layout::{Block, Mast, Node};
pub use layout::{GUARD, HEAP_SIZE, NODE_BYTES, TAG_BYTES};

