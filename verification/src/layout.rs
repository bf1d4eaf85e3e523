//! Block layout: the physical encoding of a memory block.
//!
//! A block is a contiguous byte range inside the arena.  It starts with a
//! header tag and ends with a footer tag; the two tags always carry the same
//! size and allocated flag and are written together, so a single [`Mast`]
//! record stands for the pair.  A free block additionally reserves room for
//! a free-list node at the start of its payload, so its byte footprint is
//! `size + 2 * TAG_BYTES + NODE_BYTES`, while an allocated block's payload
//! begins right after the header and its footprint is `size + 2 * TAG_BYTES`.

use vstd::prelude::*;

verus! {

/// Total capacity of the arena, in bytes.
pub const HEAP_SIZE: usize = 4096;

/// Bytes taken by one boundary tag (a header or a footer).
pub const TAG_BYTES: usize = 16;

/// Bytes reserved at the start of a free block's payload for its
/// free-list node.
pub const NODE_BYTES: usize = 16;

/// Flag value stamped on an allocated block's tags; `release` refuses a
/// block whose header does not carry it.
pub const GUARD: i8 = 1;

/// A boundary tag: one header/footer pair.  `size` is the payload byte
/// count (tags excluded; for a free block the node region is excluded
/// too); `a` is `0` for a free block and [`GUARD`] for a well-formed
/// allocated one.  Any other value means the tag was overwritten.
#[derive(Clone, Copy)]
pub struct Mast {
    pub size: usize,
    pub a: i8,
}

impl Mast {
    /// A tag marks its block free exactly when the flag is zero.
    pub open spec fn is_free(self) -> bool {
        self.a == 0
    }

    /// Bytes of bookkeeping the block carries besides its payload.
    pub open spec fn overhead(self) -> int {
        if self.is_free() {
            2 * TAG_BYTES + NODE_BYTES
        } else {
            2 * TAG_BYTES
        }
    }
}

/// One block of the arena: its header's offset from the arena base, and
/// its boundary tag.
#[derive(Clone, Copy)]
pub struct Block {
    pub offset: usize,
    pub tag: Mast,
}

impl Block {
    pub open spec fn is_free(self) -> bool {
        self.tag.is_free()
    }

    /// Total bytes the block occupies.
    pub open spec fn footprint(self) -> int {
        self.tag.size + self.tag.overhead()
    }

    /// Offset one past the block's footer; the next block's header, if any,
    /// sits exactly here.
    pub open spec fn end(self) -> int {
        self.offset + self.footprint()
    }

    /// Offset of the payload: the byte right after the header.  This is
    /// the address handed to callers, and the address at which a free
    /// block's node region begins.
    pub open spec fn payload(self) -> int {
        self.offset + TAG_BYTES
    }
}

/// A free-list entry.  In the arena-indexed model the doubly-linked
/// `prev`/`next` fields of an in-memory node become adjacency in the list
/// sequence; what identifies a node is the header offset `at` of the free
/// block it lives in.
#[derive(Clone, Copy)]
pub struct Node {
    pub at: usize,
}

/// No two entries of a free list name the same block.
pub open spec fn entries_distinct(fr: Seq<Node>) -> bool {
    forall|j1: int, j2: int|
        0 <= j1 < j2 < fr.len() ==> (#[trigger] fr[j1]).at != (#[trigger] fr[j2]).at
}

/// The blocks of a well-formed arena tile it exactly: the first starts at
/// offset zero, each next block starts where the previous one ends, and
/// the last one ends at the arena's capacity.
pub open spec fn chained(s: Seq<Block>) -> bool {
    &&& s.len() >= 1
    &&& s[0].offset == 0
    &&& forall|i: int| 0 <= i < s.len() - 1 ==> (#[trigger] s[i + 1].offset) == s[i].end()
    &&& s[s.len() - 1].end() == HEAP_SIZE
}

/// Number of free blocks in a block sequence.
pub open spec fn count_free(s: Seq<Block>) -> int
    decreases s.len(),
{
    if s.len() == 0 {
        0
    } else {
        count_free(s.drop_last()) + if s.last().is_free() {
            1int
        } else {
            0int
        }
    }
}

/// Sum of the payload sizes of the free blocks.
pub open spec fn sum_free(s: Seq<Block>) -> int
    decreases s.len(),
{
    if s.len() == 0 {
        0
    } else {
        sum_free(s.drop_last()) + if s.last().is_free() {
            s.last().tag.size as int
        } else {
            0int
        }
    }
}

/// Sum of the payload sizes of the allocated blocks.
pub open spec fn sum_allocated(s: Seq<Block>) -> int
    decreases s.len(),
{
    if s.len() == 0 {
        0
    } else {
        sum_allocated(s.drop_last()) + if s.last().is_free() {
            0int
        } else {
            s.last().tag.size as int
        }
    }
}

/// Sum of the per-block overhead of every block.
pub open spec fn sum_overhead(s: Seq<Block>) -> int
    decreases s.len(),
{
    if s.len() == 0 {
        0
    } else {
        sum_overhead(s.drop_last()) + s.last().tag.overhead()
    }
}

/// Sum of the byte footprints of every block.
pub open spec fn sum_footprint(s: Seq<Block>) -> int
    decreases s.len(),
{
    if s.len() == 0 {
        0
    } else {
        sum_footprint(s.drop_last()) + s.last().footprint()
    }
}

/// Replacing one block changes the free count by the difference the two
/// blocks' flags make.
pub proof fn lemma_count_free_update(s: Seq<Block>, i: int, b: Block)
    requires
        0 <= i < s.len(),
    ensures
        count_free(s.update(i, b)) == count_free(s) + (if b.is_free() {
            1int
        } else {
            0int
        }) - (if s[i].is_free() {
            1int
        } else {
            0int
        }),
    decreases s.len(),
{
    if i == s.len() - 1 {
        assert(s.update(i, b).drop_last() =~= s.drop_last());
    } else {
        assert(s.update(i, b).drop_last() =~= s.drop_last().update(i, b));
        lemma_count_free_update(s.drop_last(), i, b);
    }
}

/// Inserting a block adds its own flag's contribution to the free count.
pub proof fn lemma_count_free_insert(s: Seq<Block>, i: int, b: Block)
    requires
        0 <= i <= s.len(),
    ensures
        count_free(s.insert(i, b)) == count_free(s) + if b.is_free() {
            1int
        } else {
            0int
        },
    decreases s.len(),
{
    if i == s.len() {
        assert(s.insert(i, b).drop_last() =~= s);
        assert(s.insert(i, b).last() == b);
    } else {
        assert(s.insert(i, b).drop_last() =~= s.drop_last().insert(i, b));
        assert(s.insert(i, b).last() == s.last());
        lemma_count_free_insert(s.drop_last(), i, b);
    }
}

/// Removing a block takes its flag's contribution out of the free count.
pub proof fn lemma_count_free_remove(s: Seq<Block>, i: int)
    requires
        0 <= i < s.len(),
    ensures
        count_free(s.remove(i)) == count_free(s) - if s[i].is_free() {
            1int
        } else {
            0int
        },
    decreases s.len(),
{
    if i == s.len() - 1 {
        assert(s.remove(i) =~= s.drop_last());
    } else {
        assert(s.remove(i).drop_last() =~= s.drop_last().remove(i));
        assert(s.remove(i).last() == s.last());
        lemma_count_free_remove(s.drop_last(), i);
    }
}

/// A footprint splits into payload plus overhead, so the footprint sum
/// splits into the three partial sums.
pub proof fn lemma_sum_parts(s: Seq<Block>)
    ensures
        sum_footprint(s) == sum_free(s) + sum_allocated(s) + sum_overhead(s),
    decreases s.len(),
{
    if s.len() > 0 {
        lemma_sum_parts(s.drop_last());
    }
}

/// Every partial sum is nonnegative, and each free count is at most the
/// number of blocks.
pub proof fn lemma_sums_nonneg(s: Seq<Block>)
    ensures
        sum_free(s) >= 0,
        sum_allocated(s) >= 0,
        sum_overhead(s) >= 0,
        0 <= count_free(s) <= s.len(),
    decreases s.len(),
{
    if s.len() > 0 {
        lemma_sums_nonneg(s.drop_last());
    }
}

/// In a chained sequence the footprints of the first `i` blocks add up to
/// the offset where block `i` begins (or to the capacity, past the end).
pub proof fn lemma_chain_prefix_sum(s: Seq<Block>, i: int)
    requires
        chained(s),
        0 <= i <= s.len(),
    ensures
        sum_footprint(s.take(i)) == if i < s.len() {
            s[i].offset as int
        } else {
            HEAP_SIZE as int
        },
    decreases i,
{
    if i == 0 {
        assert(s.take(0).len() == 0);
    } else {
        lemma_chain_prefix_sum(s, i - 1);
        assert(s.take(i).drop_last() =~= s.take(i - 1));
        assert(s.take(i).last() == s[i - 1]);
        if i < s.len() {
            assert(s[(i - 1) + 1].offset == s[i - 1].end());
        }
    }
}

/// The footprints of a chained sequence add up to the arena capacity
/// exactly: no bytes are created or lost.
pub proof fn lemma_chain_total(s: Seq<Block>)
    requires
        chained(s),
    ensures
        sum_footprint(s) == HEAP_SIZE,
{
    lemma_chain_prefix_sum(s, s.len() as int);
    assert(s.take(s.len() as int) =~= s);
}

/// One step of the chain, for pointed instantiation.
pub proof fn lemma_chain_step(s: Seq<Block>, i: int)
    requires
        chained(s),
        0 <= i < s.len() - 1,
    ensures
        s[i + 1].offset == s[i].end(),
{
}

/// Every block occupies at least its two tags.
pub proof fn lemma_footprint_lower(s: Seq<Block>)
    ensures
        sum_footprint(s) >= 32 * s.len(),
    decreases s.len(),
{
    if s.len() > 0 {
        lemma_footprint_lower(s.drop_last());
        assert(s.last().footprint() >= 32);
    }
}

/// A chained sequence holds at most `HEAP_SIZE` blocks, since each one
/// occupies at least one byte of the capacity.
pub proof fn lemma_chain_len(s: Seq<Block>)
    requires
        chained(s),
    ensures
        s.len() <= HEAP_SIZE,
{
    lemma_chain_total(s);
    lemma_footprint_lower(s);
}

/// Each block of a chained sequence lies inside the arena.
pub proof fn lemma_chain_block_bounds(s: Seq<Block>, i: int)
    requires
        chained(s),
        0 <= i < s.len(),
    ensures
        s[i].end() <= HEAP_SIZE,
        s[i].offset + 2 * TAG_BYTES <= s[i].end(),
    decreases s.len() - i,
{
    if i == s.len() - 1 {
    } else {
        lemma_chain_block_bounds(s, i + 1);
        assert(s[i + 1].offset == s[i].end());
    }
}

/// Blocks earlier in a chained sequence end no later than where later
/// blocks begin; in particular all header offsets are distinct.
pub proof fn lemma_chain_ordered(s: Seq<Block>, i: int, j: int)
    requires
        chained(s),
        0 <= i < j < s.len(),
    ensures
        s[i].end() <= s[j].offset,
        s[i].offset < s[j].offset,
    decreases j - i,
{
    assert(s[i + 1].offset == s[i].end());
    if i + 1 < j {
        lemma_chain_ordered(s, i + 1, j);
    }
}

} // verus!
