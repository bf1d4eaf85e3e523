//! The arena: the single fixed-capacity region the allocator manages,
//! together with its free list.
//!
//! The arena is the sole source of truth for which offsets are inside the
//! heap.  Its blocks tile the capacity exactly, in physical order; the
//! free list is a sequence of entries in list order, head first, and a
//! block is on it if and only if its tags say free.

use vstd::prelude::*;

use crate::fit::FitStrategy;
use crate::layout::{
    chained, count_free, entries_distinct, lemma_chain_block_bounds, lemma_chain_ordered,
    lemma_chain_prefix_sum, lemma_sum_parts, lemma_sums_nonneg, sum_free, Block, Mast, Node,
    HEAP_SIZE, NODE_BYTES, TAG_BYTES,
};

verus! {

/// The allocator state: every block of the arena in physical order, the
/// free list in list order (head first), and the configured fit strategy.
pub struct Arena {
    pub blocks: Vec<Block>,
    pub free: Vec<Node>,
    pub strategy: FitStrategy,
}

impl Arena {
    /// Free-list entry `j` names the header offset of some free block.
    pub open spec fn entry_ok(self, j: int) -> bool {
        exists|i: int|
            0 <= i < self.blocks@.len() && (#[trigger] self.blocks@[i]).offset == self.free@[j].at
                && self.blocks@[i].is_free()
    }

    /// Some free-list entry names the block at header offset `off`.
    pub open spec fn listed(self, off: usize) -> bool {
        exists|j: int| 0 <= j < self.free@.len() && (#[trigger] self.free@[j]).at == off
    }

    /// The free list and the boundary tags agree: every entry names a free
    /// block, every free block is named by an entry, and no block is named
    /// twice.
    pub open spec fn list_matches_blocks(self) -> bool {
        &&& forall|j: int| 0 <= j < self.free@.len() ==> #[trigger] self.entry_ok(j)
        &&& forall|i: int|
            0 <= i < self.blocks@.len() && (#[trigger] self.blocks@[i]).is_free()
                ==> self.listed(self.blocks@[i].offset)
        &&& entries_distinct(self.free@)
    }

    /// No two physically adjacent blocks are both free: the coalescing
    /// postcondition, kept as a design invariant.
    pub open spec fn no_adjacent_free(self) -> bool {
        forall|i: int|
            0 <= i < self.blocks@.len() - 1 ==> !((#[trigger] self.blocks@[i]).is_free()
                && self.blocks@[i + 1].is_free())
    }

    /// Every allocated block has room to host the free-list node it must
    /// carry once released.
    pub open spec fn alloc_min(self) -> bool {
        forall|i: int|
            0 <= i < self.blocks@.len() && !(#[trigger] self.blocks@[i]).is_free()
                ==> self.blocks@[i].tag.size >= NODE_BYTES
    }

    /// Well-formedness: the global invariants of the data model, which
    /// every operation preserves.
    pub open spec fn wf(self) -> bool {
        &&& chained(self.blocks@)
        &&& self.list_matches_blocks()
        &&& self.free@.len() == count_free(self.blocks@)
        &&& self.no_adjacent_free()
        &&& self.alloc_min()
    }

    /// The start state: one free block spanning the whole capacity minus
    /// its own overhead, alone on the free list.
    pub open spec fn is_initial(self) -> bool {
        &&& self.blocks@.len() == 1
        &&& self.blocks@[0].offset == 0
        &&& self.blocks@[0].tag.size == HEAP_SIZE - 2 * TAG_BYTES - NODE_BYTES
        &&& self.blocks@[0].tag.a == 0
        &&& self.free@.len() == 1
        &&& self.free@[0].at == 0
    }

    /// Both states hold the very same blocks, free list and strategy.
    pub open spec fn same_as(self, other: Arena) -> bool {
        &&& self.blocks@ == other.blocks@
        &&& self.free@ == other.free@
        &&& self.strategy == other.strategy
    }

    /// Index of the block whose header sits at offset `off`.  Meaningful
    /// only when such a block exists; it is then unique, because a chained
    /// sequence has strictly increasing offsets.
    pub open spec fn idx_of(self, off: usize) -> int {
        choose|i: int| 0 <= i < self.blocks@.len() && (#[trigger] self.blocks@[i]).offset == off
    }

    /// Some block's header sits at offset `off`.
    pub open spec fn has_block(self, off: usize) -> bool {
        exists|i: int| 0 <= i < self.blocks@.len() && (#[trigger] self.blocks@[i]).offset == off
    }

    /// Some block's payload begins at offset `ptr`.
    pub open spec fn has_payload(self, ptr: usize) -> bool {
        exists|i: int| 0 <= i < self.blocks@.len() && (#[trigger] self.blocks@[i]).payload() == ptr
    }

    /// Index of the block whose payload begins at offset `ptr`.
    pub open spec fn payload_idx(self, ptr: usize) -> int {
        choose|i: int| 0 <= i < self.blocks@.len() && (#[trigger] self.blocks@[i]).payload() == ptr
    }

    /// The free blocks' payload sizes, in free-list order: what the fit
    /// strategies scan.
    pub open spec fn free_sizes(self) -> Seq<usize> {
        Seq::new(self.free@.len(), |j: int| self.blocks@[self.idx_of(self.free@[j].at)].tag.size)
    }

    /// In a chained block sequence header offsets are unique, so `idx_of`
    /// recovers the index of any block.
    pub proof fn lemma_idx_of_is(self, i: int)
        requires
            chained(self.blocks@),
            0 <= i < self.blocks@.len(),
        ensures
            self.idx_of(self.blocks@[i].offset) == i,
            self.has_block(self.blocks@[i].offset),
    {
        let off = self.blocks@[i].offset;
        assert(self.has_block(off));
        let k = self.idx_of(off);
        if k < i {
            lemma_chain_ordered(self.blocks@, k, i);
        } else if k > i {
            lemma_chain_ordered(self.blocks@, i, k);
        }
    }

    /// Payload offsets are unique as well, so `payload_idx` recovers the
    /// index of any block from the pointer handed to callers.
    pub proof fn lemma_payload_idx_is(self, i: int)
        requires
            chained(self.blocks@),
            0 <= i < self.blocks@.len(),
        ensures
            self.payload_idx((self.blocks@[i].offset + TAG_BYTES) as usize) == i,
            self.has_payload((self.blocks@[i].offset + TAG_BYTES) as usize),
    {
        lemma_chain_block_bounds(self.blocks@, i);
        let ptr = (self.blocks@[i].offset + TAG_BYTES) as usize;
        assert(self.blocks@[i].payload() == ptr);
        assert(self.has_payload(ptr));
        let k = self.payload_idx(ptr);
        if k < i {
            lemma_chain_ordered(self.blocks@, k, i);
        } else if k > i {
            lemma_chain_ordered(self.blocks@, i, k);
        }
    }

    /// Creates the arena in its start state: the whole capacity as one
    /// free block, linked alone on the free list, first-fit configured.
    pub fn heap() -> (a: Arena)
        ensures
            a.wf(),
            a.is_initial(),
            a.strategy == FitStrategy::FirstFit,
    {
        let mut blocks: Vec<Block> = Vec::new();
        blocks.push(
            Block { offset: 0, tag: Mast { size: HEAP_SIZE - 2 * TAG_BYTES - NODE_BYTES, a: 0 } },
        );
        let mut free: Vec<Node> = Vec::new();
        free.push(Node { at: 0 });
        let a = Arena { blocks, free, strategy: FitStrategy::FirstFit };
        proof {
            assert(a.blocks@.drop_last().len() == 0);
            assert(count_free(a.blocks@.drop_last()) == 0);
            assert(count_free(a.blocks@) == 1);
            assert forall|j: int| 0 <= j < a.free@.len() implies #[trigger] a.entry_ok(j) by {
                assert(a.blocks@[0].offset == a.free@[j].at && a.blocks@[0].is_free());
            }
            assert forall|i: int|
                0 <= i < a.blocks@.len() && (#[trigger] a.blocks@[i]).is_free() implies a.listed(
                a.blocks@[i].offset,
            ) by {
                assert(a.free@[0].at == a.blocks@[i].offset);
            }
        }
        a
    }

    /// Releases the current arena and starts over: every block and every
    /// free-list entry is discarded and the start state reinstated.  The
    /// configured strategy is kept.
    pub fn reset_heap(&mut self)
        ensures
            final (self).wf(),
            final (self).is_initial(),
            final (self).strategy == old(self).strategy,
    {
        let fresh = Arena::heap();
        let ghost g = fresh;
        let kept = self.strategy;
        *self = Arena { blocks: fresh.blocks, free: fresh.free, strategy: kept };
        proof {
            assert(self.blocks@ == g.blocks@);
            assert(self.free@ == g.free@);
            assert forall|j: int| 0 <= j < self.free@.len() implies #[trigger] self.entry_ok(
                j,
            ) by {
                assert(g.entry_ok(j));
                let i = choose|i: int|
                    0 <= i < g.blocks@.len() && (#[trigger] g.blocks@[i]).offset == g.free@[j].at
                        && g.blocks@[i].is_free();
                assert(self.blocks@[i].offset == self.free@[j].at && self.blocks@[i].is_free());
            }
            assert forall|i: int|
                0 <= i < self.blocks@.len() && (#[trigger] self.blocks@[i]).is_free() implies self
                .listed(self.blocks@[i].offset) by {
                assert(g.listed(g.blocks@[i].offset));
                let j = choose|j: int|
                    0 <= j < g.free@.len() && (#[trigger] g.free@[j]).at == g.blocks@[i].offset;
                assert(self.free@[j].at == self.blocks@[i].offset);
            }
        }
    }

    /// Finds the index of the block whose header sits at offset `off`,
    /// which the caller must know to exist.
    #[verifier::loop_isolation(false)]
    pub(crate) fn find_block(&self, off: usize) -> (i: usize)
        requires
            self.has_block(off),
        ensures
            i < self.blocks@.len(),
            self.blocks@[i as int].offset == off,
    {
        let n = self.blocks.len();
        let mut i: usize = 0;
        while self.blocks[i].offset != off
            invariant
                i < n,
                n == self.blocks@.len(),
                forall|k: int| 0 <= k < i ==> (#[trigger] self.blocks@[k]).offset != off,
            decreases n - i,
        {
            i = i + 1;
            proof {
                let w = choose|w: int|
                    0 <= w < self.blocks@.len() && (#[trigger] self.blocks@[w]).offset == off;
                assert(w >= i);
            }
        }
        i
    }

    /// Sum of the free blocks' payload sizes: the memory still available.
    /// The result is a pure function of the arena state, so with no
    /// intervening mutation repeated calls return the same value.
    #[verifier::loop_isolation(false)]
    pub fn available_memory(&self) -> (r: usize)
        requires
            self.wf(),
        ensures
            r as int == sum_free(self.blocks@),
            r <= HEAP_SIZE,
    {
        let n = self.blocks.len();
        let mut total: usize = 0;
        for i in 0..n
            invariant
                total as int == sum_free(self.blocks@.take(i as int)),
                total <= HEAP_SIZE,
        {
            proof {
                lemma_sum_parts(self.blocks@.take(i + 1));
                lemma_sums_nonneg(self.blocks@.take(i + 1));
                lemma_chain_prefix_sum(self.blocks@, i + 1);
                if i + 1 < self.blocks@.len() {
                    lemma_chain_block_bounds(self.blocks@, i + 1);
                }
                assert(self.blocks@.take(i + 1).drop_last() =~= self.blocks@.take(i as int));
            }
            if self.blocks[i].tag.a == 0 {
                total = total + self.blocks[i].tag.size;
            }
        }
        proof {
            assert(self.blocks@.take(n as int) =~= self.blocks@);
        }
        total
    }

    /// Number of entries on the free list.  Like `available_memory` this
    /// is a pure function of the arena state.
    pub fn number_of_free_nodes(&self) -> (r: u32)
        requires
            self.wf(),
        ensures
            r as int == self.free@.len(),
    {
        proof {
            lemma_sums_nonneg(self.blocks@);
            crate::layout::lemma_chain_len(self.blocks@);
        }
        self.free.len() as u32
    }

    /// A point-in-time copy of the free list: one payload size per free
    /// block, in list order, head first.
    #[verifier::loop_isolation(false)]
    pub fn describe_free_list(&self) -> (r: Vec<usize>)
        requires
            self.wf(),
        ensures
            r@ == self.free_sizes(),
    {
        let n = self.free.len();
        let mut r: Vec<usize> = Vec::new();
        for j in 0..n
            invariant
                r@ =~= self.free_sizes().take(j as int),
        {
            proof {
                assert(self.entry_ok(j as int));
            }
            let bi = self.find_block(self.free[j].at);
            proof {
                self.lemma_idx_of_is(bi as int);
            }
            r.push(self.blocks[bi].tag.size);
            proof {
                assert(r@ =~= self.free_sizes().take(j + 1));
            }
        }
        proof {
            assert(self.free_sizes().take(n as int) =~= self.free_sizes());
        }
        r
    }

    /// A point-in-time copy of the arena's blocks in physical order, one
    /// boundary tag each: what a scan of the arena by address would read.
    #[verifier::loop_isolation(false)]
    pub fn describe_blocks(&self) -> (r: Vec<Mast>)
        requires
            self.wf(),
        ensures
            r@.len() == self.blocks@.len(),
            forall|i: int| 0 <= i < r@.len() ==> #[trigger] r@[i] == self.blocks@[i].tag,
    {
        let n = self.blocks.len();
        let mut r: Vec<Mast> = Vec::new();
        for i in 0..n
            invariant
                r@.len() == i,
                forall|k: int| 0 <= k < i ==> #[trigger] r@[k] == self.blocks@[k].tag,
        {
            r.push(self.blocks[i].tag);
        }
        r
    }

    /// Finds the index of the block whose payload begins at `ptr`, or
    /// `None` when no block's payload does.
    #[verifier::loop_isolation(false)]
    pub(crate) fn find_payload(&self, ptr: usize) -> (r: Option<usize>)
        requires
            self.wf(),
        ensures
            match r {
                Some(i) => i < self.blocks@.len() && self.blocks@[i as int].payload() == ptr && i
                    as int == self.payload_idx(ptr),
                None => !self.has_payload(ptr),
            },
    {
        let n = self.blocks.len();
        for i in 0..n
            invariant
                forall|k: int| 0 <= k < i ==> (#[trigger] self.blocks@[k]).payload() != ptr,
        {
            proof {
                lemma_chain_block_bounds(self.blocks@, i as int);
            }
            if self.blocks[i].offset + TAG_BYTES == ptr {
                proof {
                    self.lemma_payload_idx_is(i as int);
                }
                return Some(i);
            }
        }
        None
    }

    /// Overwrites the flag byte of the allocated block whose payload
    /// begins at `ptr` with an arbitrary nonzero value: a fault-injection
    /// hook that plays the stray write over a block header which
    /// `my_free`'s guard validation exists to catch.  Returns `false`,
    /// changing nothing, when `ptr` is not an allocated block's payload.
    pub fn overwrite_guard(&mut self, ptr: usize, v: i8) -> (r: bool)
        requires
            old(self).wf(),
            v != 0,
        ensures
            final (self).wf(),
            final (self).strategy == old(self).strategy,
            final (self).free@ == old(self).free@,
            r == (old(self).has_payload(ptr) && !old(self).blocks@[old(self).payload_idx(
                ptr,
            )].is_free()),
            r ==> final (self).blocks@ == old(self).blocks@.update(
                old(self).payload_idx(ptr),
                Block {
                    offset: old(self).blocks@[old(self).payload_idx(ptr)].offset,
                    tag: Mast {
                        size: old(self).blocks@[old(self).payload_idx(ptr)].tag.size,
                        a: v,
                    },
                },
            ),
            !r ==> final (self).same_as(*old(self)),
    {
        let idx = match self.find_payload(ptr) {
            None => {
                return false;
            },
            Some(i) => i,
        };
        let blk = self.blocks[idx];
        if blk.tag.a == 0 {
            return false;
        }
        let ghost pre = *self;
        let scribbled = Block { offset: blk.offset, tag: Mast { size: blk.tag.size, a: v } };
        self.blocks[idx] = scribbled;
        proof {
            let b = pre.blocks@;
            let b2 = self.blocks@;
            let i = idx as int;
            assert(b2[i].footprint() == b[i].footprint());
            assert(chained(b2)) by {
                assert forall|q: int| 0 <= q < b2.len() - 1 implies (#[trigger] b2[q + 1].offset)
                    == b2[q].end() by {
                    crate::layout::lemma_chain_step(b, q);
                }
                assert(b2[b2.len() - 1].end() == b[b.len() - 1].end());
            }
            assert forall|j: int| 0 <= j < self.free@.len() implies #[trigger] self.entry_ok(
                j,
            ) by {
                assert(pre.entry_ok(j));
                let w = choose|w: int|
                    0 <= w < pre.blocks@.len() && (#[trigger] pre.blocks@[w]).offset
                        == pre.free@[j].at && pre.blocks@[w].is_free();
                assert(w != i);
                assert(self.blocks@[w].offset == self.free@[j].at && self.blocks@[w].is_free());
            }
            assert forall|q: int|
                0 <= q < self.blocks@.len() && (#[trigger] self.blocks@[q]).is_free() implies self
                .listed(self.blocks@[q].offset) by {
                assert(self.blocks@[q] == pre.blocks@[q]);
                assert(pre.listed(pre.blocks@[q].offset));
            }
            assert(self.free@.len() == count_free(self.blocks@)) by {
                crate::layout::lemma_count_free_update(b, i, scribbled);
            }
            assert forall|q: int|
                0 <= q < b2.len() - 1 implies !((#[trigger] b2[q]).is_free() && b2[q
                + 1].is_free()) by {
                assert(!(b[q].is_free() && b[q + 1].is_free()));
            }
        }
        true
    }

    /// Reads the boundary tag of the block whose payload begins at `ptr`,
    /// or `None` when no block's payload does.
    pub fn tag_at(&self, ptr: usize) -> (r: Option<Mast>)
        requires
            self.wf(),
        ensures
            match r {
                Some(m) => self.has_payload(ptr) && m == self.blocks@[self.payload_idx(ptr)].tag,
                None => !self.has_payload(ptr),
            },
    {
        match self.find_payload(ptr) {
            None => None,
            Some(i) => Some(self.blocks[i].tag),
        }
    }
}

} // verus!
