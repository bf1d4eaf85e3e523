//! The allocator: satisfies `my_malloc` by fit selection and block
//! splitting.
//!
//! A request of `size` bytes carves a leading allocated region out of the
//! candidate block the configured strategy picks.  The carve-out reserves
//! at least [`NODE_BYTES`] of payload, so that the block can host its
//! free-list node once released, plus the two boundary tags.  The trailing
//! remainder stays a free block and inherits the candidate's place on the
//! free list; no minimum remainder is enforced, so a remainder of size
//! zero is a valid free block and stays listed.

use vstd::prelude::*;

use crate::arena::Arena;
use crate::fit::{find_candidate, fits, lemma_selection_unique, selection_ok};
use crate::layout::{
    chained, count_free, lemma_chain_block_bounds, lemma_chain_ordered, lemma_chain_step,
    lemma_count_free_insert, lemma_count_free_update, Block, Mast, Node, GUARD, HEAP_SIZE,
    NODE_BYTES, TAG_BYTES,
};

verus! {

/// Payload bytes actually carved out for a request: the request itself,
/// or the node region's size when the request is smaller, so that the
/// block can be released later.
pub open spec fn reserved_spec(size: usize) -> int {
    if size < NODE_BYTES {
        NODE_BYTES as int
    } else {
        size as int
    }
}

/// Total bytes a request takes out of a free block: the carved payload
/// plus a header and a footer.
pub open spec fn required_spec(size: usize) -> int {
    reserved_spec(size) + 2 * TAG_BYTES
}

/// The free-list index the configured strategy picks for a request of
/// `size` bytes; meaningful whenever some free block fits.
pub open spec fn chosen_index(pre: Arena, size: usize) -> int {
    choose|k: int| selection_ok(pre.free_sizes(), required_spec(size), pre.strategy, k)
}

/// How a successful allocation relates the new state to the old: entry
/// `k` of the free list was the strategy's choice; its block got split
/// into a leading allocated block, whose tags carry the exact carved size
/// and the guard value and whose payload offset `p` is returned, and a
/// trailing free remainder, which replaces the candidate in place on the
/// free list.
pub open spec fn malloc_shape(pre: Arena, post: Arena, size: usize, k: int, p: usize) -> bool {
    let off = pre.free@[k].at;
    let bi = pre.idx_of(off);
    let bs = pre.blocks@[bi].tag.size;
    let abl = Block { offset: off, tag: Mast { size: reserved_spec(size) as usize, a: GUARD } };
    let rem = Block {
        offset: (off + required_spec(size)) as usize,
        tag: Mast { size: (bs - required_spec(size)) as usize, a: 0 },
    };
    &&& 0 <= k < pre.free@.len()
    &&& selection_ok(pre.free_sizes(), required_spec(size), pre.strategy, k)
    &&& p == off + TAG_BYTES
    &&& post.blocks@ == pre.blocks@.update(bi, abl).insert(bi + 1, rem)
    &&& post.free@ == pre.free@.update(k, Node { at: rem.offset })
}

/// Groundwork shared by the preservation arguments: the candidate block
/// `bi` is free, the new sequence is the old one with the allocated block
/// in the candidate's place and the remainder right after it, and the two
/// new blocks exactly tile the candidate's byte range.
proof fn lemma_split_frame(pre: Arena, post: Arena, size: usize, k: int, p: usize)
    requires
        pre.wf(),
        0 <= k < pre.free@.len(),
        pre.blocks@[pre.idx_of(pre.free@[k].at)].tag.size >= required_spec(size),
        malloc_shape(pre, post, size, k, p),
    ensures
        ({
            let off = pre.free@[k].at;
            let bi = pre.idx_of(off);
            let bs = pre.blocks@[bi].tag.size;
            let abl = Block {
                offset: off,
                tag: Mast { size: reserved_spec(size) as usize, a: GUARD },
            };
            let rem = Block {
                offset: (off + required_spec(size)) as usize,
                tag: Mast { size: (bs - required_spec(size)) as usize, a: 0 },
            };
            &&& 0 <= bi < pre.blocks@.len()
            &&& pre.blocks@[bi].is_free()
            &&& pre.blocks@[bi].end() <= HEAP_SIZE
            &&& post.blocks@.len() == pre.blocks@.len() + 1
            &&& forall|i: int| 0 <= i < bi ==> #[trigger] post.blocks@[i] == pre.blocks@[i]
            &&& post.blocks@[bi] == abl
            &&& post.blocks@[bi + 1] == rem
            &&& forall|i: int|
                bi + 1 <= i < pre.blocks@.len() ==> #[trigger] post.blocks@[i + 1]
                    == pre.blocks@[i]
            &&& abl.end() == rem.offset
            &&& rem.end() == pre.blocks@[bi].end()
        }),
{
    let off = pre.free@[k].at;
    let bi = pre.idx_of(off);
    let abl = Block { offset: off, tag: Mast { size: reserved_spec(size) as usize, a: GUARD } };
    let rem = Block {
        offset: (off + required_spec(size)) as usize,
        tag: Mast {
            size: (pre.blocks@[bi].tag.size - required_spec(size)) as usize,
            a: 0,
        },
    };
    assert(pre.entry_ok(k));
    let i0 = choose|i: int|
        0 <= i < pre.blocks@.len() && (#[trigger] pre.blocks@[i]).offset == pre.free@[k].at
            && pre.blocks@[i].is_free();
    pre.lemma_idx_of_is(i0);
    lemma_chain_block_bounds(pre.blocks@, bi);
    pre.blocks@.update(bi, abl).insert_ensures(bi + 1, rem);
}

/// The two halves of the split tile the candidate's range, so the blocks
/// still tile the arena.
proof fn lemma_split_chained(pre: Arena, post: Arena, size: usize, k: int, p: usize)
    requires
        pre.wf(),
        0 <= k < pre.free@.len(),
        pre.blocks@[pre.idx_of(pre.free@[k].at)].tag.size >= required_spec(size),
        malloc_shape(pre, post, size, k, p),
    ensures
        chained(post.blocks@),
{
    lemma_split_frame(pre, post, size, k, p);
    let off = pre.free@[k].at;
    let bi = pre.idx_of(off);
    let b = pre.blocks@;
    let b2 = post.blocks@;
    let n = b.len() as int;
    assert(b2[0].offset == 0);
    assert forall|i: int| 0 <= i < b2.len() - 1 implies (#[trigger] b2[i + 1].offset)
        == b2[i].end() by {
        if i < bi - 1 {
            lemma_chain_step(b, i);
            assert(b2[i] == b[i] && b2[i + 1] == b[i + 1]);
        } else if i == bi - 1 {
            lemma_chain_step(b, bi - 1);
            assert(b2[i] == b[i]);
        } else if i == bi || i == bi + 1 {
            if i == bi + 1 {
                lemma_chain_step(b, bi);
                assert(b2[i + 1] == b[bi + 1]);
            }
        } else {
            lemma_chain_step(b, i - 1);
            assert(b2[i] == b[i - 1] && b2[i + 1] == b[i]);
        }
    }
    if bi == n - 1 {
        assert(b2[b2.len() - 1].end() == b[n - 1].end());
    } else {
        assert(b2[b2.len() - 1] == b[n - 1]);
    }
}

/// Both directions of the free-list/tag correspondence survive the
/// split, and the entries stay pairwise distinct.
#[verifier::rlimit(60)]
proof fn lemma_split_list(pre: Arena, post: Arena, size: usize, k: int, p: usize)
    requires
        pre.wf(),
        0 <= k < pre.free@.len(),
        pre.blocks@[pre.idx_of(pre.free@[k].at)].tag.size >= required_spec(size),
        malloc_shape(pre, post, size, k, p),
    ensures
        post.list_matches_blocks(),
{
    lemma_split_frame(pre, post, size, k, p);
    let off = pre.free@[k].at;
    let bi = pre.idx_of(off);
    let b = pre.blocks@;
    let b2 = post.blocks@;
    assert forall|j: int| 0 <= j < post.free@.len() implies #[trigger] post.entry_ok(j) by {
        if j == k {
            assert(post.blocks@[bi + 1].offset == post.free@[j].at);
            assert(post.blocks@[bi + 1].is_free());
        } else {
            assert(pre.entry_ok(j));
            let i = choose|i: int|
                0 <= i < pre.blocks@.len() && (#[trigger] pre.blocks@[i]).offset == pre.free@[j].at
                    && pre.blocks@[i].is_free();
            pre.lemma_idx_of_is(i);
            assert(i != bi);
            if i < bi {
                assert(post.blocks@[i].offset == post.free@[j].at && post.blocks@[i].is_free());
            } else {
                assert(post.blocks@[i + 1].offset == post.free@[j].at && post.blocks@[i
                    + 1].is_free());
            }
        }
    }
    assert forall|i: int|
        0 <= i < post.blocks@.len() && (#[trigger] post.blocks@[i]).is_free() implies post.listed(
        post.blocks@[i].offset,
    ) by {
        if i == bi + 1 {
            assert(post.free@[k].at == post.blocks@[i].offset);
        } else {
            let iold: int = if i < bi {
                i
            } else {
                i - 1
            };
            assert(b[iold].is_free() && b2[i] == b[iold]);
            assert(pre.listed(b[iold].offset));
            let j = choose|j: int|
                0 <= j < pre.free@.len() && (#[trigger] pre.free@[j]).at == b[iold].offset;
            assert(j != k) by {
                if j == k {
                    assert(b[iold].offset == off);
                    if iold < bi {
                        lemma_chain_ordered(b, iold, bi);
                    } else if iold > bi {
                        lemma_chain_ordered(b, bi, iold);
                    }
                }
            }
            assert(post.free@[j].at == b2[i].offset);
        }
    }
    // The remainder's offset is strictly inside the candidate's range, so
    // it coincides with no other listed offset.
    assert forall|j: int| 0 <= j < pre.free@.len() && j != k implies pre.free@[j].at
        != post.free@[k].at by {
        assert(pre.entry_ok(j));
        let i = choose|i: int|
            0 <= i < pre.blocks@.len() && (#[trigger] pre.blocks@[i]).offset == pre.free@[j].at
                && pre.blocks@[i].is_free();
        if i < bi {
            lemma_chain_ordered(b, i, bi);
        } else if i > bi {
            lemma_chain_ordered(b, bi, i);
        } else {
            pre.lemma_idx_of_is(i);
        }
    }
    assert forall|j1: int, j2: int| 0 <= j1 < j2 < post.free@.len() implies (
    #[trigger] post.free@[j1]).at != (#[trigger] post.free@[j2]).at by {
        if j1 != k && j2 != k {
            assert(pre.free@[j1].at != pre.free@[j2].at);
        }
    }
}

/// Splitting the candidate block preserves every global invariant.
proof fn lemma_split_preserves(pre: Arena, post: Arena, size: usize, k: int, p: usize)
    requires
        pre.wf(),
        0 <= k < pre.free@.len(),
        pre.blocks@[pre.idx_of(pre.free@[k].at)].tag.size >= required_spec(size),
        malloc_shape(pre, post, size, k, p),
    ensures
        post.wf(),
{
    lemma_split_frame(pre, post, size, k, p);
    let off = pre.free@[k].at;
    let bi = pre.idx_of(off);
    let bs = pre.blocks@[bi].tag.size;
    let abl = Block { offset: off, tag: Mast { size: reserved_spec(size) as usize, a: GUARD } };
    let rem = Block {
        offset: (off + required_spec(size)) as usize,
        tag: Mast { size: (bs - required_spec(size)) as usize, a: 0 },
    };
    let b = pre.blocks@;
    let b2 = post.blocks@;
    let n = b.len() as int;

    lemma_split_chained(pre, post, size, k, p);
    lemma_split_list(pre, post, size, k, p);

    // One free block was replaced by one allocated block plus one free
    // remainder, so the counts still agree.
    assert(post.free@.len() == count_free(post.blocks@)) by {
        lemma_count_free_update(b, bi, abl);
        lemma_count_free_insert(b.update(bi, abl), bi + 1, rem);
    }

    // The remainder's sole free neighbor candidate is the candidate's old
    // right neighbor, which was allocated already.
    assert forall|i: int| 0 <= i < b2.len() - 1 implies !((#[trigger] b2[i]).is_free() && b2[i
        + 1].is_free()) by {
        if i == bi - 1 {
            assert(b2[i] == b[i]);
        } else if i == bi || i == bi + 1 {
            if i == bi + 1 && bi + 1 < n {
                assert(!(b[bi].is_free() && b[bi + 1].is_free()));
                assert(b2[bi + 2] == b[bi + 1]);
            }
        } else if i < bi - 1 {
            assert(b2[i] == b[i] && b2[i + 1] == b[i + 1]);
            assert(!(b[i].is_free() && b[i + 1].is_free()));
        } else {
            assert(b2[i] == b[i - 1] && b2[i + 1] == b[i]);
            assert(!(b[i - 1].is_free() && b[i].is_free()));
        }
    }

    // Every allocated block still has room for a node: the new one
    // reserves it by construction.
    assert forall|i: int|
        0 <= i < b2.len() && !(#[trigger] b2[i]).is_free() implies b2[i].tag.size
        >= NODE_BYTES by {
        if i != bi && i != bi + 1 {
            let iold: int = if i < bi {
                i
            } else {
                i - 1
            };
            assert(b2[i] == b[iold]);
        }
    }
}

impl Arena {
    /// Returns the payload offset of a freshly carved allocated block of
    /// at least `size` bytes, or `None` exactly when no free block can
    /// host the request.  On `None` the arena is unchanged; running out
    /// of memory is reported, not fatal.
    pub fn my_malloc(&mut self, size: usize) -> (r: Option<usize>)
        requires
            old(self).wf(),
            1 <= size,
        ensures
            final (self).wf(),
            final (self).strategy == old(self).strategy,
            (r is Some) <==> (exists|j: int|
                fits(old(self).free_sizes(), required_spec(size), j)),
            r is None ==> final (self).same_as(*old(self)),
            r matches Some(p) ==> malloc_shape(
                *old(self),
                *final (self),
                size,
                chosen_index(*old(self), size),
                p,
            ),
            r matches Some(p) ==> ({
                let post = *final (self);
                post.has_payload(p) && post.blocks@[post.payload_idx(p)].tag == (Mast {
                    size: reserved_spec(size) as usize,
                    a: GUARD,
                })
            }),
    {
        if size > HEAP_SIZE {
            proof {
                assert forall|j: int|
                    !fits(old(self).free_sizes(), required_spec(size), j) by {
                    if 0 <= j < old(self).free_sizes().len() {
                        assert(old(self).entry_ok(j));
                        let i = choose|i: int|
                            0 <= i < old(self).blocks@.len() && (#[trigger] old(
                                self,
                            ).blocks@[i]).offset == old(self).free@[j].at && old(
                                self,
                            ).blocks@[i].is_free();
                        old(self).lemma_idx_of_is(i);
                        lemma_chain_block_bounds(old(self).blocks@, i);
                        assert(old(self).free_sizes()[j] == old(self).blocks@[i].tag.size);
                        assert(old(self).blocks@[i].tag.size + 2 * TAG_BYTES + NODE_BYTES
                            <= HEAP_SIZE);
                    }
                }
            }
            return None;
        }
        let reserved = if size < NODE_BYTES {
            NODE_BYTES
        } else {
            size
        };
        let required = reserved + 2 * TAG_BYTES;
        let sizes = self.describe_free_list();
        match find_candidate(&sizes, required, self.strategy) {
            None => {
                proof {
                    assert forall|j: int|
                        !fits(old(self).free_sizes(), required_spec(size), j) by {
                        if 0 <= j < sizes@.len() {
                            assert(sizes@[j] < required);
                        }
                    }
                }
                None
            },
            Some(k) => {
                proof {
                    assert(fits(sizes@, required as int, k as int));
                    assert(self.entry_ok(k as int));
                    let i0 = choose|i: int|
                        0 <= i < self.blocks@.len() && (#[trigger] self.blocks@[i]).offset
                            == self.free@[k as int].at && self.blocks@[i].is_free();
                    self.lemma_idx_of_is(i0);
                }
                let off = self.free[k].at;
                let bi = self.find_block(off);
                proof {
                    self.lemma_idx_of_is(bi as int);
                    lemma_chain_block_bounds(self.blocks@, bi as int);
                    assert(self.blocks@[bi as int].is_free());
                    assert(self.blocks@[bi as int].tag.size == sizes@[k as int]);
                }
                let nblocks = self.blocks.len();
                let bs = self.blocks[bi].tag.size;
                let rem_off = off + required;
                let rem_size = bs - required;
                let ghost pre = *self;
                self.blocks[bi] = Block { offset: off, tag: Mast { size: reserved, a: GUARD } };
                let newblock = Block { offset: rem_off, tag: Mast { size: rem_size, a: 0 } };
                self.blocks.insert(bi + 1, newblock);
                self.free[k] = Node { at: rem_off };
                proof {
                    assert(pre == *old(self));
                    assert(selection_ok(
                        pre.free_sizes(),
                        required_spec(size),
                        pre.strategy,
                        k as int,
                    ));
                    lemma_selection_unique(
                        pre.free_sizes(),
                        required_spec(size),
                        pre.strategy,
                        k as int,
                        chosen_index(pre, size),
                    );
                    assert(malloc_shape(pre, *self, size, k as int, (off + TAG_BYTES) as usize));
                    lemma_split_preserves(pre, *self, size, k as int, (off + TAG_BYTES) as usize);
                    self.lemma_payload_idx_is(bi as int);
                    assert(self.blocks@[bi as int].payload() == off + TAG_BYTES);
                }
                Some(off + TAG_BYTES)
            },
        }
    }
}

} // verus!
