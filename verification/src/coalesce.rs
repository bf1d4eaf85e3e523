//! The coalescer: satisfies `my_free` by tag validation, tag flipping and
//! physical-neighbor merging.
//!
//! A released block's immediate physical neighbors are inspected through
//! their boundary tags alone, in constant time and without walking the
//! free list; a neighbor beyond either end of the arena does not exist
//! and counts as allocated.  Whichever of the four neighbor cases holds,
//! exactly one block ends up back on the free-list head, spanning the
//! released block and every free neighbor, with the overhead of each
//! swallowed boundary reclaimed into its size.

use vstd::prelude::*;

use crate::arena::Arena;
use crate::layout::{entries_distinct, Block, Mast, Node, GUARD, NODE_BYTES, TAG_BYTES};

verus! {

/// Why a `my_free` call was refused.  Each of these is a caller error or
/// prior corruption; the arena is left untouched, never half-mutated.
#[derive(Clone, Copy, PartialEq, Eq, Structural, Debug)]
pub enum FreeError {
    /// No block's payload begins at the given offset.
    UnknownPointer,
    /// The block's tags say free already: the pointer was released
    /// before, or never handed out.
    NotAllocated,
    /// The tags are neither free nor carrying the guard value: the
    /// header was overwritten.
    BadGuard,
}

/// The released block has a free block physically before it.
pub open spec fn left_free(pre: Arena, i: int) -> bool {
    i > 0 && pre.blocks@[i - 1].is_free()
}

/// The released block has a free block physically after it.
pub open spec fn right_free(pre: Arena, i: int) -> bool {
    i + 1 < pre.blocks@.len() && pre.blocks@[i + 1].is_free()
}

/// Index of the (unique, under well-formedness) free-list entry naming
/// header offset `off`.
pub open spec fn entry_index(fr: Seq<Node>, off: usize) -> int {
    choose|j: int| 0 <= j < fr.len() && (#[trigger] fr[j]).at == off
}

/// The free list with the entry naming `off` unlinked.
pub open spec fn remove_entry(fr: Seq<Node>, off: usize) -> Seq<Node> {
    fr.remove(entry_index(fr, off))
}

/// What `my_free` answers on a given pointer: `Ok` exactly when some
/// block's payload begins there and its tags carry the guard value.
pub open spec fn release_check(pre: Arena, ptr: usize) -> Result<(), FreeError> {
    if !pre.has_payload(ptr) {
        Err(FreeError::UnknownPointer)
    } else if pre.blocks@[pre.payload_idx(ptr)].is_free() {
        Err(FreeError::NotAllocated)
    } else if pre.blocks@[pre.payload_idx(ptr)].tag.a != GUARD {
        Err(FreeError::BadGuard)
    } else {
        Ok(())
    }
}

/// How a successful release relates the new state to the old, by the
/// four neighbor cases.  The released block's size drops by the node
/// region it now hosts; each merge reclaims the two tags and the node
/// overhead of every boundary it swallows, and the merged block is
/// pushed on the free-list head.
pub open spec fn free_shape(pre: Arena, post: Arena, ptr: usize) -> bool {
    let i = pre.payload_idx(ptr);
    let blk = pre.blocks@[i];
    let fs = (blk.tag.size - NODE_BYTES) as usize;
    if left_free(pre, i) && right_free(pre, i) {
        let pb = pre.blocks@[i - 1];
        let sb = pre.blocks@[i + 1];
        let merged = Block {
            offset: pb.offset,
            tag: Mast {
                size: (pb.tag.size + fs + sb.tag.size + 4 * TAG_BYTES + 2 * NODE_BYTES) as usize,
                a: 0,
            },
        };
        &&& post.blocks@ == pre.blocks@.update(i - 1, merged).remove(i).remove(i)
        &&& post.free@ == remove_entry(remove_entry(pre.free@, pb.offset), sb.offset).insert(
            0,
            Node { at: pb.offset },
        )
    } else if left_free(pre, i) {
        let pb = pre.blocks@[i - 1];
        let merged = Block {
            offset: pb.offset,
            tag: Mast {
                size: (pb.tag.size + fs + 2 * TAG_BYTES + NODE_BYTES) as usize,
                a: 0,
            },
        };
        &&& post.blocks@ == pre.blocks@.update(i - 1, merged).remove(i)
        &&& post.free@ == remove_entry(pre.free@, pb.offset).insert(0, Node { at: pb.offset })
    } else if right_free(pre, i) {
        let sb = pre.blocks@[i + 1];
        let merged = Block {
            offset: blk.offset,
            tag: Mast {
                size: (fs + sb.tag.size + 2 * TAG_BYTES + NODE_BYTES) as usize,
                a: 0,
            },
        };
        &&& post.blocks@ == pre.blocks@.update(i, merged).remove(i + 1)
        &&& post.free@ == remove_entry(pre.free@, sb.offset).insert(0, Node { at: blk.offset })
    } else {
        let fb = Block { offset: blk.offset, tag: Mast { size: fs, a: 0 } };
        &&& post.blocks@ == pre.blocks@.update(i, fb)
        &&& post.free@ == pre.free@.insert(0, Node { at: blk.offset })
    }
}

/// With pairwise-distinct entries, unlinking the entry that names `off`
/// removes exactly the known occurrence, and the rest keep their order
/// and stay distinct.
proof fn lemma_remove_entry_props(fr: Seq<Node>, off: usize, j0: int)
    requires
        entries_distinct(fr),
        0 <= j0 < fr.len(),
        fr[j0].at == off,
    ensures
        entry_index(fr, off) == j0,
        remove_entry(fr, off) == fr.remove(j0),
        remove_entry(fr, off).len() == fr.len() - 1,
        entries_distinct(remove_entry(fr, off)),
        forall|j: int| 0 <= j < j0 ==> #[trigger] remove_entry(fr, off)[j] == fr[j],
        forall|j: int|
            j0 <= j < fr.len() - 1 ==> #[trigger] remove_entry(fr, off)[j] == fr[j + 1],
        forall|j: int|
            0 <= j < fr.len() - 1 ==> (#[trigger] remove_entry(fr, off)[j]).at != off,
{
    assert(0 <= j0 < fr.len() && fr[j0].at == off);
    let jc = entry_index(fr, off);
    assert(0 <= jc < fr.len() && fr[jc].at == off);
    if jc < j0 {
        assert(fr[jc].at != fr[j0].at);
    } else if jc > j0 {
        assert(fr[j0].at != fr[jc].at);
    }
    fr.remove_ensures(j0);
    let r = remove_entry(fr, off);
    assert forall|j1: int, j2: int| 0 <= j1 < j2 < r.len() implies (#[trigger] r[j1]).at != (
    #[trigger] r[j2]).at by {
        let o1: int = if j1 < j0 {
            j1
        } else {
            j1 + 1
        };
        let o2: int = if j2 < j0 {
            j2
        } else {
            j2 + 1
        };
        assert(r[j1] == fr[o1] && r[j2] == fr[o2]);
    }
    assert forall|j: int| 0 <= j < fr.len() - 1 implies (#[trigger] r[j]).at != off by {
        let o: int = if j < j0 {
            j
        } else {
            j + 1
        };
        assert(r[j] == fr[o]);
        if o < j0 {
            assert(fr[o].at != fr[j0].at);
        } else if o > j0 {
            assert(fr[j0].at != fr[o].at);
        }
    }
}

impl Arena {
    /// Finds the position of the free-list entry naming header offset
    /// `off`, which the caller must know to be listed.
    #[verifier::loop_isolation(false)]
    pub(crate) fn find_entry(&self, off: usize) -> (j: usize)
        requires
            self.listed(off),
        ensures
            j < self.free@.len(),
            self.free@[j as int].at == off,
    {
        let n = self.free.len();
        let mut j: usize = 0;
        while self.free[j].at != off
            invariant
                j < n,
                n == self.free@.len(),
                forall|k: int| 0 <= k < j ==> (#[trigger] self.free@[k]).at != off,
            decreases n - j,
        {
            j = j + 1;
            proof {
                let w = choose|w: int|
                    0 <= w < self.free@.len() && (#[trigger] self.free@[w]).at == off;
                assert(w >= j);
            }
        }
        j
    }
}

/// Case 1 of the coalescer — both neighbors allocated or out of bounds:
/// flipping the tags and pushing the block on the free-list head
/// preserves every global invariant.
#[verifier::rlimit(60)]
proof fn lemma_free_case1(pre: Arena, post: Arena, ptr: usize)
    requires
        pre.wf(),
        pre.has_payload(ptr),
        !pre.blocks@[pre.payload_idx(ptr)].is_free(),
        pre.blocks@[pre.payload_idx(ptr)].tag.a == GUARD,
        !left_free(pre, pre.payload_idx(ptr)),
        !right_free(pre, pre.payload_idx(ptr)),
        free_shape(pre, post, ptr),
    ensures
        post.wf(),
{
    let i = pre.payload_idx(ptr);
    let blk = pre.blocks@[i];
    let fs = (blk.tag.size - NODE_BYTES) as usize;
    let fb = Block { offset: blk.offset, tag: Mast { size: fs, a: 0 } };
    let b = pre.blocks@;
    let b2 = post.blocks@;
    let n = b.len() as int;
    assert(0 <= i < n);
    assert(blk.tag.size >= NODE_BYTES);
    assert(fb.footprint() == blk.footprint());
    pre.free@.insert_ensures(0, Node { at: blk.offset });

    // Same offsets, same footprints: the chain is untouched.
    assert(crate::layout::chained(b2)) by {
        assert(b2.len() == n);
        assert(b2[0].offset == b[0].offset);
        assert forall|q: int| 0 <= q < b2.len() - 1 implies (#[trigger] b2[q + 1].offset)
            == b2[q].end() by {
            crate::layout::lemma_chain_step(b, q);
        }
        assert(b2[n - 1].end() == b[n - 1].end());
    }

    // The new head names the released block; old entries shift one up.
    assert forall|j: int| 0 <= j < post.free@.len() implies #[trigger] post.entry_ok(j) by {
        if j == 0 {
            assert(post.free@[0].at == fb.offset);
            assert(post.blocks@[i].offset == fb.offset && post.blocks@[i].is_free());
        } else {
            assert(post.free@[j] == pre.free@[j - 1]);
            assert(pre.entry_ok(j - 1));
            let w = choose|w: int|
                0 <= w < pre.blocks@.len() && (#[trigger] pre.blocks@[w]).offset == pre.free@[j
                    - 1].at && pre.blocks@[w].is_free();
            assert(w != i);
            assert(post.blocks@[w].offset == post.free@[j].at && post.blocks@[w].is_free());
        }
    }
    assert forall|q: int|
        0 <= q < post.blocks@.len() && (#[trigger] post.blocks@[q]).is_free() implies post.listed(
        post.blocks@[q].offset,
    ) by {
        if q == i {
            assert(post.free@[0].at == post.blocks@[q].offset);
        } else {
            assert(post.blocks@[q] == pre.blocks@[q]);
            assert(pre.listed(pre.blocks@[q].offset));
            let j = choose|j: int|
                0 <= j < pre.free@.len() && (#[trigger] pre.free@[j]).at == pre.blocks@[q].offset;
            assert(post.free@[j + 1].at == post.blocks@[q].offset);
        }
    }
    // The released offset was not listed, so entries stay distinct.
    assert forall|j: int| 0 <= j < pre.free@.len() implies (#[trigger] pre.free@[j]).at
        != blk.offset by {
        assert(pre.entry_ok(j));
        let w = choose|w: int|
            0 <= w < pre.blocks@.len() && (#[trigger] pre.blocks@[w]).offset == pre.free@[j].at
                && pre.blocks@[w].is_free();
        if w != i {
            pre.lemma_idx_of_is(w);
            pre.lemma_idx_of_is(i);
        }
    }
    assert forall|j1: int, j2: int| 0 <= j1 < j2 < post.free@.len() implies (
    #[trigger] post.free@[j1]).at != (#[trigger] post.free@[j2]).at by {
        if 0 < j1 {
            assert(post.free@[j1] == pre.free@[j1 - 1] && post.free@[j2] == pre.free@[j2 - 1]);
        } else {
            assert(post.free@[j2] == pre.free@[j2 - 1]);
        }
    }

    assert(post.free@.len() == crate::layout::count_free(post.blocks@)) by {
        crate::layout::lemma_count_free_update(b, i, fb);
    }

    // Both neighbors stay allocated, so no free pair arises.
    assert forall|q: int| 0 <= q < b2.len() - 1 implies !((#[trigger] b2[q]).is_free() && b2[q
        + 1].is_free()) by {
        if q != i && q + 1 != i {
            assert(b2[q] == b[q] && b2[q + 1] == b[q + 1]);
        }
    }

    assert forall|q: int|
        0 <= q < b2.len() && !(#[trigger] b2[q]).is_free() implies b2[q].tag.size
        >= NODE_BYTES by {
        assert(b2[q] == b[q]);
    }
}

impl Arena {
    /// Releases a block previously handed out by `my_malloc`, after
    /// validating its tags: the pointer must be the payload offset of a
    /// block whose tags carry the guard value, else the call is refused
    /// and the arena left untouched.  On success the tags are flipped to
    /// free and the block merged with whichever physical neighbors are
    /// free, per the four-case shape.
    pub fn my_free(&mut self, ptr: usize) -> (r: Result<(), FreeError>)
        requires
            old(self).wf(),
        ensures
            final (self).wf(),
            final (self).strategy == old(self).strategy,
            r == release_check(*old(self), ptr),
            r is Err ==> final (self).same_as(*old(self)),
            r is Ok ==> free_shape(*old(self), *final (self), ptr),
    {
        let idx = match self.find_payload(ptr) {
            None => {
                return Err(FreeError::UnknownPointer);
            },
            Some(i) => i,
        };
        let tag = self.blocks[idx].tag;
        if tag.a == 0 {
            return Err(FreeError::NotAllocated);
        }
        if tag.a != GUARD {
            return Err(FreeError::BadGuard);
        }
        let ghost pre = *self;
        proof {
            assert(!pre.blocks@[idx as int].is_free());
            assert(pre.blocks@[idx as int].tag.size >= NODE_BYTES);
            crate::layout::lemma_chain_block_bounds(pre.blocks@, idx as int);
        }
        let off = self.blocks[idx].offset;
        let fs = tag.size - NODE_BYTES;
        let n = self.blocks.len();
        let lf = idx > 0 && self.blocks[idx - 1].tag.a == 0;
        let rf = idx + 1 < n && self.blocks[idx + 1].tag.a == 0;
        if lf && rf {
            let pb_off = self.blocks[idx - 1].offset;
            let p_size = self.blocks[idx - 1].tag.size;
            let s_off = self.blocks[idx + 1].offset;
            let s_size = self.blocks[idx + 1].tag.size;
            proof {
                crate::layout::lemma_chain_block_bounds(pre.blocks@, idx - 1);
                crate::layout::lemma_chain_block_bounds(pre.blocks@, idx + 1);
                crate::layout::lemma_chain_ordered(pre.blocks@, idx - 1, idx + 1);
                assert(pre.listed(pb_off));
                assert(pre.listed(s_off));
            }
            let m = p_size + fs + s_size + 4 * TAG_BYTES + 2 * NODE_BYTES;
            let jp = self.find_entry(pb_off);
            let ghost fr0 = self.free@;
            self.free.remove(jp);
            proof {
                lemma_remove_entry_props(fr0, pb_off, jp as int);
                assert(self.free@ == remove_entry(fr0, pb_off));
                let js0 = choose|j: int|
                    0 <= j < fr0.len() && (#[trigger] fr0[j]).at == s_off;
                let js1: int = if js0 < jp {
                    js0
                } else {
                    js0 - 1
                };
                assert(self.free@[js1] == fr0[js0]);
                assert(self.listed(s_off));
            }
            let js = self.find_entry(s_off);
            let ghost fr1 = self.free@;
            self.free.remove(js);
            proof {
                lemma_remove_entry_props(fr1, s_off, js as int);
                assert(self.free@ == remove_entry(fr1, s_off));
            }
            self.free.insert(0, Node { at: pb_off });
            self.blocks[idx - 1] = Block { offset: pb_off, tag: Mast { size: m, a: 0 } };
            self.blocks.remove(idx);
            self.blocks.remove(idx);
            proof {
                assert(free_shape(pre, *self, ptr));
                lemma_free_case4(pre, *self, ptr);
            }
            Ok(())
        } else if lf {
            let pb_off = self.blocks[idx - 1].offset;
            let p_size = self.blocks[idx - 1].tag.size;
            proof {
                crate::layout::lemma_chain_block_bounds(pre.blocks@, idx - 1);
                assert(pre.listed(pb_off));
            }
            let m = p_size + fs + 2 * TAG_BYTES + NODE_BYTES;
            let jp = self.find_entry(pb_off);
            let ghost fr0 = self.free@;
            self.free.remove(jp);
            proof {
                lemma_remove_entry_props(fr0, pb_off, jp as int);
                assert(self.free@ == remove_entry(fr0, pb_off));
            }
            self.free.insert(0, Node { at: pb_off });
            self.blocks[idx - 1] = Block { offset: pb_off, tag: Mast { size: m, a: 0 } };
            self.blocks.remove(idx);
            proof {
                assert(free_shape(pre, *self, ptr));
                lemma_free_case3(pre, *self, ptr);
            }
            Ok(())
        } else if rf {
            let s_off = self.blocks[idx + 1].offset;
            let s_size = self.blocks[idx + 1].tag.size;
            proof {
                crate::layout::lemma_chain_block_bounds(pre.blocks@, idx + 1);
                assert(pre.listed(s_off));
            }
            let m = fs + s_size + 2 * TAG_BYTES + NODE_BYTES;
            let js = self.find_entry(s_off);
            let ghost fr0 = self.free@;
            self.free.remove(js);
            proof {
                lemma_remove_entry_props(fr0, s_off, js as int);
                assert(self.free@ == remove_entry(fr0, s_off));
            }
            self.free.insert(0, Node { at: off });
            self.blocks[idx] = Block { offset: off, tag: Mast { size: m, a: 0 } };
            self.blocks.remove(idx + 1);
            proof {
                assert(free_shape(pre, *self, ptr));
                lemma_free_case2(pre, *self, ptr);
            }
            Ok(())
        } else {
            self.blocks[idx] = Block { offset: off, tag: Mast { size: fs, a: 0 } };
            self.free.insert(0, Node { at: off });
            proof {
                assert(free_shape(pre, *self, ptr));
                lemma_free_case1(pre, *self, ptr);
            }
            Ok(())
        }
    }
}

/// Case 2 of the coalescer — only the following block is free: the
/// following block is unlinked and swallowed; the merged block keeps the
/// released block's header and takes the following block's footer.
#[verifier::rlimit(80)]
proof fn lemma_free_case2(pre: Arena, post: Arena, ptr: usize)
    requires
        pre.wf(),
        pre.has_payload(ptr),
        !pre.blocks@[pre.payload_idx(ptr)].is_free(),
        pre.blocks@[pre.payload_idx(ptr)].tag.a == GUARD,
        !left_free(pre, pre.payload_idx(ptr)),
        right_free(pre, pre.payload_idx(ptr)),
        free_shape(pre, post, ptr),
    ensures
        post.wf(),
{
    let i = pre.payload_idx(ptr);
    let blk = pre.blocks@[i];
    let fs = (blk.tag.size - NODE_BYTES) as usize;
    let sb = pre.blocks@[i + 1];
    let merged = Block {
        offset: blk.offset,
        tag: Mast { size: (fs + sb.tag.size + 2 * TAG_BYTES + NODE_BYTES) as usize, a: 0 },
    };
    let b = pre.blocks@;
    let b2 = post.blocks@;
    let n = b.len() as int;
    assert(0 <= i < n && i + 1 < n);
    assert(blk.tag.size >= NODE_BYTES);
    crate::layout::lemma_chain_block_bounds(b, i);
    crate::layout::lemma_chain_block_bounds(b, i + 1);
    crate::layout::lemma_chain_step(b, i);
    assert(blk.tag.size + sb.tag.size + 2 * TAG_BYTES + NODE_BYTES <= crate::layout::HEAP_SIZE);
    assert(merged.footprint() == blk.footprint() + sb.footprint());

    b.update(i, merged).remove_ensures(i + 1);
    assert(b2.len() == n - 1);
    assert(forall|q: int| 0 <= q < i ==> b2[q] == b[q]);
    assert(b2[i] == merged);
    assert(forall|q: int| i + 1 <= q < n - 1 ==> b2[q] == b[q + 1]);

    assert(pre.listed(sb.offset));
    let js0 = choose|j: int|
        0 <= j < pre.free@.len() && (#[trigger] pre.free@[j]).at == sb.offset;
    lemma_remove_entry_props(pre.free@, sb.offset, js0);
    let fr1 = remove_entry(pre.free@, sb.offset);
    fr1.insert_ensures(0, Node { at: blk.offset });
    assert(post.free@.len() == pre.free@.len());

    // The released offset was not listed before.
    assert forall|j: int| 0 <= j < pre.free@.len() implies (#[trigger] pre.free@[j]).at
        != blk.offset by {
        assert(pre.entry_ok(j));
        let w = choose|w: int|
            0 <= w < pre.blocks@.len() && (#[trigger] pre.blocks@[w]).offset == pre.free@[j].at
                && pre.blocks@[w].is_free();
        if w != i {
            pre.lemma_idx_of_is(w);
            pre.lemma_idx_of_is(i);
        }
    }

    // The merged block exactly covers the two old blocks.
    assert(crate::layout::chained(b2)) by {
        crate::layout::lemma_chain_step(b, i);
        assert(merged.end() == sb.end());
        assert(b2[0].offset == b[0].offset);
        assert forall|q: int| 0 <= q < b2.len() - 1 implies (#[trigger] b2[q + 1].offset)
            == b2[q].end() by {
            if q < i {
                crate::layout::lemma_chain_step(b, q);
            } else if q == i {
                crate::layout::lemma_chain_step(b, i + 1);
                assert(b2[q + 1] == b[i + 2]);
            } else {
                crate::layout::lemma_chain_step(b, q + 1);
                assert(b2[q] == b[q + 1] && b2[q + 1] == b[q + 2]);
            }
        }
        if i + 1 == n - 1 {
            assert(b2[b2.len() - 1] == merged);
            assert(merged.end() == b[n - 1].end());
        } else {
            assert(b2[b2.len() - 1] == b[n - 1]);
        }
    }

    assert forall|j: int| 0 <= j < post.free@.len() implies #[trigger] post.entry_ok(j) by {
        if j == 0 {
            assert(post.free@[0].at == merged.offset);
            assert(post.blocks@[i].offset == merged.offset && post.blocks@[i].is_free());
        } else {
            assert(post.free@[j] == fr1[j - 1]);
            let jo: int = if j - 1 < js0 {
                j - 1
            } else {
                j
            };
            assert(fr1[j - 1] == pre.free@[jo]);
            assert(pre.entry_ok(jo));
            let w = choose|w: int|
                0 <= w < pre.blocks@.len() && (#[trigger] pre.blocks@[w]).offset
                    == pre.free@[jo].at && pre.blocks@[w].is_free();
            assert(w != i);
            assert(w != i + 1) by {
                if w == i + 1 {
                    assert(fr1[j - 1].at != sb.offset);
                }
            }
            if w < i {
                assert(post.blocks@[w].offset == post.free@[j].at && post.blocks@[w].is_free());
            } else {
                assert(post.blocks@[w - 1] == b[w]);
                assert(post.blocks@[w - 1].offset == post.free@[j].at && post.blocks@[w
                    - 1].is_free());
            }
        }
    }
    assert forall|q: int|
        0 <= q < post.blocks@.len() && (#[trigger] post.blocks@[q]).is_free() implies post.listed(
        post.blocks@[q].offset,
    ) by {
        if q == i {
            assert(post.free@[0].at == post.blocks@[q].offset);
        } else {
            let w: int = if q < i {
                q
            } else {
                q + 1
            };
            assert(post.blocks@[q] == b[w] && b[w].is_free());
            assert(pre.listed(b[w].offset));
            let j = choose|j: int|
                0 <= j < pre.free@.len() && (#[trigger] pre.free@[j]).at == b[w].offset;
            assert(j != js0) by {
                if j == js0 {
                    assert(b[w].offset == sb.offset);
                    if w < i + 1 {
                        crate::layout::lemma_chain_ordered(b, w, i + 1);
                    } else {
                        crate::layout::lemma_chain_ordered(b, i + 1, w);
                    }
                }
            }
            let j1: int = if j < js0 {
                j
            } else {
                j - 1
            };
            assert(fr1[j1] == pre.free@[j]);
            assert(post.free@[j1 + 1].at == post.blocks@[q].offset);
        }
    }
    assert forall|j1: int, j2: int| 0 <= j1 < j2 < post.free@.len() implies (
    #[trigger] post.free@[j1]).at != (#[trigger] post.free@[j2]).at by {
        if 0 < j1 {
            assert(post.free@[j1] == fr1[j1 - 1] && post.free@[j2] == fr1[j2 - 1]);
        } else {
            assert(post.free@[j2] == fr1[j2 - 1]);
            let jo: int = if j2 - 1 < js0 {
                j2 - 1
            } else {
                j2
            };
            assert(fr1[j2 - 1] == pre.free@[jo]);
        }
    }

    assert(post.free@.len() == crate::layout::count_free(post.blocks@)) by {
        crate::layout::lemma_count_free_update(b, i, merged);
        crate::layout::lemma_count_free_remove(b.update(i, merged), i + 1);
    }

    assert forall|q: int| 0 <= q < b2.len() - 1 implies !((#[trigger] b2[q]).is_free() && b2[q
        + 1].is_free()) by {
        if q == i - 1 {
            assert(b2[q] == b[q]);
        } else if q == i {
            if i + 2 < n {
                assert(b2[q + 1] == b[i + 2]);
                assert(!(b[i + 1].is_free() && b[i + 2].is_free()));
            }
        } else if q < i - 1 {
            assert(b2[q] == b[q] && b2[q + 1] == b[q + 1]);
            assert(!(b[q].is_free() && b[q + 1].is_free()));
        } else {
            assert(b2[q] == b[q + 1] && b2[q + 1] == b[q + 2]);
            assert(!(b[q + 1].is_free() && b[q + 2].is_free()));
        }
    }

    assert forall|q: int|
        0 <= q < b2.len() && !(#[trigger] b2[q]).is_free() implies b2[q].tag.size
        >= NODE_BYTES by {
        if q < i {
            assert(b2[q] == b[q]);
        } else if q > i {
            assert(b2[q] == b[q + 1]);
        }
    }
}

/// Case 3 of the coalescer — only the preceding block is free: the
/// preceding block is unlinked and grown over the released one; the
/// merged block keeps the preceding block's header and takes the
/// released block's footer.
#[verifier::rlimit(80)]
proof fn lemma_free_case3(pre: Arena, post: Arena, ptr: usize)
    requires
        pre.wf(),
        pre.has_payload(ptr),
        !pre.blocks@[pre.payload_idx(ptr)].is_free(),
        pre.blocks@[pre.payload_idx(ptr)].tag.a == GUARD,
        left_free(pre, pre.payload_idx(ptr)),
        !right_free(pre, pre.payload_idx(ptr)),
        free_shape(pre, post, ptr),
    ensures
        post.wf(),
{
    let i = pre.payload_idx(ptr);
    let blk = pre.blocks@[i];
    let fs = (blk.tag.size - NODE_BYTES) as usize;
    let pb = pre.blocks@[i - 1];
    let merged = Block {
        offset: pb.offset,
        tag: Mast { size: (pb.tag.size + fs + 2 * TAG_BYTES + NODE_BYTES) as usize, a: 0 },
    };
    let b = pre.blocks@;
    let b2 = post.blocks@;
    let n = b.len() as int;
    assert(0 <= i - 1 && i < n);
    assert(blk.tag.size >= NODE_BYTES);
    crate::layout::lemma_chain_block_bounds(b, i - 1);
    crate::layout::lemma_chain_block_bounds(b, i);
    crate::layout::lemma_chain_step(b, i - 1);
    assert(pb.tag.size + blk.tag.size + 2 * TAG_BYTES + NODE_BYTES <= crate::layout::HEAP_SIZE);
    assert(merged.footprint() == pb.footprint() + blk.footprint());

    b.update(i - 1, merged).remove_ensures(i);
    assert(b2.len() == n - 1);
    assert(forall|q: int| 0 <= q < i - 1 ==> b2[q] == b[q]);
    assert(b2[i - 1] == merged);
    assert(forall|q: int| i <= q < n - 1 ==> b2[q] == b[q + 1]);

    assert(pre.listed(pb.offset));
    let jp0 = choose|j: int|
        0 <= j < pre.free@.len() && (#[trigger] pre.free@[j]).at == pb.offset;
    lemma_remove_entry_props(pre.free@, pb.offset, jp0);
    let fr1 = remove_entry(pre.free@, pb.offset);
    fr1.insert_ensures(0, Node { at: pb.offset });
    assert(post.free@.len() == pre.free@.len());

    assert(crate::layout::chained(b2)) by {
        crate::layout::lemma_chain_step(b, i - 1);
        assert(merged.end() == blk.end());
        assert(b2[0].offset == b[0].offset);
        assert forall|q: int| 0 <= q < b2.len() - 1 implies (#[trigger] b2[q + 1].offset)
            == b2[q].end() by {
            if q < i - 1 {
                crate::layout::lemma_chain_step(b, q);
            } else if q == i - 1 {
                crate::layout::lemma_chain_step(b, i);
                assert(b2[q + 1] == b[i + 1]);
            } else {
                crate::layout::lemma_chain_step(b, q + 1);
                assert(b2[q] == b[q + 1] && b2[q + 1] == b[q + 2]);
            }
        }
        if i == n - 1 {
            assert(b2[b2.len() - 1] == merged);
            assert(merged.end() == b[n - 1].end());
        } else {
            assert(b2[b2.len() - 1] == b[n - 1]);
        }
    }

    assert forall|j: int| 0 <= j < post.free@.len() implies #[trigger] post.entry_ok(j) by {
        if j == 0 {
            assert(post.free@[0].at == merged.offset);
            assert(post.blocks@[i - 1].offset == merged.offset && post.blocks@[i - 1].is_free());
        } else {
            assert(post.free@[j] == fr1[j - 1]);
            let jo: int = if j - 1 < jp0 {
                j - 1
            } else {
                j
            };
            assert(fr1[j - 1] == pre.free@[jo]);
            assert(pre.entry_ok(jo));
            let w = choose|w: int|
                0 <= w < pre.blocks@.len() && (#[trigger] pre.blocks@[w]).offset
                    == pre.free@[jo].at && pre.blocks@[w].is_free();
            assert(w != i);
            assert(w != i - 1) by {
                if w == i - 1 {
                    assert(fr1[j - 1].at != pb.offset);
                }
            }
            if w < i - 1 {
                assert(post.blocks@[w].offset == post.free@[j].at && post.blocks@[w].is_free());
            } else {
                assert(post.blocks@[w - 1] == b[w]);
                assert(post.blocks@[w - 1].offset == post.free@[j].at && post.blocks@[w
                    - 1].is_free());
            }
        }
    }
    assert forall|q: int|
        0 <= q < post.blocks@.len() && (#[trigger] post.blocks@[q]).is_free() implies post.listed(
        post.blocks@[q].offset,
    ) by {
        if q == i - 1 {
            assert(post.free@[0].at == post.blocks@[q].offset);
        } else {
            let w: int = if q < i - 1 {
                q
            } else {
                q + 1
            };
            assert(post.blocks@[q] == b[w] && b[w].is_free());
            assert(pre.listed(b[w].offset));
            let j = choose|j: int|
                0 <= j < pre.free@.len() && (#[trigger] pre.free@[j]).at == b[w].offset;
            assert(j != jp0) by {
                if j == jp0 {
                    assert(b[w].offset == pb.offset);
                    if w < i - 1 {
                        crate::layout::lemma_chain_ordered(b, w, i - 1);
                    } else {
                        crate::layout::lemma_chain_ordered(b, i - 1, w);
                    }
                }
            }
            let j1: int = if j < jp0 {
                j
            } else {
                j - 1
            };
            assert(fr1[j1] == pre.free@[j]);
            assert(post.free@[j1 + 1].at == post.blocks@[q].offset);
        }
    }
    assert forall|j1: int, j2: int| 0 <= j1 < j2 < post.free@.len() implies (
    #[trigger] post.free@[j1]).at != (#[trigger] post.free@[j2]).at by {
        if 0 < j1 {
            assert(post.free@[j1] == fr1[j1 - 1] && post.free@[j2] == fr1[j2 - 1]);
        } else {
            assert(post.free@[j2] == fr1[j2 - 1]);
        }
    }

    assert(post.free@.len() == crate::layout::count_free(post.blocks@)) by {
        crate::layout::lemma_count_free_update(b, i - 1, merged);
        crate::layout::lemma_count_free_remove(b.update(i - 1, merged), i);
    }

    assert forall|q: int| 0 <= q < b2.len() - 1 implies !((#[trigger] b2[q]).is_free() && b2[q
        + 1].is_free()) by {
        if q == i - 2 {
            assert(b2[q] == b[q]);
            assert(!(b[i - 2].is_free() && b[i - 1].is_free()));
        } else if q == i - 1 {
            if i + 1 < n {
                assert(b2[q + 1] == b[i + 1]);
            }
        } else if q < i - 2 {
            assert(b2[q] == b[q] && b2[q + 1] == b[q + 1]);
            assert(!(b[q].is_free() && b[q + 1].is_free()));
        } else {
            assert(b2[q] == b[q + 1] && b2[q + 1] == b[q + 2]);
            assert(!(b[q + 1].is_free() && b[q + 2].is_free()));
        }
    }

    assert forall|q: int|
        0 <= q < b2.len() && !(#[trigger] b2[q]).is_free() implies b2[q].tag.size
        >= NODE_BYTES by {
        if q < i - 1 {
            assert(b2[q] == b[q]);
        } else if q > i - 1 {
            assert(b2[q] == b[q + 1]);
        }
    }
}

/// Case 4 of the coalescer — both neighbors free: both are unlinked; the
/// merged block spans from the preceding block's header to the following
/// block's footer, reclaiming both boundaries' overhead.
#[verifier::rlimit(100)]
proof fn lemma_free_case4(pre: Arena, post: Arena, ptr: usize)
    requires
        pre.wf(),
        pre.has_payload(ptr),
        !pre.blocks@[pre.payload_idx(ptr)].is_free(),
        pre.blocks@[pre.payload_idx(ptr)].tag.a == GUARD,
        left_free(pre, pre.payload_idx(ptr)),
        right_free(pre, pre.payload_idx(ptr)),
        free_shape(pre, post, ptr),
    ensures
        post.wf(),
{
    let i = pre.payload_idx(ptr);
    let blk = pre.blocks@[i];
    let fs = (blk.tag.size - NODE_BYTES) as usize;
    let pb = pre.blocks@[i - 1];
    let sb = pre.blocks@[i + 1];
    let merged = Block {
        offset: pb.offset,
        tag: Mast {
            size: (pb.tag.size + fs + sb.tag.size + 4 * TAG_BYTES + 2 * NODE_BYTES) as usize,
            a: 0,
        },
    };
    let b = pre.blocks@;
    let b2 = post.blocks@;
    let n = b.len() as int;
    assert(0 <= i - 1 && i + 1 < n);
    assert(blk.tag.size >= NODE_BYTES);
    crate::layout::lemma_chain_block_bounds(b, i - 1);
    crate::layout::lemma_chain_block_bounds(b, i + 1);
    crate::layout::lemma_chain_step(b, i - 1);
    crate::layout::lemma_chain_step(b, i);
    assert(pb.tag.size + blk.tag.size + sb.tag.size + 4 * TAG_BYTES + 2 * NODE_BYTES
        <= crate::layout::HEAP_SIZE);
    assert(merged.footprint() == pb.footprint() + blk.footprint() + sb.footprint());

    let bu = b.update(i - 1, merged);
    let b3 = bu.remove(i);
    bu.remove_ensures(i);
    b3.remove_ensures(i);
    assert(b2 == b3.remove(i));
    assert(b2.len() == n - 2);
    assert(forall|q: int| 0 <= q < i - 1 ==> b2[q] == b[q]);
    assert(b2[i - 1] == merged);
    assert forall|q: int| i <= q < n - 2 implies #[trigger] b2[q] == b[q + 2] by {
        assert(b2[q] == b3[q + 1]);
        assert(b3[q + 1] == bu[q + 2]);
    }

    assert(pre.listed(pb.offset));
    let jp0 = choose|j: int|
        0 <= j < pre.free@.len() && (#[trigger] pre.free@[j]).at == pb.offset;
    lemma_remove_entry_props(pre.free@, pb.offset, jp0);
    let fr1 = remove_entry(pre.free@, pb.offset);
    assert(pre.listed(sb.offset));
    let js0 = choose|j: int|
        0 <= j < pre.free@.len() && (#[trigger] pre.free@[j]).at == sb.offset;
    assert(js0 != jp0) by {
        crate::layout::lemma_chain_ordered(b, i - 1, i + 1);
    }
    let js1: int = if js0 < jp0 {
        js0
    } else {
        js0 - 1
    };
    assert(fr1[js1] == pre.free@[js0]);
    lemma_remove_entry_props(fr1, sb.offset, js1);
    let fr2 = remove_entry(fr1, sb.offset);
    fr2.insert_ensures(0, Node { at: pb.offset });
    assert(post.free@.len() == pre.free@.len() - 1);

    assert(crate::layout::chained(b2)) by {
        assert(merged.end() == sb.end());
        assert(b2[0].offset == b[0].offset);
        assert forall|q: int| 0 <= q < b2.len() - 1 implies (#[trigger] b2[q + 1].offset)
            == b2[q].end() by {
            if q < i - 2 {
                crate::layout::lemma_chain_step(b, q);
                assert(b2[q] == b[q] && b2[q + 1] == b[q + 1]);
            } else if q == i - 2 {
                crate::layout::lemma_chain_step(b, i - 2);
                assert(b2[q] == b[q]);
            } else if q == i - 1 {
                crate::layout::lemma_chain_step(b, i + 1);
                assert(b2[q + 1] == b[i + 2]);
            } else {
                crate::layout::lemma_chain_step(b, q + 2);
                assert(b2[q] == b[q + 2] && b2[q + 1] == b[q + 3]);
            }
        }
        if i + 1 == n - 1 {
            assert(b2[b2.len() - 1] == merged);
            assert(merged.end() == b[n - 1].end());
        } else {
            assert(b2[b2.len() - 1] == b[n - 1]);
        }
    }

    assert forall|j: int| 0 <= j < post.free@.len() implies #[trigger] post.entry_ok(j) by {
        if j == 0 {
            assert(post.free@[0].at == merged.offset);
            assert(post.blocks@[i - 1].offset == merged.offset && post.blocks@[i - 1].is_free());
        } else {
            assert(post.free@[j] == fr2[j - 1]);
            let j1: int = if j - 1 < js1 {
                j - 1
            } else {
                j
            };
            assert(fr2[j - 1] == fr1[j1]);
            let jo: int = if j1 < jp0 {
                j1
            } else {
                j1 + 1
            };
            assert(fr1[j1] == pre.free@[jo]);
            assert(pre.entry_ok(jo));
            let w = choose|w: int|
                0 <= w < pre.blocks@.len() && (#[trigger] pre.blocks@[w]).offset
                    == pre.free@[jo].at && pre.blocks@[w].is_free();
            assert(w != i);
            assert(w != i - 1) by {
                if w == i - 1 {
                    assert(fr1[j1].at != pb.offset);
                }
            }
            assert(w != i + 1) by {
                if w == i + 1 {
                    assert(fr2[j - 1].at != sb.offset);
                }
            }
            if w < i - 1 {
                assert(post.blocks@[w].offset == post.free@[j].at && post.blocks@[w].is_free());
            } else {
                assert(post.blocks@[w - 2] == b[w]);
                assert(post.blocks@[w - 2].offset == post.free@[j].at && post.blocks@[w
                    - 2].is_free());
            }
        }
    }
    assert forall|q: int|
        0 <= q < post.blocks@.len() && (#[trigger] post.blocks@[q]).is_free() implies post.listed(
        post.blocks@[q].offset,
    ) by {
        if q == i - 1 {
            assert(post.free@[0].at == post.blocks@[q].offset);
        } else {
            let w: int = if q < i - 1 {
                q
            } else {
                q + 2
            };
            assert(post.blocks@[q] == b[w] && b[w].is_free());
            assert(pre.listed(b[w].offset));
            let j = choose|j: int|
                0 <= j < pre.free@.len() && (#[trigger] pre.free@[j]).at == b[w].offset;
            assert(j != jp0) by {
                if j == jp0 {
                    assert(b[w].offset == pb.offset);
                    if w < i - 1 {
                        crate::layout::lemma_chain_ordered(b, w, i - 1);
                    } else {
                        crate::layout::lemma_chain_ordered(b, i - 1, w);
                    }
                }
            }
            assert(j != js0) by {
                if j == js0 {
                    assert(b[w].offset == sb.offset);
                    if w < i + 1 {
                        crate::layout::lemma_chain_ordered(b, w, i + 1);
                    } else {
                        crate::layout::lemma_chain_ordered(b, i + 1, w);
                    }
                }
            }
            let j1: int = if j < jp0 {
                j
            } else {
                j - 1
            };
            assert(fr1[j1] == pre.free@[j]);
            assert(j1 != js1);
            let j2: int = if j1 < js1 {
                j1
            } else {
                j1 - 1
            };
            assert(fr2[j2] == fr1[j1]);
            assert(post.free@[j2 + 1].at == post.blocks@[q].offset);
        }
    }
    assert forall|j1: int, j2: int| 0 <= j1 < j2 < post.free@.len() implies (
    #[trigger] post.free@[j1]).at != (#[trigger] post.free@[j2]).at by {
        if 0 < j1 {
            assert(post.free@[j1] == fr2[j1 - 1] && post.free@[j2] == fr2[j2 - 1]);
        } else {
            assert(post.free@[j2] == fr2[j2 - 1]);
            let ja: int = if j2 - 1 < js1 {
                j2 - 1
            } else {
                j2
            };
            assert(fr2[j2 - 1] == fr1[ja]);
        }
    }

    assert(post.free@.len() == crate::layout::count_free(post.blocks@)) by {
        crate::layout::lemma_count_free_update(b, i - 1, merged);
        crate::layout::lemma_count_free_remove(bu, i);
        crate::layout::lemma_count_free_remove(b3, i);
        assert(bu[i] == b[i]);
        assert(b3[i] == bu[i + 1]);
    }

    assert forall|q: int| 0 <= q < b2.len() - 1 implies !((#[trigger] b2[q]).is_free() && b2[q
        + 1].is_free()) by {
        if q == i - 2 {
            assert(b2[q] == b[q]);
            assert(!(b[i - 2].is_free() && b[i - 1].is_free()));
        } else if q == i - 1 {
            assert(b2[q + 1] == b[i + 2]);
            assert(!(b[i + 1].is_free() && b[i + 2].is_free()));
        } else if q < i - 2 {
            assert(b2[q] == b[q] && b2[q + 1] == b[q + 1]);
            assert(!(b[q].is_free() && b[q + 1].is_free()));
        } else {
            assert(b2[q] == b[q + 2] && b2[q + 1] == b[q + 3]);
            assert(!(b[q + 2].is_free() && b[q + 3].is_free()));
        }
    }

    assert forall|q: int|
        0 <= q < b2.len() && !(#[trigger] b2[q]).is_free() implies b2[q].tag.size
        >= NODE_BYTES by {
        if q < i - 1 {
            assert(b2[q] == b[q]);
        } else if q > i - 1 {
            assert(b2[q] == b[q + 2]);
        }
    }
}

} // verus!
