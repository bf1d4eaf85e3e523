//! Fit strategy: the policy that picks one candidate free block for a
//! request.  The policy scans the free-block sizes in list order and is
//! selectable at allocator configuration time.

use vstd::prelude::*;

verus! {

/// The three selection policies.
#[derive(Clone, Copy, PartialEq, Eq, Structural, Debug)]
pub enum FitStrategy {
    /// Stop at the first block large enough.
    FirstFit,
    /// Scan the whole list and keep the block leaving the largest
    /// remainder; on equal sizes the earlier block wins.
    WorstFit,
    /// Scan the whole list and keep the smallest block still large
    /// enough; on equal sizes the earlier block wins.
    BestFit,
}

/// Entry `j` of `sizes` can host a carve-out of `required` total bytes.
pub open spec fn fits(sizes: Seq<usize>, required: int, j: int) -> bool {
    0 <= j < sizes.len() && sizes[j] >= required
}

/// `k` is the first fitting entry.
pub open spec fn first_fit_ok(sizes: Seq<usize>, required: int, k: int) -> bool {
    &&& fits(sizes, required, k)
    &&& forall|j: int| 0 <= j < k ==> (#[trigger] sizes[j]) < required
}

/// `k` is the largest fitting entry, and the first among equally large
/// ones.  Since `required` is fixed, the largest block is exactly the one
/// leaving the largest remainder after a hypothetical split.
pub open spec fn worst_fit_ok(sizes: Seq<usize>, required: int, k: int) -> bool {
    &&& fits(sizes, required, k)
    &&& forall|j: int| fits(sizes, required, j) ==> (#[trigger] sizes[j]) <= sizes[k]
    &&& forall|j: int| 0 <= j < k && (#[trigger] sizes[j]) >= required ==> sizes[j] < sizes[k]
}

/// `k` is the smallest fitting entry, and the first among equally small
/// ones: the smallest nonnegative remainder.
pub open spec fn best_fit_ok(sizes: Seq<usize>, required: int, k: int) -> bool {
    &&& fits(sizes, required, k)
    &&& forall|j: int| fits(sizes, required, j) ==> (#[trigger] sizes[j]) >= sizes[k]
    &&& forall|j: int| 0 <= j < k && (#[trigger] sizes[j]) >= required ==> sizes[j] > sizes[k]
}

/// What the configured strategy promises of the chosen index.
pub open spec fn selection_ok(
    sizes: Seq<usize>,
    required: int,
    strategy: FitStrategy,
    k: int,
) -> bool {
    match strategy {
        FitStrategy::FirstFit => first_fit_ok(sizes, required, k),
        FitStrategy::WorstFit => worst_fit_ok(sizes, required, k),
        FitStrategy::BestFit => best_fit_ok(sizes, required, k),
    }
}

/// Each policy's promise pins the chosen index down completely: no two
/// indices can both satisfy it.
pub proof fn lemma_selection_unique(
    sizes: Seq<usize>,
    required: int,
    strategy: FitStrategy,
    k1: int,
    k2: int,
)
    requires
        selection_ok(sizes, required, strategy, k1),
        selection_ok(sizes, required, strategy, k2),
    ensures
        k1 == k2,
{
    if k1 != k2 {
        let lo = if k1 < k2 {
            k1
        } else {
            k2
        };
        let hi = if k1 < k2 {
            k2
        } else {
            k1
        };
        assert(fits(sizes, required, lo));
        assert(sizes[lo] >= required);
        match strategy {
            FitStrategy::FirstFit => {
                assert(sizes[lo] < required);
            },
            FitStrategy::WorstFit => {
                assert(sizes[lo] < sizes[hi]);
                assert(sizes[hi] <= sizes[lo]);
            },
            FitStrategy::BestFit => {
                assert(sizes[lo] > sizes[hi]);
                assert(sizes[hi] >= sizes[lo]);
            },
        }
    }
}

/// Scans `sizes` (free-block sizes in list order) for a block of at least
/// `required` bytes and returns the index the strategy picks, or `None`
/// exactly when no block is large enough.  Finding nothing is not an
/// error: it is the caller's signal to report out of memory.
#[verifier::loop_isolation(false)]
pub fn find_candidate(sizes: &Vec<usize>, required: usize, strategy: FitStrategy) -> (r: Option<
    usize,
>)
    ensures
        match r {
            Some(k) => selection_ok(sizes@, required as int, strategy, k as int),
            None => forall|j: int|
                0 <= j < sizes@.len() ==> (#[trigger] sizes@[j]) < required,
        },
{
    match strategy {
        FitStrategy::FirstFit => {
            let n = sizes.len();
            for i in 0..n
                invariant
                    n == sizes@.len(),
                    forall|j: int| 0 <= j < i ==> (#[trigger] sizes@[j]) < required,
            {
                if sizes[i] >= required {
                    return Some(i);
                }
            }
            None
        },
        FitStrategy::WorstFit => {
            let n = sizes.len();
            let mut found: Option<usize> = None;
            for i in 0..n
                invariant
                    n == sizes@.len(),
                    match found {
                        None => forall|j: int|
                            0 <= j < i ==> (#[trigger] sizes@[j]) < required,
                        Some(b) => {
                            &&& b < i
                            &&& sizes@[b as int] >= required
                            &&& forall|j: int|
                                0 <= j < i && (#[trigger] sizes@[j]) >= required ==> sizes@[j]
                                    <= sizes@[b as int]
                            &&& forall|j: int|
                                0 <= j < b && (#[trigger] sizes@[j]) >= required ==> sizes@[j]
                                    < sizes@[b as int]
                        },
                    },
            {
                if sizes[i] >= required {
                    match found {
                        None => {
                            found = Some(i);
                        },
                        Some(b) => {
                            if sizes[i] > sizes[b] {
                                found = Some(i);
                            }
                        },
                    }
                }
            }
            found
        },
        FitStrategy::BestFit => {
            let n = sizes.len();
            let mut found: Option<usize> = None;
            for i in 0..n
                invariant
                    n == sizes@.len(),
                    match found {
                        None => forall|j: int|
                            0 <= j < i ==> (#[trigger] sizes@[j]) < required,
                        Some(b) => {
                            &&& b < i
                            &&& sizes@[b as int] >= required
                            &&& forall|j: int|
                                0 <= j < i && (#[trigger] sizes@[j]) >= required ==> sizes@[j]
                                    >= sizes@[b as int]
                            &&& forall|j: int|
                                0 <= j < b && (#[trigger] sizes@[j]) >= required ==> sizes@[j]
                                    > sizes@[b as int]
                        },
                    },
            {
                if sizes[i] >= required {
                    match found {
                        None => {
                            found = Some(i);
                        },
                        Some(b) => {
                            if sizes[i] < sizes[b] {
                                found = Some(i);
                            }
                        },
                    }
                }
            }
            found
        },
    }
}

} // verus!
