//! The fallback sort: a simple quadratic adjacent-swap sort used below the
//! splitting threshold. A pass that performs no swap proves the region is
//! already in order, so the sort exits early on nearly-sorted input.

use vstd::prelude::*;
use crate::order::{
    sorted, sorted_between, permutes, rearranged_in, swap_items, lemma_swap_rearranges,
    lemma_rearranged_nested, lemma_sorted_from_adjacent, lemma_rearranged_full,
};

verus! {

/// Sort the region `[lo, hi)` of `v` in place by adjacent swaps.
#[verifier::loop_isolation(false)]
pub fn bubble_sort_range(v: &mut Vec<usize>, lo: usize, hi: usize)
    requires
        lo <= hi,
        hi <= old(v)@.len(),
    ensures
        final(v)@.len() == old(v)@.len(),
        sorted_between(final(v)@, lo as int, hi as int),
        rearranged_in(old(v)@, final(v)@, lo as int, hi as int),
{
    let ghost orig = v@;
    if hi - lo <= 1 {
        return ;
    }
    let mut did_swap = true;
    let mut i: usize = hi - 1;
    while i > lo
        invariant
            lo <= i < hi <= v@.len(),
            v@.len() == orig.len(),
            rearranged_in(orig, v@, lo as int, hi as int),
            sorted_between(v@, i + 1, hi as int),
            forall|k: int, m: int| lo <= k <= i < m < hi ==> v@[k] <= v@[m],
            !did_swap ==> forall|k: int| lo <= k < i ==> #[trigger] v@[k] <= v@[k + 1],
        decreases i,
    {
        if !did_swap {
            proof {
                lemma_sorted_from_adjacent(v@, lo as int, i + 1);
            }
            return ;
        }
        did_swap = false;
        let mut j: usize = lo;
        while j < i
            invariant
                lo <= j <= i < hi <= v@.len(),
                v@.len() == orig.len(),
                rearranged_in(orig, v@, lo as int, hi as int),
                sorted_between(v@, i + 1, hi as int),
                forall|k: int, m: int| lo <= k <= i < m < hi ==> v@[k] <= v@[m],
                forall|k: int| lo <= k <= j ==> v@[k] <= v@[j as int],
                !did_swap ==> forall|k: int| lo <= k < j ==> #[trigger] v@[k] <= v@[k + 1],
            decreases i - j,
        {
            if v[j] > v[j + 1] {
                let ghost before = v@;
                swap_items(v, j, j + 1);
                proof {
                    lemma_swap_rearranges(
                        before,
                        v@,
                        lo as int,
                        hi as int,
                        j as int,
                        j + 1,
                    );
                    lemma_rearranged_nested(
                        orig,
                        before,
                        v@,
                        lo as int,
                        hi as int,
                        lo as int,
                        hi as int,
                    );
                }
                did_swap = true;
            }
            j = j + 1;
        }
        i = i - 1;
    }
}

/// Sort the whole vector in place with the quadratic fallback sort.
pub fn bubble_sort(v: &mut Vec<usize>)
    ensures
        final(v)@.len() == old(v)@.len(),
        sorted(final(v)@),
        permutes(old(v)@, final(v)@),
{
    let hi = v.len();
    bubble_sort_range(v, 0, hi);
    proof {
        lemma_rearranged_full(old(v)@, v@);
    }
}

} // verus!
