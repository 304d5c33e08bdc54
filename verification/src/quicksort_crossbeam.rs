//! The structured-scope quicksort variant: every split produces two disjoint
//! regions that are both fully processed before the caller's region is
//! considered done, which is exactly what a structured concurrency scope
//! guarantees for its spawned children. The partitioner here picks the
//! median of the first, middle and last elements and moves the chosen order
//! statistic into place with an in-place selection loop.

use vstd::prelude::*;
use crate::order::{
    sorted, sorted_between, permutes, rearranged_in, lemma_rearranged_nested,
    lemma_rearranged_full, lemma_rearranged_keeps_upper_bound, lemma_rearranged_keeps_lower_bound,
};
use crate::bubble_sort::bubble_sort_range;
use crate::quicksort_safe::{partition_range, partitioned_at};

verus! {

/// Rearrange the region `[lo, hi)` so that position `n` holds the element it
/// would hold if the region were sorted: everything before `n` is at most
/// the element there, everything after is at least it. The region is
/// narrowed around `n` by repeated partitioning.
pub fn select_nth_range(v: &mut Vec<usize>, lo: usize, hi: usize, n: usize)
    requires
        lo <= n < hi,
        hi <= old(v)@.len(),
    ensures
        final(v)@.len() == old(v)@.len(),
        rearranged_in(old(v)@, final(v)@, lo as int, hi as int),
        partitioned_at(final(v)@, lo as int, n as int, hi as int),
{
    let ghost orig = v@;
    let mut l = lo;
    let mut h = hi;
    loop
        invariant
            lo <= l <= n < h <= hi <= v@.len(),
            v@.len() == orig.len(),
            rearranged_in(orig, v@, lo as int, hi as int),
            forall|a: int, b: int| lo <= a < l && l <= b < h ==> v@[a] <= v@[b],
            forall|a: int, b: int| l <= a < h && h <= b < hi ==> v@[a] <= v@[b],
            forall|a: int, b: int| lo <= a < l && h <= b < hi ==> v@[a] <= v@[b],
        ensures
            v@.len() == orig.len(),
            rearranged_in(orig, v@, lo as int, hi as int),
            partitioned_at(v@, lo as int, n as int, hi as int),
        decreases h - l,
    {
        let ghost before = v@;
        let mid = partition_range(v, l, h);
        let ghost pv = v@[mid as int];
        proof {
            lemma_rearranged_nested(orig, before, v@, lo as int, hi as int, l as int, h as int);
            assert forall|a: int, b: int| lo <= a < l && l <= b < h implies v@[a] <= v@[b] by {
                assert(v@[a] == before[a]);
                lemma_rearranged_keeps_lower_bound(before, v@, l as int, h as int, before[a]);
            }
            assert forall|a: int, b: int| l <= a < h && h <= b < hi implies v@[a] <= v@[b] by {
                assert(v@[b] == before[b]);
                lemma_rearranged_keeps_upper_bound(before, v@, l as int, h as int, before[b]);
            }
        }
        if mid == n {
            proof {
                assert forall|k: int| lo <= k < n implies v@[k] <= v@[n as int] by {
                    if k < l {
                    } else {
                        assert(v@[k] <= pv);
                    }
                }
                assert forall|k: int| n < k < hi implies v@[k] >= v@[n as int] by {
                    if k >= h {
                    } else {
                        assert(v@[k] >= pv);
                    }
                }
            }
            break ;
        } else if mid < n {
            proof {
                assert forall|a: int, b: int|
                    lo <= a < mid + 1 && mid + 1 <= b < h implies v@[a] <= v@[b] by {
                    if a >= l {
                        assert(v@[a] <= pv);
                        assert(v@[b] >= pv);
                    }
                }
            }
            l = mid + 1;
        } else {
            proof {
                assert forall|a: int, b: int|
                    l <= a < mid && mid <= b < hi implies v@[a] <= v@[b] by {
                    assert(v@[a] <= pv);
                    if b < h {
                        assert(v@[b] >= pv);
                    } else {
                        assert(pv <= v@[b]);
                    }
                }
                assert forall|a: int, b: int|
                    lo <= a < l && mid <= b < hi implies v@[a] <= v@[b] by {
                    assert(v@[a] <= v@[l as int]);
                }
            }
            h = mid;
        }
    }
}

/// Partition the region `[lo, hi)` around a pivot position: the median of
/// the first, middle and last elements for regions above three elements,
/// the second position for small regions of more than one element, and the
/// only position for a one-element region. Returns the pivot's final index,
/// with everything before it at most the element there and everything after
/// at least it; partitioning succeeds for every non-empty region.
pub fn partition(v: &mut Vec<usize>, lo: usize, hi: usize) -> (mid: usize)
    requires
        lo < hi,
        hi <= old(v)@.len(),
    ensures
        lo <= mid < hi,
        final(v)@.len() == old(v)@.len(),
        rearranged_in(old(v)@, final(v)@, lo as int, hi as int),
        partitioned_at(final(v)@, lo as int, mid as int, hi as int),
{
    let len = hi - lo;
    let pivot = if len == 1 {
        lo
    } else if len <= 3 {
        lo + 1
    } else {
        let p0 = lo;
        let pm = lo + len / 2;
        let pl = hi - 1;
        if v[p0] < v[pm] {
            if v[p0] < v[pl] {
                if v[pm] < v[pl] {
                    pm
                } else {
                    pl
                }
            } else {
                p0
            }
        } else {
            if v[pm] < v[pl] {
                if v[p0] < v[pl] {
                    p0
                } else {
                    pl
                }
            } else {
                pm
            }
        }
    };
    select_nth_range(v, lo, hi, pivot);
    pivot
}

/// Sort the region `[lo, hi)` by partitioning and handling both sides in
/// full before the region is considered done.
pub fn quicksort_crossbeam_minimal_range(v: &mut Vec<usize>, lo: usize, hi: usize)
    requires
        lo <= hi,
        hi <= old(v)@.len(),
    ensures
        final(v)@.len() == old(v)@.len(),
        sorted_between(final(v)@, lo as int, hi as int),
        rearranged_in(old(v)@, final(v)@, lo as int, hi as int),
    decreases hi - lo,
{
    let ghost orig = v@;
    if hi - lo > 1 {
        let mid = partition(v, lo, hi);
        let ghost after_part = v@;
        let ghost pv = v@[mid as int];
        quicksort_crossbeam_minimal_range(v, lo, mid);
        let ghost after_left = v@;
        proof {
            lemma_rearranged_keeps_upper_bound(after_part, after_left, lo as int, mid as int, pv);
            lemma_rearranged_nested(
                orig,
                after_part,
                after_left,
                lo as int,
                hi as int,
                lo as int,
                mid as int,
            );
        }
        quicksort_crossbeam_minimal_range(v, mid + 1, hi);
        proof {
            lemma_rearranged_keeps_lower_bound(after_left, v@, mid + 1, hi as int, pv);
            lemma_rearranged_nested(orig, after_left, v@, lo as int, hi as int, mid + 1, hi as int);
            assert(v@[mid as int] == pv);
            assert forall|a: int, b: int| lo <= a <= b < hi implies v@[a] <= v@[b] by {
                if a < mid && b >= mid {
                    assert(v@[a] <= pv);
                    assert(v@[b] >= pv);
                }
            }
        }
    }
}

/// Sort the whole vector with the scoped-split quicksort, with no fallback
/// and no thresholds.
pub fn quicksort_crossbeam_minimal(v: &mut Vec<usize>)
    ensures
        final(v)@.len() == old(v)@.len(),
        sorted(final(v)@),
        permutes(old(v)@, final(v)@),
{
    let hi = v.len();
    quicksort_crossbeam_minimal_range(v, 0, hi);
    proof {
        lemma_rearranged_full(old(v)@, v@);
    }
}

/// The threshold-driven form over one region: regions below
/// `min_split_size` go to the fallback sort; larger regions are partitioned
/// and both sides handled in full. `min_thread_size` decides only which
/// side would run on its own worker, never what the sorted result is.
pub fn quicksort_crossbeam_range(
    v: &mut Vec<usize>,
    lo: usize,
    hi: usize,
    min_split_size: u8,
    min_thread_size: u32,
)
    requires
        lo <= hi,
        hi <= old(v)@.len(),
    ensures
        final(v)@.len() == old(v)@.len(),
        sorted_between(final(v)@, lo as int, hi as int),
        rearranged_in(old(v)@, final(v)@, lo as int, hi as int),
    decreases hi - lo,
{
    let ghost orig = v@;
    if hi - lo > 1 {
        if hi - lo < min_split_size as usize {
            bubble_sort_range(v, lo, hi);
        } else {
            let mid = partition(v, lo, hi);
            let ghost after_part = v@;
            let ghost pv = v@[mid as int];
            quicksort_crossbeam_range(v, lo, mid, min_split_size, min_thread_size);
            let ghost after_left = v@;
            proof {
                lemma_rearranged_keeps_upper_bound(
                    after_part,
                    after_left,
                    lo as int,
                    mid as int,
                    pv,
                );
                lemma_rearranged_nested(
                    orig,
                    after_part,
                    after_left,
                    lo as int,
                    hi as int,
                    lo as int,
                    mid as int,
                );
            }
            quicksort_crossbeam_range(v, mid + 1, hi, min_split_size, min_thread_size);
            proof {
                lemma_rearranged_keeps_lower_bound(after_left, v@, mid + 1, hi as int, pv);
                lemma_rearranged_nested(
                    orig,
                    after_left,
                    v@,
                    lo as int,
                    hi as int,
                    mid + 1,
                    hi as int,
                );
                assert(v@[mid as int] == pv);
                assert forall|a: int, b: int| lo <= a <= b < hi implies v@[a] <= v@[b] by {
                    if a < mid && b >= mid {
                        assert(v@[a] <= pv);
                        assert(v@[b] >= pv);
                    }
                }
            }
        }
    }
}

/// Sort the whole vector with the threshold-driven scoped-split quicksort.
pub fn quicksort_crossbeam(v: &mut Vec<usize>, min_split_size: u8, min_thread_size: u32)
    ensures
        final(v)@.len() == old(v)@.len(),
        sorted(final(v)@),
        permutes(old(v)@, final(v)@),
{
    let hi = v.len();
    quicksort_crossbeam_range(v, 0, hi, min_split_size, min_thread_size);
    proof {
        lemma_rearranged_full(old(v)@, v@);
    }
}

} // verus!
