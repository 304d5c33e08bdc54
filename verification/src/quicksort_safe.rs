//! Quicksort over index-addressed regions of one owned buffer: a two-pointer
//! in-place partition, recursive sorting of the two sides, and a quadratic
//! fallback below a crossover size. The partition loop is the most
//! failure-prone part of the whole engine, so its index bounds and ordering
//! facts are carried as explicit loop invariants.

use vstd::prelude::*;
use crate::order::{
    sorted, sorted_between, permutes, rearranged_in, swap_items, lemma_swap_rearranges,
    lemma_rearranged_nested, lemma_rearranged_full, lemma_rearranged_keeps_upper_bound,
    lemma_rearranged_keeps_lower_bound,
};
use crate::bubble_sort::bubble_sort_range;
use crate::rng::random_index_below;

verus! {

/// The region `[lo, hi)` is split at `mid`: nothing left of `mid` exceeds the
/// element there, and nothing right of it is smaller.
pub open spec fn partitioned_at(s: Seq<usize>, lo: int, mid: int, hi: int) -> bool {
    &&& forall|k: int| lo <= k < mid ==> s[k] <= s[mid]
    &&& forall|k: int| mid < k < hi ==> s[k] >= s[mid]
}

/// Rearrange the region `[lo, hi)` in place around the pivot read from its
/// first position, and return the pivot's final index. Two pointers converge:
/// the low one advances over elements below the pivot, the high one retreats
/// over elements above it, and out-of-place pairs are exchanged.
pub fn partition_range(v: &mut Vec<usize>, lo: usize, hi: usize) -> (mid: usize)
    requires
        lo < hi,
        hi <= old(v)@.len(),
    ensures
        lo <= mid < hi,
        final(v)@.len() == old(v)@.len(),
        rearranged_in(old(v)@, final(v)@, lo as int, hi as int),
        partitioned_at(final(v)@, lo as int, mid as int, hi as int),
{
    let ghost orig = v@;
    let ghost p = v@[lo as int];
    let mut i: usize = lo + 1;
    let mut j: usize = hi - 1;
    let mut mid: usize = lo;
    loop
        invariant_except_break
            v@[lo as int] == p,
        invariant
            lo + 1 <= i <= hi,
            lo <= j < hi <= v@.len(),
            i <= j + 1,
            v@.len() == orig.len(),
            rearranged_in(orig, v@, lo as int, hi as int),
            forall|k: int| lo + 1 <= k < i ==> v@[k] <= p,
            forall|k: int| j < k < hi ==> v@[k] >= p,
        ensures
            lo <= mid < hi,
            v@.len() == orig.len(),
            rearranged_in(orig, v@, lo as int, hi as int),
            partitioned_at(v@, lo as int, mid as int, hi as int),
        decreases j + 2 - i,
    {
        let ghost i0 = i;
        let ghost j0 = j;
        while i < hi && v[i] < v[lo]
            invariant
                lo + 1 <= i <= hi,
                lo <= j < hi <= v@.len(),
                i0 <= i,
                i <= j + 1,
                v@[lo as int] == p,
                forall|k: int| lo + 1 <= k < i ==> v@[k] <= p,
                forall|k: int| j < k < hi ==> v@[k] >= p,
            decreases hi - i,
        {
            i = i + 1;
        }
        while j > lo && v[j] > v[lo]
            invariant
                lo + 1 <= i <= hi,
                lo <= j < hi <= v@.len(),
                j <= j0,
                j + 1 >= i,
                v@[lo as int] == p,
                forall|k: int| lo + 1 <= k < i ==> v@[k] <= p,
                forall|k: int| j < k < hi ==> v@[k] >= p,
            decreases j,
        {
            j = j - 1;
        }
        if i < j {
            let ghost before = v@;
            swap_items(v, i, j);
            proof {
                lemma_swap_rearranges(before, v@, lo as int, hi as int, i as int, j as int);
                lemma_rearranged_nested(
                    orig,
                    before,
                    v@,
                    lo as int,
                    hi as int,
                    lo as int,
                    hi as int,
                );
            }
        }
        if i == j || j + 1 == i || i + 1 == j {
            mid = if i < j {
                i
            } else {
                j
            };
            if mid > lo {
                let ghost before = v@;
                swap_items(v, lo, mid);
                proof {
                    lemma_swap_rearranges(before, v@, lo as int, hi as int, lo as int, mid as int);
                    lemma_rearranged_nested(
                        orig,
                        before,
                        v@,
                        lo as int,
                        hi as int,
                        lo as int,
                        hi as int,
                    );
                }
            }
            break ;
        } else {
            i = i + 1;
            j = j - 1;
        }
    }
    mid
}

/// Sort the region `[lo, hi)` with quicksort, falling back to the quadratic
/// sort for regions of at most `crossover_point` elements.
pub fn quicksort_range(v: &mut Vec<usize>, lo: usize, hi: usize, crossover_point: usize)
    requires
        lo <= hi,
        hi <= old(v)@.len(),
    ensures
        final(v)@.len() == old(v)@.len(),
        sorted_between(final(v)@, lo as int, hi as int),
        rearranged_in(old(v)@, final(v)@, lo as int, hi as int),
    decreases hi - lo,
{
    let ghost orig = v@;
    if hi - lo <= crossover_point || hi - lo <= 1 {
        bubble_sort_range(v, lo, hi);
        return ;
    }
    let mid = partition_range(v, lo, hi);
    let ghost after_part = v@;
    let ghost pv = v@[mid as int];
    quicksort_range(v, lo, mid, crossover_point);
    let ghost after_left = v@;
    proof {
        lemma_rearranged_keeps_upper_bound(after_part, after_left, lo as int, mid as int, pv);
        lemma_rearranged_nested(
            orig,
            after_part,
            after_left,
            lo as int,
            hi as int,
            lo as int,
            mid as int,
        );
    }
    quicksort_range(v, mid + 1, hi, crossover_point);
    proof {
        lemma_rearranged_keeps_lower_bound(after_left, v@, mid + 1, hi as int, pv);
        lemma_rearranged_nested(orig, after_left, v@, lo as int, hi as int, mid + 1, hi as int);
        assert(v@[mid as int] == pv);
        assert forall|a: int, b: int| lo <= a <= b < hi implies v@[a] <= v@[b] by {
            if a < mid && b >= mid {
                assert(v@[a] <= pv);
                assert(v@[b] >= pv);
            }
        }
    }
}

/// Quicksort the whole vector, falling back to the quadratic sort below a
/// fixed crossover size.
pub fn quicksort(v: &mut Vec<usize>)
    ensures
        final(v)@.len() == old(v)@.len(),
        sorted(final(v)@),
        permutes(old(v)@, final(v)@),
{
    let hi = v.len();
    quicksort_range(v, 0, hi, 7);
    proof {
        lemma_rearranged_full(old(v)@, v@);
    }
}

/// Quicksort the whole vector with a caller-chosen fallback crossover size.
/// A crossover of zero disables the fallback on every region of more than
/// one element.
pub fn quicksort_with_crossover(v: &mut Vec<usize>, crossover_point: usize)
    ensures
        final(v)@.len() == old(v)@.len(),
        sorted(final(v)@),
        permutes(old(v)@, final(v)@),
{
    let hi = v.len();
    quicksort_range(v, 0, hi, crossover_point);
    proof {
        lemma_rearranged_full(old(v)@, v@);
    }
}

/// Sort the region `[lo, hi)` with quicksort; on regions larger than `limit`,
/// first sample three positions at random and swap the median of the three
/// sampled elements into the pivot position, to reduce worst-case skew.
/// Regions of at most `crossover_point` elements go to the fallback sort.
pub fn quicksort_rnd_3_range(
    v: &mut Vec<usize>,
    lo: usize,
    hi: usize,
    limit: usize,
    crossover_point: usize,
)
    requires
        lo <= hi,
        hi <= old(v)@.len(),
    ensures
        final(v)@.len() == old(v)@.len(),
        sorted_between(final(v)@, lo as int, hi as int),
        rearranged_in(old(v)@, final(v)@, lo as int, hi as int),
    decreases hi - lo,
{
    let ghost orig = v@;
    if hi - lo <= crossover_point || hi - lo <= 1 {
        bubble_sort_range(v, lo, hi);
        return ;
    }
    if hi - lo > limit {
        let i1 = lo + random_index_below(hi - lo);
        let i2 = lo + random_index_below(hi - lo);
        let i3 = lo + random_index_below(hi - lo);
        let partition_index = if v[i1] < v[i2] {
            if v[i1] < v[i3] {
                if v[i2] < v[i3] {
                    i2
                } else {
                    i3
                }
            } else {
                i1
            }
        } else {
            if v[i2] < v[i3] {
                if v[i1] < v[i3] {
                    i1
                } else {
                    i3
                }
            } else {
                i2
            }
        };
        if partition_index != lo {
            let ghost before = v@;
            swap_items(v, lo, partition_index);
            proof {
                lemma_swap_rearranges(
                    before,
                    v@,
                    lo as int,
                    hi as int,
                    lo as int,
                    partition_index as int,
                );
            }
        }
    }
    let ghost sampled = v@;
    let mid = partition_range(v, lo, hi);
    let ghost after_part = v@;
    let ghost pv = v@[mid as int];
    proof {
        lemma_rearranged_nested(
            orig,
            sampled,
            after_part,
            lo as int,
            hi as int,
            lo as int,
            hi as int,
        );
    }
    quicksort_rnd_3_range(v, lo, mid, limit, crossover_point);
    let ghost after_left = v@;
    proof {
        lemma_rearranged_keeps_upper_bound(after_part, after_left, lo as int, mid as int, pv);
        lemma_rearranged_nested(
            orig,
            after_part,
            after_left,
            lo as int,
            hi as int,
            lo as int,
            mid as int,
        );
    }
    quicksort_rnd_3_range(v, mid + 1, hi, limit, crossover_point);
    proof {
        lemma_rearranged_keeps_lower_bound(after_left, v@, mid + 1, hi as int, pv);
        lemma_rearranged_nested(orig, after_left, v@, lo as int, hi as int, mid + 1, hi as int);
        assert(v@[mid as int] == pv);
        assert forall|a: int, b: int| lo <= a <= b < hi implies v@[a] <= v@[b] by {
            if a < mid && b >= mid {
                assert(v@[a] <= pv);
                assert(v@[b] >= pv);
            }
        }
    }
}

/// Quicksort with randomized median-of-three pivot sampling on regions
/// larger than `limit`.
pub fn quicksort_rnd_3_with_limit(v: &mut Vec<usize>, limit: usize)
    ensures
        final(v)@.len() == old(v)@.len(),
        sorted(final(v)@),
        permutes(old(v)@, final(v)@),
{
    let hi = v.len();
    quicksort_rnd_3_range(v, 0, hi, limit, 7);
    proof {
        lemma_rearranged_full(old(v)@, v@);
    }
}

/// Check the partition invariant at `mid`: report whether every element left
/// of `mid` is at most the element there and every element right of it is at
/// least that element.
pub fn assert_quicksort_invariant(v: &Vec<usize>, mid: usize) -> (ok: bool)
    requires
        mid < v@.len(),
    ensures
        ok <==> partitioned_at(v@, 0, mid as int, v@.len() as int),
{
    let mut ok = true;
    let mut k: usize = 0;
    while k < mid
        invariant
            k <= mid < v@.len(),
            ok <==> forall|m: int| 0 <= m < k ==> v@[m] <= v@[mid as int],
        decreases mid - k,
    {
        if v[k] > v[mid] {
            ok = false;
        }
        k = k + 1;
    }
    let n = v.len();
    let mut k2: usize = mid + 1;
    let mut ok2 = true;
    while k2 < n
        invariant
            n == v@.len(),
            mid < v@.len(),
            mid < k2 <= v@.len(),
            ok2 <==> forall|m: int| mid < m < k2 ==> v@[m] >= v@[mid as int],
        decreases v@.len() - k2,
    {
        if v[k2] < v[mid] {
            ok2 = false;
        }
        k2 = k2 + 1;
    }
    ok && ok2
}

} // verus!
