//! The adaptive quicksort that drives the call-trace recorder. Each unit of
//! work covers one region of the shared buffer, described by its bounds
//! within the original call; after partitioning, the larger side is handled
//! first and is the side eligible for its own worker under the threshold
//! policy. Every unit opens a trace record on entry and closes it on exit,
//! so the recorded tree mirrors the recursion exactly; recording can be
//! switched off without changing what is sorted.

use vstd::prelude::*;
use crate::order::{
    sorted, sorted_between, permutes, rearranged_in, swap_items, lemma_swap_rearranges,
    lemma_rearranged_nested, lemma_rearranged_full, lemma_rearranged_keeps_upper_bound,
    lemma_rearranged_keeps_lower_bound,
};
use crate::bubble_sort::bubble_sort_range;
use crate::quicksort_safe::{partition_range, quicksort_rnd_3_range};
use crate::counter::{Counter, SliceCounterItem, parent_ok};
use crate::rng::random_index_below;

verus! {

/// Above this region size, the pivot is the median of three randomly
/// sampled elements.
pub const SAMPLING_LIMIT: usize = 15;

/// Sort the region `[lo, hi)`, recording one trace record for this unit of
/// work and one for each recursive unit under it. The larger side of each
/// split is processed first and is marked as a new thread when its length
/// reaches `thread_min_size`; regions of at most `crossover_point` elements
/// go to the fallback sort and spawn nothing.
pub fn quicksort_parallel_ptr_internal(
    v: &mut Vec<usize>,
    lo: usize,
    hi: usize,
    thread_min_size: usize,
    counter: &mut Counter<SliceCounterItem>,
    counter_parent_index: Option<usize>,
    is_new_thread: bool,
    record: bool,
    crossover_point: usize,
)
    requires
        lo <= hi,
        hi <= old(v)@.len(),
        old(counter).wf(),
        parent_ok(counter_parent_index, old(counter).items@.len() as int),
        old(counter).items@.len() + 2 * (hi - lo) + 1 <= usize::MAX,
    ensures
        final(v)@.len() == old(v)@.len(),
        sorted_between(final(v)@, lo as int, hi as int),
        rearranged_in(old(v)@, final(v)@, lo as int, hi as int),
        final(counter).wf(),
        !record ==> *final(counter) == *old(counter),
        record ==> final(counter).items@.len() > old(counter).items@.len(),
        record ==> final(counter).items@.len() <= old(counter).items@.len() + 2 * (hi - lo) + 1,
        record ==> forall|i: int|
            0 <= i < old(counter).items@.len() ==> final(counter).items@[i] == old(
                counter,
            ).items@[i],
        record ==> {
            let me = final(counter).items@[old(counter).items@.len() as int];
            &&& me.size == hi - lo
            &&& me.parent_index == counter_parent_index
            &&& me.is_new_thread == is_new_thread
            &&& me.end is Some
        },
        record ==> forall|i: int|
            old(counter).items@.len() <= i < final(counter).items@.len()
                ==> (#[trigger] final(counter).items@[i]).end is Some
                && (i > old(counter).items@.len()
                ==> final(counter).items@[i].parent_index is Some),
        record && hi - lo <= crossover_point ==> final(counter).items@.len() == old(
            counter,
        ).items@.len() + 1,
    decreases hi - lo,
{
    let ghost orig = v@;
    let mut counter_index: usize = 0;
    if record {
        let method = if hi - lo <= crossover_point {
            "bubble sort"
        } else {
            "quicksort"
        };
        counter_index = counter.start(
            hi - lo,
            Some(SliceCounterItem { start_index: lo, end_index: hi, method: Some(method) }),
            is_new_thread,
            counter_parent_index,
        );
    }
    if hi - lo <= crossover_point {
        bubble_sort_range(v, lo, hi);
        if record {
            counter.end(counter_index);
        }
        return ;
    }
    if hi - lo > SAMPLING_LIMIT {
        let i1 = lo + random_index_below(hi - lo);
        let i2 = lo + random_index_below(hi - lo);
        let i3 = lo + random_index_below(hi - lo);
        let partition_index = if v[i1] < v[i2] {
            if v[i1] < v[i3] {
                if v[i2] < v[i3] {
                    i2
                } else {
                    i3
                }
            } else {
                i1
            }
        } else {
            if v[i2] < v[i3] {
                if v[i1] < v[i3] {
                    i1
                } else {
                    i3
                }
            } else {
                i2
            }
        };
        if partition_index != lo {
            let ghost before = v@;
            swap_items(v, lo, partition_index);
            proof {
                lemma_swap_rearranges(
                    before,
                    v@,
                    lo as int,
                    hi as int,
                    lo as int,
                    partition_index as int,
                );
            }
        }
    }
    let ghost sampled = v@;
    let mid = partition_range(v, lo, hi);
    let ghost after_part = v@;
    let ghost pv = v@[mid as int];
    proof {
        lemma_rearranged_nested(
            orig,
            sampled,
            after_part,
            lo as int,
            hi as int,
            lo as int,
            hi as int,
        );
    }
    let left_len = mid - lo;
    let right_lo = mid + 1;
    let right_len = hi - right_lo;

    // The larger side comes first: it is the one that may earn a worker.
    let larger_is_left = left_len >= right_len;
    let (a_lo, a_hi) = if larger_is_left {
        (lo, mid)
    } else {
        (right_lo, hi)
    };
    let (b_lo, b_hi) = if larger_is_left {
        (right_lo, hi)
    } else {
        (lo, mid)
    };
    let a_new_thread = a_hi - a_lo >= thread_min_size;
    let child_parent = if record {
        Some(counter_index)
    } else {
        None
    };
    quicksort_parallel_ptr_internal(
        v,
        a_lo,
        a_hi,
        thread_min_size,
        counter,
        child_parent,
        a_new_thread,
        record,
        crossover_point,
    );
    let ghost after_a = v@;
    proof {
        if larger_is_left {
            lemma_rearranged_keeps_upper_bound(after_part, after_a, lo as int, mid as int, pv);
        } else {
            lemma_rearranged_keeps_lower_bound(after_part, after_a, mid + 1, hi as int, pv);
        }
        lemma_rearranged_nested(
            orig,
            after_part,
            after_a,
            lo as int,
            hi as int,
            a_lo as int,
            a_hi as int,
        );
    }
    if b_hi - b_lo > 0 {
        quicksort_parallel_ptr_internal(
            v,
            b_lo,
            b_hi,
            thread_min_size,
            counter,
            child_parent,
            false,
            record,
            crossover_point,
        );
    }
    proof {
        if larger_is_left {
            lemma_rearranged_keeps_lower_bound(after_a, v@, mid + 1, hi as int, pv);
        } else {
            lemma_rearranged_keeps_upper_bound(after_a, v@, lo as int, mid as int, pv);
        }
        lemma_rearranged_nested(orig, after_a, v@, lo as int, hi as int, b_lo as int, b_hi as int);
        assert(v@[mid as int] == pv);
        assert forall|a: int, b: int| lo <= a <= b < hi implies v@[a] <= v@[b] by {
            if a < mid && b >= mid {
                assert(v@[a] <= pv);
                assert(v@[b] >= pv);
            }
        }
    }
    if record {
        counter.end(counter_index);
    }
}

/// Sort the whole vector with the adaptive quicksort, optionally recording
/// the call trace. When tracing is on, the returned arena holds one record
/// per unit of work, rooted at a record covering the whole array; an input
/// at or below the fallback crossover yields exactly that one record.
/// Tracing has no effect on the sorted result.
pub fn quicksort_parallel_ptr(
    v: &mut Vec<usize>,
    thread_min_size: usize,
    fill_counter: bool,
    crossover_point: usize,
) -> (counter: Option<Counter<SliceCounterItem>>)
    requires
        old(v)@.len() < usize::MAX / 2,
    ensures
        final(v)@.len() == old(v)@.len(),
        sorted(final(v)@),
        permutes(old(v)@, final(v)@),
        counter is Some <==> fill_counter,
        fill_counter ==> {
            let c = counter.unwrap();
            &&& c.wf()
            &&& c.items@.len() >= 1
            &&& c.items@.len() <= 2 * old(v)@.len() + 1
            &&& c.items@[0].size == old(v)@.len()
            &&& c.items@[0].parent_index is None
            &&& c.items@[0].is_new_thread == false
            &&& c.items@[0].end is Some
            &&& (forall|i: int| 0 <= i < c.items@.len() ==> (#[trigger] c.items@[i]).end is Some)
            &&& (forall|i: int| 0 < i < c.items@.len() ==> (#[trigger] c.items@[i]).parent_index
                is Some)
            &&& (old(v)@.len() <= crossover_point ==> c.items@.len() == 1)
        },
{
    let hi = v.len();
    let mut trace: Counter<SliceCounterItem> = Counter::new();
    quicksort_parallel_ptr_internal(
        v,
        0,
        hi,
        thread_min_size,
        &mut trace,
        None,
        false,
        fill_counter,
        crossover_point,
    );
    proof {
        lemma_rearranged_full(old(v)@, v@);
    }
    if fill_counter {
        Some(trace)
    } else {
        None
    }
}

/// Quicksort with randomized median-of-three pivot sampling on regions
/// larger than `limit`, with no fallback crossover: recursion runs all the
/// way down to one-element regions.
pub fn quicksort_rnd_3_ptr_with_limit(v: &mut Vec<usize>, limit: usize)
    ensures
        final(v)@.len() == old(v)@.len(),
        sorted(final(v)@),
        permutes(old(v)@, final(v)@),
{
    let hi = v.len();
    quicksort_rnd_3_range(v, 0, hi, limit, 0);
    proof {
        lemma_rearranged_full(old(v)@, v@);
    }
}

} // verus!
