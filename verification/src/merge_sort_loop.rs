//! Merge sort in two execution shapes. With a thread budget of two or more,
//! a region is split at its midpoint, both halves are fully sorted, and the
//! halves are merged in place — the shape whose halves a parallel driver may
//! hand to separate workers, since they are disjoint. With no thread budget
//! the same region is sorted bottom-up: one adjacent-swap pass makes every
//! two-element block sorted, then each pass merges neighbouring blocks in
//! place, doubling the block width until one block covers the region.

use vstd::prelude::*;
use vstd::seq_lib::lemma_multiset_commutative;
use crate::order::{
    sorted, sorted_between, permutes, rearranged_in, swap_items, lemma_swap_rearranges,
    lemma_rearranged_nested, lemma_rearranged_full,
};
use crate::merge_sort::{merge_in_place_track_start_range, merge_from_end};

verus! {

/// The first position of block `k` when blocks of width `bs` are laid out
/// from `lo`.
pub open spec fn block_start(lo: int, k: int, bs: int) -> int {
    lo + k * bs
}

/// Where the block starting at `b` ends: one block width on, or at the
/// region's end for the final short block.
pub open spec fn block_end(b: int, bs: int, hi: int) -> int {
    if b + bs < hi {
        b + bs
    } else {
        hi
    }
}

/// Every block of width `bs` within `[lo, hi)` is sorted.
pub open spec fn blocks_sorted(s: Seq<usize>, lo: int, hi: int, bs: int) -> bool {
    forall|k: int|
        0 <= k && #[trigger] block_start(lo, k, bs) < hi ==> sorted_between(
            s,
            block_start(lo, k, bs),
            block_end(block_start(lo, k, bs), bs, hi),
        )
}

/// One adjacent-swap pass over `[lo, hi)`, leaving every two-element block
/// sorted.
fn sort_pairs_pass(v: &mut Vec<usize>, lo: usize, hi: usize)
    requires
        lo <= hi,
        hi <= old(v)@.len(),
        hi <= usize::MAX - 2,
    ensures
        final(v)@.len() == old(v)@.len(),
        rearranged_in(old(v)@, final(v)@, lo as int, hi as int),
        blocks_sorted(final(v)@, lo as int, hi as int, 2),
{
    let ghost orig = v@;
    let mut i = lo;
    let ghost mut ki: int = 0;
    while i < hi
        invariant
            lo <= i <= hi + 1,
            hi <= v@.len(),
            hi <= usize::MAX - 2,
            v@.len() == orig.len(),
            ki >= 0,
            i == block_start(lo as int, ki, 2),
            rearranged_in(orig, v@, lo as int, hi as int),
            forall|k2: int|
                0 <= k2 < ki ==> sorted_between(
                    v@,
                    #[trigger] block_start(lo as int, k2, 2),
                    block_end(block_start(lo as int, k2, 2), 2, hi as int),
                ),
        decreases hi + 2 - i,
    {
        if i + 1 < hi {
            if v[i] > v[i + 1] {
                let ghost before = v@;
                swap_items(v, i, i + 1);
                proof {
                    lemma_swap_rearranges(before, v@, lo as int, hi as int, i as int, i + 1);
                    lemma_rearranged_nested(
                        orig,
                        before,
                        v@,
                        lo as int,
                        hi as int,
                        lo as int,
                        hi as int,
                    );
                    assert forall|k2: int| 0 <= k2 < ki implies sorted_between(
                        v@,
                        #[trigger] block_start(lo as int, k2, 2),
                        block_end(block_start(lo as int, k2, 2), 2, hi as int),
                    ) by {
                        assert(block_start(lo as int, k2, 2) + 2 <= i) by (nonlinear_arith)
                            requires
                                k2 < ki,
                                i == lo + ki * 2,
                                block_start(lo as int, k2, 2) == lo + k2 * 2,
                        ;
                    }
                }
            }
        }
        i = i + 2;
        proof {
            assert(i == block_start(lo as int, ki + 1, 2)) by (nonlinear_arith)
                requires
                    i == lo + ki * 2 + 2,
            ;
            ki = ki + 1;
        }
    }
    proof {
        assert forall|k2: int|
            0 <= k2 && #[trigger] block_start(lo as int, k2, 2) < hi implies sorted_between(
            v@,
            block_start(lo as int, k2, 2),
            block_end(block_start(lo as int, k2, 2), 2, hi as int),
        ) by {
            assert(k2 < ki) by (nonlinear_arith)
                requires
                    block_start(lo as int, k2, 2) == lo + k2 * 2,
                    block_start(lo as int, k2, 2) < hi,
                    i == lo + ki * 2,
                    i >= hi,
            ;
        }
    }
}

/// One merge pass: neighbouring sorted blocks of width `bs` are merged in
/// place into sorted blocks of width `2 * bs`.
fn merge_blocks_pass(v: &mut Vec<usize>, lo: usize, hi: usize, bs: usize)
    requires
        lo <= hi,
        hi <= old(v)@.len(),
        1 <= bs,
        bs <= usize::MAX / 4,
        hi <= usize::MAX / 4,
        blocks_sorted(old(v)@, lo as int, hi as int, bs as int),
    ensures
        final(v)@.len() == old(v)@.len(),
        rearranged_in(old(v)@, final(v)@, lo as int, hi as int),
        blocks_sorted(final(v)@, lo as int, hi as int, 2 * bs as int),
{
    let ghost orig = v@;
    let next = bs * 2;
    let mut i = lo;
    let ghost mut ki: int = 0;
    while hi > 0 && i < hi - 1
        invariant
            lo <= i <= hi + next,
            hi <= v@.len(),
            v@.len() == orig.len(),
            1 <= bs,
            bs <= usize::MAX / 4,
            hi <= usize::MAX / 4,
            next == 2 * bs,
            ki >= 0,
            i == block_start(lo as int, ki, next as int),
            rearranged_in(orig, v@, lo as int, hi as int),
            forall|k2: int|
                0 <= k2 < ki ==> sorted_between(
                    v@,
                    #[trigger] block_start(lo as int, k2, next as int),
                    block_end(block_start(lo as int, k2, next as int), next as int, hi as int),
                ),
            forall|k2: int|
                0 <= k2 && #[trigger] block_start(lo as int, k2, bs as int) >= i
                    && block_start(lo as int, k2, bs as int) < hi ==> sorted_between(
                    v@,
                    block_start(lo as int, k2, bs as int),
                    block_end(block_start(lo as int, k2, bs as int), bs as int, hi as int),
                ),
        decreases hi + next - i,
    {
        let end = if next < hi - i {
            i + next
        } else {
            hi
        };
        let m = if bs < end - i {
            i + bs
        } else {
            end
        };
        proof {
            assert(block_start(lo as int, 2 * ki, bs as int) == i) by (nonlinear_arith)
                requires
                    i == lo + ki * (next as int),
                    next == 2 * bs,
            ;
            assert(sorted_between(v@, i as int, m as int)) by {
                assert(block_end(i as int, bs as int, hi as int) >= m);
            }
            if m < end {
                assert(block_start(lo as int, 2 * ki + 1, bs as int) == i + bs)
                    by (nonlinear_arith)
                    requires
                        i == lo + ki * (next as int),
                        next == 2 * bs,
                ;
                assert(sorted_between(v@, m as int, end as int)) by {
                    assert(block_end(i + bs, bs as int, hi as int) >= end);
                }
            }
        }
        let ghost before = v@;
        merge_in_place_track_start_range(v, i, m, end);
        proof {
            lemma_rearranged_nested(orig, before, v@, lo as int, hi as int, i as int, end as int);
            assert forall|k2: int| 0 <= k2 < ki + 1 implies sorted_between(
                v@,
                #[trigger] block_start(lo as int, k2, next as int),
                block_end(block_start(lo as int, k2, next as int), next as int, hi as int),
            ) by {
                if k2 < ki {
                    assert(block_start(lo as int, k2, next as int) + next <= i)
                        by (nonlinear_arith)
                        requires
                            k2 < ki,
                            i == lo + ki * (next as int),
                            block_start(lo as int, k2, next as int) == lo + k2 * (next as int),
                            next >= 1,
                    ;
                } else {
                    assert(block_start(lo as int, k2, next as int) == i);
                    assert(block_end(i as int, next as int, hi as int) == end);
                }
            }
            assert forall|k2: int|
                0 <= k2 && #[trigger] block_start(lo as int, k2, bs as int) >= i + next
                    && block_start(lo as int, k2, bs as int) < hi implies sorted_between(
                v@,
                block_start(lo as int, k2, bs as int),
                block_end(block_start(lo as int, k2, bs as int), bs as int, hi as int),
            ) by {
                assert(before[block_start(lo as int, k2, bs as int)]
                    == v@[block_start(lo as int, k2, bs as int)]);
            }
        }
        i = i + next;
        proof {
            assert(i == block_start(lo as int, ki + 1, next as int)) by (nonlinear_arith)
                requires
                    i == lo + ki * (next as int) + next,
            ;
            ki = ki + 1;
        }
    }
    proof {
        assert forall|k2: int|
            0 <= k2 && #[trigger] block_start(lo as int, k2, next as int) < hi
            implies sorted_between(
            v@,
            block_start(lo as int, k2, next as int),
            block_end(block_start(lo as int, k2, next as int), next as int, hi as int),
        ) by {
            if k2 >= ki {
                assert(block_start(lo as int, k2, next as int) >= i) by (nonlinear_arith)
                    requires
                        k2 >= ki,
                        i == block_start(lo as int, ki, next as int),
                        block_start(lo as int, k2, next as int) == lo + k2 * (next as int),
                        i == lo + ki * (next as int),
                        next >= 2,
                ;
            }
        }
    }
}

/// Sort the region `[lo, hi)` bottom-up: a pair pass, then merge passes of
/// doubling width until one sorted block covers the region.
fn merge_sort_bottom_up_range(v: &mut Vec<usize>, lo: usize, hi: usize)
    requires
        lo <= hi,
        hi <= old(v)@.len(),
        hi <= usize::MAX / 4,
        hi - lo >= 3,
    ensures
        final(v)@.len() == old(v)@.len(),
        sorted_between(final(v)@, lo as int, hi as int),
        rearranged_in(old(v)@, final(v)@, lo as int, hi as int),
{
    let ghost orig = v@;
    let len = hi - lo;
    let mut subslice_len: usize = 2;
    while subslice_len < len
        invariant
            lo <= hi <= v@.len(),
            hi <= usize::MAX / 4,
            v@.len() == orig.len(),
            len == hi - lo,
            len >= 3,
            2 <= subslice_len,
            rearranged_in(orig, v@, lo as int, hi as int),
            subslice_len > 2 ==> blocks_sorted(v@, lo as int, hi as int, subslice_len as int),
        decreases 2 * (len as int) - subslice_len,
    {
        if subslice_len == 2 {
            let ghost before = v@;
            sort_pairs_pass(v, lo, hi);
            proof {
                lemma_rearranged_nested(
                    orig,
                    before,
                    v@,
                    lo as int,
                    hi as int,
                    lo as int,
                    hi as int,
                );
            }
        }
        let ghost before = v@;
        merge_blocks_pass(v, lo, hi, subslice_len);
        proof {
            lemma_rearranged_nested(orig, before, v@, lo as int, hi as int, lo as int, hi as int);
        }
        subslice_len = subslice_len * 2;
    }
    proof {
        assert(block_start(lo as int, 0, subslice_len as int) == lo) by (nonlinear_arith);
        assert(sorted_between(
            v@,
            lo as int,
            block_end(lo as int, subslice_len as int, hi as int),
        ));
        assert(block_end(lo as int, subslice_len as int, hi as int) == hi);
    }
}

/// Sort the region `[lo, hi)`: with a thread budget of at least two, split
/// at the midpoint, sort both halves in full, and merge them in place; with
/// a smaller budget, sort the region bottom-up. `min_split_size` is carried
/// for policy experiments and does not change the result.
pub fn merge_sort_loop_range(
    v: &mut Vec<usize>,
    lo: usize,
    hi: usize,
    min_split_size: u8,
    max_threads: u8,
)
    requires
        lo <= hi,
        hi <= old(v)@.len(),
        hi <= usize::MAX / 4,
    ensures
        final(v)@.len() == old(v)@.len(),
        sorted_between(final(v)@, lo as int, hi as int),
        rearranged_in(old(v)@, final(v)@, lo as int, hi as int),
    decreases hi - lo,
{
    let ghost orig = v@;
    if hi - lo <= 1 {
        return ;
    }
    if hi - lo == 2 {
        if v[lo] > v[lo + 1] {
            let ghost before = v@;
            swap_items(v, lo, lo + 1);
            proof {
                lemma_swap_rearranges(before, v@, lo as int, hi as int, lo as int, lo + 1);
            }
        }
        return ;
    }
    if max_threads >= 2 {
        let mid = lo + (hi - lo) / 2;
        merge_sort_loop_range(v, lo, mid, min_split_size, max_threads / 2);
        let ghost after_left = v@;
        merge_sort_loop_range(v, mid, hi, min_split_size, max_threads / 2);
        let ghost after_right = v@;
        proof {
            lemma_rearranged_nested(
                orig,
                orig,
                after_left,
                lo as int,
                hi as int,
                lo as int,
                mid as int,
            );
            lemma_rearranged_nested(
                orig,
                after_left,
                after_right,
                lo as int,
                hi as int,
                mid as int,
                hi as int,
            );
            assert(sorted_between(after_right, lo as int, mid as int)) by {
                assert(forall|k: int| lo <= k < mid ==> after_right[k] == after_left[k]);
            }
        }
        merge_in_place_track_start_range(v, lo, mid, hi);
        proof {
            lemma_rearranged_nested(
                orig,
                after_right,
                v@,
                lo as int,
                hi as int,
                lo as int,
                hi as int,
            );
        }
    } else {
        merge_sort_bottom_up_range(v, lo, hi);
    }
}

/// Sort the whole vector with the loop-or-split merge sort.
pub fn merge_sort_loop(v: &mut Vec<usize>, min_split_size: u8, max_threads: u8)
    requires
        old(v)@.len() <= usize::MAX / 4,
    ensures
        final(v)@.len() == old(v)@.len(),
        sorted(final(v)@),
        permutes(old(v)@, final(v)@),
{
    let hi = v.len();
    merge_sort_loop_range(v, 0, hi, min_split_size, max_threads);
    proof {
        lemma_rearranged_full(old(v)@, v@);
    }
}

/// The vector-splitting form: with a thread budget, the upper half is split
/// off into its own vector — the shape a parallel driver hands to a second
/// worker — and the sorted halves are merged from their ends; without one,
/// the vector is sorted bottom-up in place.
pub fn merge_sort_loop_vec(v: &mut Vec<usize>, min_split_size: u8, max_threads: u8)
    requires
        old(v)@.len() <= usize::MAX / 4,
    ensures
        final(v)@.len() == old(v)@.len(),
        sorted(final(v)@),
        permutes(old(v)@, final(v)@),
{
    let ghost orig = v@;
    let v_len = v.len();
    if v_len <= 1 {
        return ;
    }
    if v_len == 2 {
        if v[0] > v[1] {
            let ghost before = v@;
            swap_items(v, 0, 1);
            proof {
                lemma_swap_rearranges(before, v@, 0, 2, 0, 1);
                lemma_rearranged_full(before, v@);
            }
        }
        return ;
    }
    if max_threads >= 2 {
        let mid = v_len / 2;
        let mut hi_part = v.split_off(mid);
        proof {
            assert(orig =~= v@ + hi_part@);
            lemma_multiset_commutative(v@, hi_part@);
        }
        merge_sort_loop(v, min_split_size, max_threads / 2);
        merge_sort_loop(&mut hi_part, min_split_size, max_threads / 2);
        let merged = merge_from_end(v, &mut hi_part);
        *v = merged;
    } else {
        let hi = v.len();
        merge_sort_bottom_up_range(v, 0, hi);
        proof {
            lemma_rearranged_full(orig, v@);
        }
    }
}

} // verus!
