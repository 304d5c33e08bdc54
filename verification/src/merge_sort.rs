//! Merge sorts and their mergers. The allocating mergers consume two sorted
//! vectors and produce a fresh one; the in-place mergers fold the sorted
//! second half of one region into the first by binary-search insertion and a
//! one-place rotation, in constant extra space. The `track_start` and
//! pointer-style variants keep a moving search floor so each binary search
//! skips the part of the prefix that can no longer receive an element.

use vstd::prelude::*;
use vstd::seq_lib::lemma_multiset_commutative;
use vstd::seq_lib::to_multiset_build;
use vstd::seq_lib::to_multiset_remove;
use vstd::seq_lib::to_multiset_contains;
use crate::order::{
    sorted, sorted_between, sorted_desc, permutes, rearranged_in, swap_items,
    lemma_swap_rearranges, lemma_rearranged_nested, lemma_rearranged_full,
    lemma_rotation_rearranges, lemma_empty_to_multiset, lemma_sorted_concat,
    lemma_sorted_desc_concat,
};
use crate::search::binary_search_insert_point;
use crate::bubble_sort::{bubble_sort, bubble_sort_range};

verus! {

/// Reverse the vector in place by exchanging ends.
pub fn reverse_vec(v: &mut Vec<usize>)
    ensures
        final(v)@.len() == old(v)@.len(),
        final(v)@ == old(v)@.reverse(),
{
    let ghost pre = v@;
    let len = v.len();
    let mut i: usize = 0;
    while i < len / 2
        invariant
            v@.len() == pre.len(),
            pre.len() == len,
            i <= len / 2,
            forall|m: int| 0 <= m < i ==> v@[m] == pre[len - 1 - m],
            forall|m: int| len - i <= m < len ==> v@[m] == pre[len - 1 - m],
            forall|m: int| i <= m < len - i ==> v@[m] == pre[m],
        decreases len - i,
    {
        swap_items(v, i, len - 1 - i);
        i = i + 1;
    }
    proof {
        assert(v@ =~= pre.reverse());
    }
}

/// Rotate the region `[ins, next]` right by one place with adjacent swaps,
/// so the element at `next` lands at `ins`.
fn rotate_right_one(v: &mut Vec<usize>, ins: usize, next: usize)
    requires
        ins <= next < old(v)@.len(),
    ensures
        final(v)@.len() == old(v)@.len(),
        final(v)@[ins as int] == old(v)@[next as int],
        forall|m: int| ins < m <= next ==> final(v)@[m] == old(v)@[m - 1],
        forall|m: int|
            0 <= m < old(v)@.len() && !(ins <= m <= next) ==> final(v)@[m] == old(v)@[m],
        rearranged_in(old(v)@, final(v)@, ins as int, next + 1),
{
    let ghost pre = v@;
    let mut k = next;
    while k > ins
        invariant
            ins <= k <= next < v@.len(),
            v@.len() == pre.len(),
            v@[k as int] == pre[next as int],
            forall|m: int| 0 <= m < k ==> v@[m] == pre[m],
            forall|m: int| k < m <= next ==> v@[m] == pre[m - 1],
            forall|m: int| next < m < v@.len() ==> v@[m] == pre[m],
        decreases k,
    {
        swap_items(v, k - 1, k);
        k = k - 1;
    }
    proof {
        lemma_rotation_rearranges(pre, v@, ins as int, next as int);
    }
}

/// Merge the sorted region `[mid, hi)` into the region before it by walking
/// it left to right and inserting each element into the settled sorted
/// prefix, which starts as `[lo, mid)`. Only the prefix has to be sorted:
/// each element is placed by a binary search over the whole settled prefix.
pub fn merge_in_place_range(v: &mut Vec<usize>, lo: usize, mid: usize, hi: usize)
    requires
        lo <= mid <= hi <= old(v)@.len(),
        sorted_between(old(v)@, lo as int, mid as int),
    ensures
        final(v)@.len() == old(v)@.len(),
        sorted_between(final(v)@, lo as int, hi as int),
        rearranged_in(old(v)@, final(v)@, lo as int, hi as int),
{
    let ghost orig = v@;
    let mut next = mid;
    while next < hi
        invariant
            lo <= mid <= next <= hi <= v@.len(),
            v@.len() == orig.len(),
            rearranged_in(orig, v@, lo as int, hi as int),
            sorted_between(v@, lo as int, next as int),
        decreases hi - next,
    {
        let x = v[next];
        let ins = binary_search_insert_point(v, lo, next, x);
        if ins < next {
            let ghost pre = v@;
            rotate_right_one(v, ins, next);
            proof {
                lemma_rearranged_nested(
                    orig,
                    pre,
                    v@,
                    lo as int,
                    hi as int,
                    ins as int,
                    next as int + 1,
                );
                assert forall|a: int, b: int|
                    lo <= a <= b <= next implies v@[a] <= v@[b] by {
                    if a < ins {
                        assert(v@[a] == pre[a]);
                    } else if a > ins {
                        assert(v@[a] == pre[a - 1]);
                    }
                    if b < ins {
                        assert(v@[b] == pre[b]);
                    } else if b > ins {
                        assert(v@[b] == pre[b - 1]);
                    }
                }
            }
        }
        next = next + 1;
    }
}

/// Merge the sorted halves `[0, mid)` and `[mid, len)` of `v` in place.
pub fn merge_in_place(v: &mut Vec<usize>, mid: usize)
    requires
        mid <= old(v)@.len(),
        sorted_between(old(v)@, 0, mid as int),
    ensures
        final(v)@.len() == old(v)@.len(),
        sorted(final(v)@),
        permutes(old(v)@, final(v)@),
{
    let hi = v.len();
    merge_in_place_range(v, 0, mid, hi);
    proof {
        lemma_rearranged_full(old(v)@, v@);
    }
}

/// In-place merge of the sorted regions `[lo, mid)` and `[mid, hi)` that
/// tracks a moving search floor: because the incoming elements arrive in
/// order, each binary search may start where the previous insertion ended
/// instead of rescanning the whole settled prefix.
pub fn merge_in_place_track_start_range(v: &mut Vec<usize>, lo: usize, mid: usize, hi: usize)
    requires
        lo <= mid <= hi <= old(v)@.len(),
        sorted_between(old(v)@, lo as int, mid as int),
        sorted_between(old(v)@, mid as int, hi as int),
    ensures
        final(v)@.len() == old(v)@.len(),
        sorted_between(final(v)@, lo as int, hi as int),
        rearranged_in(old(v)@, final(v)@, lo as int, hi as int),
{
    let ghost orig = v@;
    let mut next = mid;
    let mut search_start = lo;
    while next < hi
        invariant
            lo <= mid <= next <= hi <= v@.len(),
            lo <= search_start <= next,
            v@.len() == orig.len(),
            rearranged_in(orig, v@, lo as int, hi as int),
            sorted_between(v@, lo as int, next as int),
            sorted_between(v@, next as int, hi as int),
            forall|k: int, m: int|
                lo <= k < search_start && next <= m < hi ==> v@[k] <= v@[m],
        decreases hi - next,
    {
        let x = v[next];
        let ins = binary_search_insert_point(v, search_start, next, x);
        if ins < next {
            let ghost pre = v@;
            rotate_right_one(v, ins, next);
            proof {
                lemma_rearranged_nested(
                    orig,
                    pre,
                    v@,
                    lo as int,
                    hi as int,
                    ins as int,
                    next as int + 1,
                );
                assert forall|a: int, b: int|
                    lo <= a <= b <= next implies v@[a] <= v@[b] by {
                    if a < ins {
                        assert(v@[a] == pre[a]);
                        assert(pre[a] <= x) by {
                            if a < search_start {
                                assert(pre[a] <= pre[next as int]);
                            }
                        }
                    } else if a > ins {
                        assert(v@[a] == pre[a - 1]);
                    }
                    if b < ins {
                        assert(v@[b] == pre[b]);
                        assert(pre[b] <= x) by {
                            if b < search_start {
                                assert(pre[b] <= pre[next as int]);
                            }
                        }
                    } else if b > ins {
                        assert(v@[b] == pre[b - 1]);
                    }
                }
                assert forall|k: int, m: int|
                    lo <= k < ins + 1 && next + 1 <= m < hi implies v@[k] <= v@[m] by {
                    assert(v@[m] == pre[m]);
                    assert(pre[next as int] <= pre[m]);
                    if k < ins {
                        assert(v@[k] == pre[k]);
                        if k < search_start {
                            assert(pre[k] <= pre[m]);
                        }
                    } else {
                        assert(v@[k] == x);
                    }
                }
            }
        } else {
            proof {
                assert forall|k: int, m: int|
                    lo <= k < ins + 1 && next + 1 <= m < hi implies v@[k] <= v@[m] by {
                    assert(v@[next as int] <= v@[m]);
                    if k < search_start {
                        assert(v@[k] <= v@[m]);
                    } else if k < next {
                        assert(v@[k] <= x);
                    }
                }
            }
        }
        search_start = ins + 1;
        next = next + 1;
    }
}

/// In-place merge of the sorted halves of `v` with the moving search floor.
pub fn merge_in_place_track_start(v: &mut Vec<usize>, mid: usize)
    requires
        mid <= old(v)@.len(),
        sorted_between(old(v)@, 0, mid as int),
        sorted_between(old(v)@, mid as int, old(v)@.len() as int),
    ensures
        final(v)@.len() == old(v)@.len(),
        sorted(final(v)@),
        permutes(old(v)@, final(v)@),
{
    let hi = v.len();
    merge_in_place_track_start_range(v, 0, mid, hi);
    proof {
        lemma_rearranged_full(old(v)@, v@);
    }
}

/// In-place merge of the sorted halves of `v`, shifting the displaced span
/// with a forward block copy instead of adjacent swaps. Semantically it
/// matches `merge_in_place_track_start`; only the data movement differs.
pub fn merge_pointers(v: &mut Vec<usize>, mid: usize)
    requires
        mid <= old(v)@.len(),
        sorted_between(old(v)@, 0, mid as int),
        sorted_between(old(v)@, mid as int, old(v)@.len() as int),
    ensures
        final(v)@.len() == old(v)@.len(),
        sorted(final(v)@),
        permutes(old(v)@, final(v)@),
{
    let ghost orig = v@;
    let hi = v.len();
    let lo: usize = 0;
    let mut next = mid;
    let mut search_start = lo;
    while next < hi
        invariant
            lo <= mid <= next <= hi <= v@.len(),
            hi == v@.len(),
            lo <= search_start <= next,
            v@.len() == orig.len(),
            rearranged_in(orig, v@, lo as int, hi as int),
            sorted_between(v@, lo as int, next as int),
            sorted_between(v@, next as int, hi as int),
            forall|k: int, m: int|
                lo <= k < search_start && next <= m < hi ==> v@[k] <= v@[m],
        decreases hi - next,
    {
        let x = v[next];
        let ins = binary_search_insert_point(v, search_start, next, x);
        if ins < next {
            let ghost pre = v@;
            let mut k = next;
            while k > ins
                invariant
                    ins <= k <= next < v@.len(),
                    v@.len() == pre.len(),
                    forall|m: int| 0 <= m <= k ==> v@[m] == pre[m],
                    forall|m: int| k < m <= next ==> v@[m] == pre[m - 1],
                    forall|m: int| next < m < v@.len() ==> v@[m] == pre[m],
                decreases k,
            {
                let moved = v[k - 1];
                v[k] = moved;
                k = k - 1;
            }
            v[ins] = x;
            proof {
                lemma_rotation_rearranges(pre, v@, ins as int, next as int);
                lemma_rearranged_nested(
                    orig,
                    pre,
                    v@,
                    lo as int,
                    hi as int,
                    ins as int,
                    next as int + 1,
                );
                assert forall|a: int, b: int|
                    lo <= a <= b <= next implies v@[a] <= v@[b] by {
                    if a < ins {
                        assert(v@[a] == pre[a]);
                        assert(pre[a] <= x) by {
                            if a < search_start {
                                assert(pre[a] <= pre[next as int]);
                            }
                        }
                    } else if a > ins {
                        assert(v@[a] == pre[a - 1]);
                    }
                    if b < ins {
                        assert(v@[b] == pre[b]);
                        assert(pre[b] <= x) by {
                            if b < search_start {
                                assert(pre[b] <= pre[next as int]);
                            }
                        }
                    } else if b > ins {
                        assert(v@[b] == pre[b - 1]);
                    }
                }
                assert forall|k2: int, m: int|
                    lo <= k2 < ins + 1 && next + 1 <= m < hi implies v@[k2] <= v@[m] by {
                    assert(v@[m] == pre[m]);
                    assert(pre[next as int] <= pre[m]);
                    if k2 < ins {
                        assert(v@[k2] == pre[k2]);
                        if k2 < search_start {
                            assert(pre[k2] <= pre[m]);
                        }
                    } else {
                        assert(v@[k2] == x);
                    }
                }
            }
        } else {
            proof {
                assert forall|k2: int, m: int|
                    lo <= k2 < ins + 1 && next + 1 <= m < hi implies v@[k2] <= v@[m] by {
                    assert(v@[next as int] <= v@[m]);
                    if k2 < search_start {
                        assert(v@[k2] <= v@[m]);
                    } else if k2 < next {
                        assert(v@[k2] <= x);
                    }
                }
            }
        }
        search_start = ins + 1;
        next = next + 1;
    }
    proof {
        lemma_rearranged_full(old(v)@, v@);
    }
}

/// Appending an element at least as large as everything present keeps a
/// sequence sorted.
proof fn lemma_sorted_push(s: Seq<usize>, x: usize)
    requires
        sorted(s),
        forall|k: int| 0 <= k < s.len() ==> s[k] <= x,
    ensures
        sorted(s.push(x)),
{
    assert forall|i: int, j: int|
        0 <= i <= j < s.push(x).len() implies s.push(x)[i] <= s.push(x)[j] by {
        if j < s.len() {
            assert(s.push(x)[i] == s[i]);
            assert(s.push(x)[j] == s[j]);
        } else if i < s.len() {
            assert(s.push(x)[i] == s[i]);
        }
    }
}

/// Appending an element no larger than everything present keeps a sequence
/// sorted in reverse.
proof fn lemma_sorted_desc_push(s: Seq<usize>, x: usize)
    requires
        sorted_desc(s),
        forall|k: int| 0 <= k < s.len() ==> s[k] >= x,
    ensures
        sorted_desc(s.push(x)),
{
    assert forall|i: int, j: int|
        0 <= i <= j < s.push(x).len() implies s.push(x)[i] >= s.push(x)[j] by {
        if j < s.len() {
            assert(s.push(x)[i] == s[i]);
            assert(s.push(x)[j] == s[j]);
        } else if i < s.len() {
            assert(s.push(x)[i] == s[i]);
        }
    }
}

/// Merge two sorted vectors into one sorted vector, draining both. The next
/// candidate of each side is held aside, the smaller one is moved into the
/// result, and when one side runs dry the two candidates and the whole other
/// side are moved over in one step.
pub fn merge(v1: &mut Vec<usize>, v2: &mut Vec<usize>) -> (r: Vec<usize>)
    requires
        old(v1)@.len() > 0,
        old(v2)@.len() > 0,
        old(v1)@.len() + old(v2)@.len() <= usize::MAX,
        sorted(old(v1)@),
        sorted(old(v2)@),
    ensures
        r@.len() == old(v1)@.len() + old(v2)@.len(),
        sorted(r@),
        r@.to_multiset() == old(v1)@.to_multiset().add(old(v2)@.to_multiset()),
        final(v1)@.len() == 0,
        final(v2)@.len() == 0,
{
    broadcast use vstd::multiset::group_multiset_axioms;

    let ghost o1 = v1@;
    let ghost o2 = v2@;
    let cap = v1.len() + v2.len();
    let mut r: Vec<usize> = Vec::with_capacity(cap);
    let mut v1_next = v1.remove(0);
    let mut v2_next = v2.remove(0);
    proof {
        lemma_empty_to_multiset(r@);
        to_multiset_remove(o1, 0);
        to_multiset_remove(o2, 0);
        to_multiset_contains(o1, o1[0]);
        to_multiset_contains(o2, o2[0]);
        assert(r@.to_multiset().add(v1@.to_multiset()).add(v2@.to_multiset()).insert(
            v1_next,
        ).insert(v2_next) =~= o1.to_multiset().add(o2.to_multiset()));
    }
    loop
        invariant
            o1 == old(v1)@,
            o2 == old(v2)@,
            sorted(v1@),
            sorted(v2@),
            sorted(r@),
            forall|k: int| 0 <= k < v1@.len() ==> v1_next <= v1@[k],
            forall|k: int| 0 <= k < v2@.len() ==> v2_next <= v2@[k],
            forall|k: int| 0 <= k < r@.len() ==> r@[k] <= v1_next,
            forall|k: int| 0 <= k < r@.len() ==> r@[k] <= v2_next,
            r@.to_multiset().add(v1@.to_multiset()).add(v2@.to_multiset()).insert(
                v1_next,
            ).insert(v2_next) == o1.to_multiset().add(o2.to_multiset()),
            r@.len() + v1@.len() + v2@.len() + 2 == o1.len() + o2.len(),
            o1.len() + o2.len() <= usize::MAX,
        decreases v1@.len() + v2@.len(),
    {
        if v1_next < v2_next {
            if v1.len() > 0 {
                let ghost rb = r@;
                let ghost v1b = v1@;
                let ghost n1 = v1_next;
                r.push(v1_next);
                v1_next = v1.remove(0);
                proof {
                    to_multiset_build(rb, n1);
                    to_multiset_remove(v1b, 0);
                    to_multiset_contains(v1b, v1b[0]);
                    lemma_sorted_push(rb, n1);
                    assert(r@.to_multiset().add(v1@.to_multiset()).add(v2@.to_multiset()).insert(
                        v1_next,
                    ).insert(v2_next) =~= o1.to_multiset().add(o2.to_multiset()));
                }
            } else {
                let ghost rb = r@;
                let ghost n1 = v1_next;
                let ghost n2 = v2_next;
                r.push(v1_next);
                r.push(v2_next);
                let ghost r2 = r@;
                let ghost v2b = v2@;
                r.append(v2);
                proof {
                    to_multiset_build(rb, n1);
                    to_multiset_build(rb.push(n1), n2);
                    lemma_sorted_push(rb, n1);
                    lemma_sorted_push(rb.push(n1), n2);
                    assert forall|i: int, j: int|
                        0 <= i < r2.len() && 0 <= j < v2b.len() implies r2[i] <= v2b[j] by {
                        if i < rb.len() {
                            assert(r2[i] == rb[i]);
                        } else if i == rb.len() {
                            assert(r2[i] == n1);
                        } else {
                            assert(r2[i] == n2);
                        }
                        assert(n2 <= v2b[j]);
                    }
                    lemma_sorted_concat(r2, v2b);
                    lemma_multiset_commutative(r2, v2b);
                    lemma_empty_to_multiset(v1@);
                    assert(r@.to_multiset() =~= o1.to_multiset().add(o2.to_multiset()));
                }
                return r;
            }
        } else {
            if v2.len() > 0 {
                let ghost rb = r@;
                let ghost v2b = v2@;
                let ghost n2 = v2_next;
                r.push(v2_next);
                v2_next = v2.remove(0);
                proof {
                    to_multiset_build(rb, n2);
                    to_multiset_remove(v2b, 0);
                    to_multiset_contains(v2b, v2b[0]);
                    lemma_sorted_push(rb, n2);
                    assert(r@.to_multiset().add(v1@.to_multiset()).add(v2@.to_multiset()).insert(
                        v1_next,
                    ).insert(v2_next) =~= o1.to_multiset().add(o2.to_multiset()));
                }
            } else {
                let ghost rb = r@;
                let ghost n1 = v1_next;
                let ghost n2 = v2_next;
                r.push(v2_next);
                r.push(v1_next);
                let ghost r2 = r@;
                let ghost v1b = v1@;
                r.append(v1);
                proof {
                    to_multiset_build(rb, n2);
                    to_multiset_build(rb.push(n2), n1);
                    lemma_sorted_push(rb, n2);
                    lemma_sorted_push(rb.push(n2), n1);
                    assert forall|i: int, j: int|
                        0 <= i < r2.len() && 0 <= j < v1b.len() implies r2[i] <= v1b[j] by {
                        if i < rb.len() {
                            assert(r2[i] == rb[i]);
                        } else if i == rb.len() {
                            assert(r2[i] == n2);
                        } else {
                            assert(r2[i] == n1);
                        }
                        assert(n1 <= v1b[j]);
                    }
                    lemma_sorted_concat(r2, v1b);
                    lemma_multiset_commutative(r2, v1b);
                    lemma_empty_to_multiset(v2@);
                    assert(r@.to_multiset() =~= o1.to_multiset().add(o2.to_multiset()));
                }
                return r;
            }
        }
    }
}

/// Merge two sorted vectors by popping from their ends: the result is built
/// largest-first and reversed once at the end, so every element move is a
/// cheap pop or push.
pub fn merge_from_end(v1: &mut Vec<usize>, v2: &mut Vec<usize>) -> (r: Vec<usize>)
    requires
        old(v1)@.len() > 0,
        old(v2)@.len() > 0,
        old(v1)@.len() + old(v2)@.len() <= usize::MAX,
        sorted(old(v1)@),
        sorted(old(v2)@),
    ensures
        r@.len() == old(v1)@.len() + old(v2)@.len(),
        sorted(r@),
        r@.to_multiset() == old(v1)@.to_multiset().add(old(v2)@.to_multiset()),
        final(v1)@.len() == 0,
        final(v2)@.len() == 0,
{
    let mut r = merge_forward(v1, v2);
    let ghost rall = r@;
    reverse_vec(&mut r);
    proof {
        rall.lemma_reverse_to_multiset();
        assert forall|i: int, j: int| 0 <= i <= j < r@.len() implies r@[i] <= r@[j] by {
            assert(r@[i] == rall[rall.len() - 1 - i]);
            assert(r@[j] == rall[rall.len() - 1 - j]);
        }
    }
    r
}

/// The working core of the end-merges: merge two sorted vectors by popping
/// from their ends, leaving the result in reverse (largest-first) order.
pub fn merge_forward(v1: &mut Vec<usize>, v2: &mut Vec<usize>) -> (r: Vec<usize>)
    requires
        old(v1)@.len() > 0,
        old(v2)@.len() > 0,
        old(v1)@.len() + old(v2)@.len() <= usize::MAX,
        sorted(old(v1)@),
        sorted(old(v2)@),
    ensures
        r@.len() == old(v1)@.len() + old(v2)@.len(),
        sorted_desc(r@),
        r@.to_multiset() == old(v1)@.to_multiset().add(old(v2)@.to_multiset()),
        final(v1)@.len() == 0,
        final(v2)@.len() == 0,
{
    broadcast use vstd::multiset::group_multiset_axioms;

    let ghost o1 = v1@;
    let ghost o2 = v2@;
    let cap = v1.len() + v2.len();
    let mut r: Vec<usize> = Vec::with_capacity(cap);
    let mut v1_next = v1.pop().unwrap();
    let mut v2_next = v2.pop().unwrap();
    proof {
        lemma_empty_to_multiset(r@);
        assert(o1 =~= v1@.push(v1_next));
        assert(o2 =~= v2@.push(v2_next));
        to_multiset_build(v1@, v1_next);
        to_multiset_build(v2@, v2_next);
        assert(r@.to_multiset().add(v1@.to_multiset()).add(v2@.to_multiset()).insert(
            v1_next,
        ).insert(v2_next) =~= o1.to_multiset().add(o2.to_multiset()));
    }
    loop
        invariant
            o1 == old(v1)@,
            o2 == old(v2)@,
            sorted(v1@),
            sorted(v2@),
            sorted_desc(r@),
            forall|k: int| 0 <= k < v1@.len() ==> v1@[k] <= v1_next,
            forall|k: int| 0 <= k < v2@.len() ==> v2@[k] <= v2_next,
            forall|k: int| 0 <= k < r@.len() ==> r@[k] >= v1_next,
            forall|k: int| 0 <= k < r@.len() ==> r@[k] >= v2_next,
            r@.to_multiset().add(v1@.to_multiset()).add(v2@.to_multiset()).insert(
                v1_next,
            ).insert(v2_next) == o1.to_multiset().add(o2.to_multiset()),
            r@.len() + v1@.len() + v2@.len() + 2 == o1.len() + o2.len(),
            o1.len() + o2.len() <= usize::MAX,
        decreases v1@.len() + v2@.len(),
    {
        if v1_next > v2_next {
            if v1.len() > 0 {
                let ghost rb = r@;
                let ghost v1b = v1@;
                let ghost n1 = v1_next;
                r.push(v1_next);
                v1_next = v1.pop().unwrap();
                proof {
                    to_multiset_build(rb, n1);
                    assert(v1b =~= v1@.push(v1_next));
                    to_multiset_build(v1@, v1_next);
                    lemma_sorted_desc_push(rb, n1);
                    assert(r@.to_multiset().add(v1@.to_multiset()).add(v2@.to_multiset()).insert(
                        v1_next,
                    ).insert(v2_next) =~= o1.to_multiset().add(o2.to_multiset()));
                }
            } else {
                let ghost rb = r@;
                let ghost n1 = v1_next;
                let ghost n2 = v2_next;
                r.push(v1_next);
                r.push(v2_next);
                let ghost r2 = r@;
                let ghost v2b = v2@;
                reverse_vec(v2);
                let ghost v2r = v2@;
                r.append(v2);
                proof {
                    to_multiset_build(rb, n1);
                    to_multiset_build(rb.push(n1), n2);
                    lemma_sorted_desc_push(rb, n1);
                    lemma_sorted_desc_push(rb.push(n1), n2);
                    v2b.lemma_reverse_to_multiset();
                    assert forall|i: int, j: int|
                        0 <= i < r2.len() && 0 <= j < v2r.len() implies r2[i] >= v2r[j] by {
                        assert(v2r[j] == v2b[v2b.len() - 1 - j]);
                        assert(v2b[v2b.len() - 1 - j] <= n2);
                        if i < rb.len() {
                            assert(r2[i] == rb[i]);
                        } else if i == rb.len() {
                            assert(r2[i] == n1);
                        } else {
                            assert(r2[i] == n2);
                        }
                    }
                    assert forall|i: int, j: int|
                        0 <= i <= j < v2r.len() implies v2r[i] >= v2r[j] by {
                        assert(v2r[i] == v2b[v2b.len() - 1 - i]);
                        assert(v2r[j] == v2b[v2b.len() - 1 - j]);
                    }
                    lemma_sorted_desc_concat(r2, v2r);
                    lemma_multiset_commutative(r2, v2r);
                    lemma_empty_to_multiset(v1@);
                    assert(r@.to_multiset() =~= o1.to_multiset().add(o2.to_multiset()));
                }
                return r;
            }
        } else {
            if v2.len() > 0 {
                let ghost rb = r@;
                let ghost v2b = v2@;
                let ghost n2 = v2_next;
                r.push(v2_next);
                v2_next = v2.pop().unwrap();
                proof {
                    to_multiset_build(rb, n2);
                    assert(v2b =~= v2@.push(v2_next));
                    to_multiset_build(v2@, v2_next);
                    lemma_sorted_desc_push(rb, n2);
                    assert(r@.to_multiset().add(v1@.to_multiset()).add(v2@.to_multiset()).insert(
                        v1_next,
                    ).insert(v2_next) =~= o1.to_multiset().add(o2.to_multiset()));
                }
            } else {
                let ghost rb = r@;
                let ghost n1 = v1_next;
                let ghost n2 = v2_next;
                r.push(v2_next);
                r.push(v1_next);
                let ghost r2 = r@;
                let ghost v1b = v1@;
                reverse_vec(v1);
                let ghost v1r = v1@;
                r.append(v1);
                proof {
                    to_multiset_build(rb, n2);
                    to_multiset_build(rb.push(n2), n1);
                    lemma_sorted_desc_push(rb, n2);
                    lemma_sorted_desc_push(rb.push(n2), n1);
                    v1b.lemma_reverse_to_multiset();
                    assert forall|i: int, j: int|
                        0 <= i < r2.len() && 0 <= j < v1r.len() implies r2[i] >= v1r[j] by {
                        assert(v1r[j] == v1b[v1b.len() - 1 - j]);
                        assert(v1b[v1b.len() - 1 - j] <= n1);
                        if i < rb.len() {
                            assert(r2[i] == rb[i]);
                        } else if i == rb.len() {
                            assert(r2[i] == n2);
                        } else {
                            assert(r2[i] == n1);
                        }
                    }
                    assert forall|i: int, j: int|
                        0 <= i <= j < v1r.len() implies v1r[i] >= v1r[j] by {
                        assert(v1r[i] == v1b[v1b.len() - 1 - i]);
                        assert(v1r[j] == v1b[v1b.len() - 1 - j]);
                    }
                    lemma_sorted_desc_concat(r2, v1r);
                    lemma_multiset_commutative(r2, v1r);
                    lemma_empty_to_multiset(v2@);
                    assert(r@.to_multiset() =~= o1.to_multiset().add(o2.to_multiset()));
                }
                return r;
            }
        }
    }
}

/// Merge two vectors given in reverse (largest-first) order into one sorted
/// vector, popping the smallest remaining element from an end at each step.
pub fn merge_reverse(v1: &mut Vec<usize>, v2: &mut Vec<usize>) -> (r: Vec<usize>)
    requires
        old(v1)@.len() > 0,
        old(v2)@.len() > 0,
        old(v1)@.len() + old(v2)@.len() <= usize::MAX,
        sorted_desc(old(v1)@),
        sorted_desc(old(v2)@),
    ensures
        r@.len() == old(v1)@.len() + old(v2)@.len(),
        sorted(r@),
        r@.to_multiset() == old(v1)@.to_multiset().add(old(v2)@.to_multiset()),
        final(v1)@.len() == 0,
        final(v2)@.len() == 0,
{
    broadcast use vstd::multiset::group_multiset_axioms;

    let ghost o1 = v1@;
    let ghost o2 = v2@;
    let cap = v1.len() + v2.len();
    let mut r: Vec<usize> = Vec::with_capacity(cap);
    let mut v1_next = v1.pop().unwrap();
    let mut v2_next = v2.pop().unwrap();
    proof {
        lemma_empty_to_multiset(r@);
        assert(o1 =~= v1@.push(v1_next));
        assert(o2 =~= v2@.push(v2_next));
        to_multiset_build(v1@, v1_next);
        to_multiset_build(v2@, v2_next);
        assert(r@.to_multiset().add(v1@.to_multiset()).add(v2@.to_multiset()).insert(
            v1_next,
        ).insert(v2_next) =~= o1.to_multiset().add(o2.to_multiset()));
    }
    loop
        invariant
            o1 == old(v1)@,
            o2 == old(v2)@,
            sorted_desc(v1@),
            sorted_desc(v2@),
            sorted(r@),
            forall|k: int| 0 <= k < v1@.len() ==> v1@[k] >= v1_next,
            forall|k: int| 0 <= k < v2@.len() ==> v2@[k] >= v2_next,
            forall|k: int| 0 <= k < r@.len() ==> r@[k] <= v1_next,
            forall|k: int| 0 <= k < r@.len() ==> r@[k] <= v2_next,
            r@.to_multiset().add(v1@.to_multiset()).add(v2@.to_multiset()).insert(
                v1_next,
            ).insert(v2_next) == o1.to_multiset().add(o2.to_multiset()),
            r@.len() + v1@.len() + v2@.len() + 2 == o1.len() + o2.len(),
            o1.len() + o2.len() <= usize::MAX,
        decreases v1@.len() + v2@.len(),
    {
        if v1_next < v2_next {
            if v1.len() > 0 {
                let ghost rb = r@;
                let ghost v1b = v1@;
                let ghost n1 = v1_next;
                r.push(v1_next);
                v1_next = v1.pop().unwrap();
                proof {
                    to_multiset_build(rb, n1);
                    assert(v1b =~= v1@.push(v1_next));
                    to_multiset_build(v1@, v1_next);
                    lemma_sorted_push(rb, n1);
                    assert(r@.to_multiset().add(v1@.to_multiset()).add(v2@.to_multiset()).insert(
                        v1_next,
                    ).insert(v2_next) =~= o1.to_multiset().add(o2.to_multiset()));
                }
            } else {
                let ghost rb = r@;
                let ghost n1 = v1_next;
                let ghost n2 = v2_next;
                r.push(v1_next);
                r.push(v2_next);
                let ghost r2 = r@;
                let ghost v2b = v2@;
                reverse_vec(v2);
                let ghost v2r = v2@;
                r.append(v2);
                proof {
                    to_multiset_build(rb, n1);
                    to_multiset_build(rb.push(n1), n2);
                    lemma_sorted_push(rb, n1);
                    lemma_sorted_push(rb.push(n1), n2);
                    v2b.lemma_reverse_to_multiset();
                    assert forall|i: int, j: int|
                        0 <= i < r2.len() && 0 <= j < v2r.len() implies r2[i] <= v2r[j] by {
                        assert(v2r[j] == v2b[v2b.len() - 1 - j]);
                        assert(v2b[v2b.len() - 1 - j] >= n2);
                        if i < rb.len() {
                            assert(r2[i] == rb[i]);
                        } else if i == rb.len() {
                            assert(r2[i] == n1);
                        } else {
                            assert(r2[i] == n2);
                        }
                    }
                    assert forall|i: int, j: int|
                        0 <= i <= j < v2r.len() implies v2r[i] <= v2r[j] by {
                        assert(v2r[i] == v2b[v2b.len() - 1 - i]);
                        assert(v2r[j] == v2b[v2b.len() - 1 - j]);
                    }
                    lemma_sorted_concat(r2, v2r);
                    lemma_multiset_commutative(r2, v2r);
                    lemma_empty_to_multiset(v1@);
                    assert(r@.to_multiset() =~= o1.to_multiset().add(o2.to_multiset()));
                }
                return r;
            }
        } else {
            if v2.len() > 0 {
                let ghost rb = r@;
                let ghost v2b = v2@;
                let ghost n2 = v2_next;
                r.push(v2_next);
                v2_next = v2.pop().unwrap();
                proof {
                    to_multiset_build(rb, n2);
                    assert(v2b =~= v2@.push(v2_next));
                    to_multiset_build(v2@, v2_next);
                    lemma_sorted_push(rb, n2);
                    assert(r@.to_multiset().add(v1@.to_multiset()).add(v2@.to_multiset()).insert(
                        v1_next,
                    ).insert(v2_next) =~= o1.to_multiset().add(o2.to_multiset()));
                }
            } else {
                let ghost rb = r@;
                let ghost n1 = v1_next;
                let ghost n2 = v2_next;
                r.push(v2_next);
                r.push(v1_next);
                let ghost r2 = r@;
                let ghost v1b = v1@;
                reverse_vec(v1);
                let ghost v1r = v1@;
                r.append(v1);
                proof {
                    to_multiset_build(rb, n2);
                    to_multiset_build(rb.push(n2), n1);
                    lemma_sorted_push(rb, n2);
                    lemma_sorted_push(rb.push(n2), n1);
                    v1b.lemma_reverse_to_multiset();
                    assert forall|i: int, j: int|
                        0 <= i < r2.len() && 0 <= j < v1r.len() implies r2[i] <= v1r[j] by {
                        assert(v1r[j] == v1b[v1b.len() - 1 - j]);
                        assert(v1b[v1b.len() - 1 - j] >= n1);
                        if i < rb.len() {
                            assert(r2[i] == rb[i]);
                        } else if i == rb.len() {
                            assert(r2[i] == n2);
                        } else {
                            assert(r2[i] == n1);
                        }
                    }
                    assert forall|i: int, j: int|
                        0 <= i <= j < v1r.len() implies v1r[i] <= v1r[j] by {
                        assert(v1r[i] == v1b[v1b.len() - 1 - i]);
                        assert(v1r[j] == v1b[v1b.len() - 1 - j]);
                    }
                    lemma_sorted_concat(r2, v1r);
                    lemma_multiset_commutative(r2, v1r);
                    lemma_empty_to_multiset(v2@);
                    assert(r@.to_multiset() =~= o1.to_multiset().add(o2.to_multiset()));
                }
                return r;
            }
        }
    }
}

/// Merge sort proper: split the vector at its midpoint, sort the halves
/// recursively, and merge them into a fresh vector. Regions of one or two
/// elements are the base case, so the input may not be empty.
pub fn merge_sort(v: &mut Vec<usize>)
    requires
        old(v)@.len() >= 1,
    ensures
        final(v)@.len() == old(v)@.len(),
        sorted(final(v)@),
        permutes(old(v)@, final(v)@),
    decreases old(v)@.len(),
{
    let ghost orig = v@;
    let v_len = v.len();
    if v_len == 1 {
    } else if v_len == 2 {
        if v[0] > v[1] {
            let ghost before = v@;
            swap_items(v, 0, 1);
            proof {
                lemma_swap_rearranges(before, v@, 0, 2, 0, 1);
                lemma_rearranged_full(before, v@);
            }
        }
    } else {
        let mid = v_len / 2;
        let mut v2 = v.split_off(mid);
        proof {
            assert(orig =~= v@ + v2@);
            lemma_multiset_commutative(v@, v2@);
        }
        merge_sort(v);
        merge_sort(&mut v2);
        let merged = merge(v, &mut v2);
        *v = merged;
    }
}

/// Merge sort that hands any region of at most ten elements to the
/// quadratic fallback sort instead of recursing further.
pub fn merge_sort_with_bubble(v: &mut Vec<usize>)
    ensures
        final(v)@.len() == old(v)@.len(),
        sorted(final(v)@),
        permutes(old(v)@, final(v)@),
    decreases old(v)@.len(),
{
    let ghost orig = v@;
    let v_len = v.len();
    if v_len <= 10 {
        bubble_sort(v);
        return ;
    }
    let mid = v_len / 2;
    let mut v2 = v.split_off(mid);
    proof {
        assert(orig =~= v@ + v2@);
        lemma_multiset_commutative(v@, v2@);
    }
    merge_sort_with_bubble(v);
    merge_sort_with_bubble(&mut v2);
    let merged = merge(v, &mut v2);
    *v = merged;
}

/// Merge sort with a caller-chosen fallback crossover. A crossover of zero
/// disables the fallback, leaving the one- and two-element base cases.
pub fn merge_sort_with_bubble_set_crossover(v: &mut Vec<usize>, crossover_point: usize)
    ensures
        final(v)@.len() == old(v)@.len(),
        sorted(final(v)@),
        permutes(old(v)@, final(v)@),
    decreases old(v)@.len(),
{
    let ghost orig = v@;
    let v_len = v.len();
    if v_len <= crossover_point {
        bubble_sort(v);
        return ;
    }
    if v_len == 1 {
    } else if v_len == 2 {
        if v[0] > v[1] {
            let ghost before = v@;
            swap_items(v, 0, 1);
            proof {
                lemma_swap_rearranges(before, v@, 0, 2, 0, 1);
                lemma_rearranged_full(before, v@);
            }
        }
    } else {
        let mid = v_len / 2;
        let mut v2 = v.split_off(mid);
        proof {
            assert(orig =~= v@ + v2@);
            lemma_multiset_commutative(v@, v2@);
        }
        merge_sort_with_bubble_set_crossover(v, crossover_point);
        merge_sort_with_bubble_set_crossover(&mut v2, crossover_point);
        let merged = merge(v, &mut v2);
        *v = merged;
    }
}

/// The fallback-crossover merge sort without the small-size case analysis:
/// any region above the fixed crossover is split and merged.
pub fn merge_sort_skip_match(v: &mut Vec<usize>)
    ensures
        final(v)@.len() == old(v)@.len(),
        sorted(final(v)@),
        permutes(old(v)@, final(v)@),
    decreases old(v)@.len(),
{
    let ghost orig = v@;
    let v_len = v.len();
    if v_len <= 10 {
        bubble_sort(v);
        return ;
    }
    let mid = v_len / 2;
    let mut v2 = v.split_off(mid);
    proof {
        assert(orig =~= v@ + v2@);
        lemma_multiset_commutative(v@, v2@);
    }
    merge_sort_skip_match(v);
    merge_sort_skip_match(&mut v2);
    let merged = merge(v, &mut v2);
    *v = merged;
}

/// Merge sort whose merge step consumes the halves from their ends.
pub fn merge_sort_merge_from_end(v: &mut Vec<usize>)
    ensures
        final(v)@.len() == old(v)@.len(),
        sorted(final(v)@),
        permutes(old(v)@, final(v)@),
    decreases old(v)@.len(),
{
    let ghost orig = v@;
    let v_len = v.len();
    if v_len == 0 {
        bubble_sort(v);
        return ;
    }
    if v_len == 1 {
    } else if v_len == 2 {
        if v[0] > v[1] {
            let ghost before = v@;
            swap_items(v, 0, 1);
            proof {
                lemma_swap_rearranges(before, v@, 0, 2, 0, 1);
                lemma_rearranged_full(before, v@);
            }
        }
    } else {
        let mid = v_len / 2;
        let mut v2 = v.split_off(mid);
        proof {
            assert(orig =~= v@ + v2@);
            lemma_multiset_commutative(v@, v2@);
        }
        merge_sort_merge_from_end(v);
        merge_sort_merge_from_end(&mut v2);
        let merged = merge_from_end(v, &mut v2);
        *v = merged;
    }
}

/// Merge sort over a region of one buffer, merging the sorted halves in
/// place; regions of at most ten elements fall back to the quadratic sort.
pub fn merge_sort_merge_in_place_range(v: &mut Vec<usize>, lo: usize, hi: usize)
    requires
        lo <= hi,
        hi <= old(v)@.len(),
    ensures
        final(v)@.len() == old(v)@.len(),
        sorted_between(final(v)@, lo as int, hi as int),
        rearranged_in(old(v)@, final(v)@, lo as int, hi as int),
    decreases hi - lo,
{
    let ghost orig = v@;
    if hi - lo <= 10 {
        bubble_sort_range(v, lo, hi);
        return ;
    }
    let mid = lo + (hi - lo) / 2;
    merge_sort_merge_in_place_range(v, lo, mid);
    let ghost after_left = v@;
    merge_sort_merge_in_place_range(v, mid, hi);
    let ghost after_right = v@;
    proof {
        lemma_rearranged_nested(orig, orig, after_left, lo as int, hi as int, lo as int, mid as int);
        lemma_rearranged_nested(
            orig,
            after_left,
            after_right,
            lo as int,
            hi as int,
            mid as int,
            hi as int,
        );
        assert(sorted_between(after_right, lo as int, mid as int)) by {
            assert(forall|k: int| lo <= k < mid ==> after_right[k] == after_left[k]);
        }
    }
    merge_in_place_range(v, lo, mid, hi);
    proof {
        lemma_rearranged_nested(orig, after_right, v@, lo as int, hi as int, lo as int, hi as int);
    }
}

/// Merge sort of the whole vector with the in-place merge.
pub fn merge_sort_merge_in_place(v: &mut Vec<usize>)
    ensures
        final(v)@.len() == old(v)@.len(),
        sorted(final(v)@),
        permutes(old(v)@, final(v)@),
{
    let hi = v.len();
    merge_sort_merge_in_place_range(v, 0, hi);
    proof {
        lemma_rearranged_full(old(v)@, v@);
    }
}

/// The vector is a concatenation of sorted runs of at most `bound` elements
/// each.
pub open spec fn concat_of_sorted_runs(s: Seq<usize>, bound: int) -> bool
    decreases s.len(),
{
    s.len() == 0 || exists|m: int|
        1 <= m <= bound && m <= s.len() && sorted(#[trigger] s.subrange(0, m))
            && concat_of_sorted_runs(s.subrange(m, s.len() as int), bound)
}

/// A short sorted vector is a single sorted run.
pub proof fn lemma_sorted_is_runs(s: Seq<usize>, bound: int)
    requires
        sorted(s),
        s.len() <= bound,
    ensures
        concat_of_sorted_runs(s, bound),
{
    if s.len() > 0 {
        let m = s.len() as int;
        assert(s.subrange(0, m) =~= s);
        assert(s.subrange(m, s.len() as int).len() == 0);
        assert(concat_of_sorted_runs(s.subrange(m, s.len() as int), bound));
    }
}

/// Concatenating two run-structured vectors yields a run-structured vector.
pub proof fn lemma_sorted_runs_concat(a: Seq<usize>, b: Seq<usize>, bound: int)
    requires
        bound >= 1,
        concat_of_sorted_runs(a, bound),
        concat_of_sorted_runs(b, bound),
    ensures
        concat_of_sorted_runs(a + b, bound),
    decreases a.len(),
{
    if a.len() == 0 {
        assert(a + b =~= b);
    } else {
        let m = choose|m: int|
            1 <= m <= bound && m <= a.len() && sorted(#[trigger] a.subrange(0, m))
                && concat_of_sorted_runs(a.subrange(m, a.len() as int), bound);
        assert((a + b).subrange(0, m) =~= a.subrange(0, m));
        assert((a + b).subrange(m, (a + b).len() as int) =~= a.subrange(m, a.len() as int) + b);
        lemma_sorted_runs_concat(a.subrange(m, a.len() as int), b, bound);
        assert(sorted((a + b).subrange(0, m)));
        assert(concat_of_sorted_runs((a + b).subrange(m, (a + b).len() as int), bound));
    }
}

/// The merge sort skeleton with the merge step deliberately left out: the
/// halves are sorted and then concatenated as they are. The result holds
/// the same elements, arranged as a concatenation of sorted runs of at most
/// ten elements each, but is not, in general, sorted; the driver exists to
/// measure what the merge step itself costs.
pub fn merge_sort_test_only_no_merge(v: &mut Vec<usize>)
    ensures
        final(v)@.len() == old(v)@.len(),
        permutes(old(v)@, final(v)@),
        concat_of_sorted_runs(final(v)@, 10),
    decreases old(v)@.len(),
{
    let ghost orig = v@;
    let v_len = v.len();
    if v_len <= 10 {
        bubble_sort(v);
        proof {
            lemma_sorted_is_runs(v@, 10);
        }
        return ;
    }
    let mid = v_len / 2;
    let mut v2 = v.split_off(mid);
    proof {
        assert(orig =~= v@ + v2@);
        lemma_multiset_commutative(v@, v2@);
    }
    merge_sort_test_only_no_merge(v);
    merge_sort_test_only_no_merge(&mut v2);
    let ghost a = v@;
    let ghost b = v2@;
    v.append(&mut v2);
    proof {
        lemma_multiset_commutative(a, b);
        lemma_sorted_runs_concat(a, b, 10);
    }
}

} // verus!
