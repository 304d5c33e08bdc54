//! Insertion sorts: each builds a sorted vector by taking elements from the
//! input one at a time and placing each at its insertion point. The variants
//! differ in how they find that point: library binary search, a linear scan
//! for small inputs, and a hand-rolled case-split search.

use vstd::prelude::*;
use vstd::seq_lib::to_multiset_build;
use vstd::seq_lib::to_multiset_insert;
use crate::order::{sorted, permutes};
use crate::search::binary_search_insert_point;

verus! {

/// Insert `t` at position `index` of the sorted vector `sorted_v`, keeping
/// it sorted and adding `t` to its elements.
fn insert_sorted(sorted_v: &mut Vec<usize>, index: usize, t: usize)
    requires
        index <= old(sorted_v)@.len(),
        sorted(old(sorted_v)@),
        forall|k: int| 0 <= k < index ==> old(sorted_v)@[k] <= t,
        forall|k: int| index <= k < old(sorted_v)@.len() ==> old(sorted_v)@[k] >= t,
    ensures
        final(sorted_v)@ == old(sorted_v)@.insert(index as int, t),
        final(sorted_v)@.len() == old(sorted_v)@.len() + 1,
        sorted(final(sorted_v)@),
        final(sorted_v)@.to_multiset() == old(sorted_v)@.to_multiset().insert(t),
{
    let ghost before = sorted_v@;
    sorted_v.insert(index, t);
    proof {
        to_multiset_insert(before, index as int, t);
        assert forall|a: int, b: int|
            0 <= a <= b < sorted_v@.len() implies sorted_v@[a] <= sorted_v@[b] by {
            if a < index && b > index {
                assert(sorted_v@[a] == before[a]);
                assert(sorted_v@[b] == before[b - 1]);
            }
        }
    }
}

/// Drain `v` from the back, inserting each element into a fresh vector at
/// the point found by binary search; hand the sorted vector back through `v`.
pub fn insertion_sort(v: &mut Vec<usize>)
    ensures
        final(v)@.len() == old(v)@.len(),
        sorted(final(v)@),
        permutes(old(v)@, final(v)@),
{
    broadcast use vstd::multiset::group_multiset_axioms;

    let ghost orig = v@;
    let mut sorted_v: Vec<usize> = Vec::with_capacity(v.len());
    proof {
        crate::order::lemma_empty_to_multiset(sorted_v@);
        assert(sorted_v@.to_multiset().add(v@.to_multiset()) =~= orig.to_multiset());
    }
    while v.len() > 0
        invariant
            sorted(sorted_v@),
            sorted_v@.to_multiset().add(v@.to_multiset()) == orig.to_multiset(),
            sorted_v@.len() + v@.len() == orig.len(),
            orig.len() <= usize::MAX,
        decreases v@.len(),
    {
        let ghost v_before = v@;
        let t = v.pop().unwrap();
        proof {
            assert(v_before =~= v@.push(t));
            to_multiset_build(v@, t);
        }
        let len = sorted_v.len();
        let index = binary_search_insert_point(&sorted_v, 0, len, t);
        let ghost s_before = sorted_v@;
        insert_sorted(&mut sorted_v, index, t);
        proof {
            assert(sorted_v@.to_multiset().add(v@.to_multiset()) =~= orig.to_multiset());
        }
    }
    proof {
        crate::order::lemma_empty_to_multiset(v@);
        assert(sorted_v@.to_multiset() =~= orig.to_multiset());
    }
    *v = sorted_v;
}

/// Insertion sort tuned for small inputs: the insertion point is found by a
/// plain left-to-right scan instead of binary search.
pub fn insertion_sort_small(v: &mut Vec<usize>)
    ensures
        final(v)@.len() == old(v)@.len(),
        sorted(final(v)@),
        permutes(old(v)@, final(v)@),
{
    broadcast use vstd::multiset::group_multiset_axioms;

    let ghost orig = v@;
    let mut sorted_v: Vec<usize> = Vec::with_capacity(v.len());
    let mut sorted_len: usize = 0;
    proof {
        crate::order::lemma_empty_to_multiset(sorted_v@);
        assert(sorted_v@.to_multiset().add(v@.to_multiset()) =~= orig.to_multiset());
    }
    while v.len() > 0
        invariant
            sorted_len == sorted_v@.len(),
            sorted(sorted_v@),
            sorted_v@.to_multiset().add(v@.to_multiset()) == orig.to_multiset(),
            sorted_v@.len() + v@.len() == orig.len(),
            orig.len() <= usize::MAX,
        decreases v@.len(),
    {
        let ghost v_before = v@;
        let t = v.pop().unwrap();
        proof {
            assert(v_before =~= v@.push(t));
            to_multiset_build(v@, t);
        }
        if sorted_len == 0 {
            let ghost s_before = sorted_v@;
            sorted_v.push(t);
            proof {
                to_multiset_build(s_before, t);
                assert(sorted_v@.to_multiset().add(v@.to_multiset()) =~= orig.to_multiset());
            }
        } else {
            let mut i: usize = 0;
            while i < sorted_len && t > sorted_v[i]
                invariant
                    0 <= i <= sorted_len == sorted_v@.len(),
                    sorted(sorted_v@),
                    forall|k: int| 0 <= k < i ==> sorted_v@[k] < t,
                decreases sorted_len - i,
            {
                i = i + 1;
            }
            insert_sorted(&mut sorted_v, i, t);
            proof {
                assert(sorted_v@.to_multiset().add(v@.to_multiset()) =~= orig.to_multiset());
            }
        }
        sorted_len = sorted_len + 1;
    }
    proof {
        crate::order::lemma_empty_to_multiset(v@);
        assert(sorted_v@.to_multiset() =~= orig.to_multiset());
    }
    *v = sorted_v;
}

/// Insertion sort whose insertion point comes from a hand-rolled search:
/// regions of one or two candidates are resolved by direct comparisons, and
/// larger regions are halved around a probe, stopping early on an equal
/// element.
pub fn insertion_sort_ptr(v: &mut Vec<usize>)
    ensures
        final(v)@.len() == old(v)@.len(),
        sorted(final(v)@),
        permutes(old(v)@, final(v)@),
{
    broadcast use vstd::multiset::group_multiset_axioms;

    let ghost orig = v@;
    let mut sorted_v: Vec<usize> = Vec::with_capacity(v.len());
    let mut sorted_len: usize = 0;
    proof {
        crate::order::lemma_empty_to_multiset(sorted_v@);
        assert(sorted_v@.to_multiset().add(v@.to_multiset()) =~= orig.to_multiset());
    }
    while v.len() > 0
        invariant
            sorted_len == sorted_v@.len(),
            sorted(sorted_v@),
            sorted_v@.to_multiset().add(v@.to_multiset()) == orig.to_multiset(),
            sorted_v@.len() + v@.len() == orig.len(),
            orig.len() <= usize::MAX,
        decreases v@.len(),
    {
        let ghost v_before = v@;
        let t = v.pop().unwrap();
        proof {
            assert(v_before =~= v@.push(t));
            to_multiset_build(v@, t);
        }
        let index: usize;
        if sorted_len == 0 {
            index = 0;
        } else if sorted_len == 1 {
            index = if t < sorted_v[0] {
                0
            } else {
                sorted_len
            };
        } else if sorted_len == 2 {
            index = if t < sorted_v[0] {
                0
            } else if t < sorted_v[1] {
                1
            } else {
                sorted_len
            };
        } else {
            let mut left: usize = 0;
            let mut right: usize = sorted_len;
            let mut found: usize = 0;
            loop
                invariant
                    0 <= left < right <= sorted_len == sorted_v@.len(),
                    sorted(sorted_v@),
                    forall|k: int| 0 <= k < left ==> sorted_v@[k] < t,
                    forall|k: int| right <= k < sorted_len ==> sorted_v@[k] > t,
                ensures
                    found <= sorted_len,
                    forall|k: int| 0 <= k < found ==> sorted_v@[k] <= t,
                    forall|k: int| found <= k < sorted_len ==> sorted_v@[k] >= t,
                decreases right - left,
            {
                if right - left == 1 {
                    found = if t < sorted_v[left] {
                        left
                    } else {
                        right
                    };
                    break ;
                } else if right - left == 2 {
                    found = if t < sorted_v[left] {
                        left
                    } else if t < sorted_v[left + 1] {
                        left + 1
                    } else {
                        right
                    };
                    break ;
                } else {
                    let mid = left + (right - left) / 2;
                    if t == sorted_v[mid] {
                        found = mid;
                        break ;
                    } else if t < sorted_v[mid] {
                        right = mid;
                    } else {
                        left = mid;
                    }
                }
            }
            index = found;
        }
        if index == sorted_len {
            let ghost s_before = sorted_v@;
            sorted_v.push(t);
            proof {
                to_multiset_build(s_before, t);
                assert(sorted_v@ =~= s_before.insert(sorted_len as int, t));
                assert forall|a: int, b: int|
                    0 <= a <= b < sorted_v@.len() implies sorted_v@[a] <= sorted_v@[b] by {
                    if b < sorted_len {
                        assert(sorted_v@[a] == s_before[a]);
                        assert(sorted_v@[b] == s_before[b]);
                    }
                }
            }
        } else {
            insert_sorted(&mut sorted_v, index, t);
        }
        proof {
            assert(sorted_v@.to_multiset().add(v@.to_multiset()) =~= orig.to_multiset());
        }
        sorted_len = sorted_len + 1;
    }
    proof {
        crate::order::lemma_empty_to_multiset(v@);
        assert(sorted_v@.to_multiset() =~= orig.to_multiset());
    }
    *v = sorted_v;
}

} // verus!
