//! Workloads for exercising the sorts: vectors holding exactly the values
//! one through a requested size, in shuffled, ascending, or descending
//! order, and pre-sorted pairs ready for the mergers. A shuffled vector is a
//! permutation of the ordered one, whatever order the generator picked.

use vstd::prelude::*;
use crate::order::{sorted, sorted_desc, sorted_between};
use crate::quicksort_safe::quicksort;
use crate::rng::random_index_below;
use vstd::seq_lib::lemma_multiset_commutative;

verus! {

/// The values one through `size`, in order.
pub open spec fn one_through(size: int) -> Seq<usize> {
    Seq::new(size as nat, |i: int| (i + 1) as usize)
}

/// Relies on rand's `SliceRandom::shuffle` over `rand::thread_rng()`: the
/// vector holds the same elements afterwards, in an order chosen by the
/// generator. Nothing is assumed about which order comes back.
#[verifier::external_body]
fn shuffle_vec(v: &mut Vec<usize>)
    ensures
        final(v)@.len() == old(v)@.len(),
        final(v)@.to_multiset() == old(v)@.to_multiset(),
{
    rand::seq::SliceRandom::shuffle(v.as_mut_slice(), &mut rand::thread_rng())
}

/// The values one through `size`, in ascending order.
pub fn vec_usize_ordered(size: usize) -> (r: Vec<usize>)
    requires
        size >= 1,
    ensures
        r@ == one_through(size as int),
        r@.len() == size,
        sorted(r@),
{
    let mut nums: Vec<usize> = Vec::with_capacity(size);
    let mut i: usize = 0;
    while i < size
        invariant
            i <= size,
            nums@.len() == i,
            forall|k: int| 0 <= k < nums@.len() ==> nums@[k] == k + 1,
        decreases size - i,
    {
        nums.push(i + 1);
        i = i + 1;
    }
    proof {
        assert(nums@ =~= one_through(size as int));
    }
    nums
}

/// The values one through `size`, in descending order.
pub fn vec_usize_reversed(size: usize) -> (r: Vec<usize>)
    requires
        size >= 1,
    ensures
        r@.len() == size,
        r@.to_multiset() == one_through(size as int).to_multiset(),
        sorted_desc(r@),
{
    let mut nums: Vec<usize> = Vec::with_capacity(size);
    let mut i: usize = size;
    while i >= 1
        invariant
            0 <= i <= size,
            nums@.len() == size - i,
            forall|k: int| 0 <= k < nums@.len() ==> nums@[k] == size - k,
        decreases i,
    {
        nums.push(i);
        i = i - 1;
    }
    proof {
        assert(nums@ =~= one_through(size as int).reverse());
        one_through(size as int).lemma_reverse_to_multiset();
    }
    nums
}

/// The values one through `size`, in an order chosen by the generator.
pub fn vec_usize_shuffled(size: usize) -> (r: Vec<usize>)
    requires
        size >= 1,
    ensures
        r@.len() == size,
        r@.to_multiset() == one_through(size as int).to_multiset(),
{
    let mut nums = vec_usize_ordered(size);
    shuffle_vec(&mut nums);
    nums
}

/// Two sorted vectors that together hold the values one through `size`,
/// split at a point somewhere in the middle — chosen at random for larger
/// sizes — with both sides non-empty.
pub fn vectors_for_merge(size: usize) -> (r: (Vec<usize>, Vec<usize>))
    requires
        size >= 2,
    ensures
        r.0@.len() >= 1,
        r.1@.len() >= 1,
        r.0@.len() + r.1@.len() == size,
        sorted(r.0@),
        sorted(r.1@),
        r.0@.to_multiset().add(r.1@.to_multiset()) == one_through(size as int).to_multiset(),
{
    let mut v1 = vec_usize_shuffled(size);
    let mid = if size <= 10 {
        size / 2
    } else {
        size / 4 + random_index_below(size / 2)
    };
    let ghost whole = v1@;
    let mut v2 = v1.split_off(mid);
    proof {
        assert(whole =~= v1@ + v2@);
        lemma_multiset_commutative(v1@, v2@);
    }
    quicksort(&mut v1);
    quicksort(&mut v2);
    (v1, v2)
}

/// The pair of `vectors_for_merge`, each side in descending order.
pub fn vectors_for_merge_reverse(size: usize) -> (r: (Vec<usize>, Vec<usize>))
    requires
        size >= 2,
    ensures
        r.0@.len() >= 1,
        r.1@.len() >= 1,
        r.0@.len() + r.1@.len() == size,
        sorted_desc(r.0@),
        sorted_desc(r.1@),
        r.0@.to_multiset().add(r.1@.to_multiset()) == one_through(size as int).to_multiset(),
{
    let (mut v1, mut v2) = vectors_for_merge(size);
    let ghost a = v1@;
    let ghost b = v2@;
    crate::merge_sort::reverse_vec(&mut v1);
    crate::merge_sort::reverse_vec(&mut v2);
    proof {
        a.lemma_reverse_to_multiset();
        b.lemma_reverse_to_multiset();
        assert forall|i: int, j: int| 0 <= i <= j < v1@.len() implies v1@[i] >= v1@[j] by {
            assert(v1@[i] == a[a.len() - 1 - i]);
            assert(v1@[j] == a[a.len() - 1 - j]);
        }
        assert forall|i: int, j: int| 0 <= i <= j < v2@.len() implies v2@[i] >= v2@[j] by {
            assert(v2@[i] == b[b.len() - 1 - i]);
            assert(v2@[j] == b[b.len() - 1 - j]);
        }
    }
    (v1, v2)
}

/// One vector holding the values one through `size` whose two halves around
/// the returned split point are each sorted: ready for an in-place merge.
pub fn vector_for_merge_in_place(size: usize) -> (r: (Vec<usize>, usize))
    requires
        size >= 3,
    ensures
        r.0@.len() == size,
        0 < r.1 < size,
        sorted_between(r.0@, 0, r.1 as int),
        sorted_between(r.0@, r.1 as int, size as int),
        r.0@.to_multiset() == one_through(size as int).to_multiset(),
{
    let (mut v1, mut v2) = vectors_for_merge(size);
    let mid = v1.len();
    let ghost a = v1@;
    let ghost b = v2@;
    v1.append(&mut v2);
    proof {
        lemma_multiset_commutative(a, b);
        assert(forall|k: int| 0 <= k < a.len() ==> v1@[k] == a[k]);
        assert(forall|k: int| a.len() <= k < v1@.len() ==> v1@[k] == b[k - a.len()]);
    }
    (v1, mid)
}

/// Every one of `count` repeated multiplications from `start` stays within
/// the machine word.
pub open spec fn powers_fit(start: int, mult: int, count: int) -> bool
    decreases count,
{
    count <= 0 || (start * mult <= usize::MAX && powers_fit(start * mult, mult, count - 1))
}

/// A table of `count` values: `start`, then each entry the previous one
/// multiplied by `mult`. The running value is multiplied once per entry, so
/// the whole chain of `count` multiplications must fit the machine word.
pub fn vec_powers(count: u8, start: usize, mult: usize) -> (r: Vec<usize>)
    requires
        powers_fit(start as int, mult as int, count as int),
    ensures
        r@.len() == count,
        count > 0 ==> r@[0] == start,
        forall|k: int| 0 <= k < count - 1 ==> #[trigger] r@[k + 1] == r@[k] * mult,
{
    let mut v: Vec<usize> = Vec::new();
    let mut i = start;
    while v.len() < count as usize
        invariant
            v@.len() <= count,
            powers_fit(i as int, mult as int, count - v@.len()),
            v@.len() == 0 ==> i == start,
            v@.len() > 0 ==> v@[0] == start,
            v@.len() > 0 ==> i == v@[v@.len() - 1] * mult,
            forall|k: int| 0 <= k < v@.len() - 1 ==> #[trigger] v@[k + 1] == v@[k] * mult,
        decreases count - v@.len(),
    {
        v.push(i);
        i = i * mult;
    }
    v
}

} // verus!
