//! The ordering vocabulary shared by every sorting component: what it means
//! for a region of an array to be sorted, what it means for one array to be a
//! rearrangement of another, and the lemmas that let the algorithms compose
//! those facts across swaps, sub-regions, and recursive calls.

use vstd::prelude::*;
use vstd::multiset::Multiset;
use vstd::seq_lib::lemma_multiset_commutative;
use vstd::seq_lib::to_multiset_update;
use vstd::seq_lib::to_multiset_contains;

verus! {

/// The elements of `s` are non-decreasing on the index range `[lo, hi)`.
pub open spec fn sorted_between(s: Seq<usize>, lo: int, hi: int) -> bool {
    forall|i: int, j: int| lo <= i <= j < hi ==> s[i] <= s[j]
}

/// The whole sequence is non-decreasing.
pub open spec fn sorted(s: Seq<usize>) -> bool {
    sorted_between(s, 0, s.len() as int)
}

/// `b` holds the same elements as `a`, with multiplicity.
pub open spec fn permutes(a: Seq<usize>, b: Seq<usize>) -> bool {
    a.to_multiset() == b.to_multiset()
}

/// `a` and `b` agree everywhere outside the index range `[lo, hi)`.
pub open spec fn same_outside(a: Seq<usize>, b: Seq<usize>, lo: int, hi: int) -> bool {
    &&& a.len() == b.len()
    &&& forall|k: int| 0 <= k < a.len() && !(lo <= k < hi) ==> a[k] == b[k]
}

/// The index range `[lo, hi)` of `b` holds the same elements, with
/// multiplicity, as the same range of `a`.
pub open spec fn permutes_between(a: Seq<usize>, b: Seq<usize>, lo: int, hi: int) -> bool {
    &&& a.len() == b.len()
    &&& a.subrange(lo, hi).to_multiset() == b.subrange(lo, hi).to_multiset()
}

/// A sub-region was rearranged and the rest of the array was left alone.
pub open spec fn rearranged_in(a: Seq<usize>, b: Seq<usize>, lo: int, hi: int) -> bool {
    &&& same_outside(a, b, lo, hi)
    &&& permutes_between(a, b, lo, hi)
}

/// Splitting a sequence's range at `m` splits its element multiset.
pub proof fn lemma_subrange_multiset_split(s: Seq<usize>, lo: int, m: int, hi: int)
    requires
        0 <= lo <= m <= hi <= s.len(),
    ensures
        s.subrange(lo, hi).to_multiset() == s.subrange(lo, m).to_multiset().add(
            s.subrange(m, hi).to_multiset(),
        ),
{
    assert(s.subrange(lo, hi) =~= s.subrange(lo, m) + s.subrange(m, hi));
    lemma_multiset_commutative(s.subrange(lo, m), s.subrange(m, hi));
}

/// Exchanging two positions inside `[lo, hi)` rearranges that region only.
pub proof fn lemma_swap_rearranges(a: Seq<usize>, b: Seq<usize>, lo: int, hi: int, i: int, j: int)
    requires
        0 <= lo <= i < hi <= a.len(),
        lo <= j < hi,
        b == a.update(i, a[j]).update(j, a[i]),
    ensures
        rearranged_in(a, b, lo, hi),
{
    broadcast use vstd::multiset::group_multiset_axioms;

    let sa = a.subrange(lo, hi);
    let sb = b.subrange(lo, hi);
    assert(sb =~= sa.update(i - lo, sa[j - lo]).update(j - lo, sa[i - lo]));
    let mid = sa.update(i - lo, sa[j - lo]);
    to_multiset_update(sa, i - lo, sa[j - lo]);
    to_multiset_update(mid, j - lo, sa[i - lo]);
    if i == j {
        assert(sb =~= sa);
    } else {
        assert(mid[j - lo] == sa[j - lo]);
        assert(sa.contains(sa[i - lo]));
        assert(sa.contains(sa[j - lo]));
        to_multiset_contains(sa, sa[i - lo]);
        to_multiset_contains(sa, sa[j - lo]);
        assert(sb.to_multiset() =~= sa.to_multiset());
    }
}

/// Rearranging is transitive, and a rearrangement of a nested region is a
/// rearrangement of the enclosing region.
pub proof fn lemma_rearranged_nested(
    a: Seq<usize>,
    b: Seq<usize>,
    c: Seq<usize>,
    lo: int,
    hi: int,
    lo2: int,
    hi2: int,
)
    requires
        0 <= lo <= lo2 <= hi2 <= hi <= a.len(),
        rearranged_in(a, b, lo, hi),
        rearranged_in(b, c, lo2, hi2),
    ensures
        rearranged_in(a, c, lo, hi),
{
    assert(c.subrange(lo, lo2) =~= b.subrange(lo, lo2));
    assert(c.subrange(hi2, hi) =~= b.subrange(hi2, hi));
    lemma_subrange_multiset_split(b, lo, lo2, hi);
    lemma_subrange_multiset_split(b, lo2, hi2, hi);
    lemma_subrange_multiset_split(c, lo, lo2, hi);
    lemma_subrange_multiset_split(c, lo2, hi2, hi);
    assert(c.subrange(lo, hi).to_multiset() == b.subrange(lo, hi).to_multiset());
}

/// A rearranged region keeps any upper bound on its elements.
pub proof fn lemma_rearranged_keeps_upper_bound(
    a: Seq<usize>,
    b: Seq<usize>,
    lo: int,
    hi: int,
    x: usize,
)
    requires
        0 <= lo <= hi <= a.len(),
        permutes_between(a, b, lo, hi),
        forall|k: int| lo <= k < hi ==> a[k] <= x,
    ensures
        forall|k: int| lo <= k < hi ==> b[k] <= x,
{
    let sa = a.subrange(lo, hi);
    let sb = b.subrange(lo, hi);
    assert forall|k: int| lo <= k < hi implies b[k] <= x by {
        assert(sb[k - lo] == b[k]);
        assert(sb.contains(b[k]));
        to_multiset_contains(sb, b[k]);
        to_multiset_contains(sa, b[k]);
        let m = choose|m: int| 0 <= m < sa.len() && sa[m] == b[k];
        assert(a[m + lo] == b[k]);
    }
}

/// A rearranged region keeps any lower bound on its elements.
pub proof fn lemma_rearranged_keeps_lower_bound(
    a: Seq<usize>,
    b: Seq<usize>,
    lo: int,
    hi: int,
    x: usize,
)
    requires
        0 <= lo <= hi <= a.len(),
        permutes_between(a, b, lo, hi),
        forall|k: int| lo <= k < hi ==> a[k] >= x,
    ensures
        forall|k: int| lo <= k < hi ==> b[k] >= x,
{
    let sa = a.subrange(lo, hi);
    let sb = b.subrange(lo, hi);
    assert forall|k: int| lo <= k < hi implies b[k] >= x by {
        assert(sb[k - lo] == b[k]);
        assert(sb.contains(b[k]));
        to_multiset_contains(sb, b[k]);
        to_multiset_contains(sa, b[k]);
        let m = choose|m: int| 0 <= m < sa.len() && sa[m] == b[k];
        assert(a[m + lo] == b[k]);
    }
}

/// There is only one sorted arrangement of a given multiset of elements: two
/// sorted sequences holding the same elements are equal, position by position.
/// This single fact makes the sorting contract deterministic; sorting an
/// already-sorted array returns it unchanged, and no policy knob can change
/// the output.
pub proof fn lemma_sorted_unique(a: Seq<usize>, b: Seq<usize>)
    requires
        sorted(a),
        sorted(b),
        permutes(a, b),
    ensures
        a == b,
    decreases a.len(),
{
    vstd::seq_lib::to_multiset_len(a);
    vstd::seq_lib::to_multiset_len(b);
    if a.len() == 0 {
        assert(a =~= b);
    } else {
        let i = a.len() - 1;
        let j = b.len() - 1;
        assert(a[i as int] == b[j as int]) by {
            to_multiset_contains(a, a[i as int]);
            to_multiset_contains(b, a[i as int]);
            let m = choose|m: int| 0 <= m < b.len() && b[m] == a[i as int];
            assert(b[m] <= b[j as int]);
            to_multiset_contains(b, b[j as int]);
            to_multiset_contains(a, b[j as int]);
            let m2 = choose|m2: int| 0 <= m2 < a.len() && a[m2] == b[j as int];
            assert(a[m2] <= a[i as int]);
        }
        let a2 = a.remove(i as int);
        let b2 = b.remove(j as int);
        vstd::seq_lib::to_multiset_remove(a, i as int);
        vstd::seq_lib::to_multiset_remove(b, j as int);
        assert(forall|k: int| 0 <= k < i ==> a2[k] == a[k]);
        assert(forall|k: int| 0 <= k < j ==> b2[k] == b[k]);
        lemma_sorted_unique(a2, b2);
        assert forall|k: int| 0 <= k < a.len() implies a[k] == b[k] by {
            if k < i {
                assert(a[k] == a2[k]);
                assert(b[k] == b2[k]);
            }
        }
        assert(a =~= b);
    }
}

/// Sorting is idempotent: if `b` is `a` sorted and `c` is `b` sorted, then
/// `c` is exactly `b`. Running a sort over its own output changes nothing.
pub proof fn lemma_sort_idempotent(a: Seq<usize>, b: Seq<usize>, c: Seq<usize>)
    requires
        permutes(a, b),
        sorted(b),
        permutes(b, c),
        sorted(c),
    ensures
        c == b,
{
    lemma_sorted_unique(b, c);
}

/// Threshold degeneracy: any two runs of a sort over the same input produce
/// the same output, whatever their threshold policies were. Disabling
/// parallelism (`min_thread_size` above the length) and forcing it
/// (`min_thread_size` of zero) cannot differ, because each run's output is
/// pinned to the one sorted arrangement of the input.
pub proof fn lemma_policy_independent(a: Seq<usize>, r1: Seq<usize>, r2: Seq<usize>)
    requires
        permutes(a, r1),
        sorted(r1),
        permutes(a, r2),
        sorted(r2),
    ensures
        r1 == r2,
{
    lemma_sorted_unique(r1, r2);
}

/// The elements of `s` are non-increasing: sorted in reverse.
pub open spec fn sorted_desc(s: Seq<usize>) -> bool {
    forall|i: int, j: int| 0 <= i <= j < s.len() ==> s[i] >= s[j]
}

/// Two sorted runs whose elements do not cross concatenate to a sorted run.
pub proof fn lemma_sorted_concat(a: Seq<usize>, b: Seq<usize>)
    requires
        sorted(a),
        sorted(b),
        forall|i: int, j: int| 0 <= i < a.len() && 0 <= j < b.len() ==> a[i] <= b[j],
    ensures
        sorted(a + b),
{
    assert forall|i: int, j: int| 0 <= i <= j < (a + b).len() implies (a + b)[i] <= (a + b)[j] by {
        if i < a.len() && j >= a.len() {
            assert((a + b)[i] == a[i]);
            assert((a + b)[j] == b[j - a.len()]);
        }
    }
}

/// The reverse-order counterpart of `lemma_sorted_concat`.
pub proof fn lemma_sorted_desc_concat(a: Seq<usize>, b: Seq<usize>)
    requires
        sorted_desc(a),
        sorted_desc(b),
        forall|i: int, j: int| 0 <= i < a.len() && 0 <= j < b.len() ==> a[i] >= b[j],
    ensures
        sorted_desc(a + b),
{
    assert forall|i: int, j: int| 0 <= i <= j < (a + b).len() implies (a + b)[i] >= (a + b)[j] by {
        if i < a.len() && j >= a.len() {
            assert((a + b)[i] == a[i]);
            assert((a + b)[j] == b[j - a.len()]);
        }
    }
}

/// Rotating the region `[ins, next]` right by one place, so that the element
/// at `next` lands at `ins`, rearranges that region and touches nothing else.
pub proof fn lemma_rotation_rearranges(pre: Seq<usize>, f: Seq<usize>, ins: int, next: int)
    requires
        0 <= ins <= next < pre.len(),
        f.len() == pre.len(),
        f[ins] == pre[next],
        forall|m: int| ins < m <= next ==> f[m] == pre[m - 1],
        forall|m: int| 0 <= m < pre.len() && !(ins <= m <= next) ==> f[m] == pre[m],
    ensures
        rearranged_in(pre, f, ins, next + 1),
{
    broadcast use vstd::multiset::group_multiset_axioms;

    assert(f.subrange(ins, next + 1) =~= seq![pre[next]] + pre.subrange(ins, next));
    assert(pre.subrange(ins, next + 1) =~= pre.subrange(ins, next) + seq![pre[next]]);
    lemma_multiset_commutative(seq![pre[next]], pre.subrange(ins, next));
    lemma_multiset_commutative(pre.subrange(ins, next), seq![pre[next]]);
    assert(f.subrange(ins, next + 1).to_multiset() =~= pre.subrange(ins, next + 1).to_multiset());
}

/// An empty sequence holds the empty multiset.
pub proof fn lemma_empty_to_multiset(s: Seq<usize>)
    requires
        s.len() == 0,
    ensures
        s.to_multiset() == Multiset::<usize>::empty(),
{
    vstd::seq_lib::to_multiset_len(s);
    vstd::multiset::lemma_multiset_empty_len(s.to_multiset());
}

/// The same fact for a sequence of any element type.
pub proof fn lemma_empty_to_multiset_generic<T>(s: Seq<T>)
    requires
        s.len() == 0,
    ensures
        s.to_multiset() == Multiset::<T>::empty(),
{
    vstd::seq_lib::to_multiset_len(s);
    vstd::multiset::lemma_multiset_empty_len(s.to_multiset());
}

/// Chained comparison along adjacent positions.
proof fn lemma_le_chain(s: Seq<usize>, lo: int, hi: int, i: int, j: int)
    requires
        forall|k: int| lo <= k < hi - 1 ==> #[trigger] s[k] <= s[k + 1],
        lo <= i <= j < hi,
    ensures
        s[i] <= s[j],
    decreases j - i,
{
    if i < j {
        lemma_le_chain(s, lo, hi, i, j - 1);
    }
}

/// A region whose adjacent pairs are in order is sorted.
pub proof fn lemma_sorted_from_adjacent(s: Seq<usize>, lo: int, hi: int)
    requires
        forall|k: int| lo <= k < hi - 1 ==> #[trigger] s[k] <= s[k + 1],
    ensures
        sorted_between(s, lo, hi),
{
    assert forall|i: int, j: int| lo <= i <= j < hi implies s[i] <= s[j] by {
        lemma_le_chain(s, lo, hi, i, j);
    }
}

/// A rearrangement of the whole array is a permutation of it.
pub proof fn lemma_rearranged_full(a: Seq<usize>, b: Seq<usize>)
    requires
        rearranged_in(a, b, 0, a.len() as int),
    ensures
        permutes(a, b),
{
    assert(a.subrange(0, a.len() as int) =~= a);
    assert(b.subrange(0, b.len() as int) =~= b);
}

/// Exchange the elements at positions `i` and `j`.
pub fn swap_items(v: &mut Vec<usize>, i: usize, j: usize)
    requires
        i < old(v)@.len(),
        j < old(v)@.len(),
    ensures
        final(v)@ == old(v)@.update(i as int, old(v)@[j as int]).update(
            j as int,
            old(v)@[i as int],
        ),
        final(v)@.len() == old(v)@.len(),
{
    let a = v[i];
    let b = v[j];
    v[i] = b;
    v[j] = a;
}

} // verus!
