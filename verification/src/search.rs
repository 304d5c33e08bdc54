//! Binary search for an insertion point inside a sorted region. Both the
//! in-place merger and the insertion sorts place each element by first
//! finding where it belongs in an already-settled sorted prefix.

use vstd::prelude::*;
use crate::order::sorted_between;

verus! {

/// Find an insertion point for `x` in the sorted region `[lo, hi)`:
/// an index `r` with everything before it at most `x` and everything from it
/// on at least `x`. When `x` occurs in the region, some position holding `x`
/// may be returned; otherwise `r` is the unique boundary index.
pub fn binary_search_insert_point(v: &Vec<usize>, lo: usize, hi: usize, x: usize) -> (r: usize)
    requires
        lo <= hi,
        hi <= v@.len(),
        sorted_between(v@, lo as int, hi as int),
    ensures
        lo <= r <= hi,
        forall|k: int| lo <= k < r ==> v@[k] <= x,
        forall|k: int| r <= k < hi ==> v@[k] >= x,
{
    let mut a = lo;
    let mut b = hi;
    while a < b
        invariant
            lo <= a <= b <= hi <= v@.len(),
            sorted_between(v@, lo as int, hi as int),
            forall|k: int| lo <= k < a ==> v@[k] <= x,
            forall|k: int| b <= k < hi ==> v@[k] >= x,
        decreases b - a,
    {
        let m = a + (b - a) / 2;
        if v[m] < x {
            a = m + 1;
        } else if v[m] > x {
            b = m;
        } else {
            return m;
        }
    }
    a
}

} // verus!
