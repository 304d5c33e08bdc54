//! A set of disjoint index ranges, used to check that an array really was
//! split into non-overlapping regions before the regions were handed out.
//! Ranges may merge with adjacent ones as they are added, can be subtracted
//! back out, and the set can report the uncovered holes against a declared
//! full range. Disjointness is the structural invariant: no two ranges in
//! the set ever share an index.

use vstd::prelude::*;
use vstd::seq_lib::to_multiset_insert;
use vstd::seq_lib::to_multiset_contains;
use core::ops::Range;

verus! {

/// `x` lies inside the half-open range.
pub open spec fn range_covers(r: Range<usize>, x: int) -> bool {
    r.start <= x < r.end
}

/// Some range of the sequence holds `x`.
pub open spec fn seq_covers(rs: Seq<Range<usize>>, x: int) -> bool {
    exists|i: int| 0 <= i < rs.len() && range_covers(#[trigger] rs[i], x)
}

/// Some reported gap holds `x`.
pub open spec fn in_gaps(gaps: Seq<Range<usize>>, x: int) -> bool {
    exists|i: int| 0 <= i < gaps.len() && range_covers(#[trigger] gaps[i], x)
}

/// `x` lies at or after some held range's start and before some held
/// range's end: the span within which a hole counts as a gap even without a
/// declared full range.
pub open spec fn spanned(rs: Seq<Range<usize>>, x: int) -> bool {
    (exists|i: int| 0 <= i < rs.len() && (#[trigger] rs[i]).start <= x) && (exists|j: int|
        0 <= j < rs.len() && x < (#[trigger] rs[j]).end)
}

/// Every index in the walk's settled span is covered or reported as a gap.
pub open spec fn walk_covered(
    ord: Seq<Range<usize>>,
    gaps: Seq<Range<usize>>,
    low: int,
    upto: int,
) -> bool {
    forall|x: int| low <= x < upto ==> seq_covers(ord, x) || #[trigger] in_gaps(gaps, x)
}

/// Every reported gap lies inside the span of the held ranges.
pub open spec fn gaps_spanned(ord: Seq<Range<usize>>, gaps: Seq<Range<usize>>) -> bool {
    forall|i: int, x: int|
        0 <= i < gaps.len() && #[trigger] range_covers(gaps[i], x) ==> spanned(ord, x)
}

/// Where the walk's settled span begins: the full range's start when one is
/// declared, the first held range's start otherwise.
pub open spec fn walk_low(full_range: Option<Range<usize>>, ord: Seq<Range<usize>>) -> int {
    match full_range {
        Some(fr) => fr.start as int,
        None => ord[0].start as int,
    }
}

/// Every range is non-empty and no two ranges share an index.
pub open spec fn ranges_disjoint(rs: Seq<Range<usize>>) -> bool {
    &&& forall|i: int| 0 <= i < rs.len() ==> (#[trigger] rs[i]).start < rs[i].end
    &&& forall|i: int, j: int|
        0 <= i < j < rs.len() ==> (#[trigger] rs[i]).end <= (#[trigger] rs[j]).start || rs[j].end
            <= rs[i].start
}

/// Disjoint non-empty ranges that lie inside the full range when one is
/// declared.
pub open spec fn ranges_wf(rs: Seq<Range<usize>>, full_range: Option<Range<usize>>) -> bool {
    &&& ranges_disjoint(rs)
    &&& match full_range {
        Some(fr) => forall|i: int|
            0 <= i < rs.len() ==> fr.start <= (#[trigger] rs[i]).start && rs[i].end <= fr.end,
        None => true,
    }
}

/// Disjoint non-empty ranges are pairwise unequal.
proof fn lemma_disjoint_distinct(rs: Seq<Range<usize>>)
    requires
        ranges_disjoint(rs),
    ensures
        forall|i: int, j: int| 0 <= i < rs.len() && 0 <= j < rs.len() && i != j ==> #[trigger] rs[i]
            != #[trigger] rs[j],
{
    assert forall|i: int, j: int|
        0 <= i < rs.len() && 0 <= j < rs.len() && i != j implies #[trigger] rs[i]
        != #[trigger] rs[j] by {
        if i < j {
            assert(rs[i].end <= rs[j].start || rs[j].end <= rs[i].start);
        } else {
            assert(rs[j].end <= rs[i].start || rs[i].end <= rs[j].start);
        }
    }
}

/// `r2` holds exactly the members of `r0` except the values `removed`, with
/// no duplicates.
pub open spec fn sub_seq_shape(
    r0: Seq<Range<usize>>,
    r2: Seq<Range<usize>>,
    removed: Seq<Range<usize>>,
) -> bool {
    &&& forall|i: int| 0 <= i < r2.len() ==> r0.contains(#[trigger] r2[i])
    &&& forall|i: int| 0 <= i < r2.len() ==> !removed.contains(#[trigger] r2[i])
    &&& forall|oi: int|
        0 <= oi < r0.len() && !removed.contains(#[trigger] r0[oi]) ==> r2.contains(r0[oi])
    &&& forall|k: int| 0 <= k < removed.len() ==> r0.contains(#[trigger] removed[k])
    &&& forall|i: int, j: int|
        0 <= i < r2.len() && 0 <= j < r2.len() && i != j ==> #[trigger] r2[i] != #[trigger] r2[j]
}

/// Removing one element of a duplicate-free sequence leaves exactly the
/// other members.
proof fn lemma_remove_shape(r0: Seq<Range<usize>>, r1: Seq<Range<usize>>, k: int)
    requires
        ranges_disjoint(r0),
        0 <= k < r0.len(),
        r1 == r0.remove(k),
    ensures
        sub_seq_shape(r0, r1, seq![r0[k]]),
        ranges_disjoint(r1),
{
    lemma_disjoint_distinct(r0);
    assert(forall|m: int| 0 <= m < k ==> r1[m] == r0[m]);
    assert(forall|m: int| k <= m < r1.len() ==> r1[m] == r0[m + 1]);
    let removed = seq![r0[k]];
    assert(removed[0] == r0[k]);
    assert(r0.contains(removed[0]));
    assert forall|i: int| 0 <= i < r1.len() implies r0.contains(#[trigger] r1[i]) by {
        let oi = if i < k {
            i
        } else {
            i + 1
        };
        assert(r0[oi] == r1[i]);
    }
    assert forall|i: int| 0 <= i < r1.len() implies !removed.contains(#[trigger] r1[i]) by {
        let oi = if i < k {
            i
        } else {
            i + 1
        };
        assert(r0[oi] == r1[i]);
        assert(r0[oi] != r0[k]);
        if removed.contains(r1[i]) {
            let m = choose|m: int| 0 <= m < removed.len() && removed[m] == r1[i];
            assert(m == 0);
        }
    }
    assert forall|oi: int|
        0 <= oi < r0.len() && !removed.contains(#[trigger] r0[oi]) implies r1.contains(
        r0[oi],
    ) by {
        assert(removed[0] == r0[k]);
        assert(oi != k);
        let i = if oi < k {
            oi
        } else {
            oi - 1
        };
        assert(r1[i] == r0[oi]);
    }
    assert forall|i: int, j: int|
        0 <= i < r1.len() && 0 <= j < r1.len() && i != j implies #[trigger] r1[i]
        != #[trigger] r1[j] by {
        let oi = if i < k {
            i
        } else {
            i + 1
        };
        let oj = if j < k {
            j
        } else {
            j + 1
        };
        assert(r1[i] == r0[oi]);
        assert(r1[j] == r0[oj]);
    }
    assert forall|i: int, j: int|
        0 <= i < j < r1.len() implies (#[trigger] r1[i]).end <= (#[trigger] r1[j]).start
        || r1[j].end <= r1[i].start by {
        let oi = if i < k {
            i
        } else {
            i + 1
        };
        let oj = if j < k {
            j
        } else {
            j + 1
        };
        assert(r1[i] == r0[oi]);
        assert(r1[j] == r0[oj]);
        assert(r0[oi].end <= r0[oj].start || r0[oj].end <= r0[oi].start);
    }
}

/// Composing two removal shapes.
proof fn lemma_compose_shape(
    r0: Seq<Range<usize>>,
    r1: Seq<Range<usize>>,
    r2: Seq<Range<usize>>,
    a: Range<usize>,
    b: Range<usize>,
)
    requires
        sub_seq_shape(r0, r1, seq![a]),
        sub_seq_shape(r1, r2, seq![b]),
    ensures
        sub_seq_shape(r0, r2, seq![a, b]),
{
    let removed = seq![a, b];
    assert(removed[0] == a);
    assert(removed[1] == b);
    assert(seq![a][0] == a);
    assert(seq![b][0] == b);
    assert forall|i: int| 0 <= i < r2.len() implies r0.contains(#[trigger] r2[i]) by {
        assert(r1.contains(r2[i]));
        let j = choose|j: int| 0 <= j < r1.len() && r1[j] == r2[i];
        assert(r0.contains(r1[j]));
    }
    assert forall|i: int| 0 <= i < r2.len() implies !removed.contains(#[trigger] r2[i]) by {
        assert(!seq![b].contains(r2[i]));
        let j = choose|j: int| 0 <= j < r1.len() && r1[j] == r2[i];
        assert(!seq![a].contains(r1[j]));
        if removed.contains(r2[i]) {
            let m = choose|m: int| 0 <= m < removed.len() && removed[m] == r2[i];
            if m == 0 {
                assert(seq![a].contains(r1[j]));
            } else {
                assert(seq![b].contains(r2[i]));
            }
        }
    }
    assert forall|oi: int|
        0 <= oi < r0.len() && !removed.contains(#[trigger] r0[oi]) implies r2.contains(
        r0[oi],
    ) by {
        assert(!removed.contains(r0[oi]));
        assert(removed[0] == a && removed[1] == b);
        assert(r0[oi] != a && r0[oi] != b);
        assert(!seq![a].contains(r0[oi])) by {
            if seq![a].contains(r0[oi]) {
                let m = choose|m: int| 0 <= m < 1 && seq![a][m] == r0[oi];
                assert(m == 0);
            }
        }
        assert(r1.contains(r0[oi]));
        let j = choose|j: int| 0 <= j < r1.len() && r1[j] == r0[oi];
        assert(!seq![b].contains(r1[j])) by {
            if seq![b].contains(r1[j]) {
                let m = choose|m: int| 0 <= m < 1 && seq![b][m] == r1[j];
                assert(m == 0);
            }
        }
        assert(r2.contains(r1[j]));
    }
    assert forall|k: int| 0 <= k < removed.len() implies r0.contains(#[trigger] removed[k]) by {
        if k == 0 {
            assert(seq![a][0] == a);
            assert(r0.contains(a));
        } else {
            assert(seq![b][0] == b);
            assert(r1.contains(b));
            let j = choose|j: int| 0 <= j < r1.len() && r1[j] == b;
            assert(r0.contains(r1[j]));
        }
    }
}

/// The trivial shape: nothing removed.
proof fn lemma_identity_shape(r0: Seq<Range<usize>>)
    requires
        ranges_disjoint(r0),
    ensures
        sub_seq_shape(r0, r0, Seq::<Range<usize>>::empty()),
{
    lemma_disjoint_distinct(r0);
    assert forall|i: int| 0 <= i < r0.len() implies r0.contains(#[trigger] r0[i]) by {
    }
}

/// Removing a range removes exactly its coverage claim.
proof fn lemma_seq_covers_sub(
    r0: Seq<Range<usize>>,
    r2: Seq<Range<usize>>,
    removed: Seq<Range<usize>>,
    x: int,
)
    requires
        sub_seq_shape(r0, r2, removed),
    ensures
        seq_covers(r2, x) ==> seq_covers(r0, x),
        seq_covers(r0, x) && !(exists|k: int|
            0 <= k < removed.len() && range_covers(#[trigger] removed[k], x)) ==> seq_covers(
            r2,
            x,
        ),
{
    if seq_covers(r2, x) {
        let i = choose|i: int| 0 <= i < r2.len() && range_covers(#[trigger] r2[i], x);
        assert(r0.contains(r2[i]));
        let oi = choose|oi: int| 0 <= oi < r0.len() && r0[oi] == r2[i];
        assert(range_covers(r0[oi], x));
    }
    if seq_covers(r0, x) && !(exists|k: int|
        0 <= k < removed.len() && range_covers(#[trigger] removed[k], x)) {
        let oi = choose|oi: int| 0 <= oi < r0.len() && range_covers(#[trigger] r0[oi], x);
        if removed.contains(r0[oi]) {
            let k = choose|k: int| 0 <= k < removed.len() && removed[k] == r0[oi];
            assert(range_covers(removed[k], x));
        } else {
            assert(r2.contains(r0[oi]));
            let i = choose|i: int| 0 <= i < r2.len() && r2[i] == r0[oi];
            assert(range_covers(r2[i], x));
        }
    }
}

/// A pushed range adds exactly its coverage claim.
proof fn lemma_seq_covers_push(rs: Seq<Range<usize>>, r: Range<usize>, x: int)
    ensures
        seq_covers(rs.push(r), x) <==> (seq_covers(rs, x) || range_covers(r, x)),
{
    let r2 = rs.push(r);
    if seq_covers(rs, x) {
        let k = choose|k: int| 0 <= k < rs.len() && range_covers(#[trigger] rs[k], x);
        assert(r2[k] == rs[k]);
        assert(range_covers(r2[k], x));
    }
    if range_covers(r, x) {
        assert(r2[rs.len() as int] == r);
    }
    if seq_covers(r2, x) {
        let k = choose|k: int| 0 <= k < r2.len() && range_covers(#[trigger] r2[k], x);
        if k < rs.len() {
            assert(rs[k] == r2[k]);
            assert(range_covers(rs[k], x));
        }
    }
}

/// A collection of non-overlapping index ranges.
pub struct RangeSet {
    pub allow_gaps: bool,
    pub merge_adds: bool,
    pub full_range: Option<Range<usize>>,
    pub ranges: Vec<Range<usize>>,
}

impl RangeSet {
    /// The ranges currently held, as a sequence.
    pub open spec fn ranges_seq(self) -> Seq<Range<usize>> {
        self.ranges@
    }

    /// Index `x` lies in some held range.
    pub open spec fn covers(self, x: int) -> bool {
        seq_covers(self.ranges_seq(), x)
    }

    /// The structural invariant: disjoint non-empty ranges, inside the full
    /// range when one was declared.
    pub open spec fn wf(self) -> bool {
        ranges_wf(self.ranges_seq(), self.full_range)
    }

    /// An empty set under the given policy.
    pub fn new(allow_gaps: bool, merge_adds: bool, full_range: Option<Range<usize>>) -> (s:
        RangeSet)
        ensures
            s.wf(),
            s.allow_gaps == allow_gaps,
            s.merge_adds == merge_adds,
            s.full_range == full_range,
            s.ranges_seq().len() == 0,
            forall|x: int| !s.covers(x),
    {
        RangeSet { allow_gaps, merge_adds, full_range, ranges: Vec::new() }
    }

    /// Add a non-empty range that overlaps nothing already held and respects
    /// the declared full range. Exactly the added indices become covered;
    /// under the merging policy, held ranges that touch the new one
    /// end-to-start are fused with it, which changes no coverage.
    pub fn add_range(&mut self, other: &Range<usize>)
        requires
            old(self).wf(),
            other.start < other.end,
            match old(self).full_range {
                Some(fr) => fr.start <= other.start && other.start < fr.end && other.end
                    > fr.start && other.end <= fr.end,
                None => true,
            },
            forall|i: int|
                0 <= i < old(self).ranges_seq().len() ==> !((#[trigger] old(
                    self,
                ).ranges_seq()[i]).start <= other.start < old(self).ranges_seq()[i].end),
            forall|i: int|
                0 <= i < old(self).ranges_seq().len() ==> !(other.start <= (#[trigger] old(
                    self,
                ).ranges_seq()[i]).start < other.end),
        ensures
            final(self).wf(),
            final(self).allow_gaps == old(self).allow_gaps,
            final(self).merge_adds == old(self).merge_adds,
            final(self).full_range == old(self).full_range,
            forall|x: int|
                final(self).covers(x) <==> (old(self).covers(x) || (other.start <= x < other.end)),
            exists|i: int|
                0 <= i < final(self).ranges_seq().len()
                    && (#[trigger] final(self).ranges_seq()[i]).start <= other.start
                    && other.end <= final(self).ranges_seq()[i].end,
    {
        let ghost r0 = self.ranges@;
        let mut working_start = other.start;
        let mut working_end = other.end;
        let ghost mut removed: Seq<Range<usize>> = Seq::empty();
        proof {
            lemma_identity_shape(r0);
        }
        if self.merge_adds {
            let mut li: usize = 0;
            let n = self.ranges.len();
            while li < n && self.ranges[li].end != other.start
                invariant
                    li <= n == self.ranges@.len(),
                    self.ranges@ == r0,
                    forall|k: int| 0 <= k < li ==> (#[trigger] self.ranges@[k]).end != other.start,
                decreases n - li,
            {
                li = li + 1;
            }
            if li < n {
                let ghost lr = self.ranges@[li as int];
                working_start = self.ranges[li].start;
                self.ranges.remove(li);
                proof {
                    lemma_remove_shape(r0, self.ranges@, li as int);
                    removed = seq![lr];
                }
            }
            let ghost r1 = self.ranges@;
            let mut ri: usize = 0;
            let n2 = self.ranges.len();
            while ri < n2 && self.ranges[ri].start != other.end
                invariant
                    ri <= n2 == self.ranges@.len(),
                    self.ranges@ == r1,
                    forall|k: int| 0 <= k < ri ==> (#[trigger] self.ranges@[k]).start != other.end,
                decreases n2 - ri,
            {
                ri = ri + 1;
            }
            if ri < n2 {
                let ghost rr = self.ranges@[ri as int];
                working_end = self.ranges[ri].end;
                self.ranges.remove(ri);
                proof {
                    if removed.len() == 1 {
                        lemma_remove_shape(r1, self.ranges@, ri as int);
                        lemma_compose_shape(r0, r1, self.ranges@, removed[0], rr);
                        removed = seq![removed[0], rr];
                    } else {
                        lemma_remove_shape(r0, self.ranges@, ri as int);
                        removed = seq![rr];
                    }
                }
            }
        }
        let ghost r2 = self.ranges@;
        let ghost pushed = Range { start: working_start, end: working_end };
        self.ranges.push(Range { start: working_start, end: working_end });
        proof {
            assert(fuse_shape(removed, *other, pushed));
            assert(self.ranges@ == r2.push(pushed));
            lemma_add_range_wf(r0, r2, removed, *other, pushed, self.full_range);
            assert forall|x: int|
                self.covers(x) <==> (old(self).covers(x) || (other.start <= x < other.end)) by {
                lemma_add_range_coverage(r0, r2, removed, *other, pushed, x);
                assert(seq_covers(self.ranges@, x) == seq_covers(r2.push(pushed), x));
                assert(seq_covers(old(self).ranges@, x) == seq_covers(r0, x));
            }
            assert(self.ranges_seq()[r2.len() as int] == pushed);
            assert(pushed.start <= other.start && other.end <= pushed.end);
        }
    }

    /// Remove a non-empty span that lies wholly inside one held range.
    /// Exactly the subtracted indices stop being covered; what is left of
    /// the split range stays.
    pub fn subtract_range(&mut self, other: &Range<usize>)
        requires
            old(self).wf(),
            other.start < other.end,
            exists|i: int|
                0 <= i < old(self).ranges_seq().len() && (#[trigger] old(
                    self,
                ).ranges_seq()[i]).start <= other.start && other.end <= old(
                    self,
                ).ranges_seq()[i].end,
        ensures
            final(self).wf(),
            final(self).allow_gaps == old(self).allow_gaps,
            final(self).merge_adds == old(self).merge_adds,
            final(self).full_range == old(self).full_range,
            forall|x: int|
                final(self).covers(x) <==> (old(self).covers(x) && !(other.start <= x
                    < other.end)),
    {
        let ghost r0 = self.ranges@;
        let mut fi: usize = 0;
        let n = self.ranges.len();
        while fi < n && !(self.ranges[fi].start <= other.start && other.end
            <= self.ranges[fi].end)
            invariant
                fi <= n == self.ranges@.len(),
                self.ranges@ == r0,
                exists|i: int|
                    0 <= i < r0.len() && (#[trigger] r0[i]).start <= other.start && other.end
                        <= r0[i].end,
                forall|k: int|
                    0 <= k < fi ==> !((#[trigger] r0[k]).start <= other.start && other.end
                        <= r0[k].end),
            decreases n - fi,
        {
            fi = fi + 1;
        }
        proof {
            if fi >= n {
                let i = choose|i: int|
                    0 <= i < r0.len() && (#[trigger] r0[i]).start <= other.start && other.end
                        <= r0[i].end;
                assert(false);
            }
        }
        let found_start = self.ranges[fi].start;
        let found_end = self.ranges[fi].end;
        let ghost found = r0[fi as int];
        self.ranges.remove(fi);
        proof {
            lemma_remove_shape(r0, self.ranges@, fi as int);
        }
        let ghost r1 = self.ranges@;
        if other.start > found_start {
            self.ranges.push(Range { start: found_start, end: other.start });
        }
        let ghost rmid = self.ranges@;
        if other.end < found_end {
            self.ranges.push(Range { start: other.end, end: found_end });
        }
        proof {
            let flank1 = Range { start: found.start, end: other.start };
            let flank2 = Range { start: other.end, end: found.end };
            assert forall|x: int|
                seq_covers(self.ranges@, x) <==> (seq_covers(r0, x) && !(other.start <= x
                    < other.end)) by {
                lemma_seq_covers_sub(r0, r1, seq![found], x);
                if other.start > found.start {
                    lemma_seq_covers_push(r1, flank1, x);
                }
                if other.end < found.end {
                    lemma_seq_covers_push(rmid, flank2, x);
                }
                if seq_covers(r1, x) {
                    let i = choose|i: int| 0 <= i < r1.len() && range_covers(#[trigger] r1[i], x);
                    let oi = choose|oi: int| 0 <= oi < r0.len() && r0[oi] == r1[i];
                    assert(range_covers(r0[oi], x));
                    if other.start <= x < other.end {
                        // a second range would overlap the split one
                        assert(r1[i] != found);
                        assert(oi != fi) by {
                            if oi == fi {
                                assert(r1[i] == found);
                            }
                        }
                        if oi < fi {
                            assert(r0[oi].end <= r0[fi as int].start || r0[fi as int].end
                                <= r0[oi].start);
                        } else {
                            assert(r0[fi as int].end <= r0[oi].start || r0[oi].end
                                <= r0[fi as int].start);
                        }
                        assert(range_covers(found, x));
                        assert(false);
                    }
                }
                if seq_covers(r0, x) && !(other.start <= x < other.end) && range_covers(found, x) {
                    if x < other.start {
                        assert(range_covers(flank1, x));
                    } else {
                        assert(range_covers(flank2, x));
                    }
                }
                if seq_covers(r0, x) && !(other.start <= x < other.end) && !range_covers(
                    found,
                    x,
                ) {
                    let oi = choose|oi: int|
                        0 <= oi < r0.len() && range_covers(#[trigger] r0[oi], x);
                    assert(!seq![found].contains(r0[oi]) ==> seq_covers(r1, x)) by {
                        lemma_seq_covers_sub(r0, r1, seq![found], x);
                    }
                    if seq![found].contains(r0[oi]) {
                        let m = choose|m: int| 0 <= m < 1 && seq![found][m] == r0[oi];
                        assert(r0[oi] == found);
                        assert(false);
                    }
                }
            }
            // The flanks sit inside the removed range, so disjointness and
            // the bounds carry over.
            assert forall|i: int| 0 <= i < r1.len() implies (#[trigger] r1[i]).end <= found.start
                || found.end <= r1[i].start by {
                let oi = choose|oi: int| 0 <= oi < r0.len() && r0[oi] == r1[i];
                assert(oi != fi) by {
                    if oi == fi {
                        assert(r1[i] == found);
                        assert(seq![found][0] == found);
                        assert(seq![found].contains(r1[i]));
                    }
                }
                if oi < fi {
                    assert(r0[oi].end <= r0[fi as int].start || r0[fi as int].end <= r0[oi].start);
                } else {
                    assert(r0[fi as int].end <= r0[oi].start || r0[oi].end <= r0[fi as int].start);
                }
            }
            assert forall|i: int, j: int|
                0 <= i < j < self.ranges@.len() implies (#[trigger] self.ranges@[i]).end
                <= (#[trigger] self.ranges@[j]).start || self.ranges@[j].end
                <= self.ranges@[i].start by {
                if i < r1.len() && j < r1.len() {
                    assert(self.ranges@[i] == r1[i]);
                    assert(self.ranges@[j] == r1[j]);
                    let oi = choose|oi: int| 0 <= oi < r0.len() && r0[oi] == r1[i];
                    let oj = choose|oj: int| 0 <= oj < r0.len() && r0[oj] == r1[j];
                    assert(oi != oj) by {
                        if oi == oj {
                            assert(r1[i] == r1[j]);
                        }
                    }
                    if oi < oj {
                        assert(r0[oi].end <= r0[oj].start || r0[oj].end <= r0[oi].start);
                    } else {
                        assert(r0[oj].end <= r0[oi].start || r0[oi].end <= r0[oj].start);
                    }
                } else if i < r1.len() {
                    assert(self.ranges@[i] == r1[i]);
                    assert(self.ranges@[j] == flank1 || self.ranges@[j] == flank2);
                } else {
                    assert(self.ranges@[i] == flank1);
                    assert(self.ranges@[j] == flank2);
                }
            }
            assert forall|i: int| 0 <= i < self.ranges@.len() implies (#[trigger] self.ranges@[i]).start
                < self.ranges@[i].end by {
                if i < r1.len() {
                    let oi = choose|oi: int| 0 <= oi < r0.len() && r0[oi] == r1[i];
                }
            }
            match &self.full_range {
                Some(fr) => {
                    assert forall|i: int| 0 <= i < self.ranges@.len() implies fr.start
                        <= (#[trigger] self.ranges@[i]).start && self.ranges@[i].end <= fr.end by {
                        if i < r1.len() {
                            let oi = choose|oi: int| 0 <= oi < r0.len() && r0[oi] == r1[i];
                        }
                    }
                },
                None => {},
            }
        }
    }

    /// The held ranges, ordered by their starting index.
    pub fn ranges_in_order(&self) -> (r: Vec<Range<usize>>)
        ensures
            r@.len() == self.ranges_seq().len(),
            r@.to_multiset() == self.ranges_seq().to_multiset(),
            forall|m1: int, m2: int|
                0 <= m1 <= m2 < r@.len() ==> (#[trigger] r@[m1]).start <= (#[trigger] r@[m2]).start,
    {
        broadcast use vstd::multiset::group_multiset_axioms;

        let mut r: Vec<Range<usize>> = Vec::new();
        let n = self.ranges.len();
        let mut i: usize = 0;
        proof {
            crate::order::lemma_empty_to_multiset_generic::<Range<usize>>(r@);
            crate::order::lemma_empty_to_multiset_generic::<Range<usize>>(
                self.ranges@.subrange(0, 0),
            );
        }
        while i < n
            invariant
                i <= n == self.ranges@.len(),
                r@.len() == i,
                r@.to_multiset() == self.ranges@.subrange(0, i as int).to_multiset(),
                forall|m1: int, m2: int|
                    0 <= m1 <= m2 < r@.len() ==> (#[trigger] r@[m1]).start
                        <= (#[trigger] r@[m2]).start,
            decreases n - i,
        {
            let next = Range { start: self.ranges[i].start, end: self.ranges[i].end };
            let mut pos: usize = 0;
            let rl = r.len();
            while pos < rl && r[pos].start <= next.start
                invariant
                    pos <= rl == r@.len(),
                    forall|k: int| 0 <= k < pos ==> (#[trigger] r@[k]).start <= next.start,
                decreases rl - pos,
            {
                pos = pos + 1;
            }
            let ghost rb = r@;
            r.insert(pos, next);
            proof {
                to_multiset_insert(rb, pos as int, next);
                assert(next == self.ranges@[i as int]);
                assert(self.ranges@.subrange(0, i + 1) =~= self.ranges@.subrange(0, i as int).push(
                    self.ranges@[i as int],
                ));
                vstd::seq_lib::to_multiset_build(self.ranges@.subrange(0, i as int), next);
                assert(r@.to_multiset() =~= self.ranges@.subrange(0, i + 1).to_multiset());
                assert forall|m1: int, m2: int|
                    0 <= m1 <= m2 < r@.len() implies (#[trigger] r@[m1]).start
                    <= (#[trigger] r@[m2]).start by {
                    if m1 < pos {
                        assert(r@[m1] == rb[m1]);
                    } else if m1 > pos {
                        assert(r@[m1] == rb[m1 - 1]);
                    }
                    if m2 < pos {
                        assert(r@[m2] == rb[m2]);
                    } else if m2 > pos {
                        assert(r@[m2] == rb[m2 - 1]);
                    }
                }
            }
            i = i + 1;
        }
        proof {
            assert(self.ranges@.subrange(0, n as int) =~= self.ranges@);
        }
        r
    }

    /// Walk the held ranges in start order and report the holes. Under the
    /// structural invariant no ranges can overlap or escape the declared
    /// bounds, so the second and third report lists come back empty; the
    /// first holds the uncovered spans between the ranges and, when a full
    /// range is declared, before the first range and after the last. The
    /// gap list is sound and complete: every reported span is uncovered,
    /// and every uncovered index — inside the full range when one is
    /// declared, within the span of the held ranges otherwise — lies in
    /// some reported gap. With a full range declared and at least one range
    /// held, an empty gap list says exactly that every index of the full
    /// range is covered.
    pub fn get_gaps_and_overlaps(&self) -> (r: (
        Vec<Range<usize>>,
        Vec<Range<usize>>,
        Vec<Range<usize>>,
    ))
        requires
            self.wf(),
        ensures
            r.1@.len() == 0,
            r.2@.len() == 0,
            self.ranges_seq().len() == 0 ==> r.0@.len() == 0,
            forall|i: int, x: int|
                0 <= i < r.0@.len() && #[trigger] range_covers(r.0@[i], x) ==> !self.covers(x),
            forall|i: int| 0 <= i < r.0@.len() ==> (#[trigger] r.0@[i]).start < r.0@[i].end,
            match self.full_range {
                Some(fr) => {
                    &&& forall|i: int|
                        0 <= i < r.0@.len() ==> fr.start <= (#[trigger] r.0@[i]).start
                            && r.0@[i].end <= fr.end
                    &&& (self.ranges_seq().len() > 0 ==> (r.0@.len() == 0 <==> (forall|x: int|
                        fr.start <= x < fr.end ==> self.covers(x))))
                    &&& (self.ranges_seq().len() > 0 ==> forall|x: int|
                        fr.start <= x < fr.end && !self.covers(x) ==> #[trigger] in_gaps(
                            r.0@,
                            x,
                        ))
                },
                None => {
                    &&& forall|x: int|
                        spanned(self.ranges_seq(), x) && !self.covers(x) ==> #[trigger] in_gaps(
                            r.0@,
                            x,
                        )
                    &&& gaps_spanned(self.ranges_seq(), r.0@)
                },
            },
    {
        let ordered = self.ranges_in_order();
        proof {
            lemma_ordered_chain(self.ranges@, ordered@, self.full_range);
        }
        let mut gaps: Vec<Range<usize>> = Vec::new();
        let mut overlaps: Vec<Range<usize>> = Vec::new();
        let mut out_of_bounds: Vec<Range<usize>> = Vec::new();
        let n = ordered.len();
        let mut idx: usize = 0;
        let mut prev_end: usize = 0;
        while idx < n
            invariant
                self.wf(),
                n == ordered@.len(),
                idx <= n,
                ordered@.to_multiset() == self.ranges@.to_multiset(),
                forall|i: int| 0 <= i < n ==> (#[trigger] ordered@[i]).start < ordered@[i].end,
                forall|i: int, j: int| 0 <= i < j < n ==> (#[trigger] ordered@[i]).end
                    <= (#[trigger] ordered@[j]).start,
                forall|m1: int, m2: int|
                    0 <= m1 <= m2 < n ==> (#[trigger] ordered@[m1]).start
                        <= (#[trigger] ordered@[m2]).start,
                match self.full_range {
                    Some(fr) => forall|i: int|
                        0 <= i < n ==> fr.start <= (#[trigger] ordered@[i]).start
                            && ordered@[i].end <= fr.end,
                    None => true,
                },
                idx > 0 ==> prev_end == ordered@[idx - 1].end,
                overlaps@.len() == 0,
                out_of_bounds@.len() == 0,
                forall|i: int, x: int|
                    0 <= i < gaps@.len() && #[trigger] range_covers(gaps@[i], x) ==> !seq_covers(
                        ordered@,
                        x,
                    ),
                forall|i: int| 0 <= i < gaps@.len() ==> (#[trigger] gaps@[i]).start < gaps@[i].end,
                match self.full_range {
                    Some(fr) => forall|i: int|
                        0 <= i < gaps@.len() ==> fr.start <= (#[trigger] gaps@[i]).start
                            && gaps@[i].end <= fr.end,
                    None => true,
                },
                match self.full_range {
                    Some(fr) => (idx > 0 && gaps@.len() == 0) ==> (fr.start <= prev_end
                        && forall|x: int|
                        fr.start <= x < prev_end ==> seq_covers(ordered@, x)),
                    None => true,
                },
                idx > 0 ==> walk_covered(
                    ordered@,
                    gaps@,
                    walk_low(self.full_range, ordered@),
                    prev_end as int,
                ),
                self.full_range is None ==> gaps_spanned(ordered@, gaps@),
                n == 0 ==> gaps@.len() == 0,
            decreases n - idx,
        {
            if idx == 0 {
                match &self.full_range {
                    Some(fr) => {
                        if ordered[0].start < fr.start {
                            proof {
                                assert(false);
                            }
                            out_of_bounds.push(
                                Range { start: ordered[0].start, end: ordered[0].end },
                            );
                        } else if ordered[0].start > fr.start {
                            let ghost gb = gaps@;
                            gaps.push(Range { start: fr.start, end: ordered[0].start });
                            proof {
                                assert forall|i: int, x: int|
                                    0 <= i < gaps@.len() && #[trigger] range_covers(gaps@[i], x)
                                    implies !seq_covers(ordered@, x) by {
                                    if i < gb.len() {
                                        assert(gaps@[i] == gb[i]);
                                    } else {
                                        if seq_covers(ordered@, x) {
                                            let k = choose|k: int|
                                                0 <= k < ordered@.len() && range_covers(
                                                    #[trigger] ordered@[k],
                                                    x,
                                                );
                                            assert(ordered@[0].start <= ordered@[k].start);
                                        }
                                    }
                                }
                                assert forall|x: int|
                                    fr.start <= x < ordered@[0].end implies seq_covers(
                                    ordered@,
                                    x,
                                ) || #[trigger] in_gaps(gaps@, x) by {
                                    if x < ordered@[0].start {
                                        assert(range_covers(gaps@[gb.len() as int], x));
                                    } else {
                                        assert(range_covers(ordered@[0], x));
                                    }
                                }
                                assert(walk_covered(
                                    ordered@,
                                    gaps@,
                                    walk_low(self.full_range, ordered@),
                                    ordered@[0].end as int,
                                ));
                            }
                        } else {
                            proof {
                                assert forall|x: int|
                                    fr.start <= x < ordered@[0].end implies seq_covers(
                                    ordered@,
                                    x,
                                ) || #[trigger] in_gaps(gaps@, x) by {
                                    assert(fr.start <= ordered@[0].start);
                                    assert(range_covers(ordered@[0], x));
                                }
                                assert(walk_covered(
                                    ordered@,
                                    gaps@,
                                    walk_low(self.full_range, ordered@),
                                    ordered@[0].end as int,
                                ));
                            }
                        }
                    },
                    None => {
                        proof {
                            assert forall|x: int|
                                ordered@[0].start <= x < ordered@[0].end implies seq_covers(
                                ordered@,
                                x,
                            ) || #[trigger] in_gaps(gaps@, x) by {
                                assert(range_covers(ordered@[0], x));
                            }
                            assert(walk_covered(
                                ordered@,
                                gaps@,
                                walk_low(self.full_range, ordered@),
                                ordered@[0].end as int,
                            ));
                        }
                    },
                }
            } else {
                if ordered[idx].start < prev_end {
                    proof {
                        assert(ordered@[idx - 1].end <= ordered@[idx as int].start);
                        assert(false);
                    }
                    overlaps.push(Range { start: ordered[idx].start, end: prev_end });
                } else if ordered[idx].start > prev_end {
                    let ghost gb = gaps@;
                    gaps.push(Range { start: prev_end, end: ordered[idx].start });
                    proof {
                        assert forall|i: int, x: int|
                            0 <= i < gaps@.len() && #[trigger] range_covers(gaps@[i], x)
                            implies !seq_covers(ordered@, x) by {
                            if i < gb.len() {
                                assert(gaps@[i] == gb[i]);
                            } else {
                                if seq_covers(ordered@, x) {
                                    let k = choose|k: int|
                                        0 <= k < ordered@.len() && range_covers(
                                            #[trigger] ordered@[k],
                                            x,
                                        );
                                    if k < idx {
                                        if k < idx - 1 {
                                            assert(ordered@[k].end <= ordered@[idx - 1].start);
                                        }
                                        assert(ordered@[k].end <= prev_end);
                                    } else {
                                        assert(ordered@[idx as int].start
                                            <= ordered@[k].start);
                                    }
                                }
                            }
                        }
                        assert forall|x: int|
                            walk_low(self.full_range, ordered@) <= x < ordered@[idx as int].end
                            implies seq_covers(ordered@, x) || #[trigger] in_gaps(gaps@, x) by {
                            if x < prev_end {
                                assert(seq_covers(ordered@, x) || in_gaps(gb, x));
                                if in_gaps(gb, x) {
                                    let i = choose|i: int|
                                        0 <= i < gb.len() && range_covers(#[trigger] gb[i], x);
                                    assert(gaps@[i] == gb[i]);
                                }
                            } else if x < ordered@[idx as int].start {
                                assert(range_covers(gaps@[gb.len() as int], x));
                            } else {
                                assert(range_covers(ordered@[idx as int], x));
                            }
                        }
                        assert(walk_covered(
                            ordered@,
                            gaps@,
                            walk_low(self.full_range, ordered@),
                            ordered@[idx as int].end as int,
                        ));
                        match &self.full_range {
                            Some(_) => {},
                            None => {
                                assert forall|i: int, x: int|
                                    0 <= i < gaps@.len() && #[trigger] range_covers(gaps@[i], x)
                                    implies spanned(ordered@, x) by {
                                    if i < gb.len() {
                                        assert(gaps@[i] == gb[i]);
                                    } else {
                                        assert(ordered@[idx - 1].start <= x);
                                        assert(x < ordered@[idx as int].end);
                                    }
                                }
                            },
                        }
                    }
                } else {
                    proof {
                        assert(ordered@[idx as int].start == prev_end);
                        assert forall|x: int|
                            walk_low(self.full_range, ordered@) <= x < ordered@[idx as int].end
                            implies seq_covers(ordered@, x) || #[trigger] in_gaps(gaps@, x) by {
                            if x >= prev_end {
                                assert(range_covers(ordered@[idx as int], x));
                            }
                        }
                        assert(walk_covered(
                            ordered@,
                            gaps@,
                            walk_low(self.full_range, ordered@),
                            ordered@[idx as int].end as int,
                        ));
                    }
                }
            }
            let ghost old_prev = prev_end;
            let ghost old_idx = idx;
            prev_end = ordered[idx].end;
            idx = idx + 1;
            proof {
                match &self.full_range {
                    Some(fr) => {
                        if gaps@.len() == 0 {
                            assert forall|x: int| fr.start <= x < prev_end implies seq_covers(
                                ordered@,
                                x,
                            ) by {
                                if x >= ordered@[old_idx as int].start {
                                    assert(range_covers(ordered@[old_idx as int], x));
                                } else {
                                    if old_idx == 0 {
                                        assert(ordered@[0].start <= fr.start);
                                        assert(false);
                                    } else {
                                        assert(ordered@[old_idx as int].start <= old_prev);
                                        assert(x < old_prev);
                                    }
                                }
                            }
                        }
                    },
                    None => {},
                }
            }
        }
        match &self.full_range {
            Some(fr) => {
                if n > 0 {
                    if prev_end < fr.end {
                        let ghost gb = gaps@;
                        gaps.push(Range { start: prev_end, end: fr.end });
                        proof {
                            assert forall|i: int, x: int|
                                0 <= i < gaps@.len() && #[trigger] range_covers(gaps@[i], x)
                                implies !seq_covers(ordered@, x) by {
                                if i < gb.len() {
                                    assert(gaps@[i] == gb[i]);
                                } else {
                                    if seq_covers(ordered@, x) {
                                        let k = choose|k: int|
                                            0 <= k < ordered@.len() && range_covers(
                                                #[trigger] ordered@[k],
                                                x,
                                            );
                                        if k < n - 1 {
                                            assert(ordered@[k].end <= ordered@[n - 1].start);
                                        }
                                        assert(ordered@[k].end <= prev_end);
                                    }
                                }
                            }
                            assert(fr.start <= prev_end) by {
                                assert(fr.start <= ordered@[n - 1].start);
                                assert(ordered@[n - 1].start < ordered@[n - 1].end);
                            }
                            assert forall|x: int|
                                fr.start <= x < fr.end implies seq_covers(ordered@, x)
                                || #[trigger] in_gaps(gaps@, x) by {
                                if x < prev_end {
                                    assert(seq_covers(ordered@, x) || in_gaps(gb, x));
                                    if in_gaps(gb, x) {
                                        let i = choose|i: int|
                                            0 <= i < gb.len() && range_covers(
                                                #[trigger] gb[i],
                                                x,
                                            );
                                        assert(gaps@[i] == gb[i]);
                                    }
                                } else {
                                    assert(range_covers(gaps@[gb.len() as int], x));
                                }
                            }
                            assert(walk_covered(ordered@, gaps@, fr.start as int, fr.end as int));
                        }
                    } else if prev_end > fr.end {
                        proof {
                            assert(ordered@[n - 1].end <= fr.end);
                            assert(false);
                        }
                        out_of_bounds.push(Range { start: prev_end, end: prev_end });
                    }
                }
            },
            None => {},
        }
        proof {
            assert forall|i: int, x: int|
                0 <= i < gaps@.len() && #[trigger] range_covers(gaps@[i], x) implies !self.covers(
                x,
            ) by {
                lemma_seq_covers_permuted(ordered@, self.ranges@, x);
            }
            match &self.full_range {
                Some(fr) => {
                    if n > 0 {
                        if gaps@.len() == 0 {
                            assert forall|x: int| fr.start <= x < fr.end implies self.covers(
                                x,
                            ) by {
                                assert(fr.end <= prev_end);
                                assert(seq_covers(ordered@, x));
                                lemma_seq_covers_permuted(ordered@, self.ranges@, x);
                            }
                        } else {
                            let g = gaps@[0];
                            assert(range_covers(g, g.start as int));
                            assert(!self.covers(g.start as int));
                            assert(fr.start <= g.start < fr.end);
                        }
                        assert forall|x: int|
                            fr.start <= x < fr.end && !self.covers(x) implies #[trigger] in_gaps(
                            gaps@,
                            x,
                        ) by {
                            assert(fr.end <= prev_end || walk_covered(
                                ordered@,
                                gaps@,
                                fr.start as int,
                                fr.end as int,
                            ));
                            assert(seq_covers(ordered@, x) || in_gaps(gaps@, x));
                            lemma_seq_covers_permuted(ordered@, self.ranges@, x);
                        }
                    }
                },
                None => {
                    assert forall|x: int|
                        spanned(self.ranges@, x) && !self.covers(x) implies #[trigger] in_gaps(
                        gaps@,
                        x,
                    ) by {
                        let i0 = choose|i: int|
                            0 <= i < self.ranges@.len() && (#[trigger] self.ranges@[i]).start
                                <= x;
                        let j0 = choose|j: int|
                            0 <= j < self.ranges@.len() && x < (#[trigger] self.ranges@[j]).end;
                        to_multiset_contains(self.ranges@, self.ranges@[i0]);
                        to_multiset_contains(ordered@, self.ranges@[i0]);
                        let m0 = choose|m: int|
                            0 <= m < ordered@.len() && ordered@[m] == self.ranges@[i0];
                        to_multiset_contains(self.ranges@, self.ranges@[j0]);
                        to_multiset_contains(ordered@, self.ranges@[j0]);
                        let m1 = choose|m: int|
                            0 <= m < ordered@.len() && ordered@[m] == self.ranges@[j0];
                        assert(n > 0);
                        assert(ordered@[0].start <= ordered@[m0].start);
                        assert(ordered@[0].start <= x);
                        if m1 < n - 1 {
                            assert(ordered@[m1].end <= ordered@[n - 1].start);
                        }
                        assert(x < ordered@[n - 1].end);
                        assert(prev_end == ordered@[n - 1].end);
                        assert(seq_covers(ordered@, x) || in_gaps(gaps@, x));
                        lemma_seq_covers_permuted(ordered@, self.ranges@, x);
                    }
                    assert forall|i: int, x: int|
                        0 <= i < gaps@.len() && #[trigger] range_covers(gaps@[i], x)
                        implies spanned(self.ranges@, x) by {
                        assert(spanned(ordered@, x));
                        let m0 = choose|m: int|
                            0 <= m < ordered@.len() && (#[trigger] ordered@[m]).start <= x;
                        let m1 = choose|m: int|
                            0 <= m < ordered@.len() && x < (#[trigger] ordered@[m]).end;
                        to_multiset_contains(ordered@, ordered@[m0]);
                        to_multiset_contains(self.ranges@, ordered@[m0]);
                        let i0 = choose|i2: int|
                            0 <= i2 < self.ranges@.len() && self.ranges@[i2] == ordered@[m0];
                        to_multiset_contains(ordered@, ordered@[m1]);
                        to_multiset_contains(self.ranges@, ordered@[m1]);
                        let i1 = choose|i2: int|
                            0 <= i2 < self.ranges@.len() && self.ranges@[i2] == ordered@[m1];
                    }
                },
            }
        }
        (gaps, overlaps, out_of_bounds)
    }

    /// Whether the held ranges account for everything they should: always
    /// true when gaps are allowed, since overlapping and out-of-bounds
    /// ranges cannot arise under the structural invariant, and vacuously
    /// true for an empty set. Otherwise, with a full range declared and at
    /// least one range held, true exactly when every index of the full
    /// range is covered; with no full range declared, true exactly when
    /// every index within the span of the held ranges is covered.
    pub fn ranges_are_complete(&self) -> (r: bool)
        requires
            self.wf(),
        ensures
            self.allow_gaps ==> r,
            self.ranges_seq().len() == 0 ==> r,
            !self.allow_gaps ==> match self.full_range {
                Some(fr) => self.ranges_seq().len() > 0 ==> (r <==> (forall|x: int|
                    fr.start <= x < fr.end ==> self.covers(x))),
                None => r <==> (forall|x: int| spanned(self.ranges_seq(), x) ==> self.covers(x)),
            },
    {
        let (gaps, overlaps, out_of_bounds) = self.get_gaps_and_overlaps();
        let gaps_len_for_error = if self.allow_gaps {
            0
        } else {
            gaps.len()
        };
        let complete = gaps_len_for_error + overlaps.len() + out_of_bounds.len() == 0;
        proof {
            if !self.allow_gaps && self.full_range is None {
                if complete {
                    assert forall|x: int| spanned(self.ranges_seq(), x) implies self.covers(
                        x,
                    ) by {
                        if !self.covers(x) {
                            assert(in_gaps(gaps@, x));
                        }
                    }
                } else {
                    let g = gaps@[0];
                    assert(range_covers(g, g.start as int));
                    assert(!self.covers(g.start as int));
                    assert(spanned(self.ranges_seq(), g.start as int));
                }
            }
        }
        complete
    }
}


/// Two sequences holding the same ranges cover the same indices.
proof fn lemma_seq_covers_permuted(a: Seq<Range<usize>>, b: Seq<Range<usize>>, x: int)
    requires
        a.to_multiset() == b.to_multiset(),
    ensures
        seq_covers(a, x) <==> seq_covers(b, x),
{
    if seq_covers(a, x) {
        let k = choose|k: int| 0 <= k < a.len() && range_covers(#[trigger] a[k], x);
        to_multiset_contains(a, a[k]);
        to_multiset_contains(b, a[k]);
        let m = choose|m: int| 0 <= m < b.len() && b[m] == a[k];
        assert(range_covers(b[m], x));
    }
    if seq_covers(b, x) {
        let k = choose|k: int| 0 <= k < b.len() && range_covers(#[trigger] b[k], x);
        to_multiset_contains(b, b[k]);
        to_multiset_contains(a, b[k]);
        let m = choose|m: int| 0 <= m < a.len() && a[m] == b[k];
        assert(range_covers(a[m], x));
    }
}

/// Sorted disjoint ranges chain: each ends before the next begins, and when
/// a full range is declared they all sit inside it.
proof fn lemma_ordered_chain(r0: Seq<Range<usize>>, ord: Seq<Range<usize>>, full_range: Option<
    Range<usize>,
>)
    requires
        ranges_wf(r0, full_range),
        ord.to_multiset() == r0.to_multiset(),
        forall|m1: int, m2: int|
            0 <= m1 <= m2 < ord.len() ==> (#[trigger] ord[m1]).start <= (#[trigger] ord[m2]).start,
    ensures
        forall|i: int| 0 <= i < ord.len() ==> (#[trigger] ord[i]).start < ord[i].end,
        forall|i: int, j: int| 0 <= i < j < ord.len() ==> (#[trigger] ord[i]).end
            <= (#[trigger] ord[j]).start,
        match full_range {
            Some(fr) => forall|i: int|
                0 <= i < ord.len() ==> fr.start <= (#[trigger] ord[i]).start && ord[i].end
                    <= fr.end,
            None => true,
        },
{
    lemma_disjoint_distinct(r0);
    assert(r0.no_duplicates());
    r0.lemma_multiset_has_no_duplicates();
    ord.lemma_multiset_has_no_duplicates_conv();
    assert forall|i: int| 0 <= i < ord.len() implies (#[trigger] ord[i]).start < ord[i].end by {
        to_multiset_contains(ord, ord[i]);
        to_multiset_contains(r0, ord[i]);
        let oi = choose|oi: int| 0 <= oi < r0.len() && r0[oi] == ord[i];
    }
    match full_range {
        Some(fr) => {
            assert forall|i: int| 0 <= i < ord.len() implies fr.start
                <= (#[trigger] ord[i]).start && ord[i].end <= fr.end by {
                to_multiset_contains(ord, ord[i]);
                to_multiset_contains(r0, ord[i]);
                let oi = choose|oi: int| 0 <= oi < r0.len() && r0[oi] == ord[i];
            }
        },
        None => {},
    }
    assert forall|i: int, j: int| 0 <= i < j < ord.len() implies (#[trigger] ord[i]).end
        <= (#[trigger] ord[j]).start by {
        assert(ord[i] != ord[j]);
        to_multiset_contains(ord, ord[i]);
        to_multiset_contains(r0, ord[i]);
        to_multiset_contains(ord, ord[j]);
        to_multiset_contains(r0, ord[j]);
        let oi = choose|oi: int| 0 <= oi < r0.len() && r0[oi] == ord[i];
        let oj = choose|oj: int| 0 <= oj < r0.len() && r0[oj] == ord[j];
        assert(oi != oj);
        if oi < oj {
            assert(r0[oi].end <= r0[oj].start || r0[oj].end <= r0[oi].start);
        } else {
            assert(r0[oj].end <= r0[oi].start || r0[oi].end <= r0[oj].start);
        }
        assert(ord[i].start <= ord[j].start);
        assert(ord[i].start < ord[i].end);
        assert(ord[j].start < ord[j].end);
    }
}

/// How `add_range` fuses the added span with its removed neighbours: each
/// removed range touches the span end-to-start, and the pushed range runs
/// from the leftmost removed start to the rightmost removed end.
pub open spec fn fuse_shape(
    removed: Seq<Range<usize>>,
    other: Range<usize>,
    pushed: Range<usize>,
) -> bool {
    &&& removed.len() <= 2
    &&& pushed.start <= other.start && other.end <= pushed.end
    &&& (pushed.start == other.start || (removed.len() >= 1 && removed[0].end == other.start
        && removed[0].start == pushed.start))
    &&& (pushed.end == other.end || (removed.len() >= 1 && removed[removed.len() - 1].start
        == other.end && removed[removed.len() - 1].end == pushed.end))
    &&& forall|k: int|
        0 <= k < removed.len() ==> ((#[trigger] removed[k]).end == other.start && removed[k].start
            == pushed.start) || (removed[k].start == other.end && removed[k].end == pushed.end)
}

/// The coverage equation of `add_range`: after the removals and the push,
/// exactly the added indices join the covered set.
#[verifier::rlimit(40)]
proof fn lemma_add_range_coverage(
    r0: Seq<Range<usize>>,
    r2: Seq<Range<usize>>,
    removed: Seq<Range<usize>>,
    other: Range<usize>,
    pushed: Range<usize>,
    x: int,
)
    requires
        ranges_disjoint(r0),
        other.start < other.end,
        sub_seq_shape(r0, r2, removed),
        fuse_shape(removed, other, pushed),
    ensures
        seq_covers(r2.push(pushed), x) <==> (seq_covers(r0, x) || (other.start <= x
            < other.end)),
{
    {
        lemma_seq_covers_push(r2, pushed, x);
        lemma_seq_covers_sub(r0, r2, removed, x);
        if range_covers(pushed, x) && !(other.start <= x < other.end) {
            // outside the added span, the pushed range covers exactly what
            // the removed neighbours covered
            if x < other.start {
                assert(range_covers(removed[0], x));
                assert(r0.contains(removed[0]));
                let oi = choose|oi: int| 0 <= oi < r0.len() && r0[oi] == removed[0];
                assert(range_covers(r0[oi], x));
            } else {
                let k = removed.len() - 1;
                assert(range_covers(removed[k], x));
                assert(r0.contains(removed[k]));
                let oi = choose|oi: int| 0 <= oi < r0.len() && r0[oi] == removed[k];
                assert(range_covers(r0[oi], x));
            }
        }
        if exists|k: int| 0 <= k < removed.len() && range_covers(#[trigger] removed[k], x) {
            let k = choose|k: int|
                0 <= k < removed.len() && range_covers(#[trigger] removed[k], x);
            assert(range_covers(pushed, x));
        }
    }
}


/// The structural invariant survives `add_range`: every remaining range is
/// disjoint from the fused range, which stays inside the declared bounds.
#[verifier::rlimit(60)]
proof fn lemma_add_range_wf(
    r0: Seq<Range<usize>>,
    r2: Seq<Range<usize>>,
    removed: Seq<Range<usize>>,
    other: Range<usize>,
    pushed: Range<usize>,
    full_range: Option<Range<usize>>,
)
    requires
        ranges_wf(r0, full_range),
        other.start < other.end,
        match full_range {
            Some(fr) => fr.start <= other.start && other.start < fr.end && other.end > fr.start
                && other.end <= fr.end,
            None => true,
        },
        forall|i: int|
            0 <= i < r0.len() ==> !((#[trigger] r0[i]).start <= other.start < r0[i].end),
        forall|i: int|
            0 <= i < r0.len() ==> !(other.start <= (#[trigger] r0[i]).start < other.end),
        sub_seq_shape(r0, r2, removed),
        fuse_shape(removed, other, pushed),
    ensures
        ranges_wf(r2.push(pushed), full_range),
{
    let rs = r2.push(pushed);
    assert(forall|i: int| 0 <= i < r2.len() ==> rs[i] == #[trigger] r2[i]);
    assert(rs[r2.len() as int] == pushed);
    assert forall|i: int| 0 <= i < r2.len() implies (#[trigger] r2[i]).end <= pushed.start
        || pushed.end <= r2[i].start by {
        assert(r0.contains(r2[i]));
        let oi = choose|oi: int| 0 <= oi < r0.len() && r0[oi] == r2[i];
        let r = r0[oi];
        if !(r.end <= pushed.start || pushed.end <= r.start) {
            if r.start < other.end && other.start < r.end {
                if r.start < other.start {
                    assert(range_covers(r, other.start as int));
                } else {
                    assert(other.start <= r.start < other.end);
                }
                assert(false);
            } else if r.end > pushed.start && r.end <= other.start {
                // the left neighbour exists and overlaps this range
                assert(pushed.start < other.start);
                let lr = removed[0];
                assert(lr.end == other.start && lr.start == pushed.start);
                assert(r0.contains(lr));
                let li2 = choose|li2: int| 0 <= li2 < r0.len() && r0[li2] == lr;
                assert(!removed.contains(r2[i]));
                assert(removed.contains(removed[0]));
                assert(r != lr);
                assert(li2 != oi) by {
                    if li2 == oi {
                        assert(r == lr);
                    }
                }
                if li2 < oi {
                    assert(r0[li2].end <= r0[oi].start || r0[oi].end <= r0[li2].start);
                } else {
                    assert(r0[oi].end <= r0[li2].start || r0[li2].end <= r0[oi].start);
                }
                assert(false);
            } else if r.start < pushed.end && r.start >= other.end {
                // the right neighbour exists and overlaps this range
                assert(pushed.end > other.end);
                let k = removed.len() - 1;
                let rr = removed[k];
                assert(rr.start == other.end && rr.end == pushed.end);
                assert(r0.contains(rr));
                let ri2 = choose|ri2: int| 0 <= ri2 < r0.len() && r0[ri2] == rr;
                assert(!removed.contains(r2[i]));
                assert(removed.contains(removed[k]));
                assert(r != rr);
                assert(ri2 != oi) by {
                    if ri2 == oi {
                        assert(r == rr);
                    }
                }
                if ri2 < oi {
                    assert(r0[ri2].end <= r0[oi].start || r0[oi].end <= r0[ri2].start);
                } else {
                    assert(r0[oi].end <= r0[ri2].start || r0[ri2].end <= r0[oi].start);
                }
                assert(false);
            } else {
                // no zone left: the range must meet the added span itself
                assert(r.end <= other.start || r.start >= other.end);
                assert(false);
            }
        }
    }
    assert forall|i: int, j: int|
        0 <= i < j < rs.len() implies (#[trigger] rs[i]).end <= (#[trigger] rs[j]).start
        || rs[j].end <= rs[i].start by {
        if j < r2.len() {
            assert(r0.contains(r2[i]));
            assert(r0.contains(r2[j]));
            let oi = choose|oi: int| 0 <= oi < r0.len() && r0[oi] == r2[i];
            let oj = choose|oj: int| 0 <= oj < r0.len() && r0[oj] == r2[j];
            assert(oi != oj) by {
                if oi == oj {
                    assert(r2[i] == r2[j]);
                }
            }
            if oi < oj {
                assert(r0[oi].end <= r0[oj].start || r0[oj].end <= r0[oi].start);
            } else {
                assert(r0[oj].end <= r0[oi].start || r0[oi].end <= r0[oj].start);
            }
        }
    }
    assert forall|i: int| 0 <= i < rs.len() implies (#[trigger] rs[i]).start < rs[i].end by {
        if i < r2.len() {
            assert(r0.contains(r2[i]));
            let oi = choose|oi: int| 0 <= oi < r0.len() && r0[oi] == r2[i];
            assert(r0[oi].start < r0[oi].end);
        }
    }
    match full_range {
        Some(fr) => {
            assert forall|i: int| 0 <= i < rs.len() implies fr.start <= (#[trigger] rs[i]).start
                && rs[i].end <= fr.end by {
                if i < r2.len() {
                    assert(r0.contains(r2[i]));
                    let oi = choose|oi: int| 0 <= oi < r0.len() && r0[oi] == r2[i];
                } else {
                    if pushed.start != other.start {
                        assert(r0.contains(removed[0]));
                        let li2 = choose|li2: int| 0 <= li2 < r0.len() && r0[li2] == removed[0];
                    }
                    if pushed.end != other.end {
                        let k = removed.len() - 1;
                        assert(r0.contains(removed[k]));
                        let ri2 = choose|ri2: int| 0 <= ri2 < r0.len() && r0[ri2] == removed[k];
                    }
                }
            }
        },
        None => {},
    }
}

} // verus!
