//! The call-trace recorder: a flat, append-only arena of timed work-unit
//! records. Each record points back at its parent by index, never forward,
//! so the tree has no ownership cycles; children are found by scanning the
//! arena for records whose parent index matches. Opening a record returns
//! its arena index, closing it stamps the completion time, and a renderer
//! walks the tree to an indented text form whose exact content — which
//! records appear, under which parents, in which sibling order, cut at
//! which depth — is pinned by the rendering functions stated here.

use vstd::prelude::*;
use vstd::seq_lib::to_multiset_insert;
use vstd::seq_lib::to_multiset_build;
use vstd::string::StringExecFns;

verus! {

/// Relies on `std::time::SystemTime::now`: the wall clock, read as whole
/// microseconds since the UNIX epoch, or zero for a clock before the epoch.
/// Nothing is assumed about the value; two reads may return anything.
#[verifier::external_body]
fn now_micros() -> u64 {
    match std::time::SystemTime::now().duration_since(std::time::UNIX_EPOCH) {
        Ok(d) => d.as_micros() as u64,
        Err(_) => 0,
    }
}

/// The decimal rendering of a number: a function of the number alone.
pub uninterp spec fn decimal_of(n: u64) -> Seq<char>;

/// Relies on the `format` macro: the decimal digits of `n`, the same text
/// for the same number on every call.
#[verifier::external_body]
fn u64_text(n: u64) -> (r: String)
    ensures
        r@ == decimal_of(n),
{
    format!("{}", n)
}

/// The payload a sort attaches to each trace record: the bounds of the
/// region the unit of work covered, relative to the original call, and a
/// label for the algorithm that handled it.
#[derive(Clone, Debug)]
pub struct SliceCounterItem {
    pub start_index: usize,
    pub end_index: usize,
    pub method: Option<&'static str>,
}

/// One unit of work: when it started and ended (microsecond wall-clock
/// stamps), how large its region was, whether it opened a new thread, an
/// optional payload, and the arena index of the unit that spawned it.
#[derive(Clone, Debug)]
pub struct CounterItem<T> {
    pub start: u64,
    pub end: Option<u64>,
    pub size: usize,
    pub is_new_thread: bool,
    pub data: Option<T>,
    pub parent_index: Option<usize>,
}

/// The arena of trace records.
#[derive(Clone, Debug)]
pub struct Counter<T> {
    pub items: Vec<CounterItem<T>>,
}

/// How to order sibling records when the tree is rendered.
#[derive(Clone, Copy, Debug, PartialEq, Eq, Structural)]
pub enum ChildOrder {
    /// In the order the records entered the arena.
    Insertion,
    /// Smallest region first; records of equal size keep arena order.
    BySize,
}

/// A parent reference stays inside the part of the arena that existed when
/// the record was made.
pub open spec fn parent_ok(parent_index: Option<usize>, len: int) -> bool {
    match parent_index {
        Some(p) => p < len,
        None => true,
    }
}

/// Every record's parent reference points strictly backwards.
pub open spec fn items_wf<T>(items: Seq<CounterItem<T>>) -> bool {
    forall|i: int| 0 <= i < items.len() ==> parent_ok(#[trigger] items[i].parent_index, i)
}

/// The children of `parent` among the first `upto` records, in arena order.
pub open spec fn insertion_children<T>(
    items: Seq<CounterItem<T>>,
    parent: usize,
    upto: int,
) -> Seq<usize>
    decreases upto,
{
    if upto <= 0 {
        Seq::empty()
    } else {
        let pre = insertion_children(items, parent, upto - 1);
        if items[upto - 1].parent_index == Some(parent) {
            pre.push((upto - 1) as usize)
        } else {
            pre
        }
    }
}

/// Insert `x` after every listed record whose region is no larger, so that
/// records of equal size keep their relative order.
pub open spec fn insert_by_size<T>(
    items: Seq<CounterItem<T>>,
    l: Seq<usize>,
    x: usize,
) -> Seq<usize>
    decreases l.len(),
{
    if l.len() == 0 {
        seq![x]
    } else if items[l[0] as int].size <= items[x as int].size {
        seq![l[0]] + insert_by_size(items, l.drop_first(), x)
    } else {
        seq![x] + l
    }
}

/// The smallest-first arrangement of `asc`, built by inserting each listed
/// record in turn.
pub open spec fn by_size_from<T>(items: Seq<CounterItem<T>>, asc: Seq<usize>) -> Seq<usize>
    decreases asc.len(),
{
    if asc.len() == 0 {
        Seq::empty()
    } else {
        insert_by_size(items, by_size_from(items, asc.drop_last()), asc.last())
    }
}

/// The sibling list of `parent` in the requested order.
pub open spec fn children_list<T>(
    items: Seq<CounterItem<T>>,
    parent: usize,
    child_order: ChildOrder,
) -> Seq<usize> {
    let asc = insertion_children(items, parent, items.len() as int);
    match child_order {
        ChildOrder::Insertion => asc,
        ChildOrder::BySize => by_size_from(items, asc),
    }
}

/// Two spaces of indentation per tree level.
pub open spec fn indent_chars(depth: int) -> Seq<char>
    decreases depth,
{
    if depth <= 0 {
        Seq::empty()
    } else {
        indent_chars(depth - 1) + "  "@
    }
}

/// The elapsed time a closed record shows: completion minus start, clamped
/// at zero for a clock that moved backwards.
pub open spec fn elapsed_of<T>(item: CounterItem<T>) -> u64 {
    match item.end {
        Some(e) => if e >= item.start {
            (e - item.start) as u64
        } else {
            0
        },
        None => 0,
    }
}

/// One rendered line: a line break, the indentation, the arena index in
/// brackets, the new-thread mark, the region size, and either the elapsed
/// time or a note that the record is still open.
pub open spec fn line_chars<T>(item: CounterItem<T>, index: u64, depth: int) -> Seq<char> {
    "\n"@ + indent_chars(depth) + "["@ + decimal_of(index) + "]"@ + (if item.is_new_thread {
        " T"@
    } else {
        Seq::<char>::empty()
    }) + " size = "@ + decimal_of(item.size as u64) + (match item.end {
        Some(e) => "; elapsed = "@ + decimal_of(elapsed_of(item)) + " us"@,
        None => "; {no end time}"@,
    })
}

/// Whether children at the next level are rendered under a record at
/// `depth`.
pub open spec fn render_below(max_depth: Option<usize>, depth: int) -> bool {
    match max_depth {
        Some(limit) => limit > depth,
        None => true,
    }
}

/// The rendering of the record at `index` and, when the cutoff allows, of
/// its whole subtree beneath it.
pub open spec fn render_subtree<T>(
    items: Seq<CounterItem<T>>,
    index: usize,
    depth: int,
    max_depth: Option<usize>,
    child_order: ChildOrder,
) -> Seq<char>
    decreases items.len() - index, 2int, 0int,
    when index < items.len() && items_wf(items)
{
    line_chars(items[index as int], index as u64, depth) + if render_below(max_depth, depth) {
        render_forest(
            items,
            index,
            children_list(items, index, child_order),
            depth + 1,
            max_depth,
            child_order,
        )
    } else {
        Seq::<char>::empty()
    }
}

/// The renderings of a list of sibling subtrees, in list order.
pub open spec fn render_forest<T>(
    items: Seq<CounterItem<T>>,
    parent: usize,
    roots: Seq<usize>,
    depth: int,
    max_depth: Option<usize>,
    child_order: ChildOrder,
) -> Seq<char>
    decreases items.len() - parent, 1int, roots.len(),
    when parent < items.len() && items_wf(items) && forall|k: int|
        0 <= k < roots.len() ==> parent < #[trigger] roots[k] < items.len()
{
    if roots.len() == 0 {
        Seq::<char>::empty()
    } else {
        render_subtree(items, roots[0], depth, max_depth, child_order) + render_forest(
            items,
            parent,
            roots.drop_first(),
            depth,
            max_depth,
            child_order,
        )
    }
}

/// Rendering a list of siblings and then one more renders the list and the
/// extra subtree in order.
proof fn lemma_render_forest_push<T>(
    items: Seq<CounterItem<T>>,
    parent: usize,
    l: Seq<usize>,
    r: usize,
    depth: int,
    max_depth: Option<usize>,
    child_order: ChildOrder,
)
    requires
        items_wf(items),
        parent < items.len(),
        forall|k: int| 0 <= k < l.len() ==> parent < #[trigger] l[k] < items.len(),
        parent < r < items.len(),
    ensures
        render_forest(items, parent, l.push(r), depth, max_depth, child_order) == render_forest(
            items,
            parent,
            l,
            depth,
            max_depth,
            child_order,
        ) + render_subtree(items, r, depth, max_depth, child_order),
    decreases l.len(),
{
    let lp = l.push(r);
    assert(forall|k: int| 0 <= k < lp.len() ==> parent < #[trigger] lp[k] < items.len());
    if l.len() == 0 {
        assert(lp[0] == r);
        assert(lp.drop_first() =~= Seq::<usize>::empty());
        assert(render_forest(items, parent, lp.drop_first(), depth, max_depth, child_order)
            =~= Seq::<char>::empty());
        assert(render_forest(items, parent, lp, depth, max_depth, child_order) =~= render_forest(
            items,
            parent,
            l,
            depth,
            max_depth,
            child_order,
        ) + render_subtree(items, r, depth, max_depth, child_order));
    } else {
        assert(lp[0] == l[0]);
        assert(lp.drop_first() =~= l.drop_first().push(r));
        assert(forall|k: int|
            0 <= k < l.drop_first().len() ==> parent < #[trigger] l.drop_first()[k]
                < items.len());
        lemma_render_forest_push(items, parent, l.drop_first(), r, depth, max_depth, child_order);
        assert(render_forest(items, parent, lp, depth, max_depth, child_order) =~= render_forest(
            items,
            parent,
            l,
            depth,
            max_depth,
            child_order,
        ) + render_subtree(items, r, depth, max_depth, child_order));
    }
}

/// Inserting at the first position whose record is strictly larger is the
/// stable insertion the specification performs.
proof fn lemma_insert_by_size_at<T>(items: Seq<CounterItem<T>>, l: Seq<usize>, x: usize, pos: int)
    requires
        0 <= pos <= l.len(),
        forall|p: int|
            0 <= p < pos ==> items[(#[trigger] l[p]) as int].size <= items[x as int].size,
        pos < l.len() ==> items[l[pos] as int].size > items[x as int].size,
    ensures
        insert_by_size(items, l, x) == l.insert(pos, x),
    decreases l.len(),
{
    if l.len() == 0 {
        assert(insert_by_size(items, l, x) =~= l.insert(0, x));
    } else if pos == 0 {
        assert(insert_by_size(items, l, x) =~= l.insert(0, x));
    } else {
        assert(items[l[0] as int].size <= items[x as int].size);
        assert(forall|p: int|
            0 <= p < pos - 1 ==> items[(#[trigger] l.drop_first()[p]) as int].size
                <= items[x as int].size);
        lemma_insert_by_size_at(items, l.drop_first(), x, pos - 1);
        assert(insert_by_size(items, l, x) =~= l.insert(pos, x));
    }
}

impl<T> Counter<T> {
    /// Every record's parent reference points strictly backwards.
    pub open spec fn wf(self) -> bool {
        items_wf(self.items@)
    }

    /// Sibling indices listed in non-decreasing region size.
    pub open spec fn sized_in_order(self, r: Seq<usize>) -> bool {
        forall|m1: int, m2: int|
            0 <= m1 <= m2 < r.len() ==> self.items@[r[m1] as int].size
                <= self.items@[r[m2] as int].size
    }

    pub fn new() -> (c: Counter<T>)
        ensures
            c.items@.len() == 0,
            c.wf(),
    {
        Counter { items: Vec::new() }
    }

    /// Open a record for a unit of work that has just begun and return its
    /// arena index. The parent reference, if any, must name an existing
    /// record.
    pub fn start(
        &mut self,
        size: usize,
        data: Option<T>,
        is_new_thread: bool,
        parent_index: Option<usize>,
    ) -> (index: usize)
        requires
            old(self).wf(),
            parent_ok(parent_index, old(self).items@.len() as int),
            old(self).items@.len() < usize::MAX,
        ensures
            final(self).wf(),
            index == old(self).items@.len(),
            final(self).items@.len() == old(self).items@.len() + 1,
            forall|i: int|
                0 <= i < old(self).items@.len() ==> final(self).items@[i] == old(self).items@[i],
            final(self).items@[index as int].size == size,
            final(self).items@[index as int].is_new_thread == is_new_thread,
            final(self).items@[index as int].data == data,
            final(self).items@[index as int].parent_index == parent_index,
            final(self).items@[index as int].end is None,
    {
        self.items.push(
            CounterItem { start: now_micros(), end: None, size, is_new_thread, data, parent_index },
        );
        self.items.len() - 1
    }

    /// Close the record at `index`, stamping its completion time. Everything
    /// else in the arena is left alone.
    pub fn end(&mut self, index: usize)
        requires
            old(self).wf(),
            index < old(self).items@.len(),
        ensures
            final(self).wf(),
            final(self).items@.len() == old(self).items@.len(),
            forall|i: int|
                0 <= i < old(self).items@.len() && i != index ==> final(self).items@[i] == old(
                    self,
                ).items@[i],
            final(self).items@[index as int].end is Some,
            final(self).items@[index as int].start == old(self).items@[index as int].start,
            final(self).items@[index as int].size == old(self).items@[index as int].size,
            final(self).items@[index as int].is_new_thread == old(
                self,
            ).items@[index as int].is_new_thread,
            final(self).items@[index as int].data == old(self).items@[index as int].data,
            final(self).items@[index as int].parent_index == old(
                self,
            ).items@[index as int].parent_index,
    {
        let t = now_micros();
        let ghost before = self.items@;
        let item = self.items.remove(index);
        let closed = CounterItem { end: Some(t), ..item };
        self.items.insert(index, closed);
        proof {
            assert(self.items@ =~= before.update(index as int, self.items@[index as int]));
        }
    }

    /// The arena indices of the records spawned by the record at `index`,
    /// in the requested sibling order: exactly the sibling list the
    /// rendering functions speak of. Children are found by scanning the
    /// arena; every child sits strictly after its parent.
    pub fn children_of(&self, index: usize, child_order: ChildOrder) -> (r: Vec<usize>)
        requires
            self.wf(),
            index < self.items@.len(),
        ensures
            r@ == children_list(self.items@, index, child_order),
            forall|m: int|
                0 <= m < r@.len() ==> index < #[trigger] r@[m] < self.items@.len()
                    && self.items@[r@[m] as int].parent_index == Some(index),
            forall|j: int|
                index < j < self.items@.len() && self.items@[j].parent_index == Some(index)
                    ==> r@.contains(j as usize),
            child_order == ChildOrder::Insertion ==> forall|m1: int, m2: int|
                0 <= m1 < m2 < r@.len() ==> r@[m1] < r@[m2],
            child_order == ChildOrder::BySize ==> self.sized_in_order(r@),
    {
        let mut r: Vec<usize> = Vec::new();
        let len = self.items.len();
        let mut j: usize = 0;
        while j < len
            invariant
                j <= len == self.items@.len(),
                index < self.items@.len(),
                self.wf(),
                r@ == insertion_children(self.items@, index, j as int),
                forall|m: int|
                    0 <= m < r@.len() ==> index < #[trigger] r@[m] < self.items@.len()
                        && self.items@[r@[m] as int].parent_index == Some(index),
                forall|jj: int|
                    index < jj < j && self.items@[jj].parent_index == Some(index) ==> r@.contains(
                        jj as usize,
                    ),
                forall|m: int| 0 <= m < r@.len() ==> r@[m] < j,
                forall|m1: int, m2: int| 0 <= m1 < m2 < r@.len() ==> r@[m1] < r@[m2],
            decreases len - j,
        {
            let is_child = match self.items[j].parent_index {
                Some(p) => p == index,
                None => false,
            };
            if is_child {
                let ghost rb = r@;
                r.push(j);
                proof {
                    assert(forall|m: int| 0 <= m < rb.len() ==> r@[m] == rb[m]);
                    assert(r@[rb.len() as int] == j);
                    assert forall|jj: int|
                        index < jj < j + 1 && self.items@[jj].parent_index == Some(index)
                        implies r@.contains(jj as usize) by {
                        if jj < j {
                            let m = choose|m: int| 0 <= m < rb.len() && rb[m] == jj as usize;
                            assert(r@[m] == jj as usize);
                        } else {
                            assert(r@[rb.len() as int] == jj as usize);
                        }
                    }
                }
            }
            j = j + 1;
        }
        if child_order == ChildOrder::BySize {
            self.sort_children_by_size(&mut r, index);
        }
        r
    }

    /// Rearrange a list of child indices smallest region first, records of
    /// equal size keeping their order, by inserting each index at its
    /// stable position: exactly the smallest-first arrangement the
    /// rendering functions speak of.
    fn sort_children_by_size(&self, r: &mut Vec<usize>, index: usize)
        requires
            self.wf(),
            index < self.items@.len(),
            forall|m: int|
                0 <= m < old(r)@.len() ==> index < #[trigger] old(r)@[m] < self.items@.len()
                    && self.items@[old(r)@[m] as int].parent_index == Some(index),
        ensures
            final(r)@ == by_size_from(self.items@, old(r)@),
            final(r)@.len() == old(r)@.len(),
            final(r)@.to_multiset() == old(r)@.to_multiset(),
            forall|m: int|
                0 <= m < final(r)@.len() ==> index < #[trigger] final(r)@[m] < self.items@.len()
                    && self.items@[final(r)@[m] as int].parent_index == Some(index),
            forall|j: int|
                #[trigger] old(r)@.contains(j as usize) ==> final(r)@.contains(j as usize),
            self.sized_in_order(final(r)@),
    {
        broadcast use vstd::multiset::group_multiset_axioms;

        let ghost asc = r@;
        let mut out: Vec<usize> = Vec::new();
        let n = r.len();
        let mut k: usize = 0;
        proof {
            crate::order::lemma_empty_to_multiset_generic::<usize>(out@);
            crate::order::lemma_empty_to_multiset_generic::<usize>(asc.take(0));
            assert(out@ =~= by_size_from(self.items@, asc.take(0)));
        }
        while k < n
            invariant
                k <= n == asc.len(),
                r@ == asc,
                index < self.items@.len(),
                self.wf(),
                forall|m: int|
                    0 <= m < asc.len() ==> index < #[trigger] asc[m] < self.items@.len()
                        && self.items@[asc[m] as int].parent_index == Some(index),
                out@ == by_size_from(self.items@, asc.take(k as int)),
                out@.len() == k,
                out@.to_multiset() == asc.take(k as int).to_multiset(),
                forall|m: int|
                    0 <= m < out@.len() ==> index < #[trigger] out@[m] < self.items@.len()
                        && self.items@[out@[m] as int].parent_index == Some(index),
                self.sized_in_order(out@),
            decreases n - k,
        {
            let x = r[k];
            let mut pos: usize = 0;
            let ol = out.len();
            while pos < ol && self.items[out[pos]].size <= self.items[x].size
                invariant
                    pos <= ol == out@.len(),
                    index < self.items@.len(),
                    x < self.items@.len(),
                    forall|m: int| 0 <= m < out@.len() ==> #[trigger] out@[m] < self.items@.len(),
                    forall|p: int|
                        0 <= p < pos ==> self.items@[(#[trigger] out@[p]) as int].size
                            <= self.items@[x as int].size,
                decreases ol - pos,
            {
                pos = pos + 1;
            }
            let ghost before = out@;
            out.insert(pos, x);
            proof {
                lemma_insert_by_size_at(self.items@, before, x, pos as int);
                assert(asc.take(k + 1).drop_last() =~= asc.take(k as int));
                assert(asc.take(k + 1).last() == asc[k as int]);
                assert(out@ == insert_by_size(self.items@, before, x));
                assert(out@ == by_size_from(self.items@, asc.take(k + 1)));
                to_multiset_insert(before, pos as int, x);
                assert(asc.take(k + 1) =~= asc.take(k as int).push(asc[k as int]));
                to_multiset_build(asc.take(k as int), asc[k as int]);
                assert(out@.to_multiset() =~= asc.take(k + 1).to_multiset());
                assert forall|m1: int, m2: int|
                    0 <= m1 <= m2 < out@.len() implies self.items@[out@[m1] as int].size
                    <= self.items@[out@[m2] as int].size by {
                    if m1 < pos {
                        assert(out@[m1] == before[m1]);
                    } else if m1 > pos {
                        assert(out@[m1] == before[m1 - 1]);
                    }
                    if m2 < pos {
                        assert(out@[m2] == before[m2]);
                    } else if m2 > pos {
                        assert(out@[m2] == before[m2 - 1]);
                    }
                }
            }
            k = k + 1;
        }
        proof {
            assert(asc.take(n as int) =~= asc);
            assert forall|j: int| #[trigger] asc.contains(j as usize) implies out@.contains(
                j as usize,
            ) by {
                vstd::seq_lib::to_multiset_contains(asc, j as usize);
                vstd::seq_lib::to_multiset_contains(out@, j as usize);
            }
        }
        *r = out;
    }

    /// Render the arena as an indented tree, exactly as the rendering
    /// functions state it: the root record's line, then, while above the
    /// `max_depth` cutoff, each record's children beneath it in the chosen
    /// sibling order, one line per record. Rendering reads the arena only;
    /// it can never change what was recorded.
    pub fn describe_deep(&self, max_depth: Option<usize>, child_order: ChildOrder) -> (s: String)
        requires
            self.wf(),
            self.items@.len() > 0,
        ensures
            s@ == render_subtree(self.items@, 0, 0, max_depth, child_order),
            s@.len() > 0,
    {
        let mut s = String::new();
        self.describe_deep_internal(&mut s, 0, 0, max_depth, child_order);
        proof {
            assert(s@ =~= render_subtree(self.items@, 0, 0, max_depth, child_order));
        }
        s
    }

    fn describe_deep_internal(
        &self,
        s: &mut String,
        index: usize,
        depth: usize,
        max_depth: Option<usize>,
        child_order: ChildOrder,
    )
        requires
            self.wf(),
            index < self.items@.len(),
            depth <= index,
        ensures
            final(s)@ == old(s)@ + render_subtree(
                self.items@,
                index,
                depth as int,
                max_depth,
                child_order,
            ),
            final(s)@.len() > old(s)@.len(),
        decreases self.items@.len() - index,
    {
        let ghost s0 = s@;
        proof {
            reveal_strlit("\n");
        }
        s.append("\n");
        let ghost s1 = s@;
        proof {
            assert(s1.len() == s0.len() + 1);
        }
        let mut d: usize = 0;
        while d < depth
            invariant
                d <= depth,
                s@ == s1 + indent_chars(d as int),
            decreases depth - d,
        {
            s.append("  ");
            proof {
                assert(s@ =~= s1 + indent_chars(d + 1));
            }
            d = d + 1;
        }
        s.append("[");
        let idx_text = u64_text(index as u64);
        s.append(idx_text.as_str());
        s.append("]");
        if self.items[index].is_new_thread {
            s.append(" T");
        }
        s.append(" size = ");
        let size_text = u64_text(self.items[index].size as u64);
        s.append(size_text.as_str());
        match self.items[index].end {
            Some(e) => {
                let start = self.items[index].start;
                let elapsed = if e >= start {
                    e - start
                } else {
                    0
                };
                proof {
                    assert(elapsed == elapsed_of(self.items@[index as int]));
                }
                s.append("; elapsed = ");
                let elapsed_text = u64_text(elapsed);
                s.append(elapsed_text.as_str());
                s.append(" us");
            },
            None => {
                s.append("; {no end time}");
            },
        }
        let ghost line = line_chars(self.items@[index as int], index as u64, depth as int);
        proof {
            assert(s@ =~= s0 + line);
            assert(line.len() >= 1);
        }
        let render_children = match max_depth {
            Some(limit) => limit > depth,
            None => true,
        };
        proof {
            assert(render_children == render_below(max_depth, depth as int));
        }
        if render_children {
            let children = self.children_of(index, child_order);
            let mut c: usize = 0;
            proof {
                assert(children@.take(0) =~= Seq::<usize>::empty());
                assert(render_forest(
                    self.items@,
                    index,
                    children@.take(0),
                    depth + 1,
                    max_depth,
                    child_order,
                ) =~= Seq::<char>::empty());
                assert(s@ =~= s0 + line + render_forest(
                    self.items@,
                    index,
                    children@.take(0),
                    depth + 1,
                    max_depth,
                    child_order,
                ));
            }
            while c < children.len()
                invariant
                    self.wf(),
                    index < self.items@.len(),
                    depth <= index,
                    c <= children@.len(),
                    forall|m: int|
                        0 <= m < children@.len() ==> index < #[trigger] children@[m]
                            < self.items@.len(),
                    s@ == s0 + line + render_forest(
                        self.items@,
                        index,
                        children@.take(c as int),
                        depth + 1,
                        max_depth,
                        child_order,
                    ),
                decreases children@.len() - c,
            {
                let child = children[c];
                self.describe_deep_internal(s, child, depth + 1, max_depth, child_order);
                proof {
                    assert(children@.take(c + 1) =~= children@.take(c as int).push(
                        children@[c as int],
                    ));
                    assert(forall|k: int|
                        0 <= k < children@.take(c as int).len() ==> index
                            < #[trigger] children@.take(c as int)[k] < self.items@.len());
                    lemma_render_forest_push(
                        self.items@,
                        index,
                        children@.take(c as int),
                        children@[c as int],
                        depth + 1,
                        max_depth,
                        child_order,
                    );
                    assert(s@ =~= s0 + line + render_forest(
                        self.items@,
                        index,
                        children@.take(c + 1),
                        depth + 1,
                        max_depth,
                        child_order,
                    ));
                }
                c = c + 1;
            }
            proof {
                assert(children@.take(children@.len() as int) =~= children@);
                assert(children@ == children_list(self.items@, index, child_order));
                assert(s@ =~= s0 + render_subtree(
                    self.items@,
                    index,
                    depth as int,
                    max_depth,
                    child_order,
                ));
            }
        } else {
            proof {
                assert(line + Seq::<char>::empty() =~= line);
                assert(s@ =~= s0 + render_subtree(
                    self.items@,
                    index,
                    depth as int,
                    max_depth,
                    child_order,
                ));
            }
        }
    }
}

} // verus!
