use algorithms::between_threads::{
    divide_parallel_monitor, divide_parallel_mutex, divide_parallel_no_return,
    divide_parallel_settings, divide_parallel_settings_2, divide_parallel_settings_3,
    divide_simple_defer_high, divide_simple_defer_low, divide_simple_defer_low_few_parms,
    divide_simple_parallel, CallCounters, MemoryOrdering,
};
use algorithms::counter::{ChildOrder, Counter, SliceCounterItem};
use algorithms::quicksort_ptr::quicksort_parallel_ptr;
use algorithms::range::RangeSet;
use algorithms::test_data::vec_powers;

#[test]
fn defer_high_counts_units_of_work() {
    // A range of four indices with a splitting threshold of two divides
    // into two levels of halves: eleven units in all.
    assert_eq!(divide_simple_defer_high(0, 4, 2, 0, true), 11);
    assert_eq!(divide_simple_defer_high(0, 1, 2, 0, false), 2);
}

#[test]
fn defer_low_counts_units_of_work() {
    assert_eq!(divide_simple_defer_low(0, 4, 2, 0, true), 7);
    assert_eq!(divide_simple_defer_low(0, 1, 2, 0, false), 3);
}

#[test]
fn defer_low_few_parms_uses_fixed_threshold() {
    // Thirty indices under the fixed threshold of ten: the top level splits
    // into two fifteens, and each fifteen's halves are leaf work.
    assert_eq!(divide_simple_defer_low_few_parms(0, 30), 7);
    assert_eq!(
        divide_simple_defer_low_few_parms(0, 30),
        divide_simple_defer_low(0, 30, 10, 0, true)
    );
}

#[test]
fn parallel_divide_counts_calls_and_workers() {
    let (calls, threads) = divide_parallel_settings(0, 4, 2, 2, 0, true, false);
    assert_eq!(calls, 7);
    assert_eq!(threads, 1);
    let (simple_calls, simple_threads) = divide_simple_parallel(0, 4, 2, 2, 0, true, false);
    assert_eq!(simple_calls, calls);
    assert_eq!(simple_threads, threads);
    let (calls3, threads3) = divide_parallel_settings_3(0, 4, 2, 2, 0, true, false);
    assert_eq!(calls3, 7);
    assert_eq!(threads3, 1);
}

#[test]
fn parallel_divide_disables_workers_above_length() {
    let (calls, threads) = divide_parallel_settings(0, 64, 2, 1000, 0, true, false);
    assert_eq!(threads, 0);
    let (calls_eager, _) = divide_parallel_settings(0, 64, 2, 2, 0, true, false);
    assert_eq!(calls, calls_eager);
}

#[test]
fn parallel_divide_raises_selected_counter() {
    let mut counters = CallCounters::new();
    let (calls, _) = divide_parallel_settings_2(
        0,
        4,
        2,
        2,
        0,
        true,
        Some(MemoryOrdering::Relaxed),
        &mut counters,
    );
    assert_eq!(calls, 7);
    assert_eq!(counters.calls, 7);
    let mut untouched = CallCounters::new();
    divide_parallel_settings_2(0, 4, 2, 2, 0, true, None, &mut untouched);
    assert_eq!(untouched.calls, 0);
}

#[test]
fn no_return_divider_reports_through_counters_only() {
    let mut counters = CallCounters::new();
    divide_parallel_no_return(0, 4, 2, 2, 0, true, MemoryOrdering::AcqRel, &mut counters);
    assert_eq!(counters.calls, 7);
    assert_eq!(counters.threads, 1);
    assert_eq!(counters.live_threads, 0);
}

#[test]
fn monitored_divider_returns_live_count_to_zero() {
    let mut counters = CallCounters::new();
    divide_parallel_monitor(0, 16, 2, 4, 0, MemoryOrdering::SeqCst, &mut counters);
    assert!(counters.threads > 0);
    assert_eq!(counters.live_threads, 0);
}

#[test]
fn mutex_divider_counter_agrees_with_return() {
    let (calls, threads, counted) = divide_parallel_mutex(0, 4, 2, 2, 0, true);
    assert_eq!(calls, 7);
    assert_eq!(threads, 1);
    assert_eq!(counted, calls);
}

#[test]
fn trace_single_element_has_one_record() {
    // A one-element array sorts as a single unit of fallback work: the
    // trace holds exactly one record and no children.
    let mut v = vec![1];
    let trace = quicksort_parallel_ptr(&mut v, 1000, true, 7).unwrap();
    assert_eq!(v, vec![1]);
    assert_eq!(trace.items.len(), 1);
    assert_eq!(trace.items[0].size, 1);
    assert!(trace.items[0].parent_index.is_none());
    assert!(trace.items[0].end.is_some());
    assert_eq!(trace.children_of(0, ChildOrder::Insertion).len(), 0);
}

#[test]
fn trace_disabled_returns_nothing() {
    let mut v = vec![3, 1, 2];
    let trace = quicksort_parallel_ptr(&mut v, 1000, false, 0);
    assert!(trace.is_none());
    assert_eq!(v, vec![1, 2, 3]);
}

#[test]
fn trace_records_cover_recursion() {
    let mut v = vec![8, 3, 6, 1, 7, 2, 5, 4];
    let trace = quicksort_parallel_ptr(&mut v, 4, true, 2).unwrap();
    assert_eq!(v, vec![1, 2, 3, 4, 5, 6, 7, 8]);
    assert!(trace.items.len() > 1);
    assert_eq!(trace.items[0].size, 8);
    let children = trace.children_of(0, ChildOrder::Insertion);
    assert!(children.len() >= 1);
    for c in children.iter() {
        assert_eq!(trace.items[*c].parent_index, Some(0));
    }
    let description = trace.describe_deep(None, ChildOrder::BySize);
    assert!(description.contains("[0]"));
    assert!(description.contains("size = 8"));
}

#[test]
fn counter_start_and_end_stamp_records() {
    let mut counter: Counter<SliceCounterItem> = Counter::new();
    let root = counter.start(
        10,
        Some(SliceCounterItem { start_index: 0, end_index: 10, method: Some("quicksort") }),
        false,
        None,
    );
    assert_eq!(root, 0);
    let child = counter.start(
        5,
        Some(SliceCounterItem { start_index: 0, end_index: 5, method: Some("bubble sort") }),
        true,
        Some(root),
    );
    assert_eq!(child, 1);
    counter.end(child);
    counter.end(root);
    assert!(counter.items[0].end.is_some());
    assert!(counter.items[1].end.is_some());
    assert!(counter.items[1].is_new_thread);
    let children = counter.children_of(0, ChildOrder::Insertion);
    assert_eq!(children, vec![1]);
}

#[test]
fn counter_orders_children_by_size() {
    let mut counter: Counter<SliceCounterItem> = Counter::new();
    let root = counter.start(9, None, false, None);
    counter.start(6, None, false, Some(root));
    counter.start(2, None, false, Some(root));
    counter.start(4, None, false, Some(root));
    let by_size = counter.children_of(root, ChildOrder::BySize);
    assert_eq!(by_size.len(), 3);
    assert_eq!(counter.items[by_size[0]].size, 2);
    assert_eq!(counter.items[by_size[1]].size, 4);
    assert_eq!(counter.items[by_size[2]].size, 6);
}

#[test]
fn range_set_tracks_disjoint_regions() {
    let mut set = RangeSet::new(false, true, Some(0..100));
    set.add_range(&(0..50));
    assert!(!set.ranges_are_complete());
    set.add_range(&(50..100));
    assert!(set.ranges_are_complete());
    let ordered = set.ranges_in_order();
    // end-to-start neighbours fuse under the merging policy
    assert_eq!(ordered.len(), 1);
    assert_eq!(ordered[0], 0..100);
}

#[test]
fn range_set_subtract_reopens_a_hole() {
    let mut set = RangeSet::new(false, true, Some(0..100));
    set.add_range(&(0..100));
    set.subtract_range(&(20..30));
    assert!(!set.ranges_are_complete());
    let (gaps, overlaps, out_of_bounds) = set.get_gaps_and_overlaps();
    assert_eq!(gaps, vec![20..30]);
    assert_eq!(overlaps.len(), 0);
    assert_eq!(out_of_bounds.len(), 0);
    set.add_range(&(20..30));
    assert!(set.ranges_are_complete());
}

#[test]
fn parallel_divide_accepts_unit_worker_threshold() {
    // A worker threshold of one makes every non-empty first half a worker,
    // so the division runs all the way down to single indices.
    let (calls, threads) = divide_parallel_settings(0, 4, 2, 1, 0, true, false);
    assert_eq!(calls, 11);
    assert_eq!(threads, 3);
}

#[test]
fn vec_powers_multiplies_up() {
    let v = vec_powers(10, 1, 2);
    assert_eq!(v, vec![1, 2, 4, 8, 16, 32, 64, 128, 256, 512]);
    let w = vec_powers(5, 100, 10);
    assert_eq!(w, vec![100, 1_000, 10_000, 100_000, 1_000_000]);
}

#[test]
fn range_set_reports_holes_without_declared_bounds() {
    let mut set = RangeSet::new(false, false, None);
    set.add_range(&(10..20));
    set.add_range(&(30..40));
    assert!(!set.ranges_are_complete());
    let (gaps, overlaps, out_of_bounds) = set.get_gaps_and_overlaps();
    assert_eq!(gaps, vec![20..30]);
    assert_eq!(overlaps.len(), 0);
    assert_eq!(out_of_bounds.len(), 0);
    set.add_range(&(20..30));
    assert!(set.ranges_are_complete());
}

#[test]
fn range_set_empty_counts_as_complete() {
    let set = RangeSet::new(false, true, Some(0..100));
    assert!(set.ranges_are_complete());
}

#[test]
fn range_set_without_merging_keeps_pieces() {
    let mut set = RangeSet::new(true, false, None);
    set.add_range(&(10..20));
    set.add_range(&(30..40));
    set.add_range(&(20..30));
    assert!(set.ranges_are_complete());
    let ordered = set.ranges_in_order();
    assert_eq!(ordered, vec![10..20, 20..30, 30..40]);
}
