use algorithms::bubble_sort::{bubble_sort, bubble_sort_range};
use algorithms::insertion_sort::{insertion_sort, insertion_sort_ptr, insertion_sort_small};
use algorithms::merge_sort::{
    merge_sort, merge_sort_merge_from_end, merge_sort_merge_in_place, merge_sort_skip_match,
    merge_sort_test_only_no_merge, merge_sort_with_bubble, merge_sort_with_bubble_set_crossover,
};
use algorithms::merge_sort_loop::{merge_sort_loop, merge_sort_loop_vec};
use algorithms::quicksort_crossbeam::{partition, quicksort_crossbeam, quicksort_crossbeam_minimal};
use algorithms::quicksort_ptr::{quicksort_parallel_ptr, quicksort_rnd_3_ptr_with_limit};
use algorithms::quicksort_safe::{
    assert_quicksort_invariant, partition_range, quicksort, quicksort_rnd_3_with_limit,
    quicksort_with_crossover,
};
use algorithms::test_data::{vec_usize_ordered, vec_usize_reversed, vec_usize_shuffled};

fn is_sorted_vec(v: &Vec<usize>) -> bool {
    for i in 1..v.len() {
        if v[i - 1] > v[i] {
            return false;
        }
    }
    true
}

fn assert_unique_values(v: &mut Vec<usize>) {
    let v_len = v.len();
    v.sort_unstable();
    for i in 1..v.len() {
        assert_ne!(v[i - 1], v[i], "values should be unique");
    }
    assert_eq!(v_len, v.len());
}

#[test]
fn it_works() {
    assert_eq!(2 + 2, 4);
}

#[test]
fn test_vec_usize() {
    let mut v = vec_usize_shuffled(10);
    assert_eq!(10, v.len());
    assert_unique_values(&mut v);
}

#[test]
fn quicksort_scenario_small() {
    // A five-element array with the fallback disabled exercises the real
    // partition path.
    let mut v = vec![5, 3, 4, 1, 2];
    quicksort_with_crossover(&mut v, 0);
    assert_eq!(v, vec![1, 2, 3, 4, 5]);
}

#[test]
fn partition_returns_valid_split() {
    let mut v = vec![5, 3, 4, 1, 2];
    let mid = partition_range(&mut v, 0, 5);
    assert!(mid < 5);
    assert!(assert_quicksort_invariant(&v, mid));
    let mut w: Vec<usize> = v.clone();
    w.sort_unstable();
    assert_eq!(w, vec![1, 2, 3, 4, 5]);
}

#[test]
fn partition_handles_one_element_region() {
    let mut v = vec![7, 4, 9];
    let mid = partition(&mut v, 1, 2);
    assert_eq!(mid, 1);
    assert_eq!(v, vec![7, 4, 9]);
}

#[test]
fn partition_invariant_checker_rejects_bad_split() {
    let v = vec![3, 1, 2];
    assert!(!assert_quicksort_invariant(&v, 0));
}

#[test]
fn bubble_sort_sorts() {
    for size in 1..=40 {
        let mut v = vec_usize_shuffled(size);
        bubble_sort(&mut v);
        assert_eq!(v, vec_usize_ordered(size));
    }
}

#[test]
fn bubble_sort_presorted_large() {
    // An already sorted input of a thousand elements: the zero-swap pass
    // returns it unchanged.
    let mut v = vec_usize_ordered(1000);
    bubble_sort(&mut v);
    assert_eq!(v, vec_usize_ordered(1000));
}

#[test]
fn bubble_sort_range_leaves_outside_alone() {
    let mut v = vec![9, 5, 4, 3, 0];
    bubble_sort_range(&mut v, 1, 4);
    assert_eq!(v, vec![9, 3, 4, 5, 0]);
}

#[test]
fn insertion_sorts_sort() {
    for size in 1..=30 {
        let mut a = vec_usize_shuffled(size);
        let mut b = a.clone();
        let mut c = a.clone();
        insertion_sort(&mut a);
        insertion_sort_small(&mut b);
        insertion_sort_ptr(&mut c);
        let expected = vec_usize_ordered(size);
        assert_eq!(a, expected);
        assert_eq!(b, expected);
        assert_eq!(c, expected);
    }
}

#[test]
fn merge_sorts_sort() {
    for size in 1..=60 {
        let mut a = vec_usize_shuffled(size);
        let mut b = a.clone();
        let mut c = a.clone();
        let mut d = a.clone();
        let mut e = a.clone();
        merge_sort(&mut a);
        merge_sort_with_bubble(&mut b);
        merge_sort_with_bubble_set_crossover(&mut c, 0);
        merge_sort_skip_match(&mut d);
        merge_sort_merge_from_end(&mut e);
        let expected = vec_usize_ordered(size);
        assert_eq!(a, expected);
        assert_eq!(b, expected);
        assert_eq!(c, expected);
        assert_eq!(d, expected);
        assert_eq!(e, expected);
    }
}

#[test]
fn merge_sort_in_place_sorts() {
    for size in 1..=60 {
        let mut v = vec_usize_shuffled(size);
        merge_sort_merge_in_place(&mut v);
        assert_eq!(v, vec_usize_ordered(size));
    }
}

#[test]
fn merge_sort_without_merge_keeps_elements_but_not_order() {
    let mut v = vec_usize_reversed(30);
    merge_sort_test_only_no_merge(&mut v);
    assert!(!is_sorted_vec(&v));
    let mut w = v.clone();
    w.sort_unstable();
    assert_eq!(w, vec_usize_ordered(30));
}

#[test]
fn merge_sort_loop_bottom_up_sorts() {
    for size in 1..=50 {
        let mut v = vec_usize_shuffled(size);
        merge_sort_loop(&mut v, 5, 1);
        assert_eq!(v, vec_usize_ordered(size));
    }
}

#[test]
fn merge_sort_loop_split_sorts() {
    for size in 1..=50 {
        let mut v = vec_usize_shuffled(size);
        merge_sort_loop(&mut v, 5, 8);
        assert_eq!(v, vec_usize_ordered(size));
        let mut w = vec_usize_shuffled(size);
        merge_sort_loop_vec(&mut w, 5, 8);
        assert_eq!(w, vec_usize_ordered(size));
    }
}

#[test]
fn quicksort_variants_sort() {
    for size in 1..=60 {
        let mut a = vec_usize_shuffled(size);
        let mut b = a.clone();
        let mut c = a.clone();
        quicksort(&mut a);
        quicksort_rnd_3_with_limit(&mut b, 20);
        quicksort_rnd_3_ptr_with_limit(&mut c, 20);
        let expected = vec_usize_ordered(size);
        assert_eq!(a, expected);
        assert_eq!(b, expected);
        assert_eq!(c, expected);
    }
}

#[test]
fn quicksort_crossbeam_variants_sort() {
    for size in 1..=60 {
        let mut a = vec_usize_shuffled(size);
        let mut b = a.clone();
        quicksort_crossbeam_minimal(&mut a);
        quicksort_crossbeam(&mut b, 5, 15);
        let expected = vec_usize_ordered(size);
        assert_eq!(a, expected);
        assert_eq!(b, expected);
    }
}

#[test]
fn threshold_does_not_change_output() {
    // Disabling parallelism entirely and making every split eligible for a
    // worker must give identical sorted output.
    let input = vec![9, 2, 7, 2, 5, 8, 1, 3, 6, 4, 0, 5];
    let mut with_workers = input.clone();
    let mut without_workers = input.clone();
    quicksort_parallel_ptr(&mut with_workers, 0, false, 3);
    quicksort_parallel_ptr(&mut without_workers, usize::MAX, false, 3);
    assert_eq!(with_workers, without_workers);
    assert!(is_sorted_vec(&with_workers));
}

#[test]
fn sorting_twice_changes_nothing() {
    let mut v = vec_usize_shuffled(200);
    quicksort(&mut v);
    let once = v.clone();
    quicksort(&mut v);
    assert_eq!(v, once);
}
