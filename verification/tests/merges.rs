use algorithms::merge_sort::{
    merge, merge_forward, merge_from_end, merge_in_place, merge_in_place_track_start,
    merge_pointers, merge_reverse,
};
use algorithms::search::binary_search_insert_point;
use algorithms::test_data::{
    vec_usize_ordered, vector_for_merge_in_place, vectors_for_merge, vectors_for_merge_reverse,
};

fn is_sorted_vec(v: &Vec<usize>) -> bool {
    for i in 1..v.len() {
        if v[i - 1] > v[i] {
            return false;
        }
    }
    true
}

#[test]
fn merge_scenario() {
    let mut b = vec![1, 3, 5];
    let mut c = vec![2, 4, 6];
    let merged = merge(&mut b, &mut c);
    assert_eq!(merged, vec![1, 2, 3, 4, 5, 6]);
    assert_eq!(b.len(), 0);
    assert_eq!(c.len(), 0);
}

#[test]
fn merge_from_end_matches_merge() {
    for size in 2..=40 {
        let (v1, v2) = vectors_for_merge(size);
        let mut a1 = v1.clone();
        let mut a2 = v2.clone();
        let mut b1 = v1.clone();
        let mut b2 = v2.clone();
        let m1 = merge(&mut a1, &mut a2);
        let m2 = merge_from_end(&mut b1, &mut b2);
        assert_eq!(m1, m2);
        assert_eq!(m1, vec_usize_ordered(size));
    }
}

#[test]
fn merge_forward_leaves_reverse_order() {
    let mut b = vec![1, 3, 5];
    let mut c = vec![2, 4, 6];
    let mut merged = merge_forward(&mut b, &mut c);
    assert_eq!(merged, vec![6, 5, 4, 3, 2, 1]);
    merged.reverse();
    assert!(is_sorted_vec(&merged));
}

#[test]
fn merge_reverse_consumes_descending_inputs() {
    for size in 3..=40 {
        let (mut v1, mut v2) = vectors_for_merge_reverse(size);
        let merged = merge_reverse(&mut v1, &mut v2);
        assert_eq!(merged, vec_usize_ordered(size));
    }
}

#[test]
fn merge_in_place_scenario() {
    let mut v = vec![1, 3, 5, 2, 4, 6];
    merge_in_place(&mut v, 3);
    assert_eq!(v, vec![1, 2, 3, 4, 5, 6]);
}

#[test]
fn in_place_merges_agree_byte_for_byte() {
    // The rotate-based, floor-tracking, and block-copy mergers must produce
    // identical results on identical input.
    for size in 8..=30 {
        let (v, mid) = vector_for_merge_in_place(size);
        let mut a = v.clone();
        let mut b = v.clone();
        let mut c = v.clone();
        merge_in_place(&mut a, mid);
        merge_in_place_track_start(&mut b, mid);
        merge_pointers(&mut c, mid);
        assert_eq!(a, b);
        assert_eq!(b, c);
        assert_eq!(a, vec_usize_ordered(size));
    }
}

#[test]
fn merge_in_place_with_identical_adjacent_values() {
    let mut v = vec![2, 2, 4, 2, 2, 4];
    merge_in_place(&mut v, 3);
    assert_eq!(v, vec![2, 2, 2, 2, 4, 4]);
}

#[test]
fn merge_in_place_already_sorted_is_noop() {
    let mut v = vec_usize_ordered(20);
    merge_in_place_track_start(&mut v, 10);
    assert_eq!(v, vec_usize_ordered(20));
}

#[test]
fn merge_in_place_as_insertion_sort() {
    // With a one-element sorted prefix, the plain in-place merge degrades
    // to an insertion sort of the whole vector.
    let mut v = vec![7, 3, 9, 1, 5, 2, 8, 4, 6];
    merge_in_place(&mut v, 1);
    assert_eq!(v, vec![1, 2, 3, 4, 5, 6, 7, 8, 9]);
}

#[test]
fn binary_search_finds_insertion_points() {
    let v = vec![2, 4, 4, 6, 8];
    let at_front = binary_search_insert_point(&v, 0, 5, 1);
    assert_eq!(at_front, 0);
    let at_back = binary_search_insert_point(&v, 0, 5, 9);
    assert_eq!(at_back, 5);
    let between = binary_search_insert_point(&v, 0, 5, 5);
    assert_eq!(between, 3);
    let on_equal = binary_search_insert_point(&v, 0, 5, 4);
    assert!(v[on_equal] == 4 || (on_equal >= 1 && v[on_equal - 1] == 4));
}
