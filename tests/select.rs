use alg_quickselect::get_pivot::{first_index, last_index, middle_index};
use alg_quickselect::partition::partition_unchecked;
use alg_quickselect::{quickselect, quickselect_unchecked, SelectError};

#[test]
fn it_works() {}

fn sorted(s: &[i32]) -> Vec<i32> {
    let mut v = s.to_vec();
    v.sort();
    v
}

fn check_every_rank(input: &[i32]) {
    let expected = sorted(input);
    for k in 0..input.len() {
        for strategy in [middle_index::<i32>, first_index::<i32>, last_index::<i32>] {
            let mut v = input.to_vec();
            let r = quickselect(&mut v, k, strategy);
            assert_eq!(r, Ok(expected[k]));
            assert_eq!(v[k], expected[k]);
            assert_eq!(sorted(&v), expected);
            assert!(v[..k].iter().all(|&e| e <= v[k]));
            assert!(v[k + 1..].iter().all(|&e| e >= v[k]));
        }
    }
}

#[test]
fn middle_strategy_finds_third_smallest() {
    let mut arr = [4, 2, 5, 1, 3];
    let r = quickselect(&mut arr, 2, middle_index);
    assert_eq!(r, Ok(3));
    assert_eq!(arr[2], 3);
}

#[test]
fn middle_strategy_on_sorted_input() {
    let mut arr = [1, 2, 3];
    assert_eq!(quickselect(&mut arr, 1, middle_index), Ok(2));
}

#[test]
fn single_element_with_any_strategy() {
    for strategy in [middle_index::<i32>, first_index::<i32>, last_index::<i32>] {
        let mut arr = [5];
        assert_eq!(quickselect(&mut arr, 0, strategy), Ok(5));
        assert_eq!(arr, [5]);
    }
}

#[test]
fn rank_past_the_end_is_reported() {
    let mut arr = [1, 2, 3];
    let r = quickselect(&mut arr, 3, middle_index);
    assert_eq!(r, Err(SelectError::IndexOutOfBounds { len: 3, index: 3 }));
    assert_eq!(arr, [1, 2, 3]);
}

#[test]
fn rank_far_past_the_end_is_reported() {
    let mut arr = [9, 8];
    let r = quickselect(&mut arr, usize::MAX, first_index);
    assert_eq!(r, Err(SelectError::IndexOutOfBounds { len: 2, index: usize::MAX }));
    assert_eq!(arr, [9, 8]);
}

#[test]
fn empty_slice_has_no_rank() {
    let mut arr: [i32; 0] = [];
    let r = quickselect(&mut arr, 0, middle_index);
    assert_eq!(r, Err(SelectError::IndexOutOfBounds { len: 0, index: 0 }));
}

#[test]
fn pivot_outside_the_window_is_reported() {
    let mut arr = [1, 2, 3];
    let r = quickselect(&mut arr, 1, |w: &[i32]| w.len());
    assert_eq!(r, Err(SelectError::InvalidPivot { len: 3, index: 3 }));
    assert_eq!(arr, [1, 2, 3]);
}

#[test]
fn pivot_outside_a_later_window_is_reported() {
    // The first round uses the last element, 3, which settles at index 2;
    // the second round is handed the window [1, 2] and answers 7.
    let mut arr = [2, 1, 3];
    let r = quickselect(&mut arr, 0, |w: &[i32]| if w.len() == 3 { 2 } else { 7 });
    assert_eq!(r, Err(SelectError::InvalidPivot { len: 2, index: 7 }));
    assert_eq!(sorted(&arr), vec![1, 2, 3]);
}

#[test]
fn rank_zero_is_minimum_and_last_rank_is_maximum() {
    let input = [7, -3, 12, 0, 5, -3, 40, 8];
    for strategy in [middle_index::<i32>, first_index::<i32>, last_index::<i32>] {
        let mut v = input.to_vec();
        assert_eq!(quickselect(&mut v, 0, strategy), Ok(-3));
        let mut v = input.to_vec();
        assert_eq!(quickselect(&mut v, input.len() - 1, strategy), Ok(40));
    }
}

#[test]
fn every_rank_of_distinct_values() {
    check_every_rank(&[9, 4, 7, 1, 8, 2, 6, 3, 5, 0]);
}

#[test]
fn every_rank_with_duplicates() {
    check_every_rank(&[3, 1, 3, 3, 2, 1, 5, 3, 2]);
    check_every_rank(&[4, 4, 4, 4]);
}

#[test]
fn every_rank_of_sorted_and_reversed_input() {
    check_every_rank(&[1, 2, 3, 4, 5, 6, 7]);
    check_every_rank(&[7, 6, 5, 4, 3, 2, 1]);
}

#[test]
fn every_rank_with_extreme_values() {
    check_every_rank(&[i32::MAX, i32::MIN, 0, -1, i32::MAX, 1, i32::MIN]);
}

#[test]
fn selecting_again_gives_the_same_value() {
    let mut v = vec![10, 3, 8, 3, 15, 1, 9];
    let first = quickselect(&mut v, 3, last_index);
    let after_first = v.clone();
    let second = quickselect(&mut v, 3, first_index);
    assert_eq!(first, Ok(8));
    assert_eq!(second, first);
    assert_eq!(after_first[3], 8);
    assert_eq!(v[3], 8);
}

#[test]
fn unchecked_selection_matches_checked() {
    let input = [6, 1, 9, 4, 4, 0, 3];
    let expected = sorted(&input);
    for k in 0..input.len() {
        let mut v = input.to_vec();
        assert_eq!(quickselect_unchecked(&mut v, k, middle_index), expected[k]);
        assert_eq!(v[k], expected[k]);
        assert_eq!(sorted(&v), expected);
    }
}

#[test]
fn partition_splits_around_the_pivot() {
    let mut arr = [4, 2, 5, 1, 3];
    let p = partition_unchecked(&mut arr, 0, 5, 2);
    assert_eq!(p, 4);
    assert_eq!(arr[4], 5);
    assert_eq!(sorted(&arr), vec![1, 2, 3, 4, 5]);
}

#[test]
fn partition_sends_ties_to_the_left() {
    let mut arr = [2, 3, 2, 1, 2];
    let p = partition_unchecked(&mut arr, 0, 5, 0);
    assert_eq!(p, 3);
    assert_eq!(arr, [2, 2, 1, 2, 3]);
}

#[test]
fn partition_leaves_outside_of_window_alone() {
    let mut arr = [9, 0, 7, 3, 5, 8, -1];
    let p = partition_unchecked(&mut arr, 2, 6, 1);
    // The window is [7, 3, 5, 8] and its pivot is 3, the smallest.
    assert_eq!(p, 0);
    assert_eq!(arr[2], 3);
    assert_eq!(arr[0], 9);
    assert_eq!(arr[1], 0);
    assert_eq!(arr[6], -1);
    assert!(arr[3..6].iter().all(|&e| e > 3));
    assert_eq!(sorted(&arr[2..6]), vec![3, 5, 7, 8]);
}

#[test]
fn strategies_pick_their_index() {
    let w = [5, 6, 7, 8];
    assert_eq!(middle_index(&w), 2);
    assert_eq!(first_index(&w), 0);
    assert_eq!(last_index(&w), 3);
    assert_eq!(middle_index(&[1]), 0);
    assert_eq!(last_index(&[1]), 0);
}
