use ferric_sort::insertion::{insertion_sort, swap_elements, THRESHOLD};
use ferric_sort::merge::{copy_over, merge, merge_sort_recursive};
use ferric_sort::quick::{choose_pivot_value, partition, quick_sort_runner};

#[test]
fn threshold_is_fifteen() {
    assert_eq!(THRESHOLD, 15);
}

#[test]
fn swap_exchanges_two_elements() {
    let mut list: Vec<i64> = vec![10, 20, 30, 40];
    swap_elements(&mut list, 0, 3);
    assert_eq!(list, vec![40, 20, 30, 10]);
    swap_elements(&mut list, 2, 2);
    assert_eq!(list, vec![40, 20, 30, 10]);
    swap_elements(&mut list, 2, 1);
    assert_eq!(list, vec![40, 30, 20, 10]);
}

#[test]
fn insertion_sort_sorts_a_slice() {
    let mut list: Vec<i64> = vec![5, -1, 3, 3, 0, 9, -7, 2];
    insertion_sort(&mut list);
    assert_eq!(list, vec![-7, -1, 0, 2, 3, 3, 5, 9]);
}

#[test]
fn insertion_sort_on_empty_and_single() {
    let mut empty: Vec<i64> = vec![];
    insertion_sort(&mut empty);
    assert_eq!(empty, Vec::<i64>::new());
    let mut one: Vec<i64> = vec![4];
    insertion_sort(&mut one);
    assert_eq!(one, vec![4]);
}

#[test]
fn insertion_sort_touches_only_its_slice() {
    let mut list: Vec<i64> = vec![9, 8, 7, 6, 5, 4, 3];
    insertion_sort(&mut list[2..5]);
    assert_eq!(list, vec![9, 8, 5, 6, 7, 4, 3]);
}

#[test]
fn pivot_is_the_median_where_the_three_differ() {
    assert_eq!(choose_pivot_value(&[1, 2, 3]), 2);
    assert_eq!(choose_pivot_value(&[3, 2, 1]), 2);
    assert_eq!(choose_pivot_value(&[2, 1, 3]), 2);
    assert_eq!(choose_pivot_value(&[2, 3, 1]), 2);
    assert_eq!(choose_pivot_value(&[1, 3, 2]), 2);
    assert_eq!(choose_pivot_value(&[3, 1, 2]), 2);
}

#[test]
fn pivot_is_the_first_on_ties() {
    assert_eq!(choose_pivot_value(&[5, 1, 1]), 5);
    assert_eq!(choose_pivot_value(&[1, 1, 5]), 1);
    assert_eq!(choose_pivot_value(&[1, 5, 1]), 1);
    assert_eq!(choose_pivot_value(&[5, 5, 1]), 5);
    assert_eq!(choose_pivot_value(&[1, 5, 5]), 1);
    assert_eq!(choose_pivot_value(&[5, 1, 5]), 5);
    assert_eq!(choose_pivot_value(&[4, 4, 4]), 4);
}

#[test]
fn pivot_looks_at_first_middle_and_last() {
    // Five elements: the middle one stands at index 2.
    assert_eq!(choose_pivot_value(&[10, 99, 20, -99, 30]), 20);
    // Four elements: the middle one stands at index 2.
    assert_eq!(choose_pivot_value(&[10, 99, 30, 20]), 20);
    // Two elements: the middle one is the last.
    assert_eq!(choose_pivot_value(&[8, 3]), 8);
    // One element is first, middle and last at once.
    assert_eq!(choose_pivot_value(&[6]), 6);
}

#[test]
fn partition_splits_around_the_pivot() {
    let mut list: Vec<i64> = vec![3, 8, 1, 5, 9, 2, 7];
    let split = partition(&mut list, 0, 6, 5);
    assert_eq!(split, 4);
    assert_eq!(list, vec![3, 2, 1, 5, 9, 8, 7]);
}

#[test]
fn partition_of_equal_values_splits_in_the_middle() {
    let mut list: Vec<i64> = vec![5, 5, 5, 5];
    let split = partition(&mut list, 0, 3, 5);
    assert_eq!(split, 2);
    assert_eq!(list, vec![5, 5, 5, 5]);
}

#[test]
fn partition_leaves_the_rest_untouched() {
    let mut list: Vec<i64> = vec![9, 1, 2, 3, 4, 0, 6, 7];
    let split = partition(&mut list, 1, 6, 3);
    assert_eq!(split, 4);
    assert_eq!(list, vec![9, 1, 2, 0, 4, 3, 6, 7]);
}

#[test]
fn partition_with_the_least_value_as_pivot() {
    // The right cursor walks down to index 0 and stops there.
    let mut list: Vec<i64> = vec![1, 2, 3, 4, 5, 6];
    let split = partition(&mut list, 0, 5, 1);
    assert_eq!(split, 1);
    assert_eq!(list, vec![1, 2, 3, 4, 5, 6]);
}

#[test]
fn partition_with_the_greatest_value_last() {
    // Nothing before the last element is as large as the pivot: the split
    // falls behind the range.
    let mut list: Vec<i64> = vec![1, 2, 3, 4, 5, 6];
    let split = partition(&mut list, 0, 5, 6);
    assert_eq!(split, 6);
    assert_eq!(list, vec![1, 2, 3, 4, 5, 6]);
}

#[test]
fn partition_of_a_falling_run() {
    let mut list: Vec<i64> = vec![6, 5, 4, 3, 2, 1];
    let split = partition(&mut list, 0, 5, 4);
    assert_eq!(split, 3);
    assert_eq!(list, vec![1, 2, 3, 4, 5, 6]);
}

#[test]
fn partition_of_short_ranges() {
    let mut two: Vec<i64> = vec![2, 1];
    assert_eq!(partition(&mut two, 0, 1, 2), 1);
    assert_eq!(two, vec![1, 2]);
    let mut one: Vec<i64> = vec![7];
    assert_eq!(partition(&mut one, 0, 0, 7), 1);
    assert_eq!(one, vec![7]);
}

#[test]
fn partition_with_many_copies_of_the_pivot() {
    let mut list: Vec<i64> = vec![4, 9, 4, 1, 4, 8, 4, 0];
    let split = partition(&mut list, 0, 7, 4);
    assert_eq!(split, 4);
    assert_eq!(list, vec![0, 4, 4, 1, 4, 8, 9, 4]);
}

#[test]
fn runner_sorts_only_its_range() {
    let mut list: Vec<i64> = (0..60).rev().collect();
    quick_sort_runner(&mut list, 10, 49);
    let mut want: Vec<i64> = (50..60).rev().collect();
    want.extend(10..50);
    want.extend((0..10).rev());
    assert_eq!(list, want);
}

#[test]
fn runner_on_a_short_range_and_on_one_element() {
    let mut list: Vec<i64> = vec![5, 4, 3, 2, 1, 0];
    quick_sort_runner(&mut list, 1, 4);
    assert_eq!(list, vec![5, 1, 2, 3, 4, 0]);
    quick_sort_runner(&mut list, 5, 5);
    assert_eq!(list, vec![5, 1, 2, 3, 4, 0]);
    quick_sort_runner(&mut list, 0, 5);
    assert_eq!(list, vec![0, 1, 2, 3, 4, 5]);
}

#[test]
fn runner_at_sixteen_elements_partitions() {
    let mut list: Vec<i64> = vec![15, 3, 9, 0, 12, 6, 1, 14, 8, 2, 11, 5, 13, 7, 10, 4];
    quick_sort_runner(&mut list, 0, 15);
    let want: Vec<i64> = (0..16).collect();
    assert_eq!(list, want);
}

#[test]
fn merge_joins_two_sorted_slices() {
    let left: Vec<i64> = vec![1, 4, 4, 9];
    let right: Vec<i64> = vec![0, 4, 5, 10, 11];
    let mut result: Vec<i64> = vec![0; 9];
    merge(&left, &right, &mut result);
    assert_eq!(result, vec![0, 1, 4, 4, 4, 5, 9, 10, 11]);
}

#[test]
fn merge_with_an_empty_side() {
    let some: Vec<i64> = vec![2, 3, 5];
    let none: Vec<i64> = vec![];
    let mut result: Vec<i64> = vec![0; 3];
    merge(&some, &none, &mut result);
    assert_eq!(result, vec![2, 3, 5]);
    let mut result: Vec<i64> = vec![0; 3];
    merge(&none, &some, &mut result);
    assert_eq!(result, vec![2, 3, 5]);
    let mut result: Vec<i64> = vec![];
    merge(&none, &none, &mut result);
    assert_eq!(result, Vec::<i64>::new());
}

#[test]
fn merge_drains_what_is_left() {
    let left: Vec<i64> = vec![1, 2];
    let right: Vec<i64> = vec![3, 4, 5, 6];
    let mut result: Vec<i64> = vec![0; 6];
    merge(&left, &right, &mut result);
    assert_eq!(result, vec![1, 2, 3, 4, 5, 6]);
    let mut result: Vec<i64> = vec![0; 6];
    merge(&right, &left, &mut result);
    assert_eq!(result, vec![1, 2, 3, 4, 5, 6]);
}

#[test]
fn copy_over_overwrites_the_target() {
    let mut target: Vec<i64> = vec![0, 0, 0];
    copy_over(&mut target, &[7, 8, 9]);
    assert_eq!(target, vec![7, 8, 9]);
    let mut empty: Vec<i64> = vec![];
    copy_over(&mut empty, &[]);
    assert_eq!(empty, Vec::<i64>::new());
}

#[test]
fn merge_sort_recursive_with_a_longer_buffer() {
    let mut list: Vec<i64> = (0..100).map(|i| (i * 37) % 101 - 50).collect();
    let mut want = list.clone();
    want.sort();
    let mut buffer: Vec<i64> = vec![0; 130];
    merge_sort_recursive(&mut list, &mut buffer);
    assert_eq!(list, want);
    assert_eq!(buffer.len(), 130);
}

#[test]
fn merge_sort_recursive_skips_the_merge_of_ordered_halves() {
    // Both halves sort to runs that are in order already, so the buffer is
    // never written.
    let mut list: Vec<i64> = (0..16).rev().map(|i| 15 - i).collect();
    let mut buffer: Vec<i64> = vec![-1; 16];
    merge_sort_recursive(&mut list, &mut buffer);
    let want: Vec<i64> = (0..16).collect();
    assert_eq!(list, want);
    assert_eq!(buffer, vec![-1; 16]);
}

#[test]
fn merge_sort_recursive_merges_through_the_buffer() {
    let mut list: Vec<i64> = (0..16).rev().collect();
    let mut buffer: Vec<i64> = vec![-1; 16];
    merge_sort_recursive(&mut list, &mut buffer);
    let want: Vec<i64> = (0..16).collect();
    assert_eq!(list, want);
    assert_eq!(buffer, want);
}

#[test]
fn merge_sort_recursive_on_short_slices() {
    let mut buffer: Vec<i64> = vec![];
    let mut empty: Vec<i64> = vec![];
    merge_sort_recursive(&mut empty, &mut buffer);
    assert_eq!(empty, Vec::<i64>::new());
    let mut buffer: Vec<i64> = vec![0; 15];
    let mut short: Vec<i64> = vec![3, 1, 2];
    merge_sort_recursive(&mut short, &mut buffer);
    assert_eq!(short, vec![1, 2, 3]);
    assert_eq!(buffer, vec![0; 15]);
}
