use bubblesort::{bubble_sort, bubble_sort_counted};

#[test]
fn test_empty_array() {
    let mut arr: [i32; 0] = [];
    bubble_sort(&mut arr);
    assert_eq!(arr, []);
}

#[test]
fn test_sorted_array() {
    let mut arr = [1, 2, 3, 4, 5];
    bubble_sort(&mut arr);
    assert_eq!(arr, [1, 2, 3, 4, 5]);
}

#[test]
fn test_unsorted_array() {
    let mut arr = [5, 3, 4, 1, 2];
    bubble_sort(&mut arr);
    assert_eq!(arr, [1, 2, 3, 4, 5]);
}

#[test]
fn test_duplicates() {
    let mut arr = [3, 1, 2, 3, 2];
    bubble_sort(&mut arr);
    assert_eq!(arr, [1, 2, 2, 3, 3]);
}

#[test]
fn test_negative_numbers() {
    let mut arr = [0, -1, 3, -2, 2];
    bubble_sort(&mut arr);
    assert_eq!(arr, [-2, -1, 0, 2, 3]);
}

#[test]
fn single_element_is_unchanged_without_comparisons() {
    let mut arr = [42];
    let comparisons = bubble_sort_counted(&mut arr);
    assert_eq!(arr, [42]);
    assert_eq!(comparisons, 0);
}

#[test]
fn empty_input_makes_no_comparisons() {
    let mut arr: [i32; 0] = [];
    assert_eq!(bubble_sort_counted(&mut arr), 0);
}

#[test]
fn two_elements_make_one_comparison() {
    let mut arr = [2, 1];
    assert_eq!(bubble_sort_counted(&mut arr), 1);
    assert_eq!(arr, [1, 2]);
}

#[test]
fn comparison_count_ignores_input_order() {
    let mut sorted = [1, 2, 3, 4, 5];
    let mut reversed = [5, 4, 3, 2, 1];
    assert_eq!(bubble_sort_counted(&mut sorted), 10);
    assert_eq!(bubble_sort_counted(&mut reversed), 10);
    assert_eq!(reversed, [1, 2, 3, 4, 5]);
}

#[test]
fn comparison_count_on_a_longer_input() {
    let mut arr: Vec<i64> = (0..100).rev().collect();
    assert_eq!(bubble_sort_counted(&mut arr), 4950);
    let expected: Vec<i64> = (0..100).collect();
    assert_eq!(arr, expected);
}

#[test]
fn sorting_twice_gives_the_same_result() {
    let mut arr = [9, -4, 7, 7, 0, 12, -4, 3];
    bubble_sort(&mut arr);
    let once = arr;
    bubble_sort(&mut arr);
    assert_eq!(arr, once);
    assert_eq!(arr, [-4, -4, 0, 3, 7, 7, 9, 12]);
}

#[test]
fn result_is_a_reordering_of_the_input() {
    let input = [4, 1, 4, 2, 1, 4];
    let mut arr = input;
    bubble_sort(&mut arr);
    let mut a = input.to_vec();
    let mut b = arr.to_vec();
    a.sort();
    b.sort();
    assert_eq!(a, b);
    assert_eq!(arr, [1, 1, 2, 4, 4, 4]);
}

#[test]
fn adjacent_pairs_are_in_order() {
    let mut arr = [13, -8, 21, 0, 5, -8, 1, 34, 2];
    bubble_sort(&mut arr);
    for k in 0..arr.len() - 1 {
        assert!(arr[k] <= arr[k + 1]);
    }
}

#[test]
fn sorts_strings() {
    let mut arr = vec!["pear".to_string(), "apple".to_string(), "fig".to_string()];
    bubble_sort(&mut arr);
    assert_eq!(arr, vec!["apple".to_string(), "fig".to_string(), "pear".to_string()]);
}

#[test]
fn incomparable_values_are_never_swapped() {
    let mut arr = [3.0_f64, f64::NAN, 1.0];
    let comparisons = bubble_sort_counted(&mut arr);
    assert_eq!(comparisons, 3);
    assert_eq!(arr[0], 3.0);
    assert!(arr[1].is_nan());
    assert_eq!(arr[2], 1.0);
}

#[test]
fn partial_order_leaves_no_adjacent_pair_out_of_order() {
    let mut arr = [2.5_f64, 0.5, f64::NAN, 1.5, -1.0];
    bubble_sort(&mut arr);
    for k in 0..arr.len() - 1 {
        assert!(!(arr[k] > arr[k + 1]));
    }
    assert_eq!(arr[0], 0.5);
    assert_eq!(arr[1], 2.5);
    assert!(arr[2].is_nan());
    assert_eq!(arr[3], -1.0);
    assert_eq!(arr[4], 1.5);
}
