use cormen_rust::sort::{bubble_sort, insert_sort, quick_sort};

fn run_simple_test(tested_function: fn(&mut Vec<i32>) -> ()) {
    let mut input = vec![1, 4, 2, 8, 10, 3, 1];
    let expected = vec![1, 1, 2, 3, 4, 8, 10];

    tested_function(&mut input);

    assert_eq!(expected, input);
}

fn run_reversed_test(tested_function: fn(&mut Vec<i32>) -> ()) {
    let mut input = vec![5, 4, 3, 3, 2, 1, 1];
    let expected = vec![1, 1, 2, 3, 3, 4, 5];

    tested_function(&mut input);

    assert_eq!(expected, input);
}

fn run_shuffled_test(tested_function: fn(&mut Vec<i32>) -> ()) {
    let expected: Vec<i32> = (1..2048).map(|i| i / 2).collect();
    let mut input = expected.clone();
    let mut state: u64 = 312;
    for k in (1..input.len()).rev() {
        state = state.wrapping_mul(6364136223846793005).wrapping_add(1442695040888963407);
        let other = (state >> 33) as usize % (k + 1);
        input.swap(k, other);
    }

    tested_function(&mut input);

    assert_eq!(expected, input);
}

fn run_edge_tests(tested_function: fn(&mut Vec<i32>) -> ()) {
    let mut empty: Vec<i32> = Vec::new();
    tested_function(&mut empty);
    assert!(empty.is_empty());

    let mut single = vec![7];
    tested_function(&mut single);
    assert_eq!(vec![7], single);

    let mut equal = vec![3, 3, 3, 3];
    tested_function(&mut equal);
    assert_eq!(vec![3, 3, 3, 3], equal);

    let mut extremes = vec![i32::MAX, 0, i32::MIN, -1, i32::MAX];
    tested_function(&mut extremes);
    assert_eq!(vec![i32::MIN, -1, 0, i32::MAX, i32::MAX], extremes);
}

#[test]
fn bubble_sort_simple() {
    run_simple_test(bubble_sort);
}

#[test]
fn bubble_sort_reversed() {
    run_reversed_test(bubble_sort);
}

#[test]
fn bubble_sort_shuffled() {
    run_shuffled_test(bubble_sort);
}

#[test]
fn bubble_sort_edges() {
    run_edge_tests(bubble_sort);
}

#[test]
fn insert_sort_simple() {
    run_simple_test(insert_sort);
}

#[test]
fn insert_sort_reversed() {
    run_reversed_test(insert_sort);
}

#[test]
fn insert_sort_shuffled() {
    run_shuffled_test(insert_sort);
}

#[test]
fn insert_sort_edges() {
    run_edge_tests(insert_sort);
}

#[test]
fn quick_sort_simple() {
    run_simple_test(quick_sort);
}

#[test]
fn quick_sort_reversed() {
    run_reversed_test(quick_sort);
}

#[test]
fn quick_sort_shuffled() {
    run_shuffled_test(quick_sort);
}

#[test]
fn quick_sort_edges() {
    run_edge_tests(quick_sort);
}

#[test]
fn sorts_other_key_types() {
    let mut unsigned: Vec<u64> = vec![9, 0, u64::MAX, 4];
    quick_sort(&mut unsigned);
    assert_eq!(vec![0, 4, 9, u64::MAX], unsigned);

    let mut sizes: Vec<usize> = vec![3, 1, 2];
    insert_sort(&mut sizes);
    assert_eq!(vec![1, 2, 3], sizes);
}

#[test]
fn sorts_wide_and_narrow_integers() {
    let mut wide: Vec<i64> = vec![i64::MAX, -5, i64::MIN, 0];
    bubble_sort(&mut wide);
    assert_eq!(vec![i64::MIN, -5, 0, i64::MAX], wide);

    let mut narrow: Vec<u32> = vec![7, 7, 1, u32::MAX, 0];
    quick_sort(&mut narrow);
    assert_eq!(vec![0, 1, 7, 7, u32::MAX], narrow);
}
