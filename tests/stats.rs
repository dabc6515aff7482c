use cormen_rust::stats::{max, min, min_max, nth_element};

#[test]
fn min_for_not_empty() {
    let input = vec![1, 4, 5, -1, 2];
    let actual = min(&input);

    assert_eq!(Some(&-1), actual);
}

#[test]
fn min_for_empty() {
    let input: Vec<i32> = Vec::new();
    let actual = min(&input);

    assert_eq!(None, actual);
}

#[test]
fn max_for_not_empty() {
    let input = vec![1, 4, 5, -1, 2];
    let actual = max(&input);

    assert_eq!(Some(&5), actual);
}

#[test]
fn max_for_empty() {
    let input: Vec<i32> = Vec::new();
    let actual = max(&input);

    assert_eq!(None, actual);
}

#[test]
fn min_max_odd() {
    let input = vec![1, 3, 5];
    let actual = min_max(&input);

    assert_eq!(Some((&1, &5)), actual);
}

#[test]
fn min_max_even() {
    let input = vec![1, 5, 2, 0];
    let actual = min_max(&input);

    assert_eq!(Some((&0, &5)), actual);
}

#[test]
fn min_max_empty() {
    let input: Vec<i32> = Vec::new();
    let actual = min_max(&input);

    assert_eq!(None, actual);
}

#[test]
fn min_max_single_and_descending() {
    assert_eq!(Some((&4, &4)), min_max(&[4]));
    assert_eq!(Some((&-3, &9)), min_max(&[9, 7, 2, 0, -3]));
    assert_eq!(Some((&2, &2)), min_max(&[2, 2, 2, 2]));
}

#[test]
fn min_and_max_pick_extremes_among_duplicates() {
    let input = vec![3, 1, 3, 1];
    assert_eq!(Some(&1), min(&input));
    assert_eq!(Some(&3), max(&input));
}

#[test]
fn nth_element_sorted() {
    let input: Vec<usize> = vec![1, 2, 3, 4, 5, 6, 7];

    for i in 0..input.len() {
        let mut clone = input.clone();
        let actual = nth_element(i, &mut clone);
        assert_eq!(Some(&(i + 1)), actual);
    }
}

#[test]
fn nth_element_reverese_sorted() {
    let input: Vec<usize> = vec![6, 5, 4, 3, 2, 1];

    for i in 0..input.len() {
        let mut clone = input.clone();
        let actual = nth_element(i, &mut clone);
        assert_eq!(Some(&(i + 1)), actual);
    }
}

#[test]
fn nth_element_out_of_range() {
    let mut input: Vec<usize> = vec![3, 1, 2];
    assert_eq!(None, nth_element(3, &mut input));
    assert_eq!(vec![3, 1, 2], input);
}

#[test]
fn nth_element_with_duplicates() {
    let input: Vec<i32> = vec![5, 1, 5, 3, 1, 4];
    let expected = [1, 1, 3, 4, 5, 5];
    for i in 0..input.len() {
        let mut clone = input.clone();
        assert_eq!(Some(&expected[i]), nth_element(i, &mut clone));
    }
}
