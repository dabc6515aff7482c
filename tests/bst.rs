use cormen_rust::bst::Tree;

fn tree_of(values: &[i32]) -> Tree<i32> {
    let mut tree = Tree::new();
    for &v in values {
        tree.insert(v);
    }
    tree
}

#[test]
fn test_insert() {
    let input = vec![1, 4, 2, 8, 10, 3, 1];
    let mut expected = input.clone();
    expected.sort();

    let mut tree = Tree::new();
    for item in input {
        tree.insert(item);
    }

    let actual: Vec<i32> = tree.iter().collect();
    assert_eq!(expected, actual);
}

#[test]
fn test_find() {
    let mut tree = Tree::new();
    tree.insert(2);
    tree.insert(0);
    tree.insert(4);

    assert!(tree.find(0));
    assert!(tree.find(2));
    assert!(tree.find(4));
    assert!(!tree.find(-1));
    assert!(!tree.find(1));
    assert!(!tree.find(3));
    assert!(!tree.find(5));
}

#[test]
fn test_remove() {
    let mut tree = Tree::new();
    tree.insert(1);
    tree.insert(0);
    tree.insert(2);
    tree.insert(3);

    assert!(tree.remove(3));
    assert!(!tree.find(3));

    assert!(tree.remove(0));
    assert!(!tree.find(0));
}

#[test]
fn insert_yields_sorted_with_duplicates() {
    let tree = tree_of(&[1, 4, 2, 8, 10, 3, 1]);
    assert_eq!(vec![1, 1, 2, 3, 4, 8, 10], tree.iter().collect());
}

#[test]
fn remove_leaf_then_again() {
    let mut tree = tree_of(&[1, 0]);
    assert!(tree.remove(0));
    assert!(!tree.find(0));
    assert!(!tree.remove(0));
    assert!(tree.find(1));
}

#[test]
fn remove_root_with_two_children() {
    let mut tree = tree_of(&[0, -2, -1, -3, 2, 1, 3]);
    assert!(tree.remove(0));
    assert!(!tree.find(0));
    for v in [-3, -1, -2, 1, 2, 3] {
        assert!(tree.find(v));
    }
    assert_eq!(vec![-3, -2, -1, 1, 2, 3], tree.iter().collect());
    assert_eq!(Some(-3), tree.min());
    assert_eq!(Some(3), tree.max());
}

#[test]
fn remove_node_with_one_child() {
    let mut left_only = tree_of(&[5, 3, 1]);
    assert!(left_only.remove(3));
    assert_eq!(vec![1, 5], left_only.iter().collect());

    let mut right_only = tree_of(&[5, 7, 9]);
    assert!(right_only.remove(7));
    assert_eq!(vec![5, 9], right_only.iter().collect());
}

#[test]
fn remove_one_of_duplicates() {
    let mut tree = tree_of(&[2, 2, 1, 2, 3]);
    assert!(tree.remove(2));
    assert_eq!(vec![1, 2, 2, 3], tree.iter().collect());
    assert!(tree.remove(2));
    assert!(tree.remove(2));
    assert!(!tree.remove(2));
    assert_eq!(vec![1, 3], tree.iter().collect());
}

#[test]
fn remove_absent_leaves_tree_unchanged() {
    let mut tree = tree_of(&[4, 2, 6, 1, 3]);
    assert!(!tree.remove(5));
    assert_eq!(vec![1, 2, 3, 4, 6], tree.iter().collect());
}

#[test]
fn empty_tree_boundaries() {
    let tree: Tree<i32> = Tree::new();
    assert_eq!(None, tree.min());
    assert_eq!(None, tree.max());
    let mut cursor = tree.iter();
    assert_eq!(None, cursor.next());
    assert_eq!(None, cursor.next());
    assert!(!tree.find(0));
}

#[test]
fn min_and_max() {
    let tree = tree_of(&[7, 3, 9, 1, 8, 12, 5]);
    assert_eq!(Some(1), tree.min());
    assert_eq!(Some(12), tree.max());
}

#[test]
fn cursor_steps_in_order() {
    let tree = tree_of(&[3, 1, 2]);
    let mut cursor = tree.iter();
    assert_eq!(Some(1), cursor.next());
    assert_eq!(Some(2), cursor.next());
    assert_eq!(Some(3), cursor.next());
    assert_eq!(None, cursor.next());
}

#[test]
fn deep_tree_teardown() {
    let mut tree = Tree::new();
    for v in 0..10_000u64 {
        tree.insert(10_000 - v);
    }
    assert_eq!(Some(1), tree.min());
    drop(tree);
}

#[test]
fn tree_of_unsigned_keys() {
    let mut tree: Tree<u32> = Tree::new();
    for v in [5u32, 0, u32::MAX, 5] {
        tree.insert(v);
    }
    assert_eq!(vec![0, 5, 5, u32::MAX], tree.iter().collect());
    assert!(tree.remove(5));
    assert_eq!(vec![0, 5, u32::MAX], tree.iter().collect());
    assert_eq!(Some(u32::MAX), tree.max());
}
