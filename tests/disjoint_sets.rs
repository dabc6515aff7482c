use cormen_rust::disjoint_sets::DisjointSet;

#[test]
fn find_root_for_new_set_returns_self() {
    let mut sets = DisjointSet::new();
    let a = sets.create_set("a");
    assert_eq!(a, sets.find_root(a));
    assert_eq!("a", sets.element(a).value);
}

#[test]
fn create_set_numbers_in_order() {
    let mut sets = DisjointSet::new();
    assert_eq!(0, sets.create_set('x'));
    assert_eq!(1, sets.create_set('y'));
    assert_eq!(2, sets.create_set('z'));
    assert_eq!(1, sets.find_root(1));
}

#[test]
fn union_joins_under_first_root() {
    let mut sets = DisjointSet::new();
    let a = sets.create_set(1);
    let b = sets.create_set(2);
    let c = sets.create_set(3);
    let d = sets.create_set(4);

    assert_eq!(a, sets.union(a, b));
    assert_eq!(a, sets.find_root(b));
    assert_eq!(c, sets.find_root(c));

    assert_eq!(c, sets.union(c, d));
    assert_eq!(c, sets.union(d, b));
    for e in [a, b, c, d] {
        assert_eq!(c, sets.find_root(e));
    }
}

#[test]
fn union_within_one_set_changes_nothing() {
    let mut sets = DisjointSet::new();
    let a = sets.create_set("a");
    let b = sets.create_set("b");
    sets.union(a, b);
    assert_eq!(a, sets.union(b, a));
    assert_eq!(a, sets.find_root(b));
}

#[test]
fn long_chain_is_compressed() {
    let mut sets = DisjointSet::new();
    let first = sets.create_set(0);
    let mut previous = first;
    for v in 1..200 {
        let next = sets.create_set(v);
        sets.union(next, previous);
        previous = next;
    }
    assert_eq!(previous, sets.find_root(first));
    assert_eq!(previous, sets.find_root(first));
}
