use cormen_rust::list::List;

#[test]
fn push_front_peek() {
    let mut list = List::new();
    assert_eq!(None, list.peek());

    list.push_front(1);
    assert_eq!(1, *list.peek().unwrap());

    list.push_front(2);
    assert_eq!(2, *list.peek().unwrap());
}

#[test]
fn push_front_pop() {
    let mut list = List::new();
    assert_eq!(None, list.pop());

    list.push_front(1);
    list.push_front(2);
    list.push_front(3);

    assert_eq!(Some(3), list.pop());
    assert_eq!(Some(2), list.pop());
    assert_eq!(Some(1), list.pop());
    assert_eq!(None, list.pop());
}

#[test]
fn push_back_pop() {
    let mut list = List::new();

    list.push_back(1);
    list.push_back(2);
    list.push_back(3);

    assert_eq!(Some(1), list.pop());
    assert_eq!(Some(2), list.pop());
    assert_eq!(Some(3), list.pop());
    assert_eq!(None, list.pop());
}

#[test]
fn reverse() {
    let mut list = List::new();

    list.push_front(1);
    list.push_front(2);
    list.push_front(3);
    list.reverse();

    assert_eq!(Some(1), list.pop());
    assert_eq!(Some(2), list.pop());
    assert_eq!(Some(3), list.pop());
    assert_eq!(None, list.pop());
}

#[test]
fn iter() {
    let mut list = List::new();

    list.push_front(1);
    list.push_front(2);
    list.push_front(3);

    let mut iterator = list.iter();
    assert_eq!(Some(&3), iterator.next());
    assert_eq!(Some(&2), iterator.next());
    assert_eq!(Some(&1), iterator.next());
    assert_eq!(None, iterator.next());
}

#[test]
fn into_iter() {
    let mut list = List::new();

    list.push_front(1);
    list.push_front(2);
    list.push_front(3);

    let mut iterator = list.into_iter();
    assert_eq!(Some(3), iterator.next());
    assert_eq!(Some(2), iterator.next());
    assert_eq!(Some(1), iterator.next());
    assert_eq!(None, iterator.next());
    assert_eq!(None, iterator.next());
}

#[test]
fn mixed_ends_and_reverse() {
    let mut list = List::new();
    list.push_back(2);
    list.push_front(1);
    list.push_back(3);
    list.reverse();
    assert_eq!(Some(&3), list.peek());
    list.reverse();
    let mut iterator = list.iter();
    assert_eq!(Some(&1), iterator.next());
    assert_eq!(Some(&2), iterator.next());
    assert_eq!(Some(&3), iterator.next());
    assert_eq!(None, iterator.next());
}

#[test]
fn reverse_empty_and_single() {
    let mut empty: List<String> = List::new();
    empty.reverse();
    assert_eq!(None, empty.peek());

    let mut single = List::new();
    single.push_back(String::from("x"));
    single.reverse();
    assert_eq!(Some(String::from("x")), single.pop());
}

#[test]
fn iter_mut() {
    let mut list = List::new();

    list.push_front(1);
    list.push_front(2);
    list.push_front(3);

    let mut iterator = list.iter_mut();

    assert_eq!(Some(&mut 3), iterator.next());
    assert_eq!(Some(&mut 2), iterator.next());
    assert_eq!(Some(&mut 1), iterator.next());
    assert_eq!(None, iterator.next());
}

#[test]
fn iter_mut_changes_values() {
    let mut list = List::new();
    list.push_back(1);
    list.push_back(2);
    {
        let mut iterator = list.iter_mut();
        while let Some(value) = iterator.next() {
            *value *= 10;
        }
    }
    assert_eq!(Some(10), list.pop());
    assert_eq!(Some(20), list.pop());
    assert_eq!(None, list.pop());
}
