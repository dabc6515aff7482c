use cormen_rust::patterns::{create_kmp_prefix_table, kmp_find};

#[test]
fn prefix_table_two_characters() {
    let pattern = vec!['a', 'b', 'a', 'a', 'b'];
    let prefix_table = create_kmp_prefix_table(&pattern);

    assert_eq!(vec![0, 0, 1, 1, 2], prefix_table);
}

#[test]
fn prefix_table_single_character() {
    let pattern = vec!['a', 'a', 'a', 'a', 'a'];
    let prefix_table = create_kmp_prefix_table(&pattern);

    assert_eq!(vec![0, 1, 2, 3, 4], prefix_table);
}

#[test]
fn prefix_table_falls_back_through_borders() {
    assert_eq!(vec![0, 1, 0], create_kmp_prefix_table(&vec!['a', 'a', 'b']));
    assert_eq!(
        vec![0, 1, 0, 1, 2, 2],
        create_kmp_prefix_table(&vec!['a', 'a', 'b', 'a', 'a', 'a'])
    );
    assert_eq!(vec![0], create_kmp_prefix_table(&Vec::new()));
}

#[test]
fn kmp_find_examples() {
    assert_eq!(kmp_find(&String::from("abc"), &String::from("abbabcdef")), Some(3));
    assert_eq!(kmp_find(&String::from("abaab"), &String::from("abbabcabaabcd")), Some(6));
    assert_eq!(kmp_find(&String::from("abc"), &String::from("bdbdbdabd")), None);
}

#[test]
fn kmp_find_edges() {
    assert_eq!(kmp_find(&String::new(), &String::from("xyz")), Some(0));
    assert_eq!(kmp_find(&String::new(), &String::new()), Some(0));
    assert_eq!(kmp_find(&String::from("a"), &String::new()), None);
    assert_eq!(kmp_find(&String::from("abc"), &String::from("abc")), Some(0));
    assert_eq!(kmp_find(&String::from("abcd"), &String::from("abc")), None);
    assert_eq!(kmp_find(&String::from("aab"), &String::from("aaab")), Some(1));
    assert_eq!(kmp_find(&String::from("ß"), &String::from("aßß")), Some(1));
}
