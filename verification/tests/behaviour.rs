use trie::ErrType;
use trie::Trie;

fn text(s: &str) -> Option<String> {
    Some(s.to_string())
}

fn find(t: &Trie<char, String>, query: &str) -> Option<String> {
    t.search(query.chars()).cloned()
}

#[test]
fn round_trip_returns_the_inserted_value() {
    let mut t: Trie<char, String> = Trie::new_empty();
    assert_eq!(t.insert("hello".chars(), "world".to_string()), Ok(()));
    assert_eq!(find(&t, "hello"), text("world"));

    assert_eq!(t.insert("help".chars(), "desk".to_string()), Ok(()));
    assert_eq!(find(&t, "help"), text("desk"));
    assert_eq!(find(&t, "hello"), text("world"));
}

#[test]
fn round_trip_with_integer_keys() {
    let mut t: Trie<u8, u64> = Trie::new_empty();
    assert_eq!(t.insert(vec![7u8, 0, 255].into_iter(), 42), Ok(()));
    assert_eq!(t.search(vec![7u8, 0, 255].into_iter()), Some(&42));
    assert_eq!(t.insert(vec![7u8].into_iter(), 1), Ok(()));
    assert_eq!(t.search(vec![7u8].into_iter()), Some(&1));
    assert_eq!(t.search(vec![7u8, 0, 255].into_iter()), Some(&42));
}

#[test]
fn second_insert_of_a_key_is_rejected_and_the_first_value_stays() {
    let mut t: Trie<char, String> = Trie::new_empty();
    assert_eq!(t.insert("ab".chars(), "first".to_string()), Ok(()));
    let second: ErrType = t.insert("ab".chars(), "second".to_string());
    assert_eq!(second, Err("key already present!"));
    assert_eq!(find(&t, "ab"), text("first"));
}

#[test]
fn rejected_insert_leaves_the_other_keys_alone() {
    let mut t: Trie<char, u32> = Trie::new_empty();
    assert_eq!(t.insert("a".chars(), 1), Ok(()));
    assert_eq!(t.insert("ab".chars(), 2), Ok(()));
    assert_eq!(t.insert("ac".chars(), 3), Ok(()));
    assert_eq!(t.insert("ab".chars(), 9), Err("key already present!"));
    assert_eq!(t.search("a".chars()), Some(&1));
    assert_eq!(t.search("ab".chars()), Some(&2));
    assert_eq!(t.search("ac".chars()), Some(&3));
    assert_eq!(t.search("ad".chars()), Some(&1));
}

#[test]
fn longer_key_past_a_stored_key_is_no_duplicate() {
    let mut t: Trie<char, u32> = Trie::new_empty();
    assert_eq!(t.insert("ab".chars(), 1), Ok(()));
    assert_eq!(t.insert("abcd".chars(), 2), Ok(()));
    assert_eq!(t.insert("abc".chars(), 3), Ok(()));
    assert_eq!(t.insert("abcd".chars(), 4), Err("key already present!"));
    assert_eq!(t.search("abcd".chars()), Some(&2));
    assert_eq!(t.search("abc".chars()), Some(&3));
    assert_eq!(t.search("ab".chars()), Some(&1));
}

#[test]
fn extension_wins_over_its_prefix() {
    let mut t: Trie<char, String> = Trie::new_empty();
    assert_eq!(t.insert("ab".chars(), "short".to_string()), Ok(()));
    assert_eq!(t.insert("abc".chars(), "long".to_string()), Ok(()));

    assert_eq!(find(&t, "abc"), text("long"));
    assert_eq!(find(&t, "abcxyz"), text("long"));
    assert_eq!(find(&t, "ab"), text("short"));
    assert_eq!(find(&t, "abx"), text("short"));
    assert_eq!(find(&t, "abxc"), text("short"));
}

#[test]
fn order_of_insertion_does_not_matter() {
    let mut one: Trie<char, u32> = Trie::new_empty();
    assert_eq!(one.insert("ab".chars(), 1), Ok(()));
    assert_eq!(one.insert("abcd".chars(), 2), Ok(()));
    let mut two: Trie<char, u32> = Trie::new_empty();
    assert_eq!(two.insert("abcd".chars(), 2), Ok(()));
    assert_eq!(two.insert("ab".chars(), 1), Ok(()));

    for query in ["", "a", "ab", "abc", "abcd", "abcde", "abx", "abcx", "b"] {
        assert_eq!(one.search(query.chars()), two.search(query.chars()));
    }
}

#[test]
fn walk_that_leaves_a_longer_key_midway_finds_nothing() {
    let mut t: Trie<char, u32> = Trie::new_empty();
    assert_eq!(t.insert("ab".chars(), 1), Ok(()));
    assert_eq!(t.insert("abcd".chars(), 2), Ok(()));

    // The walk goes on to the node for "abc", which has no value, and the
    // value of "ab" is not offered in its place.
    assert_eq!(t.search("abc".chars()), None);
    assert_eq!(t.search("abcx".chars()), None);
    assert_eq!(t.search("abx".chars()), Some(&1));
    assert_eq!(t.search("abcd".chars()), Some(&2));
    assert_eq!(t.search("abcdx".chars()), Some(&2));
}

#[test]
fn walk_past_a_stored_key_into_another_finds_what_is_there() {
    let mut t: Trie<char, u32> = Trie::new_empty();
    assert_eq!(t.insert("ab".chars(), 1), Ok(()));
    assert_eq!(t.insert("abc".chars(), 2), Ok(()));
    assert_eq!(t.insert("abcde".chars(), 3), Ok(()));

    assert_eq!(t.search("abcd".chars()), None);
    assert_eq!(t.search("abcdx".chars()), None);
    assert_eq!(t.search("abcx".chars()), Some(&2));
    assert_eq!(t.search("abcdef".chars()), Some(&3));
}

#[test]
fn empty_trie_finds_nothing() {
    let t: Trie<char, u32> = Trie::new_empty();
    assert_eq!(t.search("".chars()), None);
    assert_eq!(t.search("a".chars()), None);
    assert_eq!(t.search("anything at all".chars()), None);
}

#[test]
fn query_off_every_stored_path_finds_nothing() {
    let mut t: Trie<char, u32> = Trie::new_empty();
    assert_eq!(t.insert("abc".chars(), 1), Ok(()));
    assert_eq!(t.insert("abd".chars(), 2), Ok(()));
    assert_eq!(t.search("xyz".chars()), None);
    assert_eq!(t.search("x".chars()), None);
    assert_eq!(t.search("".chars()), None);
    assert_eq!(t.search("bcd".chars()), None);
}

#[test]
fn prefix_that_was_not_inserted_finds_nothing() {
    let mut t: Trie<char, String> = Trie::new_empty();
    assert_eq!(t.insert("abc".chars(), "x".to_string()), Ok(()));
    assert_eq!(find(&t, "ab"), None);
    assert_eq!(find(&t, "a"), None);
    assert_eq!(find(&t, ""), None);
    assert_eq!(find(&t, "abc"), text("x"));
}

#[test]
fn empty_key_on_a_fresh_trie() {
    let mut t: Trie<char, String> = Trie::new_empty();
    assert_eq!(t.insert("".chars(), "root".to_string()), Ok(()));
    assert_eq!(find(&t, ""), text("root"));
    assert_eq!(find(&t, "a"), text("root"));
    assert_eq!(find(&t, "abc"), text("root"));
}

#[test]
fn empty_key_twice_is_rejected() {
    let mut t: Trie<i32, i32> = Trie::new_empty();
    assert_eq!(t.insert(Vec::new().into_iter(), 5), Ok(()));
    assert_eq!(t.insert(Vec::new().into_iter(), 6), Err("key already present!"));
    assert_eq!(t.search(Vec::new().into_iter()), Some(&5));
}

#[test]
fn empty_key_beside_other_keys() {
    let mut t: Trie<char, u32> = Trie::new_empty();
    assert_eq!(t.insert("ab".chars(), 1), Ok(()));
    assert_eq!(t.insert("".chars(), 0), Ok(()));

    assert_eq!(t.search("".chars()), Some(&0));
    assert_eq!(t.search("x".chars()), Some(&0));
    // The edge for 'a' exists, so the walk leaves the root for a node
    // without a value.
    assert_eq!(t.search("a".chars()), None);
    assert_eq!(t.search("ax".chars()), None);
    assert_eq!(t.search("ab".chars()), Some(&1));
    assert_eq!(t.search("abc".chars()), Some(&1));
}

#[test]
fn siblings_are_kept_apart() {
    let mut t: Trie<char, u32> = Trie::new_empty();
    assert_eq!(t.insert("ab".chars(), 1), Ok(()));
    assert_eq!(t.insert("ac".chars(), 2), Ok(()));
    assert_eq!(t.insert("ad".chars(), 3), Ok(()));
    assert_eq!(t.insert("b".chars(), 4), Ok(()));

    assert_eq!(t.search("ab".chars()), Some(&1));
    assert_eq!(t.search("ac".chars()), Some(&2));
    assert_eq!(t.search("ad".chars()), Some(&3));
    assert_eq!(t.search("b".chars()), Some(&4));
    assert_eq!(t.search("ba".chars()), Some(&4));
    assert_eq!(t.search("ae".chars()), None);
    assert_eq!(t.search("a".chars()), None);
}

#[test]
fn iterator_forms_agree_with_the_plain_ones() {
    let mut t: Trie<i32, &str> = Trie::new_empty();
    assert_eq!(t.insert_iter(vec![1, 2].into_iter(), "ten"), Ok(()));
    assert_eq!(t.insert_iter(vec![1, 2].into_iter(), "again"), Err("key already present!"));
    assert_eq!(t.insert(vec![1, 2, 3].into_iter(), "twenty"), Ok(()));

    assert_eq!(t.search_iter(vec![1, 2].into_iter()), Some(&"ten"));
    assert_eq!(t.search_iter(vec![1, 2, 3, 4].into_iter()), Some(&"twenty"));
    assert_eq!(t.search_iter(vec![1].into_iter()), None);
    assert_eq!(t.search_iter(vec![2].into_iter()), None);
    assert_eq!(t.search(vec![1, 2].into_iter()), t.search_iter(vec![1, 2].into_iter()));
}

#[test]
fn keys_may_come_from_any_iterator() {
    let mut t: Trie<u32, u32> = Trie::new_empty();
    assert_eq!(t.insert(1..4, 6), Ok(()));
    assert_eq!(t.insert([1u32, 2].iter().copied(), 3), Ok(()));
    assert_eq!(t.search(1..4), Some(&6));
    assert_eq!(t.search(1..10), Some(&6));
    assert_eq!(t.search(1..3), Some(&3));
    assert_eq!(t.search(1..2), None);
}

#[test]
fn values_are_stored_not_compared() {
    let mut t: Trie<char, Vec<u8>> = Trie::new_empty();
    assert_eq!(t.insert("k".chars(), vec![1, 2, 3]), Ok(()));
    assert_eq!(t.insert("kk".chars(), vec![1, 2, 3]), Ok(()));
    assert_eq!(t.search("k".chars()), Some(&vec![1, 2, 3]));
    assert_eq!(t.search("kkk".chars()), Some(&vec![1, 2, 3]));
}

#[test]
fn long_key_is_walked_to_its_end() {
    let key: Vec<u16> = (0..2000).collect();
    let mut t: Trie<u16, usize> = Trie::new_empty();
    assert_eq!(t.insert(key.clone().into_iter(), key.len()), Ok(()));
    assert_eq!(t.search(key.clone().into_iter()), Some(&2000));
    assert_eq!(t.search(key[..1999].to_vec().into_iter()), None);
    assert_eq!(t.insert(key.into_iter(), 0), Err("key already present!"));
}

#[test]
fn query_longer_than_the_stored_key_finds_it() {
    let mut t: Trie<char, String> = Trie::new_empty();
    t.insert("abc".chars(), "foobar".to_string()).ok();

    let query = "abcd";
    assert_eq!(find(&t, query), text("foobar"));
}
