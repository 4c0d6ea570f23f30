use trie::Trie;

#[test]
fn create_trie() {
    let mut t = Trie::new_empty();

    assert_eq!(t.insert("abc".chars(), "foobar".to_string()), Ok(()));

    assert_eq!(t.search("ab".chars()), None);

    let res = t.search("abc".chars());
    assert!(res != None);
    if let Some(value) = res {
        assert_eq!(value, "foobar")
    }
}

#[test]
fn test_longest_match() {
    let mut t = Trie::new_empty();
    assert_eq!(t.insert("abc".chars(), "object 1".to_string()), Ok(()));
    assert_eq!(t.insert("ab".chars(), "object 2".to_string()), Ok(()));

    let res1 = t.search("abc".chars());

    assert!(res1 != None);
    if let Some(value) = res1 {
        assert_eq!(value, "object 1");
    }

    let res2 = t.search("abcdef".chars());

    assert!(res2 != None);
    if let Some(value) = res2 {
        assert_eq!(value, "object 1");
    }

    let res3 = t.search("ab".chars());

    assert!(res3 != None);
    if let Some(value) = res3 {
        assert_eq!(value, "object 2");
    }
}

#[test]
fn test_ints_and_vectors() {
    let mut t: Trie<i32, i32> = Trie::new_empty();

    assert_eq!(t.insert(vec![1, 2].into_iter(), 10), Ok(()));
    assert_eq!(t.insert(vec![1, 2, 3].into_iter(), 20), Ok(()));

    assert_eq!(t.search(vec![1].into_iter()), None);

    if let Some(value) = t.search(vec![1, 2, 3].into_iter()) {
        assert_eq!(value, &20);
    } else {
        assert!(false);
    }

    if let Some(value) = t.search(vec![1, 2, 4].into_iter()) {
        assert_eq!(value, &10);
    } else {
        assert!(false);
    }
}

#[test]
fn test_double_insert_fails() {
    let mut t = Trie::new_empty();

    assert!(t.insert("ab".chars(), 1).is_ok());
    assert!(t.insert("ab".chars(), 1).is_err());
}
