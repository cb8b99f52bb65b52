use prefix_trie::{IterItem, Trie};

fn chars(s: &str) -> Vec<char> {
    s.chars().collect()
}

fn sample() -> Trie<char, i32> {
    let mut trie = Trie::new();
    trie.insert(&chars("foo"), 1);
    trie.insert(&chars("foob"), 2);
    trie.insert(&chars("fooba"), 3);
    trie.insert(&chars("foobar"), 4);
    trie.insert(&chars("foobarzz"), 5);
    trie
}

fn listed<K: Copy + Ord, V: Copy + Ord>(items: &[IterItem<'_, K, V>]) -> Vec<(Vec<K>, V)> {
    let mut out: Vec<(Vec<K>, V)> = items.iter().map(|it| (it.prefix.clone(), *it.value)).collect();
    out.sort();
    out
}

#[test]
fn test_prefix_values() {
    let trie = sample();
    assert_eq!(vec![&1, &2, &3, &4], trie.values_prefix(&chars("foobar")));
}

#[test]
fn test_other() {
    let trie = sample();
    assert_eq!(vec![&1, &2, &3, &4, &5], trie.values_vec());
    assert_eq!(vec![&1, &2, &3, &4, &5], trie.values());
}

#[test]
fn test_insert() {
    let mut trie = Trie::new();
    trie.insert(&chars("foobar"), "val");
    let s = String::from("foobaz");
    trie.insert(&s.chars().collect::<Vec<char>>(), "other");
    trie.insert_str("stuff", "okay");
    assert_eq!(trie.get_mut(&chars("stuff")).unwrap().value(), Some(&"okay"));
}

#[test]
fn test_bytes_iter() {
    let mut trie = Trie::new();
    trie.insert_bytes(b"stuff", 1);
    trie.insert_bytes(b"staff", 2);
    trie.insert_bytes(b"stack", 3);

    for stuff in trie.iter() {
        println!("{:?}", stuff);
    }
}

#[test]
fn bytes_iter_lists_every_key() {
    let mut trie = Trie::new();
    trie.insert_bytes(b"stuff", 1);
    trie.insert_bytes(b"staff", 2);
    trie.insert_bytes(b"stack", 3);
    assert_eq!(
        listed(&trie.iter()),
        vec![(b"stack".to_vec(), 3), (b"staff".to_vec(), 2), (b"stuff".to_vec(), 1)]
    );
}

#[test]
fn chain_of_keys_enumerates_exactly_the_inserted_pairs() {
    let trie = sample();
    let expected: Vec<(Vec<char>, i32)> = vec![
        (chars("foo"), 1),
        (chars("foob"), 2),
        (chars("fooba"), 3),
        (chars("foobar"), 4),
        (chars("foobarzz"), 5),
    ];
    assert_eq!(listed(&trie.iter()), expected);
}

#[test]
fn prefixes_before_and_after_removal() {
    let mut trie = Trie::new();
    trie.insert(&chars("first"), 40);
    trie.insert(&chars("fibonnaci"), 40);
    trie.insert(&chars("ab"), 20);
    assert!(trie.contains_prefix(&chars("fi")));
    assert!(!trie.contains_prefix(&chars("xyz")));
    assert_eq!(trie.remove(&chars("first")), Some(40));
    assert!(!trie.contains_prefix(&chars("first")));
    assert!(!trie.contains_prefix(&chars("fir")));
    // "fibonnaci" is still stored, so its prefix "fi" still exists.
    assert!(trie.contains_prefix(&chars("fi")));
    assert!(trie.contains_prefix(&chars("ab")));
}

#[test]
fn prefix_gone_when_no_key_shares_it() {
    let mut trie = Trie::new();
    trie.insert(&chars("first"), 40);
    trie.insert(&chars("ab"), 20);
    assert!(trie.contains_prefix(&chars("fi")));
    assert_eq!(trie.remove(&chars("first")), Some(40));
    assert!(!trie.contains_prefix(&chars("first")));
    assert!(!trie.contains_prefix(&chars("fi")));
    assert!(!trie.contains_prefix(&chars("f")));
    assert!(trie.contains_prefix(&chars("ab")));
}

#[test]
fn empty_trie() {
    let trie: Trie<char, i32> = Trie::new();
    assert!(trie.is_empty());
    assert!(trie.contains_prefix(&[]));
    assert!(trie.iter().is_empty());
    assert!(trie.values_vec().is_empty());
    let d: Trie<u8, i32> = Trie::default();
    assert!(d.is_empty());
}

#[test]
fn round_trip_insert_then_lookup() {
    let mut trie = Trie::new();
    trie.insert(&chars("key"), 7);
    let node = trie.get_ref(&chars("key")).unwrap();
    assert_eq!(node.value(), Some(&7));
    assert!(trie.contains_prefix(&chars("key")));
    assert!(trie.contains_prefix(&chars("ke")));
    assert!(!trie.contains_prefix(&chars("keys")));
    assert_eq!(trie.get_ref(&chars("ke")).unwrap().value(), None);
    assert!(trie.get_ref(&chars("kex")).is_none());
}

#[test]
fn empty_key_is_the_root() {
    let mut trie = Trie::new();
    trie.insert(&[], 3);
    assert!(!trie.is_empty());
    assert_eq!(trie.value(), Some(&3));
    assert_eq!(listed(&trie.iter()), vec![(Vec::<char>::new(), 3)]);
    assert_eq!(trie.remove(&[]), Some(3));
    assert!(trie.is_empty());
    assert_eq!(trie.remove(&[]), None);
}

#[test]
fn overwrite_keeps_one_value() {
    let mut trie = Trie::new();
    trie.insert(&chars("k"), 1);
    trie.insert(&chars("k"), 2);
    assert_eq!(trie.get_ref(&chars("k")).unwrap().value(), Some(&2));
    assert_eq!(listed(&trie.iter()), vec![(chars("k"), 2)]);
}

#[test]
fn prefix_monotone_on_a_long_key() {
    let mut trie = Trie::new();
    trie.insert(&chars("abcdef"), 0);
    let key = chars("abcdef");
    for n in 0..=key.len() {
        assert!(trie.contains_prefix(&key[..n]));
    }
}

#[test]
fn remove_absent_changes_nothing() {
    let mut trie = sample();
    let before = listed(&trie.iter());
    assert_eq!(trie.remove(&chars("fo")), None);
    assert_eq!(trie.remove(&chars("bar")), None);
    assert_eq!(trie.remove(&chars("foobarz")), None);
    assert_eq!(listed(&trie.iter()), before);
    assert!(trie.contains_prefix(&chars("foobarz")));
    assert!(trie.contains_prefix(&chars("fo")));
}

#[test]
fn remove_round_trip() {
    let mut trie = sample();
    trie.insert(&chars("zap"), 9);
    assert_eq!(trie.remove(&chars("zap")), Some(9));
    let n = trie.get_ref(&chars("zap"));
    assert!(n.is_none() || n.unwrap().value().is_none());
    assert_eq!(trie.remove(&chars("zap")), None);
}

#[test]
fn remove_keeps_live_nodes_below() {
    let mut trie = sample();
    assert_eq!(trie.remove(&chars("foob")), Some(2));
    assert!(trie.contains_prefix(&chars("foob")));
    assert_eq!(trie.get_ref(&chars("foob")).unwrap().value(), None);
    assert_eq!(trie.get_ref(&chars("foobar")).unwrap().value(), Some(&4));
    assert_eq!(trie.values_prefix(&chars("foobarzz")), vec![&1, &3, &4, &5]);
}

#[test]
fn pruning_removes_a_whole_branch() {
    let mut trie = Trie::new();
    trie.insert(&chars("ab"), 1);
    trie.insert(&chars("abc"), 2);
    trie.insert(&chars("abd"), 3);
    trie.insert(&chars("x"), 4);
    assert_eq!(trie.remove(&chars("abc")), Some(2));
    assert_eq!(trie.remove(&chars("ab")), Some(1));
    assert!(trie.contains_prefix(&chars("a")));
    assert_eq!(trie.remove(&chars("abd")), Some(3));
    assert!(!trie.contains_prefix(&chars("a")));
    assert!(!trie.contains_prefix(&chars("ab")));
    assert_eq!(listed(&trie.iter()), vec![(chars("x"), 4)]);
    assert!(!trie.is_empty());
    assert_eq!(trie.remove(&chars("x")), Some(4));
    assert!(trie.is_empty());
    assert!(trie.contains_prefix(&[]));
}

#[test]
fn enumeration_matches_inserts_and_removals() {
    let mut trie = Trie::new();
    trie.insert(&chars("a"), 1);
    trie.insert(&chars("b"), 2);
    trie.insert(&chars("ab"), 3);
    trie.insert(&chars("ba"), 4);
    trie.insert(&chars("a"), 5);
    trie.remove(&chars("b"));
    trie.remove(&chars("zz"));
    assert_eq!(
        listed(&trie.iter()),
        vec![(chars("a"), 5), (chars("ab"), 3), (chars("ba"), 4)]
    );
    let mut values: Vec<i32> = trie.values_vec().into_iter().copied().collect();
    values.sort();
    assert_eq!(values, vec![3, 4, 5]);
}

#[test]
fn values_prefix_stops_where_the_path_ends() {
    let trie = sample();
    assert_eq!(trie.values_prefix(&chars("foobaq")), vec![&1, &2, &3]);
    assert_eq!(trie.values_prefix(&chars("x")), Vec::<&i32>::new());
    assert_eq!(trie.values_prefix(&[]), Vec::<&i32>::new());
}

#[test]
fn get_mut_changes_the_trie_at_that_path() {
    let mut trie = sample();
    {
        let node = trie.get_mut(&chars("foob")).unwrap();
        node.insert(&chars("ell"), 6);
        assert_eq!(node.remove(&[]), Some(2));
    }
    assert_eq!(trie.get_ref(&chars("foobell")).unwrap().value(), Some(&6));
    assert_eq!(trie.get_ref(&chars("foob")).unwrap().value(), None);
    assert!(trie.get_mut(&chars("nope")).is_none());
}

#[test]
fn string_adapter_uses_characters() {
    let mut trie = Trie::new();
    trie.insert_str("héllo", 1);
    trie.insert_str("hé", 2);
    assert_eq!(trie.get_ref_str("héllo").unwrap().value(), Some(&1));
    assert_eq!(trie.get_ref(&chars("hé")).unwrap().value(), Some(&2));
    assert!(trie.get_ref_str("hel").is_none());
    assert!(trie.get_mut_str("hé").is_some());
    assert_eq!(trie.remove_str("héllo"), Some(1));
    assert!(!trie.contains_prefix(&chars("hél")));
    assert_eq!(listed(&trie.iter()), vec![(chars("hé"), 2)]);
}

#[test]
fn byte_adapter_uses_bytes() {
    let mut trie = Trie::new();
    trie.insert_bytes(b"ab", 1);
    trie.insert_bytes(&[0xff, 0x00], 2);
    assert_eq!(trie.get_ref_str(b"ab").unwrap().value(), Some(&1));
    assert_eq!(trie.get_ref_str(&[0xff, 0x00]).unwrap().value(), Some(&2));
    assert!(trie.get_ref_str(b"b").is_none());
    trie.get_mut_str(b"a").unwrap().insert(&[b'c'], 3);
    assert_eq!(trie.get_ref_str(b"ac").unwrap().value(), Some(&3));
    assert_eq!(trie.remove_str(b"ab"), Some(1));
    assert_eq!(trie.remove_str(b"ab"), None);
    assert!(!trie.contains_prefix(b"ab"));
}

#[test]
fn iter_item_new_keeps_its_fields() {
    let v = 5;
    let item = IterItem::new(vec!['a', 'b'], &v);
    assert_eq!(item.prefix, vec!['a', 'b']);
    assert_eq!(*item.value, 5);
}
