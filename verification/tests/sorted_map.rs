use fuzzy_ssh::sorted_map::SortedMap;

fn keys(map: &SortedMap<u32>) -> Vec<String> {
    (0..map.len()).map(|i| map.key_at(i).clone()).collect()
}

#[test]
fn a_new_map_is_empty() {
    let map: SortedMap<u32> = SortedMap::new();
    assert_eq!(map.len(), 0);
    assert!(map.is_empty());
    assert_eq!(map.get("a"), None);
    assert_eq!(map.position(""), None);
    assert!(!map.contains_key(""));
    assert_eq!(map.into_values(), Vec::<u32>::new());
}

#[test]
fn entries_are_kept_in_the_order_of_their_keys() {
    let mut map = SortedMap::new();
    for (key, value) in [("m", 1), ("b", 2), ("z", 3), ("", 4), ("ma", 5), ("B", 6), ("é", 7), ("a", 8)] {
        assert_eq!(map.insert(key.to_string(), value), None);
    }

    assert_eq!(keys(&map), vec!["", "B", "a", "b", "m", "ma", "z", "é"]);
    assert_eq!(map.len(), 8);
    assert!(!map.is_empty());
    assert_eq!(map.position("ma"), Some(5));
    assert_eq!(map.position("mb"), None);
    assert_eq!(*map.value_at(5), 5);
    assert_eq!(map.get(""), Some(&4));
    assert_eq!(map.get("é"), Some(&7));
    assert_eq!(map.get("e"), None);
    assert!(map.contains_key("B"));
    assert!(!map.contains_key("A"));
    assert_eq!(map.into_values(), vec![4, 6, 8, 2, 1, 5, 3, 7]);
}

#[test]
fn a_key_has_one_value_and_the_last_one_stays() {
    let mut map = SortedMap::new();
    assert_eq!(map.insert("k".to_string(), 1), None);
    assert_eq!(map.insert("j".to_string(), 2), None);
    assert_eq!(map.insert("k".to_string(), 3), Some(1));
    assert_eq!(map.insert("k".to_string(), 4), Some(3));

    assert_eq!(map.len(), 2);
    assert_eq!(map.get("k"), Some(&4));
    assert_eq!(map.get("j"), Some(&2));
    assert_eq!(keys(&map), vec!["j", "k"]);
}

#[test]
fn a_value_can_be_changed_in_place() {
    let mut map = SortedMap::new();
    map.insert("b".to_string(), 1);
    map.insert("a".to_string(), 2);

    *map.value_mut(1) += 10;

    assert_eq!(map.get("b"), Some(&11));
    assert_eq!(map.get("a"), Some(&2));
    assert_eq!(keys(&map), vec!["a", "b"]);
}
