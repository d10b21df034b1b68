use memoni::ordered_hash_map::OrderedHashMap;
use std::cmp::Ordering;

fn keys(m: &OrderedHashMap<u64, &'static str>) -> Vec<u64> {
    let mut out = Vec::new();
    let mut it = m.iter();
    while let Some((k, _)) = it.next() {
        out.push(*k);
    }
    out
}

#[test]
fn push_front_moves_existing_key() {
    let mut m = OrderedHashMap::new();
    assert_eq!(m.push_front(1, "a"), None);
    assert_eq!(m.push_front(2, "b"), None);
    assert_eq!(m.push_front(3, "c"), None);
    assert_eq!(keys(&m), vec![3, 2, 1]);
    assert_eq!(m.push_front(1, "a2"), Some("a"));
    assert_eq!(keys(&m), vec![1, 3, 2]);
    assert_eq!(m.len(), 3);
    assert_eq!(m.get(&1), Some(&"a2"));
}

#[test]
fn push_back_and_insert_keep_keys_unique() {
    let mut m = OrderedHashMap::new();
    m.push_back(1, "a");
    m.push_back(2, "b");
    m.push_back(3, "c");
    assert_eq!(m.push_back(1, "a2"), Some("a"));
    assert_eq!(keys(&m), vec![2, 3, 1]);
    assert_eq!(m.insert(1, 4, "d"), None);
    assert_eq!(keys(&m), vec![2, 4, 3, 1]);
    assert_eq!(m.insert(0, 3, "c2"), Some("c"));
    assert_eq!(keys(&m), vec![3, 2, 4, 1]);
    assert_eq!(m.len(), 4);
}

#[test]
fn pops_and_ends() {
    let mut m = OrderedHashMap::new();
    assert_eq!(m.pop_front(), None);
    assert_eq!(m.pop_back(), None);
    assert!(m.front().is_none());
    assert!(m.is_empty());
    m.push_back(1, "a");
    m.push_back(2, "b");
    m.push_back(3, "c");
    assert_eq!(m.front(), Some((&1, &"a")));
    assert_eq!(m.back(), Some((&3, &"c")));
    assert_eq!(m.pop_front(), Some((1, "a")));
    assert_eq!(m.pop_back(), Some((3, "c")));
    assert_eq!(keys(&m), vec![2]);
    assert!(!m.contains_key(&1));
    assert!(m.contains_key(&2));
}

#[test]
fn remove_and_lookup_by_index() {
    let mut m = OrderedHashMap::new();
    m.push_back(10, "x");
    m.push_back(20, "y");
    m.push_back(30, "z");
    assert_eq!(m.remove(&20), Some("y"));
    assert_eq!(m.remove(&20), None);
    assert_eq!(m.get_by_index(1), Some((&30, &"z")));
    assert_eq!(m.get_by_index(2), None);
    assert_eq!(m.get(&20), None);
    m.clear();
    assert_eq!(m.len(), 0);
}

#[test]
fn split_off_moves_tail_in_order() {
    let mut m = OrderedHashMap::new();
    for k in 0..5u64 {
        m.push_back(k, "v");
    }
    let tail = m.split_off(3);
    assert_eq!(keys(&m), vec![0, 1, 2]);
    assert_eq!(keys(&tail), vec![3, 4]);
    let empty = m.split_off(3);
    assert_eq!(empty.len(), 0);
}

#[test]
fn iteration_from_both_ends() {
    let mut m = OrderedHashMap::new();
    for k in 1..=4u64 {
        m.push_back(k, "v");
    }
    let mut it = m.iter();
    assert_eq!(it.len(), 4);
    assert_eq!(it.next().map(|(k, _)| *k), Some(1));
    assert_eq!(it.next_back().map(|(k, _)| *k), Some(4));
    assert_eq!(it.next_back().map(|(k, _)| *k), Some(3));
    assert_eq!(it.len(), 1);
    assert_eq!(it.next().map(|(k, _)| *k), Some(2));
    assert!(it.next().is_none());
    assert!(it.next_back().is_none());
    let mut owned = m.into_iter();
    assert_eq!(owned.next(), Some((1, "v")));
    assert_eq!(owned.next(), Some((2, "v")));
}

#[test]
fn binary_search_by_position_property() {
    let mut m = OrderedHashMap::new();
    for k in [10u64, 20, 30, 40] {
        m.push_back(k, "v");
    }
    assert_eq!(m.binary_search_by(|(k, _)| k.cmp(&30)), Ok(2));
    assert_eq!(m.binary_search_by(|(k, _)| k.cmp(&25)), Err(2));
    assert_eq!(m.binary_search_by(|(k, _)| k.cmp(&5)), Err(0));
    assert_eq!(m.binary_search_by(|(k, _)| k.cmp(&50)), Err(4));
    let _ = Ordering::Equal;
}

#[test]
fn default_is_empty() {
    let m: OrderedHashMap<u64, u8> = OrderedHashMap::default();
    assert!(m.is_empty());
}
