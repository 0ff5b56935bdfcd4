use treemap::{TreeMap, B};

#[test]
fn repeated_get_is_stable() {
    let mut map = TreeMap::new();
    map.insert(4, 40);

    assert_eq!(map.get(4), map.get(4));
    assert_eq!(map.get(9), map.get(9));
    assert_eq!(map.get(4), Some(&40));
    assert_eq!(map.get(4), Some(&40));
}

#[test]
fn insert_returns_previous_value() {
    let mut map = TreeMap::new();
    assert_eq!(map.insert(8, 1), None);
    assert_eq!(map.insert(8, 2), Some(1));
    assert_eq!(map.get(8), Some(&2));
}

#[test]
fn insert_replaces_at_separator() {
    // after ascending inserts past the bound, the minimum of a split-off
    // half lives in a separator; replacing its value must work there too
    let mut map = TreeMap::new();
    for i in 0..(B * 3) {
        map.insert(i, i * 2);
    }
    assert_eq!(map.insert(B / 2, 999), Some(B));
    assert_eq!(map.get(B / 2), Some(&999));
}

#[test]
fn insert_descending() {
    // each insert below the current minimum takes over a separator slot
    let mut map = TreeMap::new();
    for i in (0..(B * 4)).rev() {
        map.insert(i, i + 100);
    }
    for i in 0..(B * 4) {
        assert_eq!(map.get(i), Some(&(i + 100)));
    }
    assert_eq!(map.get(B * 4), None);
}

#[test]
fn insertion_order_does_not_matter() {
    let keys_ascending: Vec<usize> = (0..20).collect();
    let keys_scrambled: Vec<usize> =
        vec![13, 2, 19, 7, 0, 11, 5, 16, 9, 3, 18, 1, 14, 6, 10, 17, 4, 12, 8, 15];

    let mut a = TreeMap::new();
    for &k in &keys_ascending {
        a.insert(k, k * 3 + 1);
    }
    let mut b = TreeMap::new();
    for &k in &keys_scrambled {
        b.insert(k, k * 3 + 1);
    }

    for k in 0..20 {
        assert_eq!(a.get(k), b.get(k));
        assert_eq!(a.get(k), Some(&(k * 3 + 1)));
    }
    assert_eq!(a.get(20), b.get(20));
}

#[test]
fn small_fanout_many_splits() {
    let mut map = TreeMap::with_fanout(2);
    assert_eq!(map.fanout(), 2);
    for i in 0..40 {
        map.insert(i * 7 % 40, i);
    }
    for i in 0..40 {
        assert_eq!(map.get(i * 7 % 40), Some(&i));
    }
    assert_eq!(map.get(40), None);
}

#[test]
fn deep_tree_stays_consistent() {
    // with the smallest fanout, a few hundred keys force splits of internal
    // levels and repeated root growth, not just terminal splits
    let mut map = TreeMap::with_fanout(2);
    for i in 0..300 {
        let k = i * 131 % 300;
        assert_eq!(map.insert(k, k + 7), None);
    }
    for k in 0..300 {
        assert_eq!(map.get(k), Some(&(k + 7)));
    }
    assert_eq!(map.get(300), None);
    *map.get_mut(131).unwrap() = 1;
    assert_eq!(map.get(131), Some(&1));
    assert_eq!(map.get(130), Some(&137));
}

#[test]
fn deep_tree_descending() {
    let mut map = TreeMap::with_fanout(3);
    for i in (0..120).rev() {
        map.insert(i, 2 * i);
    }
    for i in 0..120 {
        assert_eq!(map.get(i), Some(&(2 * i)));
    }
}

#[test]
fn get_mut_absent_key() {
    let mut map: TreeMap<usize> = TreeMap::new();
    map.insert(3, 30);
    assert!(map.get_mut(4).is_none());
    assert_eq!(map.get(3), Some(&30));
}

#[test]
fn get_mut_at_separator() {
    // mutate a value that was promoted into a separator by the splits
    let mut map = TreeMap::new();
    for i in 0..(B * 3) {
        map.insert(i, i * 2);
    }
    *map.get_mut(B / 2).unwrap() = 777;
    assert_eq!(map.get(B / 2), Some(&777));
    // neighbours are untouched
    assert_eq!(map.get(B / 2 - 1), Some(&(B - 2)));
    assert_eq!(map.get(B / 2 + 1), Some(&(B + 2)));
}

#[test]
fn string_values() {
    let mut map: TreeMap<String> = TreeMap::new();
    map.insert(1, String::from("one"));
    map.insert(2, String::from("two"));
    map.get_mut(2).unwrap().push_str(" and more");

    assert_eq!(map.get(1).map(|s| s.as_str()), Some("one"));
    assert_eq!(map.get(2).map(|s| s.as_str()), Some("two and more"));
    assert_eq!(map.get(3), None);
}

#[test]
fn default_fanout_is_b() {
    let map: TreeMap<usize> = TreeMap::new();
    assert_eq!(map.fanout(), B);
}
