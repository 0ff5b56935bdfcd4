use rand::seq::SliceRandom;

use treemap::{TreeMap, B};

#[test]
fn get_from_empty() {
    let map: TreeMap<usize> = TreeMap::new();
    assert_eq!(map.get(5), None);
}

#[test]
fn get_one() {
    let mut map = TreeMap::new();
    map.insert(2, 3);

    assert_eq!(map.get(2), Some(&3));
}

#[test]
fn insert_ordered() {
    let mut map = TreeMap::new();
    for i in 10..15 {
        map.insert(i, i * 2);
    }

    assert_eq!(map.get(12), Some(&24));
    assert_eq!(map.get(14), Some(&28));
    assert_eq!(map.get(16), None);
    assert_eq!(map.get(7), None);
}

#[test]
fn insert_ordered_overflow() {
    let mut map = TreeMap::new();
    for i in 10..10 + B * 3 {
        map.insert(i, i * 2);
    }

    let index: Vec<_> = (10..10 + B * 3).collect();
    for i in index {
        assert_eq!(map.get(i), Some(&(i * 2)));
    }

    assert_eq!(map.get(7), None);
    assert_eq!(map.get(15 + B * 3), None);
}

#[test]
fn insert_ordered_overflow_get_random() {
    let mut map = TreeMap::new();
    for i in 10..10 + B * 3 {
        map.insert(i, i * 2);
    }

    let mut index: Vec<_> = (10..10 + B * 3).collect();
    index.shuffle(&mut rand::rng());
    for i in index {
        assert_eq!(map.get(i), Some(&(i * 2)));
    }

    assert_eq!(map.get(7), None);
    assert_eq!(map.get(15 + B * 3), None);
}

#[test]
fn get_head_of_branch() {
    let mut map = TreeMap::new();
    for i in 0..(B * 3) {
        map.insert(i, i * 2);
    }

    assert_eq!(map.get(B / 2), Some(&B));
}

#[test]
fn get_in_new_branch() {
    let mut map = TreeMap::new();
    for i in 0..(B * 3) {
        map.insert(i, i * 2);
    }

    assert_eq!(map.get(B / 2 * 3), Some(&(B * 3)));
}

#[test]
fn get_mut() {
    let mut map = TreeMap::new();
    map.insert(1, 1);
    *map.get_mut(1).unwrap() = 5;
    assert_eq!(map.get(1), Some(&5));
}
