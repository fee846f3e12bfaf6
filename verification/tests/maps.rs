use generic_btree::btree::iter::Bound;
use generic_btree::map::Binding;
use generic_btree::slab::Storage;
use generic_btree::TreeMap;

fn sample() -> TreeMap<usize, &'static str> {
    let mut map = TreeMap::new();
    for (k, v) in [(4223, "a"), (8175, "b"), (1411, "c"), (9208, "d"), (1246, "e")] {
        map.insert(k, v);
    }
    map
}

#[test]
fn insert_then_size() {
    let map = sample();
    assert_eq!(map.len(), 5);
    let mut keys = vec![];
    let mut it = map.iter();
    while let Some((k, _)) = it.next() {
        keys.push(*k);
    }
    assert_eq!(keys, vec![1246, 1411, 4223, 8175, 9208]);
    assert_eq!(map.btree().validate(), Ok(()));
}

#[test]
fn duplicate_insert_replaces() {
    let mut map: TreeMap<usize, &str> = TreeMap::new();
    assert_eq!(map.insert(1, "a"), None);
    assert_eq!(map.insert(1, "b"), Some("a"));
    assert_eq!(map.get(&1), Some(&"b"));
    assert_eq!(map.len(), 1);
}

#[test]
fn remove_then_reinsert() {
    let mut map = sample();
    assert_eq!(map.remove(&4223), Some("a"));
    assert_eq!(map.len(), 4);
    assert_eq!(map.btree().validate(), Ok(()));
    assert_eq!(map.insert(4223, "z"), None);
    assert_eq!(map.len(), 5);
    assert_eq!(map.get(&4223), Some(&"z"));
}

#[test]
fn insert_then_remove_gives_the_tree_back() {
    let mut map = sample();
    assert_eq!(map.insert(5000, "x"), None);
    assert_eq!(map.remove(&5000), Some("x"));
    let mut keys = vec![];
    let mut it = map.iter();
    while let Some((k, v)) = it.next() {
        keys.push((*k, *v));
    }
    assert_eq!(
        keys,
        vec![(1246, "e"), (1411, "c"), (4223, "a"), (8175, "b"), (9208, "d")]
    );
}

#[test]
fn drain_filter_with_even_keys() {
    let mut map: TreeMap<usize, usize> = TreeMap::new();
    for k in 0..8 {
        map.insert(k, k * 10);
    }
    let mut drained = vec![];
    {
        let mut drain = map.drain_filter(|k: &usize, _: &usize| k % 2 == 0);
        while let Some(pair) = drain.next() {
            drained.push(pair);
        }
    }
    assert_eq!(drained, vec![(0, 0), (2, 20), (4, 40), (6, 60)]);
    let mut left = vec![];
    let mut it = map.iter();
    while let Some((k, v)) = it.next() {
        left.push((*k, *v));
    }
    assert_eq!(left, vec![(1, 10), (3, 30), (5, 50), (7, 70)]);
    assert_eq!(map.btree().validate(), Ok(()));
}

#[test]
fn drain_filter_over_many_leaves() {
    let mut map: TreeMap<usize, usize> = TreeMap::new();
    for k in 0..500 {
        map.insert(k, k);
    }
    let mut drained = 0;
    {
        let mut drain = map.drain_filter(|k: &usize, _: &usize| k % 3 == 0);
        while let Some((k, _)) = drain.next() {
            assert_eq!(k % 3, 0);
            drained += 1;
        }
    }
    assert_eq!(drained, 167);
    assert_eq!(map.len(), 333);
    assert_eq!(map.btree().validate(), Ok(()));
    assert_eq!(map.get(&3), None);
    assert_eq!(map.get(&4), Some(&4));
}

#[test]
fn retain_keeps_what_the_predicate_takes() {
    let mut map: TreeMap<usize, usize> = TreeMap::new();
    for k in 0..100 {
        map.insert(k, k);
    }
    map.retain(|k: &usize, _: &usize| k % 10 == 1);
    assert_eq!(map.len(), 10);
    assert_eq!(map.get(&11), Some(&11));
    assert_eq!(map.get(&12), None);
    assert_eq!(map.btree().validate(), Ok(()));
}

#[test]
fn iterator_gives_every_item_once_in_order() {
    let mut tree: Storage<usize> = Storage::new();
    let mut k: usize = 1;
    for _ in 0..300 {
        k = (k * 31 + 7) % 1009;
        tree.insert(k);
    }
    let items = tree.iter().collect();
    assert_eq!(items.len(), tree.len());
    for pair in items.windows(2) {
        assert!(pair[0] < pair[1]);
    }
    let mut it = tree.iter();
    let mut from_back = vec![];
    while let Some(x) = it.next_back() {
        from_back.push(*x);
    }
    from_back.reverse();
    let forward: Vec<usize> = items.iter().map(|x| **x).collect();
    assert_eq!(from_back, forward);
}

#[test]
fn iterator_from_both_ends_meets_in_the_middle() {
    let mut tree: Storage<usize> = Storage::new();
    for k in 0..50 {
        tree.insert(k);
    }
    let mut it = tree.iter();
    let mut seen = vec![];
    loop {
        match it.next() {
            Some(x) => seen.push(*x),
            None => break,
        }
        match it.next_back() {
            Some(x) => seen.push(*x),
            None => break,
        }
    }
    seen.sort();
    assert_eq!(seen, (0..50).collect::<Vec<usize>>());
    assert_eq!(it.size_hint(), (0, Some(0)));
}

#[test]
fn range_holds_its_items() {
    let mut map: TreeMap<usize, usize> = TreeMap::new();
    for k in 0..200 {
        map.insert(k * 2, k);
    }
    let collect = |start: Bound<&usize>, end: Bound<&usize>| {
        let mut keys = vec![];
        let mut range = map.range(start, end);
        while let Some((k, _)) = range.next() {
            keys.push(*k);
        }
        keys
    };
    assert_eq!(
        collect(Bound::Included(&10), Bound::Excluded(&20)),
        vec![10, 12, 14, 16, 18]
    );
    assert_eq!(
        collect(Bound::Excluded(&10), Bound::Included(&20)),
        vec![12, 14, 16, 18, 20]
    );
    assert_eq!(
        collect(Bound::Included(&11), Bound::Included(&15)),
        vec![12, 14]
    );
    assert_eq!(collect(Bound::Excluded(&11), Bound::Excluded(&12)), vec![]);
    assert_eq!(collect(Bound::Included(&396), Bound::Unbounded), vec![396, 398]);
    assert_eq!(collect(Bound::Unbounded, Bound::Excluded(&4)), vec![0, 2]);
    assert_eq!(collect(Bound::Unbounded, Bound::Unbounded).len(), 200);
    assert_eq!(collect(Bound::Included(&1000), Bound::Unbounded), vec![]);
}

#[test]
fn pop_first_and_last() {
    let mut map = sample();
    assert_eq!(map.pop_first(), Some((1246, "e")));
    assert_eq!(map.pop_last(), Some((9208, "d")));
    assert_eq!(map.first_key_value(), Some((&1411, &"c")));
    assert_eq!(map.last_key_value(), Some((&8175, &"b")));
    assert_eq!(map.len(), 3);
    let mut empty: TreeMap<usize, usize> = TreeMap::new();
    assert_eq!(empty.pop_first(), None);
    assert_eq!(empty.pop_last(), None);
}

#[test]
fn into_iter_gives_the_items_in_order() {
    let map = sample();
    let mut it = map.into_iter();
    assert_eq!(it.size_hint(), (5, Some(5)));
    assert_eq!(it.next(), Some((1246, "e")));
    assert_eq!(it.next_back(), Some((9208, "d")));
    assert_eq!(it.next(), Some((1411, "c")));
    assert_eq!(it.next(), Some((4223, "a")));
    assert_eq!(it.next(), Some((8175, "b")));
    assert_eq!(it.next(), None);
    assert_eq!(it.next_back(), None);
}

#[test]
fn append_moves_the_items() {
    let mut a: Storage<usize> = Storage::new();
    let mut b: Storage<usize> = Storage::new();
    for k in 0..40 {
        a.insert(k * 2);
        b.insert(k * 3);
    }
    a.append(&mut b);
    assert!(b.is_empty());
    assert_eq!(a.validate(), Ok(()));
    for k in 0..40 {
        assert_eq!(a.get(&(k * 2)), Some(&(k * 2)));
        assert_eq!(a.get(&(k * 3)), Some(&(k * 3)));
    }
    let mut c: Storage<usize> = Storage::new();
    c.append(&mut a);
    assert!(a.is_empty());
    assert_eq!(c.get(&6), Some(&6));
    c.clear();
    assert!(c.is_empty());
    assert_eq!(c.validate(), Ok(()));
}

#[test]
fn entries() {
    let mut map = sample();
    match map.entry(4223) {
        generic_btree::btree::entry::Entry::Occupied(mut e) => {
            assert_eq!(e.key(), &4223);
            assert_eq!(e.get(), &"a");
            assert_eq!(e.insert("q"), "a");
            assert_eq!(e.get(), &"q");
        }
        generic_btree::btree::entry::Entry::Vacant(_) => panic!("the key is there"),
    }
    assert_eq!(map.get(&4223), Some(&"q"));
    match map.entry(7) {
        generic_btree::btree::entry::Entry::Occupied(_) => panic!("the key is not there"),
        generic_btree::btree::entry::Entry::Vacant(e) => {
            assert_eq!(e.key(), &7);
            e.insert("seven");
        }
    }
    assert_eq!(map.get(&7), Some(&"seven"));
    assert_eq!(map.first_entry().unwrap().remove(), "seven");
    let last = map.last_entry().unwrap().remove_entry();
    assert_eq!((last.key, last.value), (9208, "d"));
    assert_eq!(map.len(), 4);
    assert_eq!(map.btree().validate(), Ok(()));
}

#[test]
fn walk_that_removes_and_inserts() {
    let mut tree: Storage<Binding<usize, usize>> = Storage::new();
    for k in 0..60 {
        tree.insert(Binding::new(k * 2, k));
    }
    {
        let mut walk = generic_btree::btree::entry::EntriesMut::new(&mut tree);
        let mut odd = 1;
        loop {
            match walk.peek() {
                Some(b) if b.key % 4 == 0 => {
                    walk.remove();
                }
                Some(_) => {
                    walk.next_item();
                }
                None => break,
            }
            odd += 1;
        }
        assert!(odd > 0);
    }
    assert_eq!(tree.len(), 30);
    assert_eq!(tree.validate(), Ok(()));
    assert!(tree.get(&4usize).is_none());
    assert_eq!(tree.get(&6usize).map(|b| b.value), Some(3));
}

#[test]
fn keys_values_and_ranges_from_the_back() {
    let map = sample();
    let mut keys = map.keys();
    assert_eq!(keys.next_back(), Some(&9208));
    assert_eq!(keys.next(), Some(&1246));
    assert_eq!(keys.next_back(), Some(&8175));
    assert_eq!(keys.next_back(), Some(&4223));
    assert_eq!(keys.next_back(), Some(&1411));
    assert_eq!(keys.next_back(), None);
    assert_eq!(keys.next(), None);
    let mut values = map.values();
    assert_eq!(values.next_back(), Some(&"d"));
    assert_eq!(values.next_back(), Some(&"b"));
    assert_eq!(values.next(), Some(&"e"));
    let mut range = map.range(Bound::Included(&1411usize), Bound::Excluded(&9208usize));
    assert_eq!(range.next_back(), Some((&8175, &"b")));
    assert_eq!(range.next(), Some((&1411, &"c")));
    assert_eq!(range.next_back(), Some((&4223, &"a")));
    assert_eq!(range.next_back(), None);
    assert_eq!(range.next(), None);
}

#[test]
fn a_drain_that_is_finished_filters_the_rest() {
    let mut map: TreeMap<usize, usize> = TreeMap::new();
    for k in 0..100 {
        map.insert(k, k * 10);
    }
    {
        let mut drain = map.drain_filter(|k: &usize, _: &usize| k % 2 == 0);
        assert_eq!(drain.next(), Some((0, 0)));
        assert_eq!(drain.next(), Some((2, 20)));
        drain.finish();
    }
    assert_eq!(map.len(), 50);
    for k in 0..100 {
        assert_eq!(map.get(&k).is_some(), k % 2 == 1);
    }
    assert_eq!(map.btree().validate(), Ok(()));
    {
        // a drain that has not started
        let drain = map.drain_filter(|_: &usize, v: &usize| *v > 500);
        drain.finish();
    }
    assert_eq!(map.len(), 25);
    assert_eq!(map.last_key_value(), Some((&49, &490)));
}

#[test]
fn keys_of_other_types() {
    let mut wide: TreeMap<u128, &str> = TreeMap::new();
    wide.insert(u128::MAX, "last");
    wide.insert(0, "first");
    wide.insert(1 << 100, "between");
    assert_eq!(wide.first_key_value(), Some((&0, &"first")));
    assert_eq!(wide.last_key_value(), Some((&u128::MAX, &"last")));
    let mut signed: TreeMap<i128, i32> = TreeMap::new();
    signed.insert(5, 1);
    signed.insert(i128::MIN, 2);
    signed.insert(-5, 3);
    assert_eq!(signed.pop_first(), Some((i128::MIN, 2)));
    assert_eq!(signed.pop_first(), Some((-5, 3)));
    let mut flags: TreeMap<bool, i32> = TreeMap::new();
    flags.insert(true, 1);
    flags.insert(false, 0);
    assert_eq!(flags.insert(true, 2), Some(1));
    assert_eq!(flags.first_key_value(), Some((&false, &0)));
    assert_eq!(flags.last_key_value(), Some((&true, &2)));
    let mut letters: TreeMap<char, usize> = TreeMap::new();
    for (i, c) in "the quick brown fox".chars().enumerate() {
        letters.insert(c, i);
    }
    assert_eq!(letters.first_key_value().map(|(k, _)| *k), Some(' '));
    assert_eq!(letters.last_key_value().map(|(k, _)| *k), Some('x'));
}
