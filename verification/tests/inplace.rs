use generic_btree::btree::entry::{EntriesMut, Entry};
use generic_btree::btree::iter::Bound;
use generic_btree::btree::node::{Internal, Leaf, Offset, Reference};
use generic_btree::map::Binding;
use generic_btree::slab::Storage;
use generic_btree::TreeMap;

fn squares(n: usize) -> TreeMap<usize, usize> {
    let mut map = TreeMap::new();
    for k in 0..n {
        map.insert((k * 7) % n, ((k * 7) % n) * ((k * 7) % n));
    }
    map
}

fn pairs(map: &TreeMap<usize, usize>) -> Vec<(usize, usize)> {
    let mut out = vec![];
    let mut iter = map.iter();
    while let Some((k, v)) = iter.next() {
        out.push((*k, *v));
    }
    out
}

#[test]
fn get_mut_changes_the_value_in_place() {
    let mut map = squares(100);
    assert_eq!(map.get_mut(&100), None);
    for k in 0..100 {
        let value = map.get_mut(&k).unwrap();
        assert_eq!(*value, k * k);
        *value += 1;
    }
    assert_eq!(map.len(), 100);
    assert_eq!(map.btree().validate(), Ok(()));
    for k in 0..100 {
        assert_eq!(map.get(&k), Some(&(k * k + 1)));
    }
}

#[test]
fn item_mut_at_an_address() {
    let mut tree: Storage<Binding<usize, &str>> = Storage::new();
    for k in 0..50 {
        tree.insert(Binding::new(k, "old"));
    }
    let addr = tree.address_of(&17).ok().unwrap();
    {
        let item = tree.item_mut(addr).unwrap();
        assert_eq!(item.key, 17);
        item.value = "new";
    }
    assert_eq!(tree.get(&17).unwrap().value, "new");
    assert_eq!(tree.get(&18).unwrap().value, "old");
    assert_eq!(tree.len(), 50);
    // no item stands at the end of a leaf, nor nowhere
    let end = tree.last_valid_address();
    assert!(tree.item_mut(end).is_none());
    assert!(tree.item_mut(generic_btree::Address::nowhere()).is_none());
    assert_eq!(tree.validate(), Ok(()));
    {
        let item = tree.get_mut(&3).unwrap();
        item.value = "three";
    }
    assert_eq!(tree.get(&3).unwrap().value, "three");
    assert!(tree.get_mut(&50).is_none());
}

#[test]
fn entries_hand_out_their_values() {
    let mut map = squares(40);
    match map.entry(6) {
        Entry::Occupied(mut e) => {
            assert_eq!(*e.get_mut(), 36);
            *e.get_mut() += 4;
            assert_eq!(*e.get(), 40);
            *e.into_mut() += 2;
        }
        Entry::Vacant(_) => panic!("the key is there"),
    }
    assert_eq!(map.get(&6), Some(&42));
    match map.entry(77) {
        Entry::Occupied(_) => panic!("the key is not there"),
        Entry::Vacant(e) => {
            let value = e.insert(1);
            assert_eq!(*value, 1);
            *value = 2;
        }
    }
    assert_eq!(map.get(&77), Some(&2));
    assert_eq!(map.len(), 41);
    assert_eq!(map.btree().validate(), Ok(()));
}

#[test]
fn or_insert_and_its_like() {
    let mut map: TreeMap<usize, usize> = TreeMap::new();
    assert_eq!(*map.entry(5).or_insert(50), 50);
    assert_eq!(*map.entry(5).or_insert(51), 50);
    *map.entry(5).or_insert(0) += 1;
    assert_eq!(map.get(&5), Some(&51));
    assert_eq!(*map.entry(6).or_insert_with(|| 60), 60);
    assert_eq!(*map.entry(6).or_insert_with(|| 61), 60);
    assert_eq!(*map.entry(7).or_insert_with_key(|k| *k * 10), 70);
    assert_eq!(*map.entry(7).or_insert_with_key(|k| *k * 11), 70);
    assert_eq!(*map.entry(8).or_default(), 0);
    *map.entry(8).or_default() += 3;
    assert_eq!(*map.entry(8).or_default(), 3);
    for k in 9..60 {
        *map.entry(k).or_insert(0) += k;
    }
    assert_eq!(map.len(), 55);
    assert_eq!(map.get(&59), Some(&59));
    assert_eq!(pairs(&map)[..4], [(5, 51), (6, 60), (7, 70), (8, 3)]);
    assert_eq!(map.btree().validate(), Ok(()));
}

#[test]
fn walk_that_changes_every_item() {
    let mut tree: Storage<Binding<usize, usize>> = Storage::new();
    for k in 0..200 {
        tree.insert(Binding::new((k * 37) % 200, 0));
    }
    {
        let mut walk = EntriesMut::new(&mut tree);
        let mut seen = 0;
        loop {
            match walk.peek_mut() {
                Some(item) => item.value += 1,
                None => break,
            }
            let item = walk.next_item().unwrap();
            assert_eq!(item.key, seen);
            assert_eq!(item.value, 1);
            item.value += seen;
            seen += 1;
        }
        assert_eq!(seen, 200);
        assert!(walk.next_item().is_none());
        assert!(walk.peek_mut().is_none());
    }
    assert_eq!(tree.len(), 200);
    assert_eq!(tree.validate(), Ok(()));
    for k in 0..200 {
        assert_eq!(tree.get(&k).unwrap().value, k + 1);
    }
}

#[test]
fn iter_mut_hands_out_every_item_once_in_order() {
    let mut tree: Storage<Binding<usize, usize>> = Storage::new();
    for k in 0..300 {
        tree.insert(Binding::new((k * 91) % 300, 1));
    }
    {
        let mut iter = tree.iter_mut();
        assert_eq!(iter.size_hint(), (300, Some(300)));
        let mut front = 0;
        let mut back = 299;
        // from both ends, until they meet
        loop {
            match iter.next() {
                Some(item) => {
                    assert_eq!(item.key, front);
                    item.value += front;
                    front += 1;
                }
                None => break,
            }
            match iter.next_back() {
                Some(item) => {
                    assert_eq!(item.key, back);
                    item.value += 2 * back;
                    back -= 1;
                }
                None => break,
            }
        }
        assert_eq!(front, 150);
        assert_eq!(back, 149);
        assert_eq!(iter.size_hint(), (0, Some(0)));
        assert!(iter.next().is_none());
        assert!(iter.next_back().is_none());
    }
    assert_eq!(tree.validate(), Ok(()));
    assert_eq!(tree.len(), 300);
    for k in 0..300 {
        let expected = if k < 150 { 1 + k } else { 1 + 2 * k };
        assert_eq!(tree.get(&k).unwrap().value, expected);
    }
    let mut empty: Storage<Binding<usize, usize>> = Storage::new();
    assert!(empty.iter_mut().next().is_none());
    assert!(empty.iter_mut().next_back().is_none());
}

#[test]
fn range_mut_stays_in_its_range() {
    let mut tree: Storage<Binding<usize, usize>> = Storage::new();
    for k in 0..100 {
        tree.insert(Binding::new(k * 2, 0));
    }
    {
        let mut range = tree.range_mut(Bound::Included(&21usize), Bound::Excluded(&40usize));
        let mut keys = vec![];
        while let Some(item) = range.next() {
            item.value = 5;
            keys.push(item.key);
        }
        assert_eq!(keys, vec![22, 24, 26, 28, 30, 32, 34, 36, 38]);
        assert!(range.next().is_none());
    }
    {
        let mut range = tree.range_mut(Bound::Excluded(&190usize), Bound::Unbounded);
        let mut keys = vec![];
        while let Some(item) = range.next_back() {
            item.value = 7;
            keys.push(item.key);
        }
        assert_eq!(keys, vec![198, 196, 194, 192]);
    }
    {
        let mut range = tree.range_mut(Bound::Included(&51usize), Bound::Included(&51usize));
        assert!(range.next().is_none());
    }
    for k in 0..100 {
        let key = k * 2;
        let expected = if (21..40).contains(&key) {
            5
        } else if key > 190 {
            7
        } else {
            0
        };
        assert_eq!(tree.get(&key).unwrap().value, expected);
    }
    assert_eq!(tree.validate(), Ok(()));
}

#[test]
fn map_iterators_that_change_values() {
    let mut map = squares(64);
    {
        let mut iter = map.iter_mut();
        assert_eq!(iter.size_hint(), (64, Some(64)));
        let mut expected = 0;
        while let Some((key, value)) = iter.next() {
            assert_eq!(*key, expected);
            assert_eq!(*value, expected * expected);
            *value = *key;
            expected += 1;
        }
        assert_eq!(expected, 64);
    }
    {
        let mut iter = map.iter_mut();
        let (key, value) = iter.next_back().unwrap();
        assert_eq!((*key, *value), (63, 63));
        *value = 630;
    }
    {
        let mut values = map.values_mut();
        let mut n = 0;
        while let Some(value) = values.next() {
            *value += 1;
            n += 1;
        }
        assert_eq!(n, 64);
    }
    {
        let mut range = map.range_mut(Bound::Included(&10usize), Bound::Included(&12usize));
        while let Some((_, value)) = range.next() {
            *value = 0;
        }
        assert!(range.next_back().is_none());
    }
    {
        let mut range = map.range_mut(Bound::Unbounded, Bound::Excluded(&2usize));
        let (key, value) = range.next_back().unwrap();
        assert_eq!((*key, *value), (1, 2));
        *value = 100;
    }
    let all = pairs(&map);
    assert_eq!(all.len(), 64);
    for (k, v) in all {
        let expected = match k {
            1 => 100,
            10..=12 => 0,
            63 => 631,
            _ => k + 1,
        };
        assert_eq!(v, expected, "at {}", k);
    }
    assert_eq!(map.btree().validate(), Ok(()));
}

#[test]
fn nodes_find_an_item_to_change() {
    let mut leaf: Leaf<Binding<usize, &str>> = Leaf::new();
    leaf.push_right(Binding::new(10, "a"));
    leaf.push_right(Binding::new(20, "b"));
    leaf.push_right(Binding::new(30, "c"));
    assert!(leaf.get_mut(&15).is_none());
    leaf.get_mut(&20).unwrap().value = "q";
    assert_eq!(leaf.get(&20).unwrap().value, "q");
    assert_eq!(leaf.get(&10).unwrap().value, "a");
    assert_eq!(leaf.get(&30).unwrap().value, "c");

    let mut node: Internal<Binding<usize, &str>> = Internal::new(1);
    node.push_right(Binding::new(10, "a"), 2);
    node.push_right(Binding::new(20, "b"), 3);
    assert_eq!(node.get_mut(&5).err(), Some(1));
    assert_eq!(node.get_mut(&15).err(), Some(2));
    assert_eq!(node.get_mut(&25).err(), Some(3));
    node.get_mut(&10).ok().unwrap().value = "z";
    assert_eq!(node.get(&10).ok().unwrap().value, "z");
    assert_eq!(node.get(&20).ok().unwrap().value, "b");
    assert_eq!(node.item(Offset::new(0)).unwrap().value, "z");

    let mut as_leaf = Reference::leaf(leaf);
    assert!(as_leaf.into_get_mut(&11).ok().unwrap().is_none());
    as_leaf.into_get_mut(&30).ok().unwrap().unwrap().value = "r";
    assert_eq!(as_leaf.get(&30).ok().unwrap().unwrap().value, "r");
    let mut as_internal = Reference::internal(node);
    assert_eq!(as_internal.into_get_mut(&11).err(), Some(2));
    as_internal.into_get_mut(&20).ok().unwrap().unwrap().value = "s";
    assert_eq!(as_internal.get(&20).ok().unwrap().unwrap().value, "s");
}

#[test]
fn defaults_are_empty() {
    let map: TreeMap<usize, usize> = Default::default();
    assert!(map.is_empty());
    assert_eq!(map.len(), 0);
    let tree: Storage<usize> = Default::default();
    assert_eq!(tree.root(), None);
    assert_eq!(tree.len(), 0);
    assert_eq!(tree.validate(), Ok(()));
    let leaf: Leaf<usize> = Default::default();
    assert_eq!(leaf.parent(), None);
    assert!(leaf.item(Offset::new(0)).is_none());
    let node: Internal<usize> = Default::default();
    assert_eq!(node.parent(), None);
    assert_eq!(node.child_count(), 1);
    assert_eq!(node.child_id(0), Some(usize::MAX));
    assert!(node.item(Offset::new(0)).is_none());
}

#[test]
fn drain_that_takes_its_predicate() {
    let mut tree: Storage<usize> = Storage::new();
    for k in 0..40 {
        tree.insert(k);
    }
    {
        let mut drain = generic_btree::btree::drain::DrainFilterInner::new(&mut tree);
        assert_eq!(drain.next_consume(|k: &usize| *k % 10 == 3), Some(3));
        assert_eq!(drain.next_consume(|k: &usize| *k % 10 == 3), Some(13));
        assert_eq!(drain.next_consume(|k: &usize| *k > 30), Some(31));
        assert_eq!(drain.next_consume(|k: &usize| *k > 100), None);
        assert_eq!(drain.next_consume(|_: &usize| true), None);
    }
    assert_eq!(tree.len(), 37);
    assert!(tree.get(&3).is_none());
    assert!(tree.get(&13).is_none());
    assert!(tree.get(&31).is_none());
    assert_eq!(tree.get(&23), Some(&23));
    assert_eq!(tree.validate(), Ok(()));
}

#[test]
fn a_binding_lets_go_of_its_value() {
    let counter = std::rc::Rc::new(());
    let binding = Binding::new(1usize, counter.clone());
    assert_eq!(std::rc::Rc::strong_count(&counter), 2);
    binding.forget_value();
    // the destructor of the value did not run
    assert_eq!(std::rc::Rc::strong_count(&counter), 2);
    let binding = Binding::new(2usize, counter.clone());
    drop(binding);
    assert_eq!(std::rc::Rc::strong_count(&counter), 2);
}

#[test]
fn and_modify_changes_what_is_there() {
    let mut map: TreeMap<usize, usize> = TreeMap::new();
    map.entry(1).and_modify(|v| *v += 1).or_insert(42);
    assert_eq!(map.get(&1), Some(&42));
    map.entry(1).and_modify(|v| *v += 1).or_insert(42);
    assert_eq!(map.get(&1), Some(&43));
    match map.entry(2).and_modify(|v| *v = 0) {
        Entry::Vacant(e) => assert_eq!(e.key(), &2),
        Entry::Occupied(_) => panic!("the key is not there"),
    }
    match map.entry(1).and_modify(|v| *v = 0) {
        Entry::Vacant(_) => panic!("the key is there"),
        Entry::Occupied(e) => assert_eq!(e.get(), &0),
    }
    assert_eq!(map.len(), 1);
    assert_eq!(map.btree().validate(), Ok(()));
}
