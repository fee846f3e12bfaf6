use generic_btree::btree::node::Offset;
use generic_btree::map::Binding;
use generic_btree::slab::Storage;
use generic_btree::{Address, TreeMap};

#[test]
fn insert_then_get() {
    let mut tree: Storage<usize> = Storage::new();
    for k in [4223usize, 8175, 1411, 9208, 1246] {
        assert_eq!(tree.insert(k), None);
    }
    assert_eq!(tree.len(), 5);
    assert_eq!(tree.get(&1411usize), Some(&1411));
    assert_eq!(tree.get(&1usize), None);
    assert_eq!(tree.insert(1411), Some(1411));
    assert_eq!(tree.len(), 5);
    assert!(tree.validate().is_ok());
}

#[test]
fn insert_and_remove_many() {
    let mut tree: Storage<usize> = Storage::new();
    let mut k: usize = 7;
    let mut keys = vec![];
    for _ in 0..2000 {
        k = (k * 7919 + 13) % 10007;
        if tree.insert(k).is_none() {
            keys.push(k);
        }
        assert!(tree.validate().is_ok());
    }
    assert_eq!(tree.len(), keys.len());
    for k in &keys {
        assert_eq!(tree.get(k), Some(k));
    }
    for (i, k) in keys.iter().enumerate() {
        assert_eq!(tree.remove(k), Some(*k));
        assert_eq!(tree.get(k), None);
        assert!(tree.validate().is_ok());
        assert_eq!(tree.len(), keys.len() - i - 1);
    }
    assert!(tree.is_empty());
}

#[test]
fn rebalance_splits_an_overflowing_root_leaf() {
    let mut map: TreeMap<usize, usize> = TreeMap::new();
    for i in 1..=8 {
        map.insert(10 * i, i);
    }
    let tree = map.btree_mut();
    let r = tree.root().unwrap();
    assert!(tree.node(r).unwrap().children().collect().is_empty());
    tree.node_mut(r).insert(Offset::new(8), Binding::new(90, 9), None);
    let a = tree.rebalance(r, Address::new(r, Offset::new(8)));
    // the length is left as it was
    assert_eq!(tree.len(), 8);
    tree.incr_len();
    assert!(a.id != r);
    assert_eq!(a.offset, Offset::new(3));
    assert_eq!(tree.item(a).map(|b| (b.key, b.value)), Some((90, 9)));
    let root = tree.root().unwrap();
    assert!(root != r && root != a.id);
    let top = tree.node(root).unwrap();
    assert_eq!(top.parent(), None);
    assert_eq!(top.item_count(), 1);
    assert_eq!(top.item(Offset::new(0)).map(|b| b.key), Some(50));
    assert_eq!(top.children().collect(), vec![r, a.id]);
    let keys = |id: usize| -> Vec<usize> {
        tree.node(id).unwrap().items().collect().into_iter().map(|(_, b, _)| b.key).collect()
    };
    assert_eq!(keys(r), vec![10, 20, 30, 40]);
    assert_eq!(keys(a.id), vec![60, 70, 80, 90]);
    assert_eq!(tree.node(r).unwrap().parent(), Some(root));
    assert_eq!(tree.node(a.id).unwrap().parent(), Some(root));
    assert_eq!(tree.validate(), Ok(()));
    assert_eq!(tree.len(), 9);
}

#[test]
fn a_leaf_of_two_items_is_in_balance() {
    let mut tree: Storage<usize> = Storage::new();
    for k in 0..9 {
        tree.insert(k);
    }
    // the root has split: two leaves of four items under it
    let root = tree.root().unwrap();
    let leaves = tree.node(root).unwrap().children().collect();
    assert_eq!(leaves.len(), 2);
    // the first leaf goes down to two items without a change of the tree
    assert_eq!(tree.remove(&0), Some(0));
    assert_eq!(tree.remove(&1), Some(1));
    assert_eq!(tree.node(leaves[0]).unwrap().item_count(), 2);
    assert_eq!(tree.node(leaves[1]).unwrap().item_count(), 4);
    assert_eq!(tree.node(root).unwrap().children().collect(), leaves);
    assert_eq!(tree.validate(), Ok(()));
    // with one item less it takes one from its sibling
    assert_eq!(tree.remove(&2), Some(2));
    assert_eq!(tree.node(leaves[0]).unwrap().item_count(), 2);
    assert_eq!(tree.node(leaves[1]).unwrap().item_count(), 3);
    assert_eq!(tree.validate(), Ok(()));
}

#[test]
fn a_walk_inserts_between_two_items() {
    let mut map: TreeMap<char, i32> = TreeMap::new();
    map.insert('a', 1);
    map.insert('b', 2);
    map.insert('d', 4);
    {
        let mut walk = map.entries_mut();
        assert_eq!(walk.peek().map(|b| b.key), Some('a'));
        assert_eq!(walk.next_item().map(|b| b.key), Some('a'));
        assert_eq!(walk.next_item().map(|b| b.key), Some('b'));
        walk.insert(Binding::new('c', 3));
        // the walk goes on from the item that was next
        assert_eq!(walk.peek().map(|b| b.key), Some('d'));
        assert_eq!(walk.next_item().map(|b| b.key), Some('d'));
        assert!(walk.peek().is_none());
        assert!(walk.next_item().is_none());
    }
    let mut pairs = vec![];
    let mut iter = map.into_iter();
    while let Some(pair) = iter.next() {
        pairs.push(pair);
    }
    assert_eq!(pairs, vec![('a', 1), ('b', 2), ('c', 3), ('d', 4)]);
}

#[test]
fn a_map_that_is_full_still_takes_a_value_for_a_key_it_has() {
    let mut map: TreeMap<usize, &str> = TreeMap::new();
    assert_eq!(map.insert(1, "a"), None);
    assert_eq!(map.insert(1, "b"), Some("a"));
    assert_eq!(map.replace(1, "c"), Some((1, "b")));
    assert_eq!(map.len(), 1);
    assert!(!map.is_empty());
}
