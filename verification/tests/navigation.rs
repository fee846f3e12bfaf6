use generic_btree::btree::node::{Address, Offset};
use generic_btree::btree::UpdateEntry;
use generic_btree::slab::Storage;
use std::cmp::Ordering;

fn tree_of(n: usize) -> Storage<usize> {
    let mut tree = Storage::new();
    for k in 0..n {
        tree.insert(k * 2);
    }
    tree
}

#[test]
fn empty_tree() {
    let tree: Storage<usize> = Storage::new();
    assert_eq!(tree.root(), None);
    assert_eq!(tree.len(), 0);
    assert!(tree.is_empty());
    assert_eq!(tree.first_item_address(), None);
    assert_eq!(tree.last_item_address(), None);
    assert_eq!(tree.first_back_address(), Address::nowhere());
    assert_eq!(tree.last_valid_address(), Address::nowhere());
    assert_eq!(tree.first_item(), None);
    assert_eq!(tree.last_item(), None);
    assert_eq!(tree.address_of(&3usize), Err(Address::nowhere()));
    assert_eq!(tree.normalize(Address::nowhere()), None);
    assert_eq!(tree.leaf_address(Address::nowhere()), Address::nowhere());
    assert_eq!(tree.next_item_address(Address::nowhere()), None);
    assert_eq!(tree.previous_item_address(Address::nowhere()), None);
    assert_eq!(tree.next_back_address(Address::nowhere()), None);
    assert_eq!(tree.previous_front_address(Address::nowhere()), None);
    assert_eq!(tree.next_item_or_back_address(Address::nowhere()), None);
    assert_eq!(tree.validate(), Ok(()));
}

#[test]
fn walk_over_the_items() {
    let tree = tree_of(300);
    let mut addr = tree.first_item_address();
    let mut expected = 0;
    while let Some(a) = addr {
        assert_eq!(tree.item(a), Some(&expected));
        assert_eq!(tree.address_of(&expected), Ok(a));
        assert_eq!(tree.normalize(a), Some(a));
        expected += 2;
        addr = tree.next_item_address(a);
    }
    assert_eq!(expected, 600);
    let mut addr = tree.last_item_address();
    while let Some(a) = addr {
        expected -= 2;
        assert_eq!(tree.item(a), Some(&expected));
        addr = tree.previous_item_address(a);
    }
    assert_eq!(expected, 0);
    assert_eq!(tree.first_item(), Some(&0));
    assert_eq!(tree.last_item(), Some(&598));
}

#[test]
fn addresses_of_missing_keys() {
    let tree = tree_of(300);
    for k in 0..300 {
        let addr = tree.address_of(&(k * 2 + 1)).err().unwrap();
        assert_eq!(tree.leaf_address(addr), addr);
        let next = tree.normalize(addr);
        if k == 299 {
            assert_eq!(next, None);
            assert_eq!(addr, tree.last_valid_address());
        } else {
            assert_eq!(tree.item(next.unwrap()), Some(&(k * 2 + 2)));
        }
        let before = tree.previous_item_address(addr).unwrap();
        assert_eq!(tree.item(before), Some(&(k * 2)));
    }
    assert_eq!(tree.address_of(&1000), Err(tree.last_valid_address()));
}

#[test]
fn back_and_front_addresses() {
    let tree = tree_of(300);
    // forward over every back address: every item is passed once
    let mut addr = Some(tree.first_back_address());
    let mut items = 0;
    let mut steps = 0;
    while let Some(a) = addr {
        if tree.item(a).is_some() {
            items += 1;
        }
        steps += 1;
        assert!(steps < 2000);
        addr = tree.next_back_address(a);
    }
    assert_eq!(items, 300);
    // and backward over every front address
    let last = tree.last_valid_address();
    let mut addr = tree.previous_front_address(last);
    let mut items = 0;
    while let Some(a) = addr {
        if tree.item(a).is_some() {
            items += 1;
        }
        addr = tree.previous_front_address(a);
    }
    assert_eq!(items, 300);
    let first = tree.first_item_address().unwrap();
    assert_eq!(
        tree.previous_front_address(first),
        Some(Address::new(first.id, Offset::before()))
    );
    assert_eq!(
        tree.next_back_address(Address::new(first.id, Offset::before())),
        Some(first)
    );
}

#[test]
fn next_item_or_back_address_stops_at_the_end() {
    let tree = tree_of(300);
    let last = tree.last_item_address().unwrap();
    let end = tree.next_item_or_back_address(last).unwrap();
    assert_eq!(end, tree.last_valid_address());
    assert_eq!(tree.item(end), None);
    assert_eq!(tree.next_item_address(last), None);
    assert_eq!(tree.next_item_or_back_address(end), Some(end));
    let first = tree.first_item_address().unwrap();
    assert_eq!(tree.item(tree.next_item_or_back_address(first).unwrap()), Some(&2));
}

#[test]
fn insert_at_and_remove_at() {
    let mut tree = tree_of(100);
    let addr = tree.address_of(&51).err().unwrap();
    let at = tree.insert_at(addr, 51usize);
    assert_eq!(tree.item(at), Some(&51));
    assert_eq!(tree.len(), 101);
    let (item, next) = tree.remove_at(at).unwrap();
    assert_eq!(item, 51);
    assert_eq!(tree.item(tree.normalize(next).unwrap()), Some(&52));
    assert_eq!(tree.remove_at(Address::nowhere()), None);
    assert_eq!(tree.remove_at(Address::new(usize::MAX - 1, Offset::new(0))), None);
    assert_eq!(tree.len(), 100);
    let (item, _) = tree.take_at(tree.address_of(&40).unwrap());
    assert_eq!(item, 40);
    assert_eq!(tree.take(&42), Some(42));
    assert_eq!(tree.take(&42), None);
    assert_eq!(tree.validate(), Ok(()));
    let at = tree.address_of(&44).unwrap();
    assert_eq!(tree.replace_at(at, 44), 44);
    assert_eq!(tree.len(), 98);
}

#[test]
fn update_of_an_item() {
    let mut tree = tree_of(50);
    let r = tree.update(10usize, |entry| match entry {
        UpdateEntry::Occupied(item) => (None::<usize>, item + 1),
        UpdateEntry::Vacant(_) => (None, 0),
    });
    assert_eq!(r, 11);
    assert_eq!(tree.get(&10), None);
    let r = tree.update(10usize, |entry| match entry {
        UpdateEntry::Occupied(_) => (None, 0),
        UpdateEntry::Vacant(key) => (Some(key), 7),
    });
    assert_eq!(r, 7);
    assert_eq!(tree.get(&10), Some(&10));
    let at = tree.address_of(&12).unwrap();
    assert_eq!(tree.update_at(at, |item| (Some(item + 1), item)), 12);
    assert_eq!(tree.get(&12), None);
    assert_eq!(tree.get(&13), Some(&13));
    let root = tree.root().unwrap();
    let r = tree.update_in(root, 14usize, |entry| match entry {
        UpdateEntry::Occupied(item) => (Some(item), true),
        UpdateEntry::Vacant(_) => (None, false),
    });
    assert!(r);
    assert_eq!(tree.len(), 50);
    assert_eq!(tree.validate(), Ok(()));
    let mut empty: Storage<usize> = Storage::new();
    assert_eq!(empty.update(3usize, |_| (Some(3usize), 1)), 1);
    assert_eq!(empty.get(&3), Some(&3));
}

#[test]
fn trees_compare_by_their_items() {
    let a = tree_of(40);
    let mut b = tree_of(40);
    assert!(a.eq(&b));
    assert_eq!(a.partial_cmp(&b), Some(Ordering::Equal));
    assert_eq!(a.cmp(&b), Ordering::Equal);
    b.insert(1);
    assert!(!a.eq(&b));
    // the first tree goes on with 2 where the second has 1
    assert_eq!(a.cmp(&b), Ordering::Greater);
    assert_eq!(b.cmp(&a), Ordering::Less);
    b.remove(&1);
    b.remove(&78);
    assert!(!a.eq(&b));
    assert_eq!(a.partial_cmp(&b), Some(Ordering::Greater));
    assert_eq!(b.partial_cmp(&a), Some(Ordering::Less));
    let items: Vec<usize> = a.to_vec().into_iter().cloned().collect();
    assert_eq!(items, (0..40).map(|k| k * 2).collect::<Vec<usize>>());
}

#[test]
fn forget_all_leaves_an_empty_tree() {
    let mut tree = tree_of(100);
    tree.forget_all();
    assert!(tree.is_empty());
    assert_eq!(tree.validate(), Ok(()));
    tree.insert(1);
    assert_eq!(tree.len(), 1);
}
