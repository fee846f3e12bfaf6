use generic_btree::btree::iter::Bound;
use generic_btree::btree::node::Reference;
use generic_btree::map::Binding;
use generic_btree::slab::{Arena, Slab, Storage};
use generic_btree::TreeMap;

/// The nodes of a tree in a slab of the `slab` crate.
struct Outside<N>(slab::Slab<N>);

impl<N> Arena<N> for Outside<N> {
    fn wf(&self) -> bool {
        true
    }

    fn has(&self, id: usize) -> bool {
        self.0.contains(id)
    }

    fn at(&self, id: usize) -> N {
        panic!("the value under {} stays in the slab", id)
    }

    fn new() -> Self {
        Outside(slab::Slab::new())
    }

    fn get(&self, id: usize) -> Option<&N> {
        self.0.get(id)
    }

    fn get_mut(&mut self, id: usize) -> &mut N {
        self.0.get_mut(id).expect("no value under the identifier")
    }

    fn insert(&mut self, value: N) -> usize {
        self.0.insert(value)
    }

    fn remove(&mut self, id: usize) -> N {
        self.0.remove(id)
    }
}

type OutsideTree = Storage<usize, Outside<Reference<usize>>>;

type OutsideMap = TreeMap<usize, usize, Outside<Reference<Binding<usize, usize>>>>;

fn key(i: usize) -> usize {
    (i * 7919) % 1009
}

#[test]
fn a_tree_over_an_outside_slab() {
    let mut tree: OutsideTree = Storage::new();
    for i in 0..1009 {
        assert_eq!(tree.insert(key(i)), None);
        assert_eq!(tree.validate(), Ok(()));
    }
    assert_eq!(tree.len(), 1009);
    assert!(tree.nodes.0.len() > 100);
    assert_eq!(tree.insert(5), Some(5));
    let items: Vec<usize> = tree.to_vec().into_iter().cloned().collect();
    assert_eq!(items, (0..1009).collect::<Vec<usize>>());
    for i in 0..1009 {
        if i % 3 != 0 {
            assert_eq!(tree.remove(&key(i)), Some(key(i)));
            assert_eq!(tree.validate(), Ok(()));
        }
    }
    assert_eq!(tree.len(), 337);
    for i in 0..1009 {
        assert_eq!(tree.get(&key(i)).is_some(), i % 3 == 0);
    }
    tree.clear();
    assert_eq!(tree.len(), 0);
    // every node is released
    assert_eq!(tree.nodes.0.len(), 0);
    assert_eq!(tree.validate(), Ok(()));
}

#[test]
fn a_map_over_an_outside_slab() {
    let mut map: OutsideMap = TreeMap::new();
    for i in 0..500 {
        assert_eq!(map.insert(key(i), i), None);
    }
    assert_eq!(map.insert(key(7), 70), Some(7));
    assert_eq!(map.get(&key(7)), Some(&70));
    *map.get_mut(&key(8)).unwrap() += 1;
    assert_eq!(map.get(&key(8)), Some(&9));
    *map.entry(key(9)).or_insert(0) += 10;
    assert_eq!(map.get(&key(9)), Some(&19));
    assert_eq!(map.len(), 500);
    {
        let mut range = map.range(Bound::Included(&100usize), Bound::Excluded(&200usize));
        let mut last = None;
        while let Some((k, _)) = range.next() {
            assert!((100..200).contains(k));
            assert!(last < Some(*k));
            last = Some(*k);
        }
    }
    {
        let mut values = map.values_mut();
        while let Some(value) = values.next() {
            *value = 1;
        }
    }
    let mut drained = 0;
    {
        let mut drain = map.drain_filter(|k: &usize, _: &usize| k % 2 == 0);
        while let Some((k, v)) = drain.next() {
            assert_eq!(k % 2, 0);
            assert_eq!(v, 1);
            drained += 1;
        }
    }
    assert_eq!(map.len() + drained, 500);
    assert_eq!(map.btree().validate(), Ok(()));
    // the order of two maps does not depend on where their nodes are
    let mut other: TreeMap<usize, usize> = TreeMap::new();
    {
        let mut iter = map.iter();
        while let Some((k, v)) = iter.next() {
            other.insert(*k, *v);
        }
    }
    assert!(map.eq(&other));
    assert!(other.eq(&map));
    assert_eq!(map.partial_cmp(&other), Some(std::cmp::Ordering::Equal));
    other.pop_last();
    assert!(!map.eq(&other));
    assert_eq!(map.partial_cmp(&other), Some(std::cmp::Ordering::Greater));
}

#[test]
fn the_arena_of_the_library_as_an_arena() {
    let mut slab: Slab<&str> = Arena::new();
    let a = Arena::insert(&mut slab, "a");
    let b = Arena::insert(&mut slab, "b");
    assert!(a != b);
    assert_eq!(Arena::get(&slab, a), Some(&"a"));
    *Arena::get_mut(&mut slab, b) = "c";
    assert_eq!(Arena::remove(&mut slab, b), "c");
    assert_eq!(Arena::get(&slab, b), None);
    assert_eq!(Arena::get(&slab, a), Some(&"a"));
    // the identifier of a value that left is given again
    assert_eq!(Arena::insert(&mut slab, "d"), b);
}
