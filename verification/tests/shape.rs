use generic_btree::slab::Storage;

fn tree_of(n: usize) -> Storage<usize> {
    let mut tree = Storage::new();
    let mut k = 1;
    for _ in 0..n {
        k = (k * 37 + 11) % 10007;
        tree.insert(k);
    }
    tree
}

/// Walks over the nodes under the node `id`, which stands at the given
/// depth, and gives the number of their items and the depths of the leaves.
fn walk(tree: &Storage<usize>, id: usize, depth: usize, leaves: &mut Vec<usize>) -> usize {
    let node = tree.node(id).unwrap();
    let mut items = node.item_count();
    if Some(id) != tree.root() {
        // every node but the root is balanced
        assert!(node.min_capacity() <= node.item_count());
        assert!(node.item_count() <= node.max_capacity() - 1);
    }
    if node.is_internal() {
        assert_eq!(node.child_count(), node.item_count() + 1);
    } else {
        leaves.push(depth);
    }
    for child in node.children().collect() {
        // every child names the node that lists it as its parent
        assert_eq!(tree.node(child).unwrap().parent(), Some(id));
        items += walk(tree, child, depth + 1, leaves);
    }
    items
}

fn check(tree: &Storage<usize>) {
    match tree.root() {
        Some(root) => {
            assert_eq!(tree.node(root).unwrap().parent(), None);
            let mut leaves = vec![];
            let items = walk(tree, root, 0, &mut leaves);
            // the length is the number of items in the nodes
            assert_eq!(items, tree.len());
            // all leaves are at one depth
            assert!(leaves.iter().all(|depth| *depth == leaves[0]));
        }
        None => assert_eq!(tree.len(), 0),
    }
    assert_eq!(tree.validate(), Ok(()));
}

#[test]
fn shape_of_a_growing_and_shrinking_tree() {
    let mut tree: Storage<usize> = Storage::new();
    check(&tree);
    let mut k = 1;
    let mut keys = vec![];
    for _ in 0..700 {
        k = (k * 37 + 11) % 10007;
        if tree.insert(k).is_none() {
            keys.push(k);
        }
        check(&tree);
    }
    for (i, key) in keys.iter().enumerate() {
        if i % 3 != 0 {
            assert_eq!(tree.remove(key), Some(*key));
            check(&tree);
        }
    }
    while tree.pop_last().is_some() {
        check(&tree);
    }
    assert!(tree.is_empty());
}

#[test]
fn lookup_answers_the_same_again() {
    let tree = tree_of(400);
    for key in 0..2000usize {
        let first = tree.get(&key).cloned();
        let _ = tree.first_item();
        let _ = tree.address_of(&key);
        let _ = tree.iter().collect();
        assert_eq!(tree.get(&key).cloned(), first);
    }
}

#[test]
fn a_tree_is_less_high_than_it_is_long() {
    let tree = tree_of(1000);
    let mut height = 0;
    let mut id = tree.root().unwrap();
    while let Some(child) = tree.node(id).unwrap().child_id(0) {
        id = child;
        height += 1;
    }
    assert!(height < tree.len());
    assert!(height >= 2);
}

struct Counted(std::rc::Rc<std::cell::Cell<usize>>);

impl Drop for Counted {
    fn drop(&mut self) {
        self.0.set(self.0.get() + 1)
    }
}

#[test]
fn clear_drops_every_item_once_and_forget_all_none() {
    let drops = std::rc::Rc::new(std::cell::Cell::new(0));
    let mut tree: Storage<generic_btree::map::Binding<usize, Counted>> = Storage::new();
    for k in 0..300 {
        tree.insert(generic_btree::map::Binding::new(k, Counted(drops.clone())));
    }
    assert_eq!(drops.get(), 0);
    tree.clear();
    assert_eq!(drops.get(), 300);
    assert_eq!(tree.len(), 0);
    assert_eq!(tree.root(), None);
    assert!(tree.first_item().is_none());
    assert_eq!(tree.validate(), Ok(()));
    // the tree can be filled again
    for k in 0..100 {
        tree.insert(generic_btree::map::Binding::new(k, Counted(drops.clone())));
    }
    assert_eq!(tree.len(), 100);
    assert_eq!(tree.validate(), Ok(()));
    tree.forget_all();
    assert_eq!(drops.get(), 300);
    assert_eq!(tree.len(), 0);
    assert_eq!(tree.root(), None);
    tree.clear();
    tree.forget_all();
    assert_eq!(tree.validate(), Ok(()));
    assert_eq!(drops.get(), 300);
}

#[test]
fn clear_node_releases_what_stands_under_a_node() {
    let mut tree = tree_of(500);
    let root = tree.root().unwrap();
    let first = tree.node(root).unwrap().child_id(0).unwrap();
    let second = tree.node(root).unwrap().child_id(1).unwrap();
    let mut under_first = vec![first];
    let mut i = 0;
    while i < under_first.len() {
        under_first.extend(tree.node(under_first[i]).unwrap().children().collect());
        i += 1;
    }
    assert!(under_first.len() > 1);
    tree.clear_node(first);
    for id in &under_first {
        assert!(tree.node(*id).is_none());
    }
    assert!(tree.node(root).is_some());
    assert!(tree.node(second).is_some());
    assert_eq!(tree.validate(), Err(generic_btree::ValidationError::MissingNode(first)));
    let leaf = {
        let mut id = second;
        while let Some(child) = tree.node(id).unwrap().child_id(0) {
            id = child;
        }
        id
    };
    tree.forget_node(leaf);
    assert!(tree.node(leaf).is_none());
    assert!(tree.node(second).is_some());
}
