use generic_btree::btree::node::{
    Address, Balance, Buffer, Internal, Leaf, Offset, Reference, Type, WouldUnderflow,
};
use generic_btree::btree::ValidationError;
use generic_btree::slab::{Slab, Storage};
use std::cmp::Ordering;

#[test]
fn offset_before_behaves_as_minus_one() {
    let mut offset = Offset::before();
    assert!(offset.is_before());
    assert_eq!(offset.value(), None);
    offset.incr();
    assert_eq!(offset.value(), Some(0));
    assert_eq!(offset.unwrap(), 0);
    offset.incr();
    assert_eq!(offset.value(), Some(1));
    offset.decr();
    offset.decr();
    assert!(offset.is_before());
    offset.decr();
    assert!(offset.is_before());
}

#[test]
fn offset_order() {
    assert!(Offset::before() < Offset::new(0));
    assert!(Offset::new(0) < Offset::new(1));
    assert_eq!(
        Offset::before().partial_cmp(&Offset::before()),
        Some(Ordering::Equal)
    );
    assert_eq!(
        Offset::new(3).partial_cmp(&Offset::before()),
        Some(Ordering::Greater)
    );
    assert!(Offset::before() < 0usize);
    assert!(Offset::new(2) < 3usize);
    assert!(Offset::new(3) == 3usize);
    assert!(!(Offset::before() == usize::MAX));
    assert!(Offset::new(4) > 3usize);
    assert!(Offset::new(2).is_below(3));
    assert!(!Offset::new(3).is_below(3));
    assert!(Offset::new(3).is_at(3));
    assert!(!Offset::before().is_at(usize::MAX));
}

#[test]
fn offset_arithmetic() {
    assert_eq!(Offset::new(2) + Offset::new(3), Offset::new(5));
    assert_eq!(Offset::before() + Offset::new(3), Offset::new(2));
    assert_eq!(Offset::before() + 1usize, Offset::new(0));
    assert_eq!(Offset::new(2) + 4usize, Offset::new(6));
    assert_eq!(Offset::new(5) - Offset::new(3), Offset::new(2));
    assert_eq!(Offset::new(2) - Offset::new(3), Offset::before());
    assert_eq!(Offset::before() - Offset::before(), Offset::new(0));
    assert_eq!(Offset::new(5) - 5usize, Offset::new(0));
    assert_eq!(Offset::new(5) - 6usize, Offset::before());
    assert_eq!(Offset::new(7) / 2usize, Offset::new(3));
    let offset: Offset = 7usize.into();
    assert_eq!(offset, Offset::new(7));
}

#[test]
fn addresses() {
    let addr = Address::new(3, Offset::new(2));
    assert_eq!(addr.id, 3);
    assert_eq!(addr.offset, Offset::new(2));
    assert!(!addr.is_nowhere());
    assert!(Address::nowhere().is_nowhere());
}

#[test]
fn node_types() {
    assert!(Type::Internal.is_internal());
    assert!(!Type::Internal.is_leaf());
    assert!(Type::Leaf.is_leaf());
    assert!(!Type::Leaf.is_internal());
}

fn leaf_with(items: &[usize]) -> Reference<usize> {
    let mut leaf = Leaf::new();
    for item in items {
        leaf.push_right(*item);
    }
    Reference::leaf(leaf)
}

fn internal_with(first: usize, branches: &[(usize, usize)]) -> Reference<usize> {
    let mut node = Internal::new(first);
    for (item, child) in branches {
        node.push_right(*item, *child);
    }
    Reference::internal(node)
}

#[test]
fn capacities() {
    let leaf = leaf_with(&[]);
    let internal = internal_with(0, &[]);
    assert_eq!(leaf.max_capacity(), 9);
    assert_eq!(leaf.min_capacity(), 2);
    assert_eq!(internal.max_capacity(), 8);
    assert_eq!(internal.min_capacity(), 3);
    assert_eq!(leaf.balance(), Balance::Underflow(true));
    assert_eq!(leaf_with(&[1]).balance(), Balance::Underflow(false));
    assert_eq!(leaf_with(&[1, 2]).balance(), Balance::Balanced);
    assert_eq!(leaf_with(&[1, 2, 3]).balance(), Balance::Balanced);
    assert_eq!(leaf_with(&[1, 2, 3, 4, 5, 6, 7, 8]).balance(), Balance::Balanced);
    assert_eq!(
        leaf_with(&[1, 2, 3, 4, 5, 6, 7, 8, 9]).balance(),
        Balance::Overflow
    );
    assert!(leaf_with(&[1, 2, 3, 4, 5, 6, 7, 8, 9]).is_overflowing());
    assert!(leaf_with(&[1]).is_underflowing());
    assert!(!leaf_with(&[1, 2]).is_underflowing());
    assert!(internal_with(0, &[(10, 1), (20, 2)]).is_underflowing());
    assert!(!internal_with(0, &[(10, 1), (20, 2), (30, 3)]).is_underflowing());
    let eight: Vec<(usize, usize)> = (1..=8).map(|i| (i * 10, i)).collect();
    assert_eq!(internal_with(0, &eight).balance(), Balance::Overflow);
    assert_eq!(internal_with(0, &eight[..7]).balance(), Balance::Balanced);
}

#[test]
fn search_in_a_leaf() {
    let leaf = leaf_with(&[10, 20, 30, 40]);
    assert_eq!(leaf.offset_of(&5), Err((0, None)));
    assert_eq!(leaf.offset_of(&10), Ok(Offset::new(0)));
    assert_eq!(leaf.offset_of(&15), Err((1, None)));
    assert_eq!(leaf.offset_of(&30), Ok(Offset::new(2)));
    assert_eq!(leaf.offset_of(&40), Ok(Offset::new(3)));
    assert_eq!(leaf.offset_of(&45), Err((4, None)));
    assert_eq!(leaf.get(&20), Ok(Some(&20)));
    assert_eq!(leaf.get(&25), Ok(None));
    assert_eq!(leaf_with(&[]).offset_of(&1), Err((0, None)));
}

#[test]
fn search_in_an_internal_node() {
    let node = internal_with(100, &[(10, 101), (20, 102), (30, 103)]);
    assert_eq!(node.offset_of(&5), Err((0, Some(100))));
    assert_eq!(node.offset_of(&10), Ok(Offset::new(0)));
    assert_eq!(node.offset_of(&15), Err((1, Some(101))));
    assert_eq!(node.offset_of(&25), Err((2, Some(102))));
    assert_eq!(node.offset_of(&30), Ok(Offset::new(2)));
    assert_eq!(node.offset_of(&35), Err((3, Some(103))));
    assert_eq!(node.get(&20), Ok(Some(&20)));
    assert_eq!(node.get(&21), Err(102));
    assert_eq!(node.get(&1), Err(100));
}

#[test]
fn children_of_an_internal_node() {
    let mut node = internal_with(100, &[(10, 101), (20, 102)]);
    assert!(node.is_internal());
    assert_eq!(node.ty(), Type::Internal);
    assert_eq!(node.child_count(), 3);
    assert_eq!(node.item_count(), 2);
    assert_eq!(node.children().collect(), vec![100, 101, 102]);
    assert_eq!(node.child_id(0), Some(100));
    assert_eq!(node.child_id(2), Some(102));
    assert_eq!(node.child_id(3), None);
    assert_eq!(node.first_child_id(), Some(100));
    assert_eq!(node.child_index(101), Some(1));
    assert_eq!(node.child_index(7), None);
    assert_eq!(node.separators(0), (None, Some(&10)));
    assert_eq!(node.separators(1), (Some(&10), Some(&20)));
    assert_eq!(node.separators(2), (Some(&20), None));
    assert_eq!(
        node.items().collect(),
        vec![(Some(100), &10, Some(101)), (Some(101), &20, Some(102))]
    );
    node.set_first_child(Some(99));
    assert_eq!(node.children().collect(), vec![99, 101, 102]);
    node.insert(Offset::new(1), 15, Some(150));
    assert_eq!(node.children().collect(), vec![99, 101, 150, 102]);
    assert_eq!(node.borrow_item(Offset::new(1)), Some(&15));
    assert_eq!(node.remove(Offset::new(0)), (10, Some(101)));
    assert_eq!(node.children().collect(), vec![99, 150, 102]);
    assert_eq!(node.replace(Offset::new(0), 16), 15);
    assert_eq!(node.first_item(), Some(&16));
    assert_eq!(node.last_item(), Some(&20));
    let leaf = leaf_with(&[1]);
    assert_eq!(leaf.child_count(), 0);
    assert_eq!(leaf.child_id(0), None);
    assert_eq!(leaf.first_child_id(), None);
    assert_eq!(leaf.children().collect(), Vec::<usize>::new());
    assert_eq!(leaf.separators(0), (None, None));
    assert_eq!(leaf.items().collect(), vec![(None, &1, None)]);
}

#[test]
fn push_and_pop() {
    let mut node = internal_with(100, &[(10, 101), (20, 102), (30, 103), (40, 104)]);
    node.push_left(Some(99), 5);
    assert_eq!(node.children().collect(), vec![99, 100, 101, 102, 103, 104]);
    assert_eq!(node.borrow_first_item(), Some(&5));
    assert_eq!(node.push_right(50, Some(105)), Offset::new(5));
    assert_eq!(node.borrow_last_item(), Some(&50));
    assert_eq!(node.pop_left(), Ok((Some(99), 5)));
    assert_eq!(node.children().collect(), vec![100, 101, 102, 103, 104, 105]);
    assert_eq!(node.pop_right(), Ok((Offset::new(4), 50, Some(105))));
    assert_eq!(node.pop_right(), Ok((Offset::new(3), 40, Some(104))));
    assert_eq!(node.pop_right(), Err(WouldUnderflow));
    assert_eq!(node.pop_left(), Err(WouldUnderflow));
    assert_eq!(node.children().collect(), vec![100, 101, 102, 103]);
    let mut leaf = leaf_with(&[1, 2, 3, 4]);
    leaf.push_left(None, 0);
    assert_eq!(leaf.pop_right(), Ok((Offset::new(4), 4, None)));
    assert_eq!(leaf.pop_left(), Ok((None, 0)));
    assert_eq!(leaf.pop_left(), Ok((None, 1)));
    // a leaf keeps two items
    assert_eq!(leaf.pop_left(), Err(WouldUnderflow));
    assert_eq!(leaf.pop_right(), Err(WouldUnderflow));
    assert_eq!(leaf.leaf_remove(Offset::new(1)), Some(Ok(3)));
    assert_eq!(leaf.leaf_remove(Offset::new(7)), None);
    assert_eq!(leaf.remove_rightmost_leaf(), Ok(2));
    assert_eq!(leaf.item_count(), 0);
    assert_eq!(node.leaf_remove(Offset::new(1)), Some(Err(101)));
    assert_eq!(node.remove_rightmost_leaf(), Err(103));
    assert_eq!(node.item_count(), 3);
}

#[test]
fn split_around_the_median() {
    let mut leaf = leaf_with(&[1, 2, 3, 4, 5, 6, 7, 8, 9]);
    leaf.set_parent(Some(7));
    let (len, median, right) = leaf.split();
    assert_eq!((len, median), (4, 5));
    assert_eq!(leaf.item_count(), 4);
    assert_eq!(leaf.last_item(), Some(&4));
    assert_eq!(right.parent(), Some(7));
    let right = Reference::from_buffer(right);
    assert_eq!(right.items().collect(), vec![(None, &6, None), (None, &7, None), (None, &8, None), (None, &9, None)]);
    let branches: Vec<(usize, usize)> = (1..=8).map(|i| (i * 10, 100 + i)).collect();
    let mut node = internal_with(100, &branches);
    let (len, median, right) = node.split();
    assert_eq!((len, median), (3, 40));
    assert_eq!(node.children().collect(), vec![100, 101, 102, 103]);
    assert_eq!(right.child_count(), 5);
    assert_eq!(right.children().collect(), vec![104, 105, 106, 107, 108]);
    let right = Reference::from_buffer(right);
    assert_eq!(right.first_item(), Some(&50));
    assert_eq!(right.item_count(), 4);
}

#[test]
fn append_takes_the_separator_and_the_other_node() {
    let mut left = internal_with(100, &[(10, 101)]);
    let right = internal_with(102, &[(30, 103), (40, 104)]);
    assert_eq!(left.append(20, right.into_buffer()), Offset::new(1));
    assert_eq!(left.children().collect(), vec![100, 101, 102, 103, 104]);
    assert_eq!(left.item(Offset::new(1)), Some(&20));
    assert_eq!(left.item(Offset::new(3)), Some(&40));
    assert_eq!(left.item(Offset::new(4)), None);
    let mut leaf = leaf_with(&[1, 2]);
    assert_eq!(leaf.append(3, leaf_with(&[4, 5]).into_buffer()), Offset::new(2));
    assert_eq!(leaf.item_count(), 5);
    assert_eq!(leaf.last_item(), Some(&5));
}

#[test]
fn buffers() {
    let leaf: Buffer<usize> = Buffer::leaf(Some(3), 7);
    assert_eq!(leaf.parent(), Some(3));
    assert_eq!(leaf.child_count(), 0);
    assert_eq!(leaf.children().collect(), Vec::<usize>::new());
    let binary: Buffer<usize> = Buffer::binary(None, 1, 7, 2);
    assert_eq!(binary.parent(), None);
    assert_eq!(binary.child_count(), 2);
    assert_eq!(binary.children().collect(), vec![1, 2]);
    leaf.forget();
    binary.forget();
}

#[test]
fn validation_of_a_node() {
    let node = leaf_with(&[10, 20, 30]);
    assert_eq!(node.validate(1, None, None, None), Ok((None, None)));
    assert_eq!(
        node.validate(1, Some(2), None, None),
        Err(ValidationError::WrongParent(1, None, Some(2)))
    );
    assert_eq!(node.validate(1, None, Some(&5), Some(&35)), Ok((Some(&5), Some(&35))));
    assert_eq!(
        node.validate(1, None, Some(&10), None),
        Err(ValidationError::UnsortedFromLeft(1))
    );
    assert_eq!(
        node.validate(1, None, None, Some(&30)),
        Err(ValidationError::UnsortedFromRight(1))
    );
    assert_eq!(
        leaf_with(&[10, 30, 20]).validate(4, None, None, None),
        Err(ValidationError::UnsortedNode(4))
    );
    assert_eq!(
        leaf_with(&[10]).validate(5, None, Some(&1), None),
        Err(ValidationError::Underflow(5))
    );
    assert_eq!(leaf_with(&[10, 20]).validate(5, None, Some(&1), None), Ok((Some(&1), None)));
    assert_eq!(
        internal_with(0, &[(10, 1), (20, 2)]).validate(5, None, Some(&1), None),
        Err(ValidationError::Underflow(5))
    );
    assert_eq!(leaf_with(&[10, 20]).validate(5, None, None, None), Ok((None, None)));
    assert_eq!(
        leaf_with(&[1, 2, 3, 4, 5, 6, 7, 8, 9]).validate(6, None, None, Some(&10)),
        Err(ValidationError::Overflow(6))
    );
}

#[test]
fn validation_of_a_broken_tree() {
    let mut tree: Storage<usize> = Storage::new();
    for k in 0..200 {
        tree.insert(k);
    }
    assert_eq!(tree.validate(), Ok(()));
    let root = tree.root().unwrap();
    tree.root = Some(12345);
    assert_eq!(tree.validate(), Err(ValidationError::MissingNode(12345)));
    tree.root = Some(root);
    assert_eq!(tree.validate(), Ok(()));
    // a leaf in the place of the first child of the root
    let leaf = tree.first_item_address().unwrap().id;
    let first_child = tree.node(root).unwrap().child_id(0).unwrap();
    assert!(first_child != leaf);
    tree.node_mut(root).set_first_child(Some(leaf));
    tree.node_mut(leaf).set_parent(Some(root));
    assert_eq!(tree.validate(), Err(ValidationError::NotBalanced));
}

#[test]
fn arena_keeps_identifiers() {
    let mut slab: Slab<&str> = Slab::new();
    let a = slab.insert("a");
    let b = slab.insert("b");
    assert!(a != b);
    assert_eq!(slab.get(a), Some(&"a"));
    assert_eq!(slab.remove(a), "a");
    assert_eq!(slab.get(a), None);
    assert_eq!(slab.get(b), Some(&"b"));
    let c = slab.insert("c");
    assert_eq!(c, a);
    *slab.get_mut(b) = "q";
    assert_eq!(slab.get(b), Some(&"q"));
    assert_eq!(slab.get(99), None);
}

#[test]
fn iterators_over_a_node() {
    let node = internal_with(100, &[(10, 101), (20, 102)]);
    let mut children = node.children();
    assert_eq!(children.next(), Some(100));
    assert_eq!(children.next(), Some(101));
    assert_eq!(children.collect(), vec![102]);
    let mut items = node.items();
    assert_eq!(items.next(), Some((Some(100), &10, Some(101))));
    assert_eq!(items.next(), Some((Some(101), &20, Some(102))));
    assert_eq!(items.next(), None);
    assert_eq!(items.next(), None);
    let leaf = leaf_with(&[1, 2, 3]);
    let mut children = leaf.children();
    assert_eq!(children.next(), None);
    let mut items = leaf.items();
    assert_eq!(items.next(), Some((None, &1, None)));
    assert_eq!(items.collect(), vec![(None, &2, None), (None, &3, None)]);
}
