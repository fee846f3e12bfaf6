//! Leaf nodes.
use vstd::prelude::*;
use super::item::{changed_at, changed_one, ranks_sorted, ItemAccess};
use super::{Offset, M};
use crate::btree::KeyPartialOrd;
use crate::util::{binary_search_min, forget};

verus! {

/// Leaf node: items only.
///
/// The items stand in a `Vec`, of which the verifier knows what every
/// operation does to items of any type: a vector that keeps a few items in
/// place could be had for a fixed item type only, as it is for the children
/// of an internal node.
pub struct Leaf<T> {
    /// Identifier of the parent node, if any.
    pub parent: Option<usize>,
    /// The items, from left to right.
    pub items: Vec<T>,
}

/// Where a probe of rank `k` stands among the sorted `items` of a leaf:
/// `Ok` with the offset of the item of that rank, or `Err` with the offset
/// at which an item of that rank would be inserted.
pub open spec fn leaf_offset_of<T: crate::btree::KeyOrd>(
    items: Seq<T>,
    k: int,
    r: Result<Offset, Offset>,
) -> bool {
    match r {
        Ok(offset) => {
            &&& 0 <= offset.as_int() < items.len()
            &&& items[offset.as_int()].key_rank() == k
        },
        Err(offset) => {
            &&& 0 <= offset.as_int() <= items.len()
            &&& forall|i: int| 0 <= i < offset.as_int() ==> (#[trigger] items[i]).key_rank() < k
            &&& forall|i: int|
                offset.as_int() <= i < items.len() ==> (#[trigger] items[i]).key_rank() > k
        },
    }
}

impl<T> ItemAccess<T> for Leaf<T> {
    open spec fn item_seq(&self) -> Seq<T> {
        self.items@
    }

    fn item_count(&self) -> (n: usize) {
        self.items.len()
    }

    fn borrow_item(&self, offset: Offset) -> (r: Option<&T>) {
        if offset.is_below(self.items.len()) && !offset.is_before() {
            Some(&self.items[offset.unwrap()])
        } else {
            None
        }
    }
}

impl<T> Default for Leaf<T> {
    /// An empty leaf without a parent.
    fn default() -> (r: Self)
        ensures
            r.parent.is_none(),
            r.items@ == Seq::<T>::empty(),
    {
        Leaf::new()
    }
}

impl<T> Leaf<T> {
    /// An empty leaf without a parent.
    pub fn new() -> (r: Self)
        ensures
            r.parent.is_none(),
            r.items@ == Seq::<T>::empty(),
    {
        Leaf { parent: None, items: Vec::new() }
    }

    /// Returns the identifer of the parent node, if any.
    pub fn parent(&self) -> (r: Option<usize>)
        ensures
            r == self.parent,
    {
        self.parent
    }

    pub fn set_parent(&mut self, parent: Option<usize>)
        ensures
            final(self).parent == parent,
            final(self).items == old(self).items,
    {
        self.parent = parent;
    }

    /// The item at the given offset, if there is one.
    pub fn item(&self, offset: Offset) -> (r: Option<&T>)
        ensures
            r == (if 0 <= offset.as_int() < self.items@.len() {
                Some(&self.items@[offset.as_int()])
            } else {
                None
            }),
    {
        self.borrow_item(offset)
    }

    /// Returns the maximum capacity of this node: it overflows when it
    /// holds that many items.
    pub fn max_capacity(&self) -> (r: usize)
        ensures
            r == M + 1,
    {
        M + 1
    }

    /// Returns the minimum capacity of this node: it underflows when it
    /// holds fewer items.
    pub fn min_capacity(&self) -> (r: usize)
        ensures
            r == (M - 1) / 2 - 1,
    {
        (M - 1) / 2 - 1
    }

    pub fn is_overflowing(&self) -> (r: bool)
        ensures
            r == (self.items@.len() >= M + 1),
    {
        self.items.len() >= self.max_capacity()
    }

    pub fn is_underflowing(&self) -> (r: bool)
        ensures
            r == (self.items@.len() < (M - 1) / 2 - 1),
    {
        self.items.len() < self.min_capacity()
    }

    /// Find the offset of the item matching the given key.
    pub fn offset_of<Q>(&self, key: &Q) -> (r: Result<Offset, Offset>) where T: KeyPartialOrd<Q>
        requires
            ranks_sorted(self.items@),
            self.items@.len() < usize::MAX,
        ensures
            leaf_offset_of(self.items@, T::probe_rank(key), r),
    {
        match binary_search_min(self, key) {
            Some((i, eq)) => {
                if eq {
                    Ok(i)
                } else {
                    Err(Offset::new(i.unwrap() + 1))
                }
            },
            None => Err(Offset::new(0)),
        }
    }

    /// The item matching the given key, if any.
    pub fn get<Q>(&self, key: &Q) -> (r: Option<&T>) where T: KeyPartialOrd<Q>
        requires
            ranks_sorted(self.items@),
        ensures
            match r {
                Some(item) => self.items@.contains(*item) && item.key_rank() == T::probe_rank(key),
                None => forall|i: int|
                    0 <= i < self.items@.len() ==> (#[trigger] self.items@[i]).key_rank()
                        != T::probe_rank(key),
            },
    {
        match binary_search_min(self, key) {
            Some((i, eq)) => {
                if eq {
                    self.borrow_item(i)
                } else {
                    None
                }
            },
            None => None,
        }
    }

    /// The item matching the given key, if any, to be changed in place.
    pub fn get_mut<Q>(&mut self, key: &Q) -> (r: Option<&mut T>) where T: KeyPartialOrd<Q>
        requires
            ranks_sorted(old(self).items@),
        ensures
            final(self).parent == old(self).parent,
            r matches Some(item) ==> item.key_rank() == T::probe_rank(key),
            r matches Some(item) ==> changed_one(
                old(self).items@,
                final(self).items@,
                *item,
                *final(item),
            ),
            r is None ==> final(self).items@ == old(self).items@,
            r is None ==> forall|i: int|
                0 <= i < old(self).items@.len() ==> (#[trigger] old(self).items@[i]).key_rank()
                    != T::probe_rank(key),
    {
        match binary_search_min(&*self, key) {
            Some((i, eq)) => {
                if eq {
                    proof {
                        let before = self.items@;
                        let was = before[i.as_int()];
                        assert forall|after: Seq<T>, item: T|
                            after == before.update(i.as_int(), item) implies #[trigger] changed_one(
                            before,
                            after,
                            was,
                            item,
                        ) by {
                            assert(changed_at(before, after, i.as_int(), was, item));
                        }
                    }
                    Some(self.item_mut(i))
                } else {
                    None
                }
            },
            None => None,
        }
    }

    /// Inserts the item at the given offset.
    pub fn insert(&mut self, offset: Offset, item: T)
        requires
            0 <= offset.as_int() <= old(self).items@.len(),
        ensures
            final(self).items@ == old(self).items@.insert(offset.as_int(), item),
            final(self).parent == old(self).parent,
    {
        self.items.insert(offset.unwrap(), item);
    }

    /// Removes the item at the given offset.
    pub fn remove(&mut self, offset: Offset) -> (item: T)
        requires
            0 <= offset.as_int() < old(self).items@.len(),
        ensures
            item == old(self).items@[offset.as_int()],
            final(self).items@ == old(self).items@.remove(offset.as_int()),
            final(self).parent == old(self).parent,
    {
        self.items.remove(offset.unwrap())
    }

    /// Removes the last item.
    pub fn remove_last(&mut self) -> (item: T)
        requires
            old(self).items@.len() > 0,
        ensures
            item == old(self).items@.last(),
            final(self).items@ == old(self).items@.drop_last(),
            final(self).parent == old(self).parent,
    {
        let offset = Offset::new(self.items.len() - 1);
        let item = self.remove(offset);
        assert(self.items@ =~= old(self).items@.drop_last());
        item
    }

    /// Puts the item at the given offset and returns the one that was there.
    pub fn replace(&mut self, offset: Offset, item: T) -> (previous: T)
        requires
            0 <= offset.as_int() < old(self).items@.len(),
        ensures
            previous == old(self).items@[offset.as_int()],
            final(self).items@ == old(self).items@.update(offset.as_int(), item),
            final(self).parent == old(self).parent,
    {
        let mut item = item;
        core::mem::swap(&mut self.items[offset.unwrap()], &mut item);
        item
    }

    /// Returns a mutable reference to the item with the given offset in the node.
    pub fn item_mut(&mut self, offset: Offset) -> (r: &mut T)
        requires
            0 <= offset.as_int() < old(self).items@.len(),
        ensures
            *r == old(self).items@[offset.as_int()],
            final(self).items@ == old(self).items@.update(offset.as_int(), *final(r)),
            final(self).parent == old(self).parent,
    {
        &mut self.items[offset.unwrap()]
    }

    /// Appends the item to the right of the others.
    pub fn push_right(&mut self, item: T)
        ensures
            final(self).items@ == old(self).items@.push(item),
            final(self).parent == old(self).parent,
    {
        self.items.push(item)
    }

    /// Appends `separator` and the items of `other` to this node.
    ///
    /// Returns the offset of the separator.
    pub fn append(&mut self, separator: T, other: Leaf<T>) -> (offset: Offset)
        ensures
            offset.as_int() == old(self).items@.len(),
            final(self).items@ == old(self).items@.push(separator) + other.items@,
            final(self).parent == old(self).parent,
    {
        let mut other = other;
        self.items.push(separator);
        let offset = Offset::new(self.items.len() - 1);
        self.items.append(&mut other.items);
        offset
    }

    /// Splits the node around its median item.
    ///
    /// The items on the left of the median stay; those on its right move to
    /// a new leaf with the same parent. Returns the number of items that
    /// stay, the median and the new leaf.
    pub fn split(&mut self) -> (r: (usize, T, Leaf<T>))
        requires
            old(self).items@.len() >= M + 1,
        ensures
            r.0 == (old(self).items@.len() - 1) / 2,
            final(self).items@ == old(self).items@.subrange(0, r.0 as int),
            r.1 == old(self).items@[r.0 as int],
            r.2.items@ == old(self).items@.subrange(r.0 + 1, old(self).items@.len() as int),
            r.2.parent == old(self).parent,
            final(self).parent == old(self).parent,
    {
        let median_i = (self.items.len() - 1) / 2;
        let right_items = self.items.split_off(median_i + 1);
        let median = self.items.remove(median_i);
        assert(self.items@ =~= old(self).items@.subrange(0, median_i as int));
        (median_i, median, Leaf { parent: self.parent, items: right_items })
    }

    /// Drops this leaf node without dropping the items: each item is let
    /// go without its destructor, and the room of the node is given back.
    ///
    /// Used without care, this may lead to memory leaks.
    pub fn forget(self) {
        let mut items = self.items;
        loop
            decreases items@.len(),
        {
            match items.pop() {
                Some(item) => forget(item),
                None => {
                    return ;
                },
            }
        }
    }
}

/// Iterator over the items of a leaf, from left to right.
pub struct Items<'a, T> {
    /// The leaf.
    pub node: &'a Leaf<T>,
    /// The offset of the next item.
    pub offset: usize,
}

impl<'a, T> Items<'a, T> {
    /// The items that are left, from left to right.
    pub open spec fn remaining(&self) -> Seq<T> {
        if self.offset <= self.node.items@.len() {
            self.node.items@.skip(self.offset as int)
        } else {
            Seq::empty()
        }
    }

    /// The next item, if any.
    pub fn next(&mut self) -> (r: Option<&'a T>)
        ensures
            final(self).node == old(self).node,
            match r {
                Some(item) => {
                    &&& old(self).remaining().len() > 0
                    &&& *item == old(self).remaining()[0]
                    &&& final(self).remaining() == old(self).remaining().skip(1)
                    &&& old(self).offset < old(self).node.items@.len()
                    &&& *item == old(self).node.items@[old(self).offset as int]
                    &&& final(self).offset == old(self).offset + 1
                },
                None => old(self).remaining().len() == 0 && *final(self) == *old(self),
            },
    {
        if self.offset < self.node.items.len() {
            let offset = self.offset;
            self.offset = offset + 1;
            proof {
                assert(self.remaining() =~= old(self).remaining().skip(1));
            }
            Some(&self.node.items[offset])
        } else {
            None
        }
    }
}

impl<T> Leaf<T> {
    /// Returns an iterator over the items of the leaf, from left to right.
    pub fn items(&self) -> (r: Items<'_, T>)
        ensures
            r.node == self,
            r.offset == 0,
            r.remaining() == self.items@,
    {
        let r = Items { node: self, offset: 0 };
        proof {
            assert(r.remaining() =~= self.items@);
        }
        r
    }
}

} // verus!
