//! Internal nodes.
use vstd::prelude::*;
use super::item::{changed_at, changed_one, ranks_sorted, ItemAccess};
use super::kids::{child_ids, ChildIds};
use super::{Offset, M};
use crate::btree::KeyPartialOrd;
use crate::util::{binary_search_min, forget};

verus! {

/// Internal node: items with a child between any two of them, one before
/// the first and one after the last.
///
/// The items stand in a `Vec`, as those of a leaf; the identifiers of the
/// children, which are of one type whatever the items are, in a vector that
/// keeps them in place.
pub struct Internal<T> {
    /// Identifier of the parent node, if any.
    pub parent: Option<usize>,
    /// The items, from left to right.
    pub items: Vec<T>,
    /// The children, from left to right: one more than there are items.
    pub children: ChildIds,
}

/// Where a probe of rank `k` stands among the sorted `items` of an internal
/// node with the given children: `Ok` with the offset of the item of that
/// rank, or `Err` with the index and identifier of the child under which an
/// item of that rank belongs.
pub open spec fn internal_offset_of<T: crate::btree::KeyOrd>(
    items: Seq<T>,
    children: Seq<usize>,
    k: int,
    r: Result<Offset, (usize, usize)>,
) -> bool {
    match r {
        Ok(offset) => {
            &&& 0 <= offset.as_int() < items.len()
            &&& items[offset.as_int()].key_rank() == k
        },
        Err((index, id)) => descends_to(items, children, k, index as int, id),
    }
}

/// A probe of rank `k`, which no item of the internal node has, belongs
/// under its child of the given index and identifier: the items on the left
/// of that child have a smaller rank, the others a greater one.
pub open spec fn descends_to<T: crate::btree::KeyOrd>(
    items: Seq<T>,
    children: Seq<usize>,
    k: int,
    index: int,
    id: usize,
) -> bool {
    &&& 0 <= index <= items.len()
    &&& id == children[index]
    &&& forall|i: int| 0 <= i < index ==> (#[trigger] items[i]).key_rank() < k
    &&& forall|i: int| index <= i < items.len() ==> (#[trigger] items[i]).key_rank() > k
}

impl<T> ItemAccess<T> for Internal<T> {
    open spec fn item_seq(&self) -> Seq<T> {
        self.items@
    }

    fn item_count(&self) -> (n: usize) {
        self.items.len()
    }

    fn borrow_item(&self, offset: Offset) -> (r: Option<&T>) {
        if offset.is_below(self.items.len()) && !offset.is_before() {
            Some(&self.items[offset.unwrap()])
        } else {
            None
        }
    }
}

impl<T> Default for Internal<T> {
    /// An internal node without a parent and without an item, whose one
    /// child is yet to be set.
    fn default() -> (r: Self)
        ensures
            r.parent.is_none(),
            r.item_seq() == Seq::<T>::empty(),
            r.child_seq() == seq![usize::MAX],
            r.shaped(),
    {
        Internal::new(usize::MAX)
    }
}

impl<T> Internal<T> {
    /// The children of the node, from left to right.
    pub open spec fn child_seq(&self) -> Seq<usize> {
        child_ids(self.children)
    }

    /// The node has one child more than it has items.
    pub open spec fn shaped(&self) -> bool {
        self.child_seq().len() == self.item_seq().len() + 1
    }

    /// An internal node without a parent, with the given child and no item.
    pub fn new(first_child_id: usize) -> (r: Self)
        ensures
            r.parent.is_none(),
            r.item_seq() == Seq::<T>::empty(),
            r.child_seq() == seq![first_child_id],
            r.shaped(),
    {
        let mut children = ChildIds::new();
        children.push(first_child_id);
        let r = Internal { parent: None, items: Vec::new(), children };
        assert(r.child_seq() =~= seq![first_child_id]);
        r
    }

    /// Returns the identifer of the parent node, if any.
    pub fn parent(&self) -> (r: Option<usize>)
        ensures
            r == self.parent,
    {
        self.parent
    }

    pub fn set_parent(&mut self, parent: Option<usize>)
        ensures
            final(self).parent == parent,
            final(self).items == old(self).items,
            final(self).children == old(self).children,
    {
        self.parent = parent;
    }

    /// The item at the given offset, if there is one.
    pub fn item(&self, offset: Offset) -> (r: Option<&T>)
        ensures
            r == (if 0 <= offset.as_int() < self.item_seq().len() {
                Some(&self.item_seq()[offset.as_int()])
            } else {
                None
            }),
    {
        self.borrow_item(offset)
    }

    /// Number of children: one more than there are items.
    pub fn child_count(&self) -> (r: usize)
        ensures
            r == self.child_seq().len(),
    {
        self.children.len()
    }

    /// Returns the id of the child with the given index, if any.
    pub fn child_id(&self, index: usize) -> (r: Option<usize>)
        ensures
            r == (if index < self.child_seq().len() {
                Some(self.child_seq()[index as int])
            } else {
                None
            }),
    {
        if index < self.children.len() {
            Some(self.children.get(index))
        } else {
            None
        }
    }

    pub fn first_child_id(&self) -> (r: usize)
        requires
            self.child_seq().len() > 0,
        ensures
            r == self.child_seq()[0],
    {
        self.children.get(0)
    }

    pub fn set_first_child_id(&mut self, id: usize)
        requires
            old(self).child_seq().len() > 0,
        ensures
            final(self).child_seq() == old(self).child_seq().update(0, id),
            final(self).item_seq() == old(self).item_seq(),
            final(self).parent == old(self).parent,
    {
        self.children.set(0, id);
    }

    /// Returns the index of the first child with the given id, if any.
    pub fn child_index(&self, id: usize) -> (r: Option<usize>)
        ensures
            match r {
                Some(index) => {
                    &&& index < self.child_seq().len()
                    &&& self.child_seq()[index as int] == id
                    &&& forall|i: int| 0 <= i < index ==> self.child_seq()[i] != id
                },
                None => !self.child_seq().contains(id),
            },
    {
        let child_count = self.children.len();
        let mut i: usize = 0;
        while i < child_count
            invariant
                i <= child_count,
                child_count == self.child_seq().len(),
                forall|j: int| 0 <= j < i ==> self.child_seq()[j] != id,
            decreases child_count - i,
        {
            if self.children.get(i) == id {
                return Some(i);
            }
            i += 1;
        }
        None
    }

    /// Returns an iterator over the children of the node, from left to
    /// right.
    pub fn children(&self) -> (r: Children<'_, T>)
        ensures
            r.node == self,
            r.index == 0,
            r.remaining() == self.child_seq(),
    {
        let r = Children { node: self, index: 0 };
        proof {
            assert(r.remaining() =~= self.child_seq());
        }
        r
    }

    /// Returns an iterator over the items of the node, from left to
    /// right, each with the children on its two sides.
    pub fn items(&self) -> (r: Items<'_, T>)
        ensures
            r.node == self,
            r.offset == 0,
    {
        Items { node: self, offset: 0 }
    }

    /// Returns the maximum capacity of this node: it overflows when it
    /// holds that many items.
    pub fn max_capacity(&self) -> (r: usize)
        ensures
            r == M,
    {
        M
    }

    /// Returns the minimum capacity of this node: it underflows when it
    /// holds fewer items.
    pub fn min_capacity(&self) -> (r: usize)
        ensures
            r == M / 2 - 1,
    {
        self.max_capacity() / 2 - 1
    }

    pub fn is_overflowing(&self) -> (r: bool)
        ensures
            r == (self.item_seq().len() >= M),
    {
        self.items.len() >= self.max_capacity()
    }

    pub fn is_underflowing(&self) -> (r: bool)
        ensures
            r == (self.item_seq().len() < M / 2 - 1),
    {
        self.items.len() < self.min_capacity()
    }

    /// Find the offset of the item matching the given key.
    ///
    /// If the key matches no item in this node,
    /// this funtion returns the index and id of the child that may match the key.
    pub fn offset_of<Q>(&self, key: &Q) -> (r: Result<Offset, (usize, usize)>) where
        T: KeyPartialOrd<Q>,

        requires
            ranks_sorted(self.item_seq()),
            self.shaped(),
        ensures
            internal_offset_of(self.item_seq(), self.child_seq(), T::probe_rank(key), r),
    {
        match binary_search_min(self, key) {
            Some((i, eq)) => {
                if eq {
                    Ok(i)
                } else {
                    let child_index = 1usize + i.unwrap();
                    let id = self.child_id(child_index).unwrap();
                    Err((child_index, id))
                }
            },
            None => Err((0, self.first_child_id())),
        }
    }

    /// The item matching the given key, or the child under which such an
    /// item belongs.
    pub fn get<Q>(&self, key: &Q) -> (r: Result<&T, usize>) where T: KeyPartialOrd<Q>
        requires
            ranks_sorted(self.item_seq()),
            self.shaped(),
        ensures
            r matches Ok(item) ==> self.item_seq().contains(*item) && item.key_rank()
                == T::probe_rank(key),
            r is Err ==> exists|index: int|
                #[trigger] descends_to(
                    self.item_seq(),
                    self.child_seq(),
                    T::probe_rank(key),
                    index,
                    r->Err_0,
                ),
    {
        match self.offset_of(key) {
            Ok(offset) => {
                let item = self.borrow_item(offset).unwrap();
                assert(self.item_seq()[offset.as_int()] == *item);
                Ok(item)
            },
            Err((index, id)) => {
                let r: Result<&T, usize> = Err(id);
                assert(descends_to(
                    self.item_seq(),
                    self.child_seq(),
                    T::probe_rank(key),
                    index as int,
                    r->Err_0,
                ));
                r
            },
        }
    }

    /// The item matching the given key, to be changed in place, or the
    /// child under which such an item belongs.
    pub fn get_mut<Q>(&mut self, key: &Q) -> (r: Result<&mut T, usize>) where T: KeyPartialOrd<Q>
        requires
            ranks_sorted(old(self).item_seq()),
            old(self).shaped(),
        ensures
            final(self).parent == old(self).parent,
            final(self).child_seq() == old(self).child_seq(),
            r matches Ok(item) ==> item.key_rank() == T::probe_rank(key),
            r matches Ok(item) ==> changed_one(
                old(self).item_seq(),
                final(self).item_seq(),
                *item,
                *final(item),
            ),
            r is Err ==> final(self).item_seq() == old(self).item_seq(),
            r is Err ==> exists|index: int|
                #[trigger] descends_to(
                    old(self).item_seq(),
                    old(self).child_seq(),
                    T::probe_rank(key),
                    index,
                    r->Err_0,
                ),
    {
        match self.offset_of(key) {
            Ok(offset) => {
                proof {
                    let before = self.item_seq();
                    let was = before[offset.as_int()];
                    assert forall|after: Seq<T>, item: T|
                        after == before.update(
                            offset.as_int(),
                            item,
                        ) implies #[trigger] changed_one(before, after, was, item) by {
                        assert(changed_at(before, after, offset.as_int(), was, item));
                    }
                }
                Ok(self.item_mut(offset))
            },
            Err((index, id)) => {
                let r: Result<&mut T, usize> = Err(id);
                assert(descends_to(
                    self.item_seq(),
                    self.child_seq(),
                    T::probe_rank(key),
                    index as int,
                    r->Err_0,
                ));
                r
            },
        }
    }

    /// The items on the left and on the right of the child with the given
    /// index.
    pub fn separators(&self, index: usize) -> (r: (Option<&T>, Option<&T>))
        ensures
            r.0 == (if 0 < index <= self.item_seq().len() {
                Some(&self.item_seq()[index - 1])
            } else {
                None
            }),
            r.1 == (if index < self.item_seq().len() {
                Some(&self.item_seq()[index as int])
            } else {
                None
            }),
    {
        let min = if index > 0 {
            self.item(Offset::new(index - 1))
        } else {
            None
        };
        let max = if index < self.items.len() {
            self.item(Offset::new(index))
        } else {
            None
        };
        (min, max)
    }

    /// Returns a mutable reference to the item with the given offset in the node.
    pub fn item_mut(&mut self, offset: Offset) -> (r: &mut T)
        requires
            0 <= offset.as_int() < old(self).item_seq().len(),
        ensures
            *r == old(self).item_seq()[offset.as_int()],
            final(self).item_seq() == old(self).item_seq().update(offset.as_int(), *final(r)),
            final(self).child_seq() == old(self).child_seq(),
            final(self).parent == old(self).parent,
    {
        &mut self.items[offset.unwrap()]
    }

    /// Inserts the item at the given offset, with the child on its right.
    pub fn insert(&mut self, offset: Offset, item: T, right_child_id: usize)
        requires
            0 <= offset.as_int() <= old(self).item_seq().len(),
            offset.as_int() < old(self).child_seq().len(),
        ensures
            final(self).item_seq() == old(self).item_seq().insert(offset.as_int(), item),
            final(self).child_seq() == old(self).child_seq().insert(
                offset.as_int() + 1,
                right_child_id,
            ),
            final(self).parent == old(self).parent,
    {
        self.items.insert(offset.unwrap(), item);
        self.children.insert(offset.unwrap() + 1, right_child_id);
    }

    /// Removes the item at the given offset and the child on its right.
    pub fn remove(&mut self, offset: Offset) -> (r: (T, usize))
        requires
            0 <= offset.as_int() < old(self).item_seq().len(),
            offset.as_int() + 1 < old(self).child_seq().len(),
        ensures
            r.0 == old(self).item_seq()[offset.as_int()],
            r.1 == old(self).child_seq()[offset.as_int() + 1],
            final(self).item_seq() == old(self).item_seq().remove(offset.as_int()),
            final(self).child_seq() == old(self).child_seq().remove(offset.as_int() + 1),
            final(self).parent == old(self).parent,
    {
        let item = self.items.remove(offset.unwrap());
        let child_id = self.children.remove(offset.unwrap() + 1);
        (item, child_id)
    }

    /// Puts the item at the given offset and returns the one that was there.
    pub fn replace(&mut self, offset: Offset, item: T) -> (previous: T)
        requires
            0 <= offset.as_int() < old(self).item_seq().len(),
        ensures
            previous == old(self).item_seq()[offset.as_int()],
            final(self).item_seq() == old(self).item_seq().update(offset.as_int(), item),
            final(self).child_seq() == old(self).child_seq(),
            final(self).parent == old(self).parent,
    {
        let mut item = item;
        core::mem::swap(&mut self.items[offset.unwrap()], &mut item);
        item
    }

    /// Appends the item to the right of the others, with the child on its
    /// right.
    pub fn push_right(&mut self, item: T, child: usize)
        ensures
            final(self).item_seq() == old(self).item_seq().push(item),
            final(self).child_seq() == old(self).child_seq().push(child),
            final(self).parent == old(self).parent,
    {
        self.items.push(item);
        self.children.push(child);
    }

    /// Appends the separator and all the branches of `other` into this node.
    ///
    /// Returns the offset of the separator.
    pub fn append(&mut self, separator: T, other: Internal<T>) -> (offset: Offset)
        ensures
            offset.as_int() == old(self).item_seq().len(),
            final(self).item_seq() == old(self).item_seq().push(separator) + other.item_seq(),
            final(self).child_seq() == old(self).child_seq() + other.child_seq(),
            final(self).parent == old(self).parent,
    {
        let mut other = other;
        self.items.push(separator);
        let offset = Offset::new(self.items.len() - 1);
        self.items.append(&mut other.items);
        self.children.append(&mut other.children);
        offset
    }

    /// Splits the node around its median item.
    ///
    /// The items on the left of the median stay, with the children around
    /// them; those on its right move to a new internal node with the same
    /// parent, whose first child is the child on the right of the median.
    /// Returns the number of items that stay, the median and the new node.
    pub fn split(&mut self) -> (r: (usize, T, Internal<T>))
        requires
            old(self).item_seq().len() >= M,
            old(self).shaped(),
        ensures
            r.0 == (old(self).item_seq().len() - 1) / 2,
            final(self).item_seq() == old(self).item_seq().subrange(0, r.0 as int),
            final(self).child_seq() == old(self).child_seq().subrange(0, r.0 + 1),
            r.1 == old(self).item_seq()[r.0 as int],
            r.2.item_seq() == old(self).item_seq().subrange(
                r.0 + 1,
                old(self).item_seq().len() as int,
            ),
            r.2.child_seq() == old(self).child_seq().subrange(
                r.0 + 1,
                old(self).child_seq().len() as int,
            ),
            r.2.parent == old(self).parent,
            final(self).parent == old(self).parent,
    {
        let median_i = (self.items.len() - 1) / 2;
        let right_items = self.items.split_off(median_i + 1);
        let median = self.items.remove(median_i);
        assert(self.items@ =~= old(self).items@.subrange(0, median_i as int));
        // Move the children on the right of the median pivot to the other node.
        let mut right_children = ChildIds::new();
        let ghost all = old(self).child_seq();
        while self.children.len() > median_i + 1
            invariant
                self.items@ == old(self).items@.subrange(0, median_i as int),
                self.parent == old(self).parent,
                median_i + 1 <= self.child_seq().len(),
                all == old(self).child_seq(),
                self.child_seq() + child_ids(right_children) == all,
            decreases self.child_seq().len(),
        {
            let ghost before = self.child_seq();
            let ghost moved = child_ids(right_children);
            let last = self.children.len() - 1;
            let child_id = self.children.remove(last);
            right_children.insert(0, child_id);
            assert(self.child_seq() + child_ids(right_children) =~= before + moved);
        }
        proof {
            let now = self.child_seq();
            let right = child_ids(right_children);
            assert(now =~= all.subrange(0, median_i + 1)) by {
                assert forall|i: int| 0 <= i < now.len() implies now[i] == all[i] by {
                    assert((now + right)[i] == now[i]);
                }
            }
            assert(right =~= all.subrange(median_i + 1, all.len() as int)) by {
                assert forall|i: int| 0 <= i < right.len() implies right[i] == all[median_i + 1
                    + i] by {
                    assert((now + right)[now.len() + i] == right[i]);
                }
            }
        }
        let right = Internal { parent: self.parent, items: right_items, children: right_children };
        (median_i, median, right)
    }

    /// Drops this internal node without dropping the items: each item is
    /// let go without its destructor, and the room of the node is given
    /// back.
    ///
    /// Used without care, this may lead to memory leaks.
    pub fn forget(self) {
        let mut items = self.items;
        loop
            decreases items@.len(),
        {
            match items.pop() {
                Some(item) => forget(item),
                None => {
                    return ;
                },
            }
        }
    }
}

/// Iterator over the children of an internal node, from left to right.
pub struct Children<'a, T> {
    /// The node.
    pub node: &'a Internal<T>,
    /// The index of the next child.
    pub index: usize,
}

impl<'a, T> Children<'a, T> {
    /// The children that are left, from left to right.
    pub open spec fn remaining(&self) -> Seq<usize> {
        if self.index <= self.node.child_seq().len() {
            self.node.child_seq().skip(self.index as int)
        } else {
            Seq::empty()
        }
    }

    /// The next child, if any.
    pub fn next(&mut self) -> (r: Option<usize>)
        ensures
            final(self).node == old(self).node,
            match r {
                Some(id) => {
                    &&& old(self).remaining().len() > 0
                    &&& id == old(self).remaining()[0]
                    &&& final(self).remaining() == old(self).remaining().skip(1)
                    &&& old(self).index < old(self).node.child_seq().len()
                    &&& final(self).index == old(self).index + 1
                },
                None => old(self).remaining().len() == 0 && *final(self) == *old(self),
            },
    {
        if self.index < self.node.child_count() {
            let i = self.index;
            self.index = i + 1;
            proof {
                assert(self.remaining() =~= old(self).remaining().skip(1));
            }
            self.node.child_id(i)
        } else {
            None
        }
    }
}

/// Iterator over the items of an internal node, from left to right, each
/// with the children on its two sides.
pub struct Items<'a, T> {
    /// The node.
    pub node: &'a Internal<T>,
    /// The offset of the next item.
    pub offset: usize,
}

impl<'a, T> Items<'a, T> {
    /// The number of items that are left.
    pub open spec fn left(&self) -> nat {
        if self.offset <= self.node.item_seq().len() {
            (self.node.item_seq().len() - self.offset) as nat
        } else {
            0
        }
    }

    /// The next item, if any, between the child on its left and the child
    /// on its right.
    pub fn next(&mut self) -> (r: Option<(usize, &'a T, usize)>)
        requires
            old(self).node.shaped(),
        ensures
            final(self).node == old(self).node,
            match r {
                Some((left, item, right)) => {
                    &&& old(self).left() > 0
                    &&& left == old(self).node.child_seq()[old(self).offset as int]
                    &&& *item == old(self).node.item_seq()[old(self).offset as int]
                    &&& right == old(self).node.child_seq()[old(self).offset + 1]
                    &&& final(self).offset == old(self).offset + 1
                },
                None => old(self).left() == 0 && *final(self) == *old(self),
            },
    {
        if self.offset < self.node.items.len() {
            let offset = self.offset;
            self.offset = offset + 1;
            let left_child_id = self.node.child_id(offset).unwrap();
            let right_child_id = self.node.child_id(offset + 1).unwrap();
            Some((left_child_id, &self.node.items[offset], right_child_id))
        } else {
            None
        }
    }
}

} // verus!
