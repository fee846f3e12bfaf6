//! Items that are changed where they stand.
use vstd::prelude::*;
use super::iter::{valid_bounds, Bound, Iter, Range};
use super::node::Address;
use super::{KeyOrd, KeyPartialOrd};
use crate::slab::{Arena, Slab, Storage};
use crate::btree::node::Reference;

verus! {

/// B-Tree items iterator that hands out the items to be changed in place:
/// from both ends, the items of a tree in the order of their keys.
///
/// The iterator goes on as long as each item keeps its key.
pub struct IterMut<'a, T, A = Slab<Reference<T>>> {
    /// BTree reference.
    pub btree: &'a mut Storage<T, A>,
    /// Address of the next item.
    pub addr: Option<Address>,
    /// Address of the item that was given last from the back.
    pub end: Option<Address>,
    /// Number of items left to iterate.
    pub len: usize,
    /// The rank of the item that was given last from the front.
    pub floor: Ghost<Option<int>>,
    /// The rank of the item that was given last from the back.
    pub ceiling: Ghost<Option<int>>,
}

impl<'a, T: KeyOrd, A: Arena<Reference<T>>> IterMut<'a, T, A> {
    /// The iterator over the tree, as it is, that stands where this one
    /// stands.
    pub open spec fn as_iter(&self) -> Iter<'_, T, A> {
        Iter {
            storage: &*self.btree,
            addr: self.addr,
            end: self.end,
            len: self.len,
            floor: self.floor,
            ceiling: self.ceiling,
        }
    }

    /// The ranks of the items that are left to iterate.
    pub open spec fn remaining(&self) -> Set<int> {
        self.as_iter().remaining()
    }

    /// The iterator stands at the first of the items that are left, and
    /// knows how many they are.
    pub open spec fn wf(&self) -> bool {
        self.as_iter().wf()
    }

    /// An iterator over all the items of the tree.
    pub fn new(btree: &'a mut Storage<T, A>) -> (r: Self)
        requires
            old(btree).wf(),
        ensures
            r.wf(),
            *r.btree == *old(btree),
            *final(r.btree) == *final(btree),
            r.remaining() == old(btree)@.dom(),
    {
        let iter = Iter::new(&*btree);
        let addr = iter.addr;
        let end = iter.end;
        let len = iter.len;
        let floor = iter.floor;
        let ceiling = iter.ceiling;
        IterMut { btree, addr, end, len, floor, ceiling }
    }

    /// The number of items that are left, as both bounds of their number.
    pub fn size_hint(&self) -> (r: (usize, Option<usize>))
        ensures
            r == (self.len, Some(self.len)),
    {
        (self.len, Some(self.len))
    }

    /// The first of the items that are left, if any, to be changed in
    /// place.
    ///
    /// The tree is then the tree with what the reference comes to hold in
    /// the place of the item. As long as that has the key of the item, the
    /// iterator can go on, over the other items that were left.
    pub fn next(&mut self) -> (r: Option<&mut T>)
        requires
            old(self).wf(),
        ensures
            *final(final(self).btree) == *final(old(self).btree),
            final(self).ceiling == old(self).ceiling,
            final(self).floor@ == (match r {
                Some(item) => Some(item.key_rank()),
                None => old(self).floor@,
            }),
            r is None ==> {
                &&& old(self).remaining().len() == 0
                &&& *final(self).btree == *old(self).btree
                &&& final(self).wf()
                &&& final(self).remaining() == old(self).remaining()
            },
            r matches Some(item) ==> old(self).remaining().contains(item.key_rank()),
            r matches Some(item) ==> *item == old(self).btree@[item.key_rank()],
            r matches Some(item) ==> forall|q: int|
                old(self).remaining().contains(q) ==> item.key_rank() <= q,
            r matches Some(item) ==> (final(item).key_rank() == item.key_rank() ==> final(self).wf()),
            r matches Some(item) ==> (final(item).key_rank() == item.key_rank() ==> final(self).remaining() == old(self).remaining().remove(item.key_rank())),
            r matches Some(item) ==> (final(item).key_rank() == item.key_rank() ==> final(self).btree@ == old(self).btree@.insert(item.key_rank(), *final(item))),
    {
        let at = self.addr;
        let mut iter = Iter {
            storage: &*self.btree,
            addr: self.addr,
            end: self.end,
            len: self.len,
            floor: self.floor,
            ceiling: self.ceiling,
        };
        let found = iter.next().is_some();
        let addr = iter.addr;
        let len = iter.len;
        let floor = iter.floor;
        let ghost then = iter;
        self.addr = addr;
        self.len = len;
        self.floor = floor;
        if found {
            let at = at.unwrap();
            proof {
                let before = *self.btree;
                assert(before.node_ok(at.id, None));
                assert forall|after: Storage<T, A>, item: T| #[trigger]
                    after.replaced(&before, at, item) && item.key_rank() == before.rank_at(
                        at,
                    ) implies after.iter_like(then).wf() && after.iter_like(then).remaining()
                    == then.remaining() by {
                    after.lemma_replaced_iter(&before, at, item, then);
                }
            }
            self.btree.item_mut(at)
        } else {
            None
        }
    }

    /// The last of the items that are left, if any, to be changed in
    /// place.
    ///
    /// The tree is then the tree with what the reference comes to hold in
    /// the place of the item. As long as that has the key of the item, the
    /// iterator can go on, over the other items that were left.
    pub fn next_back(&mut self) -> (r: Option<&mut T>)
        requires
            old(self).wf(),
        ensures
            *final(final(self).btree) == *final(old(self).btree),
            final(self).floor == old(self).floor,
            final(self).ceiling@ == (match r {
                Some(item) => Some(item.key_rank()),
                None => old(self).ceiling@,
            }),
            r is None ==> {
                &&& old(self).remaining().len() == 0
                &&& *final(self).btree == *old(self).btree
                &&& final(self).wf()
                &&& final(self).remaining() == old(self).remaining()
            },
            r matches Some(item) ==> old(self).remaining().contains(item.key_rank()),
            r matches Some(item) ==> *item == old(self).btree@[item.key_rank()],
            r matches Some(item) ==> forall|q: int|
                old(self).remaining().contains(q) ==> q <= item.key_rank(),
            r matches Some(item) ==> (final(item).key_rank() == item.key_rank() ==> final(self).wf()),
            r matches Some(item) ==> (final(item).key_rank() == item.key_rank() ==> final(self).remaining() == old(self).remaining().remove(item.key_rank())),
            r matches Some(item) ==> (final(item).key_rank() == item.key_rank() ==> final(self).btree@ == old(self).btree@.insert(item.key_rank(), *final(item))),
    {
        let mut iter = Iter {
            storage: &*self.btree,
            addr: self.addr,
            end: self.end,
            len: self.len,
            floor: self.floor,
            ceiling: self.ceiling,
        };
        let found = iter.next_back().is_some();
        let end = iter.end;
        let len = iter.len;
        let ceiling = iter.ceiling;
        let ghost then = iter;
        self.end = end;
        self.len = len;
        self.ceiling = ceiling;
        if found {
            let at = end.unwrap();
            proof {
                let before = *self.btree;
                assert(before.node_ok(at.id, None));
                assert forall|after: Storage<T, A>, item: T| #[trigger]
                    after.replaced(&before, at, item) && item.key_rank() == before.rank_at(
                        at,
                    ) implies after.iter_like(then).wf() && after.iter_like(then).remaining()
                    == then.remaining() by {
                    after.lemma_replaced_iter(&before, at, item, then);
                }
            }
            self.btree.item_mut(at)
        } else {
            None
        }
    }
}

/// Range iterator that hands out the items to be changed in place: the
/// items of a tree with keys in a range, in the order of their keys.
///
/// The iterator goes on as long as each item keeps its key.
pub struct RangeMut<'a, T, A = Slab<Reference<T>>> {
    /// The tree reference.
    pub btree: &'a mut Storage<T, A>,
    /// Address of the next item, if there is one.
    pub addr: Option<Address>,
    /// Address of the first item after the range, if there is one.
    pub end: Option<Address>,
    /// The rank below all those of the items that are left.
    pub floor: Ghost<Option<int>>,
    /// The rank above all those of the range.
    pub ceiling: Ghost<Option<int>>,
}

impl<'a, T: KeyOrd, A: Arena<Reference<T>>> RangeMut<'a, T, A> {
    /// The range iterator over the tree, as it is, that stands where this
    /// one stands.
    pub open spec fn as_range(&self) -> Range<'_, T, A> {
        Range {
            btree: &*self.btree,
            addr: self.addr,
            end: self.end,
            floor: self.floor,
            ceiling: self.ceiling,
        }
    }

    /// The ranks of the items that are left to iterate.
    pub open spec fn remaining(&self) -> Set<int> {
        self.as_range().remaining()
    }

    /// The iterator stands at the first item of the tree above its floor,
    /// and knows the first item that is not under its ceiling.
    pub open spec fn wf(&self) -> bool {
        self.as_range().wf()
    }

    /// An iterator over the items of the tree with a key in the range that
    /// goes from `start` to `end`, which does not start after its end.
    pub fn new<Q>(btree: &'a mut Storage<T, A>, start: Bound<&Q>, end: Bound<&Q>) -> (r: Self) where
        T: KeyPartialOrd<Q>,

        requires
            old(btree).wf(),
            valid_bounds::<T, Q>(start, end),
        ensures
            r.wf(),
            *r.btree == *old(btree),
            *final(r.btree) == *final(btree),
            forall|q: int|
                r.remaining().contains(q) <==> old(btree)@.dom().contains(q) && Range::<T>::in_range(q, start, end),
    {
        let range = Range::new(&*btree, start, end);
        let addr = range.addr;
        let end = range.end;
        let floor = range.floor;
        let ceiling = range.ceiling;
        RangeMut { btree, addr, end, floor, ceiling }
    }

    /// The first of the items that are left, if any, to be changed in
    /// place.
    ///
    /// The tree is then the tree with what the reference comes to hold in
    /// the place of the item. As long as that has the key of the item, the
    /// iterator can go on, over the other items that were left.
    pub fn next(&mut self) -> (r: Option<&mut T>)
        requires
            old(self).wf(),
        ensures
            *final(final(self).btree) == *final(old(self).btree),
            final(self).ceiling == old(self).ceiling,
            r is None ==> {
                &&& old(self).remaining() == Set::<int>::empty()
                &&& *final(self).btree == *old(self).btree
                &&& final(self).wf()
                &&& final(self).remaining() == old(self).remaining()
            },
            r matches Some(item) ==> old(self).remaining().contains(item.key_rank()),
            r matches Some(item) ==> *item == old(self).btree@[item.key_rank()],
            r matches Some(item) ==> forall|q: int|
                old(self).remaining().contains(q) ==> item.key_rank() <= q,
            r matches Some(item) ==> (final(item).key_rank() == item.key_rank() ==> final(self).wf()),
            r matches Some(item) ==> (final(item).key_rank() == item.key_rank() ==> final(self).remaining() == old(self).remaining().remove(item.key_rank())),
            r matches Some(item) ==> (final(item).key_rank() == item.key_rank() ==> final(self).btree@ == old(self).btree@.insert(item.key_rank(), *final(item))),
    {
        let at = self.addr;
        let mut range = Range {
            btree: &*self.btree,
            addr: self.addr,
            end: self.end,
            floor: self.floor,
            ceiling: self.ceiling,
        };
        let found = range.next().is_some();
        let addr = range.addr;
        let floor = range.floor;
        let ghost then = range;
        self.addr = addr;
        self.floor = floor;
        if found {
            let at = at.unwrap();
            proof {
                let before = *self.btree;
                assert(before.node_ok(at.id, None));
                assert forall|after: Storage<T, A>, item: T| #[trigger]
                    after.replaced(&before, at, item) && item.key_rank() == before.rank_at(
                        at,
                    ) implies after.range_like(then).wf() && after.range_like(then).remaining()
                    == then.remaining() by {
                    after.lemma_replaced_range(&before, at, item, then);
                }
            }
            self.btree.item_mut(at)
        } else {
            None
        }
    }

    /// The last of the items that are left, if any, to be changed in
    /// place.
    ///
    /// The tree is then the tree with what the reference comes to hold in
    /// the place of the item. As long as that has the key of the item, the
    /// iterator can go on, over the other items that were left.
    pub fn next_back(&mut self) -> (r: Option<&mut T>)
        requires
            old(self).wf(),
        ensures
            *final(final(self).btree) == *final(old(self).btree),
            final(self).floor == old(self).floor,
            r is None ==> {
                &&& old(self).remaining() == Set::<int>::empty()
                &&& *final(self).btree == *old(self).btree
                &&& final(self).wf()
                &&& final(self).remaining() == old(self).remaining()
            },
            r matches Some(item) ==> old(self).remaining().contains(item.key_rank()),
            r matches Some(item) ==> *item == old(self).btree@[item.key_rank()],
            r matches Some(item) ==> forall|q: int|
                old(self).remaining().contains(q) ==> q <= item.key_rank(),
            r matches Some(item) ==> (final(item).key_rank() == item.key_rank() ==> final(self).wf()),
            r matches Some(item) ==> (final(item).key_rank() == item.key_rank() ==> final(self).remaining() == old(self).remaining().remove(item.key_rank())),
            r matches Some(item) ==> (final(item).key_rank() == item.key_rank() ==> final(self).btree@ == old(self).btree@.insert(item.key_rank(), *final(item))),
    {
        let mut range = Range {
            btree: &*self.btree,
            addr: self.addr,
            end: self.end,
            floor: self.floor,
            ceiling: self.ceiling,
        };
        let found = range.next_back().is_some();
        let end = range.end;
        let ceiling = range.ceiling;
        let ghost then = range;
        self.end = end;
        self.ceiling = ceiling;
        if found {
            let at = end.unwrap();
            proof {
                let before = *self.btree;
                assert(before.node_ok(at.id, None));
                assert forall|after: Storage<T, A>, item: T| #[trigger]
                    after.replaced(&before, at, item) && item.key_rank() == before.rank_at(
                        at,
                    ) implies after.range_like(then).wf() && after.range_like(then).remaining()
                    == then.remaining() by {
                    after.lemma_replaced_range(&before, at, item, then);
                }
            }
            self.btree.item_mut(at)
        } else {
            None
        }
    }
}

impl<T: KeyOrd, A: Arena<Reference<T>>> Storage<T, A> {
    /// The iterator over this tree that stands where the given one
    /// stands.
    pub open spec fn iter_like<'b>(&'b self, iter: Iter<'_, T, A>) -> Iter<'b, T, A> {
        Iter {
            storage: self,
            addr: iter.addr,
            end: iter.end,
            len: iter.len,
            floor: iter.floor,
            ceiling: iter.ceiling,
        }
    }

    /// Where an item has taken the place of an item with the same key,
    /// the tree has the same ranks at the same addresses, and an iterator
    /// stands over it as it stood.
    pub proof fn lemma_replaced_iter(&self, before: &Self, addr: Address, item: T, iter: Iter<'_, T, A>)
        requires
            before.wf(),
            before.is_item_address(addr),
            before.rank_at(addr) == item.key_rank(),
            self.replaced(before, addr, item),
            *iter.storage == *before,
            iter.wf(),
        ensures
            self.wf(),
            self@ == before@.insert(item.key_rank(), item),
            self@.dom() == before@.dom(),
            self.iter_like(iter).wf(),
            self.iter_like(iter).remaining() == iter.remaining(),
    {
        let k = item.key_rank();
        self.lemma_replaced(before, addr, item);
        assert(before.node_ok(addr.id, None));
        assert(before@.dom().contains(k));
        assert(self@.dom() =~= before@.dom());
        let now = self.iter_like(iter);
        assert forall|f: Option<int>, q: int| #[trigger] self.above(f, q) == before.above(f, q) by {}
        assert forall|c: Option<int>, q: int| #[trigger] self.below(c, q) == before.below(c, q) by {}
        assert(now.remaining() =~= iter.remaining());
        assert forall|a: Address| #[trigger]
            self.is_item_address(a) == before.is_item_address(a) by {
            assert(self.has(a.id) == before.has(a.id));
            if before.has(a.id) && a.id != addr.id {
                assert(self.node_at(a.id) == before.node_at(a.id));
            }
        }
        assert forall|a: Address| before.is_item_address(a) implies #[trigger] self.rank_at(a)
            == before.rank_at(a) by {
            if a.id != addr.id {
                assert(self.node_at(a.id) == before.node_at(a.id));
            }
        }
        match iter.addr {
            Some(a) => {
                assert(self.is_item_address(a) == before.is_item_address(a));
                assert(self.rank_at(a) == before.rank_at(a));
                assert forall|r: int| #[trigger] self.above(iter.floor@, r) implies self.rank_at(a)
                    <= r by {
                    assert(before.above(iter.floor@, r));
                }
            },
            None => {
                assert forall|r: int| !#[trigger] self.above(iter.floor@, r) by {
                    assert(!before.above(iter.floor@, r));
                }
            },
        }
        match iter.end {
            Some(e) => {
                assert(self.is_item_address(e) == before.is_item_address(e));
                assert(self.rank_at(e) == before.rank_at(e));
            },
            None => {},
        }
    }

    /// The range iterator over this tree that stands where the given one
    /// stands.
    pub open spec fn range_like<'b>(&'b self, range: Range<'_, T, A>) -> Range<'b, T, A> {
        Range {
            btree: self,
            addr: range.addr,
            end: range.end,
            floor: range.floor,
            ceiling: range.ceiling,
        }
    }

    /// Where an item has taken the place of an item with the same key, a
    /// range iterator stands over the tree as it stood.
    pub proof fn lemma_replaced_range(
        &self,
        before: &Self,
        addr: Address,
        item: T,
        range: Range<'_, T, A>,
    )
        requires
            before.wf(),
            before.is_item_address(addr),
            before.rank_at(addr) == item.key_rank(),
            self.replaced(before, addr, item),
            *range.btree == *before,
            range.wf(),
        ensures
            self.range_like(range).wf(),
            self.range_like(range).remaining() == range.remaining(),
    {
        let k = item.key_rank();
        self.lemma_replaced(before, addr, item);
        assert(before.node_ok(addr.id, None));
        assert(before@.dom().contains(k));
        assert(self@.dom() =~= before@.dom());
        let now = self.range_like(range);
        assert forall|f: Option<int>, q: int| #[trigger] self.above(f, q) == before.above(f, q) by {}
        assert forall|c: Option<int>, q: int| #[trigger] self.below(c, q) == before.below(c, q) by {}
        assert(now.remaining() =~= range.remaining());
        assert forall|a: Address| #[trigger]
            self.is_item_address(a) == before.is_item_address(a) by {
            assert(self.has(a.id) == before.has(a.id));
            if before.has(a.id) && a.id != addr.id {
                assert(self.node_at(a.id) == before.node_at(a.id));
            }
        }
        assert forall|a: Address| before.is_item_address(a) implies #[trigger] self.rank_at(a)
            == before.rank_at(a) by {
            if a.id != addr.id {
                assert(self.node_at(a.id) == before.node_at(a.id));
            }
        }
        assert forall|a: Option<Address>, f: Option<int>| #[trigger]
            before.addresses(a, f) implies self.addresses(a, f) by {
            match a {
                Some(a) => {
                    assert(self.is_item_address(a) == before.is_item_address(a));
                    assert(self.rank_at(a) == before.rank_at(a));
                    assert forall|r: int| #[trigger] self.above(f, r) implies self.rank_at(a)
                        <= r by {
                        assert(before.above(f, r));
                    }
                },
                None => {
                    assert forall|r: int| !#[trigger] self.above(f, r) by {
                        assert(!before.above(f, r));
                    }
                },
            }
        }
        assert(before.addresses(range.addr, range.floor@));
        match range.ceiling@ {
            Some(c) => {
                assert(before.addresses(range.end, Some(c - 1)));
            },
            None => {},
        }
    }

    /// Gets a mutable iterator over the items of the tree, sorted by key.
    pub fn iter_mut(&mut self) -> (r: IterMut<'_, T, A>)
        requires
            old(self).wf(),
        ensures
            r.wf(),
            *r.btree == *old(self),
            *final(r.btree) == *final(self),
            r.remaining() == old(self)@.dom(),
    {
        IterMut::new(self)
    }

    /// Constructs a mutable double-ended iterator over a sub-range of
    /// items in the tree: those with keys from `start` to `end`.
    pub fn range_mut<Q>(&mut self, start: Bound<&Q>, end: Bound<&Q>) -> (r: RangeMut<'_, T, A>) where
        T: KeyPartialOrd<Q>,

        requires
            old(self).wf(),
            valid_bounds::<T, Q>(start, end),
        ensures
            r.wf(),
            *r.btree == *old(self),
            *final(r.btree) == *final(self),
            forall|q: int|
                r.remaining().contains(q) <==> old(self)@.dom().contains(q) && Range::<T>::in_range(q, start, end),
    {
        RangeMut::new(self, start, end)
    }

    /// Returns a mutable reference to the item at the given address, if
    /// any.
    ///
    /// The tree is then the tree with what the reference comes to hold in
    /// the place of the item. As long as that has the key of the item, the
    /// invariant holds of it.
    pub fn item_mut(&mut self, addr: Address) -> (r: Option<&mut T>)
        requires
            old(self).wf(),
        ensures
            r is Some <==> old(self).is_item_address(addr),
            r is None ==> *final(self) == *old(self),
            r matches Some(item) ==> {
                &&& *item == old(self).item_at(addr)
                &&& final(self).replaced(old(self), addr, *final(item))
                &&& final(item).key_rank() == item.key_rank() ==> final(self).wf() && final(self)@
                    == old(self)@.insert(item.key_rank(), *final(item))
            },
    {
        let there = match self.node(addr.id) {
            Some(node) => !addr.offset.is_before() && addr.offset.is_below(node.item_count()),
            None => false,
        };
        if there {
            proof {
                let before = *self;
                assert forall|after: Self, item: T| #[trigger]
                    after.replaced(&before, addr, item) && item.key_rank() == before.rank_at(
                        addr,
                    ) implies after.wf() && after@ == before@.insert(item.key_rank(), item) by {
                    after.lemma_replaced(&before, addr, item);
                }
            }
            Some(self.node_mut(addr.id).into_item_mut(addr.offset))
        } else {
            None
        }
    }

    /// Returns a mutable reference to the item with the given key, if
    /// any.
    ///
    /// The tree is then the tree with what the reference comes to hold in
    /// the place of the item. As long as that has the key of the item, the
    /// invariant holds of it.
    pub fn get_mut<Q>(&mut self, key: &Q) -> (r: Option<&mut T>) where T: KeyPartialOrd<Q>
        requires
            old(self).wf(),
        ensures
            r is Some <==> old(self)@.dom().contains(T::probe_rank(key)),
            r is None ==> *final(self) == *old(self),
            r matches Some(item) ==> {
                &&& *item == old(self)@[T::probe_rank(key)]
                &&& item.key_rank() == T::probe_rank(key)
                &&& final(item).key_rank() == item.key_rank() ==> final(self).wf() && final(self)@
                    == old(self)@.insert(item.key_rank(), *final(item))
            },
    {
        match self.address_of(key) {
            Ok(addr) => {
                proof {
                    assert(self.node_ok(addr.id, None));
                }
                self.item_mut(addr)
            },
            Err(_) => None,
        }
    }
}

} // verus!
