//! Removal of the items of a tree that a predicate names.
use vstd::prelude::*;
use super::node::Address;
use super::KeyOrd;
use crate::slab::{Arena, Slab, Storage};
use crate::btree::node::Reference;

verus! {

/// The walk of a drain over a tree, without its predicate.
pub struct DrainFilterInner<'a, T, A = Slab<Reference<T>>> {
    /// The tree reference.
    pub btree: &'a mut Storage<T, A>,
    /// Address of the next item, if there is one.
    pub addr: Option<Address>,
    /// Number of items of the tree when the drain began.
    pub len: usize,
    /// The rank of the item that was looked at last.
    pub floor: Ghost<Option<int>>,
}

impl<'a, T: KeyOrd, A: Arena<Reference<T>>> DrainFilterInner<'a, T, A> {
    /// The drain stands at the first item of the tree above the items
    /// that it has looked at.
    pub open spec fn wf(&self) -> bool {
        &&& self.btree.wf()
        &&& self.btree.addresses(self.addr, self.floor@)
    }

    /// The items of the tree, by their rank.
    pub open spec fn items(&self) -> Map<int, T> {
        self.btree@
    }

    /// The item of the tree with the given rank is one that the drain has
    /// not looked at.
    pub open spec fn ahead(&self, rank: int) -> bool {
        self.btree.above(self.floor@, rank)
    }

    /// A drain that has looked at no item of the tree.
    pub fn new(btree: &'a mut Storage<T, A>) -> (r: Self)
        requires
            old(btree).wf(),
        ensures
            r.wf(),
            *r.btree == *old(btree),
            *final(r.btree) == *final(btree),
            r.floor@.is_none(),
    {
        let addr = btree.first_item_address();
        let len = btree.len();
        proof {
            btree.lemma_first(addr);
        }
        DrainFilterInner { btree, addr, len, floor: Ghost(None) }
    }

    /// The bounds of the number of items that the drain may still give.
    pub fn size_hint(&self) -> (r: (usize, Option<usize>))
        ensures
            r == (0usize, Some(self.len)),
    {
        (0, Some(self.len))
    }

    /// Looks at the items of the tree from where the drain stands, in the
    /// order of their keys, up to the first one of which the predicate is
    /// true: that item is removed from the tree and returned. The items
    /// before it, of which the predicate is false, stay.
    pub fn next<F: Fn(&T) -> bool>(&mut self, pred: &F) -> (r: Option<T>)
        requires
            old(self).wf(),
            forall|x: T| #[trigger] pred.requires((&x,)),
        ensures
            final(self).wf(),
            *final(final(self).btree) == *final(old(self).btree),
            match r {
                Some(item) => {
                    &&& old(self).ahead(item.key_rank())
                    &&& old(self).items()[item.key_rank()] == item
                    &&& pred.ensures((&item,), true)
                    &&& final(self).items() == old(self).items().remove(item.key_rank())
                    &&& final(self).floor@ == Some(item.key_rank())
                    &&& forall|q: int|
                        old(self).ahead(q) && q < item.key_rank() ==> #[trigger] pred.ensures(
                            (&old(self).items()[q],),
                            false,
                        )
                },
                None => {
                    &&& final(self).items() == old(self).items()
                    &&& final(self).addr.is_none()
                    &&& forall|q: int|
                        old(self).ahead(q) ==> #[trigger] pred.ensures(
                            (&old(self).items()[q],),
                            false,
                        )
                },
            },
    {
        let ghost first = *old(self).btree;
        let ghost first_floor = old(self).floor@;
        loop
            invariant
                self.wf(),
                *self.btree == first,
                *final(self.btree) == *final(old(self).btree),
                first == *old(self).btree,
                first_floor == old(self).floor@,
                forall|x: T| #[trigger] pred.requires((&x,)),
                forall|q: int|
                    first.above(first_floor, q) && !self.btree.above(self.floor@, q)
                        ==> #[trigger] pred.ensures((&first@[q],), false),
                forall|q: int| self.btree.above(self.floor@, q) ==> first.above(first_floor, q),
            decreases Set::new(|q: int| self.btree.above(self.floor@, q)).len(),
        {
            let addr = match self.addr {
                Some(addr) => addr,
                None => {
                    return None;
                },
            };
            let ghost k = self.btree.rank_at(addr);
            let ghost left = Set::new(|q: int| self.btree.above(self.floor@, q));
            proof {
                assert(self.btree.node_ok(addr.id, None));
                assert(left.subset_of(self.btree@.dom()));
                vstd::set_lib::lemma_len_subset(left, self.btree@.dom());
                assert(left.contains(k));
            }
            let item = self.btree.item(addr).unwrap();
            if pred(item) {
                let (item, next_addr) = self.btree.take_at(addr);
                self.addr = if next_addr.is_nowhere() {
                    proof {
                        self.btree.lemma_empty();
                    }
                    None
                } else {
                    proof {
                        assert(self.btree.node_ok(next_addr.id, None));
                    }
                    self.btree.normalize(next_addr)
                };
                proof {
                    self.floor = Ghost(Some(k));
                    assert forall|q: int| #[trigger]
                        self.btree.above(Some(k), q) implies first.above(Some(k), q) by {}
                    assert forall|q: int| #[trigger]
                        first.above(Some(k), q) implies self.btree.above(Some(k), q) by {}
                    assert forall|q: int|
                        first.above(first_floor, q) && q < k implies #[trigger] pred.ensures(
                        (&first@[q],),
                        false,
                    ) by {
                        assert(!first.above(first_floor, q) || !self.btree.above(Some(k), q));
                    }
                }
                return Some(item);
            } else {
                self.addr = self.btree.next_item_address(addr);
                proof {
                    let before = self.floor@;
                    self.floor = Ghost(Some(k));
                    let now = Set::new(|q: int| self.btree.above(Some(k), q));
                    assert(now =~= left.remove(k)) by {
                        assert forall|q: int| now.contains(q) <==> left.remove(k).contains(q) by {
                            if self.btree.above(before, q) && q != k {
                                assert(k <= q);
                            }
                        }
                    }
                }
            }
        }
    }

    /// As [`DrainFilterInner::next`], with a predicate that the drain
    /// takes over.
    pub fn next_consume<F: Fn(&T) -> bool>(&mut self, pred: F) -> (r: Option<T>)
        requires
            old(self).wf(),
            forall|x: T| #[trigger] pred.requires((&x,)),
        ensures
            final(self).wf(),
            *final(final(self).btree) == *final(old(self).btree),
            match r {
                Some(item) => {
                    &&& old(self).ahead(item.key_rank())
                    &&& old(self).items()[item.key_rank()] == item
                    &&& pred.ensures((&item,), true)
                    &&& final(self).items() == old(self).items().remove(item.key_rank())
                    &&& final(self).floor@ == Some(item.key_rank())
                    &&& forall|q: int|
                        old(self).ahead(q) && q < item.key_rank() ==> #[trigger] pred.ensures(
                            (&old(self).items()[q],),
                            false,
                        )
                },
                None => {
                    &&& final(self).items() == old(self).items()
                    &&& final(self).addr.is_none()
                    &&& forall|q: int|
                        old(self).ahead(q) ==> #[trigger] pred.ensures(
                            (&old(self).items()[q],),
                            false,
                        )
                },
            },
    {
        self.next(&pred)
    }
}

/// Drain filter iterator: gives the items of a tree of which its predicate
/// is true, which it removes from the tree, in the order of their keys.
pub struct DrainFilter<'a, T, F, A = Slab<Reference<T>>> {
    pub pred: F,
    pub inner: DrainFilterInner<'a, T, A>,
}

impl<'a, T: KeyOrd, F: Fn(&T) -> bool, A: Arena<Reference<T>>> DrainFilter<'a, T, F, A> {
    /// The drain stands at the first item of the tree above the items
    /// that it has looked at, and its predicate takes every item.
    pub open spec fn wf(&self) -> bool {
        &&& self.inner.wf()
        &&& forall|x: T| #[trigger] self.pred.requires((&x,))
    }

    /// A drain that has looked at no item of the tree.
    pub fn new(btree: &'a mut Storage<T, A>, pred: F) -> (r: Self)
        requires
            old(btree).wf(),
        ensures
            r.inner.wf(),
            *r.inner.btree == *old(btree),
            *final(r.inner.btree) == *final(btree),
            r.inner.floor@.is_none(),
            r.pred == pred,
    {
        DrainFilter { pred, inner: DrainFilterInner::new(btree) }
    }

    /// The bounds of the number of items that the drain may still give.
    pub fn size_hint(&self) -> (r: (usize, Option<usize>))
        ensures
            r == (0usize, Some(self.inner.len)),
    {
        self.inner.size_hint()
    }

    /// The next item of the tree of which the predicate is true, which is
    /// removed from the tree. The items before it stay.
    pub fn next(&mut self) -> (r: Option<T>)
        requires
            old(self).wf(),
        ensures
            final(self).wf(),
            final(self).pred == old(self).pred,
            *final(final(self).inner.btree) == *final(old(self).inner.btree),
            match r {
                Some(item) => {
                    &&& old(self).inner.ahead(item.key_rank())
                    &&& old(self).inner.items()[item.key_rank()] == item
                    &&& old(self).pred.ensures((&item,), true)
                    &&& final(self).inner.items() == old(self).inner.items().remove(
                        item.key_rank(),
                    )
                    &&& final(self).inner.floor@ == Some(item.key_rank())
                    &&& forall|q: int|
                        old(self).inner.ahead(q) && q < item.key_rank() ==> #[trigger] old(
                            self,
                        ).pred.ensures((&old(self).inner.items()[q],), false)
                },
                None => {
                    &&& final(self).inner.items() == old(self).inner.items()
                    &&& final(self).inner.addr.is_none()
                    &&& forall|q: int|
                        old(self).inner.ahead(q) ==> #[trigger] old(self).pred.ensures(
                            (&old(self).inner.items()[q],),
                            false,
                        )
                },
            },
    {
        self.inner.next(&self.pred)
    }
}

impl<'a, T: KeyOrd, F: Fn(&T) -> bool, A: Arena<Reference<T>>> DrainFilter<'a, T, F, A> {
    /// Goes on to the end of the tree: removes every item that the drain
    /// has not looked at and of which the predicate is true.
    pub fn finish(self)
        requires
            old(self.inner.btree).wf(),
            old(self.inner.btree).addresses(self.inner.addr, self.inner.floor@),
            forall|x: T| #[trigger] self.pred.requires((&x,)),
        ensures
            final(self.inner.btree).wf(),
            final(self.inner.btree)@.submap_of(old(self.inner.btree)@),
            forall|q: int|
                old(self.inner.btree)@.dom().contains(q) && !old(self.inner.btree).above(
                    self.inner.floor@,
                    q,
                ) ==> final(self.inner.btree)@.dom().contains(q),
            forall|q: int|
                old(self.inner.btree).above(self.inner.floor@, q) && final(self.inner.btree)@.dom().contains(q) ==> #[trigger] self.pred.ensures(
                    (&old(self.inner.btree)@[q],),
                    false,
                ),
            forall|q: int|
                old(self.inner.btree)@.dom().contains(q) && !final(self.inner.btree)@.dom().contains(q) ==> #[trigger] self.pred.ensures(
                    (&old(self.inner.btree)@[q],),
                    true,
                ),
    {
        let mut drain = self;
        let ghost first = *old(self.inner.btree);
        let ghost first_floor = self.inner.floor@;
        loop
            invariant
                drain.wf(),
                drain.pred == self.pred,
                *final(drain.inner.btree) == *final(self.inner.btree),
                first == *old(self.inner.btree),
                first_floor == self.inner.floor@,
                drain.inner.items().submap_of(first@),
                first_floor matches Some(f) ==> (drain.inner.floor@ matches Some(g) && f <= g),
                forall|q: int|
                    first@.dom().contains(q) && !first.above(first_floor, q)
                        ==> drain.inner.items().dom().contains(q),
                forall|q: int|
                    first.above(first_floor, q) && !drain.inner.ahead(q)
                        && drain.inner.items().dom().contains(q) ==> #[trigger] self.pred.ensures(
                        (&first@[q],),
                        false,
                    ),
                forall|q: int|
                    first@.dom().contains(q) && !drain.inner.items().dom().contains(q)
                        ==> #[trigger] self.pred.ensures((&first@[q],), true),
            decreases Set::new(|q: int| drain.inner.ahead(q)).len(),
        {
            let ghost before = drain.inner.items();
            let ghost before_floor = drain.inner.floor@;
            let ghost left = Set::new(|q: int| drain.inner.ahead(q));
            proof {
                assert(left.subset_of(drain.inner.btree@.dom()));
                vstd::set_lib::lemma_len_subset(left, drain.inner.btree@.dom());
            }
            match drain.next() {
                Some(item) => {
                    proof {
                        let k = item.key_rank();
                        let now = Set::new(|q: int| drain.inner.ahead(q));
                        assert(left.contains(k));
                        assert(now.subset_of(left.remove(k)));
                        vstd::set_lib::lemma_len_subset(now, left.remove(k));
                        assert(drain.inner.items() == before.remove(k));
                        assert forall|q: int|
                            drain.inner.items().dom().contains(q) implies #[trigger] first@.dom().contains(
                            q,
                        ) && drain.inner.items()[q] == first@[q] by {
                            assert(before.dom().contains(q));
                            assert(first@.dom().contains(q));
                        }
                        assert(drain.inner.items().submap_of(first@));
                    }
                },
                None => {
                    return ;
                },
            }
        }
    }
}

impl<T: KeyOrd, A: Arena<Reference<T>>> Storage<T, A> {
    /// Creates an iterator which uses a closure to determine if an item should be removed.
    ///
    /// If the closure returns true, the item is removed from the map and yielded.
    /// If the closure returns false, the item remains in the map and will not be
    /// yielded.
    pub fn drain_filter<F>(&mut self, pred: F) -> (r: DrainFilter<'_, T, F, A>) where
        F: Fn(&T) -> bool,

        requires
            old(self).wf(),
        ensures
            r.inner.wf(),
            *r.inner.btree == *old(self),
            *final(r.inner.btree) == *final(self),
            r.inner.floor@.is_none(),
            r.pred == pred,
    {
        DrainFilter::new(self, pred)
    }

    /// Retains only the items specified by the predicate.
    pub fn retain<F>(&mut self, f: F) where F: Fn(&T) -> bool
        requires
            old(self).wf(),
            forall|x: T| #[trigger] f.requires((&x,)),
        ensures
            final(self).wf(),
            final(self)@.submap_of(old(self)@),
            forall|q: int|
                final(self)@.dom().contains(q) ==> #[trigger] f.ensures((&old(self)@[q],), true),
            forall|q: int|
                old(self)@.dom().contains(q) && !final(self)@.dom().contains(q)
                    ==> #[trigger] f.ensures((&old(self)@[q],), false),
    {
        let mut addr = self.first_item_address();
        let ghost mut floor: Option<int> = None;
        proof {
            self.lemma_first(addr);
        }
        loop
            invariant
                self.wf(),
                self.addresses(addr, floor),
                forall|x: T| #[trigger] f.requires((&x,)),
                self@.submap_of(old(self)@),
                forall|q: int|
                    self@.dom().contains(q) && !self.above(floor, q) ==> #[trigger] f.ensures(
                        (&old(self)@[q],),
                        true,
                    ),
                forall|q: int|
                    old(self)@.dom().contains(q) && !self@.dom().contains(q)
                        ==> #[trigger] f.ensures((&old(self)@[q],), false),
            decreases Set::new(|q: int| self.above(floor, q)).len(),
        {
            let cur = match addr {
                Some(cur) => cur,
                None => {
                    return ;
                },
            };
            let ghost k = self.rank_at(cur);
            let ghost left = Set::new(|q: int| self.above(floor, q));
            let ghost before = *self;
            proof {
                assert(self.node_ok(cur.id, None));
                assert(left.subset_of(self@.dom()));
                vstd::set_lib::lemma_len_subset(left, self@.dom());
                assert(left.contains(k));
            }
            let item = self.item(cur).unwrap();
            if f(item) {
                addr = self.next_item_address(cur);
            } else {
                let (_, next_addr) = self.take_at(cur);
                addr = if next_addr.is_nowhere() {
                    proof {
                        self.lemma_empty();
                    }
                    None
                } else {
                    proof {
                        assert(self.node_ok(next_addr.id, None));
                    }
                    self.normalize(next_addr)
                };
            }
            proof {
                let old_floor = floor;
                floor = Some(k);
                assert(before@.submap_of(old(self)@));
                assert forall|q: int| self@.dom().contains(q) implies #[trigger] old(
                    self,
                )@.dom().contains(q) && self@[q] == old(self)@[q] by {
                    assert(before@.dom().contains(q));
                    assert(old(self)@.dom().contains(q));
                }
                assert forall|q: int|
                    self@.dom().contains(q) && !self.above(Some(k), q) implies #[trigger] f.ensures(
                    (&old(self)@[q],),
                    true,
                ) by {
                    assert(before@.dom().contains(q));
                    assert(old(self)@.dom().contains(q));
                    if q != k {
                        assert(!before.above(old_floor, q));
                    }
                }
                assert forall|q: int| #[trigger] self.above(Some(k), q) implies before.above(
                    Some(k),
                    q,
                ) by {}
                assert forall|q: int| #[trigger] before.above(Some(k), q) implies self.above(
                    Some(k),
                    q,
                ) by {}
                let now = Set::new(|q: int| self.above(Some(k), q));
                assert(now =~= left.remove(k)) by {
                    assert forall|q: int| now.contains(q) <==> left.remove(k).contains(q) by {
                        if before.above(old_floor, q) && q != k {
                            assert(k <= q);
                        }
                        if self.above(Some(k), q) {
                            assert(before.above(Some(k), q));
                        }
                    }
                }
            }
        }
    }
}

} // verus!
