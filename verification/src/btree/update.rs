//! Insertion, removal and update of items, and the rebalancing that
//! follows them.
use vstd::prelude::*;
use super::node::{balance_of, max_capacity_of, min_capacity_of, Address, Balance, Buffer, Offset, Reference};
use super::content::lemma_index_entry;
use super::nodes::{lemma_insert_multiset, lemma_update_multiset};
use super::{Insert, KeyOrd, KeyPartialOrd, UpdateEntry};
use crate::slab::{Arena, Storage};

verus! {

impl<T: KeyOrd, A: Arena<Reference<T>>> Storage<T, A> {
    /// An item of rank `k`, which the tree does not have, belongs at the
    /// address: a place in a leaf that covers the rank, after the items of
    /// smaller rank and before those of greater rank.
    pub open spec fn fits_at(&self, addr: Address, k: int) -> bool {
        &&& self.is_back_address(addr)
        &&& self.node_at(addr.id).is_leaf_node()
        &&& self.covers(addr.id, k)
        &&& forall|i: int|
            0 <= i < addr.offset.as_int() ==> (#[trigger] self.items_at(addr.id)[i]).key_rank() < k
        &&& forall|i: int|
            addr.offset.as_int() <= i < self.items_at(addr.id).len() ==> (
            #[trigger] self.items_at(addr.id)[i]).key_rank() > k
    }

    /// Puts the item into the leaf at the address, which may then overflow.
    pub fn insert_in_leaf(&mut self, addr: Address, item: T)
        requires
            old(self).wf(),
            old(self).fits_at(addr, item.key_rank()),
            old(self).len < usize::MAX,
        ensures
            final(self).inv(Some(addr.id)),
            final(self)@ == old(self)@.insert(item.key_rank(), item),
            final(self).len == old(self).len + 1,
            final(self).is_item_address(addr),
            final(self).item_at(addr) == item,
            final(self).root == old(self).root,
    {
        let ghost k = item.key_rank();
        proof {
            assert(self.node_ok(addr.id, None));
            self.lemma_leaf_miss(None, addr.id, k);
        }
        let node = self.nodes.get_mut(addr.id);
        node.insert(addr.offset, item, None);
        self.len = self.len + 1;
        proof {
            let id = addr.id;
            let o = addr.offset.as_int();
            let target = old(self)@.insert(k, item);
            assert(self.ids@.contains(id));
            assert forall|j: usize| j != id && old(self).ids@.contains(j) implies #[trigger] self.items_at(j) == old(self).items_at(j) by {
                assert(old(self).has(j));
            }
            self.lemma_content_update(old(self), id);
            lemma_insert_multiset(old(self).items_at(id), o, item);
            assert(self.content() =~= old(self).content().insert(item));
            assert forall|r: int| #[trigger] target.dom().contains(r) implies self.content().count(
                target[r],
            ) > 0 && target[r].key_rank() == r by {
                if r != k {
                    assert(old(self)@.dom().contains(r));
                    lemma_index_entry(old(self).content(), r);
                }
            }
            assert forall|id2: usize| self.has(id2) <==> #[trigger] self.ids@.contains(id2) by {
                assert(old(self).has(id2) <==> old(self).ids@.contains(id2));
            }
            assert forall|j: usize, t: int|
                self.has(j) && 0 <= t < self.items_at(j).len() implies target.dom().contains(
                (#[trigger] self.items_at(j)[t]).key_rank(),
            ) && target[self.items_at(j)[t].key_rank()] == self.items_at(j)[t] by {
                assert(old(self).node_ok(j, None));
                if j != id {
                    assert(self.items_at(j) == old(self).items_at(j));
                } else if t < o {
                    assert(self.items_at(j)[t] == old(self).items_at(j)[t]);
                } else if t > o {
                    assert(self.items_at(j)[t] == old(self).items_at(j)[t - 1]);
                }
            }
            self.lemma_view_is(target);
            assert forall|id2: usize| self.has(id2) implies #[trigger] self.node_ok(
                id2,
                Some(id),
            ) by {
                assert(old(self).node_ok(id2, None));
                if id2 == id {
                    assert(self.order_ok(id2));
                    assert(self.indexed_ok(id2));
                } else {
                    assert(self.items_at(id2) == old(self).items_at(id2));
                    if !self.node_at(id2).is_leaf_node() {
                        assert forall|i: int| 0 <= i <= self.items_at(id2).len() implies #[trigger] self.kid_ok(
                            id2,
                            i,
                        ) by {
                            assert(old(self).kid_ok(id2, i));
                        }
                    }
                }
            }
            assert forall|id2: usize| self.has(id2) <==> #[trigger] self.ids@.contains(id2) by {
                assert(old(self).has(id2) <==> old(self).ids@.contains(id2));
            }
        }
    }

    /// Increments the length of the B-Tree by 1.
    pub fn incr_len(&mut self)
        requires
            old(self).len < usize::MAX,
        ensures
            final(self).len == old(self).len + 1,
            final(self).nodes == old(self).nodes,
            final(self).root == old(self).root,
            final(self).ids == old(self).ids,
            final(self).heights == old(self).heights,
            final(self).places == old(self).places,
            final(self).lows == old(self).lows,
            final(self).highs == old(self).highs,
    {
        self.set_len(self.len + 1)
    }

    /// Decrements the length of the B-Tree by 1.
    pub fn decr_len(&mut self)
        requires
            old(self).len > 0,
        ensures
            final(self).len == old(self).len - 1,
            final(self).nodes == old(self).nodes,
            final(self).root == old(self).root,
            final(self).ids == old(self).ids,
            final(self).heights == old(self).heights,
            final(self).places == old(self).places,
            final(self).lows == old(self).lows,
            final(self).highs == old(self).highs,
    {
        self.set_len(self.len - 1)
    }

    /// Puts the item into an empty tree, as the one item of its root.
    /// Returns the address of the item.
    pub fn insert_first(&mut self, item: T) -> (r: Address)
        requires
            old(self).wf(),
            old(self).root is None,
        ensures
            final(self).wf(),
            final(self)@ == old(self)@.insert(item.key_rank(), item),
            final(self).len == 1,
            final(self).is_item_address(r),
            final(self).item_at(r) == item,
    {
        let ghost k = item.key_rank();
        proof {
            self.lemma_empty();
            if self.ids@.len() > 0 {
                assert(self.ids@.contains(self.ids@[0]));
                assert(self.has(self.ids@[0]));
            }
        }
        let new_root = Buffer::leaf(None, item);
        let ghost buffer = new_root;
        let id = self.insert_node(new_root);
        let ghost mid = *self;
        self.set_root(Some(id));
        self.incr_len();
        proof {
            self.heights = Ghost(self.heights@.insert(id, 0));
            self.lows = Ghost(self.lows@.insert(id, None));
            self.highs = Ghost(self.highs@.insert(id, None));
            let target = old(self)@.insert(k, item);
            assert(self.has(usize::MAX) == mid.has(usize::MAX));
            assert(mid.has(usize::MAX) == old(self).has(usize::MAX));
            assert(self.ids@ =~= seq![id]);
            assert(self.ids@[0] == id);
            assert(self.nodes == mid.nodes);
            assert forall|j: usize| self.has(j) <==> #[trigger] self.ids@.contains(j) by {
                if j != id {
                    assert(mid.has(j) == old(self).has(j));
                }
            }
            assert forall|j: usize| old(self).ids@.contains(j) implies #[trigger] self.items_at(j)
                == old(self).items_at(j) by {}
            self.lemma_content_push(old(self), id);
            let e = Seq::<T>::empty();
            e.to_multiset_ensures();
            assert(e.push(item) =~= seq![item]);
            assert(e.to_multiset() =~= vstd::multiset::Multiset::empty());
            assert(self.content() =~= vstd::multiset::Multiset::empty().insert(item));
            assert(self.items_at(id) =~= seq![item]);
            assert forall|j: usize, t: int|
                self.has(j) && 0 <= t < self.items_at(j).len() implies target.dom().contains(
                (#[trigger] self.items_at(j)[t]).key_rank(),
            ) && target[self.items_at(j)[t].key_rank()] == self.items_at(j)[t] by {
                if j != id {
                    assert(mid.has(j) == old(self).has(j));
                }
            }
            self.lemma_view_is(target);
            assert(self@.dom() =~= Set::empty().insert(k));
            assert forall|j: usize| self.has(j) implies #[trigger] self.node_ok(j, None) by {
                if j != id {
                    assert(mid.has(j) == old(self).has(j));
                }
                assert(self.items_at(id)[0] == item);
            }
        }
        Address { id, offset: Offset::new(0) }
    }

    /// Puts the item at the address, which is the place of its key: a
    /// place in a leaf between the items with a smaller and those with a
    /// greater key, or nowhere in an empty tree. Returns the address at
    /// which the item stands once the tree is rebalanced.
    pub fn insert_exactly_at(&mut self, addr: Address, item: T, opt_right_id: Option<usize>) -> (r:
        Address)
        requires
            old(self).wf(),
            old(self).len < usize::MAX,
            if addr.is_nowhere() {
                old(self).root is None
            } else {
                old(self).root is Some && old(self).fits_at(addr, item.key_rank())
            },
        ensures
            final(self).wf(),
            final(self)@ == old(self)@.insert(item.key_rank(), item),
            !old(self)@.dom().contains(item.key_rank()),
            final(self).len == old(self).len + 1,
            final(self).is_item_address(r),
            final(self).item_at(r) == item,
    {
        if addr.is_nowhere() {
            proof {
                self.lemma_empty();
            }
            self.insert_first(item)
        } else {
            proof {
                self.lemma_leaf_miss(None, addr.id, item.key_rank());
            }
            self.insert_in_leaf(addr, item);
            let new_addr = self.rebalance(addr.id, addr);
            proof {
                assert(self.node_ok(new_addr.id, None));
            }
            new_addr
        }
    }

    /// `self` is `before` with the item `item` in the place of the item at
    /// the address.
    pub open spec fn replaced(&self, before: &Self, addr: Address, item: T) -> bool {
        let id = addr.id;
        &&& self.nodes.wf()
        &&& self.root == before.root
        &&& self.len == before.len
        &&& self.ids == before.ids
        &&& self.heights == before.heights
        &&& self.places == before.places
        &&& self.lows == before.lows
        &&& self.highs == before.highs
        &&& forall|j: usize| (#[trigger] self.has(j)) == before.has(j)
        &&& forall|j: usize|
            j != id && before.has(j) ==> #[trigger] self.node_at(j) == before.node_at(j)
        &&& self.node_at(id).is_leaf_node() == before.node_at(id).is_leaf_node()
        &&& self.node_at(id).parent_id() == before.node_at(id).parent_id()
        &&& self.items_at(id) == before.items_at(id).update(addr.offset.as_int(), item)
        &&& self.kids_at(id) == before.kids_at(id)
    }

    /// A tree in which an item has taken the place of an item with the
    /// same key is a tree in which all is well.
    pub proof fn lemma_replaced(&self, before: &Self, addr: Address, item: T)
        requires
            before.wf(),
            before.is_item_address(addr),
            before.rank_at(addr) == item.key_rank(),
            self.replaced(before, addr, item),
        ensures
            self.wf(),
            self@ == before@.insert(item.key_rank(), item),
    {
        let k = item.key_rank();
        let id = addr.id;
        let o = addr.offset.as_int();
        let previous = before.item_at(addr);
        assert(before.node_ok(id, None));
        assert(self.ids@.contains(id));
        assert forall|j: usize| j != id && before.ids@.contains(j) implies #[trigger] self.items_at(
            j,
        ) == before.items_at(j) by {
            assert(before.has(j));
            assert(self.node_at(j) == before.node_at(j));
        }
        self.lemma_content_update(before, id);
        lemma_update_multiset(before.items_at(id), o, item);
        let target = before@.insert(k, item);
        assert(before@.dom().contains(k) && before@[k] == previous);
        assert(self.content().insert(previous) =~= before.content().insert(item)) by {
            assert forall|v: T| self.content().insert(previous).count(v) == before.content().insert(item).count(v) by {
                assert(self.items_at(id).to_multiset().insert(previous).count(v) == before.items_at(id).to_multiset().insert(item).count(v));
            }
        }
        assert(self.content().len() == before.content().len()) by {
            assert(self.content().insert(previous).len() == self.content().len() + 1);
            assert(before.content().insert(item).len() == before.content().len() + 1);
        }
        assert forall|r: int| #[trigger] target.dom().contains(r) implies self.content().count(
            target[r],
        ) > 0 && target[r].key_rank() == r by {
            if r != k {
                assert(before@.dom().contains(r));
                lemma_index_entry(before.content(), r);
                assert(before@[r] != previous);
                assert(self.content().insert(previous).count(target[r]) == before.content().insert(item).count(target[r]));
            } else {
                lemma_index_entry(before.content(), k);
                assert(self.content().insert(previous).count(item) == before.content().insert(item).count(item));
            }
        }
        assert forall|j: usize| self.has(j) <==> #[trigger] self.ids@.contains(j) by {
            assert(self.has(j) == before.has(j));
        }
        assert forall|j: usize, t: int|
            self.has(j) && 0 <= t < self.items_at(j).len() implies target.dom().contains(
            (#[trigger] self.items_at(j)[t]).key_rank(),
        ) && target[self.items_at(j)[t].key_rank()] == self.items_at(j)[t] by {
            assert(self.has(j) == before.has(j));
            assert(before.node_ok(j, None));
            if j != id {
                assert(self.node_at(j) == before.node_at(j));
            }
            let x = before.items_at(j)[t];
            if j != id && x.key_rank() == k {
                before.lemma_one_address(None, Address { id: j, offset: Offset(t as usize) }, addr);
            }
        }
        self.lemma_view_is(target);
        assert(self@.dom() =~= before@.dom());
        assert forall|j: usize| self.has(j) implies #[trigger] self.node_ok(j, None) by {
            assert(self.has(j) == before.has(j));
            assert(before.node_ok(j, None));
            if j != id {
                assert(self.node_at(j) == before.node_at(j));
            }
            if before.root != Some(j) {
                before.lemma_parent(None, j);
                let q = before.node_at(j).parent_id().unwrap();
                assert(self.has(q) == before.has(q));
                if q != id {
                    assert(self.node_at(q) == before.node_at(q));
                }
            }
            assert(self.link_ok(j));
            assert(self.balance_ok(j, None));
            assert(self.order_ok(j));
            assert forall|t: int| 0 <= t < self.items_at(j).len() implies self@.dom().contains(
                (#[trigger] self.items_at(j)[t]).key_rank(),
            ) && self@[self.items_at(j)[t].key_rank()] == self.items_at(j)[t] by {
                let x = before.items_at(j)[t];
                if j != id && x.key_rank() == k {
                    before.lemma_one_address(
                        None,
                        Address { id: j, offset: Offset(t as usize) },
                        addr,
                    );
                }
            }
            assert(self.indexed_ok(j));
            if !self.node_at(j).is_leaf_node() {
                assert forall|t: int|
                    0 <= t <= self.items_at(j).len() implies #[trigger] self.kid_ok(j, t) by {
                    let d = before.kids_at(j)[t];
                    assert(before.kid_ok(j, t));
                    assert(self.has(d) == before.has(d));
                    if d != id {
                        assert(self.node_at(d) == before.node_at(d));
                    }
                }
            }
            assert(self.kids_ok(j));
        }
    }

    /// Puts the item in the place of the item at the address, which has
    /// the same key, and returns the item that was there.
    pub fn replace_at(&mut self, addr: Address, item: T) -> (previous: T)
        requires
            old(self).wf(),
            old(self).is_item_address(addr),
            old(self).rank_at(addr) == item.key_rank(),
        ensures
            final(self).wf(),
            final(self)@ == old(self)@.insert(item.key_rank(), item),
            previous == old(self).item_at(addr),
            previous == old(self)@[item.key_rank()],
            final(self).len == old(self).len,
            final(self).is_item_address(addr),
            final(self).item_at(addr) == item,
    {
        let ghost k = item.key_rank();
        let ghost id = addr.id;
        let ghost o = addr.offset.as_int();
        proof {
            assert(self.node_ok(id, None));
        }
        let node = self.node_mut(addr.id);
        let previous = node.replace(addr.offset, item);
        let ghost mid = *self;
        proof {
            assert(self.ids@.contains(id));
            assert forall|j: usize| (#[trigger] self.has(j)) == old(self).has(j) by {
                assert(mid.has(j) == old(self).has(j));
            }
            assert forall|j: usize| j != id && old(self).has(j) implies #[trigger] self.node_at(j)
                == old(self).node_at(j) by {
                assert(mid.node_at(j) == old(self).node_at(j));
            }
            self.lemma_replaced(old(self), addr, item);
        }
        previous
    }

    /// Insert an item in the tree. An item of the tree with the same key
    /// leaves the tree for it and is returned.
    pub fn insert(&mut self, item: T) -> (r: Option<T>)
        requires
            old(self).wf(),
            !old(self)@.dom().contains(item.key_rank()) ==> old(self).len < usize::MAX,
        ensures
            final(self).wf(),
            final(self)@ == old(self)@.insert(item.key_rank(), item),
            r == (if old(self)@.dom().contains(item.key_rank()) {
                Some(old(self)@[item.key_rank()])
            } else {
                None
            }),
            final(self).len == old(self).len + (if r is Some {
                0int
            } else {
                1int
            }),
    {
        match self.address_of(&item) {
            Ok(addr) => {
                proof {
                    assert(self.node_ok(addr.id, None));
                }
                Some(self.replace_at(addr, item))
            },
            Err(addr) => {
                self.insert_exactly_at(addr, item, None);
                None
            },
        }
    }

    /// Takes the item at the address out of its leaf, which may then
    /// underflow. The address then stands for the next item of the tree.
    pub fn remove_in_leaf(&mut self, addr: Address) -> (item: T)
        requires
            old(self).wf(),
            old(self).is_item_address(addr),
            old(self).node_at(addr.id).is_leaf_node(),
        ensures
            final(self).inv(Some(addr.id)),
            final(self).has(addr.id),
            item == old(self).item_at(addr),
            final(self)@ == old(self)@.remove(item.key_rank()),
            old(self)@.dom().contains(item.key_rank()),
            old(self)@[item.key_rank()] == item,
            final(self).len == old(self).len - 1,
            final(self).root == old(self).root,
            final(self).addressable(addr),
            old(self).is_next_rank(item.key_rank(), final(self).target_of(addr)),
            forall|n: usize| (#[trigger] final(self).has(n)) == old(self).has(n),
            forall|n: usize|
                n != addr.id && old(self).has(n) ==> #[trigger] final(self).node_at(n) == old(self).node_at(n),
            final(self).heights == old(self).heights,
            final(self).lows == old(self).lows,
            final(self).highs == old(self).highs,
            final(self).places == old(self).places,
    {
        let ghost id = addr.id;
        let ghost o = addr.offset.as_int();
        let ghost k = self.rank_at(addr);
        let ghost gone = self.item_at(addr);
        proof {
            assert(self.node_ok(id, None));
            self.lemma_leaf_next(None, id, o + 1);
            assert(self@.dom().contains(k));
            assert(self@.dom().len() > 0);
        }
        let node = self.node_mut(addr.id);
        let (item, _) = node.remove(addr.offset);
        let ghost mid = *self;
        self.decr_len();
        proof {
            let target = old(self)@.remove(k);
            assert(self.nodes == mid.nodes);
            assert(self.ids@.contains(id));
            assert forall|j: usize| (#[trigger] self.has(j)) == old(self).has(j) by {
                assert(mid.has(j) == old(self).has(j));
            }
            assert forall|j: usize| j != id && old(self).has(j) implies #[trigger] self.node_at(j)
                == old(self).node_at(j) by {
                assert(mid.node_at(j) == old(self).node_at(j));
            }
            assert forall|j: usize| j != id && old(self).ids@.contains(j) implies #[trigger] self.items_at(
                j,
            ) == old(self).items_at(j) by {
                assert(old(self).has(j));
                assert(self.node_at(j) == old(self).node_at(j));
            }
            self.lemma_content_update(old(self), id);
            old(self).items_at(id).to_multiset_ensures();
            assert(old(self).items_at(id).to_multiset().count(gone) > 0) by {
                assert(old(self).items_at(id).contains(gone));
            }
            assert(self.content() =~= old(self).content().remove(gone)) by {
                assert forall|v: T| self.content().count(v) == old(self).content().remove(
                    gone,
                ).count(v) by {
                    assert(self.items_at(id).to_multiset().count(v) == old(self).items_at(
                        id,
                    ).to_multiset().remove(gone).count(v));
                }
            }
            lemma_index_entry(old(self).content(), k);
            assert(old(self).content().count(gone) > 0);
            assert forall|r: int| #[trigger] target.dom().contains(r) implies self.content().count(
                target[r],
            ) > 0 && target[r].key_rank() == r by {
                assert(old(self)@.dom().contains(r));
                lemma_index_entry(old(self).content(), r);
            }
            assert forall|j: usize| self.has(j) <==> #[trigger] self.ids@.contains(j) by {
                assert(self.has(j) == old(self).has(j));
            }
            assert forall|j: usize, t: int|
                self.has(j) && 0 <= t < self.items_at(j).len() implies target.dom().contains(
                (#[trigger] self.items_at(j)[t]).key_rank(),
            ) && target[self.items_at(j)[t].key_rank()] == self.items_at(j)[t] by {
                assert(self.has(j) == old(self).has(j));
                assert(old(self).node_ok(j, None));
                let x = self.items_at(j)[t];
                if j != id {
                    assert(self.node_at(j) == old(self).node_at(j));
                    if x.key_rank() == k {
                        old(self).lemma_one_address(
                            None,
                            Address { id: j, offset: Offset(t as usize) },
                            addr,
                        );
                    }
                } else {
                    let u = if t < o {
                        t
                    } else {
                        t + 1
                    };
                    assert(x == old(self).items_at(id)[u]);
                    if u < o {
                        assert(old(self).items_at(id)[u].key_rank() < k);
                    } else {
                        assert(old(self).items_at(id)[u].key_rank() > k);
                    }
                }
            }
            self.lemma_view_is(target);
            assert forall|j: usize| self.has(j) implies #[trigger] self.node_ok(j, Some(id)) by {
                assert(self.has(j) == old(self).has(j));
                assert(old(self).node_ok(j, None));
                if j != id {
                    assert(self.node_at(j) == old(self).node_at(j));
                }
                if old(self).root != Some(j) {
                    old(self).lemma_parent(None, j);
                    let q = old(self).node_at(j).parent_id().unwrap();
                    assert(self.has(q) == old(self).has(q));
                    assert(self.node_at(q) == old(self).node_at(q));
                }
                assert(self.link_ok(j));
                assert(self.balance_ok(j, Some(id)));
                assert(self.order_ok(j));
                assert forall|t: int| 0 <= t < self.items_at(j).len() implies self@.dom().contains(
                    (#[trigger] self.items_at(j)[t]).key_rank(),
                ) && self@[self.items_at(j)[t].key_rank()] == self.items_at(j)[t] by {
                    let x = self.items_at(j)[t];
                    if j != id {
                        if x.key_rank() == k {
                            old(self).lemma_one_address(
                                None,
                                Address { id: j, offset: Offset(t as usize) },
                                addr,
                            );
                        }
                    } else {
                        let u = if t < o {
                            t
                        } else {
                            t + 1
                        };
                        assert(x == old(self).items_at(id)[u]);
                        if u < o {
                            assert(old(self).items_at(id)[u].key_rank() < k);
                        } else {
                            assert(old(self).items_at(id)[u].key_rank() > k);
                        }
                    }
                }
                assert(self.indexed_ok(j));
                if !self.node_at(j).is_leaf_node() {
                    assert forall|t: int|
                        0 <= t <= self.items_at(j).len() implies #[trigger] self.kid_ok(j, t) by {
                        let d = old(self).kids_at(j)[t];
                        assert(old(self).kid_ok(j, t));
                        assert(self.has(d) == old(self).has(d));
                        if d != id {
                            assert(self.node_at(d) == old(self).node_at(d));
                        }
                    }
                }
                assert(self.kids_ok(j));
            }
        }
        item
    }

    /// Takes the last item out of the last leaf under the node `id`, which
    /// may then underflow. Returns the item and the leaf.
    pub fn remove_rightmost_leaf_of(&mut self, id: usize) -> (r: (T, usize))
        requires
            old(self).wf(),
            old(self).has(id),
        ensures
            r.1 == old(self).rightmost_leaf(id),
            r.0 == old(self).items_at(r.1).last(),
            final(self).inv(Some(r.1)),
            final(self).has(r.1),
            final(self)@ == old(self)@.remove(r.0.key_rank()),
            old(self)@.dom().contains(r.0.key_rank()),
            final(self).len == old(self).len - 1,
            final(self).root == old(self).root,
            forall|n: usize| (#[trigger] final(self).has(n)) == old(self).has(n),
            forall|n: usize|
                n != r.1 && old(self).has(n) ==> #[trigger] final(self).node_at(n) == old(self).node_at(n),
            final(self).heights == old(self).heights,
            final(self).lows == old(self).lows,
            final(self).highs == old(self).highs,
            final(self).places == old(self).places,
    {
        let mut leaf = id;
        loop
            invariant_except_break
                self.wf(),
                self.has(leaf),
                self.rightmost_leaf(leaf) == old(self).rightmost_leaf(id),
                *self == *old(self),
            ensures
                self.wf(),
                self.has(leaf),
                self.node_at(leaf).is_leaf_node(),
                leaf == old(self).rightmost_leaf(id),
                *self == *old(self),
            decreases self.height(leaf),
        {
            proof {
                assert(self.node_ok(leaf, None));
                self.lemma_rightmost(leaf);
            }
            let node = self.node(leaf).unwrap();
            match node.child_id(node.item_count()) {
                Some(child_id) => {
                    proof {
                        assert(self.kid_ok(leaf, self.items_at(leaf).len() as int));
                    }
                    leaf = child_id;
                },
                None => break ,
            }
        }
        proof {
            assert(self.node_ok(leaf, None));
        }
        let last = self.node(leaf).unwrap().item_count() - 1;
        let item = self.remove_in_leaf(Address::new(leaf, Offset::new(last)));
        (item, leaf)
    }

    /// Removes the item at the address from the tree.
    ///
    /// Returns the item with the address that stands for the item that
    /// came after it: the address of that item, or the end of a leaf from
    /// which that item comes next; or nothing, where the address names no
    /// item.
    pub fn remove_at(&mut self, addr: Address) -> (r: Option<(T, Address)>)
        requires
            old(self).wf(),
        ensures
            r is Some <==> old(self).is_item_address(addr),
            r is None ==> *final(self) == *old(self),
            r matches Some((item, next)) ==> {
                &&& item == old(self).item_at(addr)
                &&& final(self).wf()
                &&& final(self)@ == old(self)@.remove(item.key_rank())
                &&& old(self)@.dom().contains(item.key_rank())
                &&& old(self)@[item.key_rank()] == item
                &&& final(self).len == old(self).len - 1
                &&& final(self).addressable(next)
                &&& old(self).is_next_rank(item.key_rank(), final(self).target_of(next))
            },
    {
        match self.node(addr.id) {
            Some(node) => {
                if addr.offset.is_before() || !addr.offset.is_below(node.item_count()) {
                    return None;
                }
            },
            None => {
                return None;
            },
        }
        Some(self.take_at(addr))
    }

    /// Removes the item at the address, which names an item. Returns the
    /// item with the address that stands for the item that came after it.
    pub fn take_at(&mut self, addr: Address) -> (r: (T, Address))
        requires
            old(self).wf(),
            old(self).is_item_address(addr),
        ensures
            r.0 == old(self).item_at(addr),
            final(self).wf(),
            final(self)@ == old(self)@.remove(r.0.key_rank()),
            old(self)@.dom().contains(r.0.key_rank()),
            old(self)@[r.0.key_rank()] == r.0,
            final(self).len == old(self).len - 1,
            final(self).addressable(r.1),
            old(self).is_next_rank(r.0.key_rank(), final(self).target_of(r.1)),
    {
        let is_leaf = !self.node(addr.id).unwrap().is_internal();
        proof {
            assert(self.node_ok(addr.id, None));
        }
        if is_leaf {
            // removed from a leaf.
            let item = self.remove_in_leaf(addr);
            let next = self.rebalance(addr.id, addr);
            (item, next)
        } else {
            // remove from an internal node.
            let ghost before = *self;
            let ghost k = before.rank_at(addr);
            let new_addr = self.next_item_or_back_address(addr).unwrap();
            let left_child_id = self.node(addr.id).unwrap().child_id(addr.offset.unwrap()).unwrap();
            proof {
                let o = addr.offset.as_int();
                assert(before.kid_ok(addr.id, o));
                before.lemma_rightmost(left_child_id);
                let leaf = before.rightmost_leaf(left_child_id);
                assert(before.node_ok(leaf, None));
                before.lemma_leaf_gap(None, leaf, before.items_at(leaf).len() as int);
                assert(before.node_ok(new_addr.id, None));
                // the next item stands under the child after the item
                assert(new_addr.id != addr.id) by {
                    let c = before.kids_at(addr.id)[o + 1];
                    assert(before.kid_ok(addr.id, o + 1));
                    assert(before.node_ok(c, None));
                    let x = before.items_at(c)[0].key_rank();
                    assert(before.covers(c, x));
                    assert(before.above(Some(k), x));
                    if new_addr.id == addr.id {
                        let i = new_addr.offset.as_int();
                        if i > o + 1 {
                            assert(before.items_at(addr.id)[o + 1].key_rank() < before.items_at(
                                addr.id,
                            )[i].key_rank());
                        }
                        if i < o {
                            assert(before.items_at(addr.id)[i].key_rank() < before.items_at(
                                addr.id,
                            )[o].key_rank());
                        }
                    }
                }
            }
            let (separator, leaf_id) = self.remove_rightmost_leaf_of(left_child_id);
            let ghost mid = *self;
            proof {
                assert(mid.has(addr.id) == before.has(addr.id));
                assert(before.height(leaf_id) == 0);
                assert(mid.node_at(addr.id) == before.node_at(addr.id));
                assert forall|q: int| #[trigger]
                    mid@.dom().contains(q) && q < k implies q < separator.key_rank() by {
                    assert(before.below(Some(k), q));
                }
                // the next item stands in another leaf
                assert(new_addr.id != leaf_id) by {
                    if new_addr.id == leaf_id {
                        let items = before.items_at(leaf_id);
                        if new_addr.offset.as_int() < items.len() - 1 {
                            assert(items[new_addr.offset.as_int()].key_rank() < items[items.len()
                                - 1].key_rank());
                        }
                    }
                }
                assert(mid.has(new_addr.id) == before.has(new_addr.id));
                assert(mid.node_at(new_addr.id) == before.node_at(new_addr.id));
            }
            let item = self.swap_separator(addr, separator, Ghost(Some(leaf_id)));
            proof {
                assert(self.has(new_addr.id) == mid.has(new_addr.id));
                assert(new_addr.id != addr.id);
                assert(self.node_at(new_addr.id) == mid.node_at(new_addr.id));
                assert(self.has(leaf_id) == mid.has(leaf_id));
                assert(self@ =~= before@.remove(k));
                assert(before.node_ok(addr.id, None));
            }
            let next = self.rebalance(leaf_id, new_addr);
            (item, next)
        }
    }

    /// Removes and returns the first item of the tree, if any.
    pub fn pop_first(&mut self) -> (r: Option<T>)
        requires
            old(self).wf(),
        ensures
            final(self).wf(),
            r is None <==> old(self).root is None,
            r is None ==> *final(self) == *old(self),
            r matches Some(item) ==> {
                &&& old(self)@.dom().contains(item.key_rank())
                &&& old(self)@[item.key_rank()] == item
                &&& old(self).is_greatest_below(Some(item.key_rank()), None)
                &&& final(self)@ == old(self)@.remove(item.key_rank())
                &&& final(self).len == old(self).len - 1
            },
    {
        match self.first_item_address() {
            Some(addr) => match self.remove_at(addr) {
                Some((item, _)) => Some(item),
                None => None,
            },
            None => None,
        }
    }

    /// Removes and returns the last item from the tree, if any.
    pub fn pop_last(&mut self) -> (r: Option<T>)
        requires
            old(self).wf(),
        ensures
            final(self).wf(),
            r is None <==> old(self).root is None,
            r is None ==> *final(self) == *old(self),
            r matches Some(item) ==> {
                &&& old(self)@.dom().contains(item.key_rank())
                &&& old(self)@[item.key_rank()] == item
                &&& old(self).is_least_above(Some(item.key_rank()), None)
                &&& final(self)@ == old(self)@.remove(item.key_rank())
                &&& final(self).len == old(self).len - 1
            },
    {
        match self.last_item_address() {
            Some(addr) => match self.remove_at(addr) {
                Some((item, _)) => Some(item),
                None => None,
            },
            None => None,
        }
    }

    /// Removes the item identified by the given key in the tree.
    pub fn remove<Q>(&mut self, key: &Q) -> (r: Option<T>) where T: super::KeyPartialOrd<Q>
        requires
            old(self).wf(),
        ensures
            final(self).wf(),
            r == (if old(self)@.dom().contains(T::probe_rank(key)) {
                Some(old(self)@[T::probe_rank(key)])
            } else {
                None
            }),
            final(self)@ == old(self)@.remove(T::probe_rank(key)),
            final(self).len == old(self).len - (if r is Some {
                1int
            } else {
                0int
            }),
    {
        match self.address_of(key) {
            Ok(addr) => {
                match self.remove_at(addr) {
                    Some((item, _)) => Some(item),
                    None => None,
                }
            },
            Err(_) => {
                proof {
                    assert(self@.remove(T::probe_rank(key)) =~= self@);
                }
                None
            },
        }
    }

    /// Removes and returns the item matching the given key in the tree, if any.
    pub fn take<Q>(&mut self, key: &Q) -> (r: Option<T>) where T: super::KeyPartialOrd<Q>
        requires
            old(self).wf(),
        ensures
            final(self).wf(),
            r == (if old(self)@.dom().contains(T::probe_rank(key)) {
                Some(old(self)@[T::probe_rank(key)])
            } else {
                None
            }),
            final(self)@ == old(self)@.remove(T::probe_rank(key)),
            final(self).len == old(self).len - (if r is Some {
                1int
            } else {
                0int
            }),
    {
        self.remove(key)
    }

    /// Inserts the item at the place in a leaf that stands for the
    /// address, which is the place of its key. Returns the address at
    /// which the item stands once the tree is rebalanced.
    pub fn insert_at<I>(&mut self, addr: Address, item: I) -> (r: Address) where T: Insert<I>
        requires
            old(self).wf(),
            old(self).len < usize::MAX,
            if addr.is_nowhere() {
                old(self).root is None
            } else {
                &&& old(self).root is Some
                &&& old(self).is_back_address(addr)
                &&& old(self).fits_at(old(self).leaf_address_of(addr), T::probe_rank(&item))
            },
        ensures
            final(self).wf(),
            final(self)@ == old(self)@.insert(T::probe_rank(&item), T::allocated(item)),
            !old(self)@.dom().contains(T::probe_rank(&item)),
            final(self).len == old(self).len + 1,
            final(self).is_item_address(r),
            final(self).item_at(r) == T::allocated(item),
    {
        let allocated_item = T::allocate_item(item);
        let leaf = self.leaf_address(addr);
        self.insert_exactly_at(leaf, allocated_item, None)
    }

    /// The entry that an update of `key` hands to its action: the item of
    /// the tree with that key, or without one the key.
    pub open spec fn entry_of<Q>(&self, key: Q) -> UpdateEntry<Q, T> where T: KeyPartialOrd<Q> {
        if self@.dom().contains(T::probe_rank(&key)) {
            UpdateEntry::Occupied(self@[T::probe_rank(&key)])
        } else {
            UpdateEntry::Vacant(key)
        }
    }

    /// The tree after an update of the item of rank `k` that answers with
    /// `item`: the item that had the rank has left, and the new item is
    /// there if one is given.
    pub open spec fn updated(&self, k: int, item: Option<T>) -> Map<int, T> {
        match item {
            Some(x) => self@.remove(k).insert(x.key_rank(), x),
            None => self@.remove(k),
        }
    }

    /// General-purpose update function.
    ///
    /// This can be used to insert, compare, replace or remove the value identified by the given
    /// `key` in the tree.
    /// The action to perform is specified by the `action` function.
    /// This function is called once with:
    ///  - `UpdateEntry::Occupied(item)` when `item` is already identified by `key` or
    ///  - `UpdateEntry::Vacant(key)` when the `key` is not associated to any value.
    ///
    /// The `action` function must return a pair (`new_item`, `result`) where
    /// `new_item` is the item to be associated to `key`
    /// (if it is `None` any previous binding is removed) and
    /// `result` is the value returned by the entire `update` function call.
    pub fn update<R, F, Q, I>(&mut self, key: Q, action: F) -> (r: R) where
        T: KeyPartialOrd<Q> + Insert<I>,
        F: FnOnce(UpdateEntry<Q, T>) -> (Option<I>, R),

        requires
            old(self).wf(),
            old(self).len < usize::MAX,
            action.requires((old(self).entry_of(key),)),
        ensures
            final(self).wf(),
            exists|item: Option<I>|
                #![trigger action.ensures((old(self).entry_of(key),), (item, r))]
                action.ensures((old(self).entry_of(key),), (item, r)) && final(self)@ == old(self).updated(
                    T::probe_rank(&key),
                    match item {
                        Some(i) => Some(T::allocated(i)),
                        None => None,
                    },
                ) && (item matches Some(i) ==> T::allocated(i).key_rank() == T::probe_rank(&i)),
    {
        match self.root {
            Some(id) => {
                proof {
                    assert(self.node_ok(id, None));
                }
                self.update_in(id, key, action)
            },
            None => {
                proof {
                    self.lemma_empty();
                }
                let ghost entry = self.entry_of(key);
                let ghost k = T::probe_rank(&key);
                let (to_insert, result) = action(UpdateEntry::Vacant(key));
                let ghost chosen = to_insert;
                if let Some(i) = to_insert {
                    let item = T::allocate_item(i);
                    self.insert_first(item);
                }
                proof {
                    assert(old(self)@.remove(k) =~= old(self)@);
                    assert(action.ensures((entry,), (chosen, result)));
                }
                result
            },
        }
    }

    /// Updates the item with the given key as [`Self::update`] does, from
    /// the node `id` on, which covers the key.
    pub fn update_in<R, F, Q, I>(&mut self, id: usize, key: Q, action: F) -> (r: R) where
        T: KeyPartialOrd<Q> + Insert<I>,
        F: FnOnce(UpdateEntry<Q, T>) -> (Option<I>, R),

        requires
            old(self).wf(),
            old(self).len < usize::MAX,
            old(self).has(id),
            old(self).covers(id, T::probe_rank(&key)),
            action.requires((old(self).entry_of(key),)),
        ensures
            final(self).wf(),
            exists|item: Option<I>|
                #![trigger action.ensures((old(self).entry_of(key),), (item, r))]
                action.ensures((old(self).entry_of(key),), (item, r)) && final(self)@ == old(self).updated(
                    T::probe_rank(&key),
                    match item {
                        Some(i) => Some(T::allocated(i)),
                        None => None,
                    },
                ) && (item matches Some(i) ==> T::allocated(i).key_rank() == T::probe_rank(&i)),
    {
        let ghost k = T::probe_rank(&key);
        let ghost entry = self.entry_of(key);
        match self.address_in(id, &key) {
            Ok(addr) => {
                proof {
                    assert(self.node_ok(addr.id, None));
                }
                let (item, _) = self.take_at(addr);
                let (new_item, result) = action(UpdateEntry::Occupied(item));
                let ghost chosen = new_item;
                if let Some(i) = new_item {
                    self.insert(T::allocate_item(i));
                }
                proof {
                    assert(action.ensures((entry,), (chosen, result)));
                }
                result
            },
            Err(_) => {
                let (new_item, result) = action(UpdateEntry::Vacant(key));
                let ghost chosen = new_item;
                if let Some(i) = new_item {
                    self.insert(T::allocate_item(i));
                }
                proof {
                    assert(old(self)@.remove(k) =~= old(self)@);
                    assert(action.ensures((entry,), (chosen, result)));
                }
                result
            },
        }
    }

    /// Updates the item at the address, which names an item: the action
    /// takes the item and answers with the item to put in the tree, if
    /// any, and with the value to return.
    pub fn update_at<R, F>(&mut self, addr: Address, action: F) -> (r: R) where
        F: FnOnce(T) -> (Option<T>, R),

        requires
            old(self).wf(),
            old(self).is_item_address(addr),
            action.requires((old(self).item_at(addr),)),
        ensures
            final(self).wf(),
            exists|item: Option<T>|
                #![trigger action.ensures((old(self).item_at(addr),), (item, r))]
                action.ensures((old(self).item_at(addr),), (item, r)) && final(self)@ == old(self).updated(old(self).rank_at(addr), item),
    {
        let ghost first = self.item_at(addr);
        proof {
            assert(self@.dom().len() > 0) by {
                assert(self.node_ok(addr.id, None));
                assert(self@.dom().contains(self.rank_at(addr)));
            }
        }
        let (item, _) = self.take_at(addr);
        let (new_item, result) = action(item);
        let ghost chosen = new_item;
        if let Some(x) = new_item {
            self.insert(x);
        }
        proof {
            assert(action.ensures((first,), (chosen, result)));
        }
        result
    }

    /// The balance of the node `id`.
    pub open spec fn balance_at(&self, id: usize) -> Balance {
        balance_of(self.node_at(id).is_leaf_node(), self.items_at(id).len())
    }

    /// The node `id` underflows and its right sibling has an item to
    /// give: a rotation to the left mends it.
    pub open spec fn takes_from_right(&self, id: usize) -> bool {
        let p = self.node_at(id).parent_id().unwrap();
        let i = self.place(id);
        let sibling = self.kids_at(p)[i + 1];
        &&& self.balance_at(id) is Underflow
        &&& self.node_at(id).parent_id() is Some
        &&& i < self.items_at(p).len()
        &&& self.items_at(sibling).len() > min_capacity_of(self.node_at(sibling).is_leaf_node())
    }

    /// The node `id` underflows, its right sibling has no item to give
    /// and its left sibling has one: a rotation to the right mends it.
    pub open spec fn takes_from_left(&self, id: usize) -> bool {
        let p = self.node_at(id).parent_id().unwrap();
        let i = self.place(id);
        let sibling = self.kids_at(p)[i - 1];
        &&& self.balance_at(id) is Underflow
        &&& self.node_at(id).parent_id() is Some
        &&& !self.takes_from_right(id)
        &&& i > 0
        &&& self.items_at(sibling).len() > min_capacity_of(self.node_at(sibling).is_leaf_node())
    }

    /// The rebalancing of the node `id` ends with its first step: the
    /// node is balanced, or it is the root, or a sibling has an item to
    /// give.
    pub open spec fn settles_at_once(&self, id: usize) -> bool {
        ||| self.balance_at(id) is Balanced
        ||| self.node_at(id).parent_id() is None
        ||| self.takes_from_right(id)
        ||| self.takes_from_left(id)
    }

    /// The node `id` overflows under a parent with room for one item
    /// more: the split of the node is all that its rebalancing does.
    pub open spec fn splits_once(&self, id: usize) -> bool {
        let p = self.node_at(id).parent_id().unwrap();
        &&& self.balance_at(id) is Overflow
        &&& self.node_at(id).parent_id() is Some
        &&& self.items_at(p).len() + 1 < max_capacity_of(false)
    }

    /// The node `id` underflows, no sibling has an item to give, and the
    /// parent can do without an item: the merge of the node with a
    /// sibling is all that its rebalancing does.
    pub open spec fn merges_once(&self, id: usize) -> bool {
        let p = self.node_at(id).parent_id().unwrap();
        &&& self.balance_at(id) is Underflow
        &&& self.node_at(id).parent_id() is Some
        &&& !self.takes_from_right(id)
        &&& !self.takes_from_left(id)
        &&& if self.root == Some(p) {
            self.items_at(p).len() >= 2
        } else {
            self.items_at(p).len() - 1 >= min_capacity_of(false)
        }
    }

    /// `self` is `before` after the split of the overflowing node `id`
    /// under its parent, or after the merge of the underflowing node `id`
    /// with a sibling, and `r` is where what `addr` stood for stands
    /// after a split.
    pub open spec fn one_step_from(&self, before: &Self, id: usize, addr: Address, r: Address) -> bool {
        let p = before.node_at(id).parent_id().unwrap();
        if before.balance_at(id) is Overflow {
            &&& self.split_under(
                before,
                id,
                p,
                self.kids_at(p)[before.place(id) + 1],
                (before.items_at(id).len() - 1) / 2,
            )
            &&& (r.id as int, r.offset.as_int()) == Self::address_after_split(
                addr,
                id,
                p,
                self.kids_at(p)[before.place(id) + 1],
                (before.items_at(id).len() - 1) / 2,
                before.place(id),
            )
        } else {
            self.merged(
                before,
                p,
                if before.place(id) > 0 {
                    before.place(id) - 1
                } else {
                    0
                },
            )
        }
    }

    /// As [`Storage::one_step_from`], to be looked into where it is
    /// needed.
    #[verifier::opaque]
    pub open spec fn stepped_from(&self, before: &Self, id: usize, addr: Address, r: Address) -> bool {
        self.one_step_from(before, id, addr, r)
    }

    /// Rebalance the node with the given id, which may hold one item more
    /// or less than a balanced node, and then the nodes above it as far as
    /// they are then out of balance. The length of the tree need not count
    /// the item that has come or gone: it is left as it is.
    ///
    /// A balanced node is left as it is, and so is a root with an item
    /// that holds fewer than other nodes may. An overflowing root is
    /// split under a new root, an overflowing node under its parent. An
    /// underflowing node takes an item from its right sibling, or else
    /// from its left sibling, through their parent; where neither has one
    /// to give, it is merged with a sibling. A root without an item gives
    /// way to its child. After a split under a parent and after a merge
    /// the parent is rebalanced in turn: [`Storage::split_child`] and
    /// [`Storage::merge`] say what each such step leaves where.
    ///
    /// Returns the address at which what `addr` stood for stands now.
    #[verifier::rlimit(80)]
    pub fn rebalance(&mut self, id: usize, addr: Address) -> (r: Address)
        requires
            old(self).inv(Some(id)),
            old(self).has(id),
            old(self).addressable(addr),
            old(self).is_item_address(addr) || addr.id == id || !old(self).node_at(
                id,
            ).is_leaf_node(),
        ensures
            final(self).inv(None),
            old(self).counted() ==> final(self).wf(),
            final(self).counted() == old(self).counted(),
            final(self)@ == old(self)@,
            final(self).len == old(self).len,
            final(self).addressable(r),
            final(self).target_of(r) == old(self).target_of(addr),
            old(self).is_item_address(addr) ==> final(self).is_item_address(r),
            old(self).balance_at(id) is Balanced ==> *final(self) == *old(self) && r == addr,
            old(self).balance_at(id) is Underflow && old(self).root == Some(id) && old(self).items_at(id).len() > 0 ==> *final(self) == *old(self) && r == addr,
            old(self).balance_at(id) is Overflow && old(self).root == Some(id) ==> {
                &&& final(self).root is Some
                &&& final(self).kids_at(final(self).root.unwrap()).len() == 2
                &&& final(self).split_top(
                    old(self),
                    id,
                    final(self).root.unwrap(),
                    final(self).kids_at(final(self).root.unwrap())[1],
                    (old(self).items_at(id).len() - 1) / 2,
                )
                &&& (r.id as int, r.offset.as_int()) == Self::address_after_split(
                    addr,
                    id,
                    final(self).root.unwrap(),
                    final(self).kids_at(final(self).root.unwrap())[1],
                    (old(self).items_at(id).len() - 1) / 2,
                    0,
                )
            },
            old(self).takes_from_right(id) ==> final(self).rotated_left(
                old(self),
                old(self).node_at(id).parent_id().unwrap(),
                old(self).place(id),
            ),
            old(self).takes_from_left(id) ==> final(self).rotated_right(
                old(self),
                old(self).node_at(id).parent_id().unwrap(),
                old(self).place(id),
            ),
            old(self).splits_once(id) || old(self).merges_once(id) ==> final(self).one_step_from(
                old(self),
                id,
                addr,
                r,
            ),
    {
        let ghost first = addr;
        let ghost id0 = id;
        let ghost mut fresh = true;
        let ghost mut one = false;
        let mut id = id;
        let mut addr = addr;
        let mut balance = self.node(id).unwrap().balance();
        proof {
            assert(self.node_ok(id, Some(id)));
        }
        loop
            invariant_except_break
                self.inv(Some(id)),
                self.has(id),
                self.is_item_address(addr) || addr.id == id || !self.node_at(id).is_leaf_node(),
                balance == balance_of(
                    self.node_at(id).is_leaf_node(),
                    self.items_at(id).len(),
                ),
                fresh ==> *self == *old(self) && id == id0 && addr == first,
                one ==> {
                    &&& !fresh
                    &&& Some(id) == old(self).node_at(id0).parent_id()
                    &&& self.root == old(self).root
                    &&& !(old(self).balance_at(id0) is Balanced)
                    &&& self.items_at(id).len() == old(self).items_at(id).len() + (if old(self).balance_at(id0) is Overflow {
                        1int
                    } else {
                        -1int
                    })
                    &&& self.stepped_from(old(self), id0, first, addr)
                },
            invariant
                self@ == old(self)@,
                self.len == old(self).len,
                self.addressable(addr),
                self.target_of(addr) == old(self).target_of(first),
                old(self).is_item_address(first) ==> self.is_item_address(addr),
                old(self).link_ok(id0),
                old(self).inv(Some(id0)),
                old(self).has(id0),
                !fresh ==> !old(self).settles_at_once(id0),
                !fresh && !one ==> !old(self).splits_once(id0) && !old(self).merges_once(id0),
            ensures
                self.inv(None),
                old(self).balance_at(id0) is Balanced ==> *self == *old(self) && addr == first,
                old(self).balance_at(id0) is Underflow && old(self).root == Some(id0) && old(self).items_at(id0).len() > 0 ==> *self == *old(self) && addr == first,
                old(self).balance_at(id0) is Overflow && old(self).root == Some(id0) ==> {
                    &&& self.root is Some
                    &&& self.kids_at(self.root.unwrap()).len() == 2
                    &&& self.split_top(
                        old(self),
                        id0,
                        self.root.unwrap(),
                        self.kids_at(self.root.unwrap())[1],
                        (old(self).items_at(id0).len() - 1) / 2,
                    )
                    &&& (addr.id as int, addr.offset.as_int()) == Self::address_after_split(
                        first,
                        id0,
                        self.root.unwrap(),
                        self.kids_at(self.root.unwrap())[1],
                        (old(self).items_at(id0).len() - 1) / 2,
                        0,
                    )
                },
                old(self).takes_from_right(id0) ==> self.rotated_left(
                    old(self),
                    old(self).node_at(id0).parent_id().unwrap(),
                    old(self).place(id0),
                ),
                old(self).takes_from_left(id0) ==> self.rotated_right(
                    old(self),
                    old(self).node_at(id0).parent_id().unwrap(),
                    old(self).place(id0),
                ),
                old(self).splits_once(id0) || old(self).merges_once(id0) ==> self.stepped_from(
                    old(self),
                    id0,
                    first,
                    addr,
                ),
            decreases self.height(self.root.unwrap()) - self.height(id),
        {
            let ghost was_fresh = fresh;
            let ghost was_one = one;
            proof {
                assert(self.node_ok(id, Some(id)));
                assert(old(self).node_ok(id0, Some(id0)));
                if old(self).node_at(id0).parent_id() is Some {
                    old(self).lemma_parent(Some(id0), id0);
                    assert(old(self).node_ok(
                        old(self).node_at(id0).parent_id().unwrap(),
                        Some(id0),
                    ));
                }
            }
            match balance {
                Balance::Balanced => {
                    proof {
                        self.lemma_close_hole(id);
                    }
                    break ;
                },
                Balance::Overflow => {
                    let parent = self.node(id).unwrap().parent();
                    match parent {
                        Some(_) => {
                            proof {
                                self.lemma_parent(Some(id), id);
                                self.lemma_top(Some(id), self.root.unwrap());
                            }
                            let (parent_id, new_addr) = self.split_child(id, addr);
                            proof {
                                one = was_fresh;
                                fresh = false;
                                if one {
                                    reveal(Storage::stepped_from);
                                    assert(self.stepped_from(old(self), id0, first, new_addr));
                                }
                            }
                            addr = new_addr;
                            id = parent_id;
                            balance = self.node(parent_id).unwrap().balance();
                            proof {
                                assert(self.node_ok(id, Some(id)));
                            }
                        },
                        None => {
                            addr = self.split_root(id, addr);
                            break ;
                        },
                    }
                },
                Balance::Underflow(is_empty) => {
                    let parent = self.node(id).unwrap().parent();
                    match parent {
                        Some(parent_id) => {
                            proof {
                                self.lemma_parent(Some(id), id);
                                self.lemma_kids(Some(id), parent_id);
                                assert(self.node_ok(parent_id, Some(id)));
                                assert(self.kids_at(parent_id)[self.place(id)] == id);
                            }
                            let index = self.node(parent_id).unwrap().child_index(id).unwrap();
                            proof {
                                assert(self.place(self.kids_at(parent_id)[index as int]) == index);
                                if index > 0 {
                                    self.lemma_siblings(Some(id), parent_id, index - 1);
                                }
                                if index < self.items_at(parent_id).len() {
                                    self.lemma_siblings(Some(id), parent_id, index as int);
                                }
                            }
                            // An underflow append in the child node.
                            // First we try to rebalance the tree by rotation.
                            if self.try_rotate_left(parent_id, index, &mut addr) {
                                break ;
                            }
                            if self.try_rotate_right(parent_id, index, &mut addr) {
                                break ;
                            }
                            // Rotation didn't work.
                            // This means that all existing child sibling have enough few elements to be merged with this child.
                            let (new_balance, new_addr) = self.merge(parent_id, index, addr);
                            proof {
                                one = was_fresh;
                                if one {
                                    reveal(Storage::stepped_from);
                                    assert(self.stepped_from(old(self), id0, first, new_addr));
                                }
                            }
                            balance = new_balance;
                            addr = new_addr;
                            // The `merge` function returns the current balance of the parent node,
                            // since it may underflow after the merging operation.
                            id = parent_id;
                            proof {
                                assert(self.node_ok(id, Some(id)));
                                fresh = false;
                            }
                        },
                        None => {
                            // if root is empty.
                            if is_empty {
                                addr = self.collapse_root(id, addr);
                            } else {
                                proof {
                                    self.lemma_close_hole(id);
                                }
                            }
                            break ;
                        },
                    }
                },
            }
        }
        proof {
            reveal(Storage::stepped_from);
        }
        addr
    }
}

} // verus!
