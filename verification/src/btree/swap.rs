//! The exchange of an item of an internal node for the item before it in
//! the order of the tree.
use vstd::prelude::*;
use super::content::lemma_index_entry;
use super::node::item::rank_within;
use super::node::{Address, Offset};
use super::nodes::lemma_update_multiset;
use super::KeyOrd;
use crate::slab::{Arena, Storage};
use crate::btree::node::Reference;

verus! {

/// A bound that was the rank `from` is the rank `to`.
pub open spec fn moved_bound(bound: Option<int>, from: int, to: int) -> Option<int> {
    if bound == Some(from) {
        Some(to)
    } else {
        bound
    }
}

impl<T: KeyOrd, A: Arena<Reference<T>>> Storage<T, A> {
    /// What it asks to put the item `x` in the place of the item `j` of the
    /// internal node `a`: the tree does not hold the rank of `x`, which
    /// lies below that of the item and above all the ranks of the tree
    /// below that.
    pub open spec fn can_swap(&self, hole: Option<usize>, a: usize, j: int, x: T) -> bool {
        let k = self.items_at(a)[j].key_rank();
        &&& self.inv(hole)
        &&& self.has(a)
        &&& !self.node_at(a).is_leaf_node()
        &&& 0 <= j < self.items_at(a).len()
        &&& x.key_rank() < k
        &&& !self@.dom().contains(x.key_rank())
        &&& forall|q: int| #[trigger] self@.dom().contains(q) && q < k ==> q < x.key_rank()
    }

    /// `self` is `before` with the item `x` in the place of the item `j`
    /// of the internal node `a`, and with the rank of `x` in the place of
    /// the rank of that item as the bound of the nodes on its two sides.
    pub open spec fn swapped(&self, before: &Self, a: usize, j: int, x: T) -> bool {
        let k = before.items_at(a)[j].key_rank();
        &&& self.swapped_nodes(before, a, j, x)
        &&& self@ == before@.remove(k).insert(x.key_rank(), x)
    }

    /// `self` is `before` with the item `x` in the place of the item `j`
    /// of the internal node `a`, and with the bounds that follow.
    pub open spec fn swapped_nodes(&self, before: &Self, a: usize, j: int, x: T) -> bool {
        let k = before.items_at(a)[j].key_rank();
        &&& self.nodes.wf()
        &&& self.root == before.root
        &&& self.len == before.len
        &&& self.ids == before.ids
        &&& self.heights == before.heights
        &&& self.places == before.places
        &&& forall|n: usize| (#[trigger] self.has(n)) == before.has(n)
        &&& forall|n: usize|
            n != a && before.has(n) ==> #[trigger] self.node_at(n) == before.node_at(n)
        &&& self.node_at(a).is_leaf_node() == before.node_at(a).is_leaf_node()
        &&& self.node_at(a).parent_id() == before.node_at(a).parent_id()
        &&& self.items_at(a) == before.items_at(a).update(j, x)
        &&& self.kids_at(a) == before.kids_at(a)
        &&& forall|n: usize| #[trigger] self.lows@[n] == moved_bound(before.low(n), k, x.key_rank())
        &&& forall|n: usize|
            #[trigger] self.highs@[n] == moved_bound(before.high(n), k, x.key_rank())
    }

    /// The bounds of the nodes with the rank `to` in the place of the rank
    /// `from`.
    pub open spec fn moved_bounds(bounds: Map<usize, Option<int>>, from: int, to: int) -> Map<
        usize,
        Option<int>,
    > {
        Map::new(|n: usize| true, |n: usize| moved_bound(bounds[n], from, to))
    }

    /// After an item has taken the place of another, all is well with
    /// every node as far as it was before.
    pub proof fn lemma_swapped_node(
        &self,
        before: &Self,
        hole: Option<usize>,
        a: usize,
        j: int,
        x: T,
        n: usize,
    )
        requires
            before.can_swap(hole, a, j, x),
            self.swapped(before, a, j, x),
            self.has(n),
        ensures
            self.node_ok(n, hole),
    {
        let k = before.items_at(a)[j].key_rank();
        let rx = x.key_rank();
        let items = before.items_at(n);
        assert(self.has(n) == before.has(n));
        assert(before.node_ok(n, hole));
        assert(before.node_ok(a, hole));
        before.lemma_bounds_indexed(hole, n);
        if n != a {
            assert(self.node_at(n) == before.node_at(n));
        }
        if before.root != Some(n) {
            before.lemma_parent(hole, n);
            let q = before.node_at(n).parent_id().unwrap();
            assert(self.has(q) == before.has(q));
            if q != a {
                assert(self.node_at(q) == before.node_at(q));
            }
        }
        assert(self.link_ok(n));
        assert(self.balance_ok(n, hole));
        // no other item of the tree has the rank that leaves
        assert forall|t: int| 0 <= t < items.len() && (n != a || t != j) implies (
        #[trigger] items[t]).key_rank() != k by {
            if items[t].key_rank() == k {
                before.lemma_one_address(
                    hole,
                    Address { id: n, offset: Offset(t as usize) },
                    Address { id: a, offset: Offset(j as usize) },
                );
            }
        }
        assert forall|t: int| 0 <= t < items.len() implies before@.dom().contains(
            (#[trigger] items[t]).key_rank(),
        ) && before.covers(n, items[t].key_rank()) by {}
        assert(self.order_ok(n)) by {
            let now = self.items_at(n);
            assert forall|t: int| 0 <= t < now.len() implies rank_within(
                (#[trigger] now[t]).key_rank(),
                self.low(n),
                self.high(n),
            ) by {
                if n == a && t == j {
                } else {
                    assert(now[t] == items[t]);
                    assert(before.covers(n, items[t].key_rank()));
                }
            }
            assert forall|t: int, u: int| 0 <= t < u < now.len() implies (
            #[trigger] now[t]).key_rank() < (#[trigger] now[u]).key_rank() by {
                assert(items[t].key_rank() < items[u].key_rank());
                if n == a && (t == j || u == j) {
                    assert(before@.dom().contains(items[t].key_rank()));
                    assert(before@.dom().contains(items[u].key_rank()));
                }
            }
        }
        assert(self.indexed_ok(n)) by {
            let now = self.items_at(n);
            assert forall|t: int| 0 <= t < now.len() implies self@.dom().contains(
                (#[trigger] now[t]).key_rank(),
            ) && self@[now[t].key_rank()] == now[t] by {
                if n == a && t == j {
                } else {
                    assert(now[t] == items[t]);
                    assert(before@.dom().contains(items[t].key_rank()));
                }
            }
        }
        if !self.node_at(n).is_leaf_node() {
            assert forall|t: int| 0 <= t <= self.items_at(n).len() implies #[trigger] self.kid_ok(
                n,
                t,
            ) by {
                let c = before.kids_at(n)[t];
                assert(before.kid_ok(n, t));
                assert(self.has(c) == before.has(c));
                if c != a {
                    assert(self.node_at(c) == before.node_at(c));
                }
                assert(before.covers(a, k));
                if t > 0 {
                    assert(before.covers(n, items[t - 1].key_rank()));
                }
                if t < items.len() {
                    assert(before.covers(n, items[t].key_rank()));
                }
            }
        }
        assert(self.kids_ok(n));
    }

    /// After an item has taken the place of another, the invariant holds
    /// as far as it held before.
    pub proof fn lemma_swapped(&self, before: &Self, hole: Option<usize>, a: usize, j: int, x: T)
        requires
            before.can_swap(hole, a, j, x),
            self.swapped_nodes(before, a, j, x),
        ensures
            self.inv(hole),
            self.swapped(before, a, j, x),
    {
        let k = before.items_at(a)[j].key_rank();
        let gone = before.items_at(a)[j];
        let rx = x.key_rank();
        let target = before@.remove(k).insert(rx, x);
        assert(before.node_ok(a, hole));
        assert(before@.dom().contains(k));
        assert(before@[k] == gone);
        assert(before.ids@.contains(a));
        assert forall|n: usize| n != a && before.ids@.contains(n) implies #[trigger] self.items_at(
            n,
        ) == before.items_at(n) by {
            assert(before.has(n));
            assert(self.node_at(n) == before.node_at(n));
        }
        self.lemma_content_update(before, a);
        lemma_update_multiset(before.items_at(a), j, x);
        assert forall|v: T| self.content().insert(gone).count(v) == before.content().insert(
            x,
        ).count(v) by {
            assert(self.items_at(a).to_multiset().insert(gone).count(v) == before.items_at(
                a,
            ).to_multiset().insert(x).count(v));
        }
        assert(self.content().len() == before.content().len()) by {
            assert(self.content().insert(gone) =~= before.content().insert(x));
            assert(self.content().insert(gone).len() == self.content().len() + 1);
            assert(before.content().insert(x).len() == before.content().len() + 1);
        }
        assert forall|r: int| #[trigger] target.dom().contains(r) implies self.content().count(
            target[r],
        ) > 0 && target[r].key_rank() == r by {
            if r == rx {
                assert(self.content().insert(gone).count(x) == before.content().insert(x).count(
                    x,
                ));
            } else {
                assert(before@.dom().contains(r));
                lemma_index_entry(before.content(), r);
                let y = before@[r];
                assert(self.content().insert(gone).count(y) == before.content().insert(x).count(
                    y,
                ));
            }
        }
        assert forall|n: usize| self.has(n) <==> #[trigger] self.ids@.contains(n) by {
            assert(self.has(n) == before.has(n));
        }
        assert forall|n: usize, t: int|
            self.has(n) && 0 <= t < self.items_at(n).len() implies target.dom().contains(
            (#[trigger] self.items_at(n)[t]).key_rank(),
        ) && target[self.items_at(n)[t].key_rank()] == self.items_at(n)[t] by {
            assert(self.has(n) == before.has(n));
            assert(before.node_ok(n, hole));
            if n != a {
                assert(self.node_at(n) == before.node_at(n));
            }
            if n == a && t == j {
            } else {
                let y = before.items_at(n)[t];
                assert(self.items_at(n)[t] == y);
                assert(before@.dom().contains(y.key_rank()));
                if y.key_rank() == k {
                    before.lemma_one_address(
                        hole,
                        Address { id: n, offset: Offset(t as usize) },
                        Address { id: a, offset: Offset(j as usize) },
                    );
                }
            }
        }
        self.lemma_view_is(target);
        assert(self@.dom() =~= before@.dom().remove(k).insert(rx));
        assert(self@.dom().len() == before@.dom().len());
        match self.root {
            Some(r) => {
                assert(self.has(r) == before.has(r));
            },
            None => {
                assert forall|n: usize| !#[trigger] self.has(n) by {
                    assert(self.has(n) == before.has(n));
                }
            },
        }
        assert forall|n: usize| self.has(n) implies #[trigger] self.node_ok(n, hole) by {
            self.lemma_swapped_node(before, hole, a, j, x, n);
        }
    }

    /// Puts the item in the place of the item at the address, which
    /// stands in an internal node, and returns the item that was there.
    ///
    /// The new item has a smaller key than the old one, and a greater key
    /// than every item of the tree with a smaller key than the old one.
    pub(crate) fn swap_separator(&mut self, addr: Address, item: T, Ghost(hole): Ghost<Option<usize>>) -> (previous:
        T)
        requires
            old(self).is_item_address(addr),
            old(self).can_swap(hole, addr.id, addr.offset.as_int(), item),
        ensures
            final(self).inv(hole),
            previous == old(self).item_at(addr),
            final(self)@ == old(self)@.remove(previous.key_rank()).insert(item.key_rank(), item),
            final(self).len == old(self).len,
            final(self).root == old(self).root,
            forall|n: usize| (#[trigger] final(self).has(n)) == old(self).has(n),
            forall|n: usize|
                n != addr.id && old(self).has(n) ==> #[trigger] final(self).node_at(n) == old(
                    self,
                ).node_at(n),
            final(self).heights == old(self).heights,
    {
        let ghost before = *self;
        let ghost k = self.rank_at(addr);
        let ghost rx = item.key_rank();
        proof {
            assert(before.node_ok(addr.id, hole));
        }
        let node = self.node_mut(addr.id);
        let previous = node.replace(addr.offset, item);
        proof {
            let mid = *self;
            self.lows = Ghost(Self::moved_bounds(before.lows@, k, rx));
            self.highs = Ghost(Self::moved_bounds(before.highs@, k, rx));
            assert(self.nodes == mid.nodes);
            assert forall|n: usize| (#[trigger] self.has(n)) == before.has(n) by {
                assert(mid.has(n) == before.has(n));
            }
            assert forall|n: usize| n != addr.id && before.has(n) implies #[trigger] self.node_at(
                n,
            ) == before.node_at(n) by {
                assert(mid.node_at(n) == before.node_at(n));
            }
            self.lemma_swapped(&before, hole, addr.id, addr.offset.as_int(), item);
        }
        previous
    }
}

} // verus!
