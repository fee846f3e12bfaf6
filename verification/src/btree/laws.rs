//! What holds of every tree, and of the operations on trees.
use vstd::prelude::*;
use super::content::{lemma_sum_len, sum_counts};
use super::node::{max_capacity_of, min_capacity_of, Address};
use super::KeyOrd;
use crate::slab::{Arena, Storage};
use crate::btree::node::Reference;

verus! {

impl<T: KeyOrd, A: Arena<Reference<T>>> Storage<T, A> {
    /// The number of steps from the node up to the root.
    pub open spec fn depth(&self, id: usize) -> nat
        decreases self.height(self.root.unwrap()) - self.height(id),
    {
        match self.node_at(id).parent_id() {
            Some(p) => if self.height(id) < self.height(p) <= self.height(self.root.unwrap()) {
                self.depth(p) + 1
            } else {
                0
            },
            None => 0,
        }
    }

    /// The depth of a node and its height make the height of the root.
    pub proof fn lemma_depth(&self, id: usize)
        requires
            self.wf(),
            self.has(id),
        ensures
            self.depth(id) + self.height(id) == self.height(self.root.unwrap()),
        decreases self.height(self.root.unwrap()) - self.height(id),
    {
        assert(self.node_ok(id, None));
        if self.root != Some(id) {
            self.lemma_parent(None, id);
            let p = self.node_at(id).parent_id().unwrap();
            assert(self.node_ok(p, None));
            self.lemma_depth(p);
        }
    }

    /// All the leaves of a tree are at the same depth.
    pub proof fn lemma_leaves_at_one_depth(&self, a: usize, b: usize)
        requires
            self.wf(),
            self.has(a),
            self.has(b),
            self.node_at(a).is_leaf_node(),
            self.node_at(b).is_leaf_node(),
        ensures
            self.depth(a) == self.depth(b),
    {
        assert(self.node_ok(a, None));
        assert(self.node_ok(b, None));
        self.lemma_depth(a);
        self.lemma_depth(b);
    }

    /// Where the address stands in the node `n`, which it names or under
    /// which its node stands: at an item of the node, or under one of its
    /// children. The places of a node are numbered from left to right,
    /// its children with the even and its items with the odd numbers.
    pub open spec fn place_in(&self, addr: Address, n: usize) -> int {
        if addr.id == n {
            2 * addr.offset.as_int() + 1
        } else {
            2 * self.place(self.ancestor(addr.id, (self.height(n) - 1) as nat))
        }
    }

    /// The first address comes before the second in the order of the
    /// tree: the two stand in or under one node, the first more to the
    /// left.
    pub open spec fn comes_before(&self, a: Address, b: Address) -> bool {
        exists|n: usize| #[trigger]
            self.has(n) && self.height(a.id) <= self.height(n) && self.height(b.id) <= self.height(
                n,
            ) && self.ancestor(a.id, self.height(n)) == n && self.ancestor(b.id, self.height(n))
                == n && self.place_in(a, n) < self.place_in(b, n)
    }

    /// The rank of what stands at a place of a node lies between the ranks
    /// of the items around that place.
    pub proof fn lemma_place_rank(&self, addr: Address, n: usize)
        requires
            self.wf(),
            self.is_item_address(addr),
            self.has(n),
            self.height(addr.id) <= self.height(n),
            self.ancestor(addr.id, self.height(n)) == n,
        ensures
            0 <= self.place_in(addr, n) <= 2 * self.items_at(n).len(),
            forall|i: int|
                0 <= i < self.items_at(n).len() && 2 * i + 1 < self.place_in(addr, n) ==> (
                #[trigger] self.items_at(n)[i]).key_rank() < self.rank_at(addr),
            forall|i: int|
                0 <= i < self.items_at(n).len() && 2 * i + 1 > self.place_in(addr, n)
                    ==> self.rank_at(addr) < (#[trigger] self.items_at(n)[i]).key_rank(),
            forall|i: int|
                0 <= i < self.items_at(n).len() && 2 * i + 1 == self.place_in(addr, n)
                    ==> self.rank_at(addr) == (#[trigger] self.items_at(n)[i]).key_rank(),
    {
        let k = self.rank_at(addr);
        let items = self.items_at(n);
        assert(self.node_ok(n, None));
        assert(self.node_ok(addr.id, None));
        self.lemma_top(None, self.root.unwrap());
        if addr.id == n {
            let o = addr.offset.as_int();
            assert forall|i: int| 0 <= i < items.len() && i < o implies (
            #[trigger] items[i]).key_rank() < k by {}
            assert forall|i: int| 0 <= i < items.len() && i > o implies k < (
            #[trigger] items[i]).key_rank() by {}
        } else {
            let h = self.height(n);
            self.lemma_ancestor(None, addr.id, h);
            assert(self.height(addr.id) < h);
            let c = self.ancestor(addr.id, (h - 1) as nat);
            self.lemma_ancestor(None, addr.id, (h - 1) as nat);
            assert(self.covers(addr.id, k));
            self.lemma_ancestor_covers(None, addr.id, (h - 1) as nat, k);
            self.lemma_parent(None, c);
            let t = self.place(c);
            self.lemma_kid_covers(None, n, t, k);
            assert forall|i: int| 0 <= i < items.len() && i < t implies (
            #[trigger] items[i]).key_rank() < k by {
                if i < t - 1 {
                    assert(items[i].key_rank() < items[t - 1].key_rank());
                }
            }
            assert forall|i: int| 0 <= i < items.len() && i >= t implies k < (
            #[trigger] items[i]).key_rank() by {
                if i > t {
                    assert(items[t].key_rank() < items[i].key_rank());
                }
            }
        }
    }

    /// The items of a tree stand in the order of their keys: of two item
    /// addresses, the one that comes first in the order of the tree has
    /// the item of smaller rank.
    pub proof fn lemma_items_in_order(&self, a: Address, b: Address)
        requires
            self.wf(),
            self.is_item_address(a),
            self.is_item_address(b),
            self.comes_before(a, b),
        ensures
            self.rank_at(a) < self.rank_at(b),
    {
        let n = choose|n: usize| #[trigger]
            self.has(n) && self.height(a.id) <= self.height(n) && self.height(b.id) <= self.height(
                n,
            ) && self.ancestor(a.id, self.height(n)) == n && self.ancestor(b.id, self.height(n))
                == n && self.place_in(a, n) < self.place_in(b, n);
        self.lemma_place_rank(a, n);
        self.lemma_place_rank(b, n);
        let pa = self.place_in(a, n);
        let pb = self.place_in(b, n);
        let items = self.items_at(n);
        // an item of the node stands between the two, or is one of them
        let i = pa / 2;
        assert(0 <= i < items.len());
        if pa % 2 == 1 {
            assert(2 * i + 1 == pa);
            assert(self.rank_at(a) == items[i].key_rank());
            assert(2 * i + 1 < pb);
        } else {
            assert(2 * i + 1 > pa);
            assert(self.rank_at(a) < items[i].key_rank());
            if 2 * i + 1 < pb {
            } else {
                assert(2 * i + 1 == pb);
            }
        }
    }

    /// Under a node there are at least as many ranks as the node is high,
    /// and one more: the ranks of the first items of the nodes on the way
    /// down to its first leaf.
    pub proof fn lemma_ranks_under(&self, id: usize) -> (ranks: Set<int>)
        requires
            self.wf(),
            self.has(id),
        ensures
            ranks.finite(),
            ranks.len() == self.height(id) + 1,
            forall|r: int| ranks.contains(r) ==> self@.dom().contains(r) && self.covers(id, r),
        decreases self.height(id),
    {
        assert(self.node_ok(id, None));
        let first = self.items_at(id)[0].key_rank();
        assert(self.covers(id, first));
        if self.node_at(id).is_leaf_node() {
            Set::empty().insert(first)
        } else {
            assert(self.kid_ok(id, 0));
            let c = self.kids_at(id)[0];
            let under = self.lemma_ranks_under(c);
            assert forall|r: int| under.contains(r) implies self.covers(id, r) && r != first by {
                self.lemma_kid_covers(None, id, 0, r);
            }
            under.insert(first)
        }
    }

    /// A tree is less high than it is long.
    pub proof fn lemma_height(&self)
        requires
            self.wf(),
            self.root is Some,
        ensures
            self.height(self.root.unwrap()) < self.len,
    {
        let ranks = self.lemma_ranks_under(self.root.unwrap());
        assert(ranks.subset_of(self@.dom()));
        vstd::set_lib::lemma_len_subset(ranks, self@.dom());
    }

    /// Every node of a tree but its root is balanced: it holds no fewer
    /// items than the least and fewer than the greatest number for its
    /// kind.
    pub proof fn lemma_balanced(&self, id: usize)
        requires
            self.wf(),
            self.has(id),
            self.root != Some(id),
        ensures
            min_capacity_of(self.node_at(id).is_leaf_node()) <= self.items_at(id).len()
                <= max_capacity_of(self.node_at(id).is_leaf_node()) - 1,
    {
        assert(self.node_ok(id, None));
    }

    /// Every child of a node of a tree is a node of the tree that names
    /// the node as its parent.
    pub proof fn lemma_parent_linkage(&self, p: usize, i: int)
        requires
            self.wf(),
            self.has(p),
            !self.node_at(p).is_leaf_node(),
            0 <= i < self.kids_at(p).len(),
        ensures
            self.has(self.kids_at(p)[i]),
            self.node_at(self.kids_at(p)[i]).parent_id() == Some(p),
    {
        assert(self.node_ok(p, None));
        assert(self.kid_ok(p, i));
    }

    /// The length of a tree is the number of items in its nodes, which
    /// `ids` lists each once.
    pub proof fn lemma_length(&self)
        requires
            self.wf(),
        ensures
            self.len == sum_counts(*self, self.ids@),
            self.ids@.no_duplicates(),
            forall|id: usize| self.has(id) <==> #[trigger] self.ids@.contains(id),
            self.len == self@.dom().len(),
    {
        lemma_sum_len(*self, self.ids@);
    }

    /// What a lookup of the rank answers: the item of the tree with that
    /// rank, if there is one.
    pub open spec fn lookup(&self, rank: int) -> Option<T> {
        if self@.dom().contains(rank) {
            Some(self@[rank])
        } else {
            None
        }
    }

    /// A lookup answers the same in trees with the same items: what no
    /// function changes that takes the tree by a shared reference.
    pub proof fn lemma_lookup_again(&self, other: &Self, rank: int)
        requires
            self@ == other@,
        ensures
            self.lookup(rank) == other.lookup(rank),
    {
    }
}

/// A tree into which an item was inserted whose key it did not have, and
/// from which the item of that key was then removed, holds the items that
/// it held; and the item removed is the item inserted.
pub proof fn lemma_insert_then_remove<T: KeyOrd>(items: Map<int, T>, item: T)
    requires
        !items.dom().contains(item.key_rank()),
    ensures
        items.insert(item.key_rank(), item).dom().contains(item.key_rank()),
        items.insert(item.key_rank(), item)[item.key_rank()] == item,
        items.insert(item.key_rank(), item).remove(item.key_rank()) == items,
{
    assert(items.insert(item.key_rank(), item).remove(item.key_rank()) =~= items);
}

/// A tree into which two items with one key were inserted, one after the
/// other, is as long after the second insertion as after the first; and
/// the second displaces the first.
pub proof fn lemma_insert_twice<T: KeyOrd>(items: Map<int, T>, first: T, second: T)
    requires
        items.dom().finite(),
        first.key_rank() == second.key_rank(),
    ensures
        items.insert(first.key_rank(), first).dom().contains(second.key_rank()),
        items.insert(first.key_rank(), first)[second.key_rank()] == first,
        items.insert(first.key_rank(), first).insert(second.key_rank(), second).dom().len()
            == items.insert(first.key_rank(), first).dom().len(),
{
    let once = items.insert(first.key_rank(), first);
    assert(once.insert(second.key_rank(), second).dom() =~= once.dom());
}

} // verus!
