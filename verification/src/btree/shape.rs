//! The invariant of the tree.
use vstd::prelude::*;
use vstd::multiset::Multiset;
use super::content::{index_of, sum_items};
use super::node::item::{rank_within, ranks_increasing, ranks_within};
use super::node::{max_capacity_of, min_capacity_of};
use super::KeyOrd;
use crate::slab::{Arena, Storage};
use crate::btree::node::Reference;

verus! {

impl<T: KeyOrd, A: Arena<Reference<T>>> Storage<T, A> {
    /// Height of the node above the leaves.
    pub open spec fn height(&self, id: usize) -> nat {
        self.heights@[id]
    }

    /// Index of the node among the children of its parent.
    pub open spec fn place(&self, id: usize) -> int {
        self.places@[id]
    }

    /// The rank below those of all the items under the node, if any.
    pub open spec fn low(&self, id: usize) -> Option<int> {
        self.lows@[id]
    }

    /// The rank above those of all the items under the node, if any.
    pub open spec fn high(&self, id: usize) -> Option<int> {
        self.highs@[id]
    }

    /// All the items of the tree, each as often as the nodes hold it.
    pub open spec fn content(&self) -> Multiset<T> {
        sum_items(*self, self.ids@)
    }

    /// The items of the tree by their rank.
    pub open spec fn view(&self) -> Map<int, T> {
        index_of(self.content())
    }

    /// The node is the root and has no parent, or it stands among the
    /// children of its parent at its place.
    pub open spec fn link_ok(&self, id: usize) -> bool {
        if self.root == Some(id) {
            self.node_at(id).parent_id().is_none()
        } else {
            match self.node_at(id).parent_id() {
                Some(p) => {
                    &&& self.has(p)
                    &&& !self.node_at(p).is_leaf_node()
                    &&& 0 <= self.place(id) < self.kids_at(p).len()
                    &&& self.kids_at(p)[self.place(id)] == id
                },
                None => false,
            }
        }
    }

    /// The node neither overflows nor underflows, the root being free to
    /// hold as little as one item. The node named by `hole` may hold one
    /// item more or less than that.
    pub open spec fn balance_ok(&self, id: usize, hole: Option<usize>) -> bool {
        let n = self.items_at(id).len();
        let leaf = self.node_at(id).is_leaf_node();
        if hole == Some(id) {
            &&& n <= max_capacity_of(leaf)
            &&& self.root != Some(id) ==> n + 1 >= min_capacity_of(leaf)
        } else {
            &&& n < max_capacity_of(leaf)
            &&& if self.root == Some(id) {
                n >= 1
            } else {
                n >= min_capacity_of(leaf)
            }
        }
    }

    /// The ranks of the items of the node grow from left to right, between
    /// the two bounds of the node.
    pub open spec fn order_ok(&self, id: usize) -> bool {
        &&& ranks_increasing(self.items_at(id))
        &&& ranks_within(self.items_at(id), self.low(id), self.high(id))
    }

    /// The lower bound of the child with the given index: the rank of the
    /// item on its left, or the lower bound of the node.
    pub open spec fn kid_low(&self, id: usize, i: int) -> Option<int> {
        if i == 0 {
            self.low(id)
        } else {
            Some(self.items_at(id)[i - 1].key_rank())
        }
    }

    /// The upper bound of the child with the given index: the rank of the
    /// item on its right, or the upper bound of the node.
    pub open spec fn kid_high(&self, id: usize, i: int) -> Option<int> {
        if i == self.items_at(id).len() {
            self.high(id)
        } else {
            Some(self.items_at(id)[i].key_rank())
        }
    }

    /// The child with the given index is a node one level below, which
    /// names this node as its parent and that index as its place, between
    /// the ranks of the items around it.
    pub open spec fn kid_ok(&self, id: usize, i: int) -> bool {
        let c = self.kids_at(id)[i];
        &&& self.has(c)
        &&& self.node_at(c).parent_id() == Some(id)
        &&& self.place(c) == i
        &&& self.height(c) + 1 == self.height(id)
        &&& self.low(c) == self.kid_low(id, i)
        &&& self.high(c) == self.kid_high(id, i)
    }

    /// A leaf has height `0`; an internal node has one child more than it
    /// has items, each of them in order.
    pub open spec fn kids_ok(&self, id: usize) -> bool {
        if self.node_at(id).is_leaf_node() {
            self.height(id) == 0
        } else {
            &&& self.height(id) >= 1
            &&& self.kids_at(id).len() == self.items_at(id).len() + 1
            &&& forall|i: int| 0 <= i <= self.items_at(id).len() ==> #[trigger] self.kid_ok(id, i)
        }
    }

    /// The tree holds every item of the node under its rank.
    pub open spec fn indexed_ok(&self, id: usize) -> bool {
        forall|i: int|
            0 <= i < self.items_at(id).len() ==> self@.dom().contains(
                (#[trigger] self.items_at(id)[i]).key_rank(),
            ) && self@[self.items_at(id)[i].key_rank()] == self.items_at(id)[i]
    }

    /// All that the invariant asks of one node.
    pub open spec fn node_ok(&self, id: usize, hole: Option<usize>) -> bool {
        &&& self.link_ok(id)
        &&& self.balance_ok(id, hole)
        &&& self.order_ok(id)
        &&& self.kids_ok(id)
        &&& self.indexed_ok(id)
        &&& self.root is Some
        &&& self.height(id) <= self.height(self.root.unwrap())
    }

    /// The invariant of the tree, but for its length and for the balance
    /// of the node named by `hole`, which may hold one item more or less
    /// than a balanced node.
    pub open spec fn inv(&self, hole: Option<usize>) -> bool {
        &&& self.nodes.wf()
        &&& !self.has(usize::MAX)
        &&& match self.root {
            Some(r) => self.has(r) && self.low(r).is_none() && self.high(r).is_none(),
            None => forall|id: usize| !#[trigger] self.has(id),
        }
        &&& self.ids@.no_duplicates()
        &&& forall|id: usize| self.has(id) <==> #[trigger] self.ids@.contains(id)
        &&& self@.dom().finite()
        &&& self@.dom().len() == self.content().len()
        &&& forall|id: usize| self.has(id) ==> #[trigger] self.node_ok(id, hole)
    }

    /// The invariant of the tree.
    ///
    /// The tree is empty and has no node, or its nodes hang under the root
    /// by parent and child links that agree; all leaves are at one depth;
    /// every node but the root is balanced; the items of every node are in
    /// growing order of rank, between the items of the ancestors around
    /// them; and the length is the number of items in the nodes.
    pub open spec fn wf(&self) -> bool {
        self.inv(None) && self.counted()
    }

    /// The length is the number of items in the nodes.
    pub open spec fn counted(&self) -> bool {
        self.len == self.content().len()
    }

    /// `rank` lies between the two bounds of the node.
    pub open spec fn covers(&self, id: usize, rank: int) -> bool {
        rank_within(rank, self.low(id), self.high(id))
    }

    /// The address names an item of the tree.
    pub open spec fn is_item_address(&self, addr: super::node::Address) -> bool {
        &&& self.has(addr.id)
        &&& 0 <= addr.offset.as_int() < self.items_at(addr.id).len()
    }

    /// The address names an item of the tree, or the place after the last
    /// item of a node.
    pub open spec fn is_back_address(&self, addr: super::node::Address) -> bool {
        &&& self.has(addr.id)
        &&& 0 <= addr.offset.as_int() <= self.items_at(addr.id).len()
    }

    /// The item at an item address.
    pub open spec fn item_at(&self, addr: super::node::Address) -> T {
        self.items_at(addr.id)[addr.offset.as_int()]
    }

    /// The rank of the item at an item address.
    pub open spec fn rank_at(&self, addr: super::node::Address) -> int {
        self.item_at(addr).key_rank()
    }
}

} // verus!
