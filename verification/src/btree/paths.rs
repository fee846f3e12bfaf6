//! The way from a node up to the root, and what follows from it: that a
//! search finds an item where the tree has one, and which ranks are next to
//! each other.
use vstd::prelude::*;
use super::content::lemma_sum_contains;
use super::node::Address;
use super::KeyOrd;
use crate::slab::{Arena, Storage};
use crate::btree::node::Reference;

verus! {

impl<T: KeyOrd, A: Arena<Reference<T>>> Storage<T, A> {
    /// The node at height `h` on the way from the node up to the root, or
    /// the node itself if it stands higher.
    pub open spec fn ancestor(&self, id: usize, h: nat) -> usize
        decreases h - self.height(id),
    {
        if self.height(id) < h {
            match self.node_at(id).parent_id() {
                Some(p) => if self.height(p) == self.height(id) + 1 {
                    self.ancestor(p, h)
                } else {
                    id
                },
                None => id,
            }
        } else {
            id
        }
    }

    /// The parent of a node that is not the root is a node one level up,
    /// which lists it at its place.
    pub proof fn lemma_parent(&self, hole: Option<usize>, id: usize)
        requires
            self.inv(hole),
            self.has(id),
            self.root != Some(id),
        ensures
            self.node_at(id).parent_id() is Some,
            self.has(self.node_at(id).parent_id().unwrap()),
            !self.node_at(self.node_at(id).parent_id().unwrap()).is_leaf_node(),
            self.kid_ok(self.node_at(id).parent_id().unwrap(), self.place(id)),
            self.kids_at(self.node_at(id).parent_id().unwrap())[self.place(id)] == id,
            0 <= self.place(id) <= self.items_at(self.node_at(id).parent_id().unwrap()).len(),
            self.height(self.node_at(id).parent_id().unwrap()) == self.height(id) + 1,
            self.height(id) < self.height(self.root.unwrap()),
    {
        assert(self.node_ok(id, hole));
        let p = self.node_at(id).parent_id().unwrap();
        assert(self.node_ok(p, hole));
        assert(self.kid_ok(p, self.place(id)));
    }

    /// The root alone is as high as the root.
    pub proof fn lemma_top(&self, hole: Option<usize>, id: usize)
        requires
            self.inv(hole),
            self.has(id),
            self.height(id) >= self.height(self.root.unwrap()),
        ensures
            self.root == Some(id),
    {
        if self.root != Some(id) {
            self.lemma_parent(hole, id);
        }
    }

    /// The ancestor of a node at a height between its own and that of the
    /// root is a node of that height, and the parent of the ancestor one
    /// level below.
    pub proof fn lemma_ancestor(&self, hole: Option<usize>, id: usize, h: nat)
        requires
            self.inv(hole),
            self.has(id),
            self.height(id) <= h <= self.height(self.root.unwrap()),
        ensures
            self.has(self.ancestor(id, h)),
            self.height(self.ancestor(id, h)) == h,
            self.height(id) < h ==> self.node_at(self.ancestor(id, (h - 1) as nat)).parent_id()
                == Some(self.ancestor(id, h)),
            self.height(id) == h ==> self.ancestor(id, h) == id,
        decreases h - self.height(id),
    {
        if self.height(id) < h {
            if self.root == Some(id) {
            } else {
                self.lemma_parent(hole, id);
                let p = self.node_at(id).parent_id().unwrap();
                self.lemma_ancestor(hole, p, h);
                if self.height(id) < h - 1 {
                    self.lemma_ancestor(hole, p, (h - 1) as nat);
                }
            }
        }
    }

    /// What a node covers, its ancestors cover.
    pub proof fn lemma_ancestor_covers(&self, hole: Option<usize>, id: usize, h: nat, rank: int)
        requires
            self.inv(hole),
            self.has(id),
            self.height(id) <= h <= self.height(self.root.unwrap()),
            self.covers(id, rank),
        ensures
            self.covers(self.ancestor(id, h), rank),
        decreases h - self.height(id),
    {
        if self.height(id) < h {
            if self.root == Some(id) {
            } else {
                self.lemma_parent(hole, id);
                let p = self.node_at(id).parent_id().unwrap();
                self.lemma_kid_covers(hole, p, self.place(id), rank);
                self.lemma_ancestor_covers(hole, p, h, rank);
            }
        }
    }

    /// What a child covers, its parent covers.
    pub proof fn lemma_kid_covers(&self, hole: Option<usize>, p: usize, i: int, rank: int)
        requires
            self.inv(hole),
            self.has(p),
            !self.node_at(p).is_leaf_node(),
            0 <= i <= self.items_at(p).len(),
            self.covers(self.kids_at(p)[i], rank),
        ensures
            self.covers(p, rank),
            i > 0 ==> self.items_at(p)[i - 1].key_rank() < rank,
            i < self.items_at(p).len() ==> rank < self.items_at(p)[i].key_rank(),
    {
        assert(self.node_ok(p, hole));
        assert(self.kid_ok(p, i));
        if i > 0 {
            assert(self.covers(p, self.items_at(p)[i - 1].key_rank()));
        }
        if i < self.items_at(p).len() {
            assert(self.covers(p, self.items_at(p)[i].key_rank()));
        }
    }

    /// Two nodes that cover one rank have the same ancestor at every height
    /// from the higher of the two up.
    pub proof fn lemma_same_ancestor(
        &self,
        hole: Option<usize>,
        a: usize,
        b: usize,
        rank: int,
        h: nat,
    )
        requires
            self.inv(hole),
            self.has(a),
            self.has(b),
            self.covers(a, rank),
            self.covers(b, rank),
            self.height(a) <= h,
            self.height(b) <= h,
            h <= self.height(self.root.unwrap()),
        ensures
            self.ancestor(a, h) == self.ancestor(b, h),
        decreases self.height(self.root.unwrap()) - h,
    {
        let top = self.height(self.root.unwrap());
        self.lemma_ancestor(hole, a, h);
        self.lemma_ancestor(hole, b, h);
        self.lemma_ancestor_covers(hole, a, h, rank);
        self.lemma_ancestor_covers(hole, b, h, rank);
        let x = self.ancestor(a, h);
        let y = self.ancestor(b, h);
        if h == top {
            self.lemma_top(hole, x);
            self.lemma_top(hole, y);
        } else {
            self.lemma_same_ancestor(hole, a, b, rank, h + 1);
            self.lemma_ancestor(hole, a, h + 1);
            self.lemma_ancestor(hole, b, h + 1);
            let p = self.ancestor(a, h + 1);
            self.lemma_parent(hole, x);
            self.lemma_parent(hole, y);
            let i = self.place(x);
            let j = self.place(y);
            self.lemma_kid_covers(hole, p, i, rank);
            self.lemma_kid_covers(hole, p, j, rank);
            assert(self.node_ok(p, hole));
            if i < j {
                assert(self.items_at(p)[i].key_rank() <= self.items_at(p)[j - 1].key_rank());
            }
            if j < i {
                assert(self.items_at(p)[j].key_rank() <= self.items_at(p)[i - 1].key_rank());
            }
        }
    }

    /// A node that covers the rank of an item of another node is that node
    /// or stands above it, on its way to the root.
    pub proof fn lemma_covering_node(
        &self,
        hole: Option<usize>,
        a: usize,
        i: int,
        b: usize,
    )
        requires
            self.inv(hole),
            self.has(a),
            0 <= i < self.items_at(a).len(),
            self.has(b),
            self.covers(b, self.items_at(a)[i].key_rank()),
        ensures
            self.height(a) <= self.height(b),
            self.ancestor(a, self.height(b)) == b,
    {
        let rank = self.items_at(a)[i].key_rank();
        assert(self.node_ok(a, hole));
        assert(self.node_ok(b, hole));
        assert(self.covers(a, rank));
        if self.height(a) > self.height(b) {
            let h = self.height(a);
            self.lemma_same_ancestor(hole, a, b, rank, h);
            self.lemma_ancestor(hole, a, h);
            self.lemma_ancestor(hole, b, h);
            self.lemma_ancestor(hole, b, (h - 1) as nat);
            self.lemma_ancestor_covers(hole, b, (h - 1) as nat, rank);
            let c = self.ancestor(b, (h - 1) as nat);
            self.lemma_parent(hole, c);
            let j = self.place(c);
            self.lemma_kid_covers(hole, a, j, rank);
            if i < j {
                if i < j - 1 {
                    assert(self.items_at(a)[i].key_rank() < self.items_at(a)[j - 1].key_rank());
                }
            } else {
                if j < i {
                    assert(self.items_at(a)[j].key_rank() < self.items_at(a)[i].key_rank());
                }
            }
            assert(false);
        }
        let h = self.height(b);
        self.lemma_same_ancestor(hole, a, b, rank, h);
        self.lemma_ancestor(hole, b, h);
    }

    /// Two item addresses with items of one rank are the same address.
    pub proof fn lemma_one_address(&self, hole: Option<usize>, a: Address, b: Address)
        requires
            self.inv(hole),
            self.is_item_address(a),
            self.is_item_address(b),
            self.rank_at(a) == self.rank_at(b),
        ensures
            a == b,
    {
        assert(self.node_ok(a.id, hole));
        assert(self.node_ok(b.id, hole));
        assert(self.covers(b.id, self.rank_at(b)));
        assert(self.covers(a.id, self.rank_at(a)));
        self.lemma_covering_node(hole, a.id, a.offset.as_int(), b.id);
        self.lemma_covering_node(hole, b.id, b.offset.as_int(), a.id);
        self.lemma_ancestor(hole, a.id, self.height(a.id));
        let i = a.offset.as_int();
        let j = b.offset.as_int();
        if i < j {
            assert(self.items_at(a.id)[i].key_rank() < self.items_at(a.id)[j].key_rank());
        }
        if j < i {
            assert(self.items_at(a.id)[j].key_rank() < self.items_at(a.id)[i].key_rank());
        }
        assert(a.offset.0 == b.offset.0);
    }

    /// What the tree holds under a rank stands in a node.
    pub proof fn lemma_indexed_item(&self, hole: Option<usize>, rank: int) -> (addr: (usize, int))
        requires
            self.inv(hole),
            self@.dom().contains(rank),
        ensures
            self.has(addr.0),
            0 <= addr.1 < self.items_at(addr.0).len(),
            self.items_at(addr.0)[addr.1] == self@[rank],
            self.items_at(addr.0)[addr.1].key_rank() == rank,
    {
        super::content::lemma_index_entry(self.content(), rank);
        let r = lemma_sum_contains(*self, self.ids@, self@[rank]);
        let id = self.ids@[r.0];
        assert(self.ids@.contains(id));
        assert(self.has(id));
        (id, r.1)
    }

    /// A rank that a leaf covers and none of its items has is not in the
    /// tree.
    pub proof fn lemma_leaf_miss(&self, hole: Option<usize>, id: usize, rank: int)
        requires
            self.inv(hole),
            self.has(id),
            self.node_at(id).is_leaf_node(),
            self.covers(id, rank),
            forall|i: int|
                0 <= i < self.items_at(id).len() ==> (#[trigger] self.items_at(id)[i]).key_rank()
                    != rank,
        ensures
            !self@.dom().contains(rank),
    {
        if self@.dom().contains(rank) {
            let addr = self.lemma_indexed_item(hole, rank);
            self.lemma_covering_node(hole, addr.0, addr.1, id);
            assert(self.node_ok(id, hole));
            assert(self.node_ok(addr.0, hole));
            self.lemma_ancestor(hole, addr.0, self.height(addr.0));
            assert(addr.0 == id);
            assert(self.items_at(id)[addr.1].key_rank() == rank);
        }
    }

    /// The bounds of a node, where it has them, are ranks of the tree.
    pub proof fn lemma_bounds_indexed(&self, hole: Option<usize>, id: usize)
        requires
            self.inv(hole),
            self.has(id),
        ensures
            self.low(id) matches Some(l) ==> self@.dom().contains(l),
            self.high(id) matches Some(h) ==> self@.dom().contains(h),
        decreases self.height(self.root.unwrap()) - self.height(id),
    {
        if self.root != Some(id) {
            self.lemma_parent(hole, id);
            let p = self.node_at(id).parent_id().unwrap();
            self.lemma_bounds_indexed(hole, p);
            assert(self.node_ok(p, hole));
            let i = self.place(id);
            if i > 0 {
                assert(self@.dom().contains(self.items_at(p)[i - 1].key_rank()));
            }
            if i < self.items_at(p).len() {
                assert(self@.dom().contains(self.items_at(p)[i].key_rank()));
            }
        }
    }

    /// A rank of the tree that a leaf covers is the rank of one of its
    /// items.
    pub proof fn lemma_leaf_hit(&self, hole: Option<usize>, id: usize, rank: int) -> (i: int)
        requires
            self.inv(hole),
            self.has(id),
            self.node_at(id).is_leaf_node(),
            self.covers(id, rank),
            self@.dom().contains(rank),
        ensures
            0 <= i < self.items_at(id).len(),
            self.items_at(id)[i].key_rank() == rank,
    {
        if forall|i: int|
            0 <= i < self.items_at(id).len() ==> (#[trigger] self.items_at(id)[i]).key_rank()
                != rank {
            self.lemma_leaf_miss(hole, id, rank);
            0
        } else {
            choose|i: int| 0 <= i < self.items_at(id).len() && self.items_at(id)[i].key_rank() == rank
        }
    }

    /// `rank` is a rank of the tree above `floor`, if that is given.
    pub open spec fn above(&self, floor: Option<int>, rank: int) -> bool {
        &&& self@.dom().contains(rank)
        &&& floor matches Some(f) ==> f < rank
    }

    /// `rank` is a rank of the tree below `ceiling`, if that is given.
    pub open spec fn below(&self, ceiling: Option<int>, rank: int) -> bool {
        &&& self@.dom().contains(rank)
        &&& ceiling matches Some(c) ==> rank < c
    }

    /// `next` is the least rank of the tree above `floor`, or nothing if
    /// the tree has no rank above it.
    pub open spec fn is_least_above(&self, floor: Option<int>, next: Option<int>) -> bool {
        match next {
            Some(n) => self.above(floor, n) && forall|r: int| #[trigger]
                self.above(floor, r) ==> n <= r,
            None => forall|r: int| !#[trigger] self.above(floor, r),
        }
    }

    /// `previous` is the greatest rank of the tree below `ceiling`, or
    /// nothing if the tree has no rank below it.
    pub open spec fn is_greatest_below(&self, ceiling: Option<int>, previous: Option<int>) -> bool {
        match previous {
            Some(n) => self.below(ceiling, n) && forall|r: int| #[trigger]
                self.below(ceiling, r) ==> r <= n,
            None => forall|r: int| !#[trigger] self.below(ceiling, r),
        }
    }

    /// `next` is the least rank of the tree above `rank`, or nothing if
    /// the tree has no rank above it.
    pub open spec fn is_next_rank(&self, rank: int, next: Option<int>) -> bool {
        self.is_least_above(Some(rank), next)
    }

    /// The rank on the right of the place `o` of a node: that of the item
    /// there, or the upper bound of the node.
    pub open spec fn ceiling(&self, id: usize, o: int) -> Option<int> {
        if 0 <= o < self.items_at(id).len() {
            Some(self.items_at(id)[o].key_rank())
        } else {
            self.high(id)
        }
    }

    /// The rank on the left of the place `o` of a node: that of the item
    /// before it, or the lower bound of the node.
    pub open spec fn floor(&self, id: usize, o: int) -> Option<int> {
        if o > 0 {
            Some(self.items_at(id)[o - 1].key_rank())
        } else {
            self.low(id)
        }
    }

    /// No rank of the tree lies between what stands on the left and what
    /// stands on the right of a place of a leaf.
    pub proof fn lemma_leaf_gap(&self, hole: Option<usize>, id: usize, o: int)
        requires
            self.inv(hole),
            self.has(id),
            self.node_at(id).is_leaf_node(),
            0 <= o <= self.items_at(id).len(),
            self.items_at(id).len() > 0,
        ensures
            self.is_least_above(self.floor(id, o), self.ceiling(id, o)),
            self.is_greatest_below(self.ceiling(id, o), self.floor(id, o)),
    {
        let items = self.items_at(id);
        let f = self.floor(id, o);
        let c = self.ceiling(id, o);
        assert(self.node_ok(id, hole));
        self.lemma_bounds_indexed(hole, id);
        if o > 0 {
            assert(self.covers(id, items[o - 1].key_rank()));
        }
        if o < items.len() {
            assert(self.covers(id, items[o].key_rank()));
        }
        assert forall|r: int| self@.dom().contains(r) && (f matches Some(x) ==> x < r) && (
        c matches Some(y) ==> r < y) implies false by {
            let i = self.lemma_leaf_hit(hole, id, r);
            if i < o {
                if i < o - 1 {
                    assert(items[i].key_rank() < items[o - 1].key_rank());
                }
            } else {
                if i > o {
                    assert(items[o].key_rank() < items[i].key_rank());
                }
            }
        }
        match c {
            Some(n) => {
                assert(self.above(f, n));
                assert forall|r: int| #[trigger] self.above(f, r) implies n <= r by {}
            },
            None => {
                assert forall|r: int| !#[trigger] self.above(f, r) by {}
            },
        }
        match f {
            Some(n) => {
                assert(self.below(c, n));
                assert forall|r: int| #[trigger] self.below(c, r) implies r <= n by {}
            },
            None => {
                assert forall|r: int| !#[trigger] self.below(c, r) by {}
            },
        }
    }

    /// Next to the item before a place of a leaf comes what stands on the
    /// right of that place.
    pub proof fn lemma_leaf_next(&self, hole: Option<usize>, id: usize, o: int)
        requires
            self.inv(hole),
            self.has(id),
            self.node_at(id).is_leaf_node(),
            0 < o <= self.items_at(id).len(),
        ensures
            self.is_next_rank(self.items_at(id)[o - 1].key_rank(), self.ceiling(id, o)),
    {
        self.lemma_leaf_gap(hole, id, o);
    }
}

} // verus!
