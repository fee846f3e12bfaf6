//! Rebalancing by the merge of two nodes.
use vstd::prelude::*;
use super::content::lemma_sum_same;
use super::node::{balance_of, max_capacity_of, min_capacity_of, Address, Balance, Buffer, Offset};
use super::nodes::lemma_concat_multiset;
use super::KeyOrd;
use crate::slab::{Arena, Storage};
use crate::btree::node::Reference;

verus! {

impl<T: KeyOrd, A: Arena<Reference<T>>> Storage<T, A> {
    /// `self` is `before` after the children around the item `o` of the
    /// node `p` have been merged: the child on the left holds its items,
    /// that item, and the items of the child on the right, which is no
    /// more.
    pub open spec fn merged(&self, before: &Self, p: usize, o: int) -> bool {
        &&& self.merged_nodes(before, p, o)
        &&& self.merged_others(before, p, o)
        &&& self.merged_records(before, p, o)
    }

    /// After a merge: the nodes that changed.
    pub open spec fn merged_nodes(&self, before: &Self, p: usize, o: int) -> bool {
        let l = before.kids_at(p)[o];
        let r = before.kids_at(p)[o + 1];
        let leaf = before.node_at(l).is_leaf_node();
        let sep = before.items_at(p)[o];
        &&& !self.has(r)
        &&& self.node_at(p).is_leaf_node() == before.node_at(p).is_leaf_node()
        &&& self.node_at(p).parent_id() == before.node_at(p).parent_id()
        &&& self.items_at(p) == before.items_at(p).remove(o)
        &&& self.kids_at(p) == before.kids_at(p).remove(o + 1)
        &&& self.node_at(l).is_leaf_node() == leaf
        &&& self.node_at(l).parent_id() == Some(p)
        &&& self.items_at(l) == before.items_at(l).push(sep) + before.items_at(r)
        &&& self.kids_at(l) == before.kids_at(l) + before.kids_at(r)
    }

    /// After a merge: the nodes that did not change, but for the parent of
    /// the children that went over.
    pub open spec fn merged_others(&self, before: &Self, p: usize, o: int) -> bool {
        let l = before.kids_at(p)[o];
        let r = before.kids_at(p)[o + 1];
        &&& forall|j: usize| j != r ==> (#[trigger] self.has(j)) == before.has(j)
        &&& forall|j: usize|
            before.has(j) && j != p && j != l && j != r ==> #[trigger] self.same_node(before, j)
        &&& forall|j: usize|
            before.has(j) && j != p && j != l && j != r && #[trigger] self.same_node(before, j)
                ==> self.node_at(j).parent_id() == (if before.node_at(j).parent_id() == Some(r) {
                Some(l)
            } else {
                before.node_at(j).parent_id()
            })
    }

    /// After a merge: the records of the tree.
    pub open spec fn merged_records(&self, before: &Self, p: usize, o: int) -> bool {
        let l = before.kids_at(p)[o];
        let r = before.kids_at(p)[o + 1];
        &&& self.nodes.wf()
        &&& self.root == before.root
        &&& self.len == before.len
        &&& self@ == before@
        &&& self.ids@.no_duplicates()
        &&& forall|j: usize| #[trigger] self.ids@.contains(j) <==> before.ids@.contains(j) && j != r
        &&& self.content() == before.content()
        &&& self.heights == before.heights
        &&& self.lows == before.lows
        &&& self.highs@ == before.highs@.insert(l, before.high(r))
        &&& forall|j: usize| #[trigger] self.places@[j] == before.places_merged(p, o)[j]
    }

    /// The places of the nodes after the merge of the children around the
    /// item `o` of the node `p`.
    pub open spec fn places_merged(&self, p: usize, o: int) -> Map<usize, int> {
        let l = self.kids_at(p)[o];
        let r = self.kids_at(p)[o + 1];
        Map::new(
            |j: usize| true,
            |j: usize|
                if self.has(j) && self.node_at(j).parent_id() == Some(r) {
                    self.place(j) + self.items_at(l).len() + 1
                } else if self.has(j) && self.node_at(j).parent_id() == Some(p) && self.place(j) > o
                    + 1 {
                    self.place(j) - 1
                } else {
                    self.place(j)
                },
        )
    }

    /// What the merge of the children around the item `o` of `p` asks for:
    /// one of the two is the node out of balance, and the two have room in
    /// one node with the item between them.
    pub open spec fn can_merge(&self, hole: usize, p: usize, o: int) -> bool {
        let l = self.kids_at(p)[o];
        let r = self.kids_at(p)[o + 1];
        &&& self.inv(Some(hole))
        &&& self.has(p)
        &&& !self.node_at(p).is_leaf_node()
        &&& 0 <= o < self.items_at(p).len()
        &&& hole == l || hole == r
        &&& self.items_at(l).len() + self.items_at(r).len() + 1 < max_capacity_of(
            self.node_at(l).is_leaf_node(),
        )
        &&& self.items_at(l).len() + self.items_at(r).len() + 1 >= min_capacity_of(
            self.node_at(l).is_leaf_node(),
        )
    }

    /// The state after a merge keeps the invariant, with the node whose
    /// children were merged as the node that may underflow.
    pub proof fn lemma_merged(&self, before: &Self, hole: usize, p: usize, o: int)
        requires
            before.can_merge(hole, p, o),
            self.merged(before, p, o),
        ensures
            self.inv(Some(p)),
    {
        let l = before.kids_at(p)[o];
        let r = before.kids_at(p)[o + 1];
        let h = Some(hole);
        before.lemma_siblings(h, p, o);
        assert forall|j: usize| self.has(j) <==> #[trigger] self.ids@.contains(j) by {
            assert(before.has(j) <==> before.ids@.contains(j));
            if j != r {
                assert(self.has(j) == before.has(j));
            }
        }
        assert forall|j: usize| self.has(j) implies #[trigger] self.node_ok(j, Some(p)) by {
            assert(self.has(j) == before.has(j));
            if j == p {
                self.lemma_merged_parent(before, hole, p, o);
            } else if j == l {
                self.lemma_merged_left(before, hole, p, o);
            } else {
                self.lemma_merged_other(before, hole, p, o, j);
            }
        }
    }

    /// After a merge, all is well with the node whose children were
    /// merged, but that it may underflow.
    pub proof fn lemma_merged_parent(&self, before: &Self, hole: usize, p: usize, o: int)
        requires
            before.can_merge(hole, p, o),
            self.merged(before, p, o),
        ensures
            self.node_ok(p, Some(p)),
    {
        let l = before.kids_at(p)[o];
        let r = before.kids_at(p)[o + 1];
        let h = Some(hole);
        before.lemma_siblings(h, p, o);
        before.lemma_kids(h, p);
        assert(self.has(p) == before.has(p));
        if before.root != Some(p) {
            before.lemma_parent(h, p);
            let q = before.node_at(p).parent_id().unwrap();
            assert(self.has(q) == before.has(q));
            assert(q != l && q != r && q != p);
            assert(self.same_node(before, q));
            assert(self.place(p) == before.place(p));
        }
        assert(self.link_ok(p));
        assert(self.balance_ok(p, Some(p)));
        assert(self.order_ok(p));
        assert(self.indexed_ok(p));
        assert forall|t: int| 0 <= t <= self.items_at(p).len() implies #[trigger] self.kid_ok(
            p,
            t,
        ) by {
            self.lemma_merged_parent_kid(before, hole, p, o, t);
        }
        assert(self.kids_ok(p));
    }

    /// After a merge, all is well between the node whose children were
    /// merged and each of its children.
    pub proof fn lemma_merged_parent_kid(
        &self,
        before: &Self,
        hole: usize,
        p: usize,
        o: int,
        t: int,
    )
        requires
            before.can_merge(hole, p, o),
            self.merged(before, p, o),
            0 <= t <= self.items_at(p).len(),
        ensures
            self.kid_ok(p, t),
    {
        let l = before.kids_at(p)[o];
        let r = before.kids_at(p)[o + 1];
        let h = Some(hole);
        before.lemma_siblings(h, p, o);
        before.lemma_kids(h, p);
        let u = if t <= o {
            t
        } else {
            t + 1
        };
        assert(before.kid_ok(p, u));
        let c = before.kids_at(p)[u];
        assert(self.kids_at(p)[t] == c);
        assert(self.has(c) == before.has(c));
        assert(before.node_ok(c, h));
        if t != o {
            assert(c != l && c != r && c != p);
            assert(self.same_node(before, c));
        }
    }

    /// After a merge, all is well with the node that holds the items of
    /// the two.
    pub proof fn lemma_merged_left(&self, before: &Self, hole: usize, p: usize, o: int)
        requires
            before.can_merge(hole, p, o),
            self.merged(before, p, o),
        ensures
            self.node_ok(before.kids_at(p)[o], Some(p)),
    {
        let l = before.kids_at(p)[o];
        let r = before.kids_at(p)[o + 1];
        let h = Some(hole);
        let sep = before.items_at(p)[o];
        let a = before.items_at(l);
        let b = before.items_at(r);
        let m = self.items_at(l);
        before.lemma_siblings(h, p, o);
        before.lemma_kids(h, l);
        before.lemma_kids(h, r);
        assert(self.has(p) == before.has(p));
        assert(self.has(l) == before.has(l));
        assert(self.place(l) == before.place(l));
        assert(self.link_ok(l));
        assert(self.balance_ok(l, Some(p)));
        assert forall|t: int| 0 <= t < m.len() implies #[trigger] m[t] == (if t < a.len() {
            a[t]
        } else if t == a.len() {
            sep
        } else {
            b[t - a.len() - 1]
        }) by {}
        assert(before.covers(p, sep.key_rank()));
        assert forall|t: int| 0 <= t < a.len() implies (#[trigger] a[t]).key_rank()
            < sep.key_rank() && before.covers(l, a[t].key_rank()) by {}
        assert forall|t: int| 0 <= t < b.len() implies (#[trigger] b[t]).key_rank()
            > sep.key_rank() && before.covers(r, b[t].key_rank()) by {}
        assert(self.order_ok(l)) by {
            assert forall|t: int, u: int| 0 <= t < u < m.len() implies (#[trigger] m[t]).key_rank()
                < (#[trigger] m[u]).key_rank() by {
                if t < a.len() {
                    assert(a[t].key_rank() < sep.key_rank());
                }
                if u > a.len() {
                    assert(b[u - a.len() - 1].key_rank() > sep.key_rank());
                }
            }
            assert forall|t: int| 0 <= t < m.len() implies self.covers(
                l,
                (#[trigger] m[t]).key_rank(),
            ) by {
                if t < a.len() {
                    assert(before.covers(l, a[t].key_rank()));
                } else if t > a.len() {
                    assert(before.covers(r, b[t - a.len() - 1].key_rank()));
                }
            }
        }
        assert(self.indexed_ok(l));
        if !self.node_at(l).is_leaf_node() {
            assert forall|t: int| 0 <= t <= self.items_at(l).len() implies #[trigger] self.kid_ok(
                l,
                t,
            ) by {
                self.lemma_merged_left_kid(before, hole, p, o, t);
            }
        }
        assert(self.kids_ok(l));
    }

    /// After a merge, all is well between the node that holds the items of
    /// the two and each of its children.
    pub proof fn lemma_merged_left_kid(
        &self,
        before: &Self,
        hole: usize,
        p: usize,
        o: int,
        t: int,
    )
        requires
            before.can_merge(hole, p, o),
            self.merged(before, p, o),
            !before.node_at(before.kids_at(p)[o]).is_leaf_node(),
            0 <= t <= self.items_at(before.kids_at(p)[o]).len(),
        ensures
            self.kid_ok(before.kids_at(p)[o], t),
    {
        let l = before.kids_at(p)[o];
        let r = before.kids_at(p)[o + 1];
        let h = Some(hole);
        let n = before.items_at(l).len() as int;
        before.lemma_siblings(h, p, o);
        before.lemma_kids(h, l);
        before.lemma_kids(h, r);
        if t <= n {
            assert(before.kid_ok(l, t));
            let c = before.kids_at(l)[t];
            assert(self.kids_at(l)[t] == c);
            assert(c != p && c != l && c != r);
            assert(self.same_node(before, c));
        } else {
            assert(before.kid_ok(r, t - n - 1));
            let c = before.kids_at(r)[t - n - 1];
            assert(self.kids_at(l)[t] == c);
            assert(c != p && c != l && c != r);
            assert(self.same_node(before, c));
        }
    }

    /// After a merge, all is well with the nodes that did not change.
    pub proof fn lemma_merged_other(
        &self,
        before: &Self,
        hole: usize,
        p: usize,
        o: int,
        j: usize,
    )
        requires
            before.can_merge(hole, p, o),
            self.merged(before, p, o),
            self.has(j),
            j != p,
            j != before.kids_at(p)[o],
        ensures
            self.node_ok(j, Some(p)),
    {
        let l = before.kids_at(p)[o];
        let r = before.kids_at(p)[o + 1];
        let h = Some(hole);
        let n = before.items_at(l).len() as int;
        before.lemma_siblings(h, p, o);
        before.lemma_kids(h, l);
        before.lemma_kids(h, r);
        before.lemma_kids(h, p);
        assert(j != r);
        assert(self.has(j) == before.has(j));
        assert(before.node_ok(j, h));
        assert(self.same_node(before, j));
        if before.root != Some(j) {
            before.lemma_parent(h, j);
            let q = before.node_at(j).parent_id().unwrap();
            if q == r {
                assert(self.kids_at(l)[before.place(j) + n + 1] == j);
            } else {
                assert(self.has(q) == before.has(q));
                if q == p {
                    if before.place(j) > o + 1 {
                        assert(self.kids_at(p)[before.place(j) - 1] == j);
                    } else {
                        assert(before.place(j) < o);
                        assert(self.kids_at(p)[before.place(j)] == j);
                    }
                } else if q == l {
                    assert(self.kids_at(l)[before.place(j)] == j);
                } else {
                    assert(self.same_node(before, q));
                }
            }
        }
        assert(self.link_ok(j));
        assert(self.balance_ok(j, Some(p)));
        assert(self.order_ok(j));
        assert(self.indexed_ok(j));
        if !self.node_at(j).is_leaf_node() {
            assert forall|t: int| 0 <= t <= self.items_at(j).len() implies #[trigger] self.kid_ok(
                j,
                t,
            ) by {
                let c = before.kids_at(j)[t];
                assert(before.kid_ok(j, t));
                assert(c != l && c != r);
                assert(self.has(c) == before.has(c));
                if c != p {
                    assert(self.same_node(before, c));
                }
                assert(self.place(c) == before.place(c));
            }
        }
        assert(self.kids_ok(j));
    }
}

impl<T: KeyOrd, A: Arena<Reference<T>>> Storage<T, A> {
    /// The steps of the merge of the children around the item `o` of `p`,
    /// from `before` to `self`: the item leaves `p` with the child on its
    /// right, that child is released, its children are given to the child
    /// on the left, which takes the item and the items of the other; then
    /// the records are brought up to date.
    pub open spec fn merge_steps(
        &self,
        before: &Self,
        mid1: &Self,
        mid2: &Self,
        mid3: &Self,
        mid4: &Self,
        hole: usize,
        p: usize,
        o: int,
    ) -> bool {
        let l = before.kids_at(p)[o];
        let r = before.kids_at(p)[o + 1];
        let sep = before.items_at(p)[o];
        &&& before.can_merge(hole, p, o)
        &&& mid1.step(before, p)
        &&& mid1.node_at(p).is_leaf_node() == before.node_at(p).is_leaf_node()
        &&& mid1.node_at(p).parent_id() == before.node_at(p).parent_id()
        &&& mid1.items_at(p) == before.items_at(p).remove(o)
        &&& mid1.kids_at(p) == before.kids_at(p).remove(o + 1)
        &&& mid2.shrunk(mid1, r)
        &&& mid3.reparented(mid2, before.kids_at(r), l)
        &&& mid4.step(mid3, l)
        &&& mid4.node_at(l).is_leaf_node() == mid3.node_at(l).is_leaf_node()
        &&& mid4.node_at(l).parent_id() == mid3.node_at(l).parent_id()
        &&& mid4.items_at(l) == mid3.items_at(l).push(sep) + before.items_at(r)
        &&& mid4.kids_at(l) == mid3.kids_at(l) + before.kids_at(r)
        &&& self.nodes == mid4.nodes
        &&& self.root == mid4.root
        &&& self.len == mid4.len
        &&& self.ids == mid4.ids
        &&& self.heights == before.heights
        &&& self.lows == before.lows
        &&& self.highs@ == before.highs@.insert(l, before.high(r))
        &&& self.places@ == before.places_merged(p, o)
    }

    /// The steps of a merge lead from `before` to a state that is `before`
    /// after the merge.
    pub proof fn lemma_merge_steps(
        &self,
        before: &Self,
        mid1: &Self,
        mid2: &Self,
        mid3: &Self,
        mid4: &Self,
        hole: usize,
        p: usize,
        o: int,
    )
        requires
            self.merge_steps(before, mid1, mid2, mid3, mid4, hole, p, o),
        ensures
            self.merged(before, p, o),
    {
        let l = before.kids_at(p)[o];
        let r = before.kids_at(p)[o + 1];
        let h = Some(hole);
        let rk = before.kids_at(r);
        before.lemma_siblings(h, p, o);
        before.lemma_kids(h, r);
        before.lemma_kids(h, l);
        assert forall|j: usize| j != r implies (#[trigger] self.has(j)) == before.has(j) by {
            assert(mid4.has(j) == mid3.has(j));
            assert(mid3.has(j) == mid2.has(j));
            assert(mid2.has(j) == mid1.has(j));
            assert(mid1.has(j) == before.has(j));
        }
        assert(mid4.has(r) == mid3.has(r));
        assert(mid3.has(r) == mid2.has(r));
        assert(mid1.has(p) == before.has(p));
        assert(mid1.has(l) == before.has(l));
        assert(mid2.has(l) == mid1.has(l));
        assert(mid2.has(p) == mid1.has(p));
        assert(mid3.has(l) == mid2.has(l));
        assert(mid3.has(p) == mid2.has(p));
        assert(mid1.node_at(l) == before.node_at(l));
        assert(mid2.node_at(l) == mid1.node_at(l));
        assert(mid2.node_at(p) == mid1.node_at(p));
        assert(mid3.same_node(mid2, l));
        assert(mid3.same_node(mid2, p));
        assert(!rk.contains(l)) by {
            if rk.contains(l) {
                let t = choose|t: int| 0 <= t < rk.len() && rk[t] == l;
                assert(before.kid_ok(r, t));
            }
        }
        assert(!rk.contains(p)) by {
            if rk.contains(p) {
                let t = choose|t: int| 0 <= t < rk.len() && rk[t] == p;
                assert(before.kid_ok(r, t));
            }
        }
        assert(mid4.node_at(p) == mid3.node_at(p));
        assert(self.merged_nodes(before, p, o));
        assert forall|j: usize| before.has(j) && j != p && j != l && j != r implies (
        #[trigger] self.same_node(before, j)) && self.node_at(j).parent_id() == (
        if before.node_at(j).parent_id() == Some(r) {
            Some(l)
        } else {
            before.node_at(j).parent_id()
        }) by {
            assert(mid1.has(j) == before.has(j));
            assert(mid2.has(j) == mid1.has(j));
            assert(mid3.has(j) == mid2.has(j));
            assert(mid4.has(j) == mid3.has(j));
            assert(mid1.node_at(j) == before.node_at(j));
            assert(mid2.node_at(j) == mid1.node_at(j));
            assert(mid3.same_node(mid2, j));
            assert(mid4.node_at(j) == mid3.node_at(j));
            if rk.contains(j) {
                let t = choose|t: int| 0 <= t < rk.len() && rk[t] == j;
                assert(before.kid_ok(r, t));
            }
            if before.node_at(j).parent_id() == Some(r) {
                assert(before.node_ok(j, h));
                assert(rk[before.place(j)] == j);
            }
        }
        assert(self.merged_others(before, p, o));
        self.lemma_merge_content(before, mid1, mid2, mid3, mid4, hole, p, o);
        assert(self.merged_records(before, p, o));
    }

    /// The steps of a merge leave the content of the tree as it was.
    pub proof fn lemma_merge_content(
        &self,
        before: &Self,
        mid1: &Self,
        mid2: &Self,
        mid3: &Self,
        mid4: &Self,
        hole: usize,
        p: usize,
        o: int,
    )
        requires
            self.merge_steps(before, mid1, mid2, mid3, mid4, hole, p, o),
        ensures
            self.content() == before.content(),
            self.ids@.no_duplicates(),
            forall|j: usize|
                #[trigger] self.ids@.contains(j) <==> before.ids@.contains(j) && j
                    != before.kids_at(p)[o + 1],
    {
        let l = before.kids_at(p)[o];
        let r = before.kids_at(p)[o + 1];
        let h = Some(hole);
        let sep = before.items_at(p)[o];
        before.lemma_siblings(h, p, o);
        assert(before.ids@.contains(p));
        assert(before.ids@.contains(l));
        assert(before.ids@.contains(r));
        assert(mid1.has(l) == before.has(l));
        assert(mid1.has(r) == before.has(r));
        assert(mid2.has(l) == mid1.has(l));
        assert(mid1.node_at(l) == before.node_at(l));
        assert(mid1.node_at(r) == before.node_at(r));
        assert(mid2.node_at(l) == mid1.node_at(l));
        assert(mid3.has(l) == mid2.has(l));
        assert(mid3.same_node(mid2, l));
        assert forall|j: usize| j != p && before.ids@.contains(j) implies #[trigger] mid1.items_at(
            j,
        ) == before.items_at(j) by {
            assert(before.has(j));
            assert(mid1.node_at(j) == before.node_at(j));
        }
        mid1.lemma_content_update(before, p);
        let k = choose|k: int|
            0 <= k < mid1.ids@.len() && mid1.ids@[k] == r && #[trigger] mid1.ids@.remove(k)
                == mid2.ids@;
        assert forall|j: usize| mid1.ids@.contains(j) && j != mid1.ids@[k] implies #[trigger] mid2.items_at(
            j,
        ) == mid1.items_at(j) by {
            assert(before.has(j));
            assert(mid1.has(j) == before.has(j));
            assert(mid2.node_at(j) == mid1.node_at(j));
        }
        mid2.lemma_content_remove(mid1, k);
        assert forall|t: int| 0 <= t < mid2.ids@.len() implies mid2.items_at(
            #[trigger] mid2.ids@[t],
        ) == mid3.items_at(mid2.ids@[t]) by {
            let j = mid2.ids@[t];
            assert(mid2.ids@.contains(j));
            assert(before.ids@.contains(j));
            assert(before.has(j));
            assert(mid1.has(j) == before.has(j));
            assert(mid2.has(j) == mid1.has(j));
            assert(mid3.same_node(mid2, j));
        }
        lemma_sum_same(*mid2, *mid3, mid2.ids@);
        assert(mid3.content() == mid2.content());
        assert(mid3.ids@.contains(l));
        assert forall|j: usize| j != l && mid3.ids@.contains(j) implies #[trigger] mid4.items_at(
            j,
        ) == mid3.items_at(j) by {
            assert(mid2.ids@.contains(j));
            assert(before.ids@.contains(j));
            assert(before.has(j));
            assert(mid1.has(j) == before.has(j));
            assert(mid2.has(j) == mid1.has(j));
            assert(mid3.has(j) == mid2.has(j));
            assert(mid4.node_at(j) == mid3.node_at(j));
        }
        mid4.lemma_content_update(mid3, l);
        lemma_sum_same(*mid4, *self, self.ids@);
        assert(self.content() == mid4.content());
        let a = before.items_at(l);
        let b = before.items_at(r);
        let pi = before.items_at(p);
        lemma_concat_multiset(a.push(sep), b);
        a.to_multiset_ensures();
        pi.to_multiset_ensures();
        assert(pi.to_multiset().count(sep) > 0) by {
            assert(pi.contains(sep));
        }
        assert(mid3.items_at(l) == a);
        assert(self.content() =~= before.content()) by {
            assert forall|w: T| self.content().count(w) == before.content().count(w) by {
                assert(mid1.content().count(w) + pi.to_multiset().count(w)
                    == before.content().count(w) + mid1.items_at(p).to_multiset().count(w));
                assert(mid2.content().add(b.to_multiset()).count(w) == mid1.content().count(w));
                assert(mid4.content().count(w) + mid3.items_at(l).to_multiset().count(w)
                    == mid3.content().count(w) + mid4.items_at(l).to_multiset().count(w));
                assert(pi.remove(o).to_multiset().count(w) == pi.to_multiset().remove(sep).count(
                    w,
                ));
                assert((a.push(sep) + b).to_multiset().count(w) == a.push(
                    sep,
                ).to_multiset().count(w) + b.to_multiset().count(w));
                assert(a.push(sep).to_multiset().count(w) == a.to_multiset().insert(sep).count(w));
            }
        }
    }

    /// Where an address stands after the merge of the children `l` and `r`
    /// around the item `o` of `p`, the first of which had `n` items.
    pub open spec fn address_merged(
        addr: Address,
        p: usize,
        o: int,
        l: usize,
        r: usize,
        n: int,
    ) -> (int, int) {
        if addr.id == p {
            if addr.offset.as_int() == o {
                (l as int, n)
            } else if addr.offset.as_int() > o {
                (addr.id as int, addr.offset.as_int() - 1)
            } else {
                (addr.id as int, addr.offset.as_int())
            }
        } else if addr.id == r {
            (l as int, addr.offset.as_int() + n + 1)
        } else {
            (addr.id as int, addr.offset.as_int())
        }
    }

    /// After a merge, the address to which an address has moved stands for
    /// what the address stood for.
    pub proof fn lemma_merged_address(
        &self,
        before: &Self,
        hole: usize,
        p: usize,
        o: int,
        addr: Address,
        new_addr: Address,
    )
        requires
            before.can_merge(hole, p, o),
            self.merged(before, p, o),
            before.addressable(addr),
            new_addr.offset.as_int() >= 0,
            (new_addr.id as int, new_addr.offset.as_int()) == Self::address_merged(
                addr,
                p,
                o,
                before.kids_at(p)[o],
                before.kids_at(p)[o + 1],
                before.items_at(before.kids_at(p)[o]).len() as int,
            ),
        ensures
            self.addressable(new_addr),
            self.target_of(new_addr) == before.target_of(addr),
            before.is_item_address(addr) ==> self.is_item_address(new_addr),
    {
        let l = before.kids_at(p)[o];
        let r = before.kids_at(p)[o + 1];
        let h = Some(hole);
        before.lemma_siblings(h, p, o);
        assert(self.has(l) == before.has(l));
        assert(self.has(p) == before.has(p));
        if addr.id != r {
            assert(self.has(addr.id) == before.has(addr.id));
        }
        if addr.id != l && addr.id != p && addr.id != r {
            assert(self.same_node(before, addr.id));
        }
    }

    /// Merge the child `deficient_child_index` in node `id` with one of its direct sibling:
    /// the one before it if there is one, else the one after it.
    ///
    /// Returns the balance of the node `id`, which has lost an item, and
    /// the address at which what `addr` stood for stands now.
    pub fn merge(&mut self, id: usize, deficient_child_index: usize, addr: Address) -> (r: (
        Balance,
        Address,
    ))
        requires
            old(self).has(id),
            !old(self).node_at(id).is_leaf_node(),
            deficient_child_index <= old(self).items_at(id).len(),
            old(self).can_merge(
                old(self).kids_at(id)[deficient_child_index as int],
                id,
                if deficient_child_index > 0 {
                    deficient_child_index - 1
                } else {
                    0
                },
            ),
            old(self).addressable(addr),
        ensures
            final(self).inv(Some(id)),
            final(self).has(id),
            final(self)@ == old(self)@,
            final(self).len == old(self).len,
            final(self).root == old(self).root,
            final(self).heights == old(self).heights,
            r.0 == balance_of(false, final(self).items_at(id).len()),
            final(self).items_at(id).len() + 1 == old(self).items_at(id).len(),
            final(self).addressable(r.1),
            final(self).target_of(r.1) == old(self).target_of(addr),
            old(self).is_item_address(addr) ==> final(self).is_item_address(r.1),
            final(self).merged(
                old(self),
                id,
                if deficient_child_index > 0 {
                    deficient_child_index - 1
                } else {
                    0
                },
            ),
    {
        let ghost before = *self;
        let ghost hole = before.kids_at(id)[deficient_child_index as int];
        let offset: Offset = if deficient_child_index > 0 {
            // merge with left sibling
            Offset::new(deficient_child_index - 1)
        } else {
            // merge with right sibling
            Offset::new(deficient_child_index)
        };
        let ghost o = offset.as_int();
        proof {
            before.lemma_siblings(Some(hole), id, o);
            before.lemma_kids(Some(hole), id);
            assert(before.node_ok(addr.id, Some(hole)));
        }
        let left_id = self.node(id).unwrap().child_id(offset.unwrap()).unwrap();
        let node = self.node_mut(id);
        let (separator, right_id) = node.remove(offset);
        let balance = node.balance();
        let right_id = right_id.unwrap();
        let ghost mid1 = *self;
        proof {
            assert(before.ids@.contains(right_id));
            assert(mid1.has(right_id) == before.has(right_id));
            assert(mid1.node_at(right_id) == before.node_at(right_id));
        }
        // update children's parent.
        let right_node = self.release_node(right_id);
        let ghost mid2 = *self;
        let children = right_node.children().collect();
        proof {
            before.lemma_kids(Some(hole), right_id);
            assert forall|t: int| 0 <= t < children@.len() implies mid2.has(children@[t]) by {
                let c = before.kids_at(right_id)[t];
                assert(before.kid_ok(right_id, t));
                assert(mid1.has(c) == before.has(c));
                assert(mid2.has(c) == mid1.has(c));
            }
        }
        self.set_parents(&children, left_id);
        let ghost mid3 = *self;
        proof {
            assert(mid1.has(left_id) == before.has(left_id));
            assert(mid2.has(left_id) == mid1.has(left_id));
            assert(mid3.has(left_id) == mid2.has(left_id));
            assert(mid1.node_at(left_id) == before.node_at(left_id));
            assert(mid2.node_at(left_id) == mid1.node_at(left_id));
            assert(mid3.same_node(&mid2, left_id));
        }
        // actually merge.
        let left_offset = self.node_mut(left_id).append(separator, right_node);
        let ghost mid4 = *self;
        // update addr.
        let ghost old_addr = addr;
        let mut addr = addr;
        if addr.id == id {
            if addr.offset.0 == offset.0 {
                addr.id = left_id;
                addr.offset = left_offset;
            } else if !addr.offset.is_below(offset.unwrap()) {
                addr.offset.decr();
            }
        } else if addr.id == right_id {
            addr.id = left_id;
            addr.offset = Offset::new(addr.offset.unwrap() + left_offset.unwrap() + 1);
        }
        proof {
            self.highs = Ghost(before.highs@.insert(left_id, before.high(right_id)));
            self.places = Ghost(before.places_merged(id, o));
            self.lemma_merge_steps(&before, &mid1, &mid2, &mid3, &mid4, hole, id, o);
            self.lemma_merged(&before, hole, id, o);
            self.lemma_merged_address(&before, hole, id, o, old_addr, addr);
            assert(self.has(id) == before.has(id));
        }
        (balance, addr)
    }
}

} // verus!
