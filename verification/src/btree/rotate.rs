//! Rebalancing by rotation: an item goes from a node to its sibling
//! through their parent.
use vstd::prelude::*;
use super::content::lemma_sum_same;
use super::node::{min_capacity_of, Address, Offset};
use super::KeyOrd;
use crate::slab::{Arena, Storage};
use crate::btree::node::Reference;

verus! {

/// The items of a sequence without the first are those of the sequence but
/// the first, and likewise without the last.
pub proof fn lemma_drop_multiset<T>(s: Seq<T>)
    requires
        s.len() > 0,
    ensures
        s.to_multiset() =~= s.drop_first().to_multiset().insert(s[0]),
        s.to_multiset() =~= s.drop_last().to_multiset().insert(s.last()),
        forall|x: T| #![trigger s.push(x)] s.push(x).to_multiset() =~= s.to_multiset().insert(x),
        forall|x: T|
            #![trigger seq![x] + s]
            (seq![x] + s).to_multiset() =~= s.to_multiset().insert(x),
{
    s.to_multiset_ensures();
    assert(s.remove(0) =~= s.drop_first());
    assert(s.remove(s.len() - 1) =~= s.drop_last());
    assert(s.to_multiset().count(s[0]) > 0) by {
        assert(s.contains(s[0]));
    }
    assert(s.to_multiset().count(s.last()) > 0) by {
        assert(s.contains(s.last()));
    }
    assert forall|x: T| #![trigger seq![x] + s] (seq![x] + s).to_multiset() =~= s.to_multiset().insert(
        x,
    ) by {
        super::nodes::lemma_insert_multiset(s, 0, x);
        assert(s.insert(0, x) =~= seq![x] + s);
    }
}

impl<T: KeyOrd, A: Arena<Reference<T>>> Storage<T, A> {
    /// `self` is `before` after a rotation to the left around the item `i`
    /// of the node `p`: that item has gone down to the end of the child on
    /// its left, and the first item of the child on its right has come up
    /// into its place, the first child of that child going over with it.
    pub open spec fn rotated_left(&self, before: &Self, p: usize, i: int) -> bool {
        &&& self.rotated_left_nodes(before, p, i)
        &&& self.rotated_left_others(before, p, i)
        &&& self.rotated_left_records(before, p, i)
    }

    /// After a rotation to the left: the three nodes that changed.
    pub open spec fn rotated_left_nodes(&self, before: &Self, p: usize, i: int) -> bool {
        let l = before.kids_at(p)[i];
        let r = before.kids_at(p)[i + 1];
        let leaf = before.node_at(l).is_leaf_node();
        let x = before.items_at(r)[0];
        let v = before.items_at(p)[i];
        let c = before.kids_at(r)[0];
        &&& self.node_at(p).is_leaf_node() == before.node_at(p).is_leaf_node()
        &&& self.node_at(p).parent_id() == before.node_at(p).parent_id()
        &&& self.items_at(p) == before.items_at(p).update(i, x)
        &&& self.kids_at(p) == before.kids_at(p)
        &&& self.node_at(l).is_leaf_node() == leaf
        &&& self.node_at(l).parent_id() == Some(p)
        &&& self.items_at(l) == before.items_at(l).push(v)
        &&& self.kids_at(l) == (if leaf {
            before.kids_at(l)
        } else {
            before.kids_at(l).push(c)
        })
        &&& self.node_at(r).is_leaf_node() == leaf
        &&& self.node_at(r).parent_id() == Some(p)
        &&& self.items_at(r) == before.items_at(r).drop_first()
        &&& self.kids_at(r) == (if leaf {
            before.kids_at(r)
        } else {
            before.kids_at(r).drop_first()
        })
    }

    /// After a rotation to the left: the nodes that did not change, but
    /// for the parent of the child that went over.
    pub open spec fn rotated_left_others(&self, before: &Self, p: usize, i: int) -> bool {
        let l = before.kids_at(p)[i];
        let r = before.kids_at(p)[i + 1];
        let leaf = before.node_at(l).is_leaf_node();
        let c = before.kids_at(r)[0];
        &&& forall|j: usize| (#[trigger] self.has(j)) == before.has(j)
        &&& forall|j: usize|
            before.has(j) && j != p && j != l && j != r ==> #[trigger] self.same_node(before, j)
        &&& forall|j: usize|
            before.has(j) && j != p && j != l && j != r && #[trigger] self.same_node(before, j)
                ==> self.node_at(j).parent_id() == (if !leaf && j == c {
                Some(l)
            } else {
                before.node_at(j).parent_id()
            })
    }

    /// After a rotation to the left: the records of the tree.
    pub open spec fn rotated_left_records(&self, before: &Self, p: usize, i: int) -> bool {
        let l = before.kids_at(p)[i];
        let r = before.kids_at(p)[i + 1];
        let x = before.items_at(r)[0];
        &&& self.nodes.wf()
        &&& self.root == before.root
        &&& self.len == before.len
        &&& self@ == before@
        &&& self.ids == before.ids
        &&& self.content() == before.content()
        &&& self.heights == before.heights
        &&& self.lows@ == before.lows@.insert(r, Some(x.key_rank()))
        &&& self.highs@ == before.highs@.insert(l, Some(x.key_rank()))
        &&& forall|j: usize|
            #[trigger] self.places@[j] == (if before.has(j) && before.node_at(j).parent_id()
                == Some(r) {
                if before.place(j) == 0 {
                    before.items_at(l).len() as int + 1
                } else {
                    before.place(j) - 1
                }
            } else {
                before.place(j)
            })
    }

    /// The places of the nodes after a rotation to the left between the
    /// children `l` and `r` of a node.
    pub open spec fn places_rotated_left(&self, l: usize, r: usize) -> Map<usize, int> {
        Map::new(
            |j: usize| true,
            |j: usize|
                if self.has(j) && self.node_at(j).parent_id() == Some(r) {
                    if self.place(j) == 0 {
                        self.items_at(l).len() as int + 1
                    } else {
                        self.place(j) - 1
                    }
                } else {
                    self.place(j)
                },
        )
    }

    /// What a rotation to the left around the item `i` of `p` asks for: the
    /// child on the left of the item lacks one item, and the child on its
    /// right can spare one.
    pub open spec fn can_rotate_left(&self, p: usize, i: int) -> bool {
        let l = self.kids_at(p)[i];
        let r = self.kids_at(p)[i + 1];
        &&& self.inv(Some(l))
        &&& self.has(p)
        &&& !self.node_at(p).is_leaf_node()
        &&& 0 <= i < self.items_at(p).len()
        &&& self.items_at(l).len() + 1 == min_capacity_of(self.node_at(l).is_leaf_node())
        &&& self.items_at(r).len() > min_capacity_of(self.node_at(r).is_leaf_node())
    }

    /// The children on the two sides of an item of a node are two nodes of
    /// one kind, other than the node, with that node as their parent.
    pub proof fn lemma_siblings(&self, hole: Option<usize>, p: usize, i: int)
        requires
            self.inv(hole),
            self.has(p),
            !self.node_at(p).is_leaf_node(),
            0 <= i < self.items_at(p).len(),
        ensures
            self.kid_ok(p, i),
            self.kid_ok(p, i + 1),
            self.kids_at(p)[i] != self.kids_at(p)[i + 1],
            self.kids_at(p)[i] != p,
            self.kids_at(p)[i + 1] != p,
            self.node_at(self.kids_at(p)[i]).is_leaf_node() == self.node_at(
                self.kids_at(p)[i + 1],
            ).is_leaf_node(),
            self.root != Some(self.kids_at(p)[i]),
            self.root != Some(self.kids_at(p)[i + 1]),
            self.node_ok(p, hole),
            self.node_ok(self.kids_at(p)[i], hole),
            self.node_ok(self.kids_at(p)[i + 1], hole),
    {
        assert(self.node_ok(p, hole));
        assert(self.kid_ok(p, i));
        assert(self.kid_ok(p, i + 1));
        let l = self.kids_at(p)[i];
        let r = self.kids_at(p)[i + 1];
        assert(self.node_ok(l, hole));
        assert(self.node_ok(r, hole));
    }

    /// The state after a rotation to the left keeps the invariant, with no
    /// node out of balance.
    pub proof fn lemma_rotated_left(&self, before: &Self, p: usize, i: int)
        requires
            before.can_rotate_left(p, i),
            self.rotated_left(before, p, i),
        ensures
            self.inv(None),
            before.counted() ==> self.wf(),
    {
        let l = before.kids_at(p)[i];
        let r = before.kids_at(p)[i + 1];
        let hole = Some(l);
        before.lemma_siblings(hole, p, i);
        assert forall|j: usize| self.has(j) <==> #[trigger] self.ids@.contains(j) by {
            assert(self.has(j) == before.has(j));
            assert(before.has(j) <==> before.ids@.contains(j));
        }
        assert forall|j: usize| self.has(j) implies #[trigger] self.node_ok(j, None) by {
            assert(self.has(j) == before.has(j));
            if j == p {
                self.lemma_rotated_left_parent(before, p, i);
            } else if j == l {
                self.lemma_rotated_left_left(before, p, i);
            } else if j == r {
                self.lemma_rotated_left_right(before, p, i);
            } else {
                self.lemma_rotated_left_other(before, p, i, j);
            }
        }
    }

    /// After a rotation to the left, all is well with the node around
    /// whose item the rotation went.
    pub proof fn lemma_rotated_left_parent(&self, before: &Self, p: usize, i: int)
        requires
            before.can_rotate_left(p, i),
            self.rotated_left(before, p, i),
        ensures
            self.node_ok(p, None),
    {
        let l = before.kids_at(p)[i];
        let r = before.kids_at(p)[i + 1];
        let hole = Some(l);
        let x = before.items_at(r)[0];
        before.lemma_siblings(hole, p, i);
        before.lemma_kids(hole, p);
        assert(self.has(p) == before.has(p));
        assert(before.covers(r, x.key_rank()));
        before.lemma_kid_covers(hole, p, i + 1, x.key_rank());
        if before.root != Some(p) {
            before.lemma_parent(hole, p);
            let q = before.node_at(p).parent_id().unwrap();
            assert(self.has(q) == before.has(q));
            assert(q != l && q != r && q != p);
            assert(self.same_node(before, q));
        }
        assert(self.link_ok(p));
        assert(self.balance_ok(p, None));
        assert(self.order_ok(p));
        assert(self.indexed_ok(p));
        assert forall|t: int| 0 <= t <= self.items_at(p).len() implies #[trigger] self.kid_ok(
            p,
            t,
        ) by {
            assert(before.kid_ok(p, t));
            let c = before.kids_at(p)[t];
            assert(self.has(c) == before.has(c));
            assert(before.node_ok(c, hole));
            if t == i {
                assert(c == l);
            } else if t == i + 1 {
                assert(c == r);
            } else {
                assert(c != l && c != r && c != p);
                if !before.node_at(r).is_leaf_node() {
                    before.lemma_kids(hole, r);
                    assert(before.kid_ok(r, 0));
                }
                assert(self.same_node(before, c));
            }
            assert(self.place(c) == before.place(c));
            assert(self.kids_at(p)[t] == c);
        }
        assert(self.kids_ok(p));
    }

    /// After a rotation to the left, all is well with the child that took
    /// an item.
    pub proof fn lemma_rotated_left_left(&self, before: &Self, p: usize, i: int)
        requires
            before.can_rotate_left(p, i),
            self.rotated_left(before, p, i),
        ensures
            self.node_ok(before.kids_at(p)[i], None),
    {
        let l = before.kids_at(p)[i];
        let r = before.kids_at(p)[i + 1];
        let hole = Some(l);
        let x = before.items_at(r)[0];
        let v = before.items_at(p)[i];
        before.lemma_siblings(hole, p, i);
        before.lemma_kids(hole, l);
        before.lemma_kids(hole, r);
        assert(self.has(p) == before.has(p));
        assert(self.has(l) == before.has(l));
        assert(before.covers(r, x.key_rank()));
        assert(before.covers(p, v.key_rank()));
        assert(self.link_ok(l));
        assert(self.balance_ok(l, None));
        assert(self.order_ok(l));
        assert(self.indexed_ok(l));
        if !self.node_at(l).is_leaf_node() {
            let n = before.items_at(l).len() as int;
            assert forall|t: int| 0 <= t <= self.items_at(l).len() implies #[trigger] self.kid_ok(
                l,
                t,
            ) by {
                if t <= n {
                    assert(before.kid_ok(l, t));
                    let c = before.kids_at(l)[t];
                    assert(c != p && c != l && c != r);
                    assert(before.kid_ok(r, 0));
                    assert(c != before.kids_at(r)[0]);
                    assert(self.same_node(before, c));
                } else {
                    assert(before.kid_ok(r, 0));
                    let c = before.kids_at(r)[0];
                    assert(c != p && c != l && c != r);
                    assert(self.same_node(before, c));
                }
            }
        }
        assert(self.kids_ok(l));
    }

    /// After a rotation to the left, all is well with the child that gave
    /// an item.
    pub proof fn lemma_rotated_left_right(&self, before: &Self, p: usize, i: int)
        requires
            before.can_rotate_left(p, i),
            self.rotated_left(before, p, i),
        ensures
            self.node_ok(before.kids_at(p)[i + 1], None),
    {
        let l = before.kids_at(p)[i];
        let r = before.kids_at(p)[i + 1];
        let hole = Some(l);
        let x = before.items_at(r)[0];
        before.lemma_siblings(hole, p, i);
        before.lemma_kids(hole, r);
        assert(self.has(p) == before.has(p));
        assert(self.has(r) == before.has(r));
        assert(self.link_ok(r));
        assert(self.balance_ok(r, None));
        assert(self.order_ok(r));
        assert(self.indexed_ok(r));
        if !self.node_at(r).is_leaf_node() {
            assert forall|t: int| 0 <= t <= self.items_at(r).len() implies #[trigger] self.kid_ok(
                r,
                t,
            ) by {
                assert(before.kid_ok(r, t + 1));
                assert(before.kid_ok(r, 0));
                let c = before.kids_at(r)[t + 1];
                assert(c != p && c != l && c != r);
                assert(c != before.kids_at(r)[0]);
                assert(self.same_node(before, c));
            }
        }
        assert(self.kids_ok(r));
    }

    /// After a rotation to the left, all is well with the nodes that did
    /// not change.
    pub proof fn lemma_rotated_left_other(&self, before: &Self, p: usize, i: int, j: usize)
        requires
            before.can_rotate_left(p, i),
            self.rotated_left(before, p, i),
            self.has(j),
            j != p,
            j != before.kids_at(p)[i],
            j != before.kids_at(p)[i + 1],
        ensures
            self.node_ok(j, None),
    {
        let l = before.kids_at(p)[i];
        let r = before.kids_at(p)[i + 1];
        let hole = Some(l);
        let leaf = before.node_at(l).is_leaf_node();
        let c0 = before.kids_at(r)[0];
        before.lemma_siblings(hole, p, i);
        before.lemma_kids(hole, r);
        before.lemma_kids(hole, l);
        assert(self.has(j) == before.has(j));
        assert(before.node_ok(j, hole));
        assert(self.same_node(before, j));
        if before.root != Some(j) {
            before.lemma_parent(hole, j);
            let q = before.node_at(j).parent_id().unwrap();
            assert(self.has(q) == before.has(q));
            if q != p && q != l && q != r {
                assert(self.same_node(before, q));
            }
            if q == r {
                assert(before.kid_ok(r, before.place(j)));
                if before.place(j) == 0 {
                    assert(j == c0);
                    assert(self.kids_at(l)[before.items_at(l).len() as int + 1] == j);
                } else {
                    assert(j != c0);
                    assert(self.kids_at(r)[before.place(j) - 1] == j);
                }
            } else {
                if !leaf {
                    assert(before.kid_ok(r, 0));
                    assert(j != c0);
                }
                assert(self.place(j) == before.place(j));
                if q == l {
                    assert(self.kids_at(l)[before.place(j)] == j);
                }
            }
        }
        assert(self.link_ok(j));
        assert(self.balance_ok(j, None));
        assert(self.order_ok(j));
        assert(self.indexed_ok(j));
        if !self.node_at(j).is_leaf_node() {
            assert forall|t: int| 0 <= t <= self.items_at(j).len() implies #[trigger] self.kid_ok(
                j,
                t,
            ) by {
                let c = before.kids_at(j)[t];
                assert(before.kid_ok(j, t));
                assert(c != l && c != r);
                assert(self.has(c) == before.has(c));
                if !leaf {
                    assert(before.kid_ok(r, 0));
                    assert(c != c0);
                }
                if c != p {
                    assert(self.same_node(before, c));
                }
            }
        }
        assert(self.kids_ok(j));
    }
}

impl<T: KeyOrd, A: Arena<Reference<T>>> Storage<T, A> {
    /// The steps of a rotation to the left around the item `i` of `p`, from
    /// `before` to `self`: the first item leaves the child on the right
    /// and takes the place of the item of `p`, which goes to the end of the
    /// child on the left, with the child that went over; then the records
    /// are brought up to date.
    pub open spec fn rotate_left_steps(
        &self,
        before: &Self,
        mid1: &Self,
        mid2: &Self,
        mid3: &Self,
        mid4: &Self,
        p: usize,
        i: int,
    ) -> bool {
        let l = before.kids_at(p)[i];
        let r = before.kids_at(p)[i + 1];
        let leaf = before.node_at(l).is_leaf_node();
        let x = before.items_at(r)[0];
        let v = before.items_at(p)[i];
        let c = before.kids_at(r)[0];
        &&& before.can_rotate_left(p, i)
        &&& mid1.step(before, r)
        &&& mid1.node_at(r).is_leaf_node() == before.node_at(r).is_leaf_node()
        &&& mid1.node_at(r).parent_id() == Some(p)
        &&& mid1.items_at(r) == before.items_at(r).drop_first()
        &&& mid1.kids_at(r) == (if before.node_at(r).is_leaf_node() {
            before.kids_at(r)
        } else {
            before.kids_at(r).drop_first()
        })
        &&& mid2.step(mid1, p)
        &&& mid2.node_at(p).is_leaf_node() == mid1.node_at(p).is_leaf_node()
        &&& mid2.node_at(p).parent_id() == mid1.node_at(p).parent_id()
        &&& mid2.items_at(p) == mid1.items_at(p).update(i, x)
        &&& mid2.kids_at(p) == mid1.kids_at(p)
        &&& mid3.step(mid2, l)
        &&& mid3.node_at(l).is_leaf_node() == mid2.node_at(l).is_leaf_node()
        &&& mid3.node_at(l).parent_id() == Some(p)
        &&& mid3.items_at(l) == mid2.items_at(l).push(v)
        &&& mid3.kids_at(l) == (if leaf {
            mid2.kids_at(l)
        } else {
            mid2.kids_at(l).push(c)
        })
        &&& if leaf {
            mid4 == mid3
        } else {
            &&& mid4.step(mid3, c)
            &&& mid4.same_node(mid3, c)
            &&& mid4.node_at(c).parent_id() == Some(l)
        }
        &&& self.nodes == mid4.nodes
        &&& self.root == mid4.root
        &&& self.len == mid4.len
        &&& self.ids == mid4.ids
        &&& self.heights == before.heights
        &&& self.lows@ == before.lows@.insert(r, Some(x.key_rank()))
        &&& self.highs@ == before.highs@.insert(l, Some(x.key_rank()))
        &&& self.places@ == before.places_rotated_left(l, r)
    }

    /// The steps of a rotation to the left lead from `before` to a state
    /// that is `before` after the rotation.
    pub proof fn lemma_rotate_left_steps(
        &self,
        before: &Self,
        mid1: &Self,
        mid2: &Self,
        mid3: &Self,
        mid4: &Self,
        p: usize,
        i: int,
    )
        requires
            self.rotate_left_steps(before, mid1, mid2, mid3, mid4, p, i),
        ensures
            self.rotated_left(before, p, i),
    {
        let l = before.kids_at(p)[i];
        let r = before.kids_at(p)[i + 1];
        let hole = Some(l);
        let leaf = before.node_at(l).is_leaf_node();
        let x = before.items_at(r)[0];
        let v = before.items_at(p)[i];
        let c = before.kids_at(r)[0];
        before.lemma_siblings(hole, p, i);
        before.lemma_kids(hole, r);
        if !leaf {
            assert(before.kid_ok(r, 0));
            assert(c != p && c != l && c != r);
        }
        assert forall|j: usize| (#[trigger] self.has(j)) == before.has(j) by {
            assert(mid4.has(j) == mid3.has(j));
            assert(mid3.has(j) == mid2.has(j));
            assert(mid2.has(j) == mid1.has(j));
            assert(mid1.has(j) == before.has(j));
        }
        // the three nodes
        assert(mid1.has(p) == before.has(p));
        assert(mid1.has(l) == before.has(l));
        assert(mid1.has(r) == before.has(r));
        assert(mid2.has(l) == mid1.has(l));
        assert(mid2.has(r) == mid1.has(r));
        assert(mid2.has(p) == mid1.has(p));
        assert(mid3.has(p) == mid2.has(p));
        assert(mid3.has(r) == mid2.has(r));
        assert(mid3.has(l) == mid2.has(l));
        assert(mid1.node_at(p) == before.node_at(p));
        assert(mid1.node_at(l) == before.node_at(l));
        assert(mid2.node_at(l) == mid1.node_at(l));
        assert(mid2.node_at(r) == mid1.node_at(r));
        assert(mid3.node_at(p) == mid2.node_at(p));
        assert(mid3.node_at(r) == mid2.node_at(r));
        if !leaf {
            assert(mid4.node_at(p) == mid3.node_at(p));
            assert(mid4.node_at(r) == mid3.node_at(r));
            assert(mid4.node_at(l) == mid3.node_at(l));
        }
        assert forall|j: usize| before.has(j) && j != p && j != l && j != r implies (
        #[trigger] self.same_node(before, j)) && self.node_at(j).parent_id() == (if !leaf && j
            == c {
            Some(l)
        } else {
            before.node_at(j).parent_id()
        }) by {
            assert(mid1.has(j) == before.has(j));
            assert(mid2.has(j) == mid1.has(j));
            assert(mid3.has(j) == mid2.has(j));
            assert(mid4.has(j) == mid3.has(j));
            assert(mid1.node_at(j) == before.node_at(j));
            assert(mid2.node_at(j) == mid1.node_at(j));
            assert(mid3.node_at(j) == mid2.node_at(j));
            if !leaf && j != c {
                assert(mid4.node_at(j) == mid3.node_at(j));
            }
        }
        assert(self.rotated_left_others(before, p, i));
        assert forall|j: usize|
            #[trigger] self.places@[j] == (if before.has(j) && before.node_at(j).parent_id()
                == Some(r) {
                if before.place(j) == 0 {
                    before.items_at(l).len() as int + 1
                } else {
                    before.place(j) - 1
                }
            } else {
                before.place(j)
            }) by {}
        assert(self.nodes.wf());
        assert(self.ids == before.ids);
        assert(self.root == before.root);
        assert(self.len == before.len);
        assert(self.node_at(p) == mid2.node_at(p));
        assert(self.node_at(l) == mid3.node_at(l));
        assert(self.node_at(r) == mid1.node_at(r));
        assert(self.items_at(p) == before.items_at(p).update(i, x));
        assert(self.kids_at(p) == before.kids_at(p));
        assert(self.items_at(l) == before.items_at(l).push(v));
        assert(self.items_at(r) == before.items_at(r).drop_first());
        assert(self.node_at(l).is_leaf_node() == leaf);
        assert(self.node_at(r).is_leaf_node() == leaf);
        assert(self.node_at(l).parent_id() == Some(p));
        assert(self.node_at(r).parent_id() == Some(p));
        assert(self.node_at(p).parent_id() == before.node_at(p).parent_id());
        assert(self.node_at(p).is_leaf_node() == before.node_at(p).is_leaf_node());
        assert(self.kids_at(l) == (if leaf {
            before.kids_at(l)
        } else {
            before.kids_at(l).push(c)
        }));
        assert(self.kids_at(r) == (if leaf {
            before.kids_at(r)
        } else {
            before.kids_at(r).drop_first()
        }));
        assert(self.rotated_left_nodes(before, p, i));
        self.lemma_rotate_left_content(before, mid1, mid2, mid3, mid4, p, i);
        assert(self.rotated_left_records(before, p, i));
    }


    /// The steps of a rotation to the left leave the content of the tree
    /// as it was.
    pub proof fn lemma_rotate_left_content(
        &self,
        before: &Self,
        mid1: &Self,
        mid2: &Self,
        mid3: &Self,
        mid4: &Self,
        p: usize,
        i: int,
    )
        requires
            self.rotate_left_steps(before, mid1, mid2, mid3, mid4, p, i),
        ensures
            self.content() == before.content(),
    {
        let l = before.kids_at(p)[i];
        let r = before.kids_at(p)[i + 1];
        let hole = Some(l);
        let leaf = before.node_at(l).is_leaf_node();
        let x = before.items_at(r)[0];
        let v = before.items_at(p)[i];
        let c = before.kids_at(r)[0];
        before.lemma_siblings(hole, p, i);
        before.lemma_kids(hole, r);
        if !leaf {
            assert(before.kid_ok(r, 0));
            assert(c != p && c != l && c != r);
        }
        assert(mid1.has(p) == before.has(p));
        assert(mid1.has(l) == before.has(l));
        assert(mid2.has(l) == mid1.has(l));
        assert(mid1.node_at(p) == before.node_at(p));
        assert(mid1.node_at(l) == before.node_at(l));
        assert(mid2.node_at(l) == mid1.node_at(l));
        // the content
        assert(before.ids@.contains(p));
        assert(before.ids@.contains(l));
        assert(before.ids@.contains(r));
        assert forall|j: usize| j != r && before.ids@.contains(j) implies #[trigger] mid1.items_at(
            j,
        ) == before.items_at(j) by {
            assert(before.has(j));
            assert(mid1.node_at(j) == before.node_at(j));
        }
        mid1.lemma_content_update(before, r);
        assert forall|j: usize| j != p && mid1.ids@.contains(j) implies #[trigger] mid2.items_at(
            j,
        ) == mid1.items_at(j) by {
            assert(before.has(j));
            assert(mid1.has(j) == before.has(j));
            assert(mid2.node_at(j) == mid1.node_at(j));
        }
        mid2.lemma_content_update(mid1, p);
        assert forall|j: usize| j != l && mid2.ids@.contains(j) implies #[trigger] mid3.items_at(
            j,
        ) == mid2.items_at(j) by {
            assert(before.has(j));
            assert(mid1.has(j) == before.has(j));
            assert(mid2.has(j) == mid1.has(j));
            assert(mid3.node_at(j) == mid2.node_at(j));
        }
        mid3.lemma_content_update(mid2, l);
        assert forall|t: int| 0 <= t < mid3.ids@.len() implies mid3.items_at(
            #[trigger] mid3.ids@[t],
        ) == self.items_at(mid3.ids@[t]) by {
            let j = mid3.ids@[t];
            assert(before.ids@.contains(j));
            assert(before.has(j));
            assert(mid1.has(j) == before.has(j));
            assert(mid2.has(j) == mid1.has(j));
            assert(mid3.has(j) == mid2.has(j));
            if !leaf {
                if j != c {
                    assert(mid4.node_at(j) == mid3.node_at(j));
                }
            }
        }
        lemma_sum_same(*mid3, *self, self.ids@);
        assert(self.content() == mid3.content());
        lemma_drop_multiset(before.items_at(r));
        lemma_drop_multiset(before.items_at(l));
        super::nodes::lemma_update_multiset(before.items_at(p), i, x);
        let msr = before.items_at(r).to_multiset();
        let msr1 = mid1.items_at(r).to_multiset();
        let msp = before.items_at(p).to_multiset();
        let msp2 = mid2.items_at(p).to_multiset();
        let msl = before.items_at(l).to_multiset();
        let msl3 = mid3.items_at(l).to_multiset();
        assert(msr =~= msr1.insert(x));
        assert(mid1.items_at(p) == before.items_at(p));
        assert(msp2.insert(v) =~= msp.insert(x));
        assert(mid2.items_at(l) == before.items_at(l));
        assert(mid3.items_at(l) == before.items_at(l).push(v));
        assert(msl3 =~= msl.insert(v));
        assert(self.content() =~= before.content()) by {
            assert forall|w: T| self.content().count(w) == before.content().count(w) by {
                assert(msp2.insert(v).count(w) == msp.insert(x).count(w));
                assert(mid1.content().count(w) + before.items_at(r).to_multiset().count(w)
                    == before.content().count(w) + mid1.items_at(r).to_multiset().count(w));
                assert(mid2.content().count(w) + mid1.items_at(p).to_multiset().count(w)
                    == mid1.content().count(w) + mid2.items_at(p).to_multiset().count(w));
                assert(mid3.content().count(w) + mid2.items_at(l).to_multiset().count(w)
                    == mid2.content().count(w) + mid3.items_at(l).to_multiset().count(w));
            }
        }
    }

    /// Where an address stands after a rotation to the left around the
    /// item `i` of `p`, between its children `l` and `r`, the first of
    /// which had `n` items.
    pub open spec fn address_rotated_left(
        addr: Address,
        p: usize,
        i: int,
        l: usize,
        r: usize,
        n: int,
    ) -> (int, int) {
        if addr.id == r {
            if addr.offset.as_int() == 0 {
                (p as int, i)
            } else {
                (addr.id as int, addr.offset.as_int() - 1)
            }
        } else if addr.id == p && addr.offset.as_int() == i {
            (l as int, n)
        } else {
            (addr.id as int, addr.offset.as_int())
        }
    }

    /// After a rotation to the left, the address to which an address has
    /// moved stands for what the address stood for.
    pub proof fn lemma_rotated_left_address(
        &self,
        before: &Self,
        p: usize,
        i: int,
        addr: Address,
        new_addr: Address,
    )
        requires
            before.can_rotate_left(p, i),
            self.rotated_left(before, p, i),
            before.addressable(addr),
            new_addr.offset.as_int() >= 0,
            (new_addr.id as int, new_addr.offset.as_int()) == Self::address_rotated_left(
                addr,
                p,
                i,
                before.kids_at(p)[i],
                before.kids_at(p)[i + 1],
                before.items_at(before.kids_at(p)[i]).len() as int,
            ),
        ensures
            self.addressable(new_addr),
            self.target_of(new_addr) == before.target_of(addr),
            before.is_item_address(addr) ==> self.is_item_address(new_addr),
    {
        let l = before.kids_at(p)[i];
        let r = before.kids_at(p)[i + 1];
        let hole = Some(l);
        before.lemma_siblings(hole, p, i);
        assert(self.has(l) == before.has(l));
        assert(self.has(r) == before.has(r));
        assert(self.has(p) == before.has(p));
        assert(self.has(addr.id) == before.has(addr.id));
        if addr.id != l && addr.id != p && addr.id != r {
            assert(self.same_node(before, addr.id));
        }
    }

    /// Try to rotate left the node `id` to benefits the child number `deficient_child_index`.
    ///
    /// Returns true if the rotation succeeded, of false if the target child has no right sibling,
    /// or if this sibling would underflow.
    pub fn try_rotate_left(
        &mut self,
        id: usize,
        deficient_child_index: usize,
        addr: &mut Address,
    ) -> (done: bool)
        requires
            old(self).has(id),
            !old(self).node_at(id).is_leaf_node(),
            deficient_child_index <= old(self).items_at(id).len(),
            old(self).inv(Some(old(self).kids_at(id)[deficient_child_index as int])),
            old(self).items_at(old(self).kids_at(id)[deficient_child_index as int]).len() + 1
                == min_capacity_of(
                old(self).node_at(old(self).kids_at(id)[deficient_child_index as int]).is_leaf_node(),
            ),
            old(self).addressable(*old(addr)),
        ensures
            done == (deficient_child_index < old(self).items_at(id).len() && old(self).items_at(
                old(self).kids_at(id)[deficient_child_index + 1],
            ).len() > min_capacity_of(
                old(self).node_at(old(self).kids_at(id)[deficient_child_index + 1]).is_leaf_node(),
            )),
            !done ==> *final(self) == *old(self) && *final(addr) == *old(addr),
            done ==> {
                &&& final(self).inv(None)
                &&& final(self).counted() == old(self).counted()
                &&& old(self).counted() ==> final(self).wf()
                &&& final(self)@ == old(self)@
                &&& final(self).len == old(self).len
                &&& final(self).addressable(*final(addr))
                &&& final(self).target_of(*final(addr)) == old(self).target_of(*old(addr))
                &&& old(self).is_item_address(*old(addr)) ==> final(self).is_item_address(
                    *final(addr),
                )
                &&& final(self).rotated_left(old(self), id, deficient_child_index as int)
            },
    {
        let ghost before = *self;
        let ghost i = deficient_child_index as int;
        let ghost hole = Some(before.kids_at(id)[i]);
        proof {
            before.lemma_kids(hole, id);
            assert(before.node_ok(id, hole));
            assert(before.node_ok(addr.id, hole));
        }
        let node = self.node(id).unwrap();
        let right_sibling_index = deficient_child_index + 1;
        if right_sibling_index >= node.child_count() {
            return false;  // no right sibling
        }
        let right_sibling_id = node.child_id(right_sibling_index).unwrap();
        let deficient_child_id = node.child_id(deficient_child_index).unwrap();
        proof {
            before.lemma_siblings(hole, id, i);
            before.lemma_kids(hole, right_sibling_id);
        }
        let right = self.node(right_sibling_id).unwrap();
        if right.item_count() <= right.min_capacity() {
            return false;  // the right sibling would underflow.
        }
        let pivot_offset = Offset::new(deficient_child_index);
        let popped = self.node_mut(right_sibling_id).pop_left();
        let ghost mid1 = *self;
        match popped {
            Ok((opt_child_id, value)) => {
                proof {
                    assert(mid1.has(id) == before.has(id));
                    assert(mid1.node_at(id) == before.node_at(id));
                }
                let value = self.node_mut(id).replace(pivot_offset, value);
                let ghost mid2 = *self;
                proof {
                    assert(mid1.has(deficient_child_id) == before.has(deficient_child_id));
                    assert(mid1.node_at(deficient_child_id) == before.node_at(
                        deficient_child_id,
                    ));
                    assert(mid2.has(deficient_child_id) == mid1.has(deficient_child_id));
                    assert(mid2.node_at(deficient_child_id) == mid1.node_at(
                        deficient_child_id,
                    ));
                }
                let left_offset = self.node_mut(deficient_child_id).push_right(
                    value,
                    opt_child_id,
                );
                let ghost mid3 = *self;
                // update opt_child's parent
                if let Some(child_id) = opt_child_id {
                    proof {
                        assert(before.kid_ok(right_sibling_id, 0));
                        assert(mid1.has(child_id) == before.has(child_id));
                        assert(mid2.has(child_id) == mid1.has(child_id));
                        assert(mid3.has(child_id) == mid2.has(child_id));
                    }
                    self.node_mut(child_id).set_parent(Some(deficient_child_id))
                }
                let ghost mid4 = *self;
                // update address.
                if addr.id == right_sibling_id {
                    // addressed item is in the right node.
                    if addr.offset.is_at(0) {
                        // addressed item is moving to pivot.
                        addr.id = id;
                        addr.offset = pivot_offset;
                    } else {
                        // addressed item stays on right.
                        addr.offset.decr();
                    }
                } else if addr.id == id {
                    // addressed item is in the parent node.
                    if addr.offset.is_at(deficient_child_index) {
                        // addressed item is the pivot, moving to the left (deficient) node.
                        addr.id = deficient_child_id;
                        addr.offset = left_offset;
                    }
                }
                proof {
                    let x = before.items_at(right_sibling_id)[0];
                    self.lows = Ghost(before.lows@.insert(right_sibling_id, Some(x.key_rank())));
                    self.highs = Ghost(
                        before.highs@.insert(deficient_child_id, Some(x.key_rank())),
                    );
                    self.places = Ghost(
                        before.places_rotated_left(deficient_child_id, right_sibling_id),
                    );
                    self.lemma_rotate_left_steps(&before, &mid1, &mid2, &mid3, &mid4, id, i);
                    self.lemma_rotated_left(&before, id, i);
                    self.lemma_rotated_left_address(&before, id, i, *old(addr), *addr);
                }
                true  // rotation succeeded
            },
            Err(_) => false,
        }
    }
}

impl<T: KeyOrd, A: Arena<Reference<T>>> Storage<T, A> {
    /// `self` is `before` after a rotation to the right around the item on
    /// the left of the child `i` of the node `p`: that item has gone down
    /// to the front of that child, and the last item of the child before
    /// it has come up into its place, the last child of that child going
    /// over with it.
    pub open spec fn rotated_right(&self, before: &Self, p: usize, i: int) -> bool {
        &&& self.rotated_right_nodes(before, p, i)
        &&& self.rotated_right_others(before, p, i)
        &&& self.rotated_right_records(before, p, i)
    }

    /// After a rotation to the right: the three nodes that changed.
    pub open spec fn rotated_right_nodes(&self, before: &Self, p: usize, i: int) -> bool {
        let s = before.kids_at(p)[i - 1];
        let d = before.kids_at(p)[i];
        let leaf = before.node_at(d).is_leaf_node();
        let x = before.items_at(s).last();
        let v = before.items_at(p)[i - 1];
        let c = before.kids_at(s).last();
        &&& self.node_at(p).is_leaf_node() == before.node_at(p).is_leaf_node()
        &&& self.node_at(p).parent_id() == before.node_at(p).parent_id()
        &&& self.items_at(p) == before.items_at(p).update(i - 1, x)
        &&& self.kids_at(p) == before.kids_at(p)
        &&& self.node_at(d).is_leaf_node() == leaf
        &&& self.node_at(d).parent_id() == Some(p)
        &&& self.items_at(d) == seq![v] + before.items_at(d)
        &&& self.kids_at(d) == (if leaf {
            before.kids_at(d)
        } else {
            seq![c] + before.kids_at(d)
        })
        &&& self.node_at(s).is_leaf_node() == leaf
        &&& self.node_at(s).parent_id() == Some(p)
        &&& self.items_at(s) == before.items_at(s).drop_last()
        &&& self.kids_at(s) == (if leaf {
            before.kids_at(s)
        } else {
            before.kids_at(s).drop_last()
        })
    }

    /// After a rotation to the right: the nodes that did not change, but
    /// for the parent of the child that went over.
    pub open spec fn rotated_right_others(&self, before: &Self, p: usize, i: int) -> bool {
        let s = before.kids_at(p)[i - 1];
        let d = before.kids_at(p)[i];
        let leaf = before.node_at(d).is_leaf_node();
        let c = before.kids_at(s).last();
        &&& forall|j: usize| (#[trigger] self.has(j)) == before.has(j)
        &&& forall|j: usize|
            before.has(j) && j != p && j != s && j != d ==> #[trigger] self.same_node(before, j)
        &&& forall|j: usize|
            before.has(j) && j != p && j != s && j != d && #[trigger] self.same_node(before, j)
                ==> self.node_at(j).parent_id() == (if !leaf && j == c {
                Some(d)
            } else {
                before.node_at(j).parent_id()
            })
    }

    /// After a rotation to the right: the records of the tree.
    pub open spec fn rotated_right_records(&self, before: &Self, p: usize, i: int) -> bool {
        let s = before.kids_at(p)[i - 1];
        let d = before.kids_at(p)[i];
        let x = before.items_at(s).last();
        &&& self.nodes.wf()
        &&& self.root == before.root
        &&& self.len == before.len
        &&& self@ == before@
        &&& self.ids == before.ids
        &&& self.content() == before.content()
        &&& self.heights == before.heights
        &&& self.lows@ == before.lows@.insert(d, Some(x.key_rank()))
        &&& self.highs@ == before.highs@.insert(s, Some(x.key_rank()))
        &&& forall|j: usize| #[trigger] self.places@[j] == before.places_rotated_right(s, d)[j]
    }

    /// The places of the nodes after a rotation to the right between the
    /// children `s` and `d` of a node.
    pub open spec fn places_rotated_right(&self, s: usize, d: usize) -> Map<usize, int> {
        Map::new(
            |j: usize| true,
            |j: usize|
                if self.has(j) && self.node_at(j).parent_id() == Some(d) {
                    self.place(j) + 1
                } else if self.has(j) && self.node_at(j).parent_id() == Some(s) && self.place(j)
                    == self.items_at(s).len() {
                    0
                } else {
                    self.place(j)
                },
        )
    }

    /// What a rotation to the right around the item on the left of the
    /// child `i` of `p` asks for: that child lacks one item, and the child
    /// before it can spare one.
    pub open spec fn can_rotate_right(&self, p: usize, i: int) -> bool {
        let s = self.kids_at(p)[i - 1];
        let d = self.kids_at(p)[i];
        &&& self.inv(Some(d))
        &&& self.has(p)
        &&& !self.node_at(p).is_leaf_node()
        &&& 1 <= i <= self.items_at(p).len()
        &&& self.items_at(d).len() + 1 == min_capacity_of(self.node_at(d).is_leaf_node())
        &&& self.items_at(s).len() > min_capacity_of(self.node_at(s).is_leaf_node())
    }

    /// The state after a rotation to the right keeps the invariant, with
    /// no node out of balance.
    pub proof fn lemma_rotated_right(&self, before: &Self, p: usize, i: int)
        requires
            before.can_rotate_right(p, i),
            self.rotated_right(before, p, i),
        ensures
            self.inv(None),
            before.counted() ==> self.wf(),
    {
        let s = before.kids_at(p)[i - 1];
        let d = before.kids_at(p)[i];
        let hole = Some(d);
        before.lemma_siblings(hole, p, i - 1);
        assert forall|j: usize| self.has(j) <==> #[trigger] self.ids@.contains(j) by {
            assert(self.has(j) == before.has(j));
            assert(before.has(j) <==> before.ids@.contains(j));
        }
        assert forall|j: usize| self.has(j) implies #[trigger] self.node_ok(j, None) by {
            assert(self.has(j) == before.has(j));
            if j == p {
                self.lemma_rotated_right_parent(before, p, i);
            } else if j == s {
                self.lemma_rotated_right_donor(before, p, i);
            } else if j == d {
                self.lemma_rotated_right_taker(before, p, i);
            } else {
                self.lemma_rotated_right_other(before, p, i, j);
            }
        }
    }

    /// After a rotation to the right, all is well with the node around
    /// whose item the rotation went.
    pub proof fn lemma_rotated_right_parent(&self, before: &Self, p: usize, i: int)
        requires
            before.can_rotate_right(p, i),
            self.rotated_right(before, p, i),
        ensures
            self.node_ok(p, None),
    {
        let s = before.kids_at(p)[i - 1];
        let d = before.kids_at(p)[i];
        let hole = Some(d);
        let x = before.items_at(s).last();
        before.lemma_siblings(hole, p, i - 1);
        before.lemma_kids(hole, p);
        assert(self.has(p) == before.has(p));
        assert(before.covers(s, x.key_rank()));
        before.lemma_kid_covers(hole, p, i - 1, x.key_rank());
        if before.root != Some(p) {
            before.lemma_parent(hole, p);
            let q = before.node_at(p).parent_id().unwrap();
            assert(self.has(q) == before.has(q));
            assert(q != s && q != d && q != p);
            assert(self.same_node(before, q));
        }
        assert(self.link_ok(p));
        assert(self.balance_ok(p, None));
        assert(self.order_ok(p));
        assert(self.indexed_ok(p));
        assert forall|t: int| 0 <= t <= self.items_at(p).len() implies #[trigger] self.kid_ok(
            p,
            t,
        ) by {
            assert(before.kid_ok(p, t));
            let c = before.kids_at(p)[t];
            assert(self.has(c) == before.has(c));
            assert(before.node_ok(c, hole));
            if t == i - 1 {
                assert(c == s);
            } else if t == i {
                assert(c == d);
            } else {
                assert(c != s && c != d && c != p);
                if !before.node_at(s).is_leaf_node() {
                    before.lemma_kids(hole, s);
                    assert(before.kid_ok(s, before.items_at(s).len() as int));
                }
                assert(self.same_node(before, c));
            }
            assert(self.place(c) == before.place(c));
            assert(self.kids_at(p)[t] == c);
        }
        assert(self.kids_ok(p));
    }

    /// After a rotation to the right, all is well with the child that gave
    /// an item.
    pub proof fn lemma_rotated_right_donor(&self, before: &Self, p: usize, i: int)
        requires
            before.can_rotate_right(p, i),
            self.rotated_right(before, p, i),
        ensures
            self.node_ok(before.kids_at(p)[i - 1], None),
    {
        let s = before.kids_at(p)[i - 1];
        let d = before.kids_at(p)[i];
        let hole = Some(d);
        let x = before.items_at(s).last();
        let n = before.items_at(s).len() as int;
        before.lemma_siblings(hole, p, i - 1);
        before.lemma_kids(hole, s);
        assert(self.has(p) == before.has(p));
        assert(self.has(s) == before.has(s));
        assert(self.place(s) == before.place(s));
        assert(self.link_ok(s));
        assert(self.balance_ok(s, None));
        assert(self.order_ok(s));
        assert(self.indexed_ok(s));
        if !self.node_at(s).is_leaf_node() {
            assert forall|t: int| 0 <= t <= self.items_at(s).len() implies #[trigger] self.kid_ok(
                s,
                t,
            ) by {
                assert(before.kid_ok(s, t));
                assert(before.kid_ok(s, n));
                let c = before.kids_at(s)[t];
                assert(c != p && c != s && c != d);
                assert(c != before.kids_at(s)[n]);
                assert(self.same_node(before, c));
                assert(self.place(c) == before.place(c));
            }
        }
        assert(self.kids_ok(s));
    }

    /// After a rotation to the right, all is well with the child that took
    /// an item.
    pub proof fn lemma_rotated_right_taker(&self, before: &Self, p: usize, i: int)
        requires
            before.can_rotate_right(p, i),
            self.rotated_right(before, p, i),
        ensures
            self.node_ok(before.kids_at(p)[i], None),
    {
        let s = before.kids_at(p)[i - 1];
        let d = before.kids_at(p)[i];
        let hole = Some(d);
        let x = before.items_at(s).last();
        let v = before.items_at(p)[i - 1];
        let n = before.items_at(s).len() as int;
        before.lemma_siblings(hole, p, i - 1);
        before.lemma_kids(hole, s);
        before.lemma_kids(hole, d);
        assert(self.has(p) == before.has(p));
        assert(self.has(d) == before.has(d));
        assert(before.covers(s, x.key_rank()));
        assert(before.covers(p, v.key_rank()));
        assert(self.place(d) == before.place(d));
        assert(self.link_ok(d));
        assert(self.balance_ok(d, None));
        assert(self.order_ok(d)) by {
            let a = before.items_at(d);
            let b = self.items_at(d);
            assert forall|t: int| 0 <= t < b.len() implies b[t] == (if t == 0 {
                v
            } else {
                a[t - 1]
            }) by {}
            assert forall|t: int| 0 <= t < a.len() implies (#[trigger] a[t]).key_rank()
                > v.key_rank() by {
                assert(before.covers(d, a[t].key_rank()));
            }
        }
        assert(self.indexed_ok(d));
        if !self.node_at(d).is_leaf_node() {
            assert forall|t: int| 0 <= t <= self.items_at(d).len() implies #[trigger] self.kid_ok(
                d,
                t,
            ) by {
                assert(before.kid_ok(s, n));
                if t == 0 {
                    let c = before.kids_at(s)[n];
                    assert(c != p && c != s && c != d);
                    assert(self.same_node(before, c));
                } else {
                    assert(before.kid_ok(d, t - 1));
                    let c = before.kids_at(d)[t - 1];
                    assert(c != p && c != s && c != d);
                    assert(c != before.kids_at(s)[n]);
                    assert(self.same_node(before, c));
                }
            }
        }
        assert(self.kids_ok(d));
    }

    /// After a rotation to the right, all is well with the nodes that did
    /// not change.
    pub proof fn lemma_rotated_right_other(&self, before: &Self, p: usize, i: int, j: usize)
        requires
            before.can_rotate_right(p, i),
            self.rotated_right(before, p, i),
            self.has(j),
            j != p,
            j != before.kids_at(p)[i - 1],
            j != before.kids_at(p)[i],
        ensures
            self.node_ok(j, None),
    {
        let s = before.kids_at(p)[i - 1];
        let d = before.kids_at(p)[i];
        let hole = Some(d);
        let leaf = before.node_at(d).is_leaf_node();
        let n = before.items_at(s).len() as int;
        let c0 = before.kids_at(s)[n];
        before.lemma_siblings(hole, p, i - 1);
        before.lemma_kids(hole, s);
        before.lemma_kids(hole, d);
        assert(self.has(j) == before.has(j));
        assert(before.node_ok(j, hole));
        assert(self.same_node(before, j));
        if before.root != Some(j) {
            before.lemma_parent(hole, j);
            let q = before.node_at(j).parent_id().unwrap();
            assert(self.has(q) == before.has(q));
            if q != p && q != s && q != d {
                assert(self.same_node(before, q));
            }
            if q == s {
                assert(before.kid_ok(s, before.place(j)));
                if before.place(j) == n {
                    assert(j == c0);
                    assert(self.kids_at(d)[0] == j);
                } else {
                    assert(j != c0);
                    assert(self.kids_at(s)[before.place(j)] == j);
                }
            } else {
                if !leaf {
                    assert(before.kid_ok(s, n));
                    assert(j != c0);
                }
                if q == d {
                    assert(self.kids_at(d)[before.place(j) + 1] == j);
                } else {
                    assert(self.place(j) == before.place(j));
                }
            }
        }
        assert(self.link_ok(j));
        assert(self.balance_ok(j, None));
        assert(self.order_ok(j));
        assert(self.indexed_ok(j));
        if !self.node_at(j).is_leaf_node() {
            assert forall|t: int| 0 <= t <= self.items_at(j).len() implies #[trigger] self.kid_ok(
                j,
                t,
            ) by {
                let c = before.kids_at(j)[t];
                assert(before.kid_ok(j, t));
                assert(c != s && c != d);
                assert(self.has(c) == before.has(c));
                if !leaf {
                    assert(before.kid_ok(s, n));
                    assert(c != c0);
                }
                if c != p {
                    assert(self.same_node(before, c));
                }
                assert(self.place(c) == before.place(c));
            }
        }
        assert(self.kids_ok(j));
    }
}

impl<T: KeyOrd, A: Arena<Reference<T>>> Storage<T, A> {
    /// The steps of a rotation to the right around the item on the left of
    /// the child `i` of `p`, from `before` to `self`: the last item leaves
    /// the child before and takes the place of the item of `p`, which goes
    /// to the front of the child `i`, with the child that went over; then
    /// the records are brought up to date.
    pub open spec fn rotate_right_steps(
        &self,
        before: &Self,
        mid1: &Self,
        mid2: &Self,
        mid3: &Self,
        mid4: &Self,
        p: usize,
        i: int,
    ) -> bool {
        let s = before.kids_at(p)[i - 1];
        let d = before.kids_at(p)[i];
        let leaf = before.node_at(d).is_leaf_node();
        let x = before.items_at(s).last();
        let v = before.items_at(p)[i - 1];
        let c = before.kids_at(s).last();
        &&& before.can_rotate_right(p, i)
        &&& mid1.step(before, s)
        &&& mid1.node_at(s).is_leaf_node() == before.node_at(s).is_leaf_node()
        &&& mid1.node_at(s).parent_id() == Some(p)
        &&& mid1.items_at(s) == before.items_at(s).drop_last()
        &&& mid1.kids_at(s) == (if before.node_at(s).is_leaf_node() {
            before.kids_at(s)
        } else {
            before.kids_at(s).drop_last()
        })
        &&& mid2.step(mid1, p)
        &&& mid2.node_at(p).is_leaf_node() == mid1.node_at(p).is_leaf_node()
        &&& mid2.node_at(p).parent_id() == mid1.node_at(p).parent_id()
        &&& mid2.items_at(p) == mid1.items_at(p).update(i - 1, x)
        &&& mid2.kids_at(p) == mid1.kids_at(p)
        &&& mid3.step(mid2, d)
        &&& mid3.node_at(d).is_leaf_node() == mid2.node_at(d).is_leaf_node()
        &&& mid3.node_at(d).parent_id() == Some(p)
        &&& mid3.items_at(d) == seq![v] + mid2.items_at(d)
        &&& mid3.kids_at(d) == (if leaf {
            mid2.kids_at(d)
        } else {
            seq![c] + mid2.kids_at(d)
        })
        &&& if leaf {
            mid4 == mid3
        } else {
            &&& mid4.step(mid3, c)
            &&& mid4.same_node(mid3, c)
            &&& mid4.node_at(c).parent_id() == Some(d)
        }
        &&& self.nodes == mid4.nodes
        &&& self.root == mid4.root
        &&& self.len == mid4.len
        &&& self.ids == mid4.ids
        &&& self.heights == before.heights
        &&& self.lows@ == before.lows@.insert(d, Some(x.key_rank()))
        &&& self.highs@ == before.highs@.insert(s, Some(x.key_rank()))
        &&& self.places@ == before.places_rotated_right(s, d)
    }

    /// The steps of a rotation to the right lead from `before` to a state
    /// that is `before` after the rotation.
    pub proof fn lemma_rotate_right_steps(
        &self,
        before: &Self,
        mid1: &Self,
        mid2: &Self,
        mid3: &Self,
        mid4: &Self,
        p: usize,
        i: int,
    )
        requires
            self.rotate_right_steps(before, mid1, mid2, mid3, mid4, p, i),
        ensures
            self.rotated_right(before, p, i),
    {
        let s = before.kids_at(p)[i - 1];
        let d = before.kids_at(p)[i];
        let hole = Some(d);
        let leaf = before.node_at(d).is_leaf_node();
        let x = before.items_at(s).last();
        let v = before.items_at(p)[i - 1];
        let c = before.kids_at(s).last();
        before.lemma_siblings(hole, p, i - 1);
        before.lemma_kids(hole, s);
        if !leaf {
            assert(before.kid_ok(s, before.items_at(s).len() as int));
            assert(c != p && c != s && c != d);
        }
        assert forall|j: usize| (#[trigger] self.has(j)) == before.has(j) by {
            assert(mid4.has(j) == mid3.has(j));
            assert(mid3.has(j) == mid2.has(j));
            assert(mid2.has(j) == mid1.has(j));
            assert(mid1.has(j) == before.has(j));
        }
        assert(mid1.has(p) == before.has(p));
        assert(mid1.has(s) == before.has(s));
        assert(mid1.has(d) == before.has(d));
        assert(mid2.has(s) == mid1.has(s));
        assert(mid2.has(d) == mid1.has(d));
        assert(mid2.has(p) == mid1.has(p));
        assert(mid3.has(p) == mid2.has(p));
        assert(mid3.has(d) == mid2.has(d));
        assert(mid3.has(s) == mid2.has(s));
        assert(mid1.node_at(p) == before.node_at(p));
        assert(mid1.node_at(d) == before.node_at(d));
        assert(mid2.node_at(d) == mid1.node_at(d));
        assert(mid2.node_at(s) == mid1.node_at(s));
        assert(mid3.node_at(p) == mid2.node_at(p));
        assert(mid3.node_at(s) == mid2.node_at(s));
        if !leaf {
            assert(mid4.node_at(p) == mid3.node_at(p));
            assert(mid4.node_at(s) == mid3.node_at(s));
            assert(mid4.node_at(d) == mid3.node_at(d));
        }
        assert forall|j: usize| before.has(j) && j != p && j != s && j != d implies (
        #[trigger] self.same_node(before, j)) && self.node_at(j).parent_id() == (if !leaf && j
            == c {
            Some(d)
        } else {
            before.node_at(j).parent_id()
        }) by {
            assert(mid1.has(j) == before.has(j));
            assert(mid2.has(j) == mid1.has(j));
            assert(mid3.has(j) == mid2.has(j));
            assert(mid4.has(j) == mid3.has(j));
            assert(mid1.node_at(j) == before.node_at(j));
            assert(mid2.node_at(j) == mid1.node_at(j));
            assert(mid3.node_at(j) == mid2.node_at(j));
            if !leaf && j != c {
                assert(mid4.node_at(j) == mid3.node_at(j));
            }
        }
        assert(self.rotated_right_others(before, p, i));
        assert(self.node_at(p) == mid2.node_at(p));
        assert(self.node_at(d) == mid3.node_at(d));
        assert(self.node_at(s) == mid1.node_at(s));
        assert(self.rotated_right_nodes(before, p, i));
        self.lemma_rotate_right_content(before, mid1, mid2, mid3, mid4, p, i);
        assert(self.rotated_right_records(before, p, i));
    }

    /// The steps of a rotation to the right leave the content of the tree
    /// as it was.
    pub proof fn lemma_rotate_right_content(
        &self,
        before: &Self,
        mid1: &Self,
        mid2: &Self,
        mid3: &Self,
        mid4: &Self,
        p: usize,
        i: int,
    )
        requires
            self.rotate_right_steps(before, mid1, mid2, mid3, mid4, p, i),
        ensures
            self.content() == before.content(),
    {
        let s = before.kids_at(p)[i - 1];
        let d = before.kids_at(p)[i];
        let hole = Some(d);
        let leaf = before.node_at(d).is_leaf_node();
        let x = before.items_at(s).last();
        let v = before.items_at(p)[i - 1];
        let c = before.kids_at(s).last();
        before.lemma_siblings(hole, p, i - 1);
        before.lemma_kids(hole, s);
        if !leaf {
            assert(before.kid_ok(s, before.items_at(s).len() as int));
            assert(c != p && c != s && c != d);
        }
        assert(mid1.has(p) == before.has(p));
        assert(mid1.has(d) == before.has(d));
        assert(mid2.has(d) == mid1.has(d));
        assert(mid1.node_at(p) == before.node_at(p));
        assert(mid1.node_at(d) == before.node_at(d));
        assert(mid2.node_at(d) == mid1.node_at(d));
        assert(before.ids@.contains(p));
        assert(before.ids@.contains(s));
        assert(before.ids@.contains(d));
        assert forall|j: usize| j != s && before.ids@.contains(j) implies #[trigger] mid1.items_at(
            j,
        ) == before.items_at(j) by {
            assert(before.has(j));
            assert(mid1.node_at(j) == before.node_at(j));
        }
        mid1.lemma_content_update(before, s);
        assert forall|j: usize| j != p && mid1.ids@.contains(j) implies #[trigger] mid2.items_at(
            j,
        ) == mid1.items_at(j) by {
            assert(before.has(j));
            assert(mid1.has(j) == before.has(j));
            assert(mid2.node_at(j) == mid1.node_at(j));
        }
        mid2.lemma_content_update(mid1, p);
        assert forall|j: usize| j != d && mid2.ids@.contains(j) implies #[trigger] mid3.items_at(
            j,
        ) == mid2.items_at(j) by {
            assert(before.has(j));
            assert(mid1.has(j) == before.has(j));
            assert(mid2.has(j) == mid1.has(j));
            assert(mid3.node_at(j) == mid2.node_at(j));
        }
        mid3.lemma_content_update(mid2, d);
        assert forall|t: int| 0 <= t < mid3.ids@.len() implies mid3.items_at(
            #[trigger] mid3.ids@[t],
        ) == self.items_at(mid3.ids@[t]) by {
            let j = mid3.ids@[t];
            assert(before.ids@.contains(j));
            assert(before.has(j));
            assert(mid1.has(j) == before.has(j));
            assert(mid2.has(j) == mid1.has(j));
            assert(mid3.has(j) == mid2.has(j));
            if !leaf {
                if j != c {
                    assert(mid4.node_at(j) == mid3.node_at(j));
                }
            }
        }
        lemma_sum_same(*mid3, *self, self.ids@);
        assert(self.content() == mid3.content());
        lemma_drop_multiset(before.items_at(s));
        lemma_drop_multiset(before.items_at(d));
        super::nodes::lemma_update_multiset(before.items_at(p), i - 1, x);
        let mss = before.items_at(s).to_multiset();
        let mss1 = mid1.items_at(s).to_multiset();
        let msp = before.items_at(p).to_multiset();
        let msp2 = mid2.items_at(p).to_multiset();
        let msd = before.items_at(d).to_multiset();
        let msd3 = mid3.items_at(d).to_multiset();
        assert(mss =~= mss1.insert(x));
        assert(mid1.items_at(p) == before.items_at(p));
        assert(msp2.insert(v) =~= msp.insert(x));
        assert(mid2.items_at(d) == before.items_at(d));
        assert(mid3.items_at(d) == seq![v] + before.items_at(d));
        assert(msd3 =~= msd.insert(v));
        assert(self.content() =~= before.content()) by {
            assert forall|w: T| self.content().count(w) == before.content().count(w) by {
                assert(msp2.insert(v).count(w) == msp.insert(x).count(w));
                assert(mid1.content().count(w) + before.items_at(s).to_multiset().count(w)
                    == before.content().count(w) + mid1.items_at(s).to_multiset().count(w));
                assert(mid2.content().count(w) + mid1.items_at(p).to_multiset().count(w)
                    == mid1.content().count(w) + mid2.items_at(p).to_multiset().count(w));
                assert(mid3.content().count(w) + mid2.items_at(d).to_multiset().count(w)
                    == mid2.content().count(w) + mid3.items_at(d).to_multiset().count(w));
            }
        }
    }

    /// Where an address stands after a rotation to the right around the
    /// item on the left of the child `i` of `p`, between its children `s`,
    /// which had `n` items, and `d`.
    pub open spec fn address_rotated_right(
        addr: Address,
        p: usize,
        i: int,
        s: usize,
        d: usize,
        n: int,
    ) -> (int, int) {
        if addr.id == d {
            (addr.id as int, addr.offset.as_int() + 1)
        } else if addr.id == s && addr.offset.as_int() == n - 1 {
            (p as int, i - 1)
        } else if addr.id == p && addr.offset.as_int() == i - 1 {
            (d as int, 0)
        } else {
            (addr.id as int, addr.offset.as_int())
        }
    }

    /// After a rotation to the right, the address to which an address has
    /// moved stands for what the address stood for.
    pub proof fn lemma_rotated_right_address(
        &self,
        before: &Self,
        p: usize,
        i: int,
        addr: Address,
        new_addr: Address,
    )
        requires
            before.can_rotate_right(p, i),
            self.rotated_right(before, p, i),
            before.addressable(addr),
            before.is_item_address(addr) || addr.id != before.kids_at(p)[i - 1],
            new_addr.offset.as_int() >= 0,
            (new_addr.id as int, new_addr.offset.as_int()) == Self::address_rotated_right(
                addr,
                p,
                i,
                before.kids_at(p)[i - 1],
                before.kids_at(p)[i],
                before.items_at(before.kids_at(p)[i - 1]).len() as int,
            ),
        ensures
            self.addressable(new_addr),
            self.target_of(new_addr) == before.target_of(addr),
            before.is_item_address(addr) ==> self.is_item_address(new_addr),
    {
        let s = before.kids_at(p)[i - 1];
        let d = before.kids_at(p)[i];
        let hole = Some(d);
        before.lemma_siblings(hole, p, i - 1);
        assert(self.has(s) == before.has(s));
        assert(self.has(d) == before.has(d));
        assert(self.has(p) == before.has(p));
        assert(self.has(addr.id) == before.has(addr.id));
        if addr.id != s && addr.id != p && addr.id != d {
            assert(self.same_node(before, addr.id));
        }
    }

    /// Try to rotate right the node `id` to benefits the child number `deficient_child_index`.
    ///
    /// Returns true if the rotation succeeded, of false if the target child has no left sibling,
    /// or if this sibling would underflow.
    pub fn try_rotate_right(
        &mut self,
        id: usize,
        deficient_child_index: usize,
        addr: &mut Address,
    ) -> (done: bool)
        requires
            old(self).has(id),
            !old(self).node_at(id).is_leaf_node(),
            deficient_child_index <= old(self).items_at(id).len(),
            old(self).inv(Some(old(self).kids_at(id)[deficient_child_index as int])),
            old(self).items_at(old(self).kids_at(id)[deficient_child_index as int]).len() + 1
                == min_capacity_of(
                old(self).node_at(old(self).kids_at(id)[deficient_child_index as int]).is_leaf_node(),
            ),
            old(self).addressable(*old(addr)),
            old(self).is_item_address(*old(addr)) || deficient_child_index == 0 || old(addr).id
                != old(self).kids_at(id)[deficient_child_index - 1],
        ensures
            done == (deficient_child_index > 0 && old(self).items_at(
                old(self).kids_at(id)[deficient_child_index - 1],
            ).len() > min_capacity_of(
                old(self).node_at(old(self).kids_at(id)[deficient_child_index - 1]).is_leaf_node(),
            )),
            !done ==> *final(self) == *old(self) && *final(addr) == *old(addr),
            done ==> {
                &&& final(self).inv(None)
                &&& final(self).counted() == old(self).counted()
                &&& old(self).counted() ==> final(self).wf()
                &&& final(self)@ == old(self)@
                &&& final(self).len == old(self).len
                &&& final(self).addressable(*final(addr))
                &&& final(self).target_of(*final(addr)) == old(self).target_of(*old(addr))
                &&& old(self).is_item_address(*old(addr)) ==> final(self).is_item_address(
                    *final(addr),
                )
                &&& final(self).rotated_right(old(self), id, deficient_child_index as int)
            },
    {
        if deficient_child_index > 0 {
            let ghost before = *self;
            let ghost i = deficient_child_index as int;
            let ghost hole = Some(before.kids_at(id)[i]);
            proof {
                before.lemma_kids(hole, id);
                assert(before.node_ok(id, hole));
                assert(before.node_ok(addr.id, hole));
            }
            let left_sibling_index = deficient_child_index - 1;
            let pivot_offset = Offset::new(left_sibling_index);
            let node = self.node(id).unwrap();
            let left_sibling_id = node.child_id(left_sibling_index).unwrap();
            let deficient_child_id = node.child_id(deficient_child_index).unwrap();
            proof {
                before.lemma_siblings(hole, id, i - 1);
                before.lemma_kids(hole, left_sibling_id);
            }
            let left = self.node(left_sibling_id).unwrap();
            if left.item_count() <= left.min_capacity() {
                return false;  // the left sibling would underflow.
            }
            let popped = self.node_mut(left_sibling_id).pop_right();
            let ghost mid1 = *self;
            match popped {
                Ok((left_offset, value, opt_child_id)) => {
                    proof {
                        assert(mid1.has(id) == before.has(id));
                        assert(mid1.node_at(id) == before.node_at(id));
                    }
                    let value = self.node_mut(id).replace(pivot_offset, value);
                    let ghost mid2 = *self;
                    proof {
                        assert(mid1.has(deficient_child_id) == before.has(deficient_child_id));
                        assert(mid1.node_at(deficient_child_id) == before.node_at(
                            deficient_child_id,
                        ));
                        assert(mid2.has(deficient_child_id) == mid1.has(deficient_child_id));
                        assert(mid2.node_at(deficient_child_id) == mid1.node_at(
                            deficient_child_id,
                        ));
                    }
                    self.node_mut(deficient_child_id).push_left(opt_child_id, value);
                    let ghost mid3 = *self;
                    // update opt_child's parent
                    if let Some(child_id) = opt_child_id {
                        proof {
                            assert(before.kid_ok(
                                left_sibling_id,
                                before.items_at(left_sibling_id).len() as int,
                            ));
                            assert(mid1.has(child_id) == before.has(child_id));
                            assert(mid2.has(child_id) == mid1.has(child_id));
                            assert(mid3.has(child_id) == mid2.has(child_id));
                        }
                        self.node_mut(child_id).set_parent(Some(deficient_child_id))
                    }
                    let ghost mid4 = *self;
                    // update address.
                    if addr.id == deficient_child_id {
                        // addressed item is in the right (deficient) node.
                        addr.offset.incr();
                    } else if addr.id == left_sibling_id {
                        // addressed item is in the left node.
                        if addr.offset.0 == left_offset.0 {
                            // addressed item is moving to pivot.
                            addr.id = id;
                            addr.offset = pivot_offset;
                        }
                    } else if addr.id == id {
                        // addressed item is in the parent node.
                        if addr.offset.is_at(left_sibling_index) {
                            // addressed item is the pivot, moving to the left (deficient) node.
                            addr.id = deficient_child_id;
                            addr.offset = Offset::new(0);
                        }
                    }
                    proof {
                        let x = before.items_at(left_sibling_id).last();
                        self.lows = Ghost(
                            before.lows@.insert(deficient_child_id, Some(x.key_rank())),
                        );
                        self.highs = Ghost(
                            before.highs@.insert(left_sibling_id, Some(x.key_rank())),
                        );
                        self.places = Ghost(
                            before.places_rotated_right(left_sibling_id, deficient_child_id),
                        );
                        self.lemma_rotate_right_steps(&before, &mid1, &mid2, &mid3, &mid4, id, i);
                        self.lemma_rotated_right(&before, id, i);
                        self.lemma_rotated_right_address(&before, id, i, *old(addr), *addr);
                    }
                    true  // rotation succeeded
                },
                Err(_) => false,
            }
        } else {
            false  // no left sibling.
        }
    }
}

} // verus!
