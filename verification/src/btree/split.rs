//! Rebalancing by the split of a node.
use vstd::prelude::*;
use super::node::{max_capacity_of, Address, Buffer, Offset};
use super::nodes::{lemma_insert_multiset, lemma_split_multiset};
use super::KeyOrd;
use crate::slab::{Arena, Storage};
use crate::btree::node::Reference;

verus! {

impl<T: KeyOrd, A: Arena<Reference<T>>> Storage<T, A> {
    /// The children of a node of the tree are nodes of the tree, and the
    /// node stands among the children of its parent at its place and not
    /// before.
    pub proof fn lemma_kids(&self, hole: Option<usize>, id: usize)
        requires
            self.inv(hole),
            self.has(id),
        ensures
            forall|i: int| 0 <= i < self.kids_at(id).len() ==> self.has(#[trigger] self.kids_at(id)[i]),
            forall|i: int|
                0 <= i < self.kids_at(id).len() ==> self.place(#[trigger] self.kids_at(id)[i]) == i,
            !self.node_at(id).is_leaf_node() ==> self.kids_at(id).len() == self.items_at(id).len()
                + 1,
    {
        assert(self.node_ok(id, hole));
        assert forall|i: int| 0 <= i < self.kids_at(id).len() implies self.has(
            #[trigger] self.kids_at(id)[i],
        ) && self.place(self.kids_at(id)[i]) == i by {
            assert(self.kid_ok(id, i));
        }
    }

    /// `after` is `before` with the node `id` split under its parent `p`:
    /// the items on the left of the median `m` stay, the median stands in
    /// the parent, and the items on its right in the new node `right_id`.
    pub open spec fn split_under(
        &self,
        before: &Self,
        id: usize,
        p: usize,
        right_id: usize,
        m: int,
    ) -> bool {
        let items = before.items_at(id);
        let kids = before.kids_at(id);
        let leaf = before.node_at(id).is_leaf_node();
        let off = before.place(id);
        &&& self.nodes.wf()
        &&& self.root == before.root
        &&& self.len == before.len
        &&& self@ == before@
        &&& self.ids@ == before.ids@.push(right_id)
        &&& self.content() == before.content()
        &&& !before.has(right_id)
        &&& right_id < usize::MAX
        &&& self.has(right_id)
        &&& forall|j: usize| j != right_id ==> (#[trigger] self.has(j)) == before.has(j)
        &&& self.node_at(id).is_leaf_node() == leaf
        &&& self.node_at(id).parent_id() == Some(p)
        &&& self.items_at(id) == items.subrange(0, m)
        &&& self.kids_at(id) == (if leaf {
            kids
        } else {
            kids.subrange(0, m + 1)
        })
        &&& self.node_at(right_id).is_leaf_node() == leaf
        &&& self.node_at(right_id).parent_id() == Some(p)
        &&& self.items_at(right_id) == items.subrange(m + 1, items.len() as int)
        &&& self.kids_at(right_id) == (if leaf {
            Seq::<usize>::empty()
        } else {
            kids.subrange(m + 1, kids.len() as int)
        })
        &&& !self.node_at(p).is_leaf_node()
        &&& self.node_at(p).parent_id() == before.node_at(p).parent_id()
        &&& self.items_at(p) == before.items_at(p).insert(off, items[m])
        &&& self.kids_at(p) == before.kids_at(p).insert(off + 1, right_id)
        &&& forall|j: usize|
            before.has(j) && j != id && j != p ==> #[trigger] self.same_node(before, j)
                && self.node_at(j).parent_id() == (if before.node_at(j).parent_id() == Some(id)
                && before.place(j) > m {
                Some(right_id)
            } else {
                before.node_at(j).parent_id()
            })
        &&& self.heights@ == before.heights@.insert(right_id, before.height(id))
        &&& self.lows@ == before.lows@.insert(right_id, Some(items[m].key_rank()))
        &&& self.highs@ == before.highs@.insert(right_id, before.high(id)).insert(
            id,
            Some(items[m].key_rank()),
        )
        &&& forall|j: usize|
            #[trigger] self.places@[j] == (if j == right_id {
                off + 1
            } else if before.has(j) && before.node_at(j).parent_id() == Some(id) && before.place(j)
                > m {
                before.place(j) - m - 1
            } else if before.has(j) && before.node_at(j).parent_id() == Some(p) && before.place(j)
                > off {
                before.place(j) + 1
            } else {
                before.place(j)
            })
    }

    /// The state after the split of a node under its parent keeps the
    /// invariant, with the parent as the node that may overflow.
    pub proof fn lemma_split_under(
        &self,
        before: &Self,
        id: usize,
        p: usize,
        right_id: usize,
        m: int,
    )
        requires
            before.inv(Some(id)),
            before.has(id),
            before.root != Some(id),
            before.node_at(id).parent_id() == Some(p),
            before.items_at(id).len() >= max_capacity_of(before.node_at(id).is_leaf_node()),
            m == (before.items_at(id).len() - 1) / 2,
            self.split_under(before, id, p, right_id, m),
        ensures
            self.inv(Some(p)),
    {
        let hole = Some(id);
        let items = before.items_at(id);
        let kids = before.kids_at(id);
        let leaf = before.node_at(id).is_leaf_node();
        let off = before.place(id);
        let n = items.len() as int;
        let k = items[m].key_rank();
        before.lemma_parent(hole, id);
        before.lemma_kids(hole, id);
        before.lemma_kids(hole, p);
        assert(before.node_ok(id, hole));
        assert(before.node_ok(p, hole));
        assert(before.kid_ok(p, off));
        assert(id != p);
        assert(before.covers(id, k));
        before.lemma_kid_covers(hole, p, off, k);
        assert forall|j: usize| self.has(j) <==> #[trigger] self.ids@.contains(j) by {
            if j != right_id {
                assert(self.has(j) == before.has(j));
                assert(before.has(j) <==> before.ids@.contains(j));
                if before.ids@.contains(j) {
                    let i = choose|i: int| 0 <= i < before.ids@.len() && before.ids@[i] == j;
                    assert(self.ids@[i] == j);
                }
                if self.ids@.contains(j) {
                    let i = choose|i: int| 0 <= i < self.ids@.len() && self.ids@[i] == j;
                    assert(before.ids@[i] == j);
                }
            } else {
                assert(self.ids@[before.ids@.len() as int] == j);
            }
        }
        assert(self.ids@.no_duplicates()) by {
            assert(!before.ids@.contains(right_id));
        }
        assert forall|j: usize| self.has(j) implies #[trigger] self.node_ok(j, Some(p)) by {
            if j == right_id {
                self.lemma_split_right(before, id, p, right_id, m);
            } else if j == id {
                self.lemma_split_left(before, id, p, right_id, m);
            } else if j == p {
                self.lemma_split_parent(before, id, p, right_id, m);
            } else {
                self.lemma_split_other(before, id, p, right_id, m, j);
            }
        }
    }

    /// After a split, all is well with the new node on the right.
    pub proof fn lemma_split_right(
        &self,
        before: &Self,
        id: usize,
        p: usize,
        right_id: usize,
        m: int,
    )
        requires
            before.inv(Some(id)),
            before.has(id),
            before.root != Some(id),
            before.node_at(id).parent_id() == Some(p),
            before.items_at(id).len() >= max_capacity_of(before.node_at(id).is_leaf_node()),
            m == (before.items_at(id).len() - 1) / 2,
            self.split_under(before, id, p, right_id, m),
        ensures
            self.node_ok(right_id, Some(p)),
    {
        let hole = Some(id);
        let items = before.items_at(id);
        let kids = before.kids_at(id);
        let n = items.len() as int;
        before.lemma_parent(hole, id);
        before.lemma_kids(hole, id);
        before.lemma_kids(hole, p);
        assert(before.node_ok(id, hole));
        assert(before.node_ok(p, hole));
        assert(id != p);
        assert(self.has(p) == before.has(p));
        assert(self.link_ok(right_id));
        assert(self.balance_ok(right_id, Some(p)));
        assert(self.order_ok(right_id));
        assert(self.indexed_ok(right_id));
        if !self.node_at(right_id).is_leaf_node() {
            assert forall|i: int| 0 <= i <= self.items_at(right_id).len() implies #[trigger] self.kid_ok(
                right_id,
                i,
            ) by {
                let c = kids[m + 1 + i];
                assert(before.kid_ok(id, m + 1 + i));
                assert(c != id && c != p && c != right_id);
                assert(self.same_node(before, c));
            }
        }
        assert(self.kids_ok(right_id));
    }

    /// After a split, all is well with the node that was split.
    pub proof fn lemma_split_left(
        &self,
        before: &Self,
        id: usize,
        p: usize,
        right_id: usize,
        m: int,
    )
        requires
            before.inv(Some(id)),
            before.has(id),
            before.root != Some(id),
            before.node_at(id).parent_id() == Some(p),
            before.items_at(id).len() >= max_capacity_of(before.node_at(id).is_leaf_node()),
            m == (before.items_at(id).len() - 1) / 2,
            self.split_under(before, id, p, right_id, m),
        ensures
            self.node_ok(id, Some(p)),
    {
        let hole = Some(id);
        let items = before.items_at(id);
        let kids = before.kids_at(id);
        before.lemma_parent(hole, id);
        before.lemma_kids(hole, id);
        before.lemma_kids(hole, p);
        assert(before.node_ok(id, hole));
        assert(before.node_ok(p, hole));
        assert(id != p);
        assert(self.has(p) == before.has(p));
        assert(self.has(id) == before.has(id));
        assert(self.link_ok(id));
        assert(self.balance_ok(id, Some(p)));
        assert(self.order_ok(id));
        assert(self.indexed_ok(id));
        if !self.node_at(id).is_leaf_node() {
            assert forall|i: int| 0 <= i <= self.items_at(id).len() implies #[trigger] self.kid_ok(
                id,
                i,
            ) by {
                let c = kids[i];
                assert(before.kid_ok(id, i));
                assert(c != id && c != p && c != right_id);
                assert(self.same_node(before, c));
            }
        }
        assert(self.kids_ok(id));
    }

    /// After a split, all is well with the parent of the node that was
    /// split, but that it may overflow.
    pub proof fn lemma_split_parent(
        &self,
        before: &Self,
        id: usize,
        p: usize,
        right_id: usize,
        m: int,
    )
        requires
            before.inv(Some(id)),
            before.has(id),
            before.root != Some(id),
            before.node_at(id).parent_id() == Some(p),
            before.items_at(id).len() >= max_capacity_of(before.node_at(id).is_leaf_node()),
            m == (before.items_at(id).len() - 1) / 2,
            self.split_under(before, id, p, right_id, m),
        ensures
            self.node_ok(p, Some(p)),
    {
        let hole = Some(id);
        let items = before.items_at(id);
        let off = before.place(id);
        let k = items[m].key_rank();
        let pk = before.kids_at(p);
        before.lemma_parent(hole, id);
        before.lemma_kids(hole, id);
        before.lemma_kids(hole, p);
        assert(before.node_ok(id, hole));
        assert(before.node_ok(p, hole));
        assert(before.kid_ok(p, off));
        assert(id != p);
        assert(before.covers(id, k));
        before.lemma_kid_covers(hole, p, off, k);
        assert(self.has(p) == before.has(p));
        if before.root != Some(p) {
            before.lemma_parent(hole, p);
            let q = before.node_at(p).parent_id().unwrap();
            assert(q != id && q != p && q != right_id);
            assert(self.same_node(before, q));
        }
        assert(self.link_ok(p));
        assert(self.balance_ok(p, Some(p)));
        assert(self.order_ok(p));
        assert(self.indexed_ok(p));
        assert forall|i: int| 0 <= i <= self.items_at(p).len() implies #[trigger] self.kid_ok(
            p,
            i,
        ) by {
            self.lemma_split_parent_kid(before, id, p, right_id, m, i);
        }
        assert(self.kids_ok(p));
    }

    /// After a split, all is well between the parent of the node that was
    /// split and each of its children.
    pub proof fn lemma_split_parent_kid(
        &self,
        before: &Self,
        id: usize,
        p: usize,
        right_id: usize,
        m: int,
        i: int,
    )
        requires
            before.inv(Some(id)),
            before.has(id),
            before.root != Some(id),
            before.node_at(id).parent_id() == Some(p),
            before.items_at(id).len() >= max_capacity_of(before.node_at(id).is_leaf_node()),
            m == (before.items_at(id).len() - 1) / 2,
            self.split_under(before, id, p, right_id, m),
            0 <= i <= self.items_at(p).len(),
        ensures
            self.kid_ok(p, i),
    {
        let hole = Some(id);
        let off = before.place(id);
        let pk = before.kids_at(p);
        before.lemma_parent(hole, id);
        before.lemma_kids(hole, p);
        assert(before.node_ok(id, hole));
        assert(before.node_ok(p, hole));
        assert(before.kid_ok(p, off));
        assert(id != p);
        if i <= off {
            assert(before.kid_ok(p, i));
            let c = pk[i];
            assert(self.kids_at(p)[i] == c);
            if i < off {
                assert(c != id && c != p && c != right_id);
                assert(self.same_node(before, c));
            } else {
                assert(c == id);
            }
        } else if i == off + 1 {
            assert(self.kids_at(p)[i] == right_id);
        } else {
            assert(before.kid_ok(p, i - 1));
            let c = pk[i - 1];
            assert(self.kids_at(p)[i] == c);
            assert(c != id && c != p && c != right_id);
            assert(self.same_node(before, c));
        }
    }

    /// After a split, all is well with the nodes that took no part in it.
    pub proof fn lemma_split_other(
        &self,
        before: &Self,
        id: usize,
        p: usize,
        right_id: usize,
        m: int,
        j: usize,
    )
        requires
            before.inv(Some(id)),
            before.has(id),
            before.root != Some(id),
            before.node_at(id).parent_id() == Some(p),
            before.items_at(id).len() >= max_capacity_of(before.node_at(id).is_leaf_node()),
            m == (before.items_at(id).len() - 1) / 2,
            self.split_under(before, id, p, right_id, m),
            self.has(j),
            j != id,
            j != p,
            j != right_id,
        ensures
            self.node_ok(j, Some(p)),
    {
        let hole = Some(id);
        let off = before.place(id);
        before.lemma_parent(hole, id);
        before.lemma_kids(hole, id);
        before.lemma_kids(hole, p);
        assert(self.has(j) == before.has(j));
        assert(before.node_ok(j, hole));
        assert(before.node_ok(id, hole));
        assert(before.node_ok(p, hole));
        assert(self.same_node(before, j));
        if before.root != Some(j) {
            before.lemma_parent(hole, j);
            let q = before.node_at(j).parent_id().unwrap();
            assert(self.has(q) == before.has(q));
            if q != id && q != p {
                assert(self.same_node(before, q));
            }
        }
        assert(self.link_ok(j));
        assert(self.balance_ok(j, Some(p)));
        assert(self.order_ok(j));
        assert(self.indexed_ok(j));
        if !self.node_at(j).is_leaf_node() {
            assert forall|i: int| 0 <= i <= self.items_at(j).len() implies #[trigger] self.kid_ok(
                j,
                i,
            ) by {
                let c = before.kids_at(j)[i];
                assert(before.kid_ok(j, i));
                assert(c != id && c != right_id);
                assert(self.has(c) == before.has(c));
                if c != p {
                    assert(self.same_node(before, c));
                }
            }
        }
        assert(self.kids_ok(j));
    }

    /// The steps of a split under a parent lead from `before` to a state
    /// that is `before` with the node split.
    pub proof fn lemma_split_steps(
        &self,
        before: &Self,
        mid1: &Self,
        mid2: &Self,
        mid3: &Self,
        id: usize,
        p: usize,
        right_id: usize,
        m: int,
        right: Buffer<T>,
    )
        requires
            before.inv(Some(id)),
            before.has(id),
            before.root != Some(id),
            before.node_at(id).parent_id() == Some(p),
            0 <= m < before.items_at(id).len(),
            // the node is split
            mid1.step(before, id),
            mid1.node_at(id).is_leaf_node() == before.node_at(id).is_leaf_node(),
            mid1.node_at(id).parent_id() == Some(p),
            mid1.items_at(id) == before.items_at(id).subrange(0, m),
            mid1.kids_at(id) == (if before.node_at(id).is_leaf_node() {
                before.kids_at(id)
            } else {
                before.kids_at(id).subrange(0, m + 1)
            }),
            right.is_leaf_node() == before.node_at(id).is_leaf_node(),
            right.parent_id() == Some(p),
            right.item_seq() == before.items_at(id).subrange(
                m + 1,
                before.items_at(id).len() as int,
            ),
            right.child_seq() == (if before.node_at(id).is_leaf_node() {
                Seq::<usize>::empty()
            } else {
                before.kids_at(id).subrange(m + 1, before.kids_at(id).len() as int)
            }),
            // the right node is allocated
            mid2.grown(mid1, right_id, right),
            // the median is put into the parent
            mid3.step(mid2, p),
            mid3.node_at(p).is_leaf_node() == mid2.node_at(p).is_leaf_node(),
            mid3.node_at(p).parent_id() == mid2.node_at(p).parent_id(),
            mid3.items_at(p) == mid2.items_at(p).insert(before.place(id), before.items_at(id)[m]),
            mid3.kids_at(p) == mid2.kids_at(p).insert(before.place(id) + 1, right_id),
            // the records are brought up to date
            self.nodes == mid3.nodes,
            self.root == mid3.root,
            self.len == mid3.len,
            self.ids == mid3.ids,
            self.heights@ == before.heights@.insert(right_id, before.height(id)),
            self.lows@ == before.lows@.insert(
                right_id,
                Some(before.items_at(id)[m].key_rank()),
            ),
            self.highs@ == before.highs@.insert(right_id, before.high(id)).insert(
                id,
                Some(before.items_at(id)[m].key_rank()),
            ),
            self.places@ == before.places_after_split(id, Some(p), right_id, m),
        ensures
            self.split_under(before, id, p, right_id, m),
    {
        let hole = Some(id);
        let items = before.items_at(id);
        let off = before.place(id);
        let kids = before.kids_at(id);
        let right_kids = right.child_seq();
        before.lemma_parent(hole, id);
        before.lemma_kids(hole, id);
        assert(before.node_ok(id, hole));
        assert(before.node_ok(p, hole));
        assert(id != p);
        assert(right_id != id && right_id != p);
        // existence
        assert forall|j: usize| j != right_id implies (#[trigger] self.has(j)) == before.has(
            j,
        ) by {
            assert(mid3.has(j) == mid2.has(j));
            assert(mid2.has(j) == mid1.has(j));
            assert(mid1.has(j) == before.has(j));
        }
        assert(mid3.has(right_id) == mid2.has(right_id));
        // the three nodes
        assert(mid1.node_at(p) == before.node_at(p));
        assert(mid2.same_node(mid1, p));
        assert(mid2.same_node(mid1, id));
        assert(mid3.node_at(id) == mid2.node_at(id));
        assert(mid3.node_at(right_id) == mid2.node_at(right_id));
        assert(!right_kids.contains(p)) by {
            if right_kids.contains(p) {
                let t = choose|t: int| 0 <= t < right_kids.len() && right_kids[t] == p;
                assert(before.kid_ok(id, m + 1 + t));
            }
        }
        assert(!right_kids.contains(id)) by {
            if right_kids.contains(id) {
                let t = choose|t: int| 0 <= t < right_kids.len() && right_kids[t] == id;
                assert(before.kid_ok(id, m + 1 + t));
            }
        }
        // the others
        assert forall|j: usize| before.has(j) && j != id && j != p implies #[trigger] self.same_node(
            before,
            j,
        ) && self.node_at(j).parent_id() == (if before.node_at(j).parent_id() == Some(id)
            && before.place(j) > m {
            Some(right_id)
        } else {
            before.node_at(j).parent_id()
        }) by {
            assert(mid1.has(j) == before.has(j));
            assert(mid1.node_at(j) == before.node_at(j));
            assert(mid2.same_node(mid1, j));
            assert(mid2.has(j));
            assert(mid3.node_at(j) == mid2.node_at(j));
            if right_kids.contains(j) {
                let t = choose|t: int| 0 <= t < right_kids.len() && right_kids[t] == j;
                assert(before.kid_ok(id, m + 1 + t));
            }
            if before.node_at(j).parent_id() == Some(id) && before.place(j) > m {
                assert(before.node_ok(j, hole));
                assert(right_kids[before.place(j) - m - 1] == j);
            }
        }
        // the content
        assert(before.ids@.contains(id));
        assert(before.ids@.contains(p));
        assert forall|j: usize| j != id && before.ids@.contains(j) implies #[trigger] mid1.items_at(
            j,
        ) == before.items_at(j) by {
            assert(before.has(j));
            assert(mid1.node_at(j) == before.node_at(j));
        }
        mid1.lemma_content_update(before, id);
        assert forall|j: usize| mid1.ids@.contains(j) implies #[trigger] mid2.items_at(j)
            == mid1.items_at(j) by {
            assert(before.has(j));
            assert(mid1.has(j) == before.has(j));
            assert(mid2.same_node(mid1, j));
        }
        mid2.lemma_content_push(mid1, right_id);
        assert(!before.ids@.contains(right_id)) by {
            assert(mid1.has(right_id) == before.has(right_id));
        }
        assert(mid2.ids@.no_duplicates());
        assert(mid2.ids@.contains(p)) by {
            let i = choose|i: int| 0 <= i < before.ids@.len() && before.ids@[i] == p;
            assert(mid2.ids@[i] == p);
        }
        assert forall|j: usize| j != p && mid2.ids@.contains(j) implies #[trigger] mid3.items_at(
            j,
        ) == mid2.items_at(j) by {
            let i = choose|i: int| 0 <= i < mid2.ids@.len() && mid2.ids@[i] == j;
            if i < before.ids@.len() {
                assert(before.ids@[i] == j);
                assert(before.ids@.contains(j));
                assert(before.has(j));
                assert(mid1.has(j) == before.has(j));
                assert(mid2.has(j) == mid1.has(j));
            }
            assert(mid2.has(j));
            assert(mid3.node_at(j) == mid2.node_at(j));
        }
        mid3.lemma_content_update(mid2, p);
        lemma_split_multiset(items, m);
        lemma_insert_multiset(before.items_at(p), off, items[m]);
        super::content::lemma_sum_same(*mid3, *self, self.ids@);
        assert(self.content() == mid3.content());
        assert(self.content() =~= before.content()) by {
            assert forall|v: T| self.content().count(v) == before.content().count(v) by {
                assert(mid1.content().count(v) + before.items_at(id).to_multiset().count(v)
                    == before.content().count(v) + mid1.items_at(id).to_multiset().count(v));
                assert(mid3.content().count(v) + mid2.items_at(p).to_multiset().count(v)
                    == mid2.content().count(v) + mid3.items_at(p).to_multiset().count(v));
            }
        }
        assert forall|j: usize|
            #[trigger] self.places@[j] == (if j == right_id {
                off + 1
            } else if before.has(j) && before.node_at(j).parent_id() == Some(id) && before.place(j)
                > m {
                before.place(j) - m - 1
            } else if before.has(j) && before.node_at(j).parent_id() == Some(p) && before.place(j)
                > off {
                before.place(j) + 1
            } else {
                before.place(j)
            }) by {}
    }

    /// Where an address stands after the split of the node `id` at `m`
    /// under the parent `p`, the new node being `right_id`: the median is
    /// in the parent, at the place `off` of the node; what stood on its
    /// right is in the new node; and what stood in the parent from `off` on
    /// has moved one place to the right.
    pub open spec fn address_after_split(
        addr: Address,
        id: usize,
        p: usize,
        right_id: usize,
        m: int,
        off: int,
    ) -> (int, int) {
        if addr.id == id {
            if addr.offset.as_int() == m {
                (p as int, off)
            } else if addr.offset.as_int() > m {
                (right_id as int, addr.offset.as_int() - m - 1)
            } else {
                (addr.id as int, addr.offset.as_int())
            }
        } else if addr.id == p && addr.offset.as_int() >= off {
            (addr.id as int, addr.offset.as_int() + 1)
        } else {
            (addr.id as int, addr.offset.as_int())
        }
    }

    /// After a split, the address to which an address has moved stands for
    /// what the address stood for.
    pub proof fn lemma_split_address(
        &self,
        before: &Self,
        id: usize,
        p: usize,
        right_id: usize,
        m: int,
        addr: Address,
        new_addr: Address,
    )
        requires
            before.inv(Some(id)),
            before.has(id),
            before.root != Some(id),
            before.node_at(id).parent_id() == Some(p),
            before.items_at(id).len() >= max_capacity_of(before.node_at(id).is_leaf_node()),
            m == (before.items_at(id).len() - 1) / 2,
            self.split_under(before, id, p, right_id, m),
            before.addressable(addr),
            new_addr.offset.as_int() >= 0,
            (new_addr.id as int, new_addr.offset.as_int()) == Self::address_after_split(
                addr,
                id,
                p,
                right_id,
                m,
                before.place(id),
            ),
        ensures
            self.addressable(new_addr),
            self.target_of(new_addr) == before.target_of(addr),
            self.is_item_address(new_addr) == before.is_item_address(addr),
    {
        let hole = Some(id);
        before.lemma_parent(hole, id);
        before.lemma_kids(hole, id);
        assert(before.node_ok(id, hole));
        assert(before.node_ok(p, hole));
        assert(id != p);
        assert(self.has(id) == before.has(id));
        assert(self.has(p) == before.has(p));
        assert(self.has(addr.id) == before.has(addr.id));
        if addr.id != id && addr.id != p {
            assert(addr.id != right_id);
            assert(self.same_node(before, addr.id));
        }
    }

    /// Splits the overflowing node `id`, which has a parent: the median
    /// item moves up into the parent, and the items on its right into a new
    /// node on the right of `id`. Returns the parent, which may then
    /// overflow, and the address at which what `addr` stood for stands now.
    pub fn split_child(&mut self, id: usize, addr: Address) -> (r: (usize, Address))
        requires
            old(self).inv(Some(id)),
            old(self).has(id),
            old(self).root != Some(id),
            old(self).items_at(id).len() >= max_capacity_of(old(self).node_at(id).is_leaf_node()),
            old(self).addressable(addr),
        ensures
            final(self).inv(Some(r.0)),
            final(self).has(r.0),
            final(self)@ == old(self)@,
            final(self).len == old(self).len,
            final(self).root == old(self).root,
            final(self).addressable(r.1),
            final(self).target_of(r.1) == old(self).target_of(addr),
            final(self).is_item_address(r.1) == old(self).is_item_address(addr),
            old(self).node_at(id).parent_id() == Some(r.0),
            forall|j: usize| old(self).has(j) ==> final(self).height(j) == old(self).height(j),
            0 <= old(self).place(id) + 1 < final(self).kids_at(r.0).len(),
            final(self).split_under(
                old(self),
                id,
                r.0,
                final(self).kids_at(r.0)[old(self).place(id) + 1],
                (old(self).items_at(id).len() - 1) / 2,
            ),
            (r.1.id as int, r.1.offset.as_int()) == Self::address_after_split(
                addr,
                id,
                r.0,
                final(self).kids_at(r.0)[old(self).place(id) + 1],
                (old(self).items_at(id).len() - 1) / 2,
                old(self).place(id),
            ),
    {
        let ghost hole = Some(id);
        let ghost before = *self;
        proof {
            before.lemma_parent(hole, id);
            before.lemma_kids(hole, id);
            assert(before.node_ok(id, hole));
        }
        let p = self.node(id).unwrap().parent().unwrap();
        proof {
            before.lemma_kids(hole, p);
            assert(before.kids_at(p)[before.place(id)] == id);
        }
        let off = self.node(p).unwrap().child_index(id).unwrap();
        proof {
            assert(before.place(before.kids_at(p)[off as int]) == off);
            assert(before.node_ok(p, hole));
            assert(before.node_ok(addr.id, hole));
        }
        let node = self.node_mut(id);
        let (m, median, right) = node.split();
        let ghost mid1 = *self;
        let ghost right_spec = right;
        proof {
            assert forall|i: int| 0 <= i < right.child_seq().len() implies self.has(
                right.child_seq()[i],
            ) by {
                assert(before.has(before.kids_at(id)[m + 1 + i]));
                assert(mid1.has(before.kids_at(id)[m + 1 + i]) == before.has(
                    before.kids_at(id)[m + 1 + i],
                ));
            }
        }
        let right_id = self.insert_node(right);
        let ghost mid2 = *self;
        proof {
            assert(mid1.has(p) == before.has(p));
            assert(mid2.has(p) == mid1.has(p));
            assert(mid2.same_node(&mid1, p));
            assert(mid1.node_at(p) == before.node_at(p));
            assert(mid2.items_at(p) == before.items_at(p));
        }
        let parent = self.node_mut(p);
        parent.insert(Offset::new(off), median, Some(right_id));
        let ghost mid3 = *self;
        let mut new_addr = addr;
        if addr.id == id {
            if addr.offset.is_at(m) {
                new_addr = Address { id: p, offset: Offset::new(off) };
            } else if !addr.offset.is_below(m) {
                new_addr =
                Address { id: right_id, offset: Offset::new(addr.offset.unwrap() - m - 1) };
            }
        } else if addr.id == p && !addr.offset.is_below(off) {
            new_addr.offset.incr();
        }
        proof {
            let h = before.height(id);
            let hi = before.high(id);
            let k = before.items_at(id)[m as int].key_rank();
            self.heights = Ghost(before.heights@.insert(right_id, h));
            self.lows = Ghost(before.lows@.insert(right_id, Some(k)));
            self.highs = Ghost(before.highs@.insert(right_id, hi).insert(id, Some(k)));
            self.places = Ghost(before.places_after_split(id, Some(p), right_id, m as int));
            self.lemma_split_steps(
                &before,
                &mid1,
                &mid2,
                &mid3,
                id,
                p,
                right_id,
                m as int,
                right_spec,
            );
            self.lemma_split_under(&before, id, p, right_id, m as int);
            self.lemma_split_address(&before, id, p, right_id, m as int, addr, new_addr);
        }
        (p, new_addr)
    }

    /// `after` is `before` with its root `id` split under a new root `p`:
    /// the items on the left of the median `m` stay, the median is the one
    /// item of the new root, and the items on its right stand in the new
    /// node `right_id`.
    pub open spec fn split_top(
        &self,
        before: &Self,
        id: usize,
        p: usize,
        right_id: usize,
        m: int,
    ) -> bool {
        let items = before.items_at(id);
        let kids = before.kids_at(id);
        let leaf = before.node_at(id).is_leaf_node();
        &&& self.nodes.wf()
        &&& self.root == Some(p)
        &&& self.len == before.len
        &&& self@ == before@
        &&& self.ids@ == before.ids@.push(right_id).push(p)
        &&& self.content() == before.content()
        &&& !before.has(right_id)
        &&& !before.has(p)
        &&& p != right_id
        &&& p < usize::MAX
        &&& right_id < usize::MAX
        &&& self.has(right_id)
        &&& self.has(p)
        &&& forall|j: usize| j != right_id && j != p ==> (#[trigger] self.has(j)) == before.has(j)
        &&& self.node_at(id).is_leaf_node() == leaf
        &&& self.node_at(id).parent_id() == Some(p)
        &&& self.items_at(id) == items.subrange(0, m)
        &&& self.kids_at(id) == (if leaf {
            kids
        } else {
            kids.subrange(0, m + 1)
        })
        &&& self.node_at(right_id).is_leaf_node() == leaf
        &&& self.node_at(right_id).parent_id() == Some(p)
        &&& self.items_at(right_id) == items.subrange(m + 1, items.len() as int)
        &&& self.kids_at(right_id) == (if leaf {
            Seq::<usize>::empty()
        } else {
            kids.subrange(m + 1, kids.len() as int)
        })
        &&& !self.node_at(p).is_leaf_node()
        &&& self.node_at(p).parent_id().is_none()
        &&& self.items_at(p) == seq![items[m]]
        &&& self.kids_at(p) == seq![id, right_id]
        &&& forall|j: usize|
            before.has(j) && j != id ==> #[trigger] self.same_node(before, j) && self.node_at(
                j,
            ).parent_id() == (if before.node_at(j).parent_id() == Some(id) && before.place(j) > m {
                Some(right_id)
            } else {
                before.node_at(j).parent_id()
            })
        &&& self.heights@ == before.heights@.insert(right_id, before.height(id)).insert(
            p,
            before.height(id) + 1,
        )
        &&& self.lows@ == before.lows@.insert(right_id, Some(items[m].key_rank())).insert(p, None)
        &&& self.highs@ == before.highs@.insert(right_id, None).insert(
            id,
            Some(items[m].key_rank()),
        ).insert(p, None)
        &&& forall|j: usize|
            #[trigger] self.places@[j] == (if j == right_id {
                1
            } else if j == id {
                0
            } else if before.has(j) && before.node_at(j).parent_id() == Some(id) && before.place(j)
                > m {
                before.place(j) - m - 1
            } else {
                before.place(j)
            })
    }

    /// The state after the split of the root keeps the invariant.
    pub proof fn lemma_split_top(&self, before: &Self, id: usize, p: usize, right_id: usize, m: int)
        requires
            before.inv(Some(id)),
            before.root == Some(id),
            before.items_at(id).len() >= max_capacity_of(before.node_at(id).is_leaf_node()),
            m == (before.items_at(id).len() - 1) / 2,
            self.split_top(before, id, p, right_id, m),
        ensures
            self.inv(None),
    {
        let hole = Some(id);
        let items = before.items_at(id);
        let kids = before.kids_at(id);
        before.lemma_kids(hole, id);
        assert(before.node_ok(id, hole));
        assert forall|j: usize| self.has(j) <==> #[trigger] self.ids@.contains(j) by {
            let n = before.ids@.len() as int;
            if j != right_id && j != p {
                assert(self.has(j) == before.has(j));
                assert(before.has(j) <==> before.ids@.contains(j));
                if before.ids@.contains(j) {
                    let i = choose|i: int| 0 <= i < before.ids@.len() && before.ids@[i] == j;
                    assert(self.ids@[i] == j);
                }
                if self.ids@.contains(j) {
                    let i = choose|i: int| 0 <= i < self.ids@.len() && self.ids@[i] == j;
                    assert(before.ids@[i] == j);
                }
            } else if j == right_id {
                assert(self.ids@[n] == j);
            } else {
                assert(self.ids@[n + 1] == j);
            }
        }
        assert(self.ids@.no_duplicates()) by {
            assert(!before.ids@.contains(right_id));
            assert(!before.ids@.contains(p));
        }
        assert forall|j: usize| self.has(j) implies #[trigger] self.node_ok(j, None) by {
            if j == right_id {
                self.lemma_split_top_right(before, id, p, right_id, m);
            } else if j == id {
                self.lemma_split_top_left(before, id, p, right_id, m);
            } else if j == p {
                assert(self.has(id) == before.has(id));
                assert(self.link_ok(p));
                assert(self.balance_ok(p, None));
                assert(self.order_ok(p));
                assert(self.indexed_ok(p));
                assert forall|i: int| 0 <= i <= self.items_at(p).len() implies #[trigger] self.kid_ok(
                    p,
                    i,
                ) by {}
                assert(self.kids_ok(p));
            } else {
                self.lemma_split_top_other(before, id, p, right_id, m, j);
            }
        }
    }

    /// After the split of the root, all is well with the new node on the
    /// right.
    pub proof fn lemma_split_top_right(
        &self,
        before: &Self,
        id: usize,
        p: usize,
        right_id: usize,
        m: int,
    )
        requires
            before.inv(Some(id)),
            before.root == Some(id),
            before.items_at(id).len() >= max_capacity_of(before.node_at(id).is_leaf_node()),
            m == (before.items_at(id).len() - 1) / 2,
            self.split_top(before, id, p, right_id, m),
        ensures
            self.node_ok(right_id, None),
    {
        let hole = Some(id);
        let items = before.items_at(id);
        let kids = before.kids_at(id);
        before.lemma_kids(hole, id);
        assert(before.node_ok(id, hole));
        assert(self.link_ok(right_id));
        assert(self.balance_ok(right_id, None));
        assert(self.order_ok(right_id));
        assert(self.indexed_ok(right_id));
        if !self.node_at(right_id).is_leaf_node() {
            assert forall|i: int| 0 <= i <= self.items_at(right_id).len() implies #[trigger] self.kid_ok(
                right_id,
                i,
            ) by {
                let c = kids[m + 1 + i];
                assert(before.kid_ok(id, m + 1 + i));
                assert(c != id && c != p && c != right_id);
                assert(self.same_node(before, c));
            }
        }
        assert(self.kids_ok(right_id));
    }

    /// After the split of the root, all is well with the node that was
    /// split.
    pub proof fn lemma_split_top_left(
        &self,
        before: &Self,
        id: usize,
        p: usize,
        right_id: usize,
        m: int,
    )
        requires
            before.inv(Some(id)),
            before.root == Some(id),
            before.items_at(id).len() >= max_capacity_of(before.node_at(id).is_leaf_node()),
            m == (before.items_at(id).len() - 1) / 2,
            self.split_top(before, id, p, right_id, m),
        ensures
            self.node_ok(id, None),
    {
        let hole = Some(id);
        let items = before.items_at(id);
        let kids = before.kids_at(id);
        before.lemma_kids(hole, id);
        assert(before.node_ok(id, hole));
        assert(self.has(id) == before.has(id));
        assert(self.link_ok(id));
        assert(self.balance_ok(id, None));
        assert(self.order_ok(id));
        assert(self.indexed_ok(id));
        if !self.node_at(id).is_leaf_node() {
            assert forall|i: int| 0 <= i <= self.items_at(id).len() implies #[trigger] self.kid_ok(
                id,
                i,
            ) by {
                let c = kids[i];
                assert(before.kid_ok(id, i));
                assert(c != id && c != p && c != right_id);
                assert(self.same_node(before, c));
            }
        }
        assert(self.kids_ok(id));
    }

    /// After the split of the root, all is well with the nodes that took
    /// no part in it.
    pub proof fn lemma_split_top_other(
        &self,
        before: &Self,
        id: usize,
        p: usize,
        right_id: usize,
        m: int,
        j: usize,
    )
        requires
            before.inv(Some(id)),
            before.root == Some(id),
            before.items_at(id).len() >= max_capacity_of(before.node_at(id).is_leaf_node()),
            m == (before.items_at(id).len() - 1) / 2,
            self.split_top(before, id, p, right_id, m),
            self.has(j),
            j != id,
            j != p,
            j != right_id,
        ensures
            self.node_ok(j, None),
    {
        let hole = Some(id);
        before.lemma_kids(hole, id);
        assert(self.has(j) == before.has(j));
        assert(before.node_ok(j, hole));
        assert(before.node_ok(id, hole));
        assert(self.same_node(before, j));
        before.lemma_parent(hole, j);
        let q = before.node_at(j).parent_id().unwrap();
        assert(self.has(q) == before.has(q));
        if q != id {
            assert(self.same_node(before, q));
        }
        assert(self.link_ok(j));
        assert(self.balance_ok(j, None));
        assert(self.order_ok(j));
        assert(self.indexed_ok(j));
        if !self.node_at(j).is_leaf_node() {
            assert forall|i: int| 0 <= i <= self.items_at(j).len() implies #[trigger] self.kid_ok(
                j,
                i,
            ) by {
                let c = before.kids_at(j)[i];
                assert(before.kid_ok(j, i));
                assert(c != id && c != right_id && c != p);
                assert(self.has(c) == before.has(c));
                assert(self.same_node(before, c));
            }
        }
        assert(self.kids_ok(j));
    }

    /// The steps of the split of the root lead from `before` to a state
    /// that is `before` with the root split.
    pub proof fn lemma_split_top_steps(
        &self,
        before: &Self,
        mid1: &Self,
        mid2: &Self,
        mid3: &Self,
        id: usize,
        p: usize,
        right_id: usize,
        m: int,
        right: Buffer<T>,
        top: Buffer<T>,
    )
        requires
            before.inv(Some(id)),
            before.root == Some(id),
            0 <= m < before.items_at(id).len(),
            // the node is split
            mid1.step(before, id),
            mid1.node_at(id).is_leaf_node() == before.node_at(id).is_leaf_node(),
            mid1.items_at(id) == before.items_at(id).subrange(0, m),
            mid1.kids_at(id) == (if before.node_at(id).is_leaf_node() {
                before.kids_at(id)
            } else {
                before.kids_at(id).subrange(0, m + 1)
            }),
            right.is_leaf_node() == before.node_at(id).is_leaf_node(),
            right.item_seq() == before.items_at(id).subrange(
                m + 1,
                before.items_at(id).len() as int,
            ),
            right.child_seq() == (if before.node_at(id).is_leaf_node() {
                Seq::<usize>::empty()
            } else {
                before.kids_at(id).subrange(m + 1, before.kids_at(id).len() as int)
            }),
            // the right node is allocated
            mid2.grown(mid1, right_id, right),
            // the new root is allocated
            !top.is_leaf_node(),
            top.parent_id().is_none(),
            top.item_seq() == seq![before.items_at(id)[m]],
            top.child_seq() == seq![id, right_id],
            mid3.grown(mid2, p, top),
            // the records are brought up to date
            self.nodes == mid3.nodes,
            self.root == Some(p),
            self.len == mid3.len,
            self.ids == mid3.ids,
            self.heights@ == before.heights@.insert(right_id, before.height(id)).insert(
                p,
                before.height(id) + 1,
            ),
            self.lows@ == before.lows@.insert(
                right_id,
                Some(before.items_at(id)[m].key_rank()),
            ).insert(p, None),
            self.highs@ == before.highs@.insert(right_id, None).insert(
                id,
                Some(before.items_at(id)[m].key_rank()),
            ).insert(p, None),
            self.places@ == before.places_after_split(id, None, right_id, m),
        ensures
            self.split_top(before, id, p, right_id, m),
    {
        let hole = Some(id);
        let items = before.items_at(id);
        let kids = before.kids_at(id);
        let right_kids = right.child_seq();
        let top_kids = top.child_seq();
        before.lemma_kids(hole, id);
        assert(before.node_ok(id, hole));
        assert(mid1.has(right_id) == before.has(right_id));
        assert(mid2.has(p) == mid1.has(p));
        assert(mid1.has(p) == before.has(p));
        assert(top_kids[0] == id && top_kids[1] == right_id);
        assert forall|j: usize| j != right_id && j != p implies (#[trigger] self.has(j))
            == before.has(j) by {
            assert(mid3.has(j) == mid2.has(j));
            assert(mid2.has(j) == mid1.has(j));
            assert(mid1.has(j) == before.has(j));
        }
        assert(mid1.has(id) == before.has(id));
        assert(mid2.same_node(mid1, id));
        assert(mid2.has(id));
        assert(mid3.same_node(mid2, id));
        assert(mid3.same_node(mid2, right_id));
        assert(top_kids.contains(id));
        assert(top_kids.contains(right_id));
        assert forall|j: usize| before.has(j) && j != id implies #[trigger] self.same_node(
            before,
            j,
        ) && self.node_at(j).parent_id() == (if before.node_at(j).parent_id() == Some(id)
            && before.place(j) > m {
            Some(right_id)
        } else {
            before.node_at(j).parent_id()
        }) by {
            assert(mid1.has(j) == before.has(j));
            assert(mid1.node_at(j) == before.node_at(j));
            assert(mid2.same_node(mid1, j));
            assert(mid2.has(j));
            assert(mid3.same_node(mid2, j));
            assert(!top_kids.contains(j)) by {
                if top_kids.contains(j) {
                    let t = choose|t: int| 0 <= t < top_kids.len() && top_kids[t] == j;
                }
            }
            if right_kids.contains(j) {
                let t = choose|t: int| 0 <= t < right_kids.len() && right_kids[t] == j;
                assert(before.kid_ok(id, m + 1 + t));
            }
            if before.node_at(j).parent_id() == Some(id) && before.place(j) > m {
                assert(before.node_ok(j, hole));
                assert(right_kids[before.place(j) - m - 1] == j);
            }
        }
        // the content
        assert(before.ids@.contains(id));
        assert forall|j: usize| j != id && before.ids@.contains(j) implies #[trigger] mid1.items_at(
            j,
        ) == before.items_at(j) by {
            assert(before.has(j));
            assert(mid1.node_at(j) == before.node_at(j));
        }
        mid1.lemma_content_update(before, id);
        assert forall|j: usize| mid1.ids@.contains(j) implies #[trigger] mid2.items_at(j)
            == mid1.items_at(j) by {
            assert(before.has(j));
            assert(mid1.has(j) == before.has(j));
            assert(mid2.same_node(mid1, j));
        }
        mid2.lemma_content_push(mid1, right_id);
        assert forall|j: usize| mid2.ids@.contains(j) implies #[trigger] mid3.items_at(j)
            == mid2.items_at(j) by {
            let i = choose|i: int| 0 <= i < mid2.ids@.len() && mid2.ids@[i] == j;
            if i < before.ids@.len() {
                assert(before.ids@[i] == j);
                assert(before.ids@.contains(j));
                assert(before.has(j));
                assert(mid1.has(j) == before.has(j));
                assert(mid2.has(j) == mid1.has(j));
            }
            assert(mid2.has(j));
            assert(mid3.same_node(mid2, j));
        }
        mid3.lemma_content_push(mid2, p);
        lemma_split_multiset(items, m);
        super::content::lemma_sum_same(*mid3, *self, self.ids@);
        assert(self.content() == mid3.content());
        assert(seq![items[m]].to_multiset().count(items[m]) == 1 && forall|v: T|
            v != items[m] ==> seq![items[m]].to_multiset().count(v) == 0) by {
            let e = Seq::<T>::empty();
            e.to_multiset_ensures();
            assert(e.push(items[m]) =~= seq![items[m]]);
            assert(e.to_multiset() =~= vstd::multiset::Multiset::empty());
        }
        assert(self.content() =~= before.content()) by {
            assert forall|v: T| self.content().count(v) == before.content().count(v) by {
                assert(mid1.content().count(v) + before.items_at(id).to_multiset().count(v)
                    == before.content().count(v) + mid1.items_at(id).to_multiset().count(v));
            }
        }
        assert forall|j: usize|
            #[trigger] self.places@[j] == (if j == right_id {
                1
            } else if j == id {
                0
            } else if before.has(j) && before.node_at(j).parent_id() == Some(id) && before.place(j)
                > m {
                before.place(j) - m - 1
            } else {
                before.place(j)
            }) by {
            if before.has(j) && j != id {
                assert(before.node_ok(j, hole));
            }
        }
    }

    /// After the split of the root, the address to which an address has
    /// moved stands for what the address stood for.
    pub proof fn lemma_split_top_address(
        &self,
        before: &Self,
        id: usize,
        p: usize,
        right_id: usize,
        m: int,
        addr: Address,
        new_addr: Address,
    )
        requires
            before.inv(Some(id)),
            before.root == Some(id),
            before.items_at(id).len() >= max_capacity_of(before.node_at(id).is_leaf_node()),
            m == (before.items_at(id).len() - 1) / 2,
            self.split_top(before, id, p, right_id, m),
            before.addressable(addr),
            new_addr.offset.as_int() >= 0,
            (new_addr.id as int, new_addr.offset.as_int()) == Self::address_after_split(
                addr,
                id,
                p,
                right_id,
                m,
                0,
            ),
        ensures
            self.addressable(new_addr),
            self.target_of(new_addr) == before.target_of(addr),
            self.is_item_address(new_addr) == before.is_item_address(addr),
    {
        let hole = Some(id);
        before.lemma_kids(hole, id);
        assert(before.node_ok(id, hole));
        assert(self.has(id) == before.has(id));
        assert(self.has(addr.id) == before.has(addr.id));
        if addr.id != id {
            assert(addr.id != right_id);
            assert(addr.id != p);
            assert(self.same_node(before, addr.id));
        }
    }

    /// Splits the overflowing root `id`: the median item becomes the one
    /// item of a new root, with the node on its left and a new node with
    /// the items on its right. Returns the address at which what `addr`
    /// stood for stands now.
    pub fn split_root(&mut self, id: usize, addr: Address) -> (r: Address)
        requires
            old(self).inv(Some(id)),
            old(self).root == Some(id),
            old(self).items_at(id).len() >= max_capacity_of(old(self).node_at(id).is_leaf_node()),
            old(self).addressable(addr),
        ensures
            final(self).inv(None),
            final(self).counted() == old(self).counted(),
            old(self).counted() ==> final(self).wf(),
            final(self)@ == old(self)@,
            final(self).len == old(self).len,
            final(self).addressable(r),
            final(self).target_of(r) == old(self).target_of(addr),
            final(self).is_item_address(r) == old(self).is_item_address(addr),
            final(self).root is Some,
            final(self).kids_at(final(self).root.unwrap()).len() == 2,
            final(self).split_top(
                old(self),
                id,
                final(self).root.unwrap(),
                final(self).kids_at(final(self).root.unwrap())[1],
                (old(self).items_at(id).len() - 1) / 2,
            ),
            (r.id as int, r.offset.as_int()) == Self::address_after_split(
                addr,
                id,
                final(self).root.unwrap(),
                final(self).kids_at(final(self).root.unwrap())[1],
                (old(self).items_at(id).len() - 1) / 2,
                0,
            ),
    {
        let ghost hole = Some(id);
        let ghost before = *self;
        proof {
            before.lemma_kids(hole, id);
            assert(before.node_ok(id, hole));
            assert(before.node_ok(addr.id, hole));
        }
        let node = self.node_mut(id);
        let (m, median, right) = node.split();
        let ghost mid1 = *self;
        let ghost right_spec = right;
        proof {
            assert forall|i: int| 0 <= i < right.child_seq().len() implies self.has(
                right.child_seq()[i],
            ) by {
                assert(before.has(before.kids_at(id)[m + 1 + i]));
                assert(mid1.has(before.kids_at(id)[m + 1 + i]) == before.has(
                    before.kids_at(id)[m + 1 + i],
                ));
            }
        }
        let right_id = self.insert_node(right);
        let ghost mid2 = *self;
        let top = Buffer::binary(None, id, median, right_id);
        let ghost top_spec = top;
        proof {
            assert(mid1.has(id) == before.has(id));
            assert(mid2.has(id) == mid1.has(id));
            assert(top.child_seq()[0] == id);
            assert(top.child_seq()[1] == right_id);
        }
        let p = self.insert_node(top);
        let ghost mid3 = *self;
        self.set_root(Some(p));
        let mut new_addr = addr;
        if addr.id == id {
            if addr.offset.is_at(m) {
                new_addr = Address { id: p, offset: Offset::new(0) };
            } else if !addr.offset.is_below(m) {
                new_addr =
                Address { id: right_id, offset: Offset::new(addr.offset.unwrap() - m - 1) };
            }
        }
        proof {
            let h = before.height(id);
            let k = before.items_at(id)[m as int].key_rank();
            self.heights = Ghost(before.heights@.insert(right_id, h).insert(p, h + 1));
            self.lows = Ghost(before.lows@.insert(right_id, Some(k)).insert(p, None));
            self.highs = Ghost(
                before.highs@.insert(right_id, None).insert(id, Some(k)).insert(p, None),
            );
            self.places = Ghost(before.places_after_split(id, None, right_id, m as int));
            self.lemma_split_top_steps(
                &before,
                &mid1,
                &mid2,
                &mid3,
                id,
                p,
                right_id,
                m as int,
                right_spec,
                top_spec,
            );
            self.lemma_split_top(&before, id, p, right_id, m as int);
            self.lemma_split_top_address(&before, id, p, right_id, m as int, addr, new_addr);
        }
        new_addr
    }

    /// The places of the nodes after the split of the node `id` at `m`,
    /// with the new node `right_id` after it under the parent `p`.
    pub open spec fn places_after_split(
        &self,
        id: usize,
        p: Option<usize>,
        right_id: usize,
        m: int,
    ) -> Map<usize, int> {
        Map::new(
            |j: usize| true,
            |j: usize|
                if j == right_id {
                    if p is Some {
                        self.place(id) + 1
                    } else {
                        1
                    }
                } else if j == id && p is None {
                    0
                } else if self.has(j) && self.node_at(j).parent_id() == Some(id) && self.place(j)
                    > m {
                    self.place(j) - m - 1
                } else if self.has(j) && self.node_at(j).parent_id() == p && p is Some
                    && self.place(j) > self.place(id) {
                    self.place(j) + 1
                } else {
                    self.place(j)
                },
        )
    }
}

} // verus!
