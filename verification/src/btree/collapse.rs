//! The end of a rebalancing: a node that is in balance after all, and a
//! root that has become empty.
use vstd::prelude::*;
use super::content::lemma_sum_same;
use super::node::Address;
use super::KeyOrd;
use crate::slab::{Arena, Storage};
use crate::btree::node::Reference;

verus! {

impl<T: KeyOrd, A: Arena<Reference<T>>> Storage<T, A> {
    /// A tree in which the one node out of balance is in balance after all
    /// is a tree in which all is well.
    pub proof fn lemma_close_hole(&self, id: usize)
        requires
            self.inv(Some(id)),
            self.has(id) ==> self.balance_ok(id, None),
        ensures
            self.inv(None),
            self.counted() ==> self.wf(),
    {
        assert forall|j: usize| self.has(j) implies #[trigger] self.node_ok(j, None) by {
            assert(self.node_ok(j, Some(id)));
        }
    }

    /// The steps by which the empty root `id` leaves the tree, from
    /// `before` to `self`: its one child, if it has one, becomes the root
    /// and has no parent, and the node is released.
    pub open spec fn collapse_steps(
        &self,
        before: &Self,
        mid1: &Self,
        mid2: &Self,
        mid3: &Self,
        id: usize,
    ) -> bool {
        let leaf = before.node_at(id).is_leaf_node();
        let c = before.kids_at(id)[0];
        &&& before.inv(Some(id))
        &&& before.root == Some(id)
        &&& before.items_at(id).len() == 0
        &&& mid1.nodes == before.nodes
        &&& mid1.ids == before.ids
        &&& mid1.len == before.len
        &&& if leaf {
            mid1.root.is_none() && mid2 == mid1
        } else {
            &&& mid1.root == Some(c)
            &&& mid2.step(mid1, c)
            &&& mid2.same_node(mid1, c)
            &&& mid2.node_at(c).parent_id().is_none()
        }
        &&& mid3.shrunk(mid2, id)
        &&& self.nodes == mid3.nodes
        &&& self.root == mid3.root
        &&& self.len == mid3.len
        &&& self.ids == mid3.ids
        &&& self.heights == before.heights
        &&& self.lows == before.lows
        &&& self.highs == before.highs
        &&& self.places == before.places
    }

    /// After the empty root has left the tree, all is well.
    pub proof fn lemma_collapsed(
        &self,
        before: &Self,
        mid1: &Self,
        mid2: &Self,
        mid3: &Self,
        id: usize,
    )
        requires
            self.collapse_steps(before, mid1, mid2, mid3, id),
        ensures
            self.inv(None),
            self.content() == before.content(),
            self@ == before@,
            self.len == before.len,
            !self.has(id),
            forall|j: usize| j != id ==> (#[trigger] self.has(j)) == before.has(j),
            forall|j: usize| j != id && before.has(j) ==> #[trigger] self.same_node(before, j),
            before.node_at(id).is_leaf_node() ==> forall|j: usize|
                #[trigger] before.has(j) ==> j == id,
    {
        let hole = Some(id);
        let leaf = before.node_at(id).is_leaf_node();
        let c = before.kids_at(id)[0];
        assert(before.node_ok(id, hole));
        before.lemma_kids(hole, id);
        if !leaf {
            assert(before.kid_ok(id, 0));
            assert(before.node_ok(c, hole));
        }
        assert forall|j: usize| j != id implies (#[trigger] self.has(j)) == before.has(j) by {
            assert(mid3.has(j) == mid2.has(j));
            assert(mid2.has(j) == mid1.has(j));
        }
        assert forall|j: usize| j != id && before.has(j) implies (#[trigger] self.same_node(
            before,
            j,
        )) && self.node_at(j).parent_id() == (if j == c && !leaf {
            None
        } else {
            before.node_at(j).parent_id()
        }) by {
            assert(mid2.has(j) == mid1.has(j));
            assert(mid3.has(j) == mid2.has(j));
            assert(mid3.node_at(j) == mid2.node_at(j));
            if !leaf && j != c {
                assert(mid2.node_at(j) == mid1.node_at(j));
            }
        }
        // the content
        assert(before.ids@.contains(id));
        let k = choose|k: int|
            0 <= k < mid2.ids@.len() && mid2.ids@[k] == id && #[trigger] mid2.ids@.remove(k)
                == mid3.ids@;
        assert forall|t: int| 0 <= t < before.ids@.len() implies before.items_at(
            #[trigger] before.ids@[t],
        ) == mid2.items_at(before.ids@[t]) by {
            let j = before.ids@[t];
            assert(before.ids@.contains(j));
            assert(before.has(j));
            if !leaf {
                assert(mid2.has(j) == mid1.has(j));
                if j != c {
                    assert(mid2.node_at(j) == mid1.node_at(j));
                }
            }
        }
        lemma_sum_same(*before, *mid2, before.ids@);
        assert(mid2.content() == before.content());
        assert forall|j: usize| mid2.ids@.contains(j) && j != mid2.ids@[k] implies #[trigger] mid3.items_at(
            j,
        ) == mid2.items_at(j) by {
            assert(before.has(j));
            if !leaf {
                assert(mid2.has(j) == mid1.has(j));
            }
            assert(mid3.node_at(j) == mid2.node_at(j));
        }
        mid3.lemma_content_remove(mid2, k);
        lemma_sum_same(*mid3, *self, self.ids@);
        assert(mid2.items_at(id) == before.items_at(id)) by {
            if !leaf {
                assert(mid2.has(id) == mid1.has(id));
                assert(mid2.node_at(id) == mid1.node_at(id));
            }
        }
        before.items_at(id).to_multiset_ensures();
        assert(before.items_at(id).to_multiset() =~= vstd::multiset::Multiset::empty()) by {
            assert(before.items_at(id).to_multiset().len() == 0);
        }
        assert(self.content() =~= before.content());
        assert forall|j: usize| self.has(j) <==> #[trigger] self.ids@.contains(j) by {
            assert(before.has(j) <==> before.ids@.contains(j));
            if j != id {
                assert(self.has(j) == before.has(j));
            }
        }
        if leaf {
            assert forall|j: usize| #[trigger] before.has(j) implies j == id by {
                if j != id {
                    before.lemma_parent(hole, j);
                }
            }
            assert forall|j: usize| !#[trigger] self.has(j) by {
                if j != id {
                    assert(self.has(j) == before.has(j));
                }
            }
        } else {
            assert(self.has(c) == before.has(c));
            assert(self.same_node(before, c));
            assert forall|j: usize| self.has(j) implies #[trigger] self.node_ok(j, None) by {
                assert(self.has(j) == before.has(j));
                assert(before.node_ok(j, hole));
                assert(self.same_node(before, j));
                before.lemma_parent(hole, j);
                let q = before.node_at(j).parent_id().unwrap();
                if j != c {
                    assert(before.kid_ok(q, before.place(j)));
                    assert(q != id);
                    assert(self.has(q) == before.has(q));
                    assert(self.same_node(before, q));
                }
                assert(self.link_ok(j));
                assert(self.balance_ok(j, None));
                assert(self.order_ok(j));
                assert(self.indexed_ok(j));
                if !self.node_at(j).is_leaf_node() {
                    assert forall|t: int|
                        0 <= t <= self.items_at(j).len() implies #[trigger] self.kid_ok(j, t) by {
                        let d = before.kids_at(j)[t];
                        assert(before.kid_ok(j, t));
                        assert(d != id && d != c);
                        assert(self.has(d) == before.has(d));
                        assert(self.same_node(before, d));
                    }
                }
                assert(self.kids_ok(j));
            }
        }
    }

    /// Takes the empty root `id` out of the tree: its one child, if it has
    /// one, becomes the root; else the tree is empty. Returns the address
    /// at which what `addr` stood for stands now.
    pub fn collapse_root(&mut self, id: usize, addr: Address) -> (r: Address)
        requires
            old(self).inv(Some(id)),
            old(self).root == Some(id),
            old(self).items_at(id).len() == 0,
            old(self).addressable(addr),
        ensures
            final(self).inv(None),
            final(self).counted() == old(self).counted(),
            old(self).counted() ==> final(self).wf(),
            final(self)@ == old(self)@,
            final(self).len == old(self).len,
            final(self).addressable(r),
            final(self).target_of(r) == old(self).target_of(addr),
            old(self).is_item_address(addr) ==> final(self).is_item_address(r),
    {
        let ghost before = *self;
        let ghost hole = Some(id);
        proof {
            assert(before.node_ok(id, hole));
            before.lemma_kids(hole, id);
            assert(before.node_ok(addr.id, hole));
        }
        let first_child = self.node(id).unwrap().child_id(0);
        self.set_root(first_child);
        let ghost mid1 = *self;
        let ghost old_addr = addr;
        let mut addr = addr;
        // update root's parent and addr.
        match first_child {
            Some(root_id) => {
                let root = self.node_mut(root_id);
                root.set_parent(None);
            },
            None => {
                addr = Address::nowhere();
            },
        }
        let ghost mid2 = *self;
        proof {
            assert(before.ids@.contains(id));
            if first_child is Some {
                assert(before.kid_ok(id, 0));
                assert(mid2.has(id) == mid1.has(id));
            }
        }
        // the old root is dropped: it holds no item
        self.release_node(id);
        proof {
            let ghost mid3 = *self;
            self.lemma_collapsed(&before, &mid1, &mid2, &mid3, id);
            if first_child is Some {
                assert(addr.id != id);
                assert(self.has(addr.id) == before.has(addr.id));
                assert(self.same_node(&before, addr.id));
            } else {
                assert(before.has(old_addr.id));
            }
        }
        addr
    }
}

} // verus!
