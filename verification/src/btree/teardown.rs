//! The release of the nodes of a tree, from a node downwards.
use vstd::prelude::*;
use super::content::lemma_index_is;
use super::KeyOrd;
use crate::slab::{Arena, Storage};
use crate::btree::node::Reference;

verus! {

impl<T: KeyOrd, A: Arena<Reference<T>>> Storage<T, A> {
    /// The node `j` is the node `id` or stands under it.
    pub open spec fn under(&self, j: usize, id: usize) -> bool {
        &&& self.has(j)
        &&& self.height(j) <= self.height(id)
        &&& self.ancestor(j, self.height(id)) == id
    }

    /// `self` is what is left of the tree `whole` once some of its nodes
    /// are released: the other nodes as they were, under the same root and
    /// with the same records.
    pub open spec fn rest_of(&self, whole: &Self) -> bool {
        &&& self.nodes.wf()
        &&& self.same_records(whole)
        &&& self.ids == whole.ids
        &&& forall|j: usize| #[trigger]
            self.has(j) ==> whole.has(j) && self.node_at(j) == whole.node_at(j)
    }

    /// `self` has the nodes of `before` but those that stand under the
    /// node `id` in the tree `whole`, and that node.
    pub open spec fn without(&self, before: &Self, whole: &Self, id: usize) -> bool {
        forall|j: usize| (#[trigger] self.has(j)) == (before.has(j) && !whole.under(j, id))
    }

    /// Every node of a tree stands under its root.
    pub proof fn lemma_under_root(&self, j: usize)
        requires
            self.wf(),
            self.has(j),
        ensures
            self.root is Some,
            self.under(j, self.root.unwrap()),
    {
        assert(self.node_ok(j, None));
        let top = self.height(self.root.unwrap());
        self.lemma_ancestor(None, j, top);
        self.lemma_top(None, self.ancestor(j, top));
    }

    /// A node under another has an ancestor among the children of that
    /// node.
    pub proof fn lemma_under_place(&self, id: usize, j: usize)
        requires
            self.wf(),
            self.has(id),
            self.under(j, id),
            j != id,
        ensures
            self.height(j) < self.height(id),
            0 <= self.place(self.ancestor(j, (self.height(id) - 1) as nat)) < self.kids_at(
                id,
            ).len(),
            self.kids_at(id)[self.place(self.ancestor(j, (self.height(id) - 1) as nat))]
                == self.ancestor(j, (self.height(id) - 1) as nat),
    {
        let h = self.height(id);
        assert(self.node_ok(id, None));
        assert(self.node_ok(j, None));
        self.lemma_kids(None, id);
        self.lemma_ancestor(None, j, h);
        let a = self.ancestor(j, (h - 1) as nat);
        self.lemma_ancestor(None, j, (h - 1) as nat);
        self.lemma_parent(None, a);
    }

    /// The nodes under a node, but the node itself, are those under its
    /// children: each of them under the child that is its ancestor one
    /// level below the node.
    pub proof fn lemma_under_kid(&self, id: usize, i: int, j: usize)
        requires
            self.wf(),
            self.has(id),
            0 <= i < self.kids_at(id).len(),
        ensures
            self.under(j, self.kids_at(id)[i]) <==> self.under(j, id) && j != id && self.place(
                self.ancestor(j, (self.height(id) - 1) as nat),
            ) == i,
    {
        let h = self.height(id);
        let c = self.kids_at(id)[i];
        assert(self.node_ok(id, None));
        self.lemma_kids(None, id);
        assert(self.kid_ok(id, i));
        if self.under(j, c) {
            assert(self.node_ok(j, None));
            self.lemma_ancestor(None, j, h);
        }
        if self.under(j, id) && j != id {
            self.lemma_under_place(id, j);
        }
    }

    /// Releases the node `id` of the tree `whole` and the nodes under it,
    /// of which none is released yet; the buffers are dropped, or
    /// forgotten with their items.
    fn release_under(&mut self, id: usize, forget: bool, Ghost(whole): Ghost<Self>)
        requires
            whole.wf(),
            whole.has(id),
            old(self).rest_of(&whole),
            forall|j: usize| #[trigger] whole.under(j, id) ==> old(self).has(j),
        ensures
            final(self).rest_of(&whole),
            final(self).without(old(self), &whole, id),
        decreases whole.height(id),
    {
        let ghost h = whole.height(id);
        proof {
            assert(whole.under(id, id));
            assert(whole.node_ok(id, None));
            whole.lemma_kids(None, id);
        }
        let node = self.nodes.remove(id).into_buffer();
        let children = node.children().collect();
        let mut i: usize = 0;
        proof {
            assert forall|j: usize| #[trigger] self.has(j) implies whole.has(j) && self.node_at(j)
                == whole.node_at(j) by {
                assert(j != id);
                assert(old(self).has(j));
            }
            assert forall|j: usize|
                (#[trigger] self.has(j)) == (old(self).has(j) && !(whole.under(j, id) && (j == id
                    || whole.place(whole.ancestor(j, (h - 1) as nat)) < 0))) by {
                if whole.under(j, id) && j != id {
                    whole.lemma_under_place(id, j);
                }
            }
        }
        while i < children.len()
            invariant
                whole.wf(),
                whole.has(id),
                h == whole.height(id),
                children@ == whole.kids_at(id),
                i <= children@.len(),
                self.rest_of(&whole),
                forall|j: usize| #[trigger] whole.under(j, id) ==> old(self).has(j),
                forall|j: usize|
                    (#[trigger] self.has(j)) == (old(self).has(j) && !(whole.under(j, id) && (j
                        == id || whole.place(whole.ancestor(j, (h - 1) as nat)) < i))),
            decreases children@.len() - i,
        {
            let child = children[i];
            proof {
                whole.lemma_kids(None, id);
                assert(whole.node_ok(id, None));
                assert(whole.kid_ok(id, i as int));
                assert forall|j: usize| #[trigger] whole.under(j, child) implies self.has(j) by {
                    whole.lemma_under_kid(id, i as int, j);
                }
            }
            let ghost before = *self;
            self.release_under(child, forget, Ghost(whole));
            proof {
                assert forall|j: usize|
                    (#[trigger] self.has(j)) == (old(self).has(j) && !(whole.under(j, id) && (j
                        == id || whole.place(whole.ancestor(j, (h - 1) as nat)) < i + 1))) by {
                    whole.lemma_under_kid(id, i as int, j);
                    assert(self.has(j) == (before.has(j) && !whole.under(j, child)));
                }
            }
            i += 1;
        }
        proof {
            assert forall|j: usize|
                (#[trigger] self.has(j)) == (old(self).has(j) && !whole.under(j, id)) by {
                if whole.under(j, id) && j != id {
                    whole.lemma_under_place(id, j);
                }
            }
        }
        if forget {
            node.forget();
        }
    }

    /// Releases the node `id` and the nodes under it, with their items.
    ///
    /// The other nodes stay as they are, the parent of the node with it
    /// among its children.
    pub fn clear_node(&mut self, id: usize)
        requires
            old(self).wf(),
            old(self).has(id),
        ensures
            final(self).rest_of(old(self)),
            final(self).without(old(self), old(self), id),
    {
        let ghost whole = *self;
        self.release_under(id, false, Ghost(whole));
    }

    /// Releases the node `id` and the nodes under it without dropping
    /// the items.
    ///
    /// The other nodes stay as they are, the parent of the node with it
    /// among its children.
    pub fn forget_node(&mut self, id: usize)
        requires
            old(self).wf(),
            old(self).has(id),
        ensures
            final(self).rest_of(old(self)),
            final(self).without(old(self), old(self), id),
    {
        let ghost whole = *self;
        self.release_under(id, true, Ghost(whole));
    }

    /// What is left of a tree without the nodes under its root is a tree
    /// without an item, once it has no root.
    proof fn lemma_nothing_left(&self, whole: &Self)
        requires
            whole.wf(),
            whole.root is Some,
            self.nodes.wf(),
            self.without(whole, whole, whole.root.unwrap()),
            self.root is None,
            self.len == 0,
            self.ids@ == Seq::<usize>::empty(),
        ensures
            self.wf(),
            self@ == Map::<int, T>::empty(),
    {
        assert forall|j: usize| !#[trigger] self.has(j) by {
            if whole.has(j) {
                whole.lemma_under_root(j);
            }
        }
        assert(self.content() =~= vstd::multiset::Multiset::<T>::empty());
        lemma_index_is(self.content(), Map::<int, T>::empty());
    }

    /// Remove every item from the map.
    pub fn clear(&mut self)
        requires
            old(self).wf(),
        ensures
            final(self).wf(),
            final(self)@ == Map::<int, T>::empty(),
    {
        match self.root {
            Some(id) => {
                self.clear_node(id);
                let ghost rest = *self;
                self.set_root(None);
                self.set_len(0);
                proof {
                    self.ids = Ghost(Seq::empty());
                    assert(self.nodes == rest.nodes);
                    assert forall|j: usize| (#[trigger] self.has(j)) == rest.has(j) by {}
                    self.lemma_nothing_left(old(self));
                }
            },
            None => {
                proof {
                    self.lemma_empty();
                }
            },
        }
    }

    /// Remove every item from the map without dropping the items.
    pub fn forget_all(&mut self)
        requires
            old(self).wf(),
        ensures
            final(self).wf(),
            final(self)@ == Map::<int, T>::empty(),
    {
        match self.root {
            Some(id) => {
                self.forget_node(id);
                let ghost rest = *self;
                self.set_root(None);
                self.set_len(0);
                proof {
                    self.ids = Ghost(Seq::empty());
                    assert(self.nodes == rest.nodes);
                    assert forall|j: usize| (#[trigger] self.has(j)) == rest.has(j) by {}
                    self.lemma_nothing_left(old(self));
                }
            },
            None => {
                proof {
                    self.lemma_empty();
                }
            },
        }
    }
}

} // verus!
