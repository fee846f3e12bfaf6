//! The nodes of a tree in their arena: allocation, release and change in
//! place, and what each does to the content of the tree.
use vstd::prelude::*;
use super::content::{lemma_sum_push, lemma_sum_remove, lemma_sum_same, lemma_sum_update};
use super::node::{Address, Buffer, Reference};
use super::KeyOrd;
use crate::slab::{Arena, Storage};

verus! {

/// The items of a sequence with one more at `i` are those of the sequence
/// and that one.
pub proof fn lemma_insert_multiset<T>(s: Seq<T>, i: int, x: T)
    requires
        0 <= i <= s.len(),
    ensures
        s.insert(i, x).to_multiset() =~= s.to_multiset().insert(x),
{
    let t = s.insert(i, x);
    t.to_multiset_ensures();
    assert(t.remove(i) =~= s);
    assert(t[i] == x);
    assert(t.to_multiset().count(x) > 0) by {
        assert(t.contains(x));
    }
    assert forall|v: T| t.to_multiset().count(v) == s.to_multiset().insert(x).count(v) by {
        assert(t.remove(i).to_multiset().count(v) == t.to_multiset().remove(x).count(v));
    }
}

/// The items of a sequence are those on the left of a position, the item at
/// that position and those on its right.
pub proof fn lemma_split_multiset<T>(s: Seq<T>, m: int)
    requires
        0 <= m < s.len(),
    ensures
        s.to_multiset() =~= s.subrange(0, m).to_multiset().add(
            s.subrange(m + 1, s.len() as int).to_multiset(),
        ).insert(s[m]),
{
    let a = s.subrange(0, m);
    let b = s.subrange(m + 1, s.len() as int);
    assert(s =~= a.push(s[m]) + b);
    vstd::seq_lib::lemma_multiset_commutative(a.push(s[m]), b);
    a.to_multiset_ensures();
}

/// The items of two sequences one after the other are those of both.
pub proof fn lemma_concat_multiset<T>(a: Seq<T>, b: Seq<T>)
    ensures
        (a + b).to_multiset() =~= a.to_multiset().add(b.to_multiset()),
{
    vstd::seq_lib::lemma_multiset_commutative(a, b);
}

/// The items of a sequence with another item at `i` are those of the
/// sequence, but that the new item stands for the old one.
pub proof fn lemma_update_multiset<T>(s: Seq<T>, i: int, x: T)
    requires
        0 <= i < s.len(),
    ensures
        s.update(i, x).to_multiset().insert(s[i]) =~= s.to_multiset().insert(x),
{
    let t = s.remove(i);
    s.to_multiset_ensures();
    assert(s.to_multiset().count(s[i]) > 0) by {
        assert(s.contains(s[i]));
    }
    lemma_insert_multiset(t, i, x);
    assert(t.insert(i, x) =~= s.update(i, x));
}

impl<T: KeyOrd, A: Arena<Reference<T>>> Storage<T, A> {
    /// `self` is `before` with another node under `id`.
    pub open spec fn step(&self, before: &Self, id: usize) -> bool {
        &&& self.nodes.wf()
        &&& self.same_records(before)
        &&& self.ids == before.ids
        &&& before.has(id)
        &&& forall|j: usize| (#[trigger] self.has(j)) == before.has(j)
        &&& forall|j: usize|
            j != id && before.has(j) ==> #[trigger] self.node_at(j) == before.node_at(j)
    }

    /// Returns the node with the given id, to be changed in place.
    pub fn node_mut(&mut self, id: usize) -> (r: &mut Reference<T>)
        requires
            old(self).nodes.wf(),
            old(self).has(id),
        ensures
            *r == old(self).node_at(id),
            final(self).node_at(id) == *final(r),
            final(self).step(old(self), id),
    {
        self.nodes.get_mut(id)
    }

    /// Where one node of a tree changes its items, the content of the tree
    /// loses the old ones and gains the new ones.
    pub proof fn lemma_content_update(&self, before: &Self, id: usize)
        requires
            before.ids@.no_duplicates(),
            before.ids@.contains(id),
            self.ids == before.ids,
            forall|j: usize|
                j != id && before.ids@.contains(j) ==> #[trigger] self.items_at(j)
                    == before.items_at(j),
        ensures
            forall|v: T|
                #[trigger] self.content().count(v) + before.items_at(id).to_multiset().count(v)
                    == before.content().count(v) + self.items_at(id).to_multiset().count(v),
    {
        let ids = self.ids@;
        assert forall|i: int| 0 <= i < ids.len() && ids[i] != id implies before.items_at(
            #[trigger] ids[i],
        ) == self.items_at(ids[i]) by {
            assert(ids.contains(ids[i]));
        }
        lemma_sum_update(*before, *self, ids, id);
        assert forall|v: T|
            #[trigger] self.content().count(v) + before.items_at(id).to_multiset().count(v)
                == before.content().count(v) + self.items_at(id).to_multiset().count(v) by {
            assert(self.content().add(before.items_at(id).to_multiset()).count(v)
                == before.content().add(self.items_at(id).to_multiset()).count(v));
        }
    }

    /// Where a tree gains a node, its content gains the items of that node.
    pub proof fn lemma_content_push(&self, before: &Self, id: usize)
        requires
            self.ids@ == before.ids@.push(id),
            forall|j: usize|
                before.ids@.contains(j) ==> #[trigger] self.items_at(j) == before.items_at(j),
        ensures
            self.content() == before.content().add(self.items_at(id).to_multiset()),
    {
        let ids = before.ids@;
        assert forall|i: int| 0 <= i < ids.len() implies before.items_at(#[trigger] ids[i])
            == self.items_at(ids[i]) by {
            assert(ids.contains(ids[i]));
        }
        lemma_sum_same(*before, *self, ids);
        lemma_sum_push(*self, ids, id);
    }

    /// Where a tree loses a node, its content loses the items of that node.
    pub proof fn lemma_content_remove(&self, before: &Self, k: int)
        requires
            0 <= k < before.ids@.len(),
            before.ids@.no_duplicates(),
            self.ids@ == before.ids@.remove(k),
            forall|j: usize|
                before.ids@.contains(j) && j != before.ids@[k] ==> #[trigger] self.items_at(j)
                    == before.items_at(j),
        ensures
            self.content().add(before.items_at(before.ids@[k]).to_multiset()) == before.content(),
            self.ids@.no_duplicates(),
            forall|j: usize|
                self.ids@.contains(j) <==> before.ids@.contains(j) && j != before.ids@[k],
    {
        let ids = before.ids@;
        let rest = ids.remove(k);
        assert forall|j: usize| rest.contains(j) <==> ids.contains(j) && j != ids[k] by {
            if rest.contains(j) {
                let i = choose|i: int| 0 <= i < rest.len() && rest[i] == j;
                if i < k {
                    assert(ids[i] == j);
                } else {
                    assert(ids[i + 1] == j);
                }
            }
            if ids.contains(j) && j != ids[k] {
                let i = choose|i: int| 0 <= i < ids.len() && ids[i] == j;
                if i < k {
                    assert(rest[i] == j);
                } else {
                    assert(rest[i - 1] == j);
                }
            }
        }
        assert forall|i: int| 0 <= i < rest.len() implies before.items_at(#[trigger] rest[i])
            == self.items_at(rest[i]) by {
            assert(rest.contains(rest[i]));
        }
        lemma_sum_same(*before, *self, rest);
        lemma_sum_remove(*before, ids, k);
    }

    /// The node under `j` has in `self` the kind, the items and the
    /// children that it has in `before`.
    pub open spec fn same_node(&self, before: &Self, j: usize) -> bool {
        &&& self.has(j)
        &&& self.node_at(j).is_leaf_node() == before.node_at(j).is_leaf_node()
        &&& self.items_at(j) == before.items_at(j)
        &&& self.kids_at(j) == before.kids_at(j)
    }

    /// A map that holds every item of every node under its rank, and
    /// nothing but items of the tree, each under its rank, is what the
    /// tree holds.
    pub proof fn lemma_view_is(&self, target: Map<int, T>)
        requires
            forall|id: usize| self.has(id) <==> #[trigger] self.ids@.contains(id),
            forall|id: usize, i: int|
                self.has(id) && 0 <= i < self.items_at(id).len() ==> target.dom().contains(
                    (#[trigger] self.items_at(id)[i]).key_rank(),
                ) && target[self.items_at(id)[i].key_rank()] == self.items_at(id)[i],
            forall|r: int| #[trigger]
                target.dom().contains(r) ==> self.content().count(target[r]) > 0
                    && target[r].key_rank() == r,
        ensures
            self@ == target,
    {
        assert forall|x: T| self.content().count(x) > 0 implies target.dom().contains(
            #[trigger] x.key_rank(),
        ) && target[x.key_rank()] == x by {
            let r = super::content::lemma_sum_contains(*self, self.ids@, x);
            let id = self.ids@[r.0];
            assert(self.ids@.contains(id));
            assert(self.items_at(id)[r.1] == x);
        }
        super::content::lemma_index_is(self.content(), target);
    }

    /// `self` differs from `before` in its nodes alone.
    pub open spec fn same_records(&self, before: &Self) -> bool {
        &&& self.root == before.root
        &&& self.len == before.len
        &&& self.heights == before.heights
        &&& self.places == before.places
        &&& self.lows == before.lows
        &&& self.highs == before.highs
    }

    /// Sets the root node by id.
    pub fn set_root(&mut self, root: Option<usize>)
        ensures
            final(self).root == root,
            final(self).nodes == old(self).nodes,
            final(self).len == old(self).len,
            final(self).ids == old(self).ids,
            final(self).heights == old(self).heights,
            final(self).places == old(self).places,
            final(self).lows == old(self).lows,
            final(self).highs == old(self).highs,
    {
        self.root = root
    }

    /// Update the length of the B-Tree.
    pub fn set_len(&mut self, new_len: usize)
        ensures
            final(self).len == new_len,
            final(self).nodes == old(self).nodes,
            final(self).root == old(self).root,
            final(self).ids == old(self).ids,
            final(self).heights == old(self).heights,
            final(self).places == old(self).places,
            final(self).lows == old(self).lows,
            final(self).highs == old(self).highs,
    {
        self.len = new_len
    }

    /// Allocate the given node.
    pub fn allocate_node(&mut self, node: Buffer<T>) -> (id: usize)
        requires
            old(self).nodes.wf(),
        ensures
            final(self).nodes.wf(),
            final(self).same_records(old(self)),
            final(self).ids@ == old(self).ids@.push(id),
            !old(self).has(id),
            id < usize::MAX,
            final(self).has(id),
            final(self).node_at(id).is_leaf_node() == node.is_leaf_node(),
            final(self).node_at(id).parent_id() == node.parent_id(),
            final(self).items_at(id) == node.item_seq(),
            final(self).kids_at(id) == node.child_seq(),
            forall|j: usize|
                j != id ==> (#[trigger] final(self).has(j)) == old(self).has(j) && (old(self).has(j)
                    ==> final(self).node_at(j) == old(self).node_at(j)),
    {
        let id = self.nodes.insert(Reference::from_buffer(node));
        proof {
            self.ids = Ghost(self.ids@.push(id));
        }
        id
    }

    /// `self` is `before` with the given node more, under `id`, which the
    /// children of that node name as their parent.
    pub open spec fn grown(&self, before: &Self, id: usize, node: Buffer<T>) -> bool {
        &&& self.nodes.wf()
        &&& self.same_records(before)
        &&& self.ids@ == before.ids@.push(id)
        &&& !before.has(id)
        &&& id < usize::MAX
        &&& self.has(id)
        &&& self.node_at(id).is_leaf_node() == node.is_leaf_node()
        &&& self.node_at(id).parent_id() == node.parent_id()
        &&& self.items_at(id) == node.item_seq()
        &&& self.kids_at(id) == node.child_seq()
        &&& forall|j: usize| j != id ==> (#[trigger] self.has(j)) == before.has(j)
        &&& forall|j: usize|
            before.has(j) ==> #[trigger] self.same_node(before, j) && self.node_at(j).parent_id()
                == (if node.child_seq().contains(j) {
                Some(id)
            } else {
                before.node_at(j).parent_id()
            })
    }

    /// Allocate the given node and setup its children parent id.
    pub fn insert_node(&mut self, node: Buffer<T>) -> (id: usize)
        requires
            old(self).nodes.wf(),
            node.item_seq().len() < usize::MAX,
            forall|i: int| 0 <= i < node.child_seq().len() ==> old(self).has(node.child_seq()[i]),
        ensures
            final(self).grown(old(self), id, node),
    {
        let child_count = node.child_count();
        let ghost kids = node.child_seq();
        let id = self.allocate_node(node);
        let ghost mid = *self;
        let mut i: usize = 0;
        proof {
            assert forall|j: usize| old(self).has(j) implies #[trigger] self.same_node(
                old(self),
                j,
            ) && self.node_at(j).parent_id() == (if kids.subrange(0, 0).contains(j) {
                Some(id)
            } else {
                old(self).node_at(j).parent_id()
            }) by {
                assert(mid.has(j));
            }
        }
        while i < child_count
            invariant
                i <= child_count,
                child_count == kids.len(),
                self.nodes.wf(),
                self.same_records(&mid),
                self.ids == mid.ids,
                self.has(id),
                self.node_at(id) == mid.node_at(id),
                self.kids_at(id) == kids,
                !old(self).has(id),
                forall|t: int| 0 <= t < kids.len() ==> old(self).has(kids[t]),
                forall|j: usize| (#[trigger] self.has(j)) == mid.has(j),
                forall|j: usize|
                    j != id ==> (#[trigger] mid.has(j)) == old(self).has(j) && (old(self).has(j)
                        ==> mid.node_at(j) == old(self).node_at(j)),
                forall|j: usize|
                    old(self).has(j) ==> #[trigger] self.same_node(old(self), j) && self.node_at(
                        j,
                    ).parent_id() == (if kids.subrange(0, i as int).contains(j) {
                        Some(id)
                    } else {
                        old(self).node_at(j).parent_id()
                    }),
            decreases child_count - i,
        {
            let child_id = self.node(id).unwrap().child_id(i).unwrap();
            let ghost prev = *self;
            assert(child_id == kids[i as int]);
            assert(old(self).has(child_id));
            assert(prev.same_node(old(self), child_id));
            let child = self.nodes.get_mut(child_id);
            child.set_parent(Some(id));
            i += 1;
            proof {
                assert forall|j: usize| (#[trigger] self.has(j)) == mid.has(j) by {
                    assert(prev.has(j) == mid.has(j));
                }
                assert forall|j: usize| old(self).has(j) implies #[trigger] self.same_node(
                    old(self),
                    j,
                ) && self.node_at(j).parent_id() == (if kids.subrange(0, i as int).contains(j) {
                    Some(id)
                } else {
                    old(self).node_at(j).parent_id()
                }) by {
                    assert(prev.same_node(old(self), j));
                    let a = kids.subrange(0, i - 1);
                    let b = kids.subrange(0, i as int);
                    assert(b =~= a.push(child_id));
                    if a.contains(j) {
                        let t = choose|t: int| 0 <= t < a.len() && a[t] == j;
                        assert(b[t] == j);
                    }
                    if j == child_id {
                        assert(b[i - 1] == j);
                    }
                    if b.contains(j) && j != child_id {
                        let t = choose|t: int| 0 <= t < b.len() && b[t] == j;
                        assert(a[t] == j);
                    }
                }
            }
        }
        proof {
            assert(kids.subrange(0, i as int) =~= kids);
            assert forall|j: usize| old(self).has(j) implies #[trigger] self.same_node(
                old(self),
                j,
            ) && self.node_at(j).parent_id() == (if kids.contains(j) {
                Some(id)
            } else {
                old(self).node_at(j).parent_id()
            }) by {
                assert(self.same_node(old(self), j));
            }
            assert forall|j: usize| j != id implies (#[trigger] self.has(j)) == old(self).has(
                j,
            ) by {
                assert(self.has(j) == mid.has(j));
            }
        }
        id
    }

    /// Remove the node with the given `id`.
    pub fn release_node(&mut self, id: usize) -> (node: Buffer<T>)
        requires
            old(self).nodes.wf(),
            old(self).has(id),
            old(self).ids@.contains(id),
        ensures
            final(self).shrunk(old(self), id),
            node.is_leaf_node() == old(self).node_at(id).is_leaf_node(),
            node.parent_id() == old(self).node_at(id).parent_id(),
            node.item_seq() == old(self).items_at(id),
            node.child_seq() == old(self).kids_at(id),
    {
        let node = self.nodes.remove(id);
        proof {
            let ids = old(self).ids@;
            assert(ids.contains(id));
            let k = choose|k: int| 0 <= k < ids.len() && ids[k] == id;
            self.ids = Ghost(ids.remove(k));
            assert(0 <= k < ids.len() && ids[k] == id && ids.remove(k) == self.ids@);
            assert forall|j: usize| j != id implies (#[trigger] self.has(j)) == old(self).has(
                j,
            ) by {}
            assert forall|j: usize| j != id && old(self).has(j) implies #[trigger] self.node_at(j)
                == old(self).node_at(j) by {
                assert(self.nodes.has(j) == old(self).nodes.has(j));
            }
        }
        node.into_buffer()
    }

    /// `self` is `before` without the node under `id`.
    pub open spec fn shrunk(&self, before: &Self, id: usize) -> bool {
        &&& self.nodes.wf()
        &&& self.same_records(before)
        &&& exists|k: int|
            0 <= k < before.ids@.len() && before.ids@[k] == id && #[trigger] before.ids@.remove(k)
                == self.ids@
        &&& before.has(id)
        &&& !self.has(id)
        &&& forall|j: usize| j != id ==> (#[trigger] self.has(j)) == before.has(j)
        &&& forall|j: usize|
            j != id && before.has(j) ==> #[trigger] self.node_at(j) == before.node_at(j)
    }

    /// `self` is `before`, but that the listed nodes name `parent` as
    /// their parent.
    pub open spec fn reparented(&self, before: &Self, kids: Seq<usize>, parent: usize) -> bool {
        &&& self.nodes.wf()
        &&& self.same_records(before)
        &&& self.ids == before.ids
        &&& forall|j: usize| (#[trigger] self.has(j)) == before.has(j)
        &&& forall|j: usize| before.has(j) ==> #[trigger] self.same_node(before, j)
        &&& forall|j: usize|
            before.has(j) && #[trigger] self.same_node(before, j) ==> self.node_at(j).parent_id()
                == (if kids.contains(j) {
                Some(parent)
            } else {
                before.node_at(j).parent_id()
            })
    }

    /// Makes `parent` the parent of each of the listed nodes.
    pub fn set_parents(&mut self, children: &Vec<usize>, parent: usize)
        requires
            old(self).nodes.wf(),
            forall|i: int| 0 <= i < children@.len() ==> old(self).has(children@[i]),
        ensures
            final(self).reparented(old(self), children@, parent),
    {
        let ghost kids = children@;
        let mut i: usize = 0;
        proof {
            assert forall|j: usize| old(self).has(j) implies (#[trigger] self.same_node(
                old(self),
                j,
            )) && self.node_at(j).parent_id() == (if kids.subrange(0, 0).contains(j) {
                Some(parent)
            } else {
                old(self).node_at(j).parent_id()
            }) by {}
        }
        while i < children.len()
            invariant
                i <= children@.len(),
                kids == children@,
                self.nodes.wf(),
                self.same_records(old(self)),
                self.ids == old(self).ids,
                forall|t: int| 0 <= t < kids.len() ==> old(self).has(kids[t]),
                forall|j: usize| (#[trigger] self.has(j)) == old(self).has(j),
                forall|j: usize| old(self).has(j) ==> #[trigger] self.same_node(old(self), j),
                forall|j: usize|
                    old(self).has(j) && #[trigger] self.same_node(old(self), j) ==> self.node_at(
                        j,
                    ).parent_id() == (if kids.subrange(0, i as int).contains(j) {
                        Some(parent)
                    } else {
                        old(self).node_at(j).parent_id()
                    }),
            decreases children@.len() - i,
        {
            let child_id = children[i];
            let ghost prev = *self;
            assert(old(self).has(child_id));
            assert(prev.has(child_id) == old(self).has(child_id));
            assert(prev.same_node(old(self), child_id));
            let child = self.node_mut(child_id);
            child.set_parent(Some(parent));
            i += 1;
            proof {
                assert forall|j: usize| (#[trigger] self.has(j)) == old(self).has(j) by {
                    assert(prev.has(j) == old(self).has(j));
                }
                assert forall|j: usize| old(self).has(j) implies (#[trigger] self.same_node(
                    old(self),
                    j,
                )) && self.node_at(j).parent_id() == (if kids.subrange(0, i as int).contains(j) {
                    Some(parent)
                } else {
                    old(self).node_at(j).parent_id()
                }) by {
                    assert(prev.has(j) == old(self).has(j));
                    assert(prev.same_node(old(self), j));
                    if j != child_id {
                        assert(self.node_at(j) == prev.node_at(j));
                    }
                    let a = kids.subrange(0, i - 1);
                    let b = kids.subrange(0, i as int);
                    assert(b =~= a.push(child_id));
                    if a.contains(j) {
                        let t = choose|t: int| 0 <= t < a.len() && a[t] == j;
                        assert(b[t] == j);
                    }
                    if j == child_id {
                        assert(b[i - 1] == j);
                    }
                    if b.contains(j) && j != child_id {
                        let t = choose|t: int| 0 <= t < b.len() && b[t] == j;
                        assert(a[t] == j);
                    }
                }
            }
        }
        proof {
            assert(kids.subrange(0, i as int) =~= kids);
        }
    }

    /// The address names an item, or the end of a leaf, or it is nowhere
    /// in an empty tree.
    pub open spec fn addressable(&self, addr: Address) -> bool {
        if self.root is None {
            addr == Address::nowhere()
        } else {
            ||| self.is_item_address(addr)
            ||| {
                &&& self.has(addr.id)
                &&& self.node_at(addr.id).is_leaf_node()
                &&& addr.offset.as_int() == self.items_at(addr.id).len()
            }
        }
    }

    /// The rank for which the address stands: that of the item that it
    /// names, or at the end of a leaf the next greater rank of the tree.
    pub open spec fn target_of(&self, addr: Address) -> Option<int> {
        if self.root is None {
            None
        } else if self.is_item_address(addr) {
            Some(self.rank_at(addr))
        } else {
            self.high(addr.id)
        }
    }

}

} // verus!
