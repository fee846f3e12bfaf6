//! The storage of a tree: an arena for its nodes, with the root, the length
//! and the records of the invariant.
//!
//! The arena is any allocator of slots that keeps the contract of [`Arena`];
//! [`Slab`] is the one of this library.
use vstd::prelude::*;
use crate::btree::node::Reference;
use crate::btree::KeyOrd;

verus! {

/// A slot allocator: values under integer identifiers that stay the same
/// from the insertion of a value to its removal. A tree keeps its nodes in
/// one.
pub trait Arena<N>: Sized {
    /// The allocator is in order.
    spec fn wf(&self) -> bool;

    /// A value stands under the identifier.
    spec fn has(&self, id: usize) -> bool;

    /// The value under the identifier.
    spec fn at(&self, id: usize) -> N;

    /// An allocator without values.
    fn new() -> (r: Self)
        ensures
            r.wf(),
            forall|id: usize| !r.has(id),
    ;

    /// The value under the identifier, if there is one.
    fn get(&self, id: usize) -> (r: Option<&N>)
        ensures
            r == (if self.has(id) {
                Some(&self.at(id))
            } else {
                None
            }),
    ;

    /// The value under the identifier, to be changed in place: the
    /// allocator then holds under the identifier what the reference comes
    /// to hold, and the other values as before.
    fn get_mut(&mut self, id: usize) -> (r: &mut N)
        requires
            old(self).has(id),
        ensures
            *r == old(self).at(id),
            old(self).wf() ==> final(self).wf(),
            final(self).at(id) == *final(r),
            forall|j: usize| (#[trigger] final(self).has(j)) == old(self).has(j),
            forall|j: usize|
                j != id && old(self).has(j) ==> #[trigger] final(self).at(j) == old(self).at(j),
    ;

    /// Puts the value under an identifier that was vacant, and returns the
    /// identifier.
    fn insert(&mut self, value: N) -> (id: usize)
        requires
            old(self).wf(),
        ensures
            final(self).wf(),
            !old(self).has(id),
            id < usize::MAX,
            final(self).has(id),
            final(self).at(id) == value,
            forall|j: usize|
                j != id ==> (#[trigger] final(self).has(j)) == old(self).has(j) && (old(self).has(j)
                    ==> final(self).at(j) == old(self).at(j)),
    ;

    /// Takes the value under the identifier out of the allocator.
    fn remove(&mut self, id: usize) -> (value: N)
        requires
            old(self).wf(),
            old(self).has(id),
        ensures
            final(self).wf(),
            value == old(self).at(id),
            !final(self).has(id),
            forall|j: usize|
                j != id ==> (#[trigger] final(self).has(j)) == old(self).has(j) && (old(self).has(j)
                    ==> final(self).at(j) == old(self).at(j)),
    ;
}

/// Slot arena: values under integer identifiers that stay the same from
/// the insertion of a value to its removal.
///
/// This is the arena that a tree has where no other is named, and the one
/// whose operations are proved to keep the contract of [`Arena`]. A slab of
/// another crate takes its place through an implementation of [`Arena`],
/// which is then taken on trust.
pub struct Slab<T> {
    /// The slots, each with a value or vacant.
    pub slots: Vec<Option<T>>,
    /// The vacant slots.
    pub free: Vec<usize>,
}

impl<T> Slab<T> {
    /// The free list names vacant slots, each one once.
    pub open spec fn wf(&self) -> bool {
        &&& self.slots@.len() <= usize::MAX
        &&& forall|i: int|
            0 <= i < self.free@.len() ==> (#[trigger] self.free@[i]) < self.slots@.len()
                && self.slots@[self.free@[i] as int].is_none()
        &&& forall|i: int, j: int|
            0 <= i < j < self.free@.len() ==> #[trigger] self.free@[i] != #[trigger] self.free@[j]
    }

    /// A value stands under the identifier.
    pub open spec fn has(&self, id: usize) -> bool {
        id < self.slots@.len() && self.slots@[id as int].is_some()
    }

    /// The value under the identifier.
    pub open spec fn at(&self, id: usize) -> T {
        self.slots@[id as int].unwrap()
    }

    /// `self` holds what `other` holds, but for what stands under `id`.
    pub open spec fn same_but(&self, other: &Self, id: usize) -> bool {
        forall|j: usize|
            j != id ==> (#[trigger] self.has(j)) == other.has(j) && (other.has(j) ==> self.at(j)
                == other.at(j))
    }

    /// An arena without values.
    pub fn new() -> (r: Self)
        ensures
            r.wf(),
            forall|id: usize| !r.has(id),
    {
        Slab { slots: Vec::new(), free: Vec::new() }
    }

    /// The value under the identifier, if there is one.
    pub fn get(&self, id: usize) -> (r: Option<&T>)
        ensures
            r == (if self.has(id) {
                Some(&self.at(id))
            } else {
                None
            }),
    {
        if id < self.slots.len() {
            self.slots[id].as_ref()
        } else {
            None
        }
    }

    /// The value under the identifier, to be changed in place.
    pub fn get_mut(&mut self, id: usize) -> (r: &mut T)
        requires
            old(self).has(id),
        ensures
            *r == old(self).at(id),
            final(self).slots@ == old(self).slots@.update(id as int, Some(*final(r))),
            final(self).free == old(self).free,
    {
        self.slots[id].as_mut().unwrap()
    }

    /// Puts the value under an identifier that was vacant, and returns the
    /// identifier.
    pub fn insert(&mut self, value: T) -> (id: usize)
        requires
            old(self).wf(),
        ensures
            final(self).wf(),
            !old(self).has(id),
            id < usize::MAX,
            final(self).has(id),
            final(self).at(id) == value,
            final(self).same_but(old(self), id),
    {
        match self.free.pop() {
            Some(id) => {
                assert(old(self).free@[old(self).free@.len() - 1] == id);
                self.slots[id] = Some(value);
                id
            },
            None => {
                let id = self.slots.len();
                self.slots.push(Some(value));
                // the length of the slots fits, so the new identifier is not the last one
                let n = self.slots.len();
                assert(n == id + 1);
                id
            },
        }
    }

    /// Takes the value under the identifier out of the arena.
    pub fn remove(&mut self, id: usize) -> (value: T)
        requires
            old(self).wf(),
            old(self).has(id),
        ensures
            final(self).wf(),
            value == old(self).at(id),
            !final(self).has(id),
            final(self).same_but(old(self), id),
    {
        let mut slot: Option<T> = None;
        core::mem::swap(&mut self.slots[id], &mut slot);
        self.free.push(id);
        slot.unwrap()
    }
}

impl<T> Arena<T> for Slab<T> {
    open spec fn wf(&self) -> bool {
        Slab::wf(self)
    }

    open spec fn has(&self, id: usize) -> bool {
        Slab::has(self, id)
    }

    open spec fn at(&self, id: usize) -> T {
        Slab::at(self, id)
    }

    fn new() -> (r: Self) {
        Slab::new()
    }

    fn get(&self, id: usize) -> (r: Option<&T>) {
        Slab::get(self, id)
    }

    fn get_mut(&mut self, id: usize) -> (r: &mut T) {
        Slab::get_mut(self, id)
    }

    fn insert(&mut self, value: T) -> (id: usize) {
        Slab::insert(self, value)
    }

    fn remove(&mut self, id: usize) -> (value: T) {
        Slab::remove(self, id)
    }
}

/// Storage of a B-tree: the nodes in a slot arena, the root and the number
/// of items.
///
/// Beside them it records what the tree's invariant speaks of: for each
/// node its height above the leaves, its place among the children of its
/// parent and the two ranks between which all of its items lie.
pub struct Storage<T, A = Slab<Reference<T>>> {
    /// The nodes, under their identifiers.
    pub nodes: A,
    /// The items are of this type.
    pub item: core::marker::PhantomData<T>,
    /// The root node, if the tree is not empty.
    pub root: Option<usize>,
    /// Number of items in the tree.
    pub len: usize,
    /// The identifiers of the nodes, each one once.
    pub ids: Ghost<Seq<usize>>,
    /// Height of each node: `0` for a leaf.
    pub heights: Ghost<Map<usize, nat>>,
    /// Index of each node among the children of its parent.
    pub places: Ghost<Map<usize, int>>,
    /// The rank below those of all the items under each node, if any.
    pub lows: Ghost<Map<usize, Option<int>>>,
    /// The rank above those of all the items under each node, if any.
    pub highs: Ghost<Map<usize, Option<int>>>,
}

impl<T, A: Arena<Reference<T>>> Storage<T, A> {
    /// A node stands under the identifier.
    pub open spec fn has(&self, id: usize) -> bool {
        self.nodes.has(id)
    }

    /// The node under the identifier.
    pub open spec fn node_at(&self, id: usize) -> Reference<T> {
        self.nodes.at(id)
    }

    /// The items of the node under the identifier.
    pub open spec fn items_at(&self, id: usize) -> Seq<T> {
        self.nodes.at(id).item_seq()
    }

    /// The children of the node under the identifier.
    pub open spec fn kids_at(&self, id: usize) -> Seq<usize> {
        self.nodes.at(id).child_seq()
    }
}

} // verus!
