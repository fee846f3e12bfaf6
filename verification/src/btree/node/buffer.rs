//! Nodes outside of a tree.
use vstd::prelude::*;
use super::item::ItemAccess;
use super::{Children, Internal, Leaf};

verus! {

/// Buffer node.
///
/// A buffer node is an intermediate node representation
/// used when a node is manipulated during a BTree transformation.
/// It is a node that is not yet/anymore in the storage.
pub enum Buffer<T> {
    Internal(Internal<T>),
    Leaf(Leaf<T>),
}

impl<T> Buffer<T> {
    /// `true` for a leaf.
    pub open spec fn is_leaf_node(&self) -> bool {
        self is Leaf
    }

    /// Identifier of the parent node, if any.
    pub open spec fn parent_id(&self) -> Option<usize> {
        match self {
            Buffer::Internal(node) => node.parent,
            Buffer::Leaf(node) => node.parent,
        }
    }

    /// The items of the node, from left to right.
    pub open spec fn item_seq(&self) -> Seq<T> {
        match self {
            Buffer::Internal(node) => node.item_seq(),
            Buffer::Leaf(node) => node.item_seq(),
        }
    }

    /// The children of the node, from left to right; none for a leaf.
    pub open spec fn child_seq(&self) -> Seq<usize> {
        match self {
            Buffer::Internal(node) => node.child_seq(),
            Buffer::Leaf(_) => Seq::empty(),
        }
    }

    /// Creates a leaf buffer node.
    pub fn leaf(parent: Option<usize>, item: T) -> (r: Self)
        ensures
            r.is_leaf_node(),
            r.parent_id() == parent,
            r.item_seq() == seq![item],
            r.child_seq() == Seq::<usize>::empty(),
    {
        let mut node = Leaf::new();
        node.set_parent(parent);
        node.push_right(item);
        assert(node.items@ =~= seq![item]);
        Buffer::Leaf(node)
    }

    /// Creates a binary internal buffer node.
    pub fn binary(parent: Option<usize>, left_child: usize, item: T, right_child: usize) -> (r:
        Self)
        ensures
            !r.is_leaf_node(),
            r.parent_id() == parent,
            r.item_seq() == seq![item],
            r.child_seq() == seq![left_child, right_child],
    {
        let mut node = Internal::new(left_child);
        node.set_parent(parent);
        node.push_right(item, right_child);
        assert(node.item_seq() =~= seq![item]);
        assert(node.child_seq() =~= seq![left_child, right_child]);
        Buffer::Internal(node)
    }

    /// Returns the id of the parent node.
    pub fn parent(&self) -> (r: Option<usize>)
        ensures
            r == self.parent_id(),
    {
        match self {
            Buffer::Internal(node) => node.parent(),
            Buffer::Leaf(node) => node.parent(),
        }
    }

    /// Gets the number of children in the node.
    ///
    /// Returns 0 if this is a leaf node.
    pub fn child_count(&self) -> (r: usize)
        requires
            self.item_seq().len() < usize::MAX,
        ensures
            r == self.child_seq().len(),
    {
        match self {
            Buffer::Internal(node) => node.child_count(),
            Buffer::Leaf(_) => 0,
        }
    }

    /// Returns an iterator over the children of the node, from left to
    /// right.
    pub fn children(&self) -> (r: Children<'_, T>)
        ensures
            r.remaining() == self.child_seq(),
    {
        match self {
            Buffer::Leaf(_) => Children::Leaf,
            Buffer::Internal(node) => Children::Internal(node.children()),
        }
    }

    /// Drop this node without dropping the items.
    ///
    /// Used without care, this may lead to memory leaks.
    pub fn forget(self) {
        match self {
            Buffer::Internal(node) => node.forget(),
            Buffer::Leaf(node) => node.forget(),
        }
    }
}

} // verus!
