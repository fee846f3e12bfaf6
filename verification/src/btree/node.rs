//! The nodes of a tree: leaves with items, and internal nodes with items
//! and children.
use vstd::prelude::*;
use crate::btree::{KeyOrd, KeyPartialOrd, ValidationError, Comparison};

mod addr;
mod balance;
pub mod buffer;
pub mod internal;
pub mod item;
pub mod kids;
pub mod leaf;
mod offset;

pub use addr::Address;
pub use balance::Balance;
pub use buffer::Buffer;
pub use internal::Internal;
pub use item::ItemAccess;
pub use leaf::Leaf;
pub use offset::Offset;

use internal::descends_to;
use item::{changed_one, ranks_sorted};

verus! {

/// Order of the tree: the greatest number of items of an internal node,
/// which overflows when it holds that many.
pub const M: usize = 8;

/// Node type.
#[derive(Clone, Copy, PartialEq, Eq, Structural, Debug)]
pub enum Type {
    /// Internal node, with child nodes between items.
    Internal,
    /// Leaf node, without children.
    Leaf,
}

/// Answer of a node that cannot give an item away without underflowing.
#[derive(Clone, Copy, PartialEq, Eq, Structural, Debug)]
pub struct WouldUnderflow;

impl Type {
    pub fn is_internal(&self) -> (r: bool)
        ensures
            r == (*self == Type::Internal),
    {
        match self {
            Type::Internal => true,
            _ => false,
        }
    }

    pub fn is_leaf(&self) -> (r: bool)
        ensures
            r == (*self == Type::Leaf),
    {
        match self {
            Type::Leaf => true,
            _ => false,
        }
    }
}

/// The two kinds of node.
pub enum Desc<L, I> {
    Leaf(L),
    Internal(I),
}

/// A node of the tree, leaf or internal, under one set of operations.
pub struct Reference<T> {
    pub desc: Desc<Leaf<T>, Internal<T>>,
}

/// Where a probe of rank `k` stands among the sorted items of a node: `Ok`
/// with the offset of the item of that rank; else `Err` with, for a leaf,
/// the offset at which such an item would be inserted and no child, and for
/// an internal node the index and identifier of the child under which such
/// an item belongs.
pub open spec fn node_offset_of<T: KeyOrd>(
    node: Reference<T>,
    k: int,
    r: Result<Offset, (usize, Option<usize>)>,
) -> bool {
    match r {
        Ok(offset) => {
            &&& 0 <= offset.as_int() < node.item_seq().len()
            &&& node.item_seq()[offset.as_int()].key_rank() == k
        },
        Err((index, child)) => {
            &&& 0 <= index <= node.item_seq().len()
            &&& forall|i: int| 0 <= i < index ==> (#[trigger] node.item_seq()[i]).key_rank() < k
            &&& forall|i: int|
                index <= i < node.item_seq().len() ==> (#[trigger] node.item_seq()[i]).key_rank()
                    > k
            &&& child == (if node.is_leaf_node() {
                None
            } else {
                Some(node.child_seq()[index as int])
            })
        },
    }
}

/// The balance of a node of the given kind with `count` items.
pub open spec fn balance_of(leaf: bool, count: nat) -> Balance {
    if count >= max_capacity_of(leaf) {
        Balance::Overflow
    } else if count < min_capacity_of(leaf) {
        Balance::Underflow(count == 0)
    } else {
        Balance::Balanced
    }
}

/// The number of items with which a node of the given kind overflows.
pub open spec fn max_capacity_of(leaf: bool) -> nat {
    if leaf {
        (M + 1) as nat
    } else {
        M as nat
    }
}

/// The number of items under which a node underflows: a leaf may hold
/// one item less than an internal node.
pub open spec fn min_capacity_of(leaf: bool) -> nat {
    if leaf {
        ((M - 1) / 2 - 1) as nat
    } else {
        (M / 2 - 1) as nat
    }
}

/// What [`Reference::validate`] answers for a node with the given
/// identifier, expected parent and bounds.
pub open spec fn node_validation<T: KeyOrd>(
    node: Reference<T>,
    id: usize,
    parent: Option<usize>,
    min: Option<T>,
    max: Option<T>,
) -> Result<(), ValidationError> {
    let items = node.item_seq();
    if node.parent_id() != parent {
        Err(ValidationError::WrongParent(id, node.parent_id(), parent))
    } else if (min.is_some() || max.is_some()) && items.len() >= max_capacity_of(
        node.is_leaf_node(),
    ) {
        Err(ValidationError::Overflow(id))
    } else if (min.is_some() || max.is_some()) && items.len() < min_capacity_of(
        node.is_leaf_node(),
    ) {
        Err(ValidationError::Underflow(id))
    } else if !ranks_sorted(items) {
        Err(ValidationError::UnsortedNode(id))
    } else if min.is_some() && items.len() > 0 && min.unwrap().key_rank() >= items[0].key_rank() {
        Err(ValidationError::UnsortedFromLeft(id))
    } else if max.is_some() && items.len() > 0 && max.unwrap().key_rank()
        <= items.last().key_rank() {
        Err(ValidationError::UnsortedFromRight(id))
    } else {
        Ok(())
    }
}

impl<T> Reference<T> {
    /// `true` for a leaf.
    pub open spec fn is_leaf_node(&self) -> bool {
        self.desc is Leaf
    }

    /// Identifier of the parent node, if any.
    pub open spec fn parent_id(&self) -> Option<usize> {
        match self.desc {
            Desc::Internal(node) => node.parent,
            Desc::Leaf(node) => node.parent,
        }
    }

    /// The items of the node, from left to right.
    pub open spec fn item_seq(&self) -> Seq<T> {
        match self.desc {
            Desc::Internal(node) => node.item_seq(),
            Desc::Leaf(node) => node.item_seq(),
        }
    }

    /// The children of the node, from left to right; none for a leaf.
    pub open spec fn child_seq(&self) -> Seq<usize> {
        match self.desc {
            Desc::Internal(node) => node.child_seq(),
            Desc::Leaf(_) => Seq::empty(),
        }
    }

    /// The node is a leaf, or has one child more than it has items.
    pub open spec fn shaped(&self) -> bool {
        self.is_leaf_node() || self.child_seq().len() == self.item_seq().len() + 1
    }

    pub fn leaf(node: Leaf<T>) -> (r: Self)
        ensures
            r.desc == Desc::<Leaf<T>, Internal<T>>::Leaf(node),
    {
        Reference { desc: Desc::Leaf(node) }
    }

    pub fn internal(node: Internal<T>) -> (r: Self)
        ensures
            r.desc == Desc::<Leaf<T>, Internal<T>>::Internal(node),
    {
        Reference { desc: Desc::Internal(node) }
    }

    /// The node that holds what the buffer holds.
    pub fn from_buffer(buffer: Buffer<T>) -> (r: Self)
        ensures
            r.is_leaf_node() == buffer.is_leaf_node(),
            r.parent_id() == buffer.parent_id(),
            r.item_seq() == buffer.item_seq(),
            r.child_seq() == buffer.child_seq(),
    {
        match buffer {
            Buffer::Internal(node) => Self::internal(node),
            Buffer::Leaf(node) => Self::leaf(node),
        }
    }

    /// The buffer that holds what the node holds.
    pub fn into_buffer(self) -> (r: Buffer<T>)
        ensures
            r.is_leaf_node() == self.is_leaf_node(),
            r.parent_id() == self.parent_id(),
            r.item_seq() == self.item_seq(),
            r.child_seq() == self.child_seq(),
    {
        match self.desc {
            Desc::Internal(node) => Buffer::Internal(node),
            Desc::Leaf(node) => Buffer::Leaf(node),
        }
    }

    pub fn ty(&self) -> (r: Type)
        ensures
            r == (if self.is_leaf_node() {
                Type::Leaf
            } else {
                Type::Internal
            }),
    {
        match &self.desc {
            Desc::Leaf(_) => Type::Leaf,
            Desc::Internal(_) => Type::Internal,
        }
    }

    pub fn is_internal(&self) -> (r: bool)
        ensures
            r == !self.is_leaf_node(),
    {
        self.ty().is_internal()
    }

    /// Returns the identifer of the parent node, if any.
    pub fn parent(&self) -> (r: Option<usize>)
        ensures
            r == self.parent_id(),
    {
        match &self.desc {
            Desc::Internal(node) => node.parent(),
            Desc::Leaf(node) => node.parent(),
        }
    }

    /// Returns the current number of items stored in this node.
    pub fn item_count(&self) -> (r: usize)
        ensures
            r == self.item_seq().len(),
    {
        match &self.desc {
            Desc::Internal(node) => node.item_count(),
            Desc::Leaf(node) => node.item_count(),
        }
    }

    /// Returns a reference to the item with the given offset in the node.
    pub fn borrow_item(&self, offset: Offset) -> (r: Option<&T>)
        ensures
            r == (if 0 <= offset.as_int() < self.item_seq().len() {
                Some(&self.item_seq()[offset.as_int()])
            } else {
                None
            }),
    {
        match &self.desc {
            Desc::Internal(node) => node.borrow_item(offset),
            Desc::Leaf(node) => node.borrow_item(offset),
        }
    }

    pub fn borrow_first_item(&self) -> (r: Option<&T>)
        ensures
            r == (if self.item_seq().len() > 0 {
                Some(&self.item_seq()[0])
            } else {
                None
            }),
    {
        self.borrow_item(Offset::new(0))
    }

    pub fn borrow_last_item(&self) -> (r: Option<&T>)
        ensures
            r == (if self.item_seq().len() > 0 {
                Some(&self.item_seq().last())
            } else {
                None
            }),
    {
        let n = self.item_count();
        if n == 0 {
            None
        } else {
            self.borrow_item(Offset::new(n - 1))
        }
    }

    /// Returns a reference to the item with the given offset in the node.
    pub fn item(&self, offset: Offset) -> (r: Option<&T>)
        ensures
            r == (if 0 <= offset.as_int() < self.item_seq().len() {
                Some(&self.item_seq()[offset.as_int()])
            } else {
                None
            }),
    {
        self.borrow_item(offset)
    }

    pub fn first_item(&self) -> (r: Option<&T>)
        ensures
            r == (if self.item_seq().len() > 0 {
                Some(&self.item_seq()[0])
            } else {
                None
            }),
    {
        self.borrow_first_item()
    }

    pub fn last_item(&self) -> (r: Option<&T>)
        ensures
            r == (if self.item_seq().len() > 0 {
                Some(&self.item_seq().last())
            } else {
                None
            }),
    {
        self.borrow_last_item()
    }

    /// Returns an iterator over the items of the node, from left to
    /// right, each between the children on its left and on its right,
    /// where it has children.
    pub fn items(&self) -> (r: Items<'_, T>)
        ensures
            r.item_seq() == self.item_seq(),
            r.child_seq() == self.child_seq(),
            (r is Leaf) == self.is_leaf_node(),
            r.offset() == 0,
            r.shaped() == self.shaped(),
    {
        match &self.desc {
            Desc::Leaf(node) => Items::Leaf(node.items()),
            Desc::Internal(node) => Items::Internal(node.items()),
        }
    }

    /// Find the offset of the item matching the given key.
    ///
    /// If the key matches no item in this node,
    /// this funtion returns the index and id of the child that may match the key,
    /// or the index alone if it is a leaf.
    pub fn offset_of<Q>(&self, key: &Q) -> (r: Result<Offset, (usize, Option<usize>)>) where
        T: KeyPartialOrd<Q>,

        requires
            self.shaped(),
            ranks_sorted(self.item_seq()),
            self.item_seq().len() < usize::MAX,
        ensures
            node_offset_of(*self, T::probe_rank(key), r),
    {
        match &self.desc {
            Desc::Internal(node) => match node.offset_of(key) {
                Ok(i) => Ok(i),
                Err((index, child_id)) => Err((index, Some(child_id))),
            },
            Desc::Leaf(leaf) => match leaf.offset_of(key) {
                Ok(i) => Ok(i),
                Err(index) => Err((index.unwrap(), None)),
            },
        }
    }

    /// The item matching the given key, if this node has it: `Ok` with the
    /// item, `Ok` with nothing if a leaf does not have it, and for an
    /// internal node that does not have it `Err` with the child under which
    /// it belongs.
    pub fn get<Q>(&self, key: &Q) -> (r: Result<Option<&T>, usize>) where T: KeyPartialOrd<Q>
        requires
            self.shaped(),
            ranks_sorted(self.item_seq()),
        ensures
            r matches Ok(Some(item)) ==> self.item_seq().contains(*item) && item.key_rank()
                == T::probe_rank(key),
            r matches Ok(None) ==> self.is_leaf_node() && forall|i: int|
                0 <= i < self.item_seq().len() ==> (#[trigger] self.item_seq()[i]).key_rank()
                    != T::probe_rank(key),
            r is Err ==> !self.is_leaf_node() && exists|index: int|
                #[trigger] descends_to(
                    self.item_seq(),
                    self.child_seq(),
                    T::probe_rank(key),
                    index,
                    r->Err_0,
                ),
    {
        match &self.desc {
            Desc::Leaf(leaf) => Ok(leaf.get(key)),
            Desc::Internal(node) => match node.get(key) {
                Ok(value) => Ok(Some(value)),
                Err(e) => {
                    let r: Result<Option<&T>, usize> = Err(e);
                    let ghost index = choose|index: int|
                        #[trigger] descends_to(
                            node.item_seq(),
                            node.child_seq(),
                            T::probe_rank(key),
                            index,
                            e,
                        );
                    assert(descends_to(
                        self.item_seq(),
                        self.child_seq(),
                        T::probe_rank(key),
                        index,
                        r->Err_0,
                    ));
                    r
                },
            },
        }
    }

    /// Returns the current number of children.
    pub fn child_count(&self) -> (r: usize)
        requires
            self.item_seq().len() < usize::MAX,
        ensures
            r == self.child_seq().len(),
    {
        match &self.desc {
            Desc::Internal(node) => node.child_count(),
            Desc::Leaf(_) => 0,
        }
    }

    /// Returns the id of the child with the given index, if any.
    ///
    /// Note that in the case of leaf nodes, this always return `None`.
    pub fn child_id(&self, index: usize) -> (r: Option<usize>)
        ensures
            r == (if index < self.child_seq().len() {
                Some(self.child_seq()[index as int])
            } else {
                None
            }),
    {
        match &self.desc {
            Desc::Internal(node) => node.child_id(index),
            Desc::Leaf(_) => None,
        }
    }

    pub fn first_child_id(&self) -> (r: Option<usize>)
        ensures
            r == (if self.child_seq().len() == 0 {
                None
            } else {
                Some(self.child_seq()[0])
            }),
    {
        self.child_id(0)
    }

    /// Returns the index of the first child with the given id, if any.
    pub fn child_index(&self, id: usize) -> (r: Option<usize>)
        ensures
            match r {
                Some(index) => {
                    &&& index < self.child_seq().len()
                    &&& self.child_seq()[index as int] == id
                    &&& forall|i: int| 0 <= i < index ==> self.child_seq()[i] != id
                },
                None => !self.child_seq().contains(id),
            },
    {
        match &self.desc {
            Desc::Internal(node) => node.child_index(id),
            Desc::Leaf(_) => None,
        }
    }

    /// Returns an iterator over the children of the node, from left to
    /// right.
    pub fn children(&self) -> (r: Children<'_, T>)
        ensures
            r.remaining() == self.child_seq(),
    {
        match &self.desc {
            Desc::Leaf(_) => Children::Leaf,
            Desc::Internal(node) => Children::Internal(node.children()),
        }
    }

    /// Returns the maximum capacity of this node.
    ///
    /// The node is considered overflowing if it contains `max_capacity` items.
    pub fn max_capacity(&self) -> (r: usize)
        ensures
            r == max_capacity_of(self.is_leaf_node()),
    {
        match &self.desc {
            Desc::Internal(node) => node.max_capacity(),
            Desc::Leaf(node) => node.max_capacity(),
        }
    }

    /// Returns the minimum capacity of this node.
    ///
    /// The node is considered underflowing if it contains less items than this value.
    pub fn min_capacity(&self) -> (r: usize)
        ensures
            r == min_capacity_of(self.is_leaf_node()),
    {
        match &self.desc {
            Desc::Internal(node) => node.min_capacity(),
            Desc::Leaf(node) => node.min_capacity(),
        }
    }

    /// Checks if the node is overflowing.
    pub fn is_overflowing(&self) -> (r: bool)
        ensures
            r == (self.item_seq().len() >= max_capacity_of(self.is_leaf_node())),
    {
        self.item_count() >= self.max_capacity()
    }

    /// Checks if the node is underflowing.
    pub fn is_underflowing(&self) -> (r: bool)
        ensures
            r == (self.item_seq().len() < min_capacity_of(self.is_leaf_node())),
    {
        self.item_count() < self.min_capacity()
    }

    /// Returns the current balance of the node.
    pub fn balance(&self) -> (r: Balance)
        ensures
            r == balance_of(self.is_leaf_node(), self.item_seq().len()),
    {
        if self.is_overflowing() {
            Balance::Overflow
        } else if self.is_underflowing() {
            Balance::Underflow(self.item_count() == 0)
        } else {
            Balance::Balanced
        }
    }

    /// Checks the node against what its place in the tree asks of it: its
    /// identifier, the parent that lists it, and the items of that parent
    /// between which it stands. Gives the two bounds back.
    ///
    /// A node with a bound on either side is not the root and must be
    /// balanced.
    pub fn validate<'a>(
        &self,
        id: usize,
        parent: Option<usize>,
        min: Option<&'a T>,
        max: Option<&'a T>,
    ) -> (r: Result<(Option<&'a T>, Option<&'a T>), ValidationError>) where T: KeyOrd
        ensures
            match node_validation(
                *self,
                id,
                parent,
                match min {
                    Some(m) => Some(*m),
                    None => None,
                },
                match max {
                    Some(m) => Some(*m),
                    None => None,
                },
            ) {
                Ok(_) => r == Ok::<(Option<&'a T>, Option<&'a T>), ValidationError>((min, max)),
                Err(e) => r == Err::<(Option<&'a T>, Option<&'a T>), ValidationError>(e),
            },
    {
        let found = self.parent();
        let same = match (found, parent) {
            (Some(a), Some(b)) => a == b,
            (None, None) => true,
            _ => false,
        };
        if !same {
            return Err(ValidationError::WrongParent(id, found, parent));
        }
        if min.is_some() || max.is_some() {
            match self.balance() {
                Balance::Overflow => return Err(ValidationError::Overflow(id)),
                Balance::Underflow(_) => return Err(ValidationError::Underflow(id)),
                _ => (),
            }
        }
        let n = self.item_count();
        let mut i: usize = 1;
        while i < n
            invariant
                1 <= i,
                n == self.item_seq().len(),
                self.parent_id() == parent,
                (min.is_some() || max.is_some()) ==> balance_of(self.is_leaf_node(), n as nat)
                    == Balance::Balanced,
                forall|j: int|
                    1 <= j < i && j < n ==> (#[trigger] self.item_seq()[j - 1]).key_rank()
                        <= self.item_seq()[j].key_rank(),
            decreases n - i,
        {
            let prev = i - 1;
            let a = self.borrow_item(Offset::new(i)).unwrap();
            let b = self.borrow_item(Offset::new(prev)).unwrap();
            if let Comparison::Less = a.key_order(b) {
                proof {
                    let items = self.item_seq();
                    if ranks_sorted(items) {
                        assert(items[prev as int].key_rank() <= items[i as int].key_rank());
                    }
                }
                return Err(ValidationError::UnsortedNode(id));
            }
            i += 1;
        }
        proof {
            lemma_adjacent_sorted(self.item_seq());
        }
        if let Some(m) = min {
            if let Some(item) = self.borrow_first_item() {
                match m.key_order(item) {
                    Comparison::Less => (),
                    _ => return Err(ValidationError::UnsortedFromLeft(id)),
                }
            }
        }
        if let Some(m) = max {
            if let Some(item) = self.borrow_last_item() {
                match m.key_order(item) {
                    Comparison::Greater => (),
                    _ => return Err(ValidationError::UnsortedFromRight(id)),
                }
            }
        }
        Ok((min, max))
    }

    /// The items on the left and on the right of the child with the given
    /// index; none for a leaf.
    pub fn separators(&self, index: usize) -> (r: (Option<&T>, Option<&T>))
        ensures
            r.0 == (if !self.is_leaf_node() && 0 < index <= self.item_seq().len() {
                Some(&self.item_seq()[index - 1])
            } else {
                None
            }),
            r.1 == (if !self.is_leaf_node() && index < self.item_seq().len() {
                Some(&self.item_seq()[index as int])
            } else {
                None
            }),
    {
        match &self.desc {
            Desc::Leaf(_) => (None, None),
            Desc::Internal(node) => node.separators(index),
        }
    }
}

impl<T> Reference<T> {
    /// Sets the parent node id.
    pub fn set_parent(&mut self, parent: Option<usize>)
        ensures
            final(self).parent_id() == parent,
            final(self).is_leaf_node() == old(self).is_leaf_node(),
            final(self).item_seq() == old(self).item_seq(),
            final(self).child_seq() == old(self).child_seq(),
    {
        match &mut self.desc {
            Desc::Leaf(node) => node.set_parent(parent),
            Desc::Internal(node) => node.set_parent(parent),
        }
    }

    /// Sets the first child of the node.
    ///
    /// An internal node takes an identifier, a leaf takes none.
    pub fn set_first_child(&mut self, child_id: Option<usize>)
        requires
            old(self).shaped(),
            child_id.is_some() == !old(self).is_leaf_node(),
        ensures
            final(self).parent_id() == old(self).parent_id(),
            final(self).is_leaf_node() == old(self).is_leaf_node(),
            final(self).item_seq() == old(self).item_seq(),
            final(self).child_seq() == (if old(self).is_leaf_node() {
                old(self).child_seq()
            } else {
                old(self).child_seq().update(0, child_id.unwrap())
            }),
    {
        match &mut self.desc {
            Desc::Internal(node) => {
                if let Some(id) = child_id {
                    node.set_first_child_id(id)
                }
            },
            Desc::Leaf(_) => (),
        }
    }

    /// The item matching the given key, to be changed in place, if this
    /// node has it: `Ok` with the item, `Ok` with nothing if a leaf does not
    /// have it, and for an internal node that does not have it `Err` with
    /// the child under which it belongs.
    pub fn into_get_mut<Q>(&mut self, key: &Q) -> (r: Result<Option<&mut T>, usize>) where
        T: KeyPartialOrd<Q>,

        requires
            old(self).shaped(),
            ranks_sorted(old(self).item_seq()),
        ensures
            final(self).child_seq() == old(self).child_seq(),
            final(self).parent_id() == old(self).parent_id(),
            final(self).is_leaf_node() == old(self).is_leaf_node(),
            r matches Ok(Some(item)) ==> item.key_rank() == T::probe_rank(key),
            r matches Ok(Some(item)) ==> changed_one(
                old(self).item_seq(),
                final(self).item_seq(),
                *item,
                *final(item),
            ),
            !(r matches Ok(Some(_))) ==> final(self).item_seq() == old(self).item_seq(),
            r matches Ok(None) ==> old(self).is_leaf_node() && forall|i: int|
                0 <= i < old(self).item_seq().len() ==> (#[trigger] old(
                    self,
                ).item_seq()[i]).key_rank() != T::probe_rank(key),
            r is Err ==> !old(self).is_leaf_node() && exists|index: int|
                #[trigger] descends_to(
                    old(self).item_seq(),
                    old(self).child_seq(),
                    T::probe_rank(key),
                    index,
                    r->Err_0,
                ),
    {
        let ghost items = self.item_seq();
        let ghost children = self.child_seq();
        match &mut self.desc {
            Desc::Leaf(leaf) => Ok(leaf.get_mut(key)),
            Desc::Internal(node) => match node.get_mut(key) {
                Ok(value) => Ok(Some(value)),
                Err(e) => {
                    let r: Result<Option<&mut T>, usize> = Err(e);
                    proof {
                        let index = choose|index: int|
                            #[trigger] descends_to(items, children, T::probe_rank(key), index, e);
                        assert(descends_to(items, children, T::probe_rank(key), index, r->Err_0));
                    }
                    r
                },
            },
        }
    }

    /// Returns a mutable reference to the item at the given offset.
    pub fn into_item_mut(&mut self, offset: Offset) -> (r: &mut T)
        requires
            0 <= offset.as_int() < old(self).item_seq().len(),
        ensures
            *r == old(self).item_seq()[offset.as_int()],
            final(self).item_seq() == old(self).item_seq().update(offset.as_int(), *final(r)),
            final(self).child_seq() == old(self).child_seq(),
            final(self).parent_id() == old(self).parent_id(),
            final(self).is_leaf_node() == old(self).is_leaf_node(),
    {
        match &mut self.desc {
            Desc::Leaf(node) => node.item_mut(offset),
            Desc::Internal(node) => node.item_mut(offset),
        }
    }

    /// Insert the given item at the given offset.
    ///
    /// If this is an internal node, some `right_child_id` must be given.
    pub fn insert(&mut self, offset: Offset, item: T, right_child_id: Option<usize>)
        requires
            old(self).shaped(),
            0 <= offset.as_int() <= old(self).item_seq().len(),
            !old(self).is_leaf_node() ==> right_child_id.is_some(),
        ensures
            final(self).parent_id() == old(self).parent_id(),
            final(self).is_leaf_node() == old(self).is_leaf_node(),
            final(self).item_seq() == old(self).item_seq().insert(offset.as_int(), item),
            final(self).child_seq() == (if old(self).is_leaf_node() {
                old(self).child_seq()
            } else {
                old(self).child_seq().insert(offset.as_int() + 1, right_child_id.unwrap())
            }),
    {
        match &mut self.desc {
            Desc::Leaf(node) => node.insert(offset, item),
            Desc::Internal(node) => node.insert(offset, item, right_child_id.unwrap()),
        }
    }

    /// Removes the item at the given offset and returns it
    /// along with the identifier of its associated right child
    /// if the node is an internal node.
    pub fn remove(&mut self, offset: Offset) -> (r: (T, Option<usize>))
        requires
            old(self).shaped(),
            0 <= offset.as_int() < old(self).item_seq().len(),
        ensures
            r.0 == old(self).item_seq()[offset.as_int()],
            r.1 == (if old(self).is_leaf_node() {
                None
            } else {
                Some(old(self).child_seq()[offset.as_int() + 1])
            }),
            final(self).parent_id() == old(self).parent_id(),
            final(self).is_leaf_node() == old(self).is_leaf_node(),
            final(self).item_seq() == old(self).item_seq().remove(offset.as_int()),
            final(self).child_seq() == (if old(self).is_leaf_node() {
                old(self).child_seq()
            } else {
                old(self).child_seq().remove(offset.as_int() + 1)
            }),
    {
        match &mut self.desc {
            Desc::Leaf(node) => {
                let item = node.remove(offset);
                (item, None)
            },
            Desc::Internal(node) => {
                let (item, child) = node.remove(offset);
                (item, Some(child))
            },
        }
    }

    /// Removes the item at the given offset from a leaf. An internal node
    /// stays as it is and answers with the child on the left of the item.
    /// Nothing is done where no item stands at the offset.
    pub fn leaf_remove(&mut self, offset: Offset) -> (r: Option<Result<T, usize>>)
        requires
            old(self).shaped(),
        ensures
            final(self).parent_id() == old(self).parent_id(),
            final(self).is_leaf_node() == old(self).is_leaf_node(),
            final(self).child_seq() == old(self).child_seq(),
            !(0 <= offset.as_int() < old(self).item_seq().len()) ==> r.is_none()
                && final(self).item_seq() == old(self).item_seq(),
            0 <= offset.as_int() < old(self).item_seq().len() ==> (if old(self).is_leaf_node() {
                &&& r == Some(Ok::<T, usize>(old(self).item_seq()[offset.as_int()]))
                &&& final(self).item_seq() == old(self).item_seq().remove(offset.as_int())
            } else {
                &&& r == Some(Err::<T, usize>(old(self).child_seq()[offset.as_int()]))
                &&& final(self).item_seq() == old(self).item_seq()
            }),
    {
        match &mut self.desc {
            Desc::Internal(node) => {
                if offset.is_below(node.item_count()) && !offset.is_before() {
                    let left_child_index = offset.unwrap();
                    Some(Err(node.child_id(left_child_index).unwrap()))
                } else {
                    None
                }
            },
            Desc::Leaf(leaf) => {
                if offset.is_below(leaf.item_count()) && !offset.is_before() {
                    Some(Ok(leaf.remove(offset)))
                } else {
                    None
                }
            },
        }
    }

    /// Removes the last item of a leaf. An internal node stays as it is
    /// and answers with its last child.
    pub fn remove_rightmost_leaf(&mut self) -> (r: Result<T, usize>)
        requires
            old(self).is_leaf_node() ==> old(self).item_seq().len() > 0,
            old(self).shaped(),
            old(self).item_seq().len() < usize::MAX,
        ensures
            final(self).parent_id() == old(self).parent_id(),
            final(self).is_leaf_node() == old(self).is_leaf_node(),
            final(self).child_seq() == old(self).child_seq(),
            if old(self).is_leaf_node() {
                &&& r == Ok::<T, usize>(old(self).item_seq().last())
                &&& final(self).item_seq() == old(self).item_seq().drop_last()
            } else {
                &&& r == Err::<T, usize>(old(self).child_seq().last())
                &&& final(self).item_seq() == old(self).item_seq()
            },
    {
        match &mut self.desc {
            Desc::Internal(node) => {
                let child_index = node.child_count() - 1;
                let child_id = node.child_id(child_index).unwrap();
                Err(child_id)
            },
            Desc::Leaf(leaf) => Ok(leaf.remove_last()),
        }
    }

    /// Puts the item before the others, and for an internal node the child
    /// before that item.
    pub fn push_left(&mut self, child_id: Option<usize>, item: T)
        requires
            old(self).shaped(),
            child_id.is_some() == !old(self).is_leaf_node(),
        ensures
            final(self).parent_id() == old(self).parent_id(),
            final(self).is_leaf_node() == old(self).is_leaf_node(),
            final(self).item_seq() == seq![item] + old(self).item_seq(),
            final(self).child_seq() == (if old(self).is_leaf_node() {
                old(self).child_seq()
            } else {
                seq![child_id.unwrap()] + old(self).child_seq()
            }),
    {
        let first = self.first_child_id();
        self.insert(Offset::new(0), item, first);
        self.set_first_child(child_id);
        assert(self.item_seq() =~= seq![item] + old(self).item_seq());
        if !self.is_internal() {
        } else {
            assert(self.child_seq() =~= seq![child_id.unwrap()] + old(self).child_seq());
        }
    }

    /// Remove the first item of the node unless it would undeflow.
    ///
    /// Returns the item with, for an internal node, the child that stood
    /// before it.
    pub fn pop_left(&mut self) -> (r: Result<(Option<usize>, T), WouldUnderflow>)
        requires
            old(self).shaped(),
        ensures
            final(self).parent_id() == old(self).parent_id(),
            final(self).is_leaf_node() == old(self).is_leaf_node(),
            if old(self).item_seq().len() <= min_capacity_of(old(self).is_leaf_node()) {
                &&& r is Err
                &&& final(self).item_seq() == old(self).item_seq()
                &&& final(self).child_seq() == old(self).child_seq()
            } else {
                &&& r == Ok::<(Option<usize>, T), WouldUnderflow>(
                    (
                        if old(self).is_leaf_node() {
                            None
                        } else {
                            Some(old(self).child_seq()[0])
                        },
                        old(self).item_seq()[0],
                    ),
                )
                &&& final(self).item_seq() == old(self).item_seq().drop_first()
                &&& final(self).child_seq() == (if old(self).is_leaf_node() {
                    old(self).child_seq()
                } else {
                    old(self).child_seq().drop_first()
                })
            },
    {
        if self.item_count() <= self.min_capacity() {
            Err(WouldUnderflow)
        } else {
            let first_child_id = self.first_child_id();
            let (item, child_id) = self.remove(Offset::new(0));
            self.set_first_child(child_id);
            assert(self.item_seq() =~= old(self).item_seq().drop_first());
            if self.is_internal() {
                assert(self.child_seq() =~= old(self).child_seq().drop_first());
            }
            Ok((first_child_id, item))
        }
    }

    /// Puts the item after the others, and for an internal node the child
    /// after that item. Returns the offset of the item.
    pub fn push_right(&mut self, item: T, child_id: Option<usize>) -> (offset: Offset)
        requires
            old(self).shaped(),
            !old(self).is_leaf_node() ==> child_id.is_some(),
            old(self).item_seq().len() < usize::MAX,
        ensures
            offset.as_int() == old(self).item_seq().len(),
            final(self).parent_id() == old(self).parent_id(),
            final(self).is_leaf_node() == old(self).is_leaf_node(),
            final(self).item_seq() == old(self).item_seq().push(item),
            final(self).child_seq() == (if old(self).is_leaf_node() {
                old(self).child_seq()
            } else {
                old(self).child_seq().push(child_id.unwrap())
            }),
            final(self).shaped(),
    {
        let offset: Offset = Offset::new(self.item_count());
        self.insert(offset, item, child_id);
        assert(self.item_seq() =~= old(self).item_seq().push(item));
        if self.is_internal() {
            assert(self.child_seq() =~= old(self).child_seq().push(child_id.unwrap()));
        }
        offset
    }

    /// Remove the last item of the node unless it would undeflow.
    ///
    /// Returns the offset at which the item stood and the item with, for an
    /// internal node, the child that stood after it.
    pub fn pop_right(&mut self) -> (r: Result<(Offset, T, Option<usize>), WouldUnderflow>)
        requires
            old(self).shaped(),
        ensures
            final(self).parent_id() == old(self).parent_id(),
            final(self).is_leaf_node() == old(self).is_leaf_node(),
            if old(self).item_seq().len() <= min_capacity_of(old(self).is_leaf_node()) {
                &&& r is Err
                &&& final(self).item_seq() == old(self).item_seq()
                &&& final(self).child_seq() == old(self).child_seq()
            } else {
                &&& r is Ok
                &&& (r->Ok_0).0.as_int() == old(self).item_seq().len() - 1
                &&& (r->Ok_0).1 == old(self).item_seq().last()
                &&& (r->Ok_0).2 == (if old(self).is_leaf_node() {
                    None
                } else {
                    Some(old(self).child_seq().last())
                })
                &&& final(self).item_seq() == old(self).item_seq().drop_last()
                &&& final(self).child_seq() == (if old(self).is_leaf_node() {
                    old(self).child_seq()
                } else {
                    old(self).child_seq().drop_last()
                })
            },
    {
        if self.item_count() <= self.min_capacity() {
            Err(WouldUnderflow)
        } else {
            let offset: Offset = Offset::new(self.item_count() - 1);
            let (item, right_child_id) = self.remove(offset);
            assert(self.item_seq() =~= old(self).item_seq().drop_last());
            if self.is_internal() {
                assert(self.child_seq() =~= old(self).child_seq().drop_last());
            }
            Ok((offset, item, right_child_id))
        }
    }

    /// Replace the item at the given offset, and return the one that was
    /// there.
    pub fn replace(&mut self, offset: Offset, item: T) -> (previous: T)
        requires
            0 <= offset.as_int() < old(self).item_seq().len(),
        ensures
            previous == old(self).item_seq()[offset.as_int()],
            final(self).parent_id() == old(self).parent_id(),
            final(self).is_leaf_node() == old(self).is_leaf_node(),
            final(self).item_seq() == old(self).item_seq().update(offset.as_int(), item),
            final(self).child_seq() == old(self).child_seq(),
    {
        match &mut self.desc {
            Desc::Leaf(node) => node.replace(offset, item),
            Desc::Internal(node) => node.replace(offset, item),
        }
    }

    /// Split the node.
    /// Return the length of the node after split, the median item and the right node.
    ///
    /// The items on the left of the median stay, with the children around
    /// them. Those on its right move to the new node, with the children
    /// around them; the new node has the parent of this one.
    pub fn split(&mut self) -> (r: (usize, T, Buffer<T>))
        requires
            old(self).item_seq().len() >= max_capacity_of(old(self).is_leaf_node()),
            old(self).shaped(),
        ensures
            r.0 == (old(self).item_seq().len() - 1) / 2,
            r.1 == old(self).item_seq()[r.0 as int],
            final(self).parent_id() == old(self).parent_id(),
            final(self).is_leaf_node() == old(self).is_leaf_node(),
            final(self).item_seq() == old(self).item_seq().subrange(0, r.0 as int),
            final(self).child_seq() == (if old(self).is_leaf_node() {
                old(self).child_seq()
            } else {
                old(self).child_seq().subrange(0, r.0 + 1)
            }),
            r.2.is_leaf_node() == old(self).is_leaf_node(),
            r.2.parent_id() == old(self).parent_id(),
            r.2.item_seq() == old(self).item_seq().subrange(
                r.0 + 1,
                old(self).item_seq().len() as int,
            ),
            r.2.child_seq() == (if old(self).is_leaf_node() {
                Seq::<usize>::empty()
            } else {
                old(self).child_seq().subrange(r.0 + 1, old(self).child_seq().len() as int)
            }),
    {
        match &mut self.desc {
            Desc::Leaf(leaf) => {
                let (len, item, right_node) = leaf.split();
                (len, item, Buffer::Leaf(right_node))
            },
            Desc::Internal(node) => {
                let (len, item, right_node) = node.split();
                (len, item, Buffer::Internal(right_node))
            },
        }
    }

    /// Append `separator` and the content of the `other` node into this node.
    ///
    /// Returns the new offset of the `separator`.
    pub fn append(&mut self, separator: T, other: Buffer<T>) -> (offset: Offset)
        requires
            old(self).is_leaf_node() == other.is_leaf_node(),
        ensures
            offset.as_int() == old(self).item_seq().len(),
            final(self).parent_id() == old(self).parent_id(),
            final(self).is_leaf_node() == old(self).is_leaf_node(),
            final(self).item_seq() == old(self).item_seq().push(separator) + other.item_seq(),
            final(self).child_seq() == old(self).child_seq() + other.child_seq(),
    {
        match &mut self.desc {
            Desc::Internal(node) => {
                match other {
                    Buffer::Internal(other) => node.append(separator, other),
                    Buffer::Leaf(_) => Offset::new(0),
                }
            },
            Desc::Leaf(node) => {
                match other {
                    Buffer::Leaf(other) => {
                        let offset = node.append(separator, other);
                        assert(self.child_seq() =~= old(self).child_seq() + Seq::<usize>::empty());
                        offset
                    },
                    Buffer::Internal(_) => Offset::new(0),
                }
            },
        }
    }
}

/// Items whose ranks do not decrease from each one to the next are sorted.
pub proof fn lemma_adjacent_sorted<T: KeyOrd>(items: Seq<T>)
    requires
        forall|j: int|
            1 <= j < items.len() ==> (#[trigger] items[j - 1]).key_rank() <= items[j].key_rank(),
    ensures
        ranks_sorted(items),
{
    assert forall|i: int, j: int| 0 <= i < j < items.len() implies (#[trigger] items[i]).key_rank()
        <= (#[trigger] items[j]).key_rank() by {
        lemma_adjacent_chain(items, i, j);
    }
}

proof fn lemma_adjacent_chain<T: KeyOrd>(items: Seq<T>, i: int, j: int)
    requires
        forall|j: int|
            1 <= j < items.len() ==> (#[trigger] items[j - 1]).key_rank() <= items[j].key_rank(),
        0 <= i <= j < items.len(),
    ensures
        items[i].key_rank() <= items[j].key_rank(),
    decreases j - i,
{
    if i < j {
        lemma_adjacent_chain(items, i, j - 1);
        assert(items[j - 1].key_rank() <= items[j].key_rank());
    }
}

/// Iterator over the items of a node, from left to right, each between
/// the children on its left and on its right, where it has children.
pub enum Items<'a, T> {
    Leaf(leaf::Items<'a, T>),
    Internal(internal::Items<'a, T>),
}

impl<'a, T> Items<'a, T> {
    /// The items of the node.
    pub open spec fn item_seq(&self) -> Seq<T> {
        match self {
            Items::Leaf(inner) => inner.node.items@,
            Items::Internal(inner) => inner.node.item_seq(),
        }
    }

    /// The children of the node; none for a leaf.
    pub open spec fn child_seq(&self) -> Seq<usize> {
        match self {
            Items::Leaf(_) => Seq::empty(),
            Items::Internal(inner) => inner.node.child_seq(),
        }
    }

    /// The offset of the next item.
    pub open spec fn offset(&self) -> usize {
        match self {
            Items::Leaf(inner) => inner.offset,
            Items::Internal(inner) => inner.offset,
        }
    }

    /// The iterator goes over a leaf, or over an internal node with one
    /// child more than it has items.
    pub open spec fn shaped(&self) -> bool {
        match self {
            Items::Leaf(_) => true,
            Items::Internal(inner) => inner.node.shaped(),
        }
    }

    /// The child on the left of the item at the offset, if the node has
    /// children.
    pub open spec fn left_of(&self, offset: int) -> Option<usize> {
        match self {
            Items::Leaf(_) => None,
            Items::Internal(inner) => Some(inner.node.child_seq()[offset]),
        }
    }

    /// The child on the right of the item at the offset, if the node has
    /// children.
    pub open spec fn right_of(&self, offset: int) -> Option<usize> {
        match self {
            Items::Leaf(_) => None,
            Items::Internal(inner) => Some(inner.node.child_seq()[offset + 1]),
        }
    }

    /// The next item, if any, between the child on its left and the child
    /// on its right, where the node has children.
    pub fn next(&mut self) -> (r: Option<(Option<usize>, &'a T, Option<usize>)>)
        requires
            old(self).shaped(),
        ensures
            final(self).shaped(),
            final(self).item_seq() == old(self).item_seq(),
            final(self).child_seq() == old(self).child_seq(),
            (*final(self) is Leaf) == (*old(self) is Leaf),
            match r {
                Some((left, item, right)) => {
                    &&& old(self).offset() < old(self).item_seq().len()
                    &&& *item == old(self).item_seq()[old(self).offset() as int]
                    &&& left == old(self).left_of(old(self).offset() as int)
                    &&& right == old(self).right_of(old(self).offset() as int)
                    &&& final(self).offset() == old(self).offset() + 1
                },
                None => old(self).offset() >= old(self).item_seq().len() && *final(self) == *old(
                    self,
                ),
            },
    {
        match self {
            Items::Leaf(inner) => match inner.next() {
                Some(item) => Some((None, item, None)),
                None => None,
            },
            Items::Internal(inner) => match inner.next() {
                Some((left, item, right)) => Some((Some(left), item, Some(right))),
                None => None,
            },
        }
    }

    /// The items that are left, from left to right, each between the
    /// children on its two sides, where the node has children.
    pub fn collect(self) -> (r: Vec<(Option<usize>, &'a T, Option<usize>)>)
        requires
            self.shaped(),
            self.offset() <= self.item_seq().len(),
        ensures
            r@.len() == self.item_seq().len() - self.offset(),
            forall|i: int|
                0 <= i < r@.len() ==> {
                    &&& *(#[trigger] r@[i]).1 == self.item_seq()[self.offset() + i]
                    &&& r@[i].0 == self.left_of(self.offset() + i)
                    &&& r@[i].2 == self.right_of(self.offset() + i)
                },
    {
        let mut items = self;
        let mut r: Vec<(Option<usize>, &'a T, Option<usize>)> = Vec::new();
        loop
            invariant
                items.shaped(),
                items.item_seq() == self.item_seq(),
                items.child_seq() == self.child_seq(),
                (items is Leaf) == (self is Leaf),
                self.offset() <= items.offset() <= self.item_seq().len(),
                r@.len() == items.offset() - self.offset(),
                forall|i: int|
                    0 <= i < r@.len() ==> {
                        &&& *(#[trigger] r@[i]).1 == self.item_seq()[self.offset() + i]
                        &&& r@[i].0 == self.left_of(self.offset() + i)
                        &&& r@[i].2 == self.right_of(self.offset() + i)
                    },
            decreases self.item_seq().len() - items.offset(),
        {
            match items.next() {
                Some(triple) => r.push(triple),
                None => {
                    return r;
                },
            }
        }
    }
}

/// Iterator over the children of a node, from left to right: none for a
/// leaf.
pub enum Children<'a, T> {
    Leaf,
    Internal(internal::Children<'a, T>),
}

impl<'a, T> Children<'a, T> {
    /// The children that are left, from left to right.
    pub open spec fn remaining(&self) -> Seq<usize> {
        match self {
            Children::Leaf => Seq::empty(),
            Children::Internal(inner) => inner.remaining(),
        }
    }

    /// The next child, if any.
    pub fn next(&mut self) -> (r: Option<usize>)
        ensures
            match r {
                Some(id) => {
                    &&& old(self).remaining().len() > 0
                    &&& id == old(self).remaining()[0]
                    &&& final(self).remaining() == old(self).remaining().skip(1)
                },
                None => old(self).remaining().len() == 0 && *final(self) == *old(self),
            },
    {
        match self {
            Children::Leaf => None,
            Children::Internal(inner) => inner.next(),
        }
    }

    /// The children that are left, from left to right.
    pub fn collect(self) -> (r: Vec<usize>)
        ensures
            r@ == self.remaining(),
    {
        let mut children = self;
        let mut r: Vec<usize> = Vec::new();
        loop
            invariant
                r@ + children.remaining() == self.remaining(),
            decreases children.remaining().len(),
        {
            let ghost before = children.remaining();
            match children.next() {
                Some(id) => {
                    r.push(id);
                    proof {
                        assert(r@ + children.remaining() =~= self.remaining());
                    }
                },
                None => {
                    proof {
                        assert(r@ + children.remaining() =~= r@);
                    }
                    return r;
                },
            }
        }
    }
}

} // verus!
