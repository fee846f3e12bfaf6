//! The B-tree engine: the order of the items, the nodes, the invariant of
//! the tree and the operations that keep it.
//!
//! A tree is a [`Storage`](crate::slab::Storage). Its items are ordered by
//! the rank of their key ([`KeyOrd`]), and what the tree holds is the map
//! from each rank in the tree to the item of that rank: the view of the
//! storage, over which every operation is stated. The invariant of the tree
//! is [`Storage::wf`](crate::slab::Storage::wf), in the module [`shape`].
use vstd::prelude::*;

pub mod bulk;
pub mod collapse;
pub mod content;
pub mod drain;
pub mod entry;
pub mod inplace;
pub mod iter;
pub mod laws;
pub mod shape;
pub mod split;
pub mod swap;
pub mod teardown;
pub mod merge;
pub mod node;
pub mod nodes;
pub mod order;
pub mod paths;
pub mod rotate;
pub mod search;
pub mod update;
pub mod validate;
pub mod walk;

verus! {

/// B-Tree validation error.
#[derive(Clone, Copy, PartialEq, Eq, Structural, Debug)]
pub enum ValidationError {
    /// Some node is missing.
    MissingNode(usize),
    /// The leaves of the tree have different depths.
    NotBalanced,
    /// A node is referenced as the child of some node, but it is declared with a different parent.
    ///
    /// The first parameter is the node id,
    /// then the found parent id referencing the node as a child,
    /// then the expected parent id.
    WrongParent(usize, Option<usize>, Option<usize>),
    /// The given node is overflowing.
    Overflow(usize),
    /// The given node is underflowing.
    Underflow(usize),
    /// The items inside the given node are not sorted.
    UnsortedNode(usize),
    /// The smallest item key of the node is smaller than the left separator of the node.
    UnsortedFromLeft(usize),
    /// The greatest item key of the node is greater than the right separator of the node.
    UnsortedFromRight(usize),
}

/// Result of a three-way comparison of two keys.
#[derive(Clone, Copy, PartialEq, Eq, Structural, Debug)]
pub enum Comparison {
    Less,
    Equal,
    Greater,
}

/// How two integer ranks compare.
pub open spec fn compare_ranks(a: int, b: int) -> Comparison {
    if a < b {
        Comparison::Less
    } else if a == b {
        Comparison::Equal
    } else {
        Comparison::Greater
    }
}

/// Items ordered by their key.
///
/// The integers and the characters are such items, each one its own key.
///
/// The key of an item has a rank among the integers, and items are ordered as
/// their ranks are. Two items of one tree never share a rank.
pub trait KeyOrd: Sized {
    /// Rank of the item's key.
    spec fn key_rank(&self) -> int;

    /// Compares the keys of two items.
    fn key_order(&self, other: &Self) -> (c: Comparison)
        ensures
            c == compare_ranks(self.key_rank(), other.key_rank()),
    ;
}

/// Items whose key can be compared to a probe of type `Q`.
pub trait KeyPartialOrd<Q>: KeyOrd {
    /// Rank of the probe, on the scale of [`KeyOrd::key_rank`].
    spec fn probe_rank(probe: &Q) -> int;

    /// Compares the key of the item to the probe.
    fn key_partial_order(&self, probe: &Q) -> (c: Comparison)
        ensures
            c == compare_ranks(self.key_rank(), Self::probe_rank(probe)),
    ;
}

impl KeyOrd for usize {
    open spec fn key_rank(&self) -> int {
        *self as int
    }

    fn key_order(&self, other: &Self) -> (c: Comparison) {
        if *self < *other {
            Comparison::Less
        } else if *self == *other {
            Comparison::Equal
        } else {
            Comparison::Greater
        }
    }
}

impl KeyOrd for u8 {
    open spec fn key_rank(&self) -> int {
        *self as int
    }

    fn key_order(&self, other: &Self) -> (c: Comparison) {
        if *self < *other {
            Comparison::Less
        } else if *self == *other {
            Comparison::Equal
        } else {
            Comparison::Greater
        }
    }
}

impl KeyOrd for u16 {
    open spec fn key_rank(&self) -> int {
        *self as int
    }

    fn key_order(&self, other: &Self) -> (c: Comparison) {
        if *self < *other {
            Comparison::Less
        } else if *self == *other {
            Comparison::Equal
        } else {
            Comparison::Greater
        }
    }
}

impl KeyOrd for u32 {
    open spec fn key_rank(&self) -> int {
        *self as int
    }

    fn key_order(&self, other: &Self) -> (c: Comparison) {
        if *self < *other {
            Comparison::Less
        } else if *self == *other {
            Comparison::Equal
        } else {
            Comparison::Greater
        }
    }
}

impl KeyOrd for u64 {
    open spec fn key_rank(&self) -> int {
        *self as int
    }

    fn key_order(&self, other: &Self) -> (c: Comparison) {
        if *self < *other {
            Comparison::Less
        } else if *self == *other {
            Comparison::Equal
        } else {
            Comparison::Greater
        }
    }
}

impl KeyOrd for i8 {
    open spec fn key_rank(&self) -> int {
        *self as int
    }

    fn key_order(&self, other: &Self) -> (c: Comparison) {
        if *self < *other {
            Comparison::Less
        } else if *self == *other {
            Comparison::Equal
        } else {
            Comparison::Greater
        }
    }
}

impl KeyOrd for i16 {
    open spec fn key_rank(&self) -> int {
        *self as int
    }

    fn key_order(&self, other: &Self) -> (c: Comparison) {
        if *self < *other {
            Comparison::Less
        } else if *self == *other {
            Comparison::Equal
        } else {
            Comparison::Greater
        }
    }
}

impl KeyOrd for i32 {
    open spec fn key_rank(&self) -> int {
        *self as int
    }

    fn key_order(&self, other: &Self) -> (c: Comparison) {
        if *self < *other {
            Comparison::Less
        } else if *self == *other {
            Comparison::Equal
        } else {
            Comparison::Greater
        }
    }
}

impl KeyOrd for i64 {
    open spec fn key_rank(&self) -> int {
        *self as int
    }

    fn key_order(&self, other: &Self) -> (c: Comparison) {
        if *self < *other {
            Comparison::Less
        } else if *self == *other {
            Comparison::Equal
        } else {
            Comparison::Greater
        }
    }
}

impl KeyOrd for u128 {
    open spec fn key_rank(&self) -> int {
        *self as int
    }

    fn key_order(&self, other: &Self) -> (c: Comparison) {
        if *self < *other {
            Comparison::Less
        } else if *self == *other {
            Comparison::Equal
        } else {
            Comparison::Greater
        }
    }
}

impl KeyOrd for i128 {
    open spec fn key_rank(&self) -> int {
        *self as int
    }

    fn key_order(&self, other: &Self) -> (c: Comparison) {
        if *self < *other {
            Comparison::Less
        } else if *self == *other {
            Comparison::Equal
        } else {
            Comparison::Greater
        }
    }
}

/// `false` comes before `true`.
impl KeyOrd for bool {
    open spec fn key_rank(&self) -> int {
        if *self {
            1
        } else {
            0
        }
    }

    fn key_order(&self, other: &Self) -> (c: Comparison) {
        if *self == *other {
            Comparison::Equal
        } else if *other {
            Comparison::Less
        } else {
            Comparison::Greater
        }
    }
}

impl KeyOrd for isize {
    open spec fn key_rank(&self) -> int {
        *self as int
    }

    fn key_order(&self, other: &Self) -> (c: Comparison) {
        if *self < *other {
            Comparison::Less
        } else if *self == *other {
            Comparison::Equal
        } else {
            Comparison::Greater
        }
    }
}

impl KeyOrd for char {
    open spec fn key_rank(&self) -> int {
        *self as int
    }

    fn key_order(&self, other: &Self) -> (c: Comparison) {
        if *self < *other {
            Comparison::Less
        } else if *self == *other {
            Comparison::Equal
        } else {
            Comparison::Greater
        }
    }
}

/// Updated entry.
///
/// Used by the [`Storage::update`](crate::slab::Storage::update) function.
pub enum UpdateEntry<Q, I> {
    /// Vacant entry, queried by the given key.
    Vacant(Q),
    /// Occupied entry, storing the given item.
    Occupied(I),
}

/// Items that can be made of a value of type `I`, which has their key.
pub trait Insert<I>: KeyPartialOrd<I> {
    /// The item that is made of the value.
    spec fn allocated(item: I) -> Self;

    /// Converts a value of type `I` into an item that is suited to be
    /// inserted in a node.
    fn allocate_item(item: I) -> (r: Self)
        ensures
            r == Self::allocated(item),
            r.key_rank() == Self::probe_rank(&item),
    ;
}

/// An item is made of itself.
impl<T: KeyOrd> Insert<T> for T {
    open spec fn allocated(item: T) -> T {
        item
    }

    fn allocate_item(item: T) -> (r: T) {
        item
    }
}

/// An item can be sought by another item: the probe has the rank of its
/// key.
impl<T: KeyOrd> KeyPartialOrd<T> for T {
    open spec fn probe_rank(probe: &T) -> int {
        probe.key_rank()
    }

    fn key_partial_order(&self, probe: &T) -> (c: Comparison) {
        self.key_order(probe)
    }
}

} // verus!
