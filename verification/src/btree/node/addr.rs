//! Addresses of positions in a tree.
use vstd::prelude::*;
use super::Offset;

verus! {

/// Address of a position in the tree: a node and an offset in it.
///
/// An address is an item address when an item stands at its offset, and a
/// back address when its offset is at most the number of items of its node:
/// a place where an item can be inserted. The address `nowhere` names no
/// node; it stands for the one position of an empty tree.
#[derive(Clone, Copy, PartialEq, Eq, Structural, Debug)]
pub struct Address {
    /// Identifier of the node.
    pub id: usize,
    /// Offset in the node.
    pub offset: Offset,
}

impl Address {
    pub fn new(id: usize, offset: Offset) -> (r: Address)
        ensures
            r.id == id,
            r.offset == offset,
    {
        Address { id, offset }
    }

    /// The address of no node.
    pub open spec fn spec_nowhere() -> Address {
        Address { id: usize::MAX, offset: Offset(0) }
    }

    #[verifier::when_used_as_spec(spec_nowhere)]
    pub fn nowhere() -> (r: Address)
        ensures
            r == Self::spec_nowhere(),
    {
        Address { id: usize::MAX, offset: Offset(0) }
    }

    pub open spec fn spec_is_nowhere(&self) -> bool {
        self.id == usize::MAX
    }

    #[verifier::when_used_as_spec(spec_is_nowhere)]
    pub fn is_nowhere(&self) -> (r: bool)
        ensures
            r == self.spec_is_nowhere(),
    {
        self.id == usize::MAX
    }
}

} // verus!
