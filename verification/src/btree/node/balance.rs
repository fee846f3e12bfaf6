//! The balance of a node.
use vstd::prelude::*;

verus! {

/// Node balance.
#[derive(Clone, Copy, PartialEq, Eq, Structural, Debug)]
pub enum Balance {
    /// The node is balanced.
    Balanced,
    /// The node is overflowing.
    Overflow,
    /// The node is underflowing.
    ///
    /// The boolean is `true` if the node is empty.
    Underflow(bool),
}

} // verus!
