//! Access to the items of a node, and what it is for them to be sorted.
use vstd::prelude::*;
use super::Offset;
use crate::btree::KeyOrd;

verus! {

/// Access to the items of a node by their offset.
pub trait ItemAccess<T> {
    /// The items of the node, from left to right.
    spec fn item_seq(&self) -> Seq<T>;

    /// Number of items in the node.
    fn item_count(&self) -> (n: usize)
        ensures
            n == self.item_seq().len(),
    ;

    /// The item at the given offset, if there is one.
    fn borrow_item(&self, offset: Offset) -> (r: Option<&T>)
        ensures
            r == (if 0 <= offset.as_int() < self.item_seq().len() {
                Some(&self.item_seq()[offset.as_int()])
            } else {
                None
            }),
    ;
}

/// The item `was` stands at the position `i` of `before`, and `after` is
/// `before` with `item` at that position.
pub open spec fn changed_at<T>(before: Seq<T>, after: Seq<T>, i: int, was: T, item: T) -> bool {
    &&& 0 <= i < before.len()
    &&& before[i] == was
    &&& after == before.update(i, item)
}

/// `after` is `before` with `item` in the place of the item `was`.
pub open spec fn changed_one<T>(before: Seq<T>, after: Seq<T>, was: T, item: T) -> bool {
    exists|i: int| #[trigger] changed_at(before, after, i, was, item)
}

/// The ranks of the items never decrease from left to right.
pub open spec fn ranks_sorted<T: KeyOrd>(items: Seq<T>) -> bool {
    forall|i: int, j: int|
        0 <= i < j < items.len() ==> (#[trigger] items[i]).key_rank() <= (
        #[trigger] items[j]).key_rank()
}

/// The ranks of the items grow from left to right.
pub open spec fn ranks_increasing<T: KeyOrd>(items: Seq<T>) -> bool {
    forall|i: int, j: int|
        0 <= i < j < items.len() ==> (#[trigger] items[i]).key_rank() < (
        #[trigger] items[j]).key_rank()
}

/// Every item has a rank greater than `lo` and less than `hi`, where these
/// are given.
pub open spec fn ranks_within<T: KeyOrd>(items: Seq<T>, lo: Option<int>, hi: Option<int>) -> bool {
    forall|i: int|
        0 <= i < items.len() ==> rank_within((#[trigger] items[i]).key_rank(), lo, hi)
}

/// `rank` is greater than `lo` and less than `hi`, where these are given.
pub open spec fn rank_within(rank: int, lo: Option<int>, hi: Option<int>) -> bool {
    &&& lo matches Some(l) ==> l < rank
    &&& hi matches Some(h) ==> rank < h
}

} // verus!
