//! The identifiers of the children of an internal node, in a `SmallVec`.
use vstd::prelude::*;
use smallvec::SmallVec;

verus! {

/// The identifiers of the children of an internal node, from first to
/// last, in a vector that holds them in place as long as they are few.
#[verifier::external_body]
pub struct ChildIds {
    ids: SmallVec<[usize; 9]>,
}

/// The identifiers that the vector holds, from first to last.
pub uninterp spec fn child_ids(children: ChildIds) -> Seq<usize>;

impl ChildIds {
    /// An empty vector.
    ///
    /// This is `SmallVec::new`: the vector that it makes holds nothing.
    #[verifier::external_body]
    pub(crate) fn new() -> (r: ChildIds)
        ensures
            child_ids(r) == Seq::<usize>::empty(),
    {
        ChildIds { ids: SmallVec::new() }
    }

    /// The number of identifiers.
    ///
    /// This is `SmallVec::len`: the number of elements that the vector
    /// holds.
    #[verifier::external_body]
    pub(crate) fn len(&self) -> (r: usize)
        ensures
            r == child_ids(*self).len(),
    {
        self.ids.len()
    }

    /// The identifier at the given index.
    ///
    /// This is the indexing of a `SmallVec`, which is that of the slice of
    /// its elements and gives the element at an index below their number.
    #[verifier::external_body]
    pub(crate) fn get(&self, index: usize) -> (r: usize)
        requires
            index < child_ids(*self).len(),
        ensures
            r == child_ids(*self)[index as int],
    {
        self.ids[index]
    }

    /// Puts the identifier at the given index, in the place of the one
    /// that is there.
    ///
    /// This is an assignment through the mutable indexing of a `SmallVec`,
    /// which is that of the slice of its elements: the element at an index
    /// below their number is the value, and the others stay.
    #[verifier::external_body]
    pub(crate) fn set(&mut self, index: usize, id: usize)
        requires
            index < child_ids(*old(self)).len(),
        ensures
            child_ids(*final(self)) == child_ids(*old(self)).update(index as int, id),
    {
        self.ids[index] = id
    }

    /// Appends the identifier.
    ///
    /// This is `SmallVec::push`: the value stands after the elements that
    /// the vector held, which stay.
    #[verifier::external_body]
    pub(crate) fn push(&mut self, id: usize)
        ensures
            child_ids(*final(self)) == child_ids(*old(self)).push(id),
    {
        self.ids.push(id)
    }

    /// Inserts the identifier at the given index.
    ///
    /// This is `SmallVec::insert`: for an index that is at most the number
    /// of elements, the value stands at the index and the elements from
    /// there on have moved one place to the right.
    #[verifier::external_body]
    pub(crate) fn insert(&mut self, index: usize, id: usize)
        requires
            index <= child_ids(*old(self)).len(),
        ensures
            child_ids(*final(self)) == child_ids(*old(self)).insert(index as int, id),
    {
        self.ids.insert(index, id)
    }

    /// Removes the identifier at the given index and returns it.
    ///
    /// This is `SmallVec::remove`: for an index below the number of
    /// elements, it returns the element at the index, and the elements
    /// after it have moved one place to the left.
    #[verifier::external_body]
    pub(crate) fn remove(&mut self, index: usize) -> (r: usize)
        requires
            index < child_ids(*old(self)).len(),
        ensures
            r == child_ids(*old(self))[index as int],
            child_ids(*final(self)) == child_ids(*old(self)).remove(index as int),
    {
        self.ids.remove(index)
    }

    /// Moves the identifiers of `other` to the end of this vector.
    ///
    /// This is `SmallVec::append`: the elements of the other vector stand
    /// after those of this one, in their order, and the other vector is
    /// left empty.
    #[verifier::external_body]
    pub(crate) fn append(&mut self, other: &mut ChildIds)
        ensures
            child_ids(*final(self)) == child_ids(*old(self)) + child_ids(*old(other)),
            child_ids(*final(other)) == Seq::<usize>::empty(),
    {
        self.ids.append(&mut other.ids)
    }
}

} // verus!
