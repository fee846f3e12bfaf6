//! Operations on all the items of a tree at once.
use vstd::prelude::*;
use super::KeyOrd;
use crate::slab::{Arena, Slab, Storage};
use crate::btree::node::Reference;

verus! {

/// An owning iterator over the items of a tree, from both ends in the
/// order of their keys.
pub struct IntoIter<T, A = Slab<Reference<T>>> {
    /// The tree, with the items that are left.
    pub btree: Storage<T, A>,
}

impl<T: KeyOrd, A: Arena<Reference<T>>> IntoIter<T, A> {
    /// The items that are left, by their rank.
    pub open spec fn view(&self) -> Map<int, T> {
        self.btree@
    }

    /// All is well with the tree of the items that are left.
    pub open spec fn wf(&self) -> bool {
        self.btree.wf()
    }

    /// An iterator over all the items of the tree.
    pub fn new(btree: Storage<T, A>) -> (r: Self)
        requires
            btree.wf(),
        ensures
            r.wf(),
            r@ == btree@,
    {
        IntoIter { btree }
    }

    /// The number of items that are left, as both bounds of their number.
    pub fn size_hint(&self) -> (r: (usize, Option<usize>))
        requires
            self.wf(),
        ensures
            r == (self@.dom().len() as usize, Some(self@.dom().len() as usize)),
    {
        let len = self.btree.len();
        (len, Some(len))
    }

    /// The first of the items that are left, if any.
    pub fn next(&mut self) -> (r: Option<T>)
        requires
            old(self).wf(),
        ensures
            final(self).wf(),
            match r {
                Some(item) => {
                    &&& old(self)@.dom().contains(item.key_rank())
                    &&& old(self)@[item.key_rank()] == item
                    &&& forall|q: int| old(self)@.dom().contains(q) ==> item.key_rank() <= q
                    &&& final(self)@ == old(self)@.remove(item.key_rank())
                },
                None => old(self)@.dom().len() == 0 && final(self)@ == old(self)@,
            },
    {
        proof {
            self.btree.lemma_empty();
        }
        let r = self.btree.pop_first();
        proof {
            if r is Some {
                let k = r.unwrap().key_rank();
                assert forall|q: int| old(self)@.dom().contains(q) implies k <= q by {
                    if q < k {
                        assert(old(self).btree.below(Some(k), q));
                    }
                }
            }
        }
        r
    }

    /// The last of the items that are left, if any.
    pub fn next_back(&mut self) -> (r: Option<T>)
        requires
            old(self).wf(),
        ensures
            final(self).wf(),
            match r {
                Some(item) => {
                    &&& old(self)@.dom().contains(item.key_rank())
                    &&& old(self)@[item.key_rank()] == item
                    &&& forall|q: int| old(self)@.dom().contains(q) ==> q <= item.key_rank()
                    &&& final(self)@ == old(self)@.remove(item.key_rank())
                },
                None => old(self)@.dom().len() == 0 && final(self)@ == old(self)@,
            },
    {
        proof {
            self.btree.lemma_empty();
        }
        let r = self.btree.pop_last();
        proof {
            if r is Some {
                let k = r.unwrap().key_rank();
                assert forall|q: int| old(self)@.dom().contains(q) implies q <= k by {
                    if q > k {
                        assert(old(self).btree.above(Some(k), q));
                    }
                }
            }
        }
        r
    }
}

impl<T: KeyOrd, A: Arena<Reference<T>>> Storage<T, A> {
    /// An owning iterator over the items of the tree.
    pub fn into_iter(self) -> (r: IntoIter<T, A>)
        requires
            self.wf(),
        ensures
            r.wf(),
            r@ == self@,
    {
        IntoIter::new(self)
    }

    /// Moves all elements from `other` into `Self`, leaving `other` empty.
    /// An item of `other` takes the place of an item with the same key.
    pub fn append(&mut self, other: &mut Self)
        requires
            old(self).wf(),
            old(other).wf(),
            old(self).len + old(other).len < usize::MAX,
        ensures
            final(self).wf(),
            final(other).wf(),
            final(other)@ == Map::<int, T>::empty(),
            final(self)@ == old(self)@.union_prefer_right(old(other)@),
    {
        // Do we have to append anything at all?
        if other.is_empty() {
            proof {
                assert(old(other)@.dom() =~= Set::empty());
                assert(self@.union_prefer_right(old(other)@) =~= self@);
                assert(other@ =~= Map::<int, T>::empty());
            }
            return ;
        }
        // We can just swap `self` and `other` if `self` is empty.

        if self.is_empty() {
            proof {
                assert(old(self)@.dom() =~= Set::empty());
                assert(old(self)@.union_prefer_right(old(other)@) =~= old(other)@);
                assert(old(self)@ =~= Map::<int, T>::empty());
            }
            core::mem::swap(self, other);
            return ;
        }
        let mut taken = Storage::new();
        core::mem::swap(other, &mut taken);
        let mut it = taken.into_iter();
        loop
            invariant
                self.wf(),
                it.wf(),
                other.wf(),
                other@ == Map::<int, T>::empty(),
                it@.submap_of(old(other)@),
                self.len + it.btree.len <= old(self).len + old(other).len,
                old(self).len + old(other).len < usize::MAX,
                self@ == old(self)@.union_prefer_right(old(other)@.remove_keys(it@.dom())),
            decreases it@.dom().len(),
        {
            match it.next() {
                Some(item) => {
                    self.insert(item);
                    proof {
                        assert(self@ =~= old(self)@.union_prefer_right(
                            old(other)@.remove_keys(it@.dom()),
                        ));
                    }
                },
                None => {
                    proof {
                        assert(it@.dom() =~= Set::empty());
                        assert(old(other)@.remove_keys(it@.dom()) =~= old(other)@);
                    }
                    return ;
                },
            }
        }
    }
}

} // verus!
