//! The iterators of a map that hand out the values to be changed in
//! place.
use vstd::prelude::*;
use super::{Binding, TreeMap};
use crate::btree::inplace::{IterMut as TreeIterMut, RangeMut as TreeRangeMut};
use crate::btree::iter::{valid_bounds, Bound, Range as TreeRange};
use crate::btree::{KeyOrd, KeyPartialOrd};
use crate::slab::{Arena, Slab};
use crate::btree::node::Reference;

verus! {

/// Iterator over the bindings of a map, from both ends in the order of
/// the keys, which hands out each value to be changed in place.
pub struct IterMut<'a, K, V, A = Slab<Reference<Binding<K, V>>>> {
    pub inner: TreeIterMut<'a, Binding<K, V>, A>,
}

impl<'a, K: KeyOrd, V, A: Arena<Reference<Binding<K, V>>>> IterMut<'a, K, V, A> {
    /// The ranks of the keys of the bindings that are left.
    pub open spec fn remaining(&self) -> Set<int> {
        self.inner.remaining()
    }

    /// The iterator stands at the first of the bindings that are left.
    pub open spec fn wf(&self) -> bool {
        self.inner.wf()
    }

    /// The bindings of the map over which the iterator goes.
    pub open spec fn bindings(&self) -> Map<int, Binding<K, V>> {
        self.inner.btree@
    }

    /// An iterator over all the bindings of the map.
    pub fn new(map: &'a mut TreeMap<K, V, A>) -> (r: Self)
        requires
            old(map).wf(),
        ensures
            r.wf(),
            r.bindings() == old(map)@,
            r.remaining() == old(map)@.dom(),
            *final(r.inner.btree) == final(map).btree,
    {
        IterMut { inner: map.btree.iter_mut() }
    }

    /// The number of bindings that are left, as both bounds of their
    /// number.
    pub fn size_hint(&self) -> (r: (usize, Option<usize>))
        ensures
            r == (self.inner.len, Some(self.inner.len)),
    {
        self.inner.size_hint()
    }

    /// The first of the bindings that are left, if any, with its value to
    /// be changed in place.
    ///
    /// The map then holds under the key what the reference comes to hold.
    pub fn next(&mut self) -> (r: Option<(&K, &mut V)>)
        requires
            old(self).wf(),
        ensures
            final(self).wf(),
            *final(final(self).inner.btree) == *final(old(self).inner.btree),
            match r {
                Some((key, value)) => {
                    &&& old(self).remaining().contains(key.key_rank())
                    &&& old(self).bindings()[key.key_rank()] == (Binding {
                        key: *key,
                        value: *value,
                    })
                    &&& forall|q: int| old(self).remaining().contains(q) ==> key.key_rank() <= q
                    &&& final(self).remaining() == old(self).remaining().remove(key.key_rank())
                    &&& final(self).bindings() == old(self).bindings().insert(
                        key.key_rank(),
                        Binding { key: *key, value: *final(value) },
                    )
                },
                None => {
                    &&& old(self).remaining().len() == 0
                    &&& final(self).remaining() == old(self).remaining()
                    &&& final(self).bindings() == old(self).bindings()
                },
            },
    {
        match self.inner.next() {
            Some(item) => Some(item.split_mut()),
            None => None,
        }
    }

    /// The last of the bindings that are left, if any, with its value to
    /// be changed in place.
    ///
    /// The map then holds under the key what the reference comes to hold.
    pub fn next_back(&mut self) -> (r: Option<(&K, &mut V)>)
        requires
            old(self).wf(),
        ensures
            final(self).wf(),
            *final(final(self).inner.btree) == *final(old(self).inner.btree),
            match r {
                Some((key, value)) => {
                    &&& old(self).remaining().contains(key.key_rank())
                    &&& old(self).bindings()[key.key_rank()] == (Binding {
                        key: *key,
                        value: *value,
                    })
                    &&& forall|q: int| old(self).remaining().contains(q) ==> q <= key.key_rank()
                    &&& final(self).remaining() == old(self).remaining().remove(key.key_rank())
                    &&& final(self).bindings() == old(self).bindings().insert(
                        key.key_rank(),
                        Binding { key: *key, value: *final(value) },
                    )
                },
                None => {
                    &&& old(self).remaining().len() == 0
                    &&& final(self).remaining() == old(self).remaining()
                    &&& final(self).bindings() == old(self).bindings()
                },
            },
    {
        match self.inner.next_back() {
            Some(item) => Some(item.split_mut()),
            None => None,
        }
    }
}

/// Iterator over the values of a map, in the order of their keys, which
/// hands out each value to be changed in place.
pub struct ValuesMut<'a, K, V, A = Slab<Reference<Binding<K, V>>>> {
    pub inner: TreeIterMut<'a, Binding<K, V>, A>,
}

impl<'a, K: KeyOrd, V, A: Arena<Reference<Binding<K, V>>>> ValuesMut<'a, K, V, A> {
    /// The ranks of the keys of the values that are left.
    pub open spec fn remaining(&self) -> Set<int> {
        self.inner.remaining()
    }

    /// The iterator stands at the first of the values that are left.
    pub open spec fn wf(&self) -> bool {
        self.inner.wf()
    }

    /// The bindings of the map over which the iterator goes.
    pub open spec fn bindings(&self) -> Map<int, Binding<K, V>> {
        self.inner.btree@
    }

    /// The least of the ranks that are left.
    pub open spec fn first(&self) -> int {
        choose|k: int|
            self.remaining().contains(k) && forall|q: int| self.remaining().contains(q) ==> k <= q
    }

    /// An iterator over all the values of the map.
    pub fn new(map: &'a mut TreeMap<K, V, A>) -> (r: Self)
        requires
            old(map).wf(),
        ensures
            r.wf(),
            r.bindings() == old(map)@,
            r.remaining() == old(map)@.dom(),
            *final(r.inner.btree) == final(map).btree,
    {
        ValuesMut { inner: map.btree.iter_mut() }
    }

    /// The number of values that are left, as both bounds of their number.
    pub fn size_hint(&self) -> (r: (usize, Option<usize>))
        ensures
            r == (self.inner.len, Some(self.inner.len)),
    {
        self.inner.size_hint()
    }

    /// The value of the first of the bindings that are left, if any, to
    /// be changed in place.
    ///
    /// The map then holds under the key what the reference comes to hold.
    pub fn next(&mut self) -> (r: Option<&mut V>)
        requires
            old(self).wf(),
        ensures
            final(self).wf(),
            *final(final(self).inner.btree) == *final(old(self).inner.btree),
            match r {
                Some(value) => {
                    &&& old(self).remaining().contains(old(self).first())
                    &&& forall|q: int|
                        old(self).remaining().contains(q) ==> old(self).first() <= q
                    &&& old(self).bindings()[old(self).first()].value == *value
                    &&& final(self).remaining() == old(self).remaining().remove(old(self).first())
                    &&& final(self).bindings() == old(self).bindings().insert(
                        old(self).first(),
                        Binding {
                            key: old(self).bindings()[old(self).first()].key,
                            value: *final(value),
                        },
                    )
                },
                None => {
                    &&& old(self).remaining().len() == 0
                    &&& final(self).remaining() == old(self).remaining()
                    &&& final(self).bindings() == old(self).bindings()
                },
            },
    {
        match self.inner.next() {
            Some(item) => Some(item.value_mut()),
            None => None,
        }
    }
}

/// Iterator over the bindings of a map with keys in a range, in the order
/// of the keys, which hands out each value to be changed in place.
pub struct RangeMut<'a, K, V, A = Slab<Reference<Binding<K, V>>>> {
    pub inner: TreeRangeMut<'a, Binding<K, V>, A>,
}

impl<'a, K: KeyOrd, V, A: Arena<Reference<Binding<K, V>>>> RangeMut<'a, K, V, A> {
    /// The ranks of the keys of the bindings that are left.
    pub open spec fn remaining(&self) -> Set<int> {
        self.inner.remaining()
    }

    /// The iterator stands at the first of the bindings that are left.
    pub open spec fn wf(&self) -> bool {
        self.inner.wf()
    }

    /// The bindings of the map over which the iterator goes.
    pub open spec fn bindings(&self) -> Map<int, Binding<K, V>> {
        self.inner.btree@
    }

    /// An iterator over the bindings of the map with a key in the range
    /// that goes from `start` to `end`, which does not start after its
    /// end.
    pub fn new<Q>(map: &'a mut TreeMap<K, V, A>, start: Bound<&Q>, end: Bound<&Q>) -> (r: Self) where
        Binding<K, V>: KeyPartialOrd<Q>,

        requires
            old(map).wf(),
            valid_bounds::<Binding<K, V>, Q>(start, end),
        ensures
            r.wf(),
            r.bindings() == old(map)@,
            *final(r.inner.btree) == final(map).btree,
            forall|q: int|
                r.remaining().contains(q) <==> old(map)@.dom().contains(q) && TreeRange::<
                    Binding<K, V>,
                >::in_range(q, start, end),
    {
        RangeMut { inner: map.btree.range_mut(start, end) }
    }

    /// The first of the bindings that are left, if any, with its value to
    /// be changed in place.
    ///
    /// The map then holds under the key what the reference comes to hold.
    pub fn next(&mut self) -> (r: Option<(&K, &mut V)>)
        requires
            old(self).wf(),
        ensures
            final(self).wf(),
            *final(final(self).inner.btree) == *final(old(self).inner.btree),
            match r {
                Some((key, value)) => {
                    &&& old(self).remaining().contains(key.key_rank())
                    &&& old(self).bindings()[key.key_rank()] == (Binding {
                        key: *key,
                        value: *value,
                    })
                    &&& forall|q: int| old(self).remaining().contains(q) ==> key.key_rank() <= q
                    &&& final(self).remaining() == old(self).remaining().remove(key.key_rank())
                    &&& final(self).bindings() == old(self).bindings().insert(
                        key.key_rank(),
                        Binding { key: *key, value: *final(value) },
                    )
                },
                None => {
                    &&& old(self).remaining() == Set::<int>::empty()
                    &&& final(self).remaining() == old(self).remaining()
                    &&& final(self).bindings() == old(self).bindings()
                },
            },
    {
        match self.inner.next() {
            Some(item) => Some(item.split_mut()),
            None => None,
        }
    }

    /// The last of the bindings that are left, if any, with its value to
    /// be changed in place.
    ///
    /// The map then holds under the key what the reference comes to hold.
    pub fn next_back(&mut self) -> (r: Option<(&K, &mut V)>)
        requires
            old(self).wf(),
        ensures
            final(self).wf(),
            *final(final(self).inner.btree) == *final(old(self).inner.btree),
            match r {
                Some((key, value)) => {
                    &&& old(self).remaining().contains(key.key_rank())
                    &&& old(self).bindings()[key.key_rank()] == (Binding {
                        key: *key,
                        value: *value,
                    })
                    &&& forall|q: int| old(self).remaining().contains(q) ==> q <= key.key_rank()
                    &&& final(self).remaining() == old(self).remaining().remove(key.key_rank())
                    &&& final(self).bindings() == old(self).bindings().insert(
                        key.key_rank(),
                        Binding { key: *key, value: *final(value) },
                    )
                },
                None => {
                    &&& old(self).remaining() == Set::<int>::empty()
                    &&& final(self).remaining() == old(self).remaining()
                    &&& final(self).bindings() == old(self).bindings()
                },
            },
    {
        match self.inner.next_back() {
            Some(item) => Some(item.split_mut()),
            None => None,
        }
    }
}

impl<K: KeyOrd, V, A: Arena<Reference<Binding<K, V>>>> TreeMap<K, V, A> {
    /// Gets a mutable iterator over the entries of the map, sorted by key.
    pub fn iter_mut(&mut self) -> (r: IterMut<'_, K, V, A>)
        requires
            old(self).wf(),
        ensures
            r.wf(),
            r.bindings() == old(self)@,
            r.remaining() == old(self)@.dom(),
            *final(r.inner.btree) == final(self).btree,
    {
        IterMut::new(self)
    }

    /// Gets a mutable iterator over the values of the map, in order by key.
    pub fn values_mut(&mut self) -> (r: ValuesMut<'_, K, V, A>)
        requires
            old(self).wf(),
        ensures
            r.wf(),
            r.bindings() == old(self)@,
            r.remaining() == old(self)@.dom(),
            *final(r.inner.btree) == final(self).btree,
    {
        ValuesMut::new(self)
    }

    /// Constructs a mutable double-ended iterator over a sub-range of
    /// elements in the map: those with keys from `start` to `end`.
    pub fn range_mut<Q>(&mut self, start: Bound<&Q>, end: Bound<&Q>) -> (r: RangeMut<'_, K, V, A>) where Binding<K, V>: KeyPartialOrd<Q>
        requires
            old(self).wf(),
            valid_bounds::<Binding<K, V>, Q>(start, end),
        ensures
            r.wf(),
            r.bindings() == old(self)@,
            *final(r.inner.btree) == final(self).btree,
            forall|q: int|
                r.remaining().contains(q) <==> old(self)@.dom().contains(q) && TreeRange::<
                    Binding<K, V>,
                >::in_range(q, start, end),
    {
        RangeMut::new(self, start, end)
    }
}

} // verus!
