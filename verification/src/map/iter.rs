//! The iterators of a map.
use vstd::prelude::*;
use super::{Binding, TreeMap};
use crate::btree::bulk::IntoIter as TreeIntoIter;
use crate::btree::iter::{valid_bounds, Bound, Iter as TreeIter, Range as TreeRange};
use crate::btree::{KeyOrd, KeyPartialOrd};
use crate::slab::{Arena, Slab};
use crate::btree::node::Reference;

verus! {

/// Iterator over the bindings of a map, from both ends in the order of
/// the keys.
pub struct Iter<'a, K, V, A = Slab<Reference<Binding<K, V>>>> {
    pub inner: TreeIter<'a, Binding<K, V>, A>,
}

impl<'a, K: KeyOrd, V, A: Arena<Reference<Binding<K, V>>>> Iter<'a, K, V, A> {
    /// The ranks of the keys of the bindings that are left.
    pub open spec fn remaining(&self) -> Set<int> {
        self.inner.remaining()
    }

    /// The iterator stands at the first of the bindings that are left.
    pub open spec fn wf(&self) -> bool {
        self.inner.wf()
    }

    /// The bindings of the map over which the iterator goes.
    pub open spec fn bindings(&self) -> Map<int, Binding<K, V>> {
        self.inner.storage@
    }

    /// An iterator over all the bindings of the map.
    pub fn new(map: &'a TreeMap<K, V, A>) -> (r: Self)
        requires
            map.wf(),
        ensures
            r.wf(),
            r.bindings() == map@,
            r.remaining() == map@.dom(),
    {
        Iter { inner: map.btree.iter() }
    }

    /// The number of bindings that are left, as both bounds of their
    /// number.
    pub fn size_hint(&self) -> (r: (usize, Option<usize>))
        ensures
            r == (self.inner.len, Some(self.inner.len)),
    {
        self.inner.size_hint()
    }

    /// The first of the bindings that are left, if any.
    pub fn next(&mut self) -> (r: Option<(&'a K, &'a V)>)
        requires
            old(self).wf(),
        ensures
            final(self).wf(),
            final(self).bindings() == old(self).bindings(),
            match r {
                Some((key, value)) => {
                    &&& old(self).remaining().contains(key.key_rank())
                    &&& old(self).bindings()[key.key_rank()] == (Binding {
                        key: *key,
                        value: *value,
                    })
                    &&& forall|q: int| old(self).remaining().contains(q) ==> key.key_rank() <= q
                    &&& final(self).remaining() == old(self).remaining().remove(key.key_rank())
                },
                None => old(self).remaining().len() == 0 && final(self).remaining() == old(
                    self,
                ).remaining(),
            },
    {
        match self.inner.next() {
            Some(item) => Some(item.as_pair()),
            None => None,
        }
    }

    /// The last of the bindings that are left, if any.
    pub fn next_back(&mut self) -> (r: Option<(&'a K, &'a V)>)
        requires
            old(self).wf(),
        ensures
            final(self).wf(),
            final(self).bindings() == old(self).bindings(),
            match r {
                Some((key, value)) => {
                    &&& old(self).remaining().contains(key.key_rank())
                    &&& old(self).bindings()[key.key_rank()] == (Binding {
                        key: *key,
                        value: *value,
                    })
                    &&& forall|q: int| old(self).remaining().contains(q) ==> q <= key.key_rank()
                    &&& final(self).remaining() == old(self).remaining().remove(key.key_rank())
                },
                None => old(self).remaining().len() == 0 && final(self).remaining() == old(
                    self,
                ).remaining(),
            },
    {
        match self.inner.next_back() {
            Some(item) => Some(item.as_pair()),
            None => None,
        }
    }
}

/// Iterator over the keys of a map, in their order.
pub struct Keys<'a, K, V, A = Slab<Reference<Binding<K, V>>>> {
    pub inner: TreeIter<'a, Binding<K, V>, A>,
}

impl<'a, K: KeyOrd, V, A: Arena<Reference<Binding<K, V>>>> Keys<'a, K, V, A> {
    /// The ranks of the keys that are left.
    pub open spec fn remaining(&self) -> Set<int> {
        self.inner.remaining()
    }

    /// The iterator stands at the first of the keys that are left.
    pub open spec fn wf(&self) -> bool {
        self.inner.wf()
    }

    /// The bindings of the map over which the iterator goes.
    pub open spec fn bindings(&self) -> Map<int, Binding<K, V>> {
        self.inner.storage@
    }

    /// An iterator over all the keys of the map.
    pub fn new(map: &'a TreeMap<K, V, A>) -> (r: Self)
        requires
            map.wf(),
        ensures
            r.wf(),
            r.bindings() == map@,
            r.remaining() == map@.dom(),
    {
        Keys { inner: map.btree.iter() }
    }

    /// The number of keys that are left, as both bounds of their number.
    pub fn size_hint(&self) -> (r: (usize, Option<usize>))
        ensures
            r == (self.inner.len, Some(self.inner.len)),
    {
        self.inner.size_hint()
    }

    /// The first of the keys that are left, if any.
    pub fn next(&mut self) -> (r: Option<&'a K>)
        requires
            old(self).wf(),
        ensures
            final(self).wf(),
            final(self).bindings() == old(self).bindings(),
            match r {
                Some(key) => {
                    &&& old(self).remaining().contains(key.key_rank())
                    &&& old(self).bindings()[key.key_rank()].key == *key
                    &&& forall|q: int| old(self).remaining().contains(q) ==> key.key_rank() <= q
                    &&& final(self).remaining() == old(self).remaining().remove(key.key_rank())
                },
                None => old(self).remaining().len() == 0 && final(self).remaining() == old(
                    self,
                ).remaining(),
            },
    {
        match self.inner.next() {
            Some(item) => Some(&item.key),
            None => None,
        }
    }

    /// The last of the keys that are left, if any.
    pub fn next_back(&mut self) -> (r: Option<&'a K>)
        requires
            old(self).wf(),
        ensures
            final(self).wf(),
            final(self).bindings() == old(self).bindings(),
            match r {
                Some(key) => {
                    &&& old(self).remaining().contains(key.key_rank())
                    &&& old(self).bindings()[key.key_rank()].key == *key
                    &&& forall|q: int| old(self).remaining().contains(q) ==> q <= key.key_rank()
                    &&& final(self).remaining() == old(self).remaining().remove(key.key_rank())
                },
                None => old(self).remaining().len() == 0 && final(self).remaining() == old(
                    self,
                ).remaining(),
            },
    {
        match self.inner.next_back() {
            Some(item) => Some(&item.key),
            None => None,
        }
    }
}

/// Iterator over the values of a map, in the order of their keys.
pub struct Values<'a, K, V, A = Slab<Reference<Binding<K, V>>>> {
    pub inner: TreeIter<'a, Binding<K, V>, A>,
}

impl<'a, K: KeyOrd, V, A: Arena<Reference<Binding<K, V>>>> Values<'a, K, V, A> {
    /// The ranks of the keys of the values that are left.
    pub open spec fn remaining(&self) -> Set<int> {
        self.inner.remaining()
    }

    /// The iterator stands at the first of the values that are left.
    pub open spec fn wf(&self) -> bool {
        self.inner.wf()
    }

    /// The bindings of the map over which the iterator goes.
    pub open spec fn bindings(&self) -> Map<int, Binding<K, V>> {
        self.inner.storage@
    }

    /// An iterator over all the values of the map.
    pub fn new(map: &'a TreeMap<K, V, A>) -> (r: Self)
        requires
            map.wf(),
        ensures
            r.wf(),
            r.bindings() == map@,
            r.remaining() == map@.dom(),
    {
        Values { inner: map.btree.iter() }
    }

    /// The number of values that are left, as both bounds of their
    /// number.
    pub fn size_hint(&self) -> (r: (usize, Option<usize>))
        ensures
            r == (self.inner.len, Some(self.inner.len)),
    {
        self.inner.size_hint()
    }

    /// The value of the first of the keys that are left, if any.
    pub fn next(&mut self) -> (r: Option<&'a V>)
        requires
            old(self).wf(),
        ensures
            final(self).wf(),
            final(self).bindings() == old(self).bindings(),
            match r {
                Some(value) => exists|k: int|
                    {
                        &&& #[trigger] old(self).remaining().contains(k)
                        &&& old(self).bindings()[k].value == *value
                        &&& forall|q: int| old(self).remaining().contains(q) ==> k <= q
                        &&& final(self).remaining() == old(self).remaining().remove(k)
                    },
                None => old(self).remaining().len() == 0 && final(self).remaining() == old(
                    self,
                ).remaining(),
            },
    {
        match self.inner.next() {
            Some(item) => {
                proof {
                    assert(old(self).remaining().contains(item.key_rank()));
                }
                Some(&item.value)
            },
            None => None,
        }
    }

    /// The value of the last of the keys that are left, if any.
    pub fn next_back(&mut self) -> (r: Option<&'a V>)
        requires
            old(self).wf(),
        ensures
            final(self).wf(),
            final(self).bindings() == old(self).bindings(),
            match r {
                Some(value) => exists|k: int|
                    {
                        &&& #[trigger] old(self).remaining().contains(k)
                        &&& old(self).bindings()[k].value == *value
                        &&& forall|q: int| old(self).remaining().contains(q) ==> q <= k
                        &&& final(self).remaining() == old(self).remaining().remove(k)
                    },
                None => old(self).remaining().len() == 0 && final(self).remaining() == old(
                    self,
                ).remaining(),
            },
    {
        match self.inner.next_back() {
            Some(item) => {
                proof {
                    assert(old(self).remaining().contains(item.key_rank()));
                }
                Some(&item.value)
            },
            None => None,
        }
    }
}

/// An owning iterator over the bindings of a map, from both ends in the
/// order of the keys.
pub struct IntoIter<K, V, A = Slab<Reference<Binding<K, V>>>> {
    pub inner: TreeIntoIter<Binding<K, V>, A>,
}

impl<K: KeyOrd, V, A: Arena<Reference<Binding<K, V>>>> IntoIter<K, V, A> {
    /// The bindings that are left, by the rank of their key.
    pub open spec fn view(&self) -> Map<int, Binding<K, V>> {
        self.inner@
    }

    /// All is well with the tree of the bindings that are left.
    pub open spec fn wf(&self) -> bool {
        self.inner.wf()
    }

    /// An iterator over all the bindings of the map.
    pub fn new(map: TreeMap<K, V, A>) -> (r: Self)
        requires
            map.wf(),
        ensures
            r.wf(),
            r@ == map@,
    {
        IntoIter { inner: map.btree.into_iter() }
    }

    /// The number of bindings that are left, as both bounds of their
    /// number.
    pub fn size_hint(&self) -> (r: (usize, Option<usize>))
        requires
            self.wf(),
        ensures
            r == (self@.dom().len() as usize, Some(self@.dom().len() as usize)),
    {
        self.inner.size_hint()
    }

    /// The first of the bindings that are left, if any.
    pub fn next(&mut self) -> (r: Option<(K, V)>)
        requires
            old(self).wf(),
        ensures
            final(self).wf(),
            match r {
                Some((key, value)) => {
                    &&& old(self)@.dom().contains(key.key_rank())
                    &&& old(self)@[key.key_rank()] == (Binding { key, value })
                    &&& forall|q: int| old(self)@.dom().contains(q) ==> key.key_rank() <= q
                    &&& final(self)@ == old(self)@.remove(key.key_rank())
                },
                None => old(self)@.dom().len() == 0 && final(self)@ == old(self)@,
            },
    {
        match self.inner.next() {
            Some(item) => Some(item.into_pair()),
            None => None,
        }
    }

    /// The last of the bindings that are left, if any.
    pub fn next_back(&mut self) -> (r: Option<(K, V)>)
        requires
            old(self).wf(),
        ensures
            final(self).wf(),
            match r {
                Some((key, value)) => {
                    &&& old(self)@.dom().contains(key.key_rank())
                    &&& old(self)@[key.key_rank()] == (Binding { key, value })
                    &&& forall|q: int| old(self)@.dom().contains(q) ==> q <= key.key_rank()
                    &&& final(self)@ == old(self)@.remove(key.key_rank())
                },
                None => old(self)@.dom().len() == 0 && final(self)@ == old(self)@,
            },
    {
        match self.inner.next_back() {
            Some(item) => Some(item.into_pair()),
            None => None,
        }
    }
}

/// An owning iterator over the keys of a map, in their order.
pub struct IntoKeys<K, V, A = Slab<Reference<Binding<K, V>>>> {
    pub inner: TreeIntoIter<Binding<K, V>, A>,
}

impl<K: KeyOrd, V, A: Arena<Reference<Binding<K, V>>>> IntoKeys<K, V, A> {
    /// The bindings that are left, by the rank of their key.
    pub open spec fn view(&self) -> Map<int, Binding<K, V>> {
        self.inner@
    }

    /// All is well with the tree of the bindings that are left.
    pub open spec fn wf(&self) -> bool {
        self.inner.wf()
    }

    /// An iterator over all the keys of the map.
    pub fn new(map: TreeMap<K, V, A>) -> (r: Self)
        requires
            map.wf(),
        ensures
            r.wf(),
            r@ == map@,
    {
        IntoKeys { inner: map.btree.into_iter() }
    }

    /// The first of the keys that are left, if any.
    pub fn next(&mut self) -> (r: Option<K>)
        requires
            old(self).wf(),
        ensures
            final(self).wf(),
            match r {
                Some(key) => {
                    &&& old(self)@.dom().contains(key.key_rank())
                    &&& old(self)@[key.key_rank()].key == key
                    &&& forall|q: int| old(self)@.dom().contains(q) ==> key.key_rank() <= q
                    &&& final(self)@ == old(self)@.remove(key.key_rank())
                },
                None => old(self)@.dom().len() == 0 && final(self)@ == old(self)@,
            },
    {
        match self.inner.next() {
            Some(item) => Some(item.into_pair().0),
            None => None,
        }
    }
}

/// An owning iterator over the values of a map, in the order of their
/// keys.
pub struct IntoValues<K, V, A = Slab<Reference<Binding<K, V>>>> {
    pub inner: TreeIntoIter<Binding<K, V>, A>,
}

impl<K: KeyOrd, V, A: Arena<Reference<Binding<K, V>>>> IntoValues<K, V, A> {
    /// The bindings that are left, by the rank of their key.
    pub open spec fn view(&self) -> Map<int, Binding<K, V>> {
        self.inner@
    }

    /// All is well with the tree of the bindings that are left.
    pub open spec fn wf(&self) -> bool {
        self.inner.wf()
    }

    /// An iterator over all the values of the map.
    pub fn new(map: TreeMap<K, V, A>) -> (r: Self)
        requires
            map.wf(),
        ensures
            r.wf(),
            r@ == map@,
    {
        IntoValues { inner: map.btree.into_iter() }
    }

    /// The value of the first of the keys that are left, if any.
    pub fn next(&mut self) -> (r: Option<V>)
        requires
            old(self).wf(),
        ensures
            final(self).wf(),
            match r {
                Some(value) => exists|k: int|
                    {
                        &&& #[trigger] old(self)@.dom().contains(k)
                        &&& old(self)@[k].value == value
                        &&& forall|q: int| old(self)@.dom().contains(q) ==> k <= q
                        &&& final(self)@ == old(self)@.remove(k)
                    },
                None => old(self)@.dom().len() == 0 && final(self)@ == old(self)@,
            },
    {
        match self.inner.next() {
            Some(item) => {
                proof {
                    assert(old(self)@.dom().contains(item.key_rank()));
                }
                Some(item.into_value())
            },
            None => None,
        }
    }
}

/// Iterator over the bindings of a map with keys in a range, in the order
/// of the keys.
pub struct Range<'a, K, V, A = Slab<Reference<Binding<K, V>>>> {
    pub inner: TreeRange<'a, Binding<K, V>, A>,
}

impl<'a, K: KeyOrd, V, A: Arena<Reference<Binding<K, V>>>> Range<'a, K, V, A> {
    /// The ranks of the keys of the bindings that are left.
    pub open spec fn remaining(&self) -> Set<int> {
        self.inner.remaining()
    }

    /// The iterator stands at the first of the bindings that are left.
    pub open spec fn wf(&self) -> bool {
        self.inner.wf()
    }

    /// The bindings of the map over which the iterator goes.
    pub open spec fn bindings(&self) -> Map<int, Binding<K, V>> {
        self.inner.btree@
    }

    /// An iterator over the bindings of the map with a key in the range
    /// that goes from `start` to `end`, which does not start after its
    /// end.
    pub fn new<Q>(map: &'a TreeMap<K, V, A>, start: Bound<&Q>, end: Bound<&Q>) -> (r: Self) where
        Binding<K, V>: KeyPartialOrd<Q>,

        requires
            map.wf(),
            valid_bounds::<Binding<K, V>, Q>(start, end),
        ensures
            r.wf(),
            r.bindings() == map@,
            forall|q: int|
                r.remaining().contains(q) <==> map@.dom().contains(q) && TreeRange::<
                    Binding<K, V>,
                >::in_range(q, start, end),
    {
        Range { inner: map.btree.range(start, end) }
    }

    /// The first of the bindings that are left, if any.
    pub fn next(&mut self) -> (r: Option<(&'a K, &'a V)>)
        requires
            old(self).wf(),
        ensures
            final(self).wf(),
            final(self).bindings() == old(self).bindings(),
            match r {
                Some((key, value)) => {
                    &&& old(self).remaining().contains(key.key_rank())
                    &&& old(self).bindings()[key.key_rank()] == (Binding {
                        key: *key,
                        value: *value,
                    })
                    &&& forall|q: int| old(self).remaining().contains(q) ==> key.key_rank() <= q
                    &&& final(self).remaining() == old(self).remaining().remove(key.key_rank())
                },
                None => old(self).remaining() == Set::<int>::empty() && final(self).remaining()
                    == old(self).remaining(),
            },
    {
        match self.inner.next() {
            Some(item) => Some(item.as_pair()),
            None => None,
        }
    }

    /// The last of the bindings that are left, if any.
    pub fn next_back(&mut self) -> (r: Option<(&'a K, &'a V)>)
        requires
            old(self).wf(),
        ensures
            final(self).wf(),
            final(self).bindings() == old(self).bindings(),
            match r {
                Some((key, value)) => {
                    &&& old(self).remaining().contains(key.key_rank())
                    &&& old(self).bindings()[key.key_rank()] == (Binding {
                        key: *key,
                        value: *value,
                    })
                    &&& forall|q: int| old(self).remaining().contains(q) ==> q <= key.key_rank()
                    &&& final(self).remaining() == old(self).remaining().remove(key.key_rank())
                },
                None => old(self).remaining() == Set::<int>::empty() && final(self).remaining()
                    == old(self).remaining(),
            },
    {
        match self.inner.next_back() {
            Some(item) => Some(item.as_pair()),
            None => None,
        }
    }
}

impl<K: KeyOrd, V, A: Arena<Reference<Binding<K, V>>>> TreeMap<K, V, A> {
    /// Gets an iterator over the entries of the map, sorted by key.
    pub fn iter(&self) -> (r: Iter<'_, K, V, A>)
        requires
            self.wf(),
        ensures
            r.wf(),
            r.bindings() == self@,
            r.remaining() == self@.dom(),
    {
        Iter::new(self)
    }

    /// Constructs a double-ended iterator over a sub-range of elements in the map:
    /// those with keys from `start` to `end`.
    pub fn range<Q>(&self, start: Bound<&Q>, end: Bound<&Q>) -> (r: Range<'_, K, V, A>) where
        Binding<K, V>: KeyPartialOrd<Q>,

        requires
            self.wf(),
            valid_bounds::<Binding<K, V>, Q>(start, end),
        ensures
            r.wf(),
            r.bindings() == self@,
            forall|q: int|
                r.remaining().contains(q) <==> self@.dom().contains(q) && TreeRange::<
                    Binding<K, V>,
                >::in_range(q, start, end),
    {
        Range::new(self, start, end)
    }

    /// Gets an iterator over the keys of the map, in sorted order.
    pub fn keys(&self) -> (r: Keys<'_, K, V, A>)
        requires
            self.wf(),
        ensures
            r.wf(),
            r.bindings() == self@,
            r.remaining() == self@.dom(),
    {
        Keys::new(self)
    }

    /// Gets an iterator over the values of the map, in order by key.
    pub fn values(&self) -> (r: Values<'_, K, V, A>)
        requires
            self.wf(),
        ensures
            r.wf(),
            r.bindings() == self@,
            r.remaining() == self@.dom(),
    {
        Values::new(self)
    }

    /// Creates a consuming iterator visiting all the bindings, in the
    /// order of the keys.
    pub fn into_iter(self) -> (r: IntoIter<K, V, A>)
        requires
            self.wf(),
        ensures
            r.wf(),
            r@ == self@,
    {
        IntoIter::new(self)
    }

    /// Creates a consuming iterator visiting all the keys, in sorted order.
    pub fn into_keys(self) -> (r: IntoKeys<K, V, A>)
        requires
            self.wf(),
        ensures
            r.wf(),
            r@ == self@,
    {
        IntoKeys::new(self)
    }

    /// Creates a consuming iterator visiting all the values, in order by key.
    pub fn into_values(self) -> (r: IntoValues<K, V, A>)
        requires
            self.wf(),
        ensures
            r.wf(),
            r@ == self@,
    {
        IntoValues::new(self)
    }
}

} // verus!
