//! A map from keys to values on top of the B-tree engine.
use vstd::prelude::*;
use crate::btree::drain::DrainFilterInner;
use crate::btree::entry::{EntriesMut, Entry, OccupiedEntry};
use crate::btree::node::Address;
use crate::btree::order::{
    as_ordering, comparison_of, items_order, same_items, ItemOrd, ItemPartialOrd,
};
use crate::btree::{Comparison, Insert, KeyOrd, KeyPartialOrd};
use crate::slab::{Arena, Slab, Storage};

pub mod binding;
pub mod inplace;
pub mod iter;

pub use binding::Binding;
pub use iter::{IntoIter, IntoKeys, IntoValues, Iter, Keys, Range, Values};
use crate::btree::node::Reference;

verus! {

/// A key and a value to be inserted: an item of the tree with the same key
/// keeps its key and takes the value.
pub struct Inserted<K, V>(pub K, pub V);

/// A key and a value to be inserted: they take the place of an item of the
/// tree with the same key.
pub struct Replacing<K, V>(pub K, pub V);

impl<K: KeyOrd, V> KeyPartialOrd<Inserted<K, V>> for Binding<K, V> {
    open spec fn probe_rank(probe: &Inserted<K, V>) -> int {
        probe.0.key_rank()
    }

    fn key_partial_order(&self, probe: &Inserted<K, V>) -> (c: Comparison) {
        self.key.key_order(&probe.0)
    }
}

impl<K: KeyOrd, V> KeyPartialOrd<Replacing<K, V>> for Binding<K, V> {
    open spec fn probe_rank(probe: &Replacing<K, V>) -> int {
        probe.0.key_rank()
    }

    fn key_partial_order(&self, probe: &Replacing<K, V>) -> (c: Comparison) {
        self.key.key_order(&probe.0)
    }
}

/// A binding is made of a key and a value to be inserted.
impl<K: KeyOrd, V> Insert<Inserted<K, V>> for Binding<K, V> {
    open spec fn allocated(item: Inserted<K, V>) -> Binding<K, V> {
        Binding { key: item.0, value: item.1 }
    }

    fn allocate_item(item: Inserted<K, V>) -> (r: Binding<K, V>) {
        let Inserted(key, value) = item;
        Binding::new(key, value)
    }
}

/// A binding is made of a key and a value to be inserted.
impl<K: KeyOrd, V> Insert<Replacing<K, V>> for Binding<K, V> {
    open spec fn allocated(item: Replacing<K, V>) -> Binding<K, V> {
        Binding { key: item.0, value: item.1 }
    }

    fn allocate_item(item: Replacing<K, V>) -> (r: Binding<K, V>) {
        let Replacing(key, value) = item;
        Binding::new(key, value)
    }
}

/// A map based on a B-Tree: bindings of a key to a value, in the order of
/// the keys.
pub struct TreeMap<K, V, A = Slab<Reference<Binding<K, V>>>> {
    pub btree: Storage<Binding<K, V>, A>,
}

impl<K: KeyOrd, V, A: Arena<Reference<Binding<K, V>>>> Default for TreeMap<K, V, A> {
    /// An empty map.
    fn default() -> (r: Self)
        ensures
            r.wf(),
            r@ == vstd::map::Map::<int, Binding<K, V>>::empty(),
    {
        TreeMap::new()
    }
}

impl<K: KeyOrd, V, A: Arena<Reference<Binding<K, V>>>> TreeMap<K, V, A> {
    /// The bindings of the map by the rank of their key.
    pub open spec fn view(&self) -> vstd::map::Map<int, Binding<K, V>> {
        self.btree@
    }

    /// All is well with the tree of the map.
    pub open spec fn wf(&self) -> bool {
        self.btree.wf()
    }

    /// Makes a new, empty map.
    pub fn new() -> (r: Self)
        ensures
            r.wf(),
            r@ == vstd::map::Map::<int, Binding<K, V>>::empty(),
    {
        TreeMap { btree: Storage::new() }
    }

    /// Returns `true` if the map contains no elements.
    pub fn is_empty(&self) -> (r: bool)
        ensures
            r == self.btree.root.is_none(),
            self.wf() ==> r == (self@.dom().len() == 0),
    {
        self.btree.is_empty()
    }

    /// Returns the number of elements in the map.
    pub fn len(&self) -> (r: usize)
        ensures
            r == self.btree.len,
            self.wf() ==> r == self@.dom().len(),
    {
        self.btree.len()
    }

    /// Returns a reference to the value corresponding to the key.
    pub fn get<Q>(&self, key: &Q) -> (r: Option<&V>) where Binding<K, V>: KeyPartialOrd<Q>
        requires
            self.wf(),
        ensures
            r == (if self@.dom().contains(Binding::<K, V>::probe_rank(key)) {
                Some(&self@[Binding::<K, V>::probe_rank(key)].value)
            } else {
                None
            }),
    {
        match self.btree.get(key) {
            Some(item) => Some(&item.value),
            None => None,
        }
    }

    /// Returns a mutable reference to the value corresponding to the key.
    ///
    /// The map then holds under the key what the reference comes to hold.
    pub fn get_mut<Q>(&mut self, key: &Q) -> (r: Option<&mut V>) where
        Binding<K, V>: KeyPartialOrd<Q>,

        requires
            old(self).wf(),
        ensures
            final(self).wf(),
            r is Some <==> old(self)@.dom().contains(Binding::<K, V>::probe_rank(key)),
            r is None ==> final(self)@ == old(self)@,
            r matches Some(value) ==> {
                &&& *value == old(self)@[Binding::<K, V>::probe_rank(key)].value
                &&& final(self)@ == old(self)@.insert(
                    Binding::<K, V>::probe_rank(key),
                    Binding {
                        key: old(self)@[Binding::<K, V>::probe_rank(key)].key,
                        value: *final(value),
                    },
                )
            },
    {
        match self.btree.get_mut(key) {
            Some(item) => Some(item.value_mut()),
            None => None,
        }
    }

    /// Returns the key-value pair corresponding to the supplied key.
    pub fn get_key_value<Q>(&self, key: &Q) -> (r: Option<(&K, &V)>) where
        Binding<K, V>: KeyPartialOrd<Q>,

        requires
            self.wf(),
        ensures
            r == (if self@.dom().contains(Binding::<K, V>::probe_rank(key)) {
                Some(
                    (
                        &self@[Binding::<K, V>::probe_rank(key)].key,
                        &self@[Binding::<K, V>::probe_rank(key)].value,
                    ),
                )
            } else {
                None
            }),
    {
        match self.btree.get(key) {
            Some(item) => Some(item.as_pair()),
            None => None,
        }
    }

    /// Returns the first key-value pair in the map.
    /// The key in this pair is the minimum key in the map.
    pub fn first_key_value(&self) -> (r: Option<(&K, &V)>)
        requires
            self.wf(),
        ensures
            r is None <==> self@.dom().len() == 0,
            r matches Some((k, v)) ==> {
                &&& self@.dom().contains(k.key_rank())
                &&& self@[k.key_rank()].key == *k
                &&& self@[k.key_rank()].value == *v
                &&& forall|q: int| self@.dom().contains(q) ==> k.key_rank() <= q
            },
    {
        proof {
            self.btree.lemma_empty();
        }
        match self.btree.first_item() {
            Some(item) => {
                proof {
                    assert forall|q: int| self@.dom().contains(q) implies item.key_rank() <= q by {
                        if q < item.key_rank() {
                            assert(self.btree.below(Some(item.key_rank()), q));
                        }
                    }
                }
                Some(item.as_pair())
            },
            None => None,
        }
    }

    /// Returns the last key-value pair in the map.
    /// The key in this pair is the maximum key in the map.
    pub fn last_key_value(&self) -> (r: Option<(&K, &V)>)
        requires
            self.wf(),
        ensures
            r is None <==> self@.dom().len() == 0,
            r matches Some((k, v)) ==> {
                &&& self@.dom().contains(k.key_rank())
                &&& self@[k.key_rank()].key == *k
                &&& self@[k.key_rank()].value == *v
                &&& forall|q: int| self@.dom().contains(q) ==> q <= k.key_rank()
            },
    {
        proof {
            self.btree.lemma_empty();
        }
        match self.btree.last_item() {
            Some(item) => {
                proof {
                    assert forall|q: int| self@.dom().contains(q) implies q <= item.key_rank() by {
                        if q > item.key_rank() {
                            assert(self.btree.above(Some(item.key_rank()), q));
                        }
                    }
                }
                Some(item.as_pair())
            },
            None => None,
        }
    }

    /// Returns `true` if the map contains a value for the specified key.
    pub fn contains_key<Q>(&self, key: &Q) -> (r: bool) where Binding<K, V>: KeyPartialOrd<Q>
        requires
            self.wf(),
        ensures
            r == self@.dom().contains(Binding::<K, V>::probe_rank(key)),
    {
        self.btree.get(key).is_some()
    }

    /// The tree of the map.
    pub fn btree(&self) -> (r: &Storage<Binding<K, V>, A>)
        ensures
            *r == self.btree,
    {
        &self.btree
    }

    /// The tree of the map, to be changed in place.
    pub fn btree_mut(&mut self) -> (r: &mut Storage<Binding<K, V>, A>)
        ensures
            *r == old(self).btree,
            final(self).btree == *final(r),
    {
        &mut self.btree
    }

    /// Clears the map, removing all elements.
    pub fn clear(&mut self)
        requires
            old(self).wf(),
        ensures
            final(self).wf(),
            final(self)@ == vstd::map::Map::<int, Binding<K, V>>::empty(),
    {
        self.btree.clear()
    }

    /// Inserts a key-value pair into the map.
    ///
    /// If the map did not have this key present, `None` is returned.
    ///
    /// If the map did have this key present, the value is updated, and the old
    /// value is returned. The key is not updated.
    pub fn insert(&mut self, key: K, value: V) -> (r: Option<V>)
        requires
            old(self).wf(),
            !old(self)@.dom().contains(key.key_rank()) ==> old(self)@.dom().len() < usize::MAX,
        ensures
            final(self).wf(),
            r == (if old(self)@.dom().contains(key.key_rank()) {
                Some(old(self)@[key.key_rank()].value)
            } else {
                None
            }),
            final(self)@ == old(self)@.insert(
                key.key_rank(),
                Binding {
                    key: if old(self)@.dom().contains(key.key_rank()) {
                        old(self)@[key.key_rank()].key
                    } else {
                        key
                    },
                    value,
                },
            ),
    {
        let probe = Inserted(key, value);
        match self.btree.address_of(&probe) {
            Ok(addr) => {
                proof {
                    assert(self.btree.node_ok(addr.id, None));
                }
                let Inserted(_, value) = probe;
                Some(self.btree.replace_value_at(addr, value))
            },
            Err(addr) => {
                let Inserted(key, value) = probe;
                self.btree.insert_exactly_at(addr, Binding::new(key, value), None);
                None
            },
        }
    }

    /// Inserts a key-value pair into the map, in the place of the pair
    /// with this key if there is one, which is returned.
    pub fn replace(&mut self, key: K, value: V) -> (r: Option<(K, V)>)
        requires
            old(self).wf(),
            !old(self)@.dom().contains(key.key_rank()) ==> old(self)@.dom().len() < usize::MAX,
        ensures
            final(self).wf(),
            r == (if old(self)@.dom().contains(key.key_rank()) {
                Some((old(self)@[key.key_rank()].key, old(self)@[key.key_rank()].value))
            } else {
                None
            }),
            final(self)@ == old(self)@.insert(key.key_rank(), Binding { key, value }),
    {
        match self.btree.insert(Binding::new(key, value)) {
            Some(item) => Some(item.into_pair()),
            None => None,
        }
    }

    /// Removes and returns the first element in the map.
    /// The key of this element is the minimum key that was in the map.
    pub fn pop_first(&mut self) -> (r: Option<(K, V)>)
        requires
            old(self).wf(),
        ensures
            final(self).wf(),
            r is None <==> old(self)@.dom().len() == 0,
            r is None ==> final(self)@ == old(self)@,
            r matches Some((k, v)) ==> {
                &&& old(self)@.dom().contains(k.key_rank())
                &&& old(self)@[k.key_rank()] == (Binding { key: k, value: v })
                &&& forall|q: int| old(self)@.dom().contains(q) ==> k.key_rank() <= q
                &&& final(self)@ == old(self)@.remove(k.key_rank())
            },
    {
        proof {
            self.btree.lemma_empty();
        }
        match self.btree.pop_first() {
            Some(item) => {
                proof {
                    assert forall|q: int| old(self)@.dom().contains(q) implies item.key_rank()
                        <= q by {
                        if q < item.key_rank() {
                            assert(old(self).btree.below(Some(item.key_rank()), q));
                        }
                    }
                }
                Some(item.into_pair())
            },
            None => None,
        }
    }

    /// Removes and returns the last element in the map.
    /// The key of this element is the maximum key that was in the map.
    pub fn pop_last(&mut self) -> (r: Option<(K, V)>)
        requires
            old(self).wf(),
        ensures
            final(self).wf(),
            r is None <==> old(self)@.dom().len() == 0,
            r is None ==> final(self)@ == old(self)@,
            r matches Some((k, v)) ==> {
                &&& old(self)@.dom().contains(k.key_rank())
                &&& old(self)@[k.key_rank()] == (Binding { key: k, value: v })
                &&& forall|q: int| old(self)@.dom().contains(q) ==> q <= k.key_rank()
                &&& final(self)@ == old(self)@.remove(k.key_rank())
            },
    {
        proof {
            self.btree.lemma_empty();
        }
        match self.btree.pop_last() {
            Some(item) => {
                proof {
                    assert forall|q: int| old(self)@.dom().contains(q) implies q
                        <= item.key_rank() by {
                        if q > item.key_rank() {
                            assert(old(self).btree.above(Some(item.key_rank()), q));
                        }
                    }
                }
                Some(item.into_pair())
            },
            None => None,
        }
    }

    /// Removes a key from the map, returning the value at the key if the key
    /// was previously in the map.
    pub fn remove<Q>(&mut self, key: &Q) -> (r: Option<V>) where Binding<K, V>: KeyPartialOrd<Q>
        requires
            old(self).wf(),
        ensures
            final(self).wf(),
            r == (if old(self)@.dom().contains(Binding::<K, V>::probe_rank(key)) {
                Some(old(self)@[Binding::<K, V>::probe_rank(key)].value)
            } else {
                None
            }),
            final(self)@ == old(self)@.remove(Binding::<K, V>::probe_rank(key)),
    {
        match self.btree.remove(key) {
            Some(item) => Some(item.into_value()),
            None => None,
        }
    }

    /// Removes a key from the map, returning the stored key and value if the key
    /// was previously in the map.
    pub fn remove_entry<Q>(&mut self, key: &Q) -> (r: Option<(K, V)>) where
        Binding<K, V>: KeyPartialOrd<Q>,

        requires
            old(self).wf(),
        ensures
            final(self).wf(),
            r == (if old(self)@.dom().contains(Binding::<K, V>::probe_rank(key)) {
                Some(
                    (
                        old(self)@[Binding::<K, V>::probe_rank(key)].key,
                        old(self)@[Binding::<K, V>::probe_rank(key)].value,
                    ),
                )
            } else {
                None
            }),
            final(self)@ == old(self)@.remove(Binding::<K, V>::probe_rank(key)),
    {
        match self.btree.remove(key) {
            Some(item) => Some(item.into_pair()),
            None => None,
        }
    }

    /// The value of the binding of the given rank, if the map has one.
    pub open spec fn value_at(&self, rank: int) -> Option<V> {
        if self@.dom().contains(rank) {
            Some(self@[rank].value)
        } else {
            None
        }
    }

    /// The map after an update of the binding of `key` that answers with
    /// `value`: the binding has that value, under the key that it had if
    /// there was one; or the map has no such binding.
    pub open spec fn updated(&self, key: K, value: Option<V>) -> vstd::map::Map<
        int,
        Binding<K, V>,
    > {
        match value {
            Some(v) => self@.insert(
                key.key_rank(),
                Binding {
                    key: if self@.dom().contains(key.key_rank()) {
                        self@[key.key_rank()].key
                    } else {
                        key
                    },
                    value: v,
                },
            ),
            None => self@.remove(key.key_rank()),
        }
    }

    /// General-purpose update function.
    ///
    /// This can be used to insert, compare, replace or remove the value associated to the given
    /// `key` in the tree.
    /// The action to perform is specified by the `action` function.
    /// This function is called once with:
    ///  - `Some(value)` when `value` is aready associated to `key` or
    ///  - `None` when the `key` is not associated to any value.
    ///
    /// The `action` function must return a pair (`new_value`, `result`) where
    /// `new_value` is the new value to be associated to `key`
    /// (if it is `None` any previous binding is removed) and
    /// `result` is the value returned by the entire `update` function call.
    pub fn update<R, F>(&mut self, key: K, action: F) -> (r: R) where
        F: FnOnce(Option<V>) -> (Option<V>, R),

        requires
            old(self).wf(),
            old(self)@.dom().len() < usize::MAX,
            action.requires((old(self).value_at(key.key_rank()),)),
        ensures
            final(self).wf(),
            exists|value: Option<V>|
                #![trigger old(self).updated(key, value)]
                action.ensures((old(self).value_at(key.key_rank()),), (value, r)) && final(self)@
                    == old(self).updated(key, value),
    {
        let ghost k = key.key_rank();
        match self.btree.address_of(&key) {
            Ok(addr) => {
                proof {
                    assert(self.btree.node_ok(addr.id, None));
                }
                let (item, _) = self.btree.take_at(addr);
                let (old_key, old_value) = item.into_pair();
                let (new_value, result) = action(Some(old_value));
                let ghost chosen = new_value;
                if let Some(value) = new_value {
                    self.btree.insert(Binding::new(old_key, value));
                }
                proof {
                    assert(self@ =~= old(self).updated(key, chosen));
                }
                result
            },
            Err(addr) => {
                let (new_value, result) = action(None);
                let ghost chosen = new_value;
                if let Some(value) = new_value {
                    self.btree.insert_exactly_at(addr, Binding::new(key, value), None);
                }
                proof {
                    assert(self@ =~= old(self).updated(key, chosen));
                }
                result
            },
        }
    }

    /// Gets the given key's corresponding entry in the map for in-place manipulation.
    pub fn entry(&mut self, key: K) -> (r: Entry<'_, K, V, A>)
        requires
            old(self).wf(),
        ensures
            match r {
                Entry::Occupied(e) => {
                    &&& *e.map == old(self).btree
                    &&& *final(e.map) == final(self).btree
                    &&& e.wf()
                    &&& e.binding().key.key_rank() == key.key_rank()
                },
                Entry::Vacant(e) => {
                    &&& *e.map == old(self).btree
                    &&& *final(e.map) == final(self).btree
                    &&& e.key == key
                    &&& !old(self)@.dom().contains(key.key_rank())
                    &&& old(self)@.dom().len() < usize::MAX ==> e.wf()
                },
            },
    {
        Entry::new(&mut self.btree, key)
    }

    /// Returns the first entry in the map for in-place manipulation.
    /// The key of this entry is the minimum key in the map.
    pub fn first_entry(&mut self) -> (r: Option<OccupiedEntry<'_, K, V, A>>)
        requires
            old(self).wf(),
        ensures
            r is None <==> old(self)@.dom().len() == 0,
            r is None ==> final(self).btree == old(self).btree,
            r matches Some(e) ==> {
                &&& *e.map == old(self).btree
                &&& *final(e.map) == final(self).btree
                &&& e.wf()
                &&& old(self).btree.is_greatest_below(Some(e.binding().key.key_rank()), None)
            },
    {
        proof {
            self.btree.lemma_empty();
        }
        match self.btree.first_item_address() {
            Some(addr) => Some(OccupiedEntry { map: &mut self.btree, addr }),
            None => None,
        }
    }

    /// Returns the last entry in the map for in-place manipulation.
    /// The key of this entry is the maximum key in the map.
    pub fn last_entry(&mut self) -> (r: Option<OccupiedEntry<'_, K, V, A>>)
        requires
            old(self).wf(),
        ensures
            r is None <==> old(self)@.dom().len() == 0,
            r is None ==> final(self).btree == old(self).btree,
            r matches Some(e) ==> {
                &&& *e.map == old(self).btree
                &&& *final(e.map) == final(self).btree
                &&& e.wf()
                &&& old(self).btree.is_least_above(Some(e.binding().key.key_rank()), None)
            },
    {
        proof {
            self.btree.lemma_empty();
        }
        match self.btree.last_item_address() {
            Some(addr) => Some(OccupiedEntry { map: &mut self.btree, addr }),
            None => None,
        }
    }

    /// Gets a mutable iterator over the entries of the map, sorted by key, that allows insertion and deletion of the iterated entries.
    pub fn entries_mut(&mut self) -> (r: EntriesMut<'_, Binding<K, V>, A>)
        requires
            old(self).wf(),
        ensures
            r.wf(),
            *r.btree == old(self).btree,
            *final(r.btree) == final(self).btree,
            r.addr == old(self).btree.leftmost_address(),
            r.len == old(self).btree.len,
    {
        EntriesMut::new(&mut self.btree)
    }

    /// Creates an iterator which uses a closure to determine if an element should be removed.
    ///
    /// If the closure returns true, the element is removed from the map and yielded.
    /// If the closure returns false, the element remains in the map and will not be
    /// yielded.
    pub fn drain_filter<F>(&mut self, pred: F) -> (r: DrainFilter<'_, K, V, F, A>) where
        F: Fn(&K, &V) -> bool,

        requires
            old(self).wf(),
        ensures
            r.inner.wf(),
            *r.inner.btree == old(self).btree,
            *final(r.inner.btree) == final(self).btree,
            r.inner.floor@.is_none(),
            r.pred == pred,
    {
        DrainFilter::new(&mut self.btree, pred)
    }

    /// Retains only the elements specified by the predicate.
    ///
    /// In other words, remove all pairs `(k, v)` such that `f(&k, &v)` returns `false`.
    pub fn retain<F>(&mut self, f: F) where F: Fn(&K, &V) -> bool
        requires
            old(self).wf(),
            forall|k: K, v: V| #[trigger] f.requires((&k, &v)),
        ensures
            final(self).wf(),
            final(self)@.submap_of(old(self)@),
            forall|q: int|
                final(self)@.dom().contains(q) ==> #[trigger] f.ensures(
                    (&old(self)@[q].key, &old(self)@[q].value),
                    true,
                ),
            forall|q: int|
                old(self)@.dom().contains(q) && !final(self)@.dom().contains(q)
                    ==> #[trigger] f.ensures((&old(self)@[q].key, &old(self)@[q].value), false),
    {
        let pred = &f;
        let kept = |b: &Binding<K, V>| -> (r: bool)
            requires
                pred.requires((&b.key, &b.value)),
            ensures
                pred.ensures((&b.key, &b.value), r),
            { pred(&b.key, &b.value) };
        let ghost kept_spec = kept;
        self.btree.retain(kept);
        proof {
            assert forall|q: int| self@.dom().contains(q) implies #[trigger] f.ensures(
                (&old(self)@[q].key, &old(self)@[q].value),
                true,
            ) by {
                assert(kept_spec.ensures((&old(self)@[q],), true));
            }
            assert forall|q: int|
                old(self)@.dom().contains(q) && !self@.dom().contains(q) implies #[trigger] f.ensures(
                (&old(self)@[q].key, &old(self)@[q].value),
                false,
            ) by {
                assert(kept_spec.ensures((&old(self)@[q],), false));
            }
        }
    }
}

impl<K: KeyOrd, V, A: Arena<Reference<Binding<K, V>>>> TreeMap<K, V, A> {
    /// `true` if the two maps hold as many bindings, and each binding of
    /// the other compares equal to the binding of this map at its place in
    /// the order of the keys.
    pub fn eq<L, W, B>(&self, other: &TreeMap<L, W, B>) -> (r: bool) where
        L: KeyOrd,
        B: Arena<Reference<Binding<L, W>>>,
        Binding<L, W>: ItemPartialOrd<Binding<K, V>>,

        requires
            self.wf(),
            other.wf(),
        ensures
            r == same_items(self.btree.items_in_order(), other.btree.items_in_order()),
    {
        self.btree.eq(&other.btree)
    }

    /// How the map compares to the other in the order of a dictionary over
    /// their bindings, taken in the order of the keys; nothing where two
    /// bindings that decide cannot be compared.
    pub fn partial_cmp<L, W, B>(&self, other: &TreeMap<L, W, B>) -> (r: Option<core::cmp::Ordering>) where
        L: KeyOrd,
        B: Arena<Reference<Binding<L, W>>>,
        Binding<L, W>: ItemPartialOrd<Binding<K, V>>,

        requires
            self.wf(),
            other.wf(),
        ensures
            r == (match items_order(
                self.btree.items_in_order(),
                other.btree.items_in_order(),
                0,
            ) {
                Some(c) => Some(as_ordering(c)),
                None => None,
            }),
    {
        self.btree.partial_cmp(&other.btree)
    }

    /// How the map compares to the other in the order of a dictionary over
    /// their bindings, taken in the order of the keys.
    pub fn cmp(&self, other: &Self) -> (r: core::cmp::Ordering) where Binding<K, V>: ItemOrd
        requires
            self.wf(),
            other.wf(),
        ensures
            items_order(self.btree.items_in_order(), other.btree.items_in_order(), 0) == Some(
                comparison_of(r),
            ),
    {
        self.btree.cmp(&other.btree)
    }
}

/// Drain filter iterator: gives the bindings of a map of which its
/// predicate is true, which it removes from the map, in the order of their
/// keys.
pub struct DrainFilter<'a, K, V, F, A = Slab<Reference<Binding<K, V>>>> {
    pub pred: F,
    pub inner: DrainFilterInner<'a, Binding<K, V>, A>,
}

impl<'a, K: KeyOrd, V, F: Fn(&K, &V) -> bool, A: Arena<Reference<Binding<K, V>>>> DrainFilter<'a, K, V, F, A> {
    /// The drain stands at the first binding of the map above the bindings
    /// that it has looked at, and its predicate takes every binding.
    pub open spec fn wf(&self) -> bool {
        &&& self.inner.wf()
        &&& forall|k: K, v: V| #[trigger] self.pred.requires((&k, &v))
    }

    /// A drain that has looked at no binding of the map.
    pub fn new(btree: &'a mut Storage<Binding<K, V>, A>, pred: F) -> (r: Self)
        requires
            old(btree).wf(),
        ensures
            r.inner.wf(),
            *r.inner.btree == *old(btree),
            *final(r.inner.btree) == *final(btree),
            r.inner.floor@.is_none(),
            r.pred == pred,
    {
        DrainFilter { pred, inner: DrainFilterInner::new(btree) }
    }

    /// The bounds of the number of bindings that the drain may still give.
    pub fn size_hint(&self) -> (r: (usize, Option<usize>))
        ensures
            r == (0usize, Some(self.inner.len)),
    {
        self.inner.size_hint()
    }

    /// The next binding of the map of which the predicate is true, which
    /// is removed from the map. The bindings before it stay.
    pub fn next(&mut self) -> (r: Option<(K, V)>)
        requires
            old(self).wf(),
        ensures
            final(self).wf(),
            final(self).pred == old(self).pred,
            *final(final(self).inner.btree) == *final(old(self).inner.btree),
            match r {
                Some((key, value)) => {
                    &&& old(self).inner.ahead(key.key_rank())
                    &&& old(self).inner.items()[key.key_rank()] == (Binding { key, value })
                    &&& old(self).pred.ensures((&key, &value), true)
                    &&& final(self).inner.items() == old(self).inner.items().remove(
                        key.key_rank(),
                    )
                    &&& final(self).inner.floor@ == Some(key.key_rank())
                    &&& forall|q: int|
                        old(self).inner.ahead(q) && q < key.key_rank() ==> #[trigger] old(
                            self,
                        ).pred.ensures(
                            (&old(self).inner.items()[q].key, &old(self).inner.items()[q].value),
                            false,
                        )
                },
                None => {
                    &&& final(self).inner.items() == old(self).inner.items()
                    &&& final(self).inner.addr.is_none()
                    &&& forall|q: int|
                        old(self).inner.ahead(q) ==> #[trigger] old(self).pred.ensures(
                            (&old(self).inner.items()[q].key, &old(self).inner.items()[q].value),
                            false,
                        )
                },
            },
    {
        let pred = &self.pred;
        let taken = |b: &Binding<K, V>| -> (r: bool)
            requires
                pred.requires((&b.key, &b.value)),
            ensures
                pred.ensures((&b.key, &b.value), r),
            { pred(&b.key, &b.value) };
        let ghost items = self.inner.items();
        let ghost inner = self.inner;
        let r = self.inner.next(&taken);
        proof {
            assert forall|q: int|
                inner.ahead(q) && (r is None || q < r.unwrap().key_rank()) implies #[trigger] old(
                self,
            ).pred.ensures((&items[q].key, &items[q].value), false) by {
                assert(taken.ensures((&items[q],), false));
            }
            if r is Some {
                assert(taken.ensures((&r.unwrap(),), true));
            }
        }
        match r {
            Some(item) => Some(item.into_pair()),
            None => None,
        }
    }

    /// Goes on to the end of the map: removes every binding that the
    /// drain has not looked at and of which the predicate is true.
    pub fn finish(self)
        requires
            old(self.inner.btree).wf(),
            old(self.inner.btree).addresses(self.inner.addr, self.inner.floor@),
            forall|k: K, v: V| #[trigger] self.pred.requires((&k, &v)),
        ensures
            final(self.inner.btree).wf(),
            final(self.inner.btree)@.submap_of(old(self.inner.btree)@),
            forall|q: int|
                old(self.inner.btree)@.dom().contains(q) && !old(self.inner.btree).above(
                    self.inner.floor@,
                    q,
                ) ==> final(self.inner.btree)@.dom().contains(q),
            forall|q: int|
                old(self.inner.btree).above(self.inner.floor@, q) && final(self.inner.btree)@.dom().contains(q) ==> #[trigger] self.pred.ensures(
                    (&old(self.inner.btree)@[q].key, &old(self.inner.btree)@[q].value),
                    false,
                ),
            forall|q: int|
                old(self.inner.btree)@.dom().contains(q) && !final(self.inner.btree)@.dom().contains(q) ==> #[trigger] self.pred.ensures(
                    (&old(self.inner.btree)@[q].key, &old(self.inner.btree)@[q].value),
                    true,
                ),
    {
        let ghost first = *old(self.inner.btree);
        let pred = &self.pred;
        let taken = |b: &Binding<K, V>| -> (r: bool)
            requires
                pred.requires((&b.key, &b.value)),
            ensures
                pred.ensures((&b.key, &b.value), r),
            { pred(&b.key, &b.value) };
        let ghost taken_spec = taken;
        let ghost floor = self.inner.floor@;
        let drain = crate::btree::drain::DrainFilter { pred: taken, inner: self.inner };
        let ghost ends = *final(drain.inner.btree);
        let ghost whole = drain;
        proof {
            assert(whole.pred == taken_spec);
            assert(*whole.inner.btree == first);
        }
        drain.finish();
        proof {
            assert(ends@.submap_of(first@));
            assert forall|q: int| first.above(floor, q) && ends@.dom().contains(q) implies #[trigger] self.pred.ensures(
                (&first@[q].key, &first@[q].value),
                false,
            ) by {
                assert(whole.pred.ensures((&first@[q],), false));
            }
            assert forall|q: int| first@.dom().contains(q) && !ends@.dom().contains(q) implies #[trigger] self.pred.ensures(
                (&first@[q].key, &first@[q].value),
                true,
            ) by {
                assert(whole.pred.ensures((&first@[q],), true));
            }
        }
    }
}

} // verus!
