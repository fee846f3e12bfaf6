//! The items of a map: keys with their values.
use vstd::prelude::*;
use crate::btree::order::{ItemOrd, ItemPartialOrd};
use crate::btree::{Comparison, KeyOrd, KeyPartialOrd};

verus! {

/// A key with its value: an item of a map.
pub struct Binding<K, V> {
    pub key: K,
    pub value: V,
}

impl<K, V> Binding<K, V> {
    pub fn new(key: K, value: V) -> (r: Self)
        ensures
            r == (Binding { key, value }),
    {
        Binding { key, value }
    }

    pub fn as_pair(&self) -> (r: (&K, &V))
        ensures
            *r.0 == self.key,
            *r.1 == self.value,
    {
        (&self.key, &self.value)
    }

    pub fn into_pair(self) -> (r: (K, V))
        ensures
            r == (self.key, self.value),
    {
        (self.key, self.value)
    }

    /// Puts the value in the place of the value of the binding, and
    /// returns that value.
    pub fn replace_value(&mut self, value: V) -> (r: V)
        ensures
            r == old(self).value,
            final(self).value == value,
            final(self).key == old(self).key,
    {
        let mut value = value;
        core::mem::swap(&mut self.value, &mut value);
        value
    }

    /// The value of the binding, to be changed in place.
    pub fn value_mut(&mut self) -> (r: &mut V)
        ensures
            *r == old(self).value,
            final(self).value == *final(r),
            final(self).key == old(self).key,
    {
        &mut self.value
    }

    /// The key of the binding, and its value to be changed in place.
    pub fn split_mut(&mut self) -> (r: (&K, &mut V))
        ensures
            *r.0 == old(self).key,
            *r.1 == old(self).value,
            final(self).value == *final(r.1),
            final(self).key == old(self).key,
    {
        (&self.key, &mut self.value)
    }

    /// Drops the key and lets go of the value without running its
    /// destructor.
    pub fn forget_value(self) {
        let (_key, value) = self.into_pair();
        crate::util::forget(value);
    }

    pub fn into_value(self) -> (r: V)
        ensures
            r == self.value,
    {
        self.value
    }
}

/// Bindings are ordered by their keys.
impl<K: KeyOrd, V> KeyOrd for Binding<K, V> {
    open spec fn key_rank(&self) -> int {
        self.key.key_rank()
    }

    fn key_order(&self, other: &Self) -> (c: Comparison) {
        self.key.key_order(&other.key)
    }
}

/// A binding can be sought by its key.
impl<K: KeyOrd, V> KeyPartialOrd<K> for Binding<K, V> {
    open spec fn probe_rank(probe: &K) -> int {
        probe.key_rank()
    }

    fn key_partial_order(&self, probe: &K) -> (c: Comparison) {
        self.key.key_order(probe)
    }
}

/// Bindings compare by their keys, and with keys that compare equal by
/// their values.
impl<K: ItemPartialOrd<L>, V: ItemPartialOrd<W>, L, W> ItemPartialOrd<Binding<L, W>> for Binding<
    K,
    V,
> {
    open spec fn item_order(&self, other: &Binding<L, W>) -> Option<Comparison> {
        match self.key.item_order(&other.key) {
            Some(Comparison::Equal) => self.value.item_order(&other.value),
            o => o,
        }
    }

    fn item_partial_order(&self, other: &Binding<L, W>) -> (c: Option<Comparison>) {
        match self.key.item_partial_order(&other.key) {
            Some(Comparison::Equal) => self.value.item_partial_order(&other.value),
            o => o,
        }
    }
}

impl<K: ItemOrd, V: ItemOrd> ItemOrd for Binding<K, V> {
    fn item_total_order(&self, other: &Binding<K, V>) -> (c: Comparison) {
        match self.key.item_total_order(&other.key) {
            Comparison::Equal => self.value.item_total_order(&other.value),
            o => o,
        }
    }
}

} // verus!
