//! Entries of a map, and a walk that can change the tree on its way.
use vstd::prelude::*;
use super::node::Address;
use super::{KeyOrd, KeyPartialOrd};
use crate::map::Binding;
use crate::slab::{Arena, Slab, Storage};
use crate::btree::node::Reference;

verus! {

impl<K: KeyOrd, V, A: Arena<Reference<Binding<K, V>>>> Storage<Binding<K, V>, A> {
    /// Puts the value in the place of the value of the binding at the
    /// address, and returns that value.
    pub fn replace_value_at(&mut self, addr: Address, value: V) -> (r: V)
        requires
            old(self).wf(),
            old(self).is_item_address(addr),
        ensures
            final(self).wf(),
            r == old(self).item_at(addr).value,
            final(self)@ == old(self)@.insert(
                old(self).rank_at(addr),
                Binding { key: old(self).item_at(addr).key, value },
            ),
            final(self).is_item_address(addr),
            final(self).item_at(addr) == (Binding { key: old(self).item_at(addr).key, value }),
            final(self).len == old(self).len,
    {
        let ghost k = self.rank_at(addr);
        let ghost item = Binding { key: self.item_at(addr).key, value };
        proof {
            assert(self.node_ok(addr.id, None));
        }
        let node = self.node_mut(addr.id);
        let binding = node.into_item_mut(addr.offset);
        let previous = binding.replace_value(value);
        let ghost mid = *self;
        proof {
            assert forall|j: usize| (#[trigger] self.has(j)) == old(self).has(j) by {
                assert(mid.has(j) == old(self).has(j));
            }
            assert forall|j: usize| j != addr.id && old(self).has(j) implies #[trigger] self.node_at(
                j,
            ) == old(self).node_at(j) by {
                assert(mid.node_at(j) == old(self).node_at(j));
            }
            self.lemma_replaced(old(self), addr, item);
        }
        previous
    }
}

/// A view into an occupied entry in a map.
pub struct OccupiedEntry<'a, K, V, A = Slab<Reference<Binding<K, V>>>> {
    /// The tree of the map.
    pub map: &'a mut Storage<Binding<K, V>, A>,
    /// The address of the binding.
    pub addr: Address,
}

impl<'a, K: KeyOrd, V, A: Arena<Reference<Binding<K, V>>>> OccupiedEntry<'a, K, V, A> {
    /// The entry names a binding of a tree in which all is well.
    pub open spec fn wf(&self) -> bool {
        self.map.wf() && self.map.is_item_address(self.addr)
    }

    /// The binding of the entry.
    pub open spec fn binding(&self) -> Binding<K, V> {
        self.map.item_at(self.addr)
    }

    /// Gets the address of the occupied entry in the B-Tree.
    pub fn address(&self) -> (r: Address)
        ensures
            r == self.addr,
    {
        self.addr
    }

    /// Gets a reference to the value in the entry.
    pub fn get(&self) -> (r: &V)
        requires
            self.wf(),
        ensures
            *r == self.binding().value,
    {
        &self.map.item(self.addr).unwrap().value
    }

    /// Gets a reference to the key in the entry.
    pub fn key(&self) -> (r: &K)
        requires
            self.wf(),
        ensures
            *r == self.binding().key,
    {
        &self.map.item(self.addr).unwrap().key
    }

    /// Gets a mutable reference to the value in the entry.
    ///
    /// The map then holds under the key of the entry what the reference
    /// comes to hold.
    pub fn get_mut(&mut self) -> (r: &mut V)
        requires
            old(self).wf(),
        ensures
            *r == old(self).binding().value,
            final(self).wf(),
            final(self).addr == old(self).addr,
            final(self).binding() == (Binding { key: old(self).binding().key, value: *final(r) }),
            final(self).map@ == old(self).map@.insert(
                old(self).binding().key.key_rank(),
                Binding { key: old(self).binding().key, value: *final(r) },
            ),
            *final(final(self).map) == *final(old(self).map),
    {
        self.map.item_mut(self.addr).unwrap().value_mut()
    }

    /// Converts the entry into a mutable reference to its value.
    ///
    /// The map then holds under the key of the entry what the reference
    /// comes to hold.
    pub fn into_mut(self) -> (r: &'a mut V)
        requires
            old(self.map).wf(),
            old(self.map).is_item_address(self.addr),
        ensures
            *r == old(self.map).item_at(self.addr).value,
            final(self.map).wf(),
            final(self.map)@ == old(self.map)@.insert(
                old(self.map).rank_at(self.addr),
                Binding { key: old(self.map).item_at(self.addr).key, value: *final(r) },
            ),
    {
        let map = self.map;
        map.item_mut(self.addr).unwrap().value_mut()
    }

    /// Sets the value of the entry with the OccupiedEntry's key,
    /// and returns the entry's old value.
    pub fn insert(&mut self, value: V) -> (r: V)
        requires
            old(self).wf(),
        ensures
            final(self).wf(),
            final(self).addr == old(self).addr,
            r == old(self).binding().value,
            final(self).binding() == (Binding { key: old(self).binding().key, value }),
            final(self).map@ == old(self).map@.insert(
                old(self).binding().key.key_rank(),
                Binding { key: old(self).binding().key, value },
            ),
            *final(final(self).map) == *final(old(self).map),
    {
        self.map.replace_value_at(self.addr, value)
    }

    /// Takes the value of the entry out of the map, and returns it.
    pub fn remove(self) -> (r: V)
        requires
            old(self.map).wf(),
            old(self.map).is_item_address(self.addr),
        ensures
            final(self.map).wf(),
            r == old(self.map).item_at(self.addr).value,
            final(self.map)@ == old(self.map)@.remove(old(self.map).rank_at(self.addr)),
    {
        let (item, _) = self.map.take_at(self.addr);
        item.into_value()
    }

    /// Take ownership of the key and value from the map.
    pub fn remove_entry(self) -> (r: Binding<K, V>)
        requires
            old(self.map).wf(),
            old(self.map).is_item_address(self.addr),
        ensures
            final(self.map).wf(),
            r == old(self.map).item_at(self.addr),
            final(self.map)@ == old(self.map)@.remove(old(self.map).rank_at(self.addr)),
    {
        let (item, _) = self.map.take_at(self.addr);
        item
    }
}

/// A view into a vacant entry in a map.
pub struct VacantEntry<'a, K, V, A = Slab<Reference<Binding<K, V>>>> {
    /// The tree of the map.
    pub map: &'a mut Storage<Binding<K, V>, A>,
    /// The key of the entry.
    pub key: K,
    /// The address at which a binding of the key belongs.
    pub addr: Address,
}

impl<'a, K: KeyOrd, V, A: Arena<Reference<Binding<K, V>>>> VacantEntry<'a, K, V, A> {
    /// The entry names the place of its key in a tree in which all is
    /// well and which has room for one more binding.
    pub open spec fn wf(&self) -> bool {
        &&& self.map.wf()
        &&& self.map.len < usize::MAX
        &&& if self.addr.is_nowhere() {
            self.map.root is None
        } else {
            self.map.root is Some && self.map.fits_at(self.addr, self.key.key_rank())
        }
    }

    /// Gets the address of the vacant entry in the B-Tree.
    pub fn address(&self) -> (r: Address)
        ensures
            r == self.addr,
    {
        self.addr
    }

    /// Gets a reference to the keys that would be used when inserting a value through the `VacantEntry`.
    pub fn key(&self) -> (r: &K)
        ensures
            *r == self.key,
    {
        &self.key
    }

    /// Take ownership of the key.
    pub fn into_key(self) -> (r: K)
        ensures
            r == self.key,
    {
        self.key
    }

    /// Sets the value of the entry with the `VacantEntry`'s key,
    /// and returns a mutable reference to it.
    ///
    /// The map then holds under the key what the reference comes to hold.
    pub fn insert(self, value: V) -> (r: &'a mut V)
        requires
            old(self.map).wf(),
            old(self.map).len < usize::MAX,
            if self.addr.is_nowhere() {
                old(self.map).root is None
            } else {
                old(self.map).root is Some && old(self.map).fits_at(self.addr, self.key.key_rank())
            },
        ensures
            *r == value,
            final(self.map).wf(),
            final(self.map)@ == old(self.map)@.insert(
                self.key.key_rank(),
                Binding { key: self.key, value: *final(r) },
            ),
    {
        let map = self.map;
        let addr = map.insert_exactly_at(self.addr, Binding::new(self.key, value), None);
        map.item_mut(addr).unwrap().value_mut()
    }
}

/// A view into a single entry in a map, which may either be vacant or occupied.
pub enum Entry<'a, K, V, A = Slab<Reference<Binding<K, V>>>> {
    Vacant(VacantEntry<'a, K, V, A>),
    Occupied(OccupiedEntry<'a, K, V, A>),
}

impl<'a, K: KeyOrd, V, A: Arena<Reference<Binding<K, V>>>> Entry<'a, K, V, A> {
    /// The entry of a key in the tree: occupied with the address of the
    /// binding of that key, or vacant with the address at which such a
    /// binding belongs.
    pub fn new(map: &'a mut Storage<Binding<K, V>, A>, key: K) -> (r: Self)
        requires
            old(map).wf(),
        ensures
            match r {
                Entry::Occupied(e) => {
                    &&& *e.map == *old(map)
                    &&& *final(e.map) == *final(map)
                    &&& old(map).is_item_address(e.addr)
                    &&& old(map).rank_at(e.addr) == key.key_rank()
                },
                Entry::Vacant(e) => {
                    &&& *e.map == *old(map)
                    &&& *final(e.map) == *final(map)
                    &&& e.key == key
                    &&& !old(map)@.dom().contains(key.key_rank())
                    &&& if e.addr.is_nowhere() {
                        old(map).root is None
                    } else {
                        old(map).root is Some && old(map).fits_at(e.addr, key.key_rank())
                    }
                },
            },
    {
        match map.address_of(&key) {
            Ok(addr) => Entry::Occupied(OccupiedEntry { map, addr }),
            Err(addr) => Entry::Vacant(VacantEntry { map, key, addr }),
        }
    }

    /// Gets the address of the entry in the B-Tree.
    pub fn address(&self) -> (r: Address)
        ensures
            r == (match self {
                Entry::Occupied(e) => e.addr,
                Entry::Vacant(e) => e.addr,
            }),
    {
        match self {
            Entry::Occupied(entry) => entry.address(),
            Entry::Vacant(entry) => entry.address(),
        }
    }

    /// The entry stands in a tree in which all is well: an occupied
    /// entry at its binding, a vacant one at the place of its key, with
    /// room for one more binding.
    pub open spec fn wf(&self) -> bool {
        match self {
            Entry::Occupied(e) => e.wf(),
            Entry::Vacant(e) => e.wf(),
        }
    }

    /// The tree of the entry.
    pub open spec fn tree(&self) -> Storage<Binding<K, V>, A> {
        match self {
            Entry::Occupied(e) => *e.map,
            Entry::Vacant(e) => *e.map,
        }
    }

    /// The rank of the key of the entry.
    pub open spec fn rank(&self) -> int {
        match self {
            Entry::Occupied(e) => e.binding().key.key_rank(),
            Entry::Vacant(e) => e.key.key_rank(),
        }
    }

    /// The key under which the map holds the value of the entry, once it
    /// has one: the key of the binding that is there, or else the key of
    /// the entry.
    pub open spec fn kept_key(&self) -> K {
        match self {
            Entry::Occupied(e) => e.binding().key,
            Entry::Vacant(e) => e.key,
        }
    }

    /// Ensures a value is in the entry by inserting the default if empty,
    /// and returns a mutable reference to the value in the entry.
    ///
    /// The map then holds under the key what the reference comes to hold.
    pub fn or_insert(self, default: V) -> (r: &'a mut V)
        requires
            self.wf(),
        ensures
            *r == (match self {
                Entry::Occupied(e) => e.binding().value,
                Entry::Vacant(_) => default,
            }),
            match self {
                Entry::Occupied(e) => final(e.map).wf() && final(e.map)@ == self.tree()@.insert(
                    self.rank(),
                    Binding { key: self.kept_key(), value: *final(r) },
                ),
                Entry::Vacant(e) => final(e.map).wf() && final(e.map)@ == self.tree()@.insert(
                    self.rank(),
                    Binding { key: self.kept_key(), value: *final(r) },
                ),
            },
    {
        match self {
            Entry::Occupied(entry) => entry.into_mut(),
            Entry::Vacant(entry) => entry.insert(default),
        }
    }

    /// Ensures a value is in the entry by inserting the result of the
    /// default function if empty, and returns a mutable reference to the
    /// value in the entry.
    ///
    /// The map then holds under the key what the reference comes to hold.
    pub fn or_insert_with<F: FnOnce() -> V>(self, default: F) -> (r: &'a mut V)
        requires
            self.wf(),
            self is Vacant ==> default.requires(()),
        ensures
            match self {
                Entry::Occupied(e) => *r == e.binding().value,
                Entry::Vacant(_) => default.ensures((), *r),
            },
            match self {
                Entry::Occupied(e) => final(e.map).wf() && final(e.map)@ == self.tree()@.insert(
                    self.rank(),
                    Binding { key: self.kept_key(), value: *final(r) },
                ),
                Entry::Vacant(e) => final(e.map).wf() && final(e.map)@ == self.tree()@.insert(
                    self.rank(),
                    Binding { key: self.kept_key(), value: *final(r) },
                ),
            },
    {
        match self {
            Entry::Occupied(entry) => entry.into_mut(),
            Entry::Vacant(entry) => entry.insert(default()),
        }
    }

    /// Ensures a value is in the entry by inserting, if empty, the result
    /// of the default function, which takes the key of the entry, and
    /// returns a mutable reference to the value in the entry.
    ///
    /// The map then holds under the key what the reference comes to hold.
    pub fn or_insert_with_key<F: FnOnce(&K) -> V>(self, default: F) -> (r: &'a mut V)
        requires
            self.wf(),
            self matches Entry::Vacant(e) ==> default.requires((&e.key,)),
        ensures
            match self {
                Entry::Occupied(e) => *r == e.binding().value,
                Entry::Vacant(e) => default.ensures((&e.key,), *r),
            },
            match self {
                Entry::Occupied(e) => final(e.map).wf() && final(e.map)@ == self.tree()@.insert(
                    self.rank(),
                    Binding { key: self.kept_key(), value: *final(r) },
                ),
                Entry::Vacant(e) => final(e.map).wf() && final(e.map)@ == self.tree()@.insert(
                    self.rank(),
                    Binding { key: self.kept_key(), value: *final(r) },
                ),
            },
    {
        match self {
            Entry::Occupied(entry) => entry.into_mut(),
            Entry::Vacant(entry) => {
                let value = default(entry.key());
                entry.insert(value)
            },
        }
    }

    /// Ensures a value is in the entry by inserting the default value if
    /// empty, and returns a mutable reference to the value in the entry.
    ///
    /// The map then holds under the key what the reference comes to hold.
    pub fn or_default(self) -> (r: &'a mut V) where V: Default
        requires
            self.wf(),
        ensures
            match self {
                Entry::Occupied(e) => *r == e.binding().value,
                Entry::Vacant(_) => call_ensures(V::default, (), *r),
            },
            match self {
                Entry::Occupied(e) => final(e.map).wf() && final(e.map)@ == self.tree()@.insert(
                    self.rank(),
                    Binding { key: self.kept_key(), value: *final(r) },
                ),
                Entry::Vacant(e) => final(e.map).wf() && final(e.map)@ == self.tree()@.insert(
                    self.rank(),
                    Binding { key: self.kept_key(), value: *final(r) },
                ),
            },
    {
        match self {
            Entry::Occupied(entry) => entry.into_mut(),
            Entry::Vacant(entry) => entry.insert(Default::default()),
        }
    }

    /// Provides in-place mutable access to an occupied entry before any
    /// potential inserts into the map.
    pub fn and_modify<F>(self, f: F) -> (r: Self) where F: FnOnce(&mut V)
        requires
            self.wf(),
            forall|v: &mut V| #[trigger] f.requires((v,)),
        ensures
            r.wf(),
            r.rank() == self.rank(),
            r.kept_key() == self.kept_key(),
            match (self, r) {
                (Entry::Occupied(before), Entry::Occupied(after)) => {
                    &&& after.addr == before.addr
                    &&& *final(after.map) == *final(before.map)
                    &&& after.map@ == before.map@.insert(
                        self.rank(),
                        Binding { key: self.kept_key(), value: after.binding().value },
                    )
                    &&& exists|v: &mut V|
                        #[trigger] f.ensures((v,), ()) && *v == before.binding().value && *final(v)
                            == after.binding().value
                },
                (Entry::Vacant(before), Entry::Vacant(after)) => {
                    &&& after.addr == before.addr
                    &&& after.key == before.key
                    &&& *after.map == *before.map
                    &&& *final(after.map) == *final(before.map)
                },
                _ => false,
            },
    {
        match self {
            Entry::Occupied(mut entry) => {
                f(entry.get_mut());
                Entry::Occupied(entry)
            },
            Entry::Vacant(entry) => Entry::Vacant(entry),
        }
    }

    /// Returns a reference to this entry's key.
    pub fn key(&self) -> (r: &K)
        requires
            self matches Entry::Occupied(e) ==> e.wf(),
        ensures
            *r == (match self {
                Entry::Occupied(e) => e.binding().key,
                Entry::Vacant(e) => e.key,
            }),
    {
        match self {
            Entry::Occupied(entry) => entry.key(),
            Entry::Vacant(entry) => entry.key(),
        }
    }
}

/// Iterator that can mutate the tree in place: a walk over the items of a
/// tree in the order of their keys, which can insert an item before the
/// next one and remove the next one.
pub struct EntriesMut<'a, T, A = Slab<Reference<T>>> {
    /// The tree reference.
    pub btree: &'a mut Storage<T, A>,
    /// Address of the next item, or last valid address.
    pub addr: Address,
    /// Number of items left to walk over.
    pub len: usize,
}

impl<'a, T: KeyOrd, A: Arena<Reference<T>>> EntriesMut<'a, T, A> {
    /// The walk stands at an item of a tree in which all is well, or,
    /// with no item left, at the end of the last leaf, or nowhere in an
    /// empty tree.
    pub open spec fn wf(&self) -> bool {
        &&& self.btree.wf()
        &&& self.btree.addressable(self.addr)
        &&& self.btree.target_of(self.addr) is Some ==> self.btree.is_item_address(self.addr)
    }

    /// Create a new iterator over all the items of the map.
    pub fn new(btree: &'a mut Storage<T, A>) -> (r: Self)
        requires
            old(btree).wf(),
        ensures
            r.wf(),
            *r.btree == *old(btree),
            *final(r.btree) == *final(btree),
            r.len == old(btree).len,
            r.addr == old(btree).leftmost_address(),
    {
        let addr = btree.first_back_address();
        let len = btree.len();
        EntriesMut { btree, addr, len }
    }

    /// The item at which the walk stands, if it stands at one.
    pub open spec fn next_one(&self) -> Option<T> {
        if self.btree.is_item_address(self.addr) {
            Some(self.btree.item_at(self.addr))
        } else {
            None
        }
    }

    /// Get the next visited item without moving the iterator position.
    pub fn peek(&self) -> (r: Option<&T>)
        ensures
            r matches Some(item) ==> self.next_one() == Some(*item),
            r is None ==> self.next_one().is_none(),
    {
        self.btree.item(self.addr)
    }

    /// Get the next visited item, to be changed in place, without moving
    /// the iterator position.
    ///
    /// The tree is then the tree with what the reference comes to hold in
    /// the place of the item. As long as that has the key of the item, the
    /// walk can go on.
    pub fn peek_mut(&mut self) -> (r: Option<&mut T>)
        requires
            old(self).wf(),
        ensures
            final(self).addr == old(self).addr,
            final(self).len == old(self).len,
            *final(final(self).btree) == *final(old(self).btree),
            r is Some <==> old(self).next_one() is Some,
            r is None ==> *final(self).btree == *old(self).btree,
            r matches Some(item) ==> {
                &&& Some(*item) == old(self).next_one()
                &&& final(self).btree.replaced(old(self).btree, old(self).addr, *final(item))
                &&& final(item).key_rank() == item.key_rank() ==> final(self).wf()
                &&& final(item).key_rank() == item.key_rank() ==> final(self).btree@ == old(self).btree@.insert(item.key_rank(), *final(item))
            },
    {
        self.btree.item_mut(self.addr)
    }

    /// Get the next item, to be changed in place, and move the iterator
    /// to the next position.
    ///
    /// The tree is then the tree with what the reference comes to hold in
    /// the place of the item. As long as that has the key of the item, the
    /// walk can go on.
    pub fn next_item(&mut self) -> (r: Option<&mut T>)
        requires
            old(self).wf(),
        ensures
            *final(final(self).btree) == *final(old(self).btree),
            r is Some <==> old(self).next_one() is Some,
            r is None ==> {
                &&& *final(self).btree == *old(self).btree
                &&& final(self).addr == old(self).addr
                &&& final(self).len == old(self).len
            },
            r matches Some(item) ==> {
                &&& Some(*item) == old(self).next_one()
                &&& final(self).btree.replaced(old(self).btree, old(self).addr, *final(item))
                &&& final(self).len == (if old(self).len > 0 {
                    old(self).len - 1
                } else {
                    0
                })
                &&& old(self).btree.addressable(final(self).addr)
                &&& old(self).btree.target_of(final(self).addr) is Some ==> old(self).btree.is_item_address(final(self).addr)
                &&& old(self).btree.is_next_rank(
                    item.key_rank(),
                    old(self).btree.target_of(final(self).addr),
                )
                &&& final(item).key_rank() == item.key_rank() ==> final(self).wf()
                &&& final(item).key_rank() == item.key_rank() ==> final(self).btree@ == old(self).btree@.insert(item.key_rank(), *final(item))
            },
    {
        let addr = self.addr;
        if self.btree.is_empty() {
            return None;
        }
        proof {
            assert(self.btree.node_ok(addr.id, None));
        }
        let after_addr = self.btree.next_item_or_back_address(addr);
        if self.btree.item(addr).is_some() {
            if self.len > 0 {
                self.len -= 1;
            }
            proof {
                let a = after_addr.unwrap();
                assert(self.btree.node_ok(a.id, None));
                if !self.btree.is_item_address(a) {
                    self.btree.lemma_bounds_indexed(None, a.id);
                    let k = self.btree.rank_at(addr);
                    assert(self.btree.covers(addr.id, k));
                    if self.btree.high(a.id) is Some {
                        assert(self.btree.above(Some(k), self.btree.high(a.id).unwrap()));
                    }
                }
            }
            self.addr = after_addr.unwrap();
            self.btree.item_mut(addr)
        } else {
            None
        }
    }

    /// Insert a new item in the map before the next item, whose key is
    /// greater than the keys of the items before the place of the iterator
    /// and less than the key of the next item. The iterator goes on from
    /// after the new item: the next item is the one that was next.
    pub fn insert(&mut self, item: T)
        requires
            old(self).wf(),
            old(self).btree.len < usize::MAX,
            old(self).len < usize::MAX,
            old(self).btree.belongs_before(old(self).addr, item.key_rank()),
        ensures
            final(self).wf(),
            *final(final(self).btree) == *final(old(self).btree),
            final(self).btree@ == old(self).btree@.insert(item.key_rank(), item),
            !old(self).btree@.dom().contains(item.key_rank()),
            final(self).btree.is_next_rank(
                item.key_rank(),
                final(self).btree.target_of(final(self).addr),
            ),
            final(self).btree.target_of(final(self).addr) == old(self).btree.target_of(
                old(self).addr,
            ),
            final(self).len == old(self).len + 1,
    {
        proof {
            self.btree.lemma_empty();
            if self.btree.root is Some {
                self.btree.lemma_fits_at(self.addr, item.key_rank());
                assert(self.btree.node_ok(self.addr.id, None));
                self.btree.lemma_bounds_indexed(None, self.addr.id);
            }
        }
        let ghost k = item.key_rank();
        let ghost before = *self.btree;
        let ghost target = self.btree.target_of(self.addr);
        let addr = self.btree.insert_at(self.addr, item);
        proof {
            assert(self.btree.node_ok(addr.id, None));
        }
        let after = self.btree.next_item_or_back_address(addr).unwrap();
        proof {
            assert(self.btree.node_ok(after.id, None));
            if !self.btree.is_item_address(after) {
                self.btree.lemma_bounds_indexed(None, after.id);
                let k = self.btree.rank_at(addr);
                assert(self.btree.covers(addr.id, k));
                if self.btree.high(after.id) is Some {
                    assert(self.btree.above(Some(k), self.btree.high(after.id).unwrap()));
                }
            }
        }
        self.addr = after;
        self.len += 1;
        proof {
            let now = self.btree.target_of(after);
            match target {
                Some(t) => {
                    assert(before@.dom().contains(t));
                    assert(self.btree.above(Some(k), t));
                    match now {
                        Some(x) => {
                            assert(self.btree.above(Some(k), x));
                            assert(before@.dom().contains(x));
                        },
                        None => {},
                    }
                },
                None => {
                    match now {
                        Some(x) => {
                            assert(self.btree.above(Some(k), x));
                            assert(before@.dom().contains(x));
                        },
                        None => {},
                    }
                },
            }
        }
    }

    /// Remove the next item and return it. The iterator then stands at the
    /// item that came after it, if there is one.
    pub fn remove(&mut self) -> (r: Option<T>)
        requires
            old(self).wf(),
        ensures
            final(self).wf(),
            *final(final(self).btree) == *final(old(self).btree),
            r is Some <==> old(self).btree.is_item_address(old(self).addr),
            r matches Some(item) ==> {
                &&& item == old(self).btree.item_at(old(self).addr)
                &&& final(self).btree@ == old(self).btree@.remove(item.key_rank())
                &&& old(self).btree.is_next_rank(
                    item.key_rank(),
                    final(self).btree.target_of(final(self).addr),
                )
                &&& final(self).btree.target_of(final(self).addr) is Some ==> final(self).btree.is_item_address(final(self).addr)
            },
            r is None ==> *final(self).btree == *old(self).btree && final(self).addr == old(self).addr,
    {
        match self.btree.remove_at(self.addr) {
            Some((item, addr)) => {
                if self.len > 0 {
                    self.len -= 1;
                }
                self.addr = addr;
                if !addr.is_nowhere() {
                    proof {
                        self.btree.lemma_empty();
                        assert(self.btree.node_ok(addr.id, None));
                    }
                    if let Some(next) = self.btree.normalize(addr) {
                        proof {
                            assert(self.btree.node_ok(next.id, None));
                        }
                        self.addr = next;
                    }
                }
                Some(item)
            },
            None => None,
        }
    }
}

impl<T: KeyOrd, A: Arena<Reference<T>>> Storage<T, A> {
    /// The address of the first item of the tree, or nowhere in an empty
    /// tree.
    pub open spec fn leftmost_address(&self) -> Address {
        if self.root is None {
            Address::nowhere()
        } else {
            Address { id: self.leftmost_leaf(self.root.unwrap()), offset: super::node::Offset(0) }
        }
    }
}

} // verus!
