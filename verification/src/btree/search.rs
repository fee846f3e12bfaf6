//! Lookup of an item and of the address of a key.
use vstd::prelude::*;
use super::node::{node_offset_of, Address, Offset, Reference};
use super::{KeyOrd, KeyPartialOrd};
use crate::slab::{Arena, Slab, Storage};

verus! {

impl<T: KeyOrd, A: Arena<Reference<T>>> Default for Storage<T, A> {
    /// An empty tree.
    fn default() -> (r: Self)
        ensures
            r.wf(),
            r@ == Map::<int, T>::empty(),
            r.root is None,
    {
        Storage::new()
    }
}

impl<T: KeyOrd, A: Arena<Reference<T>>> Storage<T, A> {
    /// What a search for a rank answers: `Ok` with the address of the item
    /// of that rank, or `Err` with the place in a leaf where an item of
    /// that rank would be inserted; that is nowhere in an empty tree.
    pub open spec fn address_of_rank(&self, k: int, r: Result<Address, Address>) -> bool {
        match r {
            Ok(addr) => self.is_item_address(addr) && self.rank_at(addr) == k,
            Err(addr) => {
                &&& !self@.dom().contains(k)
                &&& (if self.root is None {
                    addr == Address::nowhere()
                } else {
                    &&& self.is_back_address(addr)
                    &&& self.node_at(addr.id).is_leaf_node()
                    &&& self.covers(addr.id, k)
                    &&& forall|i: int|
                        0 <= i < addr.offset.as_int() ==> (#[trigger] self.items_at(
                            addr.id,
                        )[i]).key_rank() < k
                    &&& forall|i: int|
                        addr.offset.as_int() <= i < self.items_at(addr.id).len() ==> (
                        #[trigger] self.items_at(addr.id)[i]).key_rank() > k
                })
            },
        }
    }

    /// An empty tree.
    pub fn new() -> (r: Self)
        ensures
            r.wf(),
            r@ == Map::<int, T>::empty(),
            r.root is None,
    {
        let r = Storage {
            nodes: A::new(),
            item: core::marker::PhantomData,
            root: None,
            len: 0,
            ids: Ghost(Seq::empty()),
            heights: Ghost(Map::empty()),
            places: Ghost(Map::empty()),
            lows: Ghost(Map::empty()),
            highs: Ghost(Map::empty()),
        };
        proof {
            assert(r.ids@.len() == 0);
            assert(r.content() =~= vstd::multiset::Multiset::<T>::empty());
            super::content::lemma_index_is(r.content(), Map::<int, T>::empty());
        }
        r
    }

    /// Get the root node id.
    ///
    /// Returns `None` if the tree is empty.
    pub fn root(&self) -> (r: Option<usize>)
        ensures
            r == self.root,
    {
        self.root
    }

    /// Returns the number of items in the B-Tree.
    pub fn len(&self) -> (r: usize)
        ensures
            r == self.len,
            self.wf() ==> r == self@.dom().len(),
    {
        self.len
    }

    /// Returns `true` if the map contains no elements.
    pub fn is_empty(&self) -> (r: bool)
        ensures
            r == self.root.is_none(),
            self.wf() ==> r == (self@.dom().len() == 0),
    {
        proof {
            if self.wf() {
                self.lemma_empty();
            }
        }
        self.root.is_none()
    }

    /// A tree has no root if and only if it has no item.
    pub proof fn lemma_empty(&self)
        requires
            self.wf(),
        ensures
            self.root.is_none() <==> self.len == 0,
            self.root.is_none() <==> self@ == Map::<int, T>::empty(),
    {
        match self.root {
            Some(r) => {
                assert(self.node_ok(r, None));
                assert(self@.dom().contains(self.items_at(r)[0].key_rank()));
                if self.len == 0 {
                    assert(self@.dom().len() == 0);
                    assert(self@.dom() =~= Set::empty());
                }
            },
            None => {
                if self.ids@.len() > 0 {
                    assert(self.ids@.contains(self.ids@[0]));
                    assert(self.has(self.ids@[0]));
                }
                assert(self.len == 0);
                assert(self@.dom() =~= Set::empty());
                assert(self@ =~= Map::<int, T>::empty());
            },
        }
    }

    /// Returns the node with the given id, if any.
    pub fn node(&self, id: usize) -> (r: Option<&Reference<T>>)
        ensures
            r == (if self.has(id) {
                Some(&self.node_at(id))
            } else {
                None
            }),
    {
        self.nodes.get(id)
    }

    /// Returns a reference to the item identified by the supplied key.
    pub fn get<Q>(&self, key: &Q) -> (r: Option<&T>) where T: KeyPartialOrd<Q>
        requires
            self.wf(),
        ensures
            r == (if self@.dom().contains(T::probe_rank(key)) {
                Some(&self@[T::probe_rank(key)])
            } else {
                None
            }),
            r matches Some(item) ==> self.lookup(T::probe_rank(key)) == Some(*item),
            r is None ==> self.lookup(T::probe_rank(key)).is_none(),
    {
        match self.root {
            Some(id) => {
                self.get_in(key, id)
            },
            None => {
                proof {
                    self.lemma_empty();
                }
                None
            },
        }
    }

    /// Returns a reference to the item associated to the given `key` in the node `id`
    /// or under it, if any.
    pub fn get_in<Q>(&self, key: &Q, id: usize) -> (r: Option<&T>) where T: KeyPartialOrd<Q>
        requires
            self.wf(),
            self.has(id),
            self.covers(id, T::probe_rank(key)),
        ensures
            r == (if self@.dom().contains(T::probe_rank(key)) {
                Some(&self@[T::probe_rank(key)])
            } else {
                None
            }),
    {
        match self.address_in(id, key) {
            Ok(addr) => {
                proof {
                    assert(self.node_ok(addr.id, None));
                }
                self.item(addr)
            },
            Err(_) => None,
        }
    }

    /// Returns a reference to the item at the given address, if any.
    pub fn item(&self, addr: Address) -> (r: Option<&T>)
        ensures
            r == (if self.is_item_address(addr) {
                Some(&self.item_at(addr))
            } else {
                None
            }),
    {
        match self.node(addr.id) {
            Some(node) => node.item(addr.offset),
            None => None,
        }
    }

    /// Returns a reference to the first item in the tree.
    pub fn first_item(&self) -> (r: Option<&T>)
        requires
            self.wf(),
        ensures
            r is None <==> self.root is None,
            r matches Some(item) ==> {
                &&& self@.dom().contains(item.key_rank())
                &&& self@[item.key_rank()] == *item
                &&& self.is_greatest_below(Some(item.key_rank()), None)
            },
    {
        match self.first_item_address() {
            Some(addr) => {
                proof {
                    assert(self.node_ok(addr.id, None));
                }
                self.item(addr)
            },
            None => None,
        }
    }

    /// Returns a reference to the last item in the tree.
    pub fn last_item(&self) -> (r: Option<&T>)
        requires
            self.wf(),
        ensures
            r is None <==> self.root is None,
            r matches Some(item) ==> {
                &&& self@.dom().contains(item.key_rank())
                &&& self@[item.key_rank()] == *item
                &&& self.is_least_above(Some(item.key_rank()), None)
            },
    {
        match self.last_item_address() {
            Some(addr) => {
                proof {
                    assert(self.node_ok(addr.id, None));
                }
                self.item(addr)
            },
            None => None,
        }
    }

    /// Get the address of the given key.
    ///
    /// Returns `Ok(addr)` if the key is used in the tree.
    /// If the key is not used in the tree then `Err(addr)` is returned,
    /// where `addr` can be used to insert the missing key.
    pub fn address_of<Q>(&self, key: &Q) -> (r: Result<Address, Address>) where T: KeyPartialOrd<Q>
        requires
            self.wf(),
        ensures
            self.address_of_rank(T::probe_rank(key), r),
    {
        match self.root {
            Some(id) => self.address_in(id, key),
            None => {
                proof {
                    self.lemma_empty();
                }
                Err(Address::nowhere())
            },
        }
    }

    /// Get the address of the given key in the node `id` or under it.
    pub fn address_in<Q>(&self, id: usize, key: &Q) -> (r: Result<Address, Address>) where
        T: KeyPartialOrd<Q>,

        requires
            self.wf(),
            self.has(id),
            self.covers(id, T::probe_rank(key)),
        ensures
            self.address_of_rank(T::probe_rank(key), r),
    {
        let mut id = id;
        loop
            invariant
                self.wf(),
                self.has(id),
                self.covers(id, T::probe_rank(key)),
            decreases self.height(id),
        {
            proof {
                assert(self.node_ok(id, None));
            }
            let node = self.node(id).unwrap();
            match node.offset_of(key) {
                Ok(offset) => {
                    return Ok(Address { id, offset });
                },
                Err((offset, None)) => {
                    proof {
                        self.lemma_leaf_miss(None, id, T::probe_rank(key));
                    }
                    return Err(Address::new(id, Offset::new(offset)));
                },
                Err((index, Some(child_id))) => {
                    proof {
                        assert(self.kid_ok(id, index as int));
                    }
                    id = child_id;
                },
            }
        }
    }
}

} // verus!
