//! Iterators over the items of a tree, and over those in a range of keys.
use vstd::prelude::*;
use super::node::Address;
use super::{Comparison, KeyOrd, KeyPartialOrd};
use crate::slab::{Arena, Slab, Storage};
use crate::btree::node::Reference;

verus! {

/// B-Tree items iterator: from both ends, the items of a tree in the order
/// of their keys.
pub struct Iter<'a, T, A = Slab<Reference<T>>> {
    /// BTree reference.
    pub storage: &'a Storage<T, A>,
    /// Address of the next item.
    pub addr: Option<Address>,
    /// Address of the item that was given last from the back.
    pub end: Option<Address>,
    /// Number of items left to iterate.
    pub len: usize,
    /// The rank of the item that was given last from the front.
    pub floor: Ghost<Option<int>>,
    /// The rank of the item that was given last from the back.
    pub ceiling: Ghost<Option<int>>,
}

impl<'a, T: KeyOrd, A: Arena<Reference<T>>> Iter<'a, T, A> {
    /// The ranks of the items that are left to iterate: those of the tree
    /// between the last one given from the front and the last one given
    /// from the back.
    pub open spec fn remaining(&self) -> Set<int> {
        Set::new(
            |q: int| self.storage.above(self.floor@, q) && self.storage.below(self.ceiling@, q),
        )
    }

    /// The iterator stands at the first of the items that are left, and
    /// knows how many they are.
    pub open spec fn wf(&self) -> bool {
        &&& self.storage.wf()
        &&& self.remaining().finite()
        &&& self.len == self.remaining().len()
        &&& match self.addr {
            Some(a) => self.storage.is_item_address(a) && self.storage.is_least_above(
                self.floor@,
                Some(self.storage.rank_at(a)),
            ),
            None => self.storage.is_least_above(self.floor@, None),
        }
        &&& match self.end {
            Some(e) => self.storage.is_item_address(e) && self.ceiling@ == Some(
                self.storage.rank_at(e),
            ),
            None => self.ceiling@.is_none(),
        }
    }

    /// An iterator over all the items of the tree.
    pub fn new(storage: &'a Storage<T, A>) -> (r: Self)
        requires
            storage.wf(),
        ensures
            r.wf(),
            r.storage == storage,
            r.remaining() == storage@.dom(),
            r.floor@.is_none(),
            r.ceiling@.is_none(),
    {
        let addr = storage.first_item_address();
        let len = storage.len();
        let r = Iter { storage, addr, end: None, len, floor: Ghost(None), ceiling: Ghost(None) };
        proof {
            assert(r.remaining() =~= storage@.dom());
            match addr {
                Some(a) => {
                    assert(storage.node_ok(a.id, None));
                    assert forall|q: int| #[trigger] storage.above(None, q) implies storage.rank_at(
                        a,
                    ) <= q by {
                        if q < storage.rank_at(a) {
                            assert(storage.below(Some(storage.rank_at(a)), q));
                        }
                    }
                },
                None => {
                    storage.lemma_empty();
                    assert forall|q: int| !#[trigger] storage.above(None, q) by {}
                },
            }
        }
        r
    }

    /// The number of items that are left, as both bounds of their number.
    pub fn size_hint(&self) -> (r: (usize, Option<usize>))
        ensures
            r == (self.len, Some(self.len)),
    {
        (self.len, Some(self.len))
    }

    /// The first of the items that are left, if any.
    pub fn next(&mut self) -> (r: Option<&'a T>)
        requires
            old(self).wf(),
        ensures
            final(self).wf(),
            final(self).storage == old(self).storage,
            final(self).end == old(self).end,
            final(self).ceiling == old(self).ceiling,
            r matches Some(item) ==> old(self).addr matches Some(a) && old(self).storage.is_item_address(a) && *item == old(self).storage.item_at(a),
            final(self).floor@ == (match r {
                Some(item) => Some(item.key_rank()),
                None => old(self).floor@,
            }),
            match r {
                Some(item) => {
                    &&& old(self).remaining().contains(item.key_rank())
                    &&& *item == old(self).storage@[item.key_rank()]
                    &&& forall|q: int| old(self).remaining().contains(q) ==> item.key_rank() <= q
                    &&& final(self).remaining() == old(self).remaining().remove(item.key_rank())
                },
                None => old(self).remaining().len() == 0 && final(self).remaining() == old(self).remaining(),
            },
    {
        match self.addr {
            Some(addr) => {
                if self.len > 0 {
                    let ghost k = self.storage.rank_at(addr);
                    proof {
                        assert(self.storage.node_ok(addr.id, None));
                        self.lemma_front(addr);
                    }
                    self.len -= 1;
                    let item = self.storage.item(addr).unwrap();
                    self.addr = self.storage.next_item_address(addr);
                    proof {
                        self.floor = Ghost(Some(k));
                        assert(self.remaining() =~= old(self).remaining().remove(k));
                    }
                    Some(item)
                } else {
                    None
                }
            },
            None => {
                proof {
                    assert(self.remaining() =~= Set::empty());
                }
                None
            },
        }
    }

    /// With items left, the iterator stands at the one of least rank.
    pub proof fn lemma_front(&self, addr: Address)
        requires
            self.wf(),
            self.len > 0,
            self.addr == Some(addr),
        ensures
            self.remaining().contains(self.storage.rank_at(addr)),
            forall|q: int| self.remaining().contains(q) ==> self.storage.rank_at(addr) <= q,
    {
        let k = self.storage.rank_at(addr);
        assert(self.remaining().len() > 0);
        let q = self.remaining().choose();
        assert(self.remaining().contains(q));
        assert(self.storage.above(self.floor@, q));
        assert forall|q: int| self.remaining().contains(q) implies k <= q by {
            assert(self.storage.above(self.floor@, q));
        }
    }

    /// The last of the items that are left, if any.
    pub fn next_back(&mut self) -> (r: Option<&'a T>)
        requires
            old(self).wf(),
        ensures
            final(self).wf(),
            final(self).storage == old(self).storage,
            final(self).addr == old(self).addr,
            final(self).floor == old(self).floor,
            r matches Some(item) ==> final(self).end matches Some(e) && old(self).storage.is_item_address(e) && *item == old(self).storage.item_at(e),
            final(self).ceiling@ == (match r {
                Some(item) => Some(item.key_rank()),
                None => old(self).ceiling@,
            }),
            match r {
                Some(item) => {
                    &&& old(self).remaining().contains(item.key_rank())
                    &&& *item == old(self).storage@[item.key_rank()]
                    &&& forall|q: int| old(self).remaining().contains(q) ==> q <= item.key_rank()
                    &&& final(self).remaining() == old(self).remaining().remove(item.key_rank())
                },
                None => old(self).remaining().len() == 0 && final(self).remaining() == old(self).remaining(),
            },
    {
        if self.len > 0 {
            proof {
                assert(self.remaining().len() > 0);
                let q = self.remaining().choose();
                assert(self.remaining().contains(q));
                assert(self.storage.below(self.ceiling@, q));
                assert(self.storage.above(self.floor@, q));
                self.storage.lemma_empty();
            }
            let found = match self.end {
                Some(addr) => {
                    proof {
                        assert(self.storage.node_ok(addr.id, None));
                    }
                    self.storage.previous_item_address(addr)
                },
                None => {
                    let last = self.storage.last_item_address();
                    proof {
                        assert(self.storage.node_ok(last.unwrap().id, None));
                        let p = self.storage.rank_at(last.unwrap());
                        assert(self.storage.below(None, p));
                        assert forall|q: int| #[trigger] self.storage.below(None, q) implies q
                            <= p by {
                            if q > p {
                                assert(self.storage.above(Some(p), q));
                            }
                        }
                    }
                    last
                },
            };
            let addr = found.unwrap();
            let ghost p = self.storage.rank_at(addr);
            proof {
                assert(self.storage.node_ok(addr.id, None));
                assert(self.storage.is_greatest_below(self.ceiling@, Some(p)));
                let q = self.remaining().choose();
                assert(self.storage.below(self.ceiling@, q));
                assert(self.remaining().contains(p));
                assert forall|q: int| self.remaining().contains(q) implies q <= p by {
                    assert(self.storage.below(self.ceiling@, q));
                }
            }
            self.len -= 1;
            let item = self.storage.item(addr).unwrap();
            self.end = Some(addr);
            proof {
                self.ceiling = Ghost(Some(p));
                assert(self.remaining() =~= old(self).remaining().remove(p));
            }
            Some(item)
        } else {
            None
        }
    }

    /// All the items that are left, in the order of their keys.
    pub fn collect(self) -> (r: Vec<&'a T>)
        requires
            self.wf(),
        ensures
            r@.len() == self.remaining().len(),
            forall|i: int|
                0 <= i < r@.len() ==> self.remaining().contains((#[trigger] r@[i]).key_rank())
                    && *r@[i] == self.storage@[r@[i].key_rank()],
            forall|i: int, j: int|
                0 <= i < j < r@.len() ==> (#[trigger] r@[i]).key_rank() < (
                #[trigger] r@[j]).key_rank(),
    {
        let mut it = self;
        let mut r: Vec<&'a T> = Vec::new();
        loop
            invariant
                it.wf(),
                it.storage == self.storage,
                r@.len() + it.remaining().len() == self.remaining().len(),
                it.remaining().subset_of(self.remaining()),
                forall|i: int|
                    0 <= i < r@.len() ==> self.remaining().contains((#[trigger] r@[i]).key_rank())
                        && *r@[i] == self.storage@[r@[i].key_rank()] && !it.remaining().contains(
                        r@[i].key_rank(),
                    ),
                forall|i: int, q: int|
                    0 <= i < r@.len() && #[trigger] it.remaining().contains(q) ==> (
                    #[trigger] r@[i]).key_rank() < q,
                forall|i: int, j: int|
                    0 <= i < j < r@.len() ==> (#[trigger] r@[i]).key_rank() < (
                    #[trigger] r@[j]).key_rank(),
            decreases it.remaining().len(),
        {
            match it.next() {
                Some(item) => {
                    r.push(item);
                },
                None => {
                    return r;
                },
            }
        }
    }
}

/// An endpoint of a range of keys.
pub enum Bound<Q> {
    /// The range goes as far as the key, which it holds.
    Included(Q),
    /// The range goes as far as the key, which it does not hold.
    Excluded(Q),
    /// The range has no end on this side.
    Unbounded,
}

/// The rank below all those of a range that starts at the bound.
pub open spec fn floor_of<T: KeyPartialOrd<Q>, Q>(start: Bound<&Q>) -> Option<int> {
    match start {
        Bound::Included(s) => Some(T::probe_rank(s) - 1),
        Bound::Excluded(s) => Some(T::probe_rank(s)),
        Bound::Unbounded => None,
    }
}

/// The rank above all those of a range that ends at the bound.
pub open spec fn ceiling_of<T: KeyPartialOrd<Q>, Q>(end: Bound<&Q>) -> Option<int> {
    match end {
        Bound::Included(e) => Some(T::probe_rank(e) + 1),
        Bound::Excluded(e) => Some(T::probe_rank(e)),
        Bound::Unbounded => None,
    }
}

/// The range has a rank between its two ends: it does not start after its
/// end, nor at its end where it holds neither.
pub open spec fn valid_range(floor: Option<int>, ceiling: Option<int>) -> bool {
    floor matches Some(f) ==> (ceiling matches Some(c) ==> f < c)
}

/// The range between the two bounds does not start after its end, nor at
/// its end where it holds neither.
pub open spec fn valid_bounds<T: KeyPartialOrd<Q>, Q>(start: Bound<&Q>, end: Bound<&Q>) -> bool {
    match (start, end) {
        (Bound::Included(s), Bound::Included(e)) => T::probe_rank(s) <= T::probe_rank(e),
        (Bound::Included(s), Bound::Excluded(e)) => T::probe_rank(s) <= T::probe_rank(e),
        (Bound::Excluded(s), Bound::Included(e)) => T::probe_rank(s) <= T::probe_rank(e),
        (Bound::Excluded(s), Bound::Excluded(e)) => T::probe_rank(s) < T::probe_rank(e),
        _ => true,
    }
}

/// `true` if the range does not start after its end, nor at its end where
/// it holds neither.
pub fn is_valid_range<T, Q>(start: Bound<&Q>, end: Bound<&Q>) -> (r: bool) where
    T: KeyPartialOrd<Q>,
    Q: KeyOrd,

    requires
        start matches Bound::Included(s) ==> T::probe_rank(s) == s.key_rank(),
        start matches Bound::Excluded(s) ==> T::probe_rank(s) == s.key_rank(),
        end matches Bound::Included(e) ==> T::probe_rank(e) == e.key_rank(),
        end matches Bound::Excluded(e) ==> T::probe_rank(e) == e.key_rank(),
    ensures
        r == valid_bounds::<T, Q>(start, end),
        r ==> valid_range(floor_of::<T, Q>(start), ceiling_of::<T, Q>(end)),
{
    match (start, end) {
        (Bound::Included(start), Bound::Included(end)) => !(start.key_order(end)
            == Comparison::Greater),
        (Bound::Included(start), Bound::Excluded(end)) => !(start.key_order(end)
            == Comparison::Greater),
        (Bound::Included(_), Bound::Unbounded) => true,
        (Bound::Excluded(start), Bound::Included(end)) => !(start.key_order(end)
            == Comparison::Greater),
        (Bound::Excluded(start), Bound::Excluded(end)) => start.key_order(end) == Comparison::Less,
        (Bound::Excluded(_), Bound::Unbounded) => true,
        (Bound::Unbounded, _) => true,
    }
}

/// Range iterator: the items of a tree with keys in a range, in the order
/// of their keys.
pub struct Range<'a, T, A = Slab<Reference<T>>> {
    /// The tree reference.
    pub btree: &'a Storage<T, A>,
    /// Address of the next item, if there is one.
    pub addr: Option<Address>,
    /// Address of the first item after the range, if there is one.
    pub end: Option<Address>,
    /// The rank below all those of the items that are left.
    pub floor: Ghost<Option<int>>,
    /// The rank above all those of the range.
    pub ceiling: Ghost<Option<int>>,
}

impl<'a, T: KeyOrd, A: Arena<Reference<T>>> Range<'a, T, A> {
    /// The ranks of the items that are left to iterate: those of the tree
    /// in the range, above the last one given.
    pub open spec fn remaining(&self) -> Set<int> {
        Set::new(|q: int| self.btree.above(self.floor@, q) && self.btree.below(self.ceiling@, q))
    }

    /// The iterator stands at the first item of the tree above its floor,
    /// and knows the first item that is not under its ceiling.
    pub open spec fn wf(&self) -> bool {
        &&& self.btree.wf()
        &&& valid_range(self.floor@, self.ceiling@)
        &&& self.btree.addresses(self.addr, self.floor@)
        &&& match self.ceiling@ {
            Some(c) => self.btree.addresses(self.end, Some(c - 1)),
            None => self.end.is_none(),
        }
    }

    /// The rank is in the range between the two bounds.
    pub open spec fn in_range<Q>(rank: int, start: Bound<&Q>, end: Bound<&Q>) -> bool where
        T: KeyPartialOrd<Q>,
     {
        &&& match start {
            Bound::Included(s) => T::probe_rank(s) <= rank,
            Bound::Excluded(s) => T::probe_rank(s) < rank,
            Bound::Unbounded => true,
        }
        &&& match end {
            Bound::Included(e) => rank <= T::probe_rank(e),
            Bound::Excluded(e) => rank < T::probe_rank(e),
            Bound::Unbounded => true,
        }
    }

    /// An iterator over the items of the tree with a key in the range that
    /// goes from `start` to `end`, which does not start after its end.
    pub fn new<Q>(btree: &'a Storage<T, A>, start: Bound<&Q>, end: Bound<&Q>) -> (r: Self) where
        T: KeyPartialOrd<Q>,

        requires
            btree.wf(),
            valid_bounds::<T, Q>(start, end),
        ensures
            r.wf(),
            r.btree == btree,
            r.floor@ == floor_of::<T, Q>(start),
            r.ceiling@ == ceiling_of::<T, Q>(end),
            forall|q: int|
                r.remaining().contains(q) <==> btree@.dom().contains(q) && Self::in_range(
                    q,
                    start,
                    end,
                ),
    {
        let addr = match start {
            Bound::Included(start) => btree.first_address_from(start, true),
            Bound::Excluded(start) => btree.first_address_from(start, false),
            Bound::Unbounded => {
                let first = btree.first_item_address();
                proof {
                    btree.lemma_first(first);
                }
                first
            },
        };
        let end_addr = match end {
            Bound::Included(end) => btree.first_address_from(end, false),
            Bound::Excluded(end) => btree.first_address_from(end, true),
            Bound::Unbounded => None,
        };
        Range {
            btree,
            addr,
            end: end_addr,
            floor: Ghost(floor_of::<T, Q>(start)),
            ceiling: Ghost(ceiling_of::<T, Q>(end)),
        }
    }

    /// The first of the items that are left, if any.
    pub fn next(&mut self) -> (r: Option<&'a T>)
        requires
            old(self).wf(),
        ensures
            final(self).wf(),
            final(self).btree == old(self).btree,
            final(self).end == old(self).end,
            final(self).ceiling == old(self).ceiling,
            r matches Some(item) ==> old(self).addr matches Some(a) && old(self).btree.is_item_address(a) && *item == old(self).btree.item_at(a),
            match r {
                Some(item) => {
                    &&& old(self).remaining().contains(item.key_rank())
                    &&& *item == old(self).btree@[item.key_rank()]
                    &&& forall|q: int| old(self).remaining().contains(q) ==> item.key_rank() <= q
                    &&& final(self).remaining() == old(self).remaining().remove(item.key_rank())
                },
                None => old(self).remaining() == Set::<int>::empty() && final(self).remaining()
                    == old(self).remaining(),
            },
    {
        let same = match (self.addr, self.end) {
            (Some(a), Some(e)) => a.id == e.id && a.offset.0 == e.offset.0,
            (None, None) => true,
            _ => false,
        };
        proof {
            self.btree.lemma_stop(self.addr, self.end, self.floor@, self.ceiling@);
        }
        if !same {
            let addr = self.addr.unwrap();
            let ghost k = self.btree.rank_at(addr);
            proof {
                assert(self.btree.node_ok(addr.id, None));
                assert forall|q: int| self.remaining().contains(q) implies k <= q by {
                    assert(self.btree.above(self.floor@, q));
                }
            }
            let item = self.btree.item(addr).unwrap();
            self.addr = self.btree.next_item_address(addr);
            proof {
                self.floor = Ghost(Some(k));
                assert(self.remaining() =~= old(self).remaining().remove(k));
            }
            Some(item)
        } else {
            proof {
                assert(self.remaining() =~= Set::<int>::empty());
            }
            None
        }
    }
}

impl<'a, T: KeyOrd, A: Arena<Reference<T>>> Range<'a, T, A> {
    /// The last of the items that are left, if any.
    pub fn next_back(&mut self) -> (r: Option<&'a T>)
        requires
            old(self).wf(),
        ensures
            final(self).wf(),
            final(self).btree == old(self).btree,
            final(self).addr == old(self).addr,
            final(self).floor == old(self).floor,
            r matches Some(item) ==> final(self).end matches Some(e) && old(self).btree.is_item_address(e) && *item == old(self).btree.item_at(e),
            match r {
                Some(item) => {
                    &&& old(self).remaining().contains(item.key_rank())
                    &&& *item == old(self).btree@[item.key_rank()]
                    &&& forall|q: int| old(self).remaining().contains(q) ==> q <= item.key_rank()
                    &&& final(self).remaining() == old(self).remaining().remove(item.key_rank())
                },
                None => old(self).remaining() == Set::<int>::empty() && final(self).remaining()
                    == old(self).remaining(),
            },
    {
        let same = match (self.addr, self.end) {
            (Some(a), Some(e)) => a.id == e.id && a.offset.0 == e.offset.0,
            (None, None) => true,
            _ => false,
        };
        proof {
            self.btree.lemma_stop(self.addr, self.end, self.floor@, self.ceiling@);
        }
        if !same {
            let ghost first = self.btree.rank_at(self.addr.unwrap());
            proof {
                assert(self.btree.node_ok(self.addr.unwrap().id, None));
                self.btree.lemma_empty();
            }
            let found = match self.end {
                Some(e) => {
                    proof {
                        assert(self.btree.node_ok(e.id, None));
                    }
                    self.btree.previous_item_address(e)
                },
                None => {
                    let last = self.btree.last_item_address();
                    proof {
                        assert(self.btree.node_ok(last.unwrap().id, None));
                        let p = self.btree.rank_at(last.unwrap());
                        assert(self.btree.below(None, p));
                        assert forall|q: int| #[trigger] self.btree.below(None, q) implies q
                            <= p by {
                            if q > p {
                                assert(self.btree.above(Some(p), q));
                            }
                        }
                    }
                    last
                },
            };
            proof {
                // what comes before the end is under the ceiling
                match self.end {
                    Some(e) => {
                        let c = self.ceiling@.unwrap();
                        assert(self.btree.below(Some(self.btree.rank_at(e)), first)) by {
                            assert(self.btree.above(Some(c - 1), self.btree.rank_at(e)));
                        }
                    },
                    None => {
                        assert(self.btree.below(None, first));
                    },
                }
            }
            let addr = found.unwrap();
            let ghost p = self.btree.rank_at(addr);
            proof {
                assert(self.btree.node_ok(addr.id, None));
                assert(first <= p);
                assert(self.btree.below(self.ceiling@, p)) by {
                    if self.ceiling@ is Some && p >= self.ceiling@.unwrap() {
                        assert(self.btree.above(Some(self.ceiling@.unwrap() - 1), p));
                    }
                }
                assert forall|q: int| self.remaining().contains(q) implies q <= p by {
                    match self.end {
                        Some(e) => {
                            assert(self.btree.above(
                                Some(self.ceiling@.unwrap() - 1),
                                self.btree.rank_at(e),
                            ));
                            assert(self.btree.below(Some(self.btree.rank_at(e)), q));
                        },
                        None => {
                            assert(self.btree.below(None, q));
                        },
                    }
                }
            }
            let item = self.btree.item(addr).unwrap();
            self.end = Some(addr);
            proof {
                self.ceiling = Ghost(Some(p));
                assert(self.remaining() =~= old(self).remaining().remove(p));
                assert(self.btree.above(Some(p - 1), p));
                assert(self.btree.above(self.floor@, first));
            }
            Some(item)
        } else {
            proof {
                assert(self.remaining() =~= Set::<int>::empty());
            }
            None
        }
    }
}

impl<T: KeyOrd, A: Arena<Reference<T>>> Storage<T, A> {
    /// The address is that of the item of least rank above `floor`, or
    /// nothing where there is no such item.
    pub open spec fn addresses(&self, addr: Option<Address>, floor: Option<int>) -> bool {
        match addr {
            Some(a) => self.is_item_address(a) && self.is_least_above(floor, Some(self.rank_at(a))),
            None => self.is_least_above(floor, None),
        }
    }

    /// The first item of the tree has the least rank of all.
    pub proof fn lemma_first(&self, first: Option<Address>)
        requires
            self.wf(),
            first is None <==> self.root is None,
            first matches Some(a) ==> self.is_item_address(a) && self.is_greatest_below(
                Some(self.rank_at(a)),
                None,
            ),
        ensures
            self.addresses(first, None),
    {
        match first {
            Some(a) => {
                assert(self.node_ok(a.id, None));
                assert forall|q: int| #[trigger] self.above(None, q) implies self.rank_at(a)
                    <= q by {
                    if q < self.rank_at(a) {
                        assert(self.below(Some(self.rank_at(a)), q));
                    }
                }
            },
            None => {
                self.lemma_empty();
                assert forall|q: int| !#[trigger] self.above(None, q) by {}
            },
        }
    }

    /// A range iterator whose next item is the first item after the range
    /// has no item left, and one whose next item is another has that item
    /// left.
    pub proof fn lemma_stop(
        &self,
        addr: Option<Address>,
        end: Option<Address>,
        floor: Option<int>,
        ceiling: Option<int>,
    )
        requires
            self.wf(),
            valid_range(floor, ceiling),
            self.addresses(addr, floor),
            match ceiling {
                Some(c) => self.addresses(end, Some(c - 1)),
                None => end.is_none(),
            },
        ensures
            addr == end ==> forall|q: int| !(self.above(floor, q) && self.below(ceiling, q)),
            addr != end ==> addr is Some && self.above(floor, self.rank_at(addr.unwrap()))
                && self.below(ceiling, self.rank_at(addr.unwrap())),
    {
        match addr {
            Some(a) => {
                let k = self.rank_at(a);
                assert(self.node_ok(a.id, None));
                assert(self.above(floor, k));
                match ceiling {
                    Some(c) => {
                        if k >= c {
                            assert(self.above(Some(c - 1), k));
                            let e = end.unwrap();
                            assert(self.node_ok(e.id, None));
                            assert(self.above(floor, self.rank_at(e)));
                            self.lemma_one_address(None, a, e);
                        } else {
                            if end is Some {
                                assert(self.above(Some(c - 1), self.rank_at(end.unwrap())));
                            }
                        }
                        if addr == end {
                            assert forall|q: int|
                                !(self.above(floor, q) && self.below(ceiling, q)) by {
                                if self.above(floor, q) && self.below(ceiling, q) {
                                    assert(k <= q);
                                }
                            }
                        }
                    },
                    None => {},
                }
            },
            None => {
                assert forall|q: int| !(self.above(floor, q) && self.below(ceiling, q)) by {
                    assert(!self.above(floor, q));
                }
                if end is Some {
                    let e = end.unwrap();
                    assert(self.above(floor, self.rank_at(e)));
                }
            },
        }
    }

    /// The address of the first item of the tree from the key on: the
    /// item with that key, if `inclusive`, or else the first item with a
    /// greater key; nothing if there is no such item.
    pub fn first_address_from<Q>(&self, key: &Q, inclusive: bool) -> (r: Option<Address>) where
        T: KeyPartialOrd<Q>,

        requires
            self.wf(),
        ensures
            self.addresses(
                r,
                Some(
                    if inclusive {
                        T::probe_rank(key) - 1
                    } else {
                        T::probe_rank(key)
                    },
                ),
            ),
    {
        let ghost k = T::probe_rank(key);
        match self.address_of(key) {
            Ok(addr) => {
                proof {
                    assert(self.node_ok(addr.id, None));
                }
                if inclusive {
                    proof {
                        assert(self.above(Some(k - 1), k));
                    }
                    Some(addr)
                } else {
                    self.next_item_address(addr)
                }
            },
            Err(addr) => {
                if addr.is_nowhere() {
                    proof {
                        self.lemma_empty();
                    }
                    None
                } else {
                    proof {
                        assert(self.node_ok(addr.id, None));
                        self.lemma_leaf_gap(None, addr.id, addr.offset.as_int());
                        let f = self.floor(addr.id, addr.offset.as_int());
                        let c = self.ceiling(addr.id, addr.offset.as_int());
                        let o = addr.offset.as_int();
                        if o > 0 {
                            assert(self.items_at(addr.id)[o - 1].key_rank() < k);
                        }
                        if o < self.items_at(addr.id).len() {
                            assert(self.items_at(addr.id)[o].key_rank() > k);
                        }
                        let g = Some(
                            if inclusive {
                                k - 1
                            } else {
                                k
                            },
                        );
                        assert forall|q: int| #[trigger] self.above(g, q) implies self.above(
                            f,
                            q,
                        ) by {}
                        match c {
                            Some(n) => {
                                assert(self.above(g, n));
                            },
                            None => {},
                        }
                    }
                    self.normalize(addr)
                }
            },
        }
    }

    /// Gets an iterator over the entries of the map, sorted by key.
    pub fn iter(&self) -> (r: Iter<'_, T, A>)
        requires
            self.wf(),
        ensures
            r.wf(),
            r.storage == self,
            r.remaining() == self@.dom(),
    {
        Iter::new(self)
    }

    /// Constructs a double-ended iterator over a sub-range of elements in the tree: those
    /// with keys from `start` to `end`.
    pub fn range<Q>(&self, start: Bound<&Q>, end: Bound<&Q>) -> (r: Range<'_, T, A>) where
        T: KeyPartialOrd<Q>,

        requires
            self.wf(),
            valid_bounds::<T, Q>(start, end),
        ensures
            r.wf(),
            r.btree == self,
            forall|q: int|
                r.remaining().contains(q) <==> self@.dom().contains(q) && Range::<T>::in_range(
                    q,
                    start,
                    end,
                ),
    {
        Range::new(self, start, end)
    }
}

} // verus!
