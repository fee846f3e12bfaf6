//! Navigation: from an address to the addresses around it.
use vstd::prelude::*;
use super::node::{Address, Offset};
use super::KeyOrd;
use crate::slab::{Arena, Storage};
use crate::btree::node::Reference;

verus! {

impl<T: KeyOrd, A: Arena<Reference<T>>> Storage<T, A> {
    /// The first of the leaves under the node.
    pub open spec fn leftmost_leaf(&self, id: usize) -> usize
        decreases self.height(id),
    {
        if self.has(id) && !self.node_at(id).is_leaf_node() && self.kids_at(id).len() > 0
            && self.height(self.kids_at(id)[0]) < self.height(id) {
            self.leftmost_leaf(self.kids_at(id)[0])
        } else {
            id
        }
    }

    /// The last of the leaves under the node.
    pub open spec fn rightmost_leaf(&self, id: usize) -> usize
        decreases self.height(id),
    {
        if self.has(id) && !self.node_at(id).is_leaf_node() && self.kids_at(id).len() > 0
            && self.height(self.kids_at(id).last()) < self.height(id) {
            self.rightmost_leaf(self.kids_at(id).last())
        } else {
            id
        }
    }

    /// The address is nowhere, or names a node and a place in it from
    /// before its first item to after its last.
    pub open spec fn is_place(&self, addr: Address) -> bool {
        addr.is_nowhere() || (self.has(addr.id) && -1 <= addr.offset.as_int() <= self.items_at(
            addr.id,
        ).len())
    }

    /// The parent of the node and the index of the node among its
    /// children; nothing for the root.
    pub fn parent_slot(&self, id: usize) -> (r: Option<(usize, usize)>)
        requires
            self.wf(),
            self.has(id),
        ensures
            r is None <==> self.root == Some(id),
            r matches Some((p, slot)) ==> {
                &&& self.node_at(id).parent_id() == Some(p)
                &&& slot == self.place(id)
                &&& self.has(p)
                &&& !self.node_at(p).is_leaf_node()
                &&& slot <= self.items_at(p).len()
                &&& self.kids_at(p)[slot as int] == id
                &&& self.kid_ok(p, slot as int)
                &&& self.height(p) == self.height(id) + 1
                &&& self.height(p) <= self.height(self.root.unwrap())
            },
    {
        proof {
            assert(self.node_ok(id, None));
        }
        match self.node(id).unwrap().parent() {
            Some(parent_id) => {
                proof {
                    self.lemma_parent(None, id);
                    self.lemma_kids(None, parent_id);
                    assert(self.node_ok(parent_id, None));
                    assert(self.kids_at(parent_id)[self.place(id)] == id);
                }
                let slot = self.node(parent_id).unwrap().child_index(id).unwrap();
                proof {
                    assert(self.place(self.kids_at(parent_id)[slot as int]) == slot);
                }
                Some((parent_id, slot))
            },
            None => None,
        }
    }

    /// Returns the address of the first item in the tree, if any.
    pub fn first_item_address(&self) -> (r: Option<Address>)
        requires
            self.wf(),
        ensures
            r is None <==> self.root is None,
            r matches Some(a) ==> {
                &&& self.is_item_address(a)
                &&& a == Address { id: self.leftmost_leaf(self.root.unwrap()), offset: Offset(0) }
                &&& self.node_at(a.id).is_leaf_node()
                &&& self.is_greatest_below(Some(self.rank_at(a)), None)
            },
    {
        match self.root {
            Some(root) => {
                let mut id = root;
                loop
                    invariant
                        self.wf(),
                        self.root == Some(root),
                        self.has(id),
                        self.low(id).is_none(),
                        self.leftmost_leaf(id) == self.leftmost_leaf(root),
                    decreases self.height(id),
                {
                    proof {
                        assert(self.node_ok(id, None));
                    }
                    match self.node(id).unwrap().child_id(0) {
                        Some(child_id) => {
                            proof {
                                assert(self.kid_ok(id, 0));
                                self.lemma_leftmost(id);
                            }
                            id = child_id
                        },
                        None => {
                            proof {
                                self.lemma_leaf_gap(None, id, 0);
                                self.lemma_leftmost(id);
                            }
                            return Some(Address::new(id, Offset::new(0)));
                        },
                    }
                }
            },
            None => None,
        }
    }

    /// Returns the first back address in the tree: the place before the
    /// first item of the first leaf, or nowhere in an empty tree.
    pub fn first_back_address(&self) -> (r: Address)
        requires
            self.wf(),
        ensures
            r == (if self.root is None {
                Address::nowhere()
            } else {
                Address { id: self.leftmost_leaf(self.root.unwrap()), offset: Offset(0) }
            }),
            self.root is Some ==> self.is_item_address(r) && self.is_greatest_below(
                Some(self.rank_at(r)),
                None,
            ),
            self.addressable(r),
    {
        match self.first_item_address() {
            Some(addr) => addr,
            None => Address::nowhere(),
        }
    }

    /// Returns the address of the last item in the tree, if any.
    pub fn last_item_address(&self) -> (r: Option<Address>)
        requires
            self.wf(),
        ensures
            r is None <==> self.root is None,
            r matches Some(a) ==> {
                &&& self.is_item_address(a)
                &&& a.id == self.rightmost_leaf(self.root.unwrap())
                &&& a.offset.as_int() == self.items_at(a.id).len() - 1
                &&& self.node_at(a.id).is_leaf_node()
                &&& self.is_least_above(Some(self.rank_at(a)), None)
            },
    {
        match self.root {
            Some(root) => {
                let mut id = root;
                loop
                    invariant
                        self.wf(),
                        self.root == Some(root),
                        self.has(id),
                        self.high(id).is_none(),
                        self.rightmost_leaf(id) == self.rightmost_leaf(root),
                    decreases self.height(id),
                {
                    proof {
                        assert(self.node_ok(id, None));
                    }
                    let node = self.node(id).unwrap();
                    let index = node.item_count();
                    match node.child_id(index) {
                        Some(child_id) => {
                            proof {
                                assert(self.kid_ok(id, index as int));
                                self.lemma_rightmost(id);
                            }
                            id = child_id
                        },
                        None => {
                            proof {
                                self.lemma_leaf_gap(None, id, index as int);
                                self.lemma_rightmost(id);
                            }
                            return Some(Address::new(id, Offset::new(index - 1)));
                        },
                    }
                }
            },
            None => None,
        }
    }

    /// Returns the last valid address of the tree: the place after the
    /// last item of the last leaf, or nowhere in an empty tree.
    pub fn last_valid_address(&self) -> (r: Address)
        requires
            self.wf(),
        ensures
            self.root is None ==> r == Address::nowhere(),
            self.root is Some ==> {
                &&& self.has(r.id)
                &&& r.id == self.rightmost_leaf(self.root.unwrap())
                &&& r.offset.as_int() == self.items_at(r.id).len()
                &&& self.node_at(r.id).is_leaf_node()
            },
            self.addressable(r),
            self.target_of(r).is_none(),
    {
        match self.last_item_address() {
            Some(addr) => {
                proof {
                    assert(self.node_ok(addr.id, None));
                    self.lemma_rightmost(self.root.unwrap());
                    assert(self.node_ok(self.root.unwrap(), None));
                }
                Address::new(addr.id, Offset::new(addr.offset.unwrap() + 1))
            },
            None => Address::nowhere(),
        }
    }

    /// Normalizes the given address into an item address: the address
    /// itself where it names an item; from the end of a node, the address
    /// of the item that comes next in the tree, if there is one.
    pub fn normalize(&self, addr: Address) -> (r: Option<Address>)
        requires
            self.wf(),
            addr.is_nowhere() || self.is_back_address(addr),
        ensures
            addr.is_nowhere() ==> r is None,
            self.is_item_address(addr) ==> r == Some(addr),
            !addr.is_nowhere() ==> match r {
                Some(a) => self.is_item_address(a) && Some(self.rank_at(a)) == self.ceiling(
                    addr.id,
                    addr.offset.as_int(),
                ),
                None => self.ceiling(addr.id, addr.offset.as_int()).is_none(),
            },
    {
        if addr.is_nowhere() {
            None
        } else {
            let mut cur = addr;
            loop
                invariant
                    self.wf(),
                    !addr.is_nowhere(),
                    self.is_back_address(addr),
                    self.is_back_address(cur),
                    self.ceiling(cur.id, cur.offset.as_int()) == self.ceiling(
                        addr.id,
                        addr.offset.as_int(),
                    ),
                    self.is_item_address(addr) ==> cur == addr,
                decreases self.height(self.root.unwrap()) - self.height(cur.id),
            {
                proof {
                    assert(self.node_ok(cur.id, None));
                }
                let node = self.node(cur.id).unwrap();
                if !cur.offset.is_below(node.item_count()) {
                    match self.parent_slot(cur.id) {
                        Some((parent_id, slot)) => {
                            proof {
                                assert(self.node_ok(parent_id, None));
                            }
                            cur.offset = Offset::new(slot);
                            cur.id = parent_id;
                        },
                        None => return None,
                    }
                } else {
                    return Some(cur);
                }
            }
        }
    }

    /// The address in a leaf that stands for what the address stands for:
    /// the address itself in a leaf; else the end of the last leaf under
    /// the child before its place.
    pub open spec fn leaf_address_of(&self, addr: Address) -> Address {
        if addr.is_nowhere() || self.node_at(addr.id).is_leaf_node() {
            addr
        } else {
            let leaf = self.rightmost_leaf(self.kids_at(addr.id)[addr.offset.as_int()]);
            Address { id: leaf, offset: Offset(self.items_at(leaf).len() as usize) }
        }
    }

    /// Computes an equivalent address in a leaf node.
    pub fn leaf_address(&self, addr: Address) -> (r: Address)
        requires
            self.wf(),
            addr.is_nowhere() || self.is_back_address(addr),
        ensures
            r == self.leaf_address_of(addr),
            !addr.is_nowhere() ==> {
                &&& self.is_back_address(r)
                &&& self.node_at(r.id).is_leaf_node()
                &&& self.ceiling(r.id, r.offset.as_int()) == self.ceiling(
                    addr.id,
                    addr.offset.as_int(),
                )
            },
    {
        let mut cur = addr;
        if !addr.is_nowhere() {
            proof {
                assert(self.node_ok(addr.id, None));
            }
            loop
                invariant_except_break
                    self.wf(),
                    !addr.is_nowhere(),
                    self.is_back_address(addr),
                    self.is_back_address(cur),
                    self.ceiling(cur.id, cur.offset.as_int()) == self.ceiling(
                        addr.id,
                        addr.offset.as_int(),
                    ),
                    self.leaf_address_of(cur) == self.leaf_address_of(addr),
                    !cur.is_nowhere(),
                ensures
                    self.is_back_address(cur),
                    self.node_at(cur.id).is_leaf_node(),
                    self.ceiling(cur.id, cur.offset.as_int()) == self.ceiling(
                        addr.id,
                        addr.offset.as_int(),
                    ),
                    self.leaf_address_of(cur) == self.leaf_address_of(addr),
                    !cur.is_nowhere(),
                decreases self.height(cur.id),
            {
                proof {
                    assert(self.node_ok(cur.id, None));
                }
                let node = self.node(cur.id).unwrap();
                match node.child_id(cur.offset.unwrap()) {
                    Some(child_id) => {
                        proof {
                            assert(self.kid_ok(cur.id, cur.offset.as_int()));
                            assert(self.node_ok(child_id, None));
                            self.lemma_rightmost(child_id);
                        }
                        cur.id = child_id;
                        cur.offset = Offset::new(self.node(child_id).unwrap().item_count());
                    },
                    None => break ,
                }
            }
        }
        cur
    }

    /// The last leaf under a node is that of its last child, and a leaf is
    /// its own last leaf.
    pub proof fn lemma_rightmost(&self, id: usize)
        requires
            self.wf(),
            self.has(id),
        ensures
            self.has(self.rightmost_leaf(id)),
            self.node_at(self.rightmost_leaf(id)).is_leaf_node(),
            self.high(self.rightmost_leaf(id)) == self.high(id),
            self.node_at(id).is_leaf_node() ==> self.rightmost_leaf(id) == id,
            !self.node_at(id).is_leaf_node() ==> self.rightmost_leaf(id) == self.rightmost_leaf(
                self.kids_at(id).last(),
            ),
            self.leaf_address_of(
                Address { id, offset: Offset(self.items_at(id).len() as usize) },
            ) == (Address {
                id: self.rightmost_leaf(id),
                offset: Offset(self.items_at(self.rightmost_leaf(id)).len() as usize),
            }),
        decreases self.height(id),
    {
        assert(self.node_ok(id, None));
        if !self.node_at(id).is_leaf_node() {
            let n = self.items_at(id).len() as int;
            assert(self.kid_ok(id, n));
            self.lemma_rightmost(self.kids_at(id)[n]);
        }
    }

    /// The rank `k` lies before what the address stands for and after
    /// every rank of the tree before that: an item of that rank belongs
    /// between the item before the address and the item at it.
    pub open spec fn belongs_before(&self, addr: Address, k: int) -> bool {
        &&& self.target_of(addr) matches Some(t) ==> k < t
        &&& forall|q: int|
            #[trigger] self@.dom().contains(q) && (self.target_of(addr) matches Some(t) ==> q < t)
                ==> q < k
    }

    /// An item whose rank lies between the ranks of the tree below what an
    /// address stands for and the rank for which it stands belongs at the
    /// leaf address of that address: there it can be inserted.
    pub proof fn lemma_fits_at(&self, addr: Address, k: int)
        requires
            self.wf(),
            self.root is Some,
            self.addressable(addr),
            self.belongs_before(addr, k),
        ensures
            self.is_back_address(addr),
            self.fits_at(self.leaf_address_of(addr), k),
            !self@.dom().contains(k),
    {
        let target = self.target_of(addr);
        let a = self.leaf_address_of(addr);
        assert(self.node_ok(addr.id, None));
        if !self.node_at(addr.id).is_leaf_node() {
            let o = addr.offset.as_int();
            assert(self.kid_ok(addr.id, o));
            self.lemma_rightmost(self.kids_at(addr.id)[o]);
        }
        let leaf = a.id;
        let o = a.offset.as_int();
        let items = self.items_at(leaf);
        assert(self.node_ok(leaf, None));
        assert(self.ceiling(leaf, o) == target);
        self.lemma_bounds_indexed(None, leaf);
        assert forall|i: int| 0 <= i < items.len() implies self@.dom().contains(
            (#[trigger] items[i]).key_rank(),
        ) && self.covers(leaf, items[i].key_rank()) by {}
        assert forall|i: int| 0 <= i < o implies (#[trigger] items[i]).key_rank() < k by {
            if o < items.len() {
                assert(items[i].key_rank() < items[o].key_rank());
            }
        }
        assert forall|i: int| o <= i < items.len() implies (#[trigger] items[i]).key_rank()
            > k by {
            if o < i {
                assert(items[o].key_rank() < items[i].key_rank());
            }
        }
        assert(items.len() > 0);
        if self.low(leaf) is Some {
            assert(self.low(leaf).unwrap() < items[0].key_rank());
            if 0 < o && o < items.len() {
                assert(items[0].key_rank() < items[o].key_rank());
            }
        }
        assert(self.covers(leaf, k));
        self.lemma_leaf_miss(None, leaf, k);
    }

    /// The first leaf under a node is that of its first child, and a leaf
    /// is its own first leaf.
    pub proof fn lemma_leftmost(&self, id: usize)
        requires
            self.wf(),
            self.has(id),
        ensures
            self.has(self.leftmost_leaf(id)),
            self.node_at(self.leftmost_leaf(id)).is_leaf_node(),
            self.low(self.leftmost_leaf(id)) == self.low(id),
            self.node_at(id).is_leaf_node() ==> self.leftmost_leaf(id) == id,
            !self.node_at(id).is_leaf_node() ==> self.leftmost_leaf(id) == self.leftmost_leaf(
                self.kids_at(id)[0],
            ),
        decreases self.height(id),
    {
        assert(self.node_ok(id, None));
        if !self.node_at(id).is_leaf_node() {
            assert(self.kid_ok(id, 0));
            self.lemma_leftmost(self.kids_at(id)[0]);
        }
    }

    /// The place from which the search for the next item starts: the place
    /// after the item that the address names, or the place that it names.
    pub open spec fn place_after(&self, addr: Address) -> int {
        if addr.offset.as_int() < self.items_at(addr.id).len() {
            addr.offset.as_int() + 1
        } else {
            addr.offset.as_int()
        }
    }

    /// Goes down from a place of a node to the first place of the first
    /// leaf under the child at that place.
    fn descend_left(&self, addr: Address) -> (r: Address)
        requires
            self.wf(),
            self.is_back_address(addr),
        ensures
            self.is_back_address(r),
            self.node_at(r.id).is_leaf_node(),
            self.floor(r.id, r.offset.as_int()) == self.floor(addr.id, addr.offset.as_int()),
            self.node_at(addr.id).is_leaf_node() ==> r == addr,
            !self.node_at(addr.id).is_leaf_node() ==> r == (Address {
                id: self.leftmost_leaf(self.kids_at(addr.id)[addr.offset.as_int()]),
                offset: Offset(0),
            }),
    {
        let mut cur = addr;
        proof {
            assert(self.node_ok(addr.id, None));
        }
        loop
            invariant_except_break
                self.wf(),
                self.is_back_address(addr),
                self.is_back_address(cur),
                self.floor(cur.id, cur.offset.as_int()) == self.floor(
                    addr.id,
                    addr.offset.as_int(),
                ),
                self.node_at(addr.id).is_leaf_node() ==> cur == addr,
                !self.node_at(addr.id).is_leaf_node() ==> (cur == addr || (cur.offset == Offset(0)
                    && self.leftmost_leaf(cur.id) == self.leftmost_leaf(
                    self.kids_at(addr.id)[addr.offset.as_int()],
                ))),
            ensures
                self.is_back_address(cur),
                self.node_at(cur.id).is_leaf_node(),
                self.floor(cur.id, cur.offset.as_int()) == self.floor(
                    addr.id,
                    addr.offset.as_int(),
                ),
                self.node_at(addr.id).is_leaf_node() ==> cur == addr,
                !self.node_at(addr.id).is_leaf_node() ==> cur == (Address {
                    id: self.leftmost_leaf(self.kids_at(addr.id)[addr.offset.as_int()]),
                    offset: Offset(0),
                }),
            decreases self.height(cur.id),
        {
            proof {
                assert(self.node_ok(cur.id, None));
                self.lemma_leftmost(cur.id);
            }
            let node = self.node(cur.id).unwrap();
            match node.child_id(cur.offset.unwrap()) {
                Some(child_id) => {
                    proof {
                        assert(self.kid_ok(cur.id, cur.offset.as_int()));
                        assert(self.node_ok(child_id, None));
                    }
                    cur.offset = Offset::new(0);
                    cur.id = child_id;
                },
                None => break ,
            }
        }
        cur
    }

    /// Goes up from a place of a node to the first item at or after it:
    /// the item at the place, or from the end of the node the item after
    /// the node in the nearest node above that has one.
    fn ascend_right(&self, addr: Address) -> (r: Option<Address>)
        requires
            self.wf(),
            self.is_back_address(addr),
        ensures
            match r {
                Some(a) => self.is_item_address(a) && Some(self.rank_at(a)) == self.ceiling(
                    addr.id,
                    addr.offset.as_int(),
                ),
                None => self.ceiling(addr.id, addr.offset.as_int()).is_none(),
            },
    {
        self.normalize(addr)
    }

    /// Get the address of the item located after this address if any: the
    /// item with the next greater key after the item at the address, or
    /// the first item from the place of the address on where it names no
    /// item.
    pub fn next_item_address(&self, addr: Address) -> (r: Option<Address>)
        requires
            self.wf(),
            self.is_place(addr),
        ensures
            addr.is_nowhere() ==> r is None,
            !addr.is_nowhere() ==> match r {
                Some(a) => self.is_item_address(a) && self.is_least_above(
                    self.floor(addr.id, self.place_after(addr)),
                    Some(self.rank_at(a)),
                ),
                None => self.is_least_above(self.floor(addr.id, self.place_after(addr)), None),
            },
    {
        if addr.is_nowhere() {
            return None;
        }
        proof {
            assert(self.node_ok(addr.id, None));
        }
        let mut cur = addr;
        let item_count = self.node(addr.id).unwrap().item_count();
        if cur.offset.is_below(item_count) {
            cur.offset.incr()
        }
        let leaf = self.descend_left(cur);
        proof {
            assert(self.node_ok(leaf.id, None));
            self.lemma_leaf_gap(None, leaf.id, leaf.offset.as_int());
        }
        self.ascend_right(leaf)
    }

    /// Returns the next item or back address: the address of the item that
    /// comes next in the tree, as [`Self::next_item_address`] gives it; or
    /// where there is none, the end of the last leaf, from which the search
    /// started.
    pub fn next_item_or_back_address(&self, addr: Address) -> (r: Option<Address>)
        requires
            self.wf(),
            self.is_place(addr),
        ensures
            addr.is_nowhere() <==> r is None,
            r matches Some(a) ==> {
                if self.is_item_address(a) {
                    self.is_least_above(
                        self.floor(addr.id, self.place_after(addr)),
                        Some(self.rank_at(a)),
                    )
                } else {
                    &&& a.id == addr.id
                    &&& a.offset.as_int() == self.place_after(addr)
                    &&& a.offset.as_int() == self.items_at(a.id).len()
                    &&& self.node_at(a.id).is_leaf_node()
                    &&& self.is_least_above(self.floor(addr.id, self.place_after(addr)), None)
                }
            },
    {
        if addr.is_nowhere() {
            return None;
        }
        proof {
            assert(self.node_ok(addr.id, None));
        }
        let mut cur = addr;
        let item_count = self.node(addr.id).unwrap().item_count();
        if cur.offset.is_below(item_count) {
            cur.offset.incr()
        }
        let shifted = cur;
        let leaf = self.descend_left(cur);
        proof {
            assert(self.node_ok(leaf.id, None));
            self.lemma_leaf_gap(None, leaf.id, leaf.offset.as_int());
        }
        match self.ascend_right(leaf) {
            Some(a) => Some(a),
            None => Some(shifted),
        }
    }

    /// Get the address of the item located before this address: the item
    /// with the next smaller key before the item at the address, or the
    /// last item before the place of the address where it names no item.
    pub fn previous_item_address(&self, addr: Address) -> (r: Option<Address>)
        requires
            self.wf(),
            addr.is_nowhere() || self.is_back_address(addr),
        ensures
            addr.is_nowhere() ==> r is None,
            !addr.is_nowhere() ==> match r {
                Some(a) => self.is_item_address(a) && self.is_greatest_below(
                    self.ceiling(addr.id, addr.offset.as_int()),
                    Some(self.rank_at(a)),
                ),
                None => self.is_greatest_below(self.ceiling(addr.id, addr.offset.as_int()), None),
            },
    {
        if addr.is_nowhere() {
            return None;
        }
        let leaf = self.leaf_address(addr);
        proof {
            assert(self.node_ok(leaf.id, None));
            self.lemma_leaf_gap(None, leaf.id, leaf.offset.as_int());
        }
        let mut cur = leaf;
        loop
            invariant
                self.wf(),
                !addr.is_nowhere(),
                self.is_back_address(cur),
                self.floor(cur.id, cur.offset.as_int()) == self.floor(
                    leaf.id,
                    leaf.offset.as_int(),
                ),
                self.is_greatest_below(
                    self.ceiling(addr.id, addr.offset.as_int()),
                    self.floor(leaf.id, leaf.offset.as_int()),
                ),
            decreases self.height(self.root.unwrap()) - self.height(cur.id),
        {
            proof {
                assert(self.node_ok(cur.id, None));
            }
            if !cur.offset.is_at(0) {
                cur.offset.decr();
                return Some(cur);
            }
            match self.parent_slot(cur.id) {
                Some((parent_id, slot)) => {
                    proof {
                        assert(self.node_ok(parent_id, None));
                    }
                    cur.offset = Offset::new(slot);
                    cur.id = parent_id;
                },
                None => return None,
            }
        }
    }

    /// The back address after an address: in a leaf the next place, and
    /// from its end the place of the leaf in its parent; in an internal
    /// node the start of the first leaf under the child after the item at
    /// the address, and from the end of the node the place of the node in
    /// its parent. Nothing after the end of the root.
    pub open spec fn next_back_of(&self, addr: Address) -> Option<Address> {
        let index = addr.offset.as_int() + 1;
        if addr.is_nowhere() {
            None
        } else if index <= self.items_at(addr.id).len() {
            if self.node_at(addr.id).is_leaf_node() {
                Some(Address { id: addr.id, offset: Offset(index as usize) })
            } else {
                Some(Address { id: self.leftmost_leaf(self.kids_at(addr.id)[index]), offset: Offset(0) })
            }
        } else {
            match self.node_at(addr.id).parent_id() {
                Some(p) => Some(Address { id: p, offset: Offset(self.place(addr.id) as usize) }),
                None => None,
            }
        }
    }

    /// Returns the next back address.
    pub fn next_back_address(&self, addr: Address) -> (r: Option<Address>)
        requires
            self.wf(),
            self.is_place(addr),
        ensures
            r == self.next_back_of(addr),
            r matches Some(a) ==> self.is_back_address(a),
    {
        if addr.is_nowhere() {
            return None;
        }
        proof {
            assert(self.node_ok(addr.id, None));
        }
        let node = self.node(addr.id).unwrap();
        let index = match addr.offset.value() {
            Some(offset) => offset + 1,
            None => 0,
        };
        if index <= node.item_count() {
            let leaf = self.descend_left(Address::new(addr.id, Offset::new(index)));
            Some(leaf)
        } else {
            match self.parent_slot(addr.id) {
                Some((parent_id, slot)) => {
                    proof {
                        assert(self.node_ok(parent_id, None));
                    }
                    Some(Address::new(parent_id, Offset::new(slot)))
                },
                None => None,
            }
        }
    }

    /// The front address before an address: in a leaf the place before,
    /// and from before its first item the place before that of the leaf in
    /// its parent; in an internal node the last item of the last leaf
    /// under the child before the place of the address. Nothing from
    /// before the first item of the root.
    pub open spec fn previous_front_of(&self, addr: Address) -> Option<Address> {
        let o = addr.offset.as_int();
        if addr.is_nowhere() {
            None
        } else if o >= 0 {
            if self.node_at(addr.id).is_leaf_node() {
                Some(Address { id: addr.id, offset: Offset::of_int(o - 1) })
            } else {
                let leaf = self.rightmost_leaf(self.kids_at(addr.id)[o]);
                Some(Address { id: leaf, offset: Offset::of_int(self.items_at(leaf).len() - 1) })
            }
        } else {
            match self.node_at(addr.id).parent_id() {
                Some(p) => Some(Address { id: p, offset: Offset::of_int(self.place(addr.id) - 1) }),
                None => None,
            }
        }
    }

    /// Returns the previous front address.
    pub fn previous_front_address(&self, addr: Address) -> (r: Option<Address>)
        requires
            self.wf(),
            self.is_place(addr),
        ensures
            r == self.previous_front_of(addr),
            r matches Some(a) ==> self.has(a.id) && -1 <= a.offset.as_int() < self.items_at(
                a.id,
            ).len(),
    {
        if addr.is_nowhere() {
            return None;
        }
        proof {
            assert(self.node_ok(addr.id, None));
        }
        match addr.offset.value() {
            Some(_) => {
                let mut leaf = self.leaf_address(addr);
                proof {
                    assert(self.node_ok(leaf.id, None));
                }
                leaf.offset.decr();
                Some(leaf)
            },
            None => match self.parent_slot(addr.id) {
                Some((parent_id, slot)) => {
                    proof {
                        assert(self.node_ok(parent_id, None));
                    }
                    let mut offset = Offset::new(slot);
                    offset.decr();
                    Some(Address::new(parent_id, offset))
                },
                None => None,
            },
        }
    }
}

} // verus!
