//! The items of a tree in the order of their keys, and the comparison of
//! trees.
use vstd::prelude::*;
use super::iter::Iter;
use super::{Comparison, KeyOrd};
use crate::slab::{Arena, Storage};
use crate::btree::node::Reference;

verus! {

/// Items that can be compared to items of type `U`, where the two can be
/// compared at all.
pub trait ItemPartialOrd<U>: Sized {
    /// How the item compares to the other, if the two can be compared.
    spec fn item_order(&self, other: &U) -> Option<Comparison>;

    /// Compares the item to the other.
    fn item_partial_order(&self, other: &U) -> (c: Option<Comparison>)
        ensures
            c == self.item_order(other),
    ;
}

/// Items of which any two can be compared.
pub trait ItemOrd: ItemPartialOrd<Self> {
    /// Compares the item to the other.
    fn item_total_order(&self, other: &Self) -> (c: Comparison)
        ensures
            Some(c) == self.item_order(other),
    ;
}

impl ItemPartialOrd<usize> for usize {
    open spec fn item_order(&self, other: &usize) -> Option<Comparison> {
        Some(super::compare_ranks(self.key_rank(), other.key_rank()))
    }

    fn item_partial_order(&self, other: &usize) -> (c: Option<Comparison>) {
        Some(self.key_order(other))
    }
}

impl ItemOrd for usize {
    fn item_total_order(&self, other: &usize) -> (c: Comparison) {
        self.key_order(other)
    }
}

impl ItemPartialOrd<u64> for u64 {
    open spec fn item_order(&self, other: &u64) -> Option<Comparison> {
        Some(super::compare_ranks(self.key_rank(), other.key_rank()))
    }

    fn item_partial_order(&self, other: &u64) -> (c: Option<Comparison>) {
        Some(self.key_order(other))
    }
}

impl ItemOrd for u64 {
    fn item_total_order(&self, other: &u64) -> (c: Comparison) {
        self.key_order(other)
    }
}

impl ItemPartialOrd<u8> for u8 {
    open spec fn item_order(&self, other: &u8) -> Option<Comparison> {
        Some(super::compare_ranks(self.key_rank(), other.key_rank()))
    }

    fn item_partial_order(&self, other: &u8) -> (c: Option<Comparison>) {
        Some(self.key_order(other))
    }
}

impl ItemOrd for u8 {
    fn item_total_order(&self, other: &u8) -> (c: Comparison) {
        self.key_order(other)
    }
}

impl ItemPartialOrd<u16> for u16 {
    open spec fn item_order(&self, other: &u16) -> Option<Comparison> {
        Some(super::compare_ranks(self.key_rank(), other.key_rank()))
    }

    fn item_partial_order(&self, other: &u16) -> (c: Option<Comparison>) {
        Some(self.key_order(other))
    }
}

impl ItemOrd for u16 {
    fn item_total_order(&self, other: &u16) -> (c: Comparison) {
        self.key_order(other)
    }
}

impl ItemPartialOrd<u32> for u32 {
    open spec fn item_order(&self, other: &u32) -> Option<Comparison> {
        Some(super::compare_ranks(self.key_rank(), other.key_rank()))
    }

    fn item_partial_order(&self, other: &u32) -> (c: Option<Comparison>) {
        Some(self.key_order(other))
    }
}

impl ItemOrd for u32 {
    fn item_total_order(&self, other: &u32) -> (c: Comparison) {
        self.key_order(other)
    }
}

impl ItemPartialOrd<i8> for i8 {
    open spec fn item_order(&self, other: &i8) -> Option<Comparison> {
        Some(super::compare_ranks(self.key_rank(), other.key_rank()))
    }

    fn item_partial_order(&self, other: &i8) -> (c: Option<Comparison>) {
        Some(self.key_order(other))
    }
}

impl ItemOrd for i8 {
    fn item_total_order(&self, other: &i8) -> (c: Comparison) {
        self.key_order(other)
    }
}

impl ItemPartialOrd<i16> for i16 {
    open spec fn item_order(&self, other: &i16) -> Option<Comparison> {
        Some(super::compare_ranks(self.key_rank(), other.key_rank()))
    }

    fn item_partial_order(&self, other: &i16) -> (c: Option<Comparison>) {
        Some(self.key_order(other))
    }
}

impl ItemOrd for i16 {
    fn item_total_order(&self, other: &i16) -> (c: Comparison) {
        self.key_order(other)
    }
}

impl ItemPartialOrd<i32> for i32 {
    open spec fn item_order(&self, other: &i32) -> Option<Comparison> {
        Some(super::compare_ranks(self.key_rank(), other.key_rank()))
    }

    fn item_partial_order(&self, other: &i32) -> (c: Option<Comparison>) {
        Some(self.key_order(other))
    }
}

impl ItemOrd for i32 {
    fn item_total_order(&self, other: &i32) -> (c: Comparison) {
        self.key_order(other)
    }
}

impl ItemPartialOrd<i64> for i64 {
    open spec fn item_order(&self, other: &i64) -> Option<Comparison> {
        Some(super::compare_ranks(self.key_rank(), other.key_rank()))
    }

    fn item_partial_order(&self, other: &i64) -> (c: Option<Comparison>) {
        Some(self.key_order(other))
    }
}

impl ItemOrd for i64 {
    fn item_total_order(&self, other: &i64) -> (c: Comparison) {
        self.key_order(other)
    }
}

impl ItemPartialOrd<u128> for u128 {
    open spec fn item_order(&self, other: &u128) -> Option<Comparison> {
        Some(super::compare_ranks(self.key_rank(), other.key_rank()))
    }

    fn item_partial_order(&self, other: &u128) -> (c: Option<Comparison>) {
        Some(self.key_order(other))
    }
}

impl ItemOrd for u128 {
    fn item_total_order(&self, other: &u128) -> (c: Comparison) {
        self.key_order(other)
    }
}

impl ItemPartialOrd<i128> for i128 {
    open spec fn item_order(&self, other: &i128) -> Option<Comparison> {
        Some(super::compare_ranks(self.key_rank(), other.key_rank()))
    }

    fn item_partial_order(&self, other: &i128) -> (c: Option<Comparison>) {
        Some(self.key_order(other))
    }
}

impl ItemOrd for i128 {
    fn item_total_order(&self, other: &i128) -> (c: Comparison) {
        self.key_order(other)
    }
}

impl ItemPartialOrd<bool> for bool {
    open spec fn item_order(&self, other: &bool) -> Option<Comparison> {
        Some(super::compare_ranks(self.key_rank(), other.key_rank()))
    }

    fn item_partial_order(&self, other: &bool) -> (c: Option<Comparison>) {
        Some(self.key_order(other))
    }
}

impl ItemOrd for bool {
    fn item_total_order(&self, other: &bool) -> (c: Comparison) {
        self.key_order(other)
    }
}

impl ItemPartialOrd<isize> for isize {
    open spec fn item_order(&self, other: &isize) -> Option<Comparison> {
        Some(super::compare_ranks(self.key_rank(), other.key_rank()))
    }

    fn item_partial_order(&self, other: &isize) -> (c: Option<Comparison>) {
        Some(self.key_order(other))
    }
}

impl ItemOrd for isize {
    fn item_total_order(&self, other: &isize) -> (c: Comparison) {
        self.key_order(other)
    }
}

impl ItemPartialOrd<char> for char {
    open spec fn item_order(&self, other: &char) -> Option<Comparison> {
        Some(super::compare_ranks(self.key_rank(), other.key_rank()))
    }

    fn item_partial_order(&self, other: &char) -> (c: Option<Comparison>) {
        Some(self.key_order(other))
    }
}

impl ItemOrd for char {
    fn item_total_order(&self, other: &char) -> (c: Comparison) {
        self.key_order(other)
    }
}

/// The two sequences are as long as each other, and each item of the
/// second compares equal to the item of the first at its place.
pub open spec fn same_items<T, U: ItemPartialOrd<T>>(a: Seq<T>, b: Seq<U>) -> bool {
    &&& a.len() == b.len()
    &&& forall|i: int|
        0 <= i < a.len() ==> (#[trigger] b[i]).item_order(&a[i]) == Some(Comparison::Equal)
}

/// The other way round.
pub open spec fn turned(c: Comparison) -> Comparison {
    match c {
        Comparison::Less => Comparison::Greater,
        Comparison::Equal => Comparison::Equal,
        Comparison::Greater => Comparison::Less,
    }
}

/// How the first sequence compares to the second from the index `i` on, in
/// the order of a dictionary: by the first place at which an item of the
/// second does not compare equal to the item of the first, or by their
/// lengths. Nothing, if the two items at that place cannot be compared.
pub open spec fn items_order<T, U: ItemPartialOrd<T>>(a: Seq<T>, b: Seq<U>, i: int) -> Option<
    Comparison,
>
    decreases a.len() - i,
{
    if i >= a.len() && i >= b.len() {
        Some(Comparison::Equal)
    } else if i >= b.len() {
        Some(Comparison::Greater)
    } else if i >= a.len() {
        Some(Comparison::Less)
    } else {
        match b[i].item_order(&a[i]) {
            Some(Comparison::Equal) => items_order(a, b, i + 1),
            Some(c) => Some(turned(c)),
            None => None,
        }
    }
}

impl<T: KeyOrd, A: Arena<Reference<T>>> Storage<T, A> {
    /// The least rank of the tree above `floor`, if there is one.
    pub open spec fn next_above(&self, floor: Option<int>) -> Option<int> {
        if exists|n: int| self.is_least_above(floor, Some(n)) {
            Some(choose|n: int| self.is_least_above(floor, Some(n)))
        } else {
            None
        }
    }

    /// There is but one least rank above a floor.
    pub proof fn lemma_next_above(&self, floor: Option<int>, next: Option<int>)
        requires
            self.is_least_above(floor, next),
        ensures
            self.next_above(floor) == next,
    {
        match next {
            Some(n) => {
                let m = choose|n: int| self.is_least_above(floor, Some(n));
                assert(self.above(floor, m));
                assert(self.above(floor, n));
            },
            None => {
                if exists|n: int| self.is_least_above(floor, Some(n)) {
                    let m = choose|n: int| self.is_least_above(floor, Some(n));
                    assert(self.above(floor, m));
                }
            },
        }
    }

    /// The ranks of the tree above `floor`.
    pub open spec fn ranks_above(&self, floor: Option<int>) -> Set<int> {
        Set::new(|q: int| self.above(floor, q))
    }

    /// The ranks of the tree above `floor`, in growing order.
    pub open spec fn ranks_from(&self, floor: Option<int>) -> Seq<int>
        decreases self.ranks_above(floor).len(),
        when self@.dom().finite()
    {
        match self.next_above(floor) {
            Some(n) => {
                proof {
                    self.lemma_fewer_above(floor, n);
                }
                seq![n] + self.ranks_from(Some(n))
            },
            None => Seq::empty(),
        }
    }

    /// Above the least rank above a floor there are fewer ranks than above
    /// the floor.
    pub proof fn lemma_fewer_above(&self, floor: Option<int>, n: int)
        requires
            self@.dom().finite(),
            self.next_above(floor) == Some(n),
        ensures
            self.ranks_above(Some(n)).len() < self.ranks_above(floor).len(),
    {
        assert(self.is_least_above(floor, Some(n)));
        let all = self.ranks_above(floor);
        let rest = self.ranks_above(Some(n));
        assert(all.subset_of(self@.dom()));
        vstd::set_lib::lemma_len_subset(all, self@.dom());
        assert(all.contains(n));
        assert(rest.subset_of(all.remove(n))) by {
            assert forall|q: int| rest.contains(q) implies all.remove(n).contains(q) by {
                assert(self.above(Some(n), q));
                assert(self.above(floor, n));
            }
        }
        vstd::set_lib::lemma_len_subset(rest, all.remove(n));
    }

    /// The items of the tree, in the order of their keys.
    pub open spec fn items_in_order(&self) -> Seq<T> {
        self.ranks_from(None).map_values(|q: int| self@[q])
    }

    /// The items of the tree, in the order of their keys.
    pub fn to_vec(&self) -> (r: Vec<&T>)
        requires
            self.wf(),
        ensures
            r@.len() == self.len,
            r@.map_values(|x: &T| *x) == self.items_in_order(),
            forall|i: int, j: int|
                0 <= i < j < r@.len() ==> (#[trigger] r@[i]).key_rank() < (
                #[trigger] r@[j]).key_rank(),
    {
        let mut it = Iter::new(self);
        let mut r: Vec<&T> = Vec::new();
        loop
            invariant
                self.wf(),
                it.wf(),
                it.storage == self,
                it.ceiling@.is_none(),
                r@.len() + it.remaining().len() == self.len,
                forall|i: int|
                    0 <= i < r@.len() ==> self@.dom().contains((#[trigger] r@[i]).key_rank())
                        && *r@[i] == self@[r@[i].key_rank()],
                forall|i: int, q: int|
                    0 <= i < r@.len() && #[trigger] it.remaining().contains(q) ==> (
                    #[trigger] r@[i]).key_rank() < q,
                forall|i: int, j: int|
                    0 <= i < j < r@.len() ==> (#[trigger] r@[i]).key_rank() < (
                    #[trigger] r@[j]).key_rank(),
                self.ranks_from(None) == r@.map_values(|x: &T| x.key_rank()) + self.ranks_from(
                    it.floor@,
                ),
            decreases it.remaining().len(),
        {
            let ghost floor = it.floor@;
            let ghost before = r@;
            proof {
                assert(it.remaining() =~= self.ranks_above(floor));
            }
            match it.next() {
                Some(item) => {
                    proof {
                        let k = item.key_rank();
                        assert(self.is_least_above(floor, Some(k))) by {
                            assert(self.above(floor, k));
                            assert forall|q: int| #[trigger] self.above(floor, q) implies k
                                <= q by {
                                assert(self.ranks_above(floor).contains(q));
                            }
                        }
                        self.lemma_next_above(floor, Some(k));
                    }
                    r.push(item);
                    proof {
                        let k = item.key_rank();
                        assert(r@.map_values(|x: &T| x.key_rank()) =~= before.map_values(
                            |x: &T| x.key_rank(),
                        ).push(k));
                        assert(before.map_values(|x: &T| x.key_rank()).push(k) + self.ranks_from(
                            Some(k),
                        ) =~= before.map_values(|x: &T| x.key_rank()) + (seq![k] + self.ranks_from(
                            Some(k),
                        )));
                    }
                },
                None => {
                    proof {
                        assert forall|q: int| !#[trigger] self.above(floor, q) by {
                            assert(!self.ranks_above(floor).contains(q));
                        }
                        self.lemma_next_above(floor, None);
                        assert(self.ranks_from(None) =~= r@.map_values(|x: &T| x.key_rank()));
                        assert(r@.map_values(|x: &T| *x) =~= self.items_in_order());
                    }
                    return r;
                },
            }
        }
    }

    /// `true` if the two trees hold as many items, and each item of the
    /// other compares equal to the item of this tree at its place in the
    /// order of the keys.
    pub fn eq<U, B>(&self, other: &Storage<U, B>) -> (r: bool) where
        U: KeyOrd + ItemPartialOrd<T>,
        B: Arena<Reference<U>>,

        requires
            self.wf(),
            other.wf(),
        ensures
            r == same_items(self.items_in_order(), other.items_in_order()),
    {
        let a = self.to_vec();
        let b = other.to_vec();
        let ghost sa = self.items_in_order();
        let ghost sb = other.items_in_order();
        proof {
            assert(sa.len() == a@.len());
            assert(sb.len() == b@.len());
        }
        if a.len() != b.len() {
            return false;
        }
        let mut i: usize = 0;
        while i < a.len()
            invariant
                i <= a@.len(),
                a@.len() == b@.len(),
                sa == a@.map_values(|x: &T| *x),
                sb == b@.map_values(|x: &U| *x),
                sa == self.items_in_order(),
                sb == other.items_in_order(),
                forall|j: int|
                    0 <= j < i ==> (#[trigger] sb[j]).item_order(&sa[j]) == Some(Comparison::Equal),
            decreases a@.len() - i,
        {
            proof {
                assert(sa[i as int] == *a@[i as int]);
                assert(sb[i as int] == *b@[i as int]);
            }
            match b[i].item_partial_order(a[i]) {
                Some(Comparison::Equal) => {},
                _ => {
                    proof {
                        assert(sb[i as int].item_order(&sa[i as int]) != Some(Comparison::Equal));
                    }
                    return false;
                },
            }
            i += 1;
        }
        true
    }

    /// How the tree compares to the other in the order of a dictionary
    /// over their items, taken in the order of the keys.
    pub fn order<U, B>(&self, other: &Storage<U, B>) -> (r: Option<Comparison>) where
        B: Arena<Reference<U>>,
        U: KeyOrd + ItemPartialOrd<T>,

        requires
            self.wf(),
            other.wf(),
        ensures
            r == items_order(self.items_in_order(), other.items_in_order(), 0),
    {
        let a = self.to_vec();
        let b = other.to_vec();
        let ghost sa = self.items_in_order();
        let ghost sb = other.items_in_order();
        proof {
            assert(sa.len() == a@.len());
            assert(sb.len() == b@.len());
        }
        let mut i: usize = 0;
        loop
            invariant
                i <= a@.len(),
                i <= b@.len(),
                sa == a@.map_values(|x: &T| *x),
                sb == b@.map_values(|x: &U| *x),
                sa == self.items_in_order(),
                sb == other.items_in_order(),
                items_order(sa, sb, 0) == items_order(sa, sb, i as int),
            decreases a@.len() - i,
        {
            if i >= a.len() && i >= b.len() {
                return Some(Comparison::Equal);
            } else if i >= b.len() {
                return Some(Comparison::Greater);
            } else if i >= a.len() {
                return Some(Comparison::Less);
            }
            proof {
                assert(sa[i as int] == *a@[i as int]);
                assert(sb[i as int] == *b@[i as int]);
            }
            match b[i].item_partial_order(a[i]) {
                Some(Comparison::Equal) => {},
                Some(Comparison::Less) => {
                    return Some(Comparison::Greater);
                },
                Some(Comparison::Greater) => {
                    return Some(Comparison::Less);
                },
                None => {
                    return None;
                },
            }
            i += 1;
        }
    }
}

/// The comparison as the standard library writes it.
pub open spec fn as_ordering(c: Comparison) -> core::cmp::Ordering {
    match c {
        Comparison::Less => core::cmp::Ordering::Less,
        Comparison::Equal => core::cmp::Ordering::Equal,
        Comparison::Greater => core::cmp::Ordering::Greater,
    }
}

/// The comparison as the standard library writes it.
pub fn to_ordering(c: Comparison) -> (r: core::cmp::Ordering)
    ensures
        r == as_ordering(c),
{
    match c {
        Comparison::Less => core::cmp::Ordering::Less,
        Comparison::Equal => core::cmp::Ordering::Equal,
        Comparison::Greater => core::cmp::Ordering::Greater,
    }
}

impl<T: KeyOrd, A: Arena<Reference<T>>> Storage<T, A> {
    /// How the tree compares to the other in the order of a dictionary
    /// over their items, taken in the order of the keys; nothing where two
    /// items that decide cannot be compared.
    pub fn partial_cmp<U, B>(&self, other: &Storage<U, B>) -> (r: Option<core::cmp::Ordering>) where
        B: Arena<Reference<U>>,
        U: KeyOrd + ItemPartialOrd<T>,

        requires
            self.wf(),
            other.wf(),
        ensures
            r == (match items_order(self.items_in_order(), other.items_in_order(), 0) {
                Some(c) => Some(as_ordering(c)),
                None => None,
            }),
    {
        match self.order(other) {
            Some(c) => Some(to_ordering(c)),
            None => None,
        }
    }

    /// How the tree compares to the other in the order of a dictionary
    /// over their items, taken in the order of the keys.
    pub fn cmp(&self, other: &Self) -> (r: core::cmp::Ordering) where T: ItemOrd
        requires
            self.wf(),
            other.wf(),
        ensures
            items_order(self.items_in_order(), other.items_in_order(), 0) == Some(
                comparison_of(r),
            ),
    {
        to_ordering(self.total_order(other))
    }
}

/// The comparison that the standard library writes so.
pub open spec fn comparison_of(o: core::cmp::Ordering) -> Comparison {
    match o {
        core::cmp::Ordering::Less => Comparison::Less,
        core::cmp::Ordering::Equal => Comparison::Equal,
        core::cmp::Ordering::Greater => Comparison::Greater,
    }
}

impl<T: KeyOrd + ItemOrd, A: Arena<Reference<T>>> Storage<T, A> {
    /// How the tree compares to the other in the order of a dictionary
    /// over their items, of which any two can be compared, taken in the
    /// order of the keys.
    pub fn total_order(&self, other: &Self) -> (r: Comparison)
        requires
            self.wf(),
            other.wf(),
        ensures
            items_order(self.items_in_order(), other.items_in_order(), 0) == Some(r),
    {
        let a = self.to_vec();
        let b = other.to_vec();
        let ghost sa = self.items_in_order();
        let ghost sb = other.items_in_order();
        proof {
            assert(sa.len() == a@.len());
            assert(sb.len() == b@.len());
        }
        let mut i: usize = 0;
        loop
            invariant
                i <= a@.len(),
                i <= b@.len(),
                sa == a@.map_values(|x: &T| *x),
                sb == b@.map_values(|x: &T| *x),
                sa == self.items_in_order(),
                sb == other.items_in_order(),
                items_order(sa, sb, 0) == items_order(sa, sb, i as int),
            decreases a@.len() - i,
        {
            if i >= a.len() && i >= b.len() {
                return Comparison::Equal;
            } else if i >= b.len() {
                return Comparison::Greater;
            } else if i >= a.len() {
                return Comparison::Less;
            }
            proof {
                assert(sa[i as int] == *a@[i as int]);
                assert(sb[i as int] == *b@[i as int]);
            }
            match b[i].item_total_order(a[i]) {
                Comparison::Equal => {},
                Comparison::Less => {
                    return Comparison::Greater;
                },
                Comparison::Greater => {
                    return Comparison::Less;
                },
            }
            i += 1;
        }
    }
}

} // verus!
