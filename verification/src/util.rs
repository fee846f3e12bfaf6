//! The search in the sorted items of a node.
use vstd::prelude::*;
use crate::btree::node::item::{ranks_sorted, ItemAccess};
use crate::btree::node::Offset;
use crate::btree::{Comparison, KeyPartialOrd};

verus! {

/// Takes the value and does not run its destructor.
///
/// This is `core::mem::forget`, of which nothing is stated.
#[verifier::external_body]
pub(crate) fn forget<V>(value: V) {
    core::mem::forget(value)
}

/// What [`binary_search_min`] finds for a probe of rank `k` among `items`:
/// the offset of the last item whose rank is at most `k`, and whether that
/// rank is `k`; nothing if every item has a greater rank.
pub open spec fn search_min_result<T: crate::btree::KeyOrd>(
    items: Seq<T>,
    k: int,
    r: Option<(Offset, bool)>,
) -> bool {
    match r {
        None => forall|i: int| 0 <= i < items.len() ==> (#[trigger] items[i]).key_rank() > k,
        Some((offset, eq)) => {
            &&& 0 <= offset.as_int() < items.len()
            &&& items[offset.as_int()].key_rank() <= k
            &&& forall|j: int|
                offset.as_int() < j < items.len() ==> (#[trigger] items[j]).key_rank() > k
            &&& eq == (items[offset.as_int()].key_rank() == k)
        },
    }
}

/// Search in `sorted_items` for the item with the nearest key smaller or equal to the given one.
///
/// `sorted_items` is assumed to be sorted.
pub fn binary_search_min<T, A, Q>(sorted_items: &A, key: &Q) -> (r: Option<(Offset, bool)>) where
    T: KeyPartialOrd<Q>,
    A: ItemAccess<T>,

    requires
        ranks_sorted(sorted_items.item_seq()),
    ensures
        search_min_result(sorted_items.item_seq(), T::probe_rank(key), r),
{
    let n = sorted_items.item_count();
    if n == 0 {
        return None;
    }
    let first = sorted_items.borrow_item(Offset::new(0)).unwrap();
    if let Comparison::Greater = first.key_partial_order(key) {
        return None;
    }
    let mut i: usize = 0;
    let mut j: usize = n - 1;

    let j_item = sorted_items.borrow_item(Offset::new(j)).unwrap();
    match j_item.key_partial_order(key) {
        Comparison::Less => {
            return Some((Offset::new(j), false));
        },
        Comparison::Equal => {
            return Some((Offset::new(j), true));
        },
        Comparison::Greater => {},
    }

    while j - i > 1
        invariant
            i < j < n,
            n == sorted_items.item_seq().len(),
            ranks_sorted(sorted_items.item_seq()),
            sorted_items.item_seq()[i as int].key_rank() <= T::probe_rank(key),
            sorted_items.item_seq()[j as int].key_rank() > T::probe_rank(key),
        decreases j - i,
    {
        let k = i + (j - i) / 2;
        let k_item = sorted_items.borrow_item(Offset::new(k)).unwrap();
        if let Comparison::Greater = k_item.key_partial_order(key) {
            j = k;
        } else {
            i = k;
        }
    }

    let i_item = sorted_items.borrow_item(Offset::new(i)).unwrap();
    let eq = if let Comparison::Equal = i_item.key_partial_order(key) {
        true
    } else {
        false
    };
    Some((Offset::new(i), eq))
}

} // verus!
