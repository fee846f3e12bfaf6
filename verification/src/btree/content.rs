//! The items of the nodes of a tree, all together.
use vstd::prelude::*;
use vstd::multiset::Multiset;
use super::KeyOrd;
use crate::btree::node::Reference;
use crate::slab::{Arena, Storage};

verus! {

/// The items of a collection under their ranks: under each rank that an
/// item of the collection has, an item with that rank.
#[verifier::opaque]
pub open spec fn index_of<T: KeyOrd>(content: Multiset<T>) -> Map<int, T> {
    Map::new(
        |r: int| exists|x: T| content.count(x) > 0 && x.key_rank() == r,
        |r: int| choose|x: T| content.count(x) > 0 && x.key_rank() == r,
    )
}

/// What stands in the index under a rank is an item of the collection
/// with that rank.
pub proof fn lemma_index_entry<T: KeyOrd>(content: Multiset<T>, r: int)
    requires
        index_of(content).dom().contains(r),
    ensures
        content.count(index_of(content)[r]) > 0,
        index_of(content)[r].key_rank() == r,
{
    reveal(index_of);
}

/// A map that holds every item of the collection under its rank, and
/// nothing else, is the index of the collection.
pub proof fn lemma_index_is<T: KeyOrd>(content: Multiset<T>, target: Map<int, T>)
    requires
        forall|x: T|
            content.count(x) > 0 ==> target.dom().contains(#[trigger] x.key_rank())
                && target[x.key_rank()] == x,
        forall|r: int| #[trigger]
            target.dom().contains(r) ==> content.count(target[r]) > 0 && target[r].key_rank()
                == r,
    ensures
        index_of(content) == target,
{
    reveal(index_of);
    let index = index_of(content);
    assert forall|r: int| index.dom().contains(r) == target.dom().contains(r) by {
        if target.dom().contains(r) {
            assert(content.count(target[r]) > 0 && target[r].key_rank() == r);
        }
        if index.dom().contains(r) {
            let x = choose|x: T| content.count(x) > 0 && x.key_rank() == r;
            assert(target.dom().contains(x.key_rank()));
        }
    }
    assert forall|r: int| index.dom().contains(r) implies index[r] == target[r] by {
        let x = index[r];
        assert(content.count(x) > 0 && x.key_rank() == r);
        assert(target.dom().contains(x.key_rank()) && target[x.key_rank()] == x);
    }
    assert(index =~= target);
}

/// The items of the listed nodes, each as often as the nodes hold it.
pub open spec fn sum_items<T, A: Arena<Reference<T>>>(s: Storage<T, A>, ids: Seq<usize>) -> Multiset<T>
    decreases ids.len(),
{
    if ids.len() == 0 {
        Multiset::empty()
    } else {
        sum_items(s, ids.drop_last()).add(s.items_at(ids.last()).to_multiset())
    }
}

/// Two storages whose listed nodes hold the same items sum to the same.
pub proof fn lemma_sum_same<T, A: Arena<Reference<T>>>(a: Storage<T, A>, b: Storage<T, A>, ids: Seq<usize>)
    requires
        forall|i: int| 0 <= i < ids.len() ==> a.items_at(#[trigger] ids[i]) == b.items_at(ids[i]),
    ensures
        sum_items(a, ids) == sum_items(b, ids),
    decreases ids.len(),
{
    if ids.len() > 0 {
        lemma_sum_same(a, b, ids.drop_last());
        assert(ids.last() == ids[ids.len() - 1]);
    }
}

/// Where one listed node changes its items, the sum loses the old ones and
/// gains the new ones.
pub proof fn lemma_sum_update<T, A: Arena<Reference<T>>>(a: Storage<T, A>, b: Storage<T, A>, ids: Seq<usize>, id: usize)
    requires
        ids.no_duplicates(),
        ids.contains(id),
        forall|i: int|
            0 <= i < ids.len() && ids[i] != id ==> a.items_at(#[trigger] ids[i]) == b.items_at(
                ids[i],
            ),
    ensures
        sum_items(b, ids).add(a.items_at(id).to_multiset()) == sum_items(a, ids).add(
            b.items_at(id).to_multiset(),
        ),
    decreases ids.len(),
{
    let n = ids.len() - 1;
    let rest = ids.drop_last();
    let k = choose|k: int| 0 <= k < ids.len() && ids[k] == id;
    assert(ids.len() > 0);
    assert(rest.no_duplicates());
    if ids.last() == id {
        assert forall|i: int| 0 <= i < rest.len() implies a.items_at(#[trigger] rest[i])
            == b.items_at(rest[i]) by {
            assert(rest[i] == ids[i]);
            assert(ids[i] != ids[n]);
        }
        lemma_sum_same(a, b, rest);
        assert(sum_items(b, ids).add(a.items_at(id).to_multiset()) =~= sum_items(a, ids).add(
            b.items_at(id).to_multiset(),
        ));
    } else {
        assert(k < n);
        assert(rest[k] == id);
        assert(a.items_at(ids[n]) == b.items_at(ids[n]));
        assert forall|i: int| 0 <= i < rest.len() && rest[i] != id implies a.items_at(
            #[trigger] rest[i],
        ) == b.items_at(rest[i]) by {
            assert(rest[i] == ids[i]);
        }
        lemma_sum_update(a, b, rest, id);
        let x = sum_items(b, rest).add(a.items_at(id).to_multiset());
        let y = sum_items(a, rest).add(b.items_at(id).to_multiset());
        assert forall|v: T|
            sum_items(b, ids).add(a.items_at(id).to_multiset()).count(v) == sum_items(a, ids).add(
                b.items_at(id).to_multiset(),
            ).count(v) by {
            assert(x.count(v) == y.count(v));
        }
        assert(sum_items(b, ids).add(a.items_at(id).to_multiset()) =~= sum_items(a, ids).add(
            b.items_at(id).to_multiset(),
        ));
    }
}

/// A list with one more node sums to the items of that node more.
pub proof fn lemma_sum_push<T, A: Arena<Reference<T>>>(s: Storage<T, A>, ids: Seq<usize>, id: usize)
    ensures
        sum_items(s, ids.push(id)) == sum_items(s, ids).add(s.items_at(id).to_multiset()),
{
    assert(ids.push(id).drop_last() =~= ids);
}

/// A list without one of its nodes sums to the items of that node less.
pub proof fn lemma_sum_remove<T, A: Arena<Reference<T>>>(s: Storage<T, A>, ids: Seq<usize>, k: int)
    requires
        0 <= k < ids.len(),
    ensures
        sum_items(s, ids.remove(k)).add(s.items_at(ids[k]).to_multiset()) == sum_items(s, ids),
    decreases ids.len(),
{
    let rest = ids.drop_last();
    if k == ids.len() - 1 {
        assert(ids.remove(k) =~= rest);
    } else {
        lemma_sum_remove(s, rest, k);
        assert(ids.remove(k).drop_last() =~= rest.remove(k));
        assert(ids.remove(k).last() == ids.last());
        let x = sum_items(s, rest.remove(k)).add(s.items_at(ids[k]).to_multiset());
        assert forall|v: T|
            sum_items(s, ids.remove(k)).add(s.items_at(ids[k]).to_multiset()).count(v)
                == sum_items(s, ids).count(v) by {
            assert(x.count(v) == sum_items(s, rest).count(v));
        }
        assert(sum_items(s, ids.remove(k)).add(s.items_at(ids[k]).to_multiset()) =~= sum_items(
            s,
            ids,
        ));
    }
}

/// What the sum holds, one of the listed nodes holds.
pub proof fn lemma_sum_contains<T, A: Arena<Reference<T>>>(s: Storage<T, A>, ids: Seq<usize>, x: T) -> (r: (int, int))
    requires
        sum_items(s, ids).count(x) > 0,
    ensures
        0 <= r.0 < ids.len(),
        0 <= r.1 < s.items_at(ids[r.0]).len(),
        s.items_at(ids[r.0])[r.1] == x,
    decreases ids.len(),
{
    if ids.len() == 0 {
        (0, 0)
    } else {
        let last = s.items_at(ids.last());
        if last.to_multiset().count(x) > 0 {
            last.to_multiset_ensures();
            let i = choose|i: int| 0 <= i < last.len() && last[i] == x;
            (ids.len() - 1, i)
        } else {
            let r = lemma_sum_contains(s, ids.drop_last(), x);
            r
        }
    }
}

/// What one of the listed nodes holds, the sum holds.
pub proof fn lemma_sum_holds<T, A: Arena<Reference<T>>>(s: Storage<T, A>, ids: Seq<usize>, k: int, i: int)
    requires
        0 <= k < ids.len(),
        0 <= i < s.items_at(ids[k]).len(),
    ensures
        sum_items(s, ids).count(s.items_at(ids[k])[i]) > 0,
    decreases ids.len(),
{
    if k == ids.len() - 1 {
        let last = s.items_at(ids.last());
        last.to_multiset_ensures();
        assert(last.contains(last[i]));
    } else {
        lemma_sum_holds(s, ids.drop_last(), k, i);
    }
}

/// The sum holds as many items as the listed nodes do.
pub open spec fn sum_counts<T, A: Arena<Reference<T>>>(s: Storage<T, A>, ids: Seq<usize>) -> nat
    decreases ids.len(),
{
    if ids.len() == 0 {
        0
    } else {
        sum_counts(s, ids.drop_last()) + s.items_at(ids.last()).len()
    }
}

pub proof fn lemma_sum_len<T, A: Arena<Reference<T>>>(s: Storage<T, A>, ids: Seq<usize>)
    ensures
        sum_items(s, ids).len() == sum_counts(s, ids),
    decreases ids.len(),
{
    if ids.len() > 0 {
        lemma_sum_len(s, ids.drop_last());
        s.items_at(ids.last()).to_multiset_ensures();
    }
}

} // verus!
