//! A walk over a tree that looks at every node, and what it finds.
use vstd::prelude::*;
use super::node::item::ranks_sorted;
use super::node::{max_capacity_of, min_capacity_of, node_validation};
use super::{KeyOrd, ValidationError};
use crate::slab::{Arena, Storage};
use crate::btree::node::Reference;

verus! {

/// The item behind a reference, if any.
pub open spec fn owned<T>(item: Option<&T>) -> Option<T> {
    match item {
        Some(x) => Some(*x),
        None => None,
    }
}

/// The nearer of two bounds: the node's own where it has one, else that
/// of the node above.
pub open spec fn nearer<T>(own: Option<T>, outer: Option<T>) -> Option<T> {
    if own.is_some() {
        own
    } else {
        outer
    }
}

/// The depth of a node over children that have the given depth, if there
/// are any.
pub open spec fn depth_over(below: Option<usize>) -> usize {
    match below {
        Some(d) => (d + 1) as usize,
        None => 0,
    }
}

impl<T: KeyOrd, A: Arena<Reference<T>>> Storage<T, A> {
    /// The item, if any, has the rank that the bound gives, and there is
    /// an item if and only if there is a bound.
    pub open spec fn is_bound(item: Option<T>, bound: Option<int>) -> bool {
        match item {
            Some(x) => bound == Some(x.key_rank()),
            None => bound.is_none(),
        }
    }

    /// The level of a node: `0` for one that is not there, else one more
    /// than its recorded height.
    pub open spec fn level(&self, id: usize) -> nat {
        if self.has(id) {
            self.height(id) + 1
        } else {
            0
        }
    }

    /// No node stands under itself: the level of a node is above that of
    /// each of its children.
    ///
    /// This asks nothing else of the nodes, so that a walk from the root
    /// downwards ends in a tree that is broken, too.
    pub open spec fn descending(&self) -> bool {
        forall|id: usize, i: int|
            self.has(id) && 0 <= i < self.kids_at(id).len() ==> self.level(
                #[trigger] self.kids_at(id)[i],
            ) < self.level(id) <= usize::MAX
    }

    /// The item on the left of the child with the given index, if any.
    pub open spec fn left_of(&self, id: usize, i: int) -> Option<T> {
        if !self.node_at(id).is_leaf_node() && 0 < i <= self.items_at(id).len() {
            Some(self.items_at(id)[i - 1])
        } else {
            None
        }
    }

    /// The item on the right of the child with the given index, if any.
    pub open spec fn right_of(&self, id: usize, i: int) -> Option<T> {
        if !self.node_at(id).is_leaf_node() && 0 <= i < self.items_at(id).len() {
            Some(self.items_at(id)[i])
        } else {
            None
        }
    }

    /// What the walk finds at the node `id` and under it, when the node is
    /// expected to name `parent` and to stand between `min` and `max`: the
    /// first fault on the way, which goes through a node before its
    /// children and through the children from left to right, or the depth
    /// of the leaves under the node.
    pub open spec fn validation_of(
        &self,
        id: usize,
        parent: Option<usize>,
        min: Option<T>,
        max: Option<T>,
    ) -> Result<usize, ValidationError>
        decreases self.level(id), self.kids_at(id).len() + 1,
    {
        if !self.has(id) {
            Err(ValidationError::MissingNode(id))
        } else {
            match node_validation(self.node_at(id), id, parent, min, max) {
                Err(e) => Err(e),
                Ok(_) => match self.kids_validation(id, min, max, self.kids_at(id).len()) {
                    Err(e) => Err(e),
                    Ok(below) => Ok(depth_over(below)),
                },
            }
        }
    }

    /// What the walk finds under the first `n` children of the node `id`:
    /// the first fault, or the one depth of the leaves under them, if
    /// `n` is not `0`.
    pub open spec fn kids_validation(
        &self,
        id: usize,
        min: Option<T>,
        max: Option<T>,
        n: nat,
    ) -> Result<Option<usize>, ValidationError>
        decreases self.level(id), n,
    {
        if n == 0 {
            Ok(None)
        } else {
            match self.kids_validation(id, min, max, (n - 1) as nat) {
                Err(e) => Err(e),
                Ok(before) => match self.kid_validation(id, min, max, n - 1) {
                    Err(e) => Err(e),
                    Ok(d) => if before.is_some() && before != Some(d) {
                        Err(ValidationError::NotBalanced)
                    } else {
                        Ok(Some(d))
                    },
                },
            }
        }
    }

    /// What the walk finds at the child with the index `i` of the node
    /// `id` and under it.
    pub open spec fn kid_validation(
        &self,
        id: usize,
        min: Option<T>,
        max: Option<T>,
        i: int,
    ) -> Result<usize, ValidationError>
        decreases self.level(id), 0nat,
    {
        let kid = self.kids_at(id)[i];
        if self.level(kid) < self.level(id) {
            self.validation_of(
                kid,
                Some(id),
                nearer(self.left_of(id, i), min),
                nearer(self.right_of(id, i), max),
            )
        } else {
            Err(ValidationError::NotBalanced)
        }
    }

    /// What [`Storage::validate`] answers: the first fault that the walk
    /// from the root finds, if any.
    pub open spec fn validation(&self) -> Result<(), ValidationError> {
        match self.root {
            None => Ok(()),
            Some(id) => match self.validation_of(id, None, None, None) {
                Ok(_) => Ok(()),
                Err(e) => Err(e),
            },
        }
    }

    /// In a tree that meets its invariant no node stands under itself.
    pub proof fn lemma_descending(&self)
        requires
            self.wf(),
        ensures
            self.descending(),
    {
        assert forall|id: usize, i: int|
            self.has(id) && 0 <= i < self.kids_at(id).len() implies self.level(
                #[trigger] self.kids_at(id)[i],
            ) < self.level(id) <= usize::MAX by {
            assert(self.node_ok(id, None));
            assert(self.kid_ok(id, i));
            self.lemma_height();
        }
    }

    /// A fault among the first children is the fault of all of them.
    pub proof fn lemma_fault_stays(&self, id: usize, min: Option<T>, max: Option<T>, n: nat, m: nat)
        requires
            n <= m,
            self.kids_validation(id, min, max, n) is Err,
        ensures
            self.kids_validation(id, min, max, m) == self.kids_validation(id, min, max, n),
        decreases m,
    {
        if n < m {
            self.lemma_fault_stays(id, min, max, n, (m - 1) as nat);
        }
    }

    /// In a tree that meets its invariant the walk finds no fault at a node
    /// or under it, and the leaves under the node at the depth that is
    /// its height.
    pub proof fn lemma_node_passes(&self, id: usize, min: Option<T>, max: Option<T>)
        requires
            self.wf(),
            self.has(id),
            Self::is_bound(min, self.low(id)),
            Self::is_bound(max, self.high(id)),
        ensures
            self.validation_of(id, self.node_at(id).parent_id(), min, max) == Ok::<
                usize,
                ValidationError,
            >(self.height(id) as usize),
        decreases self.level(id), self.kids_at(id).len() + 1,
    {
        assert(self.node_ok(id, None));
        self.lemma_height();
        if self.root == Some(id) {
            assert(min.is_none() && max.is_none());
        }
        super::node::lemma_adjacent_sorted(self.items_at(id));
        assert(node_validation(self.node_at(id), id, self.node_at(id).parent_id(), min, max) is Ok);
        self.lemma_kids_pass(id, min, max, self.kids_at(id).len());
    }

    /// In a tree that meets its invariant the walk finds no fault under
    /// the first `n` children of a node.
    pub proof fn lemma_kids_pass(&self, id: usize, min: Option<T>, max: Option<T>, n: nat)
        requires
            self.wf(),
            self.has(id),
            Self::is_bound(min, self.low(id)),
            Self::is_bound(max, self.high(id)),
            n <= self.kids_at(id).len(),
        ensures
            self.kids_validation(id, min, max, n) == Ok::<Option<usize>, ValidationError>(
                if n == 0 {
                    None
                } else {
                    Some((self.height(id) - 1) as usize)
                },
            ),
        decreases self.level(id), n,
    {
        if n > 0 {
            assert(self.node_ok(id, None));
            self.lemma_height();
            let i = n - 1;
            assert(self.kid_ok(id, i));
            self.lemma_kids_pass(id, min, max, (n - 1) as nat);
            let kid = self.kids_at(id)[i];
            self.lemma_node_passes(
                kid,
                nearer(self.left_of(id, i), min),
                nearer(self.right_of(id, i), max),
            );
            assert(self.level(kid) < self.level(id));
            assert(self.kid_validation(id, min, max, i) == Ok::<usize, ValidationError>(
                self.height(kid) as usize,
            ));
            assert(self.kids_validation(id, min, max, (n - 1) as nat) is Ok);
        }
    }

    /// A tree that meets its invariant passes.
    pub proof fn lemma_validation_passes(&self)
        requires
            self.wf(),
        ensures
            self.validation() == Ok::<(), ValidationError>(()),
    {
        if let Some(id) = self.root {
            assert(self.node_ok(id, None));
            self.lemma_node_passes(id, None, None);
        }
    }

    /// Where the walk finds no fault under the children of a node, it
    /// finds none under any of them, and the leaves under all of them at
    /// one depth.
    pub proof fn lemma_passed_kids(
        &self,
        id: usize,
        min: Option<T>,
        max: Option<T>,
        n: nat,
        i: int,
    )
        requires
            self.kids_validation(id, min, max, n) is Ok,
            0 <= i < n,
        ensures
            self.kids_validation(id, min, max, n)->Ok_0 is Some,
            self.kid_validation(id, min, max, i) == Ok::<usize, ValidationError>(
                self.kids_validation(id, min, max, n)->Ok_0->Some_0,
            ),
        decreases n,
    {
        if i < n - 1 {
            self.lemma_passed_kids(id, min, max, (n - 1) as nat, i);
        }
    }

    /// What it means that the walk finds no fault at a node or under it:
    /// the node is there and names the expected parent; below a bound it
    /// is balanced; its items are sorted, between the bounds; and the
    /// walk finds no fault at any of its children, each between the items
    /// around it, with the leaves under all of them at one depth.
    pub proof fn lemma_passed(
        &self,
        id: usize,
        parent: Option<usize>,
        min: Option<T>,
        max: Option<T>,
    )
        requires
            self.validation_of(id, parent, min, max) is Ok,
        ensures
            self.has(id),
            self.node_at(id).parent_id() == parent,
            min.is_some() || max.is_some() ==> min_capacity_of(self.node_at(id).is_leaf_node())
                <= self.items_at(id).len() < max_capacity_of(self.node_at(id).is_leaf_node()),
            ranks_sorted(self.items_at(id)),
            min.is_some() && self.items_at(id).len() > 0 ==> min.unwrap().key_rank()
                < self.items_at(id)[0].key_rank(),
            max.is_some() && self.items_at(id).len() > 0 ==> self.items_at(id).last().key_rank()
                < max.unwrap().key_rank(),
            forall|i: int|
                0 <= i < self.kids_at(id).len() ==> self.has(#[trigger] self.kids_at(id)[i])
                    && self.validation_of(
                    self.kids_at(id)[i],
                    Some(id),
                    nearer(self.left_of(id, i), min),
                    nearer(self.right_of(id, i), max),
                ) is Ok && depth_over(
                    Some(
                        self.validation_of(
                            self.kids_at(id)[i],
                            Some(id),
                            nearer(self.left_of(id, i), min),
                            nearer(self.right_of(id, i), max),
                        )->Ok_0,
                    ),
                ) == self.validation_of(id, parent, min, max)->Ok_0,
    {
        let n = self.kids_at(id).len();
        assert forall|i: int| 0 <= i < n implies self.has(#[trigger] self.kids_at(id)[i])
            && self.validation_of(
            self.kids_at(id)[i],
            Some(id),
            nearer(self.left_of(id, i), min),
            nearer(self.right_of(id, i), max),
        ) is Ok && depth_over(
            Some(
                self.validation_of(
                    self.kids_at(id)[i],
                    Some(id),
                    nearer(self.left_of(id, i), min),
                    nearer(self.right_of(id, i), max),
                )->Ok_0,
            ),
        ) == self.validation_of(id, parent, min, max)->Ok_0 by {
            self.lemma_passed_kids(id, min, max, n, i);
            assert(self.kid_validation(id, min, max, i) is Ok);
        }
    }

    /// Checks the tree against its invariant: that every node is there
    /// and names the parent that lists it, that every node but the root
    /// is balanced, that the items of every node are sorted, between the
    /// items of the nodes above, and that all leaves are at one depth.
    ///
    /// Answers with the first fault that the walk finds. A tree that meets
    /// its invariant passes.
    pub fn validate(&self) -> (r: Result<(), ValidationError>)
        requires
            self.wf() || self.descending(),
        ensures
            r == self.validation(),
            self.wf() ==> r == Ok::<(), ValidationError>(()),
    {
        proof {
            if self.wf() {
                self.lemma_validation_passes();
            }
        }
        if let Some(id) = self.root {
            match self.validate_node(id, None, None, None) {
                Ok(_) => (),
                Err(e) => return Err(e),
            }
        }
        Ok(())
    }

    /// Validate the given node and the nodes under it, and returns the
    /// depth of the leaves under the node.
    pub fn validate_node<'a>(
        &'a self,
        id: usize,
        parent: Option<usize>,
        min: Option<&'a T>,
        max: Option<&'a T>,
    ) -> (r: Result<usize, ValidationError>)
        requires
            self.wf() || self.descending(),
        ensures
            r == self.validation_of(id, parent, owned(min), owned(max)),
            r is Ok ==> r.unwrap() < self.level(id),
        decreases self.level(id),
    {
        proof {
            if self.wf() {
                self.lemma_descending();
            }
        }
        let node = match self.node(id) {
            Some(node) => node,
            None => return Err(ValidationError::MissingNode(id)),
        };
        let (lo, hi) = match node.validate(id, parent, min, max) {
            Ok(bounds) => bounds,
            Err(e) => return Err(e),
        };
        let mut depth: Option<usize> = None;
        let children = node.children().collect();
        let mut i: usize = 0;
        while i < children.len()
            invariant
                self.descending(),
                self.has(id),
                *node == self.node_at(id),
                children@ == self.kids_at(id),
                i <= children@.len(),
                lo == min,
                hi == max,
                node_validation(*node, id, parent, owned(lo), owned(hi)) is Ok,
                self.kids_validation(id, owned(lo), owned(hi), i as nat) == Ok::<
                    Option<usize>,
                    ValidationError,
                >(depth),
                depth is Some ==> depth.unwrap() + 1 < self.level(id) <= usize::MAX,
            decreases children@.len() - i,
        {
            let child_id = children[i];
            let (child_min, child_max) = node.separators(i);
            let child_min = if child_min.is_some() {
                child_min
            } else {
                lo
            };
            let child_max = if child_max.is_some() {
                child_max
            } else {
                hi
            };
            proof {
                assert(owned(child_min) == nearer(self.left_of(id, i as int), owned(lo)));
                assert(owned(child_max) == nearer(self.right_of(id, i as int), owned(hi)));
                assert(child_id == self.kids_at(id)[i as int]);
            }
            let child_depth = match self.validate_node(child_id, Some(id), child_min, child_max) {
                Ok(d) => d,
                Err(e) => {
                    proof {
                        assert(self.level(child_id) < self.level(id));
                        assert(self.kid_validation(id, owned(lo), owned(hi), i as int) == Err::<
                            usize,
                            ValidationError,
                        >(e));
                        assert(self.kids_validation(id, owned(lo), owned(hi), (i + 1) as nat)
                            == Err::<Option<usize>, ValidationError>(e));
                        self.lemma_fault_stays(
                            id,
                            owned(lo),
                            owned(hi),
                            (i + 1) as nat,
                            children@.len(),
                        );
                    }
                    return Err(e);
                },
            };
            proof {
                assert(self.level(child_id) < self.level(id));
                assert(self.kid_validation(id, owned(lo), owned(hi), i as int) == Ok::<
                    usize,
                    ValidationError,
                >(child_depth));
            }
            match depth {
                None => depth = Some(child_depth),
                Some(depth) => {
                    if depth != child_depth {
                        proof {
                            assert(self.kids_validation(id, owned(lo), owned(hi), (i + 1) as nat)
                                == Err::<Option<usize>, ValidationError>(
                                ValidationError::NotBalanced,
                            ));
                            self.lemma_fault_stays(
                                id,
                                owned(lo),
                                owned(hi),
                                (i + 1) as nat,
                                children@.len(),
                            );
                        }
                        return Err(ValidationError::NotBalanced);
                    }
                },
            }
            i += 1;
        }
        Ok(
            match depth {
                Some(depth) => depth + 1,
                None => 0,
            },
        )
    }
}

} // verus!
