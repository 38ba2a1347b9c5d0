//! Comparing nodes as they stand in memory.

use crate::node::{
    lemma_branch_model, lemma_leaf_model, Link, link_slot, LinkModel, Node, NodeModel,
    value_slot,
};
use crate::node::wire::link_id;
use crate::store::bytes_equal;
use vstd::prelude::*;

verus! {

/// Whether two slots of branches are alike: both empty, or both pending with subtrees
/// that are alike, or both stored under the same content hash, whatever is held beside
/// it.
pub open spec fn alike_slots(a: Option<LinkModel>, b: Option<LinkModel>) -> bool
    decreases a, 0nat,
{
    match (a, b) {
        (None, None) => true,
        (Some(LinkModel::Pending(c)), Some(LinkModel::Pending(d))) => alike(c, d),
        (Some(LinkModel::Pending(_)), _) => false,
        (_, Some(LinkModel::Pending(_))) => false,
        (Some(l), Some(m)) => link_id(l) == link_id(m),
        _ => false,
    }
}

/// Whether two nodes are alike as they stand in memory: leaves with the same values, or
/// branches whose slots are alike. A pending subtree is never like a stored one, though
/// they may hold the same.
pub open spec fn alike(a: NodeModel, b: NodeModel) -> bool
    decreases a, 1nat,
{
    match (a, b) {
        (NodeModel::Leaf(x), NodeModel::Leaf(y)) => x == y,
        (NodeModel::Branch(x), NodeModel::Branch(y)) => x.len() == y.len() && forall|k: int|
            0 <= k < x.len() ==> alike_slots(#[trigger] x[k], y[k]),
        _ => false,
    }
}

impl Link {
    /// Whether two references are alike.
    pub fn same_as(&self, other: &Link) -> (b: bool)
        ensures
            b == alike_slots(Some(self@), Some(other@)),
        decreases self, 0nat,
    {
        match (self, other) {
            (Link::Cid { cid: a, .. }, Link::Cid { cid: b, .. }) => a.same(b),
            (Link::Dirty(a), Link::Dirty(b)) => a.same_as(b),
            _ => false,
        }
    }
}

impl Node {
    /// Whether two nodes are alike as they stand in memory.
    #[verifier::loop_isolation(false)]
    pub fn same_as(&self, other: &Node) -> (b: bool)
        ensures
            b == alike(self@, other@),
        decreases self, 1nat,
    {
        match (self, other) {
            (Node::Leaf { vals: a }, Node::Leaf { vals: b }) => {
                proof {
                    lemma_leaf_model(*a);
                    lemma_leaf_model(*b);
                }
                if a.len() != b.len() {
                    assert(self@->Leaf_0.len() != other@->Leaf_0.len());
                    return false;
                }
                let mut k: usize = 0;
                while k < a.len()
                    invariant
                        k <= a.len(),
                        forall|j: int| 0 <= j < k ==> value_slot(a[j]) == value_slot(b[j]),
                    decreases a.len() - k,
                {
                    let same = match (&a[k], &b[k]) {
                        (None, None) => true,
                        (Some(x), Some(y)) => bytes_equal(x, y),
                        _ => false,
                    };
                    if !same {
                        assert(self@->Leaf_0[k as int] != other@->Leaf_0[k as int]);
                        return false;
                    }
                    k += 1;
                }
                assert(self@->Leaf_0 =~= other@->Leaf_0);
                true
            },
            (Node::Link { links: a }, Node::Link { links: b }) => {
                proof {
                    lemma_branch_model(*a);
                    lemma_branch_model(*b);
                }
                if a.len() != b.len() {
                    return false;
                }
                let mut k: usize = 0;
                while k < a.len()
                    invariant
                        k <= a.len(),
                        forall|j: int| 0 <= j < k ==> alike_slots(link_slot(a[j]), link_slot(b[j])),
                    decreases a.len() - k,
                {
                    let same = match (&a[k], &b[k]) {
                        (None, None) => true,
                        (Some(x), Some(y)) => x.same_as(y),
                        _ => false,
                    };
                    if !same {
                        assert(!alike_slots(self@->Branch_0[k as int], other@->Branch_0[k as int]));
                        return false;
                    }
                    k += 1;
                }
                assert forall|j: int| 0 <= j < self@->Branch_0.len() implies alike_slots(
                    #[trigger] self@->Branch_0[j],
                    other@->Branch_0[j],
                ) by {
                    assert(alike_slots(link_slot(a[j]), link_slot(b[j])));
                }
                true
            },
            _ => false,
        }
    }
}

} // verus!
