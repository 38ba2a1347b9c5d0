//! Between a node and its wire form: expanding what was read, collapsing what is to be
//! stored.

use crate::codec::{
    bit_set, bitmap, bitmap_of, bmap_bytes, bmap_len, CollapsedNode, expand_branch, expand_leaf,
    ids_of, in_use, lemma_bmap_len, lemma_packed_step, lemma_rank_monotone,
    lemma_spread_of_packed, NodeParts, packed, payloads_of, rank, slots, spread,
};
use crate::error::Error;
use crate::limits::{fanout, valid_bit_width};
use crate::node::{
    committed, lemma_branch_model, lemma_leaf_model, lemma_vacancy, Link, link_slot, LinkModel,
    Node, NodeModel, shaped, stored_slot, used, vacant, value_slot,
};
use crate::store::ContentId;
use vstd::prelude::*;

verus! {

/// The node that a wire form stands for: a branch whose references are stored subtrees
/// where it has links, else a leaf. `None` where it stands for neither.
pub open spec fn expand_model(parts: NodeParts, bit_width: u32) -> Option<NodeModel> {
    match expand_branch(parts, bit_width) {
        Some(ids) => Some(NodeModel::Branch(ids.map_values(|slot| stored_slot(slot)))),
        None => match expand_leaf(parts, bit_width) {
            Some(vals) => Some(NodeModel::Leaf(vals)),
            None => None,
        },
    }
}

impl CollapsedNode {
    /// The node that this wire form stands for, with every slot in place. Fails with
    /// `Codec` exactly when the wire form stands for no node of this bit width.
    pub fn expand(self, bit_width: u32) -> (res: Result<Node, Error>)
        requires
            valid_bit_width(bit_width),
        ensures
            res is Ok <==> expand_model(self@, bit_width) is Some,
            res matches Ok(node) ==> Some(node@) == expand_model(self@, bit_width),
            res matches Err(e) ==> e is Codec,
    {
        if self.links.len() > 0 && self.values.len() > 0 {
            return Err(Error::Codec("a node holds links and values".to_owned()));
        }
        if self.bmap.len() != bmap_bytes(bit_width) {
            return Err(Error::Codec("the bitmap of a node has the wrong length".to_owned()));
        }
        let n = slots(bit_width);
        let ghost parts = self@;
        if self.links.len() > 0 {
            let mut links: Vec<Option<Link>> = Vec::new();
            let mut next: usize = 0;
            let mut k: usize = 0;
            while k < n
                invariant
                    k <= n,
                    n == fanout(bit_width),
                    8 * self.bmap.len() >= n,
                    links.len() == k,
                    next == rank(self.bmap@, k as nat),
                    next <= self.links.len(),
                    parts == self@,
                    self.links.len() > 0,
                    self.values.len() == 0,
                    self.bmap.len() == bmap_len(bit_width),
                    forall|j: int|
                        0 <= j < k ==> link_slot(#[trigger] links[j]) == stored_slot(
                            spread(parts.bmap, parts.links, n as nat)[j],
                        ),
                decreases n - k,
            {
                if bit_set(&self.bmap, k) {
                    if next >= self.links.len() {
                        proof {
                            assert(rank(self.bmap@, (k + 1) as nat) == next + 1);
                            lemma_rank_monotone(self.bmap@, (k + 1) as nat, n as nat);
                        }
                        return Err(Error::Codec("a node has fewer links than its bitmap".to_owned()));
                    }
                    links.push(Some(Link::Cid { cid: self.links[next].clone(), cache: None }));
                    next += 1;
                } else {
                    links.push(None);
                }
                k += 1;
            }
            if next != self.links.len() {
                return Err(Error::Codec("a node has more links than its bitmap".to_owned()));
            }
            proof {
                lemma_branch_model(links);
                let ids = spread(parts.bmap, parts.links, n as nat);
                assert(Seq::new(links.len() as nat, |k: int| link_slot(links[k])) =~= ids.map_values(
                    |slot| stored_slot(slot),
                ));
            }
            Ok(Node::Link { links })
        } else {
            let mut vals: Vec<Option<Vec<u8>>> = Vec::new();
            let mut next: usize = 0;
            let mut k: usize = 0;
            while k < n
                invariant
                    k <= n,
                    n == fanout(bit_width),
                    8 * self.bmap.len() >= n,
                    vals.len() == k,
                    next == rank(self.bmap@, k as nat),
                    next <= self.values.len(),
                    parts == self@,
                    self.links.len() == 0,
                    self.bmap.len() == bmap_len(bit_width),
                    forall|j: int|
                        0 <= j < k ==> value_slot(#[trigger] vals[j]) == spread(
                            parts.bmap,
                            parts.values,
                            n as nat,
                        )[j],
                decreases n - k,
            {
                if bit_set(&self.bmap, k) {
                    if next >= self.values.len() {
                        proof {
                            assert(rank(self.bmap@, (k + 1) as nat) == next + 1);
                            lemma_rank_monotone(self.bmap@, (k + 1) as nat, n as nat);
                        }
                        return Err(
                            Error::Codec("a node has fewer values than its bitmap".to_owned()),
                        );
                    }
                    vals.push(Some(self.values[next].clone()));
                    next += 1;
                } else {
                    vals.push(None);
                }
                k += 1;
            }
            if next != self.values.len() {
                return Err(Error::Codec("a node has more values than its bitmap".to_owned()));
            }
            proof {
                lemma_leaf_model(vals);
                assert(Seq::new(vals.len() as nat, |k: int| value_slot(vals[k])) =~= spread(
                    parts.bmap,
                    parts.values,
                    n as nat,
                ));
            }
            Ok(Node::Leaf { vals })
        }
    }
}

/// The content hash of a reference to a stored subtree.
pub open spec fn link_id(link: LinkModel) -> Seq<u8> {
    match link {
        LinkModel::Cached(id, _) => id,
        LinkModel::Stored(id) => id,
        LinkModel::Pending(_) => Seq::empty(),
    }
}

/// The content hash in a slot of a branch.
pub open spec fn slot_id(slot: Option<LinkModel>) -> Option<Seq<u8>> {
    match slot {
        Some(link) => Some(link_id(link)),
        None => None,
    }
}

/// Whether no reference of a branch is pending.
pub open spec fn sealed(links: Seq<Option<LinkModel>>) -> bool {
    forall|k: int| 0 <= k < links.len() ==> !(#[trigger] links[k] matches Some(LinkModel::Pending(_)))
}

/// The wire form of a node: the bitmap of its slots in use, and the values of a leaf or
/// the content hashes of a branch, packed. A branch with a pending reference has none.
pub open spec fn collapse_model(node: NodeModel, bit_width: u32) -> Option<NodeParts> {
    match node {
        NodeModel::Leaf(vals) => Some(
            NodeParts {
                bmap: bitmap_of(in_use(vals), bmap_len(bit_width)),
                links: Seq::empty(),
                values: packed(vals),
            },
        ),
        NodeModel::Branch(links) => if sealed(links) {
            Some(
                NodeParts {
                    bmap: bitmap_of(in_use(links), bmap_len(bit_width)),
                    links: packed(links.map_values(|slot| slot_id(slot))),
                    values: Seq::empty(),
                },
            )
        } else {
            None
        },
    }
}

impl Node {
    /// The wire form of this node. Fails with `Codec` exactly when a reference of it is
    /// pending.
    pub fn collapse(&self, bit_width: u32) -> (res: Result<CollapsedNode, Error>)
        requires
            valid_bit_width(bit_width),
        ensures
            res is Ok <==> collapse_model(self@, bit_width) is Some,
            res matches Ok(c) ==> Some(c@) == collapse_model(self@, bit_width),
            res matches Err(e) ==> e is Codec,
    {
        let n_bytes = bmap_bytes(bit_width);
        match self {
            Node::Leaf { vals } => {
                proof {
                    lemma_leaf_model(*vals);
                }
                let ghost model = self@->Leaf_0;
                let mut used: Vec<bool> = Vec::new();
                let mut values: Vec<Vec<u8>> = Vec::new();
                let mut k: usize = 0;
                while k < vals.len()
                    invariant
                        k <= vals.len(),
                        model.len() == vals.len(),
                        forall|j: int| 0 <= j < vals.len() ==> model[j] == value_slot(vals[j]),
                        used@ == in_use(model.take(k as int)),
                        payloads_of(values@) == packed(model.take(k as int)),
                    decreases vals.len() - k,
                {
                    proof {
                        lemma_packed_step(model, k as int);
                    }
                    let ghost values_before = values@;
                    match &vals[k] {
                        Some(v) => {
                            used.push(true);
                            values.push(v.clone());
                            assert(payloads_of(values@) =~= payloads_of(values_before).push(v@));
                        },
                        None => {
                            used.push(false);
                        },
                    }
                    assert(used@ =~= in_use(model.take(k + 1)));
                    k += 1;
                }
                assert(model.take(k as int) =~= model);
                let collapsed = CollapsedNode { bmap: bitmap(&used, n_bytes), links: Vec::new(), values };
                assert(ids_of(collapsed.links@) =~= Seq::<Seq<u8>>::empty());
                Ok(collapsed)
            },
            Node::Link { links } => {
                proof {
                    lemma_branch_model(*links);
                }
                let ghost model = self@->Branch_0;
                let ghost targets = model.map_values(|slot| slot_id(slot));
                let mut used: Vec<bool> = Vec::new();
                let mut ids: Vec<ContentId> = Vec::new();
                let mut k: usize = 0;
                while k < links.len()
                    invariant
                        k <= links.len(),
                        model.len() == links.len(),
                        self@ == NodeModel::Branch(model),
                        targets == model.map_values(|slot| slot_id(slot)),
                        forall|j: int| 0 <= j < links.len() ==> model[j] == link_slot(links[j]),
                        forall|j: int| 0 <= j < k ==> !(#[trigger] model[j] matches Some(LinkModel::Pending(_))),
                        used@ == in_use(model.take(k as int)),
                        ids_of(ids@) == packed(targets.take(k as int)),
                    decreases links.len() - k,
                {
                    proof {
                        lemma_packed_step(targets, k as int);
                    }
                    let ghost ids_before = ids@;
                    match &links[k] {
                        Some(Link::Cid { cid, .. }) => {
                            used.push(true);
                            ids.push(cid.clone());
                            assert(ids_of(ids@) =~= ids_of(ids_before).push(cid@));
                        },
                        Some(Link::Dirty(_)) => {
                            assert(model[k as int] matches Some(LinkModel::Pending(_)));
                            return Err(Error::Codec("a pending reference has no stored form".to_owned()));
                        },
                        None => {
                            used.push(false);
                        },
                    }
                    assert(used@ =~= in_use(model.take(k + 1)));
                    k += 1;
                }
                assert(model.take(k as int) =~= model);
                assert(targets.take(k as int) =~= targets);
                let collapsed = CollapsedNode { bmap: bitmap(&used, n_bytes), links: ids, values: Vec::new() };
                assert(payloads_of(collapsed.values@) =~= Seq::<Seq<u8>>::empty());
                Ok(collapsed)
            },
        }
    }
}

/// A node from which no pending reference can be reached has none of its own.
pub proof fn lemma_committed_is_sealed(node: NodeModel, height: nat, bit_width: u32)
    requires
        committed(node, height),
        node is Branch ==> height > 0,
    ensures
        collapse_model(node, bit_width) is Some,
{
    match node {
        NodeModel::Leaf(_) => {},
        NodeModel::Branch(links) => {
            assert(sealed(links));
        },
    }
}

/// A node as it is read back from its wire form: each reference of a branch is to a
/// stored subtree, by its content hash alone.
pub open spec fn stored_form(node: NodeModel) -> NodeModel {
    match node {
        NodeModel::Leaf(_) => node,
        NodeModel::Branch(links) => NodeModel::Branch(
            links.map_values(|slot| stored_slot(slot_id(slot))),
        ),
    }
}

/// Expanding the wire form of a node gives the node back, as it is read from a store. A
/// branch needs a slot in use for that: with none, its wire form is that of a leaf.
pub proof fn lemma_expand_collapse(node: NodeModel, bit_width: u32, height: nat)
    requires
        valid_bit_width(bit_width),
        shaped(node, bit_width, height),
        collapse_model(node, bit_width) is Some,
        node is Branch ==> !vacant(node),
    ensures
        expand_model(collapse_model(node, bit_width).unwrap(), bit_width) == Some(
            stored_form(node),
        ),
        shaped(stored_form(node), bit_width, height),
{
    lemma_bmap_len(bit_width);
    let parts = collapse_model(node, bit_width).unwrap();
    match node {
        NodeModel::Leaf(vals) => {
            lemma_spread_of_packed(vals, bmap_len(bit_width));
        },
        NodeModel::Branch(links) => {
            let ids = links.map_values(|slot| slot_id(slot));
            assert(in_use(ids) =~= in_use(links));
            lemma_spread_of_packed(ids, bmap_len(bit_width));
            lemma_vacancy(node);
            let k = choose|k: int| used(node, k);
            crate::codec::lemma_packed_prefix(ids, k + 1, ids.len() as int);
            lemma_packed_step(ids, k);
            assert(ids.take(ids.len() as int) =~= ids);
            assert(parts.links.len() > 0);
            let back = expand_model(parts, bit_width).unwrap();
            assert(back->Branch_0 =~= stored_form(node)->Branch_0);
        },
    }
}

} // verus!
