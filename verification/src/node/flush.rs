//! Storing the pending subtrees of a subtree, from the leaves up.

use crate::codec::{encode_node, node_encoding};
use crate::error::{Error, Fault};
use crate::limits::{lemma_span_step, span, valid_bit_width};
use crate::node::{
    committed, lemma_branch_model, Link, link_slot, LinkModel, lookup, Node, node_model,
    NodeModel, resolve, shaped,
};
use crate::node::wire::{collapse_model, lemma_committed_is_sealed};
use crate::store::{Blocks, content_id, put_block, store_blocks};
use fvm_ipld_blockstore::MemoryBlockstore;
use crate::node::{same_slots, used};
use vstd::prelude::*;

verus! {

/// The content hash under which a node is stored: that of the encoding of its wire form.
/// `None` where it has no wire form, or its wire form no encoding.
pub open spec fn node_id(node: NodeModel, bit_width: u32) -> Option<Seq<u8>> {
    match collapse_model(node, bit_width) {
        Some(parts) => match node_encoding(parts.bmap, parts.links, parts.values) {
            Some(block) => Some(content_id(block)),
            None => None,
        },
        None => None,
    }
}

/// A slot of a branch after the subtree in it was stored: a pending subtree of `height`
/// is stored from its leaves up and then held beside its content hash; any other slot is
/// as before. `None` where a node of the subtree has no encoding.
pub open spec fn flushed_slot(slot: Option<LinkModel>, bit_width: u32, height: nat) -> Option<
    Option<LinkModel>,
>
    decreases height, 1nat,
{
    match slot {
        Some(LinkModel::Pending(child)) => match flushed(child, bit_width, height) {
            Some(stored) => match node_id(stored, bit_width) {
                Some(id) => Some(Some(LinkModel::Cached(id, stored))),
                None => None,
            },
            None => None,
        },
        other => Some(other),
    }
}

/// A subtree of `height` after every pending subtree in it was stored. `None` where a
/// node of one has no encoding.
pub open spec fn flushed(node: NodeModel, bit_width: u32, height: nat) -> Option<NodeModel>
    decreases height, 0nat,
{
    match node {
        NodeModel::Leaf(_) => Some(node),
        NodeModel::Branch(links) => if height == 0 {
            Some(node)
        } else if forall|k: int|
            0 <= k < links.len() ==> flushed_slot(#[trigger] links[k], bit_width, (height - 1) as nat)
                is Some {
            Some(
                NodeModel::Branch(
                    Seq::new(
                        links.len(),
                        |k: int| flushed_slot(links[k], bit_width, (height - 1) as nat).unwrap(),
                    ),
                ),
            )
        } else {
            None
        },
    }
}

/// Whether the second store holds every block of the first, under the same content hash.
pub open spec fn extends(before: Blocks, after: Blocks) -> bool {
    forall|id: Seq<u8>| #[trigger]
        before.dom().contains(id) ==> after.dom().contains(id) && after[id] == before[id]
}

/// Whether a slot of a branch is as a flush may leave it, whether it went through or
/// not: as it was, or with its pending subtree flushed in part and still pending, or held
/// beside the content hash it was stored under.
pub open spec fn slot_flushed_in_part(before: Option<LinkModel>, after: Option<LinkModel>, height: nat)
    -> bool
    decreases height, 1nat,
{
    before == after || match (before, after) {
        (Some(LinkModel::Pending(c)), Some(LinkModel::Pending(d))) => flushed_in_part(c, d, height),
        (Some(LinkModel::Pending(c)), Some(LinkModel::Cached(_, d))) => flushed_in_part(
            c,
            d,
            height,
        ),
        _ => false,
    }
}

/// Whether a subtree of `height` is as a flush may leave it, whether it went through or
/// not: some of its pending subtrees are stored and held beside their content hashes,
/// and nothing else has changed.
pub open spec fn flushed_in_part(before: NodeModel, after: NodeModel, height: nat) -> bool
    decreases height, 0nat,
{
    match (before, after) {
        (NodeModel::Branch(x), NodeModel::Branch(y)) => if height == 0 {
            x == y
        } else {
            x.len() == y.len() && forall|k: int|
                0 <= k < x.len() ==> slot_flushed_in_part(
                    #[trigger] x[k],
                    y[k],
                    (height - 1) as nat,
                )
        },
        _ => before == after,
    }
}

/// A subtree that is flushed in part holds what it held, and has the same slots in use.
pub proof fn lemma_part_holds_the_same(
    before: NodeModel,
    after: NodeModel,
    blocks: Blocks,
    bit_width: u32,
    height: nat,
    i: nat,
)
    requires
        flushed_in_part(before, after, height),
    ensures
        lookup(after, blocks, bit_width, height, i) == lookup(before, blocks, bit_width, height, i),
        same_slots(before, after),
    decreases height,
{
    match (before, after) {
        (NodeModel::Branch(x), NodeModel::Branch(y)) => {
            if height > 0 {
                let h1 = (height - 1) as nat;
                assert forall|k: int| used(before, k) == #[trigger] used(after, k) by {
                    if 0 <= k < x.len() {
                        assert(slot_flushed_in_part(x[k], y[k], h1));
                    }
                }
                let slot = i / span(bit_width, height);
                lemma_span_step(bit_width, height);
                vstd::arithmetic::div_mod::lemma_div_pos_is_pos(
                    i as int,
                    span(bit_width, height) as int,
                );
                if slot < x.len() {
                    assert(slot_flushed_in_part(x[slot as int], y[slot as int], h1));
                    if x[slot as int] != y[slot as int] {
                        let c = x[slot as int]->Some_0->Pending_0;
                        let d = resolve(y[slot as int]->Some_0, blocks, bit_width, h1)->Ok_0;
                        lemma_part_holds_the_same(
                            c,
                            d,
                            blocks,
                            bit_width,
                            h1,
                            i % span(bit_width, height),
                        );
                    }
                }
            }
        },
        _ => {},
    }
}

/// A branch whose slots are each as a flush may leave them is as a flush may leave it.
pub proof fn lemma_part_branch(model: Seq<Option<LinkModel>>, links: Vec<Option<Link>>, height: nat)
    requires
        height > 0,
        model.len() == links.len(),
        forall|j: int|
            0 <= j < links.len() ==> slot_flushed_in_part(
                model[j],
                link_slot(#[trigger] links[j]),
                (height - 1) as nat,
            ),
    ensures
        flushed_in_part(NodeModel::Branch(model), node_model(Node::Link { links }), height),
{
    lemma_branch_model(links);
    let after = node_model(Node::Link { links })->Branch_0;
    assert forall|k: int| 0 <= k < model.len() implies slot_flushed_in_part(
        #[trigger] model[k],
        after[k],
        (height - 1) as nat,
    ) by {
        assert(after[k] == link_slot(links[k]));
    }
}

impl Node {
    /// Stores every pending subtree below this node of `height`, from the leaves up, and
    /// holds each beside the content hash it was stored under. A reference to a stored
    /// subtree is left as it is. Fails with `Codec` exactly when a node to be stored has
    /// no encoding; the subtrees that were stored before that stay stored.
    #[verifier::loop_isolation(false)]
    pub fn flush(&mut self, store: &mut MemoryBlockstore, bit_width: u32, height: u32) -> (res:
        Result<(), Error>)
        requires
            valid_bit_width(bit_width),
            shaped(old(self)@, bit_width, height as nat),
        ensures
            shaped(final(self)@, bit_width, height as nat),
            extends(store_blocks(*old(store)), store_blocks(*final(store))),
            res is Ok <==> flushed(old(self)@, bit_width, height as nat) is Some,
            res is Ok ==> Some(final(self)@) == flushed(old(self)@, bit_width, height as nat),
            res is Ok ==> committed(final(self)@, height as nat),
            res matches Err(e) ==> e is Codec,
            committed(old(self)@, height as nat) ==> store_blocks(*final(store)) == store_blocks(
                *old(store),
            ),
            flushed_in_part(old(self)@, final(self)@, height as nat),
        decreases height,
    {
        let ghost before = self@;
        let ghost at_return = *final(self);
        let ghost blocks0 = store_blocks(*store);
        match self {
            Node::Leaf { .. } => Ok(()),
            Node::Link { links } => {
                proof {
                    lemma_branch_model(*links);
                }
                let ghost model = before->Branch_0;
                let ghost h1 = (height - 1) as nat;
                let mut k: usize = 0;
                while k < links.len()
                    invariant
                        valid_bit_width(bit_width),
                        height > 0,
                        h1 == height - 1,
                        k <= links.len(),
                        before == NodeModel::Branch(model),
                        links.len() == model.len(),
                        at_return == (Node::Link { links: *final(links) }),
                        blocks0 == store_blocks(*old(store)),
                        shaped(node_model(Node::Link { links: *links }), bit_width, height as nat),
                        extends(blocks0, store_blocks(*store)),
                        committed(before, height as nat) ==> store_blocks(*store) == blocks0,
                        forall|j: int|
                            0 <= j < k ==> Some(link_slot(#[trigger] links[j])) == flushed_slot(
                                model[j],
                                bit_width,
                                h1,
                            ),
                        forall|j: int| k <= j < links.len() ==> link_slot(#[trigger] links[j]) == model[j],
                        forall|j: int|
                            0 <= j < links.len() ==> slot_flushed_in_part(
                                model[j],
                                link_slot(#[trigger] links[j]),
                                h1,
                            ),
                        forall|j: int|
                            0 <= j < k ==> !(link_slot(#[trigger] links[j]) matches Some(
                                LinkModel::Pending(_),
                            )),
                    decreases links.len() - k,
                {
                    let ghost links_before = *links;
                    proof {
                        lemma_branch_model(links_before);
                        assert(node_model(Node::Link { links: links_before })->Branch_0[k as int]
                            == link_slot(links_before[k as int]));
                    }
                    let taken = links[k].take();
                    match taken {
                        Some(Link::Dirty(node)) => {
                            let mut child: Node = *node;
                            let ghost child_before = child@;
                            assert(model[k as int] == Some(LinkModel::Pending(child_before)));
                            let flushed_child = child.flush(store, bit_width, height - 1);
                            match flushed_child {
                                Err(e) => {
                                    links[k] = Some(Link::Dirty(Box::new(child)));
                                    proof {
                                        lemma_shaped_update(links_before, *links, bit_width, height as nat, k as int);
                                        assert(flushed_slot(model[k as int], bit_width, h1) is None);
                                        assert forall|j: int| 0 <= j < links.len() implies slot_flushed_in_part(
                                            model[j],
                                            link_slot(#[trigger] links[j]),
                                            h1,
                                        ) by {
                                            if j != k {
                                                assert(links[j] == links_before[j]);
                                            }
                                        }
                                        lemma_part_branch(model, *links, height as nat);
                                    }
                                    return Err(e);
                                },
                                Ok(()) => {},
                            }
                            let wire = match child.collapse(bit_width) {
                                Ok(c) => c,
                                Err(e) => {
                                    proof {
                                        lemma_committed_is_sealed(child@, h1, bit_width);
                                    }
                                    links[k] = Some(Link::Dirty(Box::new(child)));
                                    return Err(e);
                                },
                            };
                            let block = match encode_node(&wire) {
                                Ok(b) => b,
                                Err(text) => {
                                    links[k] = Some(Link::Dirty(Box::new(child)));
                                    proof {
                                        lemma_shaped_update(links_before, *links, bit_width, height as nat, k as int);
                                        assert(flushed_slot(model[k as int], bit_width, h1) is None);
                                        assert forall|j: int| 0 <= j < links.len() implies slot_flushed_in_part(
                                            model[j],
                                            link_slot(#[trigger] links[j]),
                                            h1,
                                        ) by {
                                            if j != k {
                                                assert(links[j] == links_before[j]);
                                            }
                                        }
                                        lemma_part_branch(model, *links, height as nat);
                                    }
                                    return Err(Error::Codec(text));
                                },
                            };
                            let cid = match put_block(store, &block) {
                                Ok(cid) => cid,
                                Err(e) => {
                                    links[k] = Some(Link::Dirty(Box::new(child)));
                                    return Err(e);
                                },
                            };
                            links[k] = Some(Link::Cid { cid, cache: Some(Box::new(child)) });
                            proof {
                                lemma_shaped_update(links_before, *links, bit_width, height as nat, k as int);
                                assert(flushed_slot(model[k as int], bit_width, h1) == Some(
                                    link_slot(links[k as int]),
                                ));
                                assert forall|j: int| 0 <= j < links.len() implies slot_flushed_in_part(
                                    model[j],
                                    link_slot(#[trigger] links[j]),
                                    h1,
                                ) by {
                                    if j != k {
                                        assert(links[j] == links_before[j]);
                                    }
                                }
                            }
                        },
                        other => {
                            links[k] = other;
                            assert(links@ =~= links_before@);
                            assert(flushed_slot(model[k as int], bit_width, h1) == Some(
                                link_slot(links[k as int]),
                            ));
                        },
                    }
                    k += 1;
                }
                proof {
                    lemma_part_branch(model, *links, height as nat);
                    lemma_branch_model(*links);
                    let after = node_model(Node::Link { links: *links });
                    assert forall|j: int| 0 <= j < model.len() implies flushed_slot(
                        #[trigger] model[j],
                        bit_width,
                        h1,
                    ) == Some(link_slot(links[j])) by {}
                    let target = flushed(before, bit_width, height as nat);
                    assert(target is Some);
                    assert(after->Branch_0 =~= target.unwrap()->Branch_0);
                    assert forall|j: int| 0 <= j < after->Branch_0.len() implies match #[trigger] after->Branch_0[j] {
                        Some(LinkModel::Pending(_)) => false,
                        Some(LinkModel::Cached(_, child)) => committed(child, h1),
                        _ => true,
                    } by {
                        assert(after->Branch_0[j] == link_slot(links[j]));
                    }
                }
                Ok(())
            },
        }
    }
}

/// A branch stays of the right form when one of its slots is given a subtree of the
/// right form, which has no pending reference in it if it is held beside a content hash.
pub proof fn lemma_shaped_update(
    before: Vec<Option<Link>>,
    after: Vec<Option<Link>>,
    bit_width: u32,
    height: nat,
    k: int,
)
    requires
        height > 0,
        0 <= k < before.len(),
        before.len() == after.len(),
        shaped(node_model(Node::Link { links: before }), bit_width, height),
        forall|j: int| 0 <= j < before.len() && j != k ==> after[j] == before[j],
        match link_slot(after[k]) {
            Some(LinkModel::Pending(child)) => shaped(child, bit_width, (height - 1) as nat),
            Some(LinkModel::Cached(_, child)) => shaped(child, bit_width, (height - 1) as nat)
                && committed(child, (height - 1) as nat),
            _ => true,
        },
    ensures
        shaped(node_model(Node::Link { links: after }), bit_width, height),
{
    lemma_branch_model(before);
    lemma_branch_model(after);
    let a = node_model(Node::Link { links: before })->Branch_0;
    let b = node_model(Node::Link { links: after })->Branch_0;
    assert forall|j: int| 0 <= j < b.len() implies match #[trigger] b[j] {
        Some(LinkModel::Pending(child)) => shaped(child, bit_width, (height - 1) as nat),
        Some(LinkModel::Cached(_, child)) => shaped(child, bit_width, (height - 1) as nat)
            && committed(child, (height - 1) as nat),
        _ => true,
    } by {
        if j != k {
            assert(b[j] == a[j]);
        }
    }
}

/// Storing the pending subtrees of a subtree that has none leaves it as it is.
pub proof fn lemma_flushed_committed(node: NodeModel, bit_width: u32, height: nat)
    requires
        committed(node, height),
    ensures
        flushed(node, bit_width, height) == Some(node),
{
    match node {
        NodeModel::Leaf(_) => {},
        NodeModel::Branch(links) => {
            if height > 0 {
                let h1 = (height - 1) as nat;
                assert forall|k: int| 0 <= k < links.len() implies flushed_slot(
                    #[trigger] links[k],
                    bit_width,
                    h1,
                ) == Some(links[k]) by {}
                let target = flushed(node, bit_width, height);
                assert(target is Some);
                assert(target.unwrap()->Branch_0 =~= links);
            }
        },
    }
}

/// What a subtree holds at an index that can be read, or that is stopped by a block that
/// is no node, it still holds when the store has gained blocks.
pub proof fn lemma_lookup_extends(
    node: NodeModel,
    before: Blocks,
    after: Blocks,
    bit_width: u32,
    height: nat,
    i: nat,
)
    requires
        extends(before, after),
        !(lookup(node, before, bit_width, height, i) matches Err(Fault::Missing(_))),
    ensures
        lookup(node, after, bit_width, height, i) == lookup(node, before, bit_width, height, i),
    decreases height,
{
    match node {
        NodeModel::Leaf(_) => {},
        NodeModel::Branch(links) => {
            if height > 0 {
                let h1 = (height - 1) as nat;
                let slot = i / span(bit_width, height);
                let rest = i % span(bit_width, height);
                lemma_span_step(bit_width, height);
                vstd::arithmetic::div_mod::lemma_div_pos_is_pos(
                    i as int,
                    span(bit_width, height) as int,
                );
                if slot < links.len() {
                    match links[slot as int] {
                        Some(link) => {
                            match link {
                                LinkModel::Stored(id) => {
                                    assert(before.dom().contains(id));
                                },
                                _ => {},
                            }
                            match resolve(link, before, bit_width, h1) {
                                Ok(child) => {
                                    lemma_lookup_extends(child, before, after, bit_width, h1, rest);
                                },
                                Err(_) => {},
                            }
                        },
                        None => {},
                    }
                }
            }
        },
    }
}

} // verus!
