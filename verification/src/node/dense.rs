//! Subtrees that keep no subtree which holds nothing, and what follows for them.

use crate::codec::node_decoding;
use crate::error::Fault;
use crate::limits::{fanout, lemma_span_step, reach, span, valid_bit_width};
use crate::node::{
    committed, lemma_lookup_in_slot, lemma_same_slots, lemma_vacancy, LinkModel, lookup,
    NodeModel, resolve, same_slots, shaped, used, vacant,
};
use crate::node::flush::{extends, flushed, flushed_slot};
use crate::node::wire::{
    collapse_model, lemma_committed_is_sealed, lemma_expand_collapse, stored_form,
};
use crate::store::Blocks;
use crate::node::flush::{flushed_in_part, lemma_part_holds_the_same, slot_flushed_in_part};
use vstd::prelude::*;

verus! {

/// Whether every reference below a subtree of `height` can be read and leads to a
/// subtree that has a slot in use: no subtree is kept that holds nothing.
pub open spec fn dense(node: NodeModel, blocks: Blocks, bit_width: u32, height: nat) -> bool
    decreases height,
{
    match node {
        NodeModel::Leaf(_) => true,
        NodeModel::Branch(links) => height > 0 ==> forall|k: int|
            0 <= k < links.len() ==> match #[trigger] links[k] {
                Some(link) => match resolve(link, blocks, bit_width, (height - 1) as nat) {
                    Ok(child) => !vacant(child) && dense(
                        child,
                        blocks,
                        bit_width,
                        (height - 1) as nat,
                    ),
                    Err(_) => false,
                },
                None => true,
            },
    }
}

/// A node with every slot empty keeps no subtree that holds nothing.
pub proof fn lemma_vacant_is_dense(node: NodeModel, blocks: Blocks, bit_width: u32, height: nat)
    requires
        vacant(node),
    ensures
        dense(node, blocks, bit_width, height),
{
    match node {
        NodeModel::Leaf(_) => {},
        NodeModel::Branch(links) => {
            assert forall|k: int| 0 <= k < links.len() implies (#[trigger] links[k]) is None by {}
        },
    }
}

/// A branch that keeps no subtree which holds nothing holds a value at some index of
/// each of its slots in use.
pub proof fn lemma_high_slot_populated(
    node: NodeModel,
    blocks: Blocks,
    bit_width: u32,
    height: nat,
    k: int,
)
    requires
        node is Branch,
        shaped(node, bit_width, height),
        dense(node, blocks, bit_width, height),
        used(node, k),
    ensures
        exists|i: nat|
            k * span(bit_width, height) <= i < reach(bit_width, height) && (#[trigger] lookup(
                node,
                blocks,
                bit_width,
                height,
                i,
            )) matches Ok(Some(_)),
    decreases height, 0nat,
{
    let links = node->Branch_0;
    let h1 = (height - 1) as nat;
    let link = links[k]->Some_0;
    let child = resolve(link, blocks, bit_width, h1)->Ok_0;
    assert(shaped(child, bit_width, h1));
    lemma_dense_is_populated(child, blocks, bit_width, h1);
    let p = choose|p: nat|
        p < reach(bit_width, h1) && (#[trigger] lookup(child, blocks, bit_width, h1, p)) matches Ok(
            Some(_),
        );
    lemma_span_step(bit_width, height);
    lemma_lookup_in_slot(links, blocks, bit_width, height, k as nat, p);
    let sp = span(bit_width, height) as int;
    let i = (k * sp + p) as nat;
    assert(k * sp + p < sp * fanout(bit_width)) by (nonlinear_arith)
        requires
            0 <= k < fanout(bit_width),
            0 <= p < sp,
    ;
    assert(k * sp <= i);
    assert(lookup(node, blocks, bit_width, height, i) matches Ok(Some(_)));
}

/// A subtree that keeps no subtree which holds nothing, and has a slot in use, holds a
/// value at some index.
pub proof fn lemma_dense_is_populated(
    node: NodeModel,
    blocks: Blocks,
    bit_width: u32,
    height: nat,
)
    requires
        shaped(node, bit_width, height),
        dense(node, blocks, bit_width, height),
        !vacant(node),
    ensures
        exists|i: nat|
            i < reach(bit_width, height) && (#[trigger] lookup(node, blocks, bit_width, height, i)) matches Ok(
                Some(_),
            ),
    decreases height, 1nat,
{
    lemma_vacancy(node);
    let k = choose|k: int| used(node, k);
    match node {
        NodeModel::Leaf(vals) => {
            assert((bit_width as nat) * 1 == bit_width as nat);
            assert(lookup(node, blocks, bit_width, height, k as nat) == Ok::<Option<Seq<u8>>, Fault>(
                vals[k],
            ));
        },
        NodeModel::Branch(_) => {
            lemma_high_slot_populated(node, blocks, bit_width, height, k);
        },
    }
}

/// Every index of a subtree that keeps no subtree which holds nothing can be read.
pub proof fn lemma_dense_is_readable(
    node: NodeModel,
    blocks: Blocks,
    bit_width: u32,
    height: nat,
    i: nat,
)
    requires
        dense(node, blocks, bit_width, height),
    ensures
        lookup(node, blocks, bit_width, height, i) is Ok,
    decreases height,
{
    match node {
        NodeModel::Leaf(_) => {},
        NodeModel::Branch(links) => {
            if height > 0 {
                let slot = i / span(bit_width, height);
                lemma_span_step(bit_width, height);
                vstd::arithmetic::div_mod::lemma_div_pos_is_pos(
                    i as int,
                    span(bit_width, height) as int,
                );
                if slot < links.len() {
                    match links[slot as int] {
                        Some(link) => {
                            let child = resolve(link, blocks, bit_width, (height - 1) as nat)->Ok_0;
                            lemma_dense_is_readable(
                                child,
                                blocks,
                                bit_width,
                                (height - 1) as nat,
                                i % span(bit_width, height),
                            );
                        },
                        None => {},
                    }
                }
            }
        },
    }
}

/// A subtree that keeps no subtree which holds nothing still keeps none when the store
/// has gained blocks.
pub proof fn lemma_dense_extends(
    node: NodeModel,
    before: Blocks,
    after: Blocks,
    bit_width: u32,
    height: nat,
)
    requires
        extends(before, after),
        dense(node, before, bit_width, height),
    ensures
        dense(node, after, bit_width, height),
    decreases height,
{
    match node {
        NodeModel::Leaf(_) => {},
        NodeModel::Branch(links) => {
            if height > 0 {
                let h1 = (height - 1) as nat;
                assert forall|k: int| 0 <= k < links.len() implies match #[trigger] links[k] {
                    Some(link) => match resolve(link, after, bit_width, h1) {
                        Ok(child) => !vacant(child) && dense(child, after, bit_width, h1),
                        Err(_) => false,
                    },
                    None => true,
                } by {
                    match links[k] {
                        Some(link) => {
                            match link {
                                LinkModel::Stored(id) => {
                                    assert(before.dom().contains(id));
                                },
                                _ => {},
                            }
                            let child = resolve(link, before, bit_width, h1)->Ok_0;
                            lemma_dense_extends(child, before, after, bit_width, h1);
                        },
                        None => {},
                    }
                }
            }
        },
    }
}

/// Whether the store holds, under the content hash of each stored subtree that is held
/// in memory, a block that decodes to the wire form of that subtree: what is held in
/// memory beside a content hash is what the hash denotes.
pub open spec fn faithful(node: NodeModel, blocks: Blocks, bit_width: u32, height: nat) -> bool
    decreases height,
{
    match node {
        NodeModel::Leaf(_) => true,
        NodeModel::Branch(links) => height > 0 ==> forall|k: int|
            0 <= k < links.len() ==> match #[trigger] links[k] {
                Some(LinkModel::Cached(id, child)) => {
                    &&& blocks.dom().contains(id)
                    &&& collapse_model(child, bit_width) matches Some(parts)
                    &&& node_decoding(blocks[id]) == Some((parts.bmap, parts.links, parts.values))
                    &&& faithful(child, blocks, bit_width, (height - 1) as nat)
                },
                Some(LinkModel::Pending(child)) => faithful(
                    child,
                    blocks,
                    bit_width,
                    (height - 1) as nat,
                ),
                _ => true,
            },
    }
}

/// A subtree with nothing pending, of which the store holds what is held in memory,
/// holds the same when it is read back from the store.
pub proof fn lemma_read_back(node: NodeModel, blocks: Blocks, bit_width: u32, height: nat, i: nat)
    requires
        valid_bit_width(bit_width),
        shaped(node, bit_width, height),
        committed(node, height),
        dense(node, blocks, bit_width, height),
        faithful(node, blocks, bit_width, height),
    ensures
        lookup(stored_form(node), blocks, bit_width, height, i) == lookup(
            node,
            blocks,
            bit_width,
            height,
            i,
        ),
    decreases height,
{
    match node {
        NodeModel::Leaf(_) => {},
        NodeModel::Branch(links) => {
            let h1 = (height - 1) as nat;
            let slot = i / span(bit_width, height);
            let rest = i % span(bit_width, height);
            lemma_span_step(bit_width, height);
            vstd::arithmetic::div_mod::lemma_div_pos_is_pos(i as int, span(bit_width, height) as int);
            if slot < links.len() {
                match links[slot as int] {
                    Some(LinkModel::Cached(id, child)) => {
                        assert(shaped(child, bit_width, h1));
                        lemma_committed_is_sealed(child, h1, bit_width);
                        lemma_expand_collapse(child, bit_width, h1);
                        lemma_read_back(child, blocks, bit_width, h1, rest);
                    },
                    _ => {},
                }
            }
        },
    }
}

/// A subtree that keeps no subtree which holds nothing still keeps none when it is flushed
/// in part.
pub proof fn lemma_part_is_dense(
    before: NodeModel,
    after: NodeModel,
    blocks: Blocks,
    bit_width: u32,
    height: nat,
)
    requires
        flushed_in_part(before, after, height),
        dense(before, blocks, bit_width, height),
    ensures
        dense(after, blocks, bit_width, height),
    decreases height,
{
    match (before, after) {
        (NodeModel::Branch(x), NodeModel::Branch(y)) => {
            if height > 0 {
                let h1 = (height - 1) as nat;
                assert forall|k: int| 0 <= k < y.len() implies match #[trigger] y[k] {
                    Some(link) => match resolve(link, blocks, bit_width, h1) {
                        Ok(child) => !vacant(child) && dense(child, blocks, bit_width, h1),
                        Err(_) => false,
                    },
                    None => true,
                } by {
                    assert(slot_flushed_in_part(x[k], y[k], h1));
                    if x[k] != y[k] {
                        let c = x[k]->Some_0->Pending_0;
                        let d = resolve(y[k]->Some_0, blocks, bit_width, h1)->Ok_0;
                        lemma_part_is_dense(c, d, blocks, bit_width, h1);
                        lemma_part_holds_the_same(c, d, blocks, bit_width, h1, 0);
                        lemma_same_slots(c, d);
                    }
                }
            }
        },
        _ => {},
    }
}

} // verus!
