//! Reading a subtree: the value at an index, and the first populated index from a place on.

use crate::codec::decode_node;
use crate::error::{Error, Fault, reports};
use crate::limits::{
    fanout, fits, lemma_slot_in_range, lemma_span_step, nodes_for_height, reach, span,
    valid_bit_width,
};
use crate::node::{
    lemma_beyond_reach, lemma_branch_model, lemma_leaf_model, lemma_lookup_in_slot, Link,
    link_slot, load_model, lookup, Node, node_model, NodeModel, resolve, shaped, value_slot,
};
use crate::store::{Blocks, ContentId, get_block, store_blocks};
use fvm_ipld_blockstore::MemoryBlockstore;
use vstd::prelude::*;

verus! {

/// Whether the outcome of reading an index is what the model says: the value with the
/// same bytes, nothing where there is nothing, and the report of the fault where there is
/// one.
pub open spec fn found(res: Result<Option<Vec<u8>>, Error>, model: Result<Option<Seq<u8>>, Fault>)
    -> bool {
    match (res, model) {
        (Ok(v), Ok(m)) => value_slot(v) == m,
        (Err(e), Err(f)) => reports(e, f),
        _ => false,
    }
}

/// Reads the subtree of `height` that the store holds under `id`. Fails with
/// `CidNotFound` where the store holds no block there, and with `Codec` where the block
/// does not decode to a subtree of this height.
pub fn load_node(store: &MemoryBlockstore, id: &ContentId, bit_width: u32, height: u32) -> (res:
    Result<Node, Error>)
    requires
        valid_bit_width(bit_width),
    ensures
        match res {
            Ok(node) => load_model(store_blocks(*store), id@, bit_width, height as nat) == Ok::<
                NodeModel,
                Fault,
            >(node@),
            Err(e) => load_model(store_blocks(*store), id@, bit_width, height as nat) matches Err(f)
                && reports(e, f),
        },
{
    match get_block(store, id) {
        Err(e) => Err(e),
        Ok(None) => Err(Error::CidNotFound(id.clone())),
        Ok(Some(block)) => match decode_node(&block) {
            Err(text) => Err(Error::Codec(text)),
            Ok(collapsed) => match collapsed.expand(bit_width) {
                Err(e) => Err(e),
                Ok(node) => {
                    if node.is_leaf() == (height == 0) {
                        Ok(node)
                    } else {
                        Err(Error::Codec("a node is not of the form of its height".to_owned()))
                    }
                },
            },
        },
    }
}

impl Node {
    /// The value at index `i` of this subtree of `height`, counted from the first index of
    /// the subtree. A stored subtree on the way that is not held in memory is read from
    /// the store.
    pub fn get(&self, store: &MemoryBlockstore, height: u32, bit_width: u32, i: u64) -> (res:
        Result<Option<Vec<u8>>, Error>)
        requires
            valid_bit_width(bit_width),
            fits(bit_width, height as nat),
            shaped(self@, bit_width, height as nat),
            i < reach(bit_width, height as nat),
        ensures
            found(res, lookup(self@, store_blocks(*store), bit_width, height as nat, i as nat)),
        decreases height,
    {
        match self {
            Node::Leaf { vals } => {
                proof {
                    lemma_leaf_model(*vals);
                    assert(reach(bit_width, 0) == fanout(bit_width)) by {
                        assert((bit_width as nat) * 1 == bit_width as nat);
                    }
                }
                let k = i as usize;
                match &vals[k] {
                    Some(v) => Ok(Some(v.clone())),
                    None => Ok(None),
                }
            },
            Node::Link { links } => {
                proof {
                    lemma_branch_model(*links);
                    lemma_slot_in_range(bit_width, height as nat, i as nat);
                    lemma_span_step(bit_width, height as nat);
                }
                let sp = nodes_for_height(bit_width, height);
                let slot = (i / sp) as usize;
                let rest = i % sp;
                assert(link_slot(links[slot as int]) == self@->Branch_0[slot as int]);
                proof {
                    lemma_span_step(bit_width, (height - 1) as nat);
                }
                match &links[slot] {
                    None => Ok(None),
                    Some(Link::Dirty(child)) => child.get(store, height - 1, bit_width, rest),
                    Some(Link::Cid { cid, cache: Some(child) }) => child.get(
                        store,
                        height - 1,
                        bit_width,
                        rest,
                    ),
                    Some(Link::Cid { cid, cache: None }) => {
                        match load_node(store, cid, bit_width, height - 1) {
                            Err(e) => Err(e),
                            Ok(child) => child.get(store, height - 1, bit_width, rest),
                        }
                    },
                }
            },
        }
    }
}

/// Whether a subtree holds nothing at the indices from `from` up to, and without, `to`.
pub open spec fn nothing_in(
    node: NodeModel,
    blocks: Blocks,
    bit_width: u32,
    height: nat,
    from: nat,
    to: nat,
) -> bool {
    forall|k: nat|
        from <= k < to ==> #[trigger] lookup(node, blocks, bit_width, height, k) == Ok::<
            Option<Seq<u8>>,
            Fault,
        >(None)
}

/// Whether `res` is the first thing met at or after index `from` of a subtree, going up by
/// index: the first populated index with its value; or the report of the fault at the
/// first index that cannot be read; or nothing, where every index from `from` on holds
/// nothing.
pub open spec fn first_met(
    res: Result<Option<(u64, Vec<u8>)>, Error>,
    node: NodeModel,
    blocks: Blocks,
    bit_width: u32,
    height: nat,
    from: nat,
) -> bool {
    match res {
        Ok(None) => nothing_in(node, blocks, bit_width, height, from, 0x1_0000_0000_0000_0000),
        Ok(Some((j, v))) => {
            &&& from <= j
            &&& lookup(node, blocks, bit_width, height, j as nat) == Ok::<Option<Seq<u8>>, Fault>(
                Some(v@),
            )
            &&& nothing_in(node, blocks, bit_width, height, from, j as nat)
        },
        Err(e) => exists|j: nat|
            {
                &&& from <= j <= u64::MAX
                &&& (#[trigger] lookup(node, blocks, bit_width, height, j)) matches Err(fault)
                    && reports(e, fault)
                &&& nothing_in(node, blocks, bit_width, height, from, j)
            },
    }
}

impl Node {
    /// The first populated index at or after `from` in this subtree of `height`, with its
    /// value, going up by index; `None` where there is none. Fails, with the report of
    /// the fault, where an index that cannot be read from the store comes first.
    #[verifier::loop_isolation(false)]
    pub fn first_from(&self, store: &MemoryBlockstore, height: u32, bit_width: u32, from: u64) -> (res:
        Result<Option<(u64, Vec<u8>)>, Error>)
        requires
            valid_bit_width(bit_width),
            fits(bit_width, height as nat),
            shaped(self@, bit_width, height as nat),
            from < reach(bit_width, height as nat),
        ensures
            first_met(res, self@, store_blocks(*store), bit_width, height as nat, from as nat),
        decreases height,
    {
        let ghost blocks = store_blocks(*store);
        let ghost me = self@;
        let ghost h = height as nat;
        match self {
            Node::Leaf { vals } => {
                proof {
                    lemma_leaf_model(*vals);
                    assert(reach(bit_width, 0) == fanout(bit_width)) by {
                        assert((bit_width as nat) * 1 == bit_width as nat);
                    }
                }
                let mut k: usize = from as usize;
                while k < vals.len()
                    invariant
                        from <= k <= vals.len(),
                        me == node_model(Node::Leaf { vals: *vals }),
                        me->Leaf_0.len() == vals.len(),
                        forall|j: int| 0 <= j < vals.len() ==> me->Leaf_0[j] == value_slot(vals[j]),
                        nothing_in(me, blocks, bit_width, h, from as nat, k as nat),
                    decreases vals.len() - k,
                {
                    match &vals[k] {
                        Some(v) => {
                            return Ok(Some((k as u64, v.clone())));
                        },
                        None => {},
                    }
                    k += 1;
                }
                Ok(None)
            },
            Node::Link { links } => {
                proof {
                    lemma_branch_model(*links);
                    lemma_slot_in_range(bit_width, h, from as nat);
                    lemma_span_step(bit_width, h);
                    lemma_span_step(bit_width, (h - 1) as nat);
                }
                let sp = nodes_for_height(bit_width, height);
                let ghost model = me->Branch_0;
                let mut slot: usize = (from / sp) as usize;
                let mut start: u64 = from % sp;
                assert(slot * sp == sp * slot) by (nonlinear_arith);
                while slot < links.len()
                    invariant
                        valid_bit_width(bit_width),
                        fits(bit_width, h),
                        height > 0,
                        h == height,
                        sp == span(bit_width, h),
                        sp > 0,
                        slot <= links.len(),
                        start < sp,
                        me == NodeModel::Branch(model),
                        shaped(me, bit_width, h),
                        model.len() == links.len(),
                        forall|j: int| 0 <= j < links.len() ==> model[j] == link_slot(links[j]),
                        blocks == store_blocks(*store),
                        from <= slot * sp + start,
                        nothing_in(me, blocks, bit_width, h, from as nat, (slot * sp + start) as nat),
                    decreases links.len() - slot,
                {
                    let base = match (slot as u64).checked_mul(sp) {
                        Some(base) => base,
                        None => {
                            return Ok(None);
                        },
                    };
                    proof {
                        lemma_slot_fits(sp as nat, slot as nat, (bit_width as nat) * h);
                    }
                    let met = match &links[slot] {
                        None => Ok(None),
                        Some(Link::Dirty(child)) => child.first_from(
                            store,
                            height - 1,
                            bit_width,
                            start,
                        ),
                        Some(Link::Cid { cid, cache: Some(child) }) => child.first_from(
                            store,
                            height - 1,
                            bit_width,
                            start,
                        ),
                        Some(Link::Cid { cid, cache: None }) => match load_node(
                            store,
                            cid,
                            bit_width,
                            height - 1,
                        ) {
                            Ok(child) => child.first_from(store, height - 1, bit_width, start),
                            Err(e) => {
                                proof {
                                    let here = (slot * sp + start) as nat;
                                    lemma_lookup_in_slot(model, blocks, bit_width, h, slot as nat, start as nat);
                                    assert(lookup(me, blocks, bit_width, h, here) is Err);
                                }
                                return Err(e);
                            },
                        },
                    };
                    match met {
                        Err(e) => {
                            proof {
                                let child = resolve(
                                    model[slot as int]->Some_0,
                                    blocks,
                                    bit_width,
                                    (h - 1) as nat,
                                )->Ok_0;
                                let place = choose|j: nat|
                                    {
                                        &&& start <= j <= u64::MAX
                                        &&& (#[trigger] lookup(
                                            child,
                                            blocks,
                                            bit_width,
                                            (h - 1) as nat,
                                            j,
                                        )) matches Err(fault) && reports(e, fault)
                                        &&& nothing_in(
                                            child,
                                            blocks,
                                            bit_width,
                                            (h - 1) as nat,
                                            start as nat,
                                            j,
                                        )
                                    };
                                if place >= sp {
                                    lemma_beyond_reach(child, blocks, bit_width, (h - 1) as nat, place);
                                }
                                let here = (slot * sp + place) as nat;
                                lemma_lookup_in_slot(model, blocks, bit_width, h, slot as nat, place);
                                assert(lookup(me, blocks, bit_width, h, here) is Err);
                                assert forall|k: nat| from <= k < here implies #[trigger] lookup(
                                    me,
                                    blocks,
                                    bit_width,
                                    h,
                                    k,
                                ) == Ok::<Option<Seq<u8>>, Fault>(None) by {
                                    if k >= slot * sp + start {
                                        let p = (k - slot * sp) as nat;
                                        assert(lookup(child, blocks, bit_width, (h - 1) as nat, p)
                                            == Ok::<Option<Seq<u8>>, Fault>(None));
                                        assert(k == slot * sp + p);
                                        lemma_lookup_in_slot(model, blocks, bit_width, h, slot as nat, p);
                                    }
                                }
                            }
                            return Err(e);
                        },
                        Ok(Some((j, v))) => {
                            proof {
                                let child = resolve(
                                    model[slot as int]->Some_0,
                                    blocks,
                                    bit_width,
                                    (h - 1) as nat,
                                )->Ok_0;
                                if j >= sp {
                                    lemma_beyond_reach(child, blocks, bit_width, (h - 1) as nat, j as nat);
                                }
                                let here = (slot * sp + j) as nat;
                                lemma_lookup_in_slot(model, blocks, bit_width, h, slot as nat, j as nat);
                                assert forall|k: nat| from <= k < here implies #[trigger] lookup(
                                    me,
                                    blocks,
                                    bit_width,
                                    h,
                                    k,
                                ) == Ok::<Option<Seq<u8>>, Fault>(None) by {
                                    if k >= slot * sp + start {
                                        let p = (k - slot * sp) as nat;
                                        assert(lookup(child, blocks, bit_width, (h - 1) as nat, p)
                                            == Ok::<Option<Seq<u8>>, Fault>(None));
                                        assert(k == slot * sp + p);
                                        lemma_lookup_in_slot(model, blocks, bit_width, h, slot as nat, p);
                                    }
                                }
                            }
                            return Ok(Some((base + j, v)));
                        },
                        Ok(None) => {
                            proof {
                                let next = ((slot + 1) * sp) as nat;
                                assert((slot + 1) * sp == slot * sp + sp) by (nonlinear_arith);
                                assert forall|k: nat| from <= k < next implies #[trigger] lookup(
                                    me,
                                    blocks,
                                    bit_width,
                                    h,
                                    k,
                                ) == Ok::<Option<Seq<u8>>, Fault>(None) by {
                                    if k >= slot * sp + start {
                                        let p = (k - slot * sp) as nat;
                                        assert(k == slot * sp + p);
                                        lemma_lookup_in_slot(model, blocks, bit_width, h, slot as nat, p);
                                        if model[slot as int] is Some {
                                            let child = resolve(
                                                model[slot as int]->Some_0,
                                                blocks,
                                                bit_width,
                                                (h - 1) as nat,
                                            )->Ok_0;
                                            assert(lookup(child, blocks, bit_width, (h - 1) as nat, p)
                                                == Ok::<Option<Seq<u8>>, Fault>(None));
                                        }
                                    }
                                }
                            }
                        },
                    }
                    slot += 1;
                    start = 0;
                }
                proof {
                    assert forall|k: nat|
                        from <= k < 0x1_0000_0000_0000_0000 implies #[trigger] lookup(
                        me,
                        blocks,
                        bit_width,
                        h,
                        k,
                    ) == Ok::<Option<Seq<u8>>, Fault>(None) by {
                        if k >= slot * sp + start {
                            assert(slot * sp == sp * slot) by (nonlinear_arith);
                            lemma_beyond_reach(me, blocks, bit_width, h, k);
                        }
                    }
                }
                Ok(None)
            },
        }
    }
}

/// A slot whose first index fits in a `u64` fits in it whole: the number of indices under
/// a slot is a power of two.
pub proof fn lemma_slot_fits(sp: nat, slot: nat, e: nat)
    requires
        e <= 63,
        sp == vstd::arithmetic::power2::pow2(e),
        slot * sp <= u64::MAX,
    ensures
        slot * sp + sp <= 0x1_0000_0000_0000_0000,
{
    vstd::arithmetic::power2::lemma_pow2_adds(e, (64 - e) as nat);
    vstd::arithmetic::power2::lemma2_to64_rest();
    let q = vstd::arithmetic::power2::pow2((64 - e) as nat);
    assert(sp * q == 0x1_0000_0000_0000_0000);
    vstd::arithmetic::power2::lemma_pow2_pos(e);
    assert(slot < q) by (nonlinear_arith)
        requires
            slot * sp < sp * q,
            sp > 0,
    ;
    assert(slot * sp + sp <= sp * q) by (nonlinear_arith)
        requires
            slot + 1 <= q,
            sp > 0,
    ;
}

} // verus!
