//! Walking a subtree up by index and handing what it holds to a callback, each node read
//! from the store once.

use crate::error::{reports, Error};
use crate::limits::{
    fanout, fits, lemma_span_step, nodes_for_height, reach, span, valid_bit_width,
};
use crate::node::read::load_node;
use crate::node::{
    lemma_branch_model, lemma_leaf_model, lemma_lookup_in_slot, link_slot, Link, LinkModel,
    lookup, Node, NodeModel, resolve, shaped,
};
use crate::store::{store_blocks, Blocks};
use fvm_ipld_blockstore::MemoryBlockstore;
use vstd::prelude::*;

verus! {

/// What a callback hands back when it goes well: it says whether the walk goes on.
pub trait Answer: Sized {
    /// Whether the walk goes on after this answer.
    spec fn goes_on(&self) -> bool;

    /// Whether the walk goes on after this answer.
    fn go_on(&self) -> (b: bool)
        ensures
            b == self.goes_on(),
    ;
}

impl Answer for bool {
    open spec fn goes_on(&self) -> bool {
        *self
    }

    fn go_on(&self) -> (b: bool) {
        *self
    }
}

impl Answer for () {
    open spec fn goes_on(&self) -> bool {
        true
    }

    fn go_on(&self) -> (b: bool) {
        true
    }
}

/// Whether `answer` is what the callback may hand back for index `j` and a value of these
/// bytes.
pub open spec fn answered<R, F: FnMut(u64, &Vec<u8>) -> Result<R, String>>(
    f: F,
    j: u64,
    bytes: Seq<u8>,
    answer: Result<R, String>,
) -> bool {
    exists|v: Vec<u8>| v@ == bytes && #[trigger] call_ensures(f, (j, &v), answer)
}

/// Whether the callback went well for index `j` and a value of these bytes, with an answer
/// after which the walk goes on.
pub open spec fn went_on<R: Answer, F: FnMut(u64, &Vec<u8>) -> Result<R, String>>(
    f: F,
    j: u64,
    bytes: Seq<u8>,
) -> bool {
    exists|r: R| r.goes_on() && #[trigger] answered(f, j, bytes, Ok::<R, String>(r))
}

/// Whether the callback went well for index `j` and a value of these bytes, with an answer
/// that halts the walk.
pub open spec fn halted_at<R: Answer, F: FnMut(u64, &Vec<u8>) -> Result<R, String>>(
    f: F,
    j: u64,
    bytes: Seq<u8>,
) -> bool {
    exists|r: R| !r.goes_on() && #[trigger] answered(f, j, bytes, Ok::<R, String>(r))
}

/// The number of indices of a subtree that starts at index `base` which are indices at
/// all: those that it addresses, up to the last `u64`.
pub open spec fn within(bit_width: u32, height: nat, base: nat) -> nat {
    if base + reach(bit_width, height) <= 0x1_0000_0000_0000_0000 {
        reach(bit_width, height)
    } else {
        (0x1_0000_0000_0000_0000 - base) as nat
    }
}

/// Whether the callback was handed every populated index of a subtree below its index
/// `upto`, each counted from `base`, none of which the way to fails, and handed back an
/// answer after which the walk goes on.
pub open spec fn passed_in<R: Answer, F: FnMut(u64, &Vec<u8>) -> Result<R, String>>(
    node: NodeModel,
    blocks: Blocks,
    bit_width: u32,
    height: nat,
    base: nat,
    f: F,
    upto: nat,
) -> bool {
    forall|j: nat|
        j < upto ==> match #[trigger] lookup(node, blocks, bit_width, height, j) {
            Ok(Some(bytes)) => base + j <= u64::MAX && went_on::<R, F>(f, (base + j) as u64, bytes),
            Ok(None) => true,
            Err(_) => false,
        }
}

/// Whether `res` is the outcome of walking a subtree up by index: `true` where the
/// callback was handed every populated index of it and the walk goes on; `false` where it
/// halted the walk at a populated index, having been handed every one below; or the
/// failure at the index where the walk failed, every populated index below having been
/// handed to the callback.
pub open spec fn went<R: Answer, F: FnMut(u64, &Vec<u8>) -> Result<R, String>>(
    res: Result<bool, Error>,
    node: NodeModel,
    blocks: Blocks,
    bit_width: u32,
    height: nat,
    base: nat,
    f: F,
) -> bool {
    match res {
        Ok(true) => passed_in::<R, F>(
            node,
            blocks,
            bit_width,
            height,
            base,
            f,
            within(bit_width, height, base),
        ),
        Ok(false) => exists|stop: nat|
            {
                &&& stop < within(bit_width, height, base)
                &&& #[trigger] passed_in::<R, F>(node, blocks, bit_width, height, base, f, stop)
                &&& lookup(node, blocks, bit_width, height, stop) matches Ok(Some(bytes))
                &&& halted_at::<R, F>(f, (base + stop) as u64, bytes)
            },
        Err(Error::Callback(text)) => exists|stop: nat|
            {
                &&& stop < within(bit_width, height, base)
                &&& #[trigger] passed_in::<R, F>(node, blocks, bit_width, height, base, f, stop)
                &&& lookup(node, blocks, bit_width, height, stop) matches Ok(Some(bytes))
                &&& answered(f, (base + stop) as u64, bytes, Err::<R, String>(text))
            },
        Err(e) => exists|stop: nat|
            {
                &&& stop < within(bit_width, height, base)
                &&& #[trigger] passed_in::<R, F>(node, blocks, bit_width, height, base, f, stop)
                &&& lookup(node, blocks, bit_width, height, stop) matches Err(fault)
                &&& reports(e, fault)
            },
    }
}

/// A walk that has passed the slots of a branch below slot `k`, and then the first `upto`
/// indices of the subtree in that slot, has passed the branch up to there.
pub proof fn lemma_passed_slot<R: Answer, F: FnMut(u64, &Vec<u8>) -> Result<R, String>>(
    links: Seq<Option<LinkModel>>,
    blocks: Blocks,
    bit_width: u32,
    height: nat,
    base: nat,
    f: F,
    k: nat,
    upto: nat,
)
    requires
        height > 0,
        k < links.len(),
        upto <= span(bit_width, height),
        passed_in::<R, F>(
            NodeModel::Branch(links),
            blocks,
            bit_width,
            height,
            base,
            f,
            k * span(bit_width, height),
        ),
        match links[k as int] {
            None => true,
            Some(link) => resolve(link, blocks, bit_width, (height - 1) as nat) matches Ok(child)
                && passed_in::<R, F>(
                child,
                blocks,
                bit_width,
                (height - 1) as nat,
                base + k * span(bit_width, height),
                f,
                upto,
            ),
        },
    ensures
        passed_in::<R, F>(
            NodeModel::Branch(links),
            blocks,
            bit_width,
            height,
            base,
            f,
            k * span(bit_width, height) + upto,
        ),
{
    let sp = span(bit_width, height);
    let node = NodeModel::Branch(links);
    assert forall|j: nat| j < k * sp + upto implies match #[trigger] lookup(
        node,
        blocks,
        bit_width,
        height,
        j,
    ) {
        Ok(Some(bytes)) => base + j <= u64::MAX && went_on::<R, F>(f, (base + j) as u64, bytes),
        Ok(None) => true,
        Err(_) => false,
    } by {
        if j >= k * sp {
            let p = (j - k * sp) as nat;
            lemma_lookup_in_slot(links, blocks, bit_width, height, k, p);
            assert(j == k * sp + p);
            match links[k as int] {
                None => {},
                Some(link) => {
                    let child = resolve(link, blocks, bit_width, (height - 1) as nat)->Ok_0;
                    assert(lookup(node, blocks, bit_width, height, j) == lookup(
                        child,
                        blocks,
                        bit_width,
                        (height - 1) as nat,
                        p,
                    ));
                    assert(base + k * sp + p == base + j);
                },
            }
        }
    }
}

impl Node {
    /// Walks this subtree of `height` up by index and hands each populated index, counted
    /// from `base`, with its value to `f`, for as long as `f` hands back an answer after
    /// which the walk goes on. Each stored subtree on the way is read from the store
    /// once. Hands back whether the walk is to go on after this subtree.
    #[verifier::loop_isolation(false)]
    pub fn for_each_while<R: Answer, F>(
        &self,
        store: &MemoryBlockstore,
        height: u32,
        bit_width: u32,
        base: u64,
        f: &mut F,
    ) -> (res: Result<bool, Error>) where F: FnMut(u64, &Vec<u8>) -> Result<R, String>
        requires
            valid_bit_width(bit_width),
            fits(bit_width, height as nat),
            shaped(self@, bit_width, height as nat),
            forall|j: u64, v: Vec<u8>| call_requires(*old(f), (j, &v)),
        ensures
            *final(f) == *old(f),
            went::<R, F>(
                res,
                self@,
                store_blocks(*store),
                bit_width,
                height as nat,
                base as nat,
                *old(f),
            ),
        decreases height,
    {
        let ghost blocks = store_blocks(*store);
        let ghost me = self@;
        let ghost h = height as nat;
        let ghost f0 = *f;
        let ghost top = within(bit_width, h, base as nat);
        match self {
            Node::Leaf { vals } => {
                proof {
                    lemma_leaf_model(*vals);
                    assert(reach(bit_width, 0) == fanout(bit_width)) by {
                        assert((bit_width as nat) * 1 == bit_width as nat);
                    }
                }
                let mut k: usize = 0;
                while k < vals.len()
                    invariant
                        k <= vals.len(),
                        *f == f0,
                        forall|j: u64, v: Vec<u8>| call_requires(*f, (j, &v)),
                        passed_in::<R, F>(
                            me,
                            blocks,
                            bit_width,
                            h,
                            base as nat,
                            f0,
                            if k <= top {
                                k as nat
                            } else {
                                top
                            },
                        ),
                    decreases vals.len() - k,
                {
                    let at = match base.checked_add(k as u64) {
                        Some(at) => at,
                        None => {
                            return Ok(true);
                        },
                    };
                    assert(k < top);
                    match &vals[k] {
                        None => {},
                        Some(v) => {
                            let answer = f(at, v);
                            assert(answered(f0, at, v@, answer));
                            match answer {
                                Err(text) => {
                                    return Err(Error::Callback(text));
                                },
                                Ok(r) => {
                                    if !r.go_on() {
                                        assert(halted_at::<R, F>(f0, at, v@));
                                        return Ok(false);
                                    }
                                    assert(went_on::<R, F>(f0, at, v@));
                                },
                            }
                        },
                    }
                    proof {
                        assert forall|j: nat| j < k + 1 implies match #[trigger] lookup(
                            me,
                            blocks,
                            bit_width,
                            h,
                            j,
                        ) {
                            Ok(Some(bytes)) => base + j <= u64::MAX && went_on::<R, F>(
                                f0,
                                (base + j) as u64,
                                bytes,
                            ),
                            Ok(None) => true,
                            Err(_) => false,
                        } by {}
                    }
                    k += 1;
                }
                Ok(true)
            },
            Node::Link { links } => {
                proof {
                    lemma_branch_model(*links);
                    lemma_span_step(bit_width, h);
                    lemma_span_step(bit_width, (h - 1) as nat);
                }
                let sp = nodes_for_height(bit_width, height);
                let ghost model = me->Branch_0;
                let mut k: usize = 0;
                while k < links.len()
                    invariant
                        k <= links.len(),
                        *f == f0,
                        forall|j: u64, v: Vec<u8>| call_requires(*f, (j, &v)),
                        passed_in::<R, F>(
                            me,
                            blocks,
                            bit_width,
                            h,
                            base as nat,
                            f0,
                            if k * sp <= top {
                                (k * sp) as nat
                            } else {
                                top
                            },
                        ),
                    decreases links.len() - k,
                {
                    let off = match (k as u64).checked_mul(sp) {
                        Some(off) => off,
                        None => {
                            return Ok(true);
                        },
                    };
                    let child_base = match base.checked_add(off) {
                        Some(child_base) => child_base,
                        None => {
                            return Ok(true);
                        },
                    };
                    proof {
                        assert(k * sp < sp * links.len()) by (nonlinear_arith)
                            requires
                                k < links.len(),
                                sp > 0,
                        ;
                        assert(k * sp < top);
                        assert(model[k as int] == link_slot(links[k as int]));
                    }
                    let ghost inner = within(bit_width, (h - 1) as nat, child_base as nat);
                    let walked = match &links[k] {
                        None => Ok(true),
                        Some(Link::Dirty(child)) => child.for_each_while(
                            store,
                            height - 1,
                            bit_width,
                            child_base,
                            f,
                        ),
                        Some(Link::Cid { cid, cache: Some(child) }) => child.for_each_while(
                            store,
                            height - 1,
                            bit_width,
                            child_base,
                            f,
                        ),
                        Some(Link::Cid { cid, cache: None }) => match load_node(
                            store,
                            cid,
                            bit_width,
                            height - 1,
                        ) {
                            Ok(child) => child.for_each_while(
                                store,
                                height - 1,
                                bit_width,
                                child_base,
                                f,
                            ),
                            Err(e) => {
                                proof {
                                    lemma_lookup_in_slot(model, blocks, bit_width, h, k as nat, 0);
                                    assert(!(e is Callback));
                                }
                                return Err(e);
                            },
                        },
                    };
                    let ghost child = if model[k as int] is Some {
                        resolve(model[k as int]->Some_0, blocks, bit_width, (h - 1) as nat)->Ok_0
                    } else {
                        me
                    };
                    match walked {
                        Err(e) => {
                            proof {
                                let s = lemma_stop(e, child, blocks, bit_width, (h - 1) as nat, child_base as nat, f0);
                                lemma_passed_slot::<R, F>(
                                    model,
                                    blocks,
                                    bit_width,
                                    h,
                                    base as nat,
                                    f0,
                                    k as nat,
                                    s,
                                );
                                lemma_lookup_in_slot(model, blocks, bit_width, h, k as nat, s);
                                let stop = (k * sp + s) as nat;
                                assert((k + 1) * sp <= links.len() * sp) by (nonlinear_arith)
                                    requires
                                        k + 1 <= links.len(),
                                        sp > 0,
                                ;
                                assert((k + 1) * sp == k * sp + sp) by (nonlinear_arith);
                                assert(links.len() * sp == sp * links.len()) by (nonlinear_arith);
                                assert(stop < top);
                                assert(lookup(me, blocks, bit_width, h, stop) == lookup(
                                    child,
                                    blocks,
                                    bit_width,
                                    (h - 1) as nat,
                                    s,
                                ));
                                assert((base + stop) as u64 == (child_base + s) as u64);
                                assert(passed_in::<R, F>(me, blocks, bit_width, h, base as nat, f0, stop));
                            }
                            return Err(e);
                        },
                        Ok(false) => {
                            proof {
                                let s = choose|s: nat|
                                    {
                                        &&& s < inner
                                        &&& #[trigger] passed_in::<R, F>(
                                            child,
                                            blocks,
                                            bit_width,
                                            (h - 1) as nat,
                                            child_base as nat,
                                            f0,
                                            s,
                                        )
                                        &&& lookup(child, blocks, bit_width, (h - 1) as nat, s) matches Ok(
                                            Some(bytes),
                                        )
                                        &&& halted_at::<R, F>(f0, (child_base + s) as u64, bytes)
                                    };
                                lemma_passed_slot::<R, F>(
                                    model,
                                    blocks,
                                    bit_width,
                                    h,
                                    base as nat,
                                    f0,
                                    k as nat,
                                    s,
                                );
                                lemma_lookup_in_slot(model, blocks, bit_width, h, k as nat, s);
                                let stop = (k * sp + s) as nat;
                                assert((k + 1) * sp <= links.len() * sp) by (nonlinear_arith)
                                    requires
                                        k + 1 <= links.len(),
                                        sp > 0,
                                ;
                                assert((k + 1) * sp == k * sp + sp) by (nonlinear_arith);
                                assert(links.len() * sp == sp * links.len()) by (nonlinear_arith);
                                assert(stop < top);
                                assert(lookup(me, blocks, bit_width, h, stop) == lookup(
                                    child,
                                    blocks,
                                    bit_width,
                                    (h - 1) as nat,
                                    s,
                                ));
                                assert((base + stop) as u64 == (child_base + s) as u64);
                                assert(passed_in::<R, F>(me, blocks, bit_width, h, base as nat, f0, stop));
                            }
                            return Ok(false);
                        },
                        Ok(true) => {
                            proof {
                                lemma_passed_slot::<R, F>(
                                    model,
                                    blocks,
                                    bit_width,
                                    h,
                                    base as nat,
                                    f0,
                                    k as nat,
                                    inner,
                                );
                                assert((k + 1) * sp == k * sp + sp) by (nonlinear_arith);
                            }
                        },
                    }
                    k += 1;
                }
                proof {
                    assert(links.len() * sp == sp * links.len()) by (nonlinear_arith);
                }
                Ok(true)
            },
        }
    }
}

/// The index at which a walk of a subtree failed with `e`.
pub proof fn lemma_stop<R: Answer, F: FnMut(u64, &Vec<u8>) -> Result<R, String>>(
    e: Error,
    node: NodeModel,
    blocks: Blocks,
    bit_width: u32,
    height: nat,
    base: nat,
    f: F,
) -> (stop: nat)
    requires
        went::<R, F>(Err(e), node, blocks, bit_width, height, base, f),
    ensures
        stop < within(bit_width, height, base),
        passed_in::<R, F>(node, blocks, bit_width, height, base, f, stop),
        match e {
            Error::Callback(text) => lookup(node, blocks, bit_width, height, stop) matches Ok(
                Some(bytes),
            ) && answered(f, (base + stop) as u64, bytes, Err::<R, String>(text)),
            _ => lookup(node, blocks, bit_width, height, stop) matches Err(fault) && reports(
                e,
                fault,
            ),
        },
{
    match e {
        Error::Callback(text) => {
            choose|stop: nat|
                {
                    &&& stop < within(bit_width, height, base)
                    &&& #[trigger] passed_in::<R, F>(node, blocks, bit_width, height, base, f, stop)
                    &&& lookup(node, blocks, bit_width, height, stop) matches Ok(Some(bytes))
                    &&& answered(f, (base + stop) as u64, bytes, Err::<R, String>(text))
                }
        },
        _ => {
            choose|stop: nat|
                {
                    &&& stop < within(bit_width, height, base)
                    &&& #[trigger] passed_in::<R, F>(node, blocks, bit_width, height, base, f, stop)
                    &&& lookup(node, blocks, bit_width, height, stop) matches Err(fault)
                    &&& reports(e, fault)
                }
        },
    }
}

} // verus!
