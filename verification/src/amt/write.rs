//! Point writes: `set` with the growth that goes before it, `delete` with the collapse
//! that comes after it.

use crate::amt::{AmtImpl, TrieModel};
use crate::error::{Error, Fault, reports};
use crate::laws::{lemma_delete_keeps_count, lemma_set_keeps_count};
use crate::limits::{
    lemma_pow2_strictly_increases_or_equal, lemma_span_step, MAX_INDEX, reach, span,
    spec_max_height, valid_bit_width,
};
use crate::node::{
    init_sized_vec, lemma_beyond_reach, lemma_branch_model, lemma_high_slot, lemma_same_slots,
    lemma_vacancy, lemma_vacant_holds_nothing, Link, link_slot, LinkModel, lookup, Node,
    node_model, resolve, shaped, used, vacant, value_slot,
};
use crate::node::dense::{dense, lemma_dense_is_readable};
use crate::node::read::load_node;
use vstd::arithmetic::power2::lemma2_to64_rest;
use vstd::prelude::*;

verus! {

impl TrieModel {
    /// Whether `after` and `res` are what putting a value of `bytes` at index `i` of this
    /// trie leaves and hands back.
    ///
    /// An index above the greatest is refused with `OutOfRange`, and the trie stays as it
    /// was. Else the trie has grown to the least height that addresses `i`. Where the way
    /// to the index cannot be read, the error reports the fault, and the trie holds what
    /// it held. Else the trie holds the value at `i` and at every other index what it
    /// held; the count has gone up by one where the index held nothing, and where it
    /// could not go up, the error is `CountMismatch`.
    pub open spec fn sets_to(self, after: TrieModel, i: u64, bytes: Seq<u8>, res: Result<(), Error>)
        -> bool {
        &&& after.same_frame(self)
        &&& i > MAX_INDEX ==> (res matches Err(Error::OutOfRange(j)) && j == i) && after == self
        &&& i <= MAX_INDEX ==> after.grown_for(self.height, i as nat)
        &&& i <= MAX_INDEX ==> match self.lookup(i as nat) {
            Err(fault) => {
                &&& res matches Err(e) && reports(e, fault)
                &&& after.same_content(self)
                &&& after.count == self.count
            },
            Ok(previous) => {
                &&& after.lookup(i as nat) == Ok::<Option<Seq<u8>>, Fault>(Some(bytes))
                &&& after.same_but_at(self, i as nat)
                &&& if previous is Some {
                    res is Ok && after.count == self.count
                } else if self.count < u64::MAX {
                    res is Ok && after.count == self.count + 1
                } else {
                    res is Err && res->Err_0 is CountMismatch && after.count == u64::MAX
                }
            },
        }
    }

    /// Whether `after` and `res` are what taking the value at index `i` out of this trie
    /// leaves and hands back.
    ///
    /// An index above the greatest is refused with `OutOfRange`, and the trie stays as it
    /// was. Where the way to the index cannot be read, the error reports the fault;
    /// where the index holds nothing, nothing is handed back; either way the trie holds
    /// what it held, at the height and with the count it had. Else the trie holds
    /// nothing at `i` and at every other index what it held, and is no higher. The
    /// error is `CountMismatch` where the count was zero. Else the count has gone down
    /// by one, and the value is handed back with the root in its least form, or the
    /// error reports the fault that holds the root from it.
    pub open spec fn deletes_to(
        self,
        after: TrieModel,
        i: u64,
        res: Result<Option<Vec<u8>>, Error>,
    ) -> bool {
        &&& after.same_frame(self)
        &&& i > MAX_INDEX ==> (res matches Err(Error::OutOfRange(j)) && j == i) && after == self
        &&& i <= MAX_INDEX ==> match self.lookup(i as nat) {
            Err(fault) => {
                &&& res matches Err(e) && reports(e, fault)
                &&& after.same_content(self)
                &&& after.count == self.count
                &&& after.height == self.height
            },
            Ok(None) => {
                &&& res matches Ok(None)
                &&& after.same_content(self)
                &&& after.count == self.count
                &&& after.height == self.height
            },
            Ok(Some(value)) => {
                &&& after.lookup(i as nat) == Ok::<Option<Seq<u8>>, Fault>(None)
                &&& after.same_but_at(self, i as nat)
                &&& after.height <= self.height
                &&& if self.count == 0 {
                    res is Err && res->Err_0 is CountMismatch && after.count == 0
                } else {
                    &&& after.count == self.count - 1
                    &&& match res {
                        Ok(taken) => value_slot(taken) == Some(value) && after.settled(),
                        Err(e) => after.stuck_on(e),
                    }
                }
            },
        }
    }

    /// Whether the trie has the height that reaching index `i` from a trie of height
    /// `from` takes: the least that is no less than `from` and addresses `i`.
    pub open spec fn grown_for(self, from: u32, i: nat) -> bool {
        &&& self.height >= from
        &&& i < self.reach()
        &&& self.height > from ==> i >= reach(self.bit_width, (self.height - 1) as nat)
    }
}

impl AmtImpl {
    /// Puts the trie under a new topmost node, as its first slot; an empty trie gets an
    /// empty topmost node. The trie is one higher and holds what it held.
    fn grow(&mut self)
        requires
            old(self)@.wf(),
            old(self)@.height < spec_max_height(old(self)@.bit_width),
        ensures
            final(self)@.wf(),
            final(self)@.same_frame(old(self)@),
            final(self)@.height == old(self)@.height + 1,
            final(self)@.count == old(self)@.count,
            final(self)@.same_content(old(self)@),
            dense(
                old(self)@.node,
                old(self)@.blocks,
                old(self)@.bit_width,
                old(self)@.height as nat,
            ) ==> dense(
                final(self)@.node,
                final(self)@.blocks,
                final(self)@.bit_width,
                final(self)@.height as nat,
            ),
    {
        let ghost before = self@;
        let bit_width = self.root.bit_width;
        let height = self.root.height;
        let mut node = Node::vacant(bit_width, 0);
        std::mem::swap(&mut self.root.node, &mut node);
        let was_empty = node.is_empty();
        let ghost below = node@;
        let mut links: Vec<Option<Link>> = init_sized_vec(bit_width);
        if !was_empty {
            links[0] = Some(Link::Dirty(Box::new(node)));
        }
        proof {
            lemma_branch_model(links);
            lemma_span_step(bit_width, height as nat);
            lemma_span_step(bit_width, (height + 1) as nat);
            let top = node_model(Node::Link { links });
            let h = height as nat;
            assert forall|k: int| 0 <= k < links.len() implies match #[trigger] top->Branch_0[k] {
                Some(LinkModel::Pending(child)) => shaped(child, bit_width, h),
                Some(LinkModel::Cached(_, child)) => false,
                _ => true,
            } by {
                assert(top->Branch_0[k] == link_slot(links[k]));
            }
            if dense(below, before.blocks, bit_width, h) {
                assert forall|k: int| 0 <= k < links.len() implies match #[trigger] top->Branch_0[k] {
                    Some(link) => match resolve(link, before.blocks, bit_width, h) {
                        Ok(child) => !vacant(child) && dense(child, before.blocks, bit_width, h),
                        Err(_) => false,
                    },
                    None => true,
                } by {
                    assert(top->Branch_0[k] == link_slot(links[k]));
                }
            }
            assert forall|j: nat| #[trigger]
                lookup(top, before.blocks, bit_width, h + 1, j) == lookup(
                    below,
                    before.blocks,
                    bit_width,
                    h,
                    j,
                ) by {
                let sp = span(bit_width, h + 1);
                let slot = j / sp;
                if was_empty {
                    lemma_vacant_holds_nothing(top, before.blocks, bit_width, h + 1, j);
                    lemma_vacant_holds_nothing(below, before.blocks, bit_width, h, j);
                } else if j < sp {
                    vstd::arithmetic::div_mod::lemma_small_mod(j, sp);
                    vstd::arithmetic::div_mod::lemma_basic_div(j as int, sp as int);
                    assert(top->Branch_0[0] == link_slot(links[0]));
                } else {
                    lemma_beyond_reach(below, before.blocks, bit_width, h, j);
                    vstd::arithmetic::div_mod::lemma_div_non_zero(j as int, sp as int);
                    if slot < links.len() {
                        assert(top->Branch_0[slot as int] == link_slot(links[slot as int]));
                    }
                }
            }
        }
        self.root.node = Node::Link { links };
        self.root.height = height + 1;
    }

    /// Puts `val` at index `i`. The trie first grows until its height addresses `i`.
    ///
    /// Fails with `OutOfRange` for an index above the greatest, leaving the trie as it
    /// was; with the report of the fault where the way to the index cannot be read from
    /// the store, leaving what the trie holds as it was; and with `CountMismatch` where
    /// the index was not populated and the count cannot go up.
    pub fn set(&mut self, i: u64, val: Vec<u8>) -> (res: Result<(), Error>)
        requires
            old(self)@.wf(),
        ensures
            final(self)@.wf(),
            old(self)@.sets_to(final(self)@, i, val@, res),
            old(self)@.canonical() ==> final(self)@.canonical(),
            old(self)@.sound() ==> final(self)@.sound(),
            old(self)@.sound() && i <= MAX_INDEX ==> res is Ok,
    {
        let ghost before = self@;
        let ghost bytes = val@;
        let res = self.put(i, val);
        proof {
            if before.sound() {
                lemma_set_keeps_count(before, self@, i, bytes, res);
                lemma_dense_is_readable(
                    before.node,
                    before.blocks,
                    before.bit_width,
                    before.height as nat,
                    i as nat,
                );
            }
        }
        res
    }

    fn put(&mut self, i: u64, val: Vec<u8>) -> (res: Result<(), Error>)
        requires
            old(self)@.wf(),
        ensures
            final(self)@.wf(),
            old(self)@.sets_to(final(self)@, i, val@, res),
            old(self)@.canonical() ==> final(self)@.canonical(),
    {
        if i > MAX_INDEX {
            return Err(Error::OutOfRange(i));
        }
        let ghost before = self@;
        while self.beyond(i)
            invariant
                i <= MAX_INDEX,
                self@.wf(),
                self@.same_frame(before),
                self@.count == before.count,
                self@.same_content(before),
                self@.height == before.height ==> self@ == before,
                dense(before.node, before.blocks, before.bit_width, before.height as nat) ==> dense(
                    self@.node,
                    self@.blocks,
                    self@.bit_width,
                    self@.height as nat,
                ),
                self@.height >= before.height,
                self@.height > before.height ==> i >= reach(
                    self@.bit_width,
                    (self@.height - 1) as nat,
                ),
            decreases spec_max_height(self@.bit_width) - self@.height,
        {
            proof {
                lemma_reach_covers(self@.bit_width, self@.height as nat, i as nat);
            }
            self.grow();
        }
        let ghost grown = self@;
        assert(grown.lookup(i as nat) == before.lookup(i as nat));
        let previous = self.root.node.set(
            &self.block_store,
            self.root.height,
            self.root.bit_width,
            i,
            val,
        );
        proof {
            assert forall|j: nat| j != i || previous is Err implies #[trigger] self@.lookup(j)
                == before.lookup(j) by {
                assert(grown.lookup(j) == before.lookup(j));
            }
        }
        let ghost written = self@;
        proof {
            if before.canonical() {
                lemma_vacancy(written.node);
                if written.height > 0 {
                    lemma_span_step(written.bit_width, written.height as nat);
                    if written.height > before.height {
                        vstd::arithmetic::div_mod::lemma_div_non_zero(
                            i as int,
                            span(written.bit_width, written.height as nat) as int,
                        );
                    } else {
                        lemma_high_slot(before.node);
                        let k = choose|k: int| k >= 1 && used(before.node, k);
                        assert(used(written.node, k));
                    }
                }
            }
        }
        match previous {
            Err(e) => Err(e),
            Ok(Some(_)) => Ok(()),
            Ok(None) => {
                if self.root.count == u64::MAX {
                    Err(Error::CountMismatch)
                } else {
                    self.root.count += 1;
                    proof {
                        assert forall|j: nat| j != i implies #[trigger] self@.lookup(j)
                            == before.lookup(j) by {
                            assert(written.lookup(j) == before.lookup(j));
                        }
                    }
                    Ok(())
                }
            },
        }
    }
}

/// A trie of the greatest height of its bit width addresses every index up to the
/// greatest.
pub proof fn lemma_reach_covers(bit_width: u32, height: nat, i: nat)
    requires
        valid_bit_width(bit_width),
        i <= MAX_INDEX,
        i >= reach(bit_width, height),
    ensures
        height < spec_max_height(bit_width),
{
    if height >= spec_max_height(bit_width) {
        let b = bit_width as int;
        let h = height as int;
        assert(b * (h + 1) >= 64) by (nonlinear_arith)
            requires
                1 <= b,
                h >= 63int / b,
        {
            assert(b * (63int / b) + 63int % b == 63) by {
                vstd::arithmetic::div_mod::lemma_fundamental_div_mod(63, b);
            }
            assert(63int % b < b) by {
                vstd::arithmetic::div_mod::lemma_mod_bound(63, b);
            }
        }
        lemma_pow2_strictly_increases_or_equal(64, (bit_width as nat) * (height + 1));
        lemma2_to64_rest();
    }
}

impl AmtImpl {
    /// Brings the root to its least form: an empty trie becomes a leaf of height zero;
    /// else, as long as the topmost node holds nothing but its first subtree, that
    /// subtree takes its place. Fails, with the report of the fault, where such a
    /// subtree cannot be read from the store. The trie holds what it held.
    #[verifier::loop_isolation(false)]
    fn settle(&mut self) -> (res: Result<(), Error>)
        requires
            old(self)@.wf(),
        ensures
            final(self)@.wf(),
            final(self)@.same_frame(old(self)@),
            final(self)@.count == old(self)@.count,
            final(self)@.same_content(old(self)@),
            final(self)@.height <= old(self)@.height,
            res is Ok ==> final(self)@.settled(),
            res matches Err(e) ==> final(self)@.stuck_on(e),
            dense(
                old(self)@.node,
                old(self)@.blocks,
                old(self)@.bit_width,
                old(self)@.height as nat,
            ) ==> res is Ok && dense(
                final(self)@.node,
                final(self)@.blocks,
                final(self)@.bit_width,
                final(self)@.height as nat,
            ),
    {
        let ghost before = self@;
        let bit_width = self.root.bit_width;
        if self.root.node.is_empty() {
            proof {
                assert forall|j: nat| #[trigger]
                    before.lookup(j) == Ok::<Option<Seq<u8>>, Fault>(None) by {
                    lemma_vacant_holds_nothing(
                        before.node,
                        before.blocks,
                        before.bit_width,
                        before.height as nat,
                        j,
                    );
                }
            }
            self.root.node = Node::vacant(bit_width, 0);
            self.root.height = 0;
            proof {
                assert forall|j: nat| #[trigger]
                    self@.lookup(j) == before.lookup(j) by {
                    lemma_vacant_holds_nothing(self@.node, self@.blocks, bit_width, 0, j);
                }
            }
            return Ok(());
        }
        while self.root.height > 0 && self.root.node.can_collapse()
            invariant
                self@.wf(),
                self@.same_frame(before),
                self@.count == before.count,
                self@.same_content(before),
                self@.height <= before.height,
                bit_width == self@.bit_width,
                !vacant(self@.node),
                dense(before.node, before.blocks, before.bit_width, before.height as nat) ==> dense(
                    self@.node,
                    self@.blocks,
                    self@.bit_width,
                    self@.height as nat,
                ),
            decreases self@.height,
        {
            let ghost top = self@;
            let height = self.root.height;
            let mut node = Node::vacant(bit_width, 0);
            std::mem::swap(&mut self.root.node, &mut node);
            match node {
                Node::Link { mut links } => {
                    proof {
                        lemma_branch_model(links);
                        assert(top.node->Branch_0[0] == link_slot(links[0]));
                    }
                    let ghost links_before = links;
                    let taken = links[0].take();
                    let child: Node = match taken {
                        Some(Link::Dirty(child)) => *child,
                        Some(Link::Cid { cid, cache: Some(child) }) => *child,
                        Some(Link::Cid { cid, cache: None }) => match load_node(
                            &self.block_store,
                            &cid,
                            bit_width,
                            height - 1,
                        ) {
                            Ok(child) => child,
                            Err(e) => {
                                links[0] = Some(Link::Cid { cid, cache: None });
                                assert(links@ =~= links_before@);
                                self.root.node = Node::Link { links };
                                assert(self@ == top);
                                return Err(e);
                            },
                        },
                        None => Node::vacant(bit_width, height - 1),
                    };
                    proof {
                        let h = height as nat;
                        lemma_span_step(bit_width, h);
                        lemma_span_step(bit_width, (h - 1) as nat);
                        assert forall|j: nat| #[trigger]
                            lookup(child@, top.blocks, bit_width, (h - 1) as nat, j) == top.lookup(
                                j,
                            ) by {
                            let sp = span(bit_width, h);
                            let slot = j / sp;
                            if j < sp {
                                vstd::arithmetic::div_mod::lemma_small_mod(j, sp);
                                vstd::arithmetic::div_mod::lemma_basic_div(j as int, sp as int);
                            } else {
                                lemma_beyond_reach(child@, top.blocks, bit_width, (h - 1) as nat, j);
                                vstd::arithmetic::div_mod::lemma_div_non_zero(j as int, sp as int);
                                if slot < links_before.len() {
                                    assert(top.node->Branch_0[slot as int] is None);
                                }
                            }
                        }
                        if vacant(child@) {
                            assert forall|j: nat| true implies top.lookup(j) == Ok::<
                                Option<Seq<u8>>,
                                Fault,
                            >(None) by {
                                lemma_vacant_holds_nothing(
                                    child@,
                                    top.blocks,
                                    bit_width,
                                    (h - 1) as nat,
                                    j,
                                );
                                assert(lookup(child@, top.blocks, bit_width, (h - 1) as nat, j)
                                    == top.lookup(j));
                            }
                        }
                    }
                    if child.is_empty() {
                        self.root.node = Node::vacant(bit_width, 0);
                        self.root.height = 0;
                        proof {
                            assert forall|j: nat| #[trigger] self@.lookup(j) == before.lookup(j) by {
                                lemma_vacant_holds_nothing(self@.node, self@.blocks, bit_width, 0, j);
                                assert(top.lookup(j) == before.lookup(j));
                            }
                        }
                        return Ok(());
                    }
                    self.root.node = child;
                    self.root.height = height - 1;
                    proof {
                        assert forall|j: nat| #[trigger] self@.lookup(j) == before.lookup(j) by {
                            assert(top.lookup(j) == before.lookup(j));
                            assert(lookup(
                                self@.node,
                                top.blocks,
                                bit_width,
                                (height - 1) as nat,
                                j,
                            ) == top.lookup(j));
                        }
                    }
                },
                Node::Leaf { vals } => {
                    self.root.node = Node::Leaf { vals };
                },
            }
        }
        Ok(())
    }

    /// Takes the value at index `i` out of the trie and hands it back; `None` where the
    /// index holds nothing. The count goes down by one and the root is brought to its
    /// least form, through as many levels as it takes.
    ///
    /// Fails with `OutOfRange` for an index above the greatest, leaving the trie as it
    /// was, and with the report of the fault where the way to the index cannot be read
    /// from the store, leaving what the trie holds as it was. Once the value is taken, it
    /// stays taken: the call then still fails with `CountMismatch` where the count was
    /// zero, and with the report of the fault where the root cannot be brought to its
    /// least form.
    pub fn delete(&mut self, i: u64) -> (res: Result<Option<Vec<u8>>, Error>)
        requires
            old(self)@.wf(),
        ensures
            final(self)@.wf(),
            old(self)@.deletes_to(final(self)@, i, res),
            old(self)@.canonical() && !(res matches Err(Error::CountMismatch)) ==> final(self)@.canonical(),
            old(self)@.sound() ==> final(self)@.sound(),
            old(self)@.sound() && i <= MAX_INDEX ==> res is Ok,
    {
        let ghost before = self@;
        let res = self.take(i);
        proof {
            if before.sound() {
                lemma_delete_keeps_count(before, self@, i, res);
                lemma_dense_is_readable(
                    before.node,
                    before.blocks,
                    before.bit_width,
                    before.height as nat,
                    i as nat,
                );
            }
        }
        res
    }

    fn take(&mut self, i: u64) -> (res: Result<Option<Vec<u8>>, Error>)
        requires
            old(self)@.wf(),
        ensures
            final(self)@.wf(),
            old(self)@.deletes_to(final(self)@, i, res),
            old(self)@.canonical() && !(res matches Err(Error::CountMismatch)) ==> final(self)@.canonical(),
    {
        if i > MAX_INDEX {
            return Err(Error::OutOfRange(i));
        }
        let ghost before = self@;
        if self.beyond(i) {
            proof {
                lemma_beyond_reach(
                    before.node,
                    before.blocks,
                    before.bit_width,
                    before.height as nat,
                    i as nat,
                );
            }
            return Ok(None);
        }
        let deleted = self.root.node.delete(
            &self.block_store,
            self.root.height,
            self.root.bit_width,
            i,
        );
        let ghost taken_out = self@;
        proof {
            if !(deleted matches Ok(Some(_))) {
                lemma_same_slots(before.node, taken_out.node);
            }
        }
        let value = match deleted {
            Err(e) => {
                return Err(e);
            },
            Ok(None) => {
                return Ok(None);
            },
            Ok(Some(value)) => value,
        };
        if self.root.count == 0 {
            return Err(Error::CountMismatch);
        }
        self.root.count -= 1;
        let ghost counted_down = self@;
        let settled = self.settle();
        proof {
            assert forall|j: nat| j != i implies #[trigger] self@.lookup(j) == before.lookup(j) by {
                assert(self@.lookup(j) == counted_down.lookup(j));
                assert(taken_out.lookup(j) == before.lookup(j));
            }
            assert(self@.lookup(i as nat) == counted_down.lookup(i as nat));
        }
        match settled {
            Ok(()) => Ok(Some(value)),
            Err(e) => Err(e),
        }
    }
}

} // verus!
