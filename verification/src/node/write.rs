//! Writing to a subtree: putting a value at an index, and taking one out.

use crate::error::{Error, Fault};
use crate::limits::{
    fanout, fits, lemma_slot_in_range, lemma_span_step, nodes_for_height, reach, span,
    valid_bit_width,
};
use crate::node::{
    committed, keeps_slots, lemma_branch_model, lemma_leaf_model, lemma_vacancy,
    lemma_vacant_holds_nothing, Link, link_slot, LinkModel, lookup, Node, node_model, resolve,
    same_but_at, same_content, same_slots, shaped, slot_of, used, vacant,
};
use crate::node::dense::{dense, lemma_vacant_is_dense};
use crate::node::read::{found, load_node};
use crate::store::{ContentId, store_blocks};
use fvm_ipld_blockstore::MemoryBlockstore;
use vstd::prelude::*;

verus! {

impl Node {
    /// Puts `val` at index `i` of this subtree of `height` and hands back the value that
    /// was there. A subtree is made where the way leads through an empty slot, and every
    /// reference on the way becomes pending. Fails, with the report of the fault, exactly
    /// when the way to the index cannot be read; what the subtree holds is then as before.
    pub fn set(
        &mut self,
        store: &MemoryBlockstore,
        height: u32,
        bit_width: u32,
        i: u64,
        val: Vec<u8>,
    ) -> (res: Result<Option<Vec<u8>>, Error>)
        requires
            valid_bit_width(bit_width),
            fits(bit_width, height as nat),
            shaped(old(self)@, bit_width, height as nat),
            i < reach(bit_width, height as nat),
        ensures
            shaped(final(self)@, bit_width, height as nat),
            found(
                res,
                lookup(old(self)@, store_blocks(*store), bit_width, height as nat, i as nat),
            ),
            res is Ok ==> lookup(
                final(self)@,
                store_blocks(*store),
                bit_width,
                height as nat,
                i as nat,
            ) == Ok::<Option<Seq<u8>>, Fault>(Some(val@)),
            res is Ok ==> same_but_at(
                final(self)@,
                old(self)@,
                store_blocks(*store),
                bit_width,
                height as nat,
                i as nat,
            ),
            res is Err ==> same_content(
                final(self)@,
                old(self)@,
                store_blocks(*store),
                bit_width,
                height as nat,
            ),
            keeps_slots(old(self)@, final(self)@),
            used(final(self)@, slot_of(bit_width, height as nat, i as nat)),
            dense(old(self)@, store_blocks(*store), bit_width, height as nat) ==> dense(
                final(self)@,
                store_blocks(*store),
                bit_width,
                height as nat,
            ),
        decreases height,
    {
        let ghost before = self@;
        let ghost blocks = store_blocks(*store);
        match self {
            Node::Leaf { vals } => {
                proof {
                    lemma_leaf_model(*vals);
                    assert(reach(bit_width, 0) == fanout(bit_width)) by {
                        assert((bit_width as nat) * 1 == bit_width as nat);
                    }
                }
                let k = i as usize;
                let ghost bytes = val@;
                let previous = vals[k].take();
                vals[k] = Some(val);
                proof {
                    lemma_leaf_model(*vals);
                }
                Ok(previous)
            },
            Node::Link { links } => {
                proof {
                    lemma_branch_model(*links);
                    lemma_slot_in_range(bit_width, height as nat, i as nat);
                    lemma_span_step(bit_width, height as nat);
                    lemma_span_step(bit_width, (height - 1) as nat);
                }
                let sp = nodes_for_height(bit_width, height);
                let slot = (i / sp) as usize;
                let rest = i % sp;
                let ghost old_links = *links;
                assert(link_slot(old_links[slot as int]) == before->Branch_0[slot as int]);
                let taken = links[slot].take();
                let mut child: Node = match taken {
                    None => Node::vacant(bit_width, height - 1),
                    Some(Link::Dirty(node)) => *node,
                    Some(Link::Cid { cid, cache: Some(node) }) => *node,
                    Some(Link::Cid { cid, cache: None }) => match load_node(
                        store,
                        &cid,
                        bit_width,
                        height - 1,
                    ) {
                        Ok(node) => node,
                        Err(e) => {
                            links[slot] = Some(Link::Cid { cid, cache: None });
                            proof {
                                lemma_branch_model(*links);
                                assert(links@ =~= old_links@);
                                assert(before->Branch_0[slot as int] is Some);
                            }
                            return Err(e);
                        },
                    },
                };
                let ghost child_before = child@;
                let res = child.set(store, height - 1, bit_width, rest, val);
                let ghost child_after = child@;
                links[slot] = Some(Link::Dirty(Box::new(child)));
                proof {
                    lemma_branch_model(*links);
                    let after = node_model(Node::Link { links: *links });
                    let h1 = (height - 1) as nat;
                    let sp_n = span(bit_width, height as nat);
                    assert(after->Branch_0[slot as int] == Some(LinkModel::Pending(child_after)));
                    assert forall|k: int| 0 <= k < links.len() && k != slot implies after->Branch_0[k]
                        == before->Branch_0[k] by {
                        assert(links[k] == old_links[k]);
                    }
                    if before->Branch_0[slot as int] is None {
                        lemma_vacant_holds_nothing(child_before, blocks, bit_width, h1, rest as nat);
                    }
                    assert forall|j: nat| j != i || res is Err implies #[trigger] lookup(
                        after,
                        blocks,
                        bit_width,
                        height as nat,
                        j,
                    ) == lookup(before, blocks, bit_width, height as nat, j) by {
                        let sj = j / sp_n;
                        if sj == slot {
                            let rj = j % sp_n;
                            vstd::arithmetic::div_mod::lemma_fundamental_div_mod(
                                j as int,
                                sp_n as int,
                            );
                            assert(res is Ok ==> rj != rest);
                            if before->Branch_0[slot as int] is None {
                                lemma_vacant_holds_nothing(child_before, blocks, bit_width, h1, rj);
                            }
                            assert(lookup(child_after, blocks, bit_width, h1, rj) == lookup(
                                child_before,
                                blocks,
                                bit_width,
                                h1,
                                rj,
                            ));
                        } else if sj < links.len() {
                            assert(after->Branch_0[sj as int] == before->Branch_0[sj as int]);
                        }
                    }
                    assert forall|k: int| used(before, k) implies #[trigger] used(after, k) by {
                        if k != slot {
                            assert(after->Branch_0[k] == before->Branch_0[k]);
                        }
                    }
                    if dense(before, blocks, bit_width, height as nat) {
                        if before->Branch_0[slot as int] is None {
                            lemma_vacant_is_dense(child_before, blocks, bit_width, h1);
                        }
                        assert(dense(child_after, blocks, bit_width, h1));
                        assert(used(child_after, slot_of(bit_width, h1, rest as nat)));
                        assert forall|k: int| 0 <= k < links.len() implies match #[trigger] after->Branch_0[k] {
                            Some(link) => match resolve(link, blocks, bit_width, h1) {
                                Ok(child) => !vacant(child) && dense(child, blocks, bit_width, h1),
                                Err(_) => false,
                            },
                            None => true,
                        } by {
                            if k != slot {
                                assert(after->Branch_0[k] == before->Branch_0[k]);
                            }
                        }
                    }
                }
                res
            },
        }
    }

    /// Takes the value at index `i` out of this subtree of `height` and hands it back. A
    /// subtree that is left with every slot empty leaves its slot; the references on the
    /// way to a value that was taken become pending. Fails, with the report of the
    /// fault, exactly when the way to the index cannot be read. Where nothing is taken,
    /// the subtree holds what it held, and has no pending reference that it had not.
    pub fn delete(&mut self, store: &MemoryBlockstore, height: u32, bit_width: u32, i: u64) -> (res:
        Result<Option<Vec<u8>>, Error>)
        requires
            valid_bit_width(bit_width),
            fits(bit_width, height as nat),
            shaped(old(self)@, bit_width, height as nat),
            i < reach(bit_width, height as nat),
        ensures
            shaped(final(self)@, bit_width, height as nat),
            found(
                res,
                lookup(old(self)@, store_blocks(*store), bit_width, height as nat, i as nat),
            ),
            res matches Ok(Some(_)) ==> lookup(
                final(self)@,
                store_blocks(*store),
                bit_width,
                height as nat,
                i as nat,
            ) == Ok::<Option<Seq<u8>>, Fault>(None),
            res matches Ok(Some(_)) ==> same_but_at(
                final(self)@,
                old(self)@,
                store_blocks(*store),
                bit_width,
                height as nat,
                i as nat,
            ),
            !(res matches Ok(Some(_))) ==> same_content(
                final(self)@,
                old(self)@,
                store_blocks(*store),
                bit_width,
                height as nat,
            ),
            !(res matches Ok(Some(_))) && committed(old(self)@, height as nat) ==> committed(
                final(self)@,
                height as nat,
            ),
            !(res matches Ok(Some(_))) ==> same_slots(old(self)@, final(self)@),
            dense(old(self)@, store_blocks(*store), bit_width, height as nat) ==> dense(
                final(self)@,
                store_blocks(*store),
                bit_width,
                height as nat,
            ),
        decreases height,
    {
        let ghost before = self@;
        let ghost blocks = store_blocks(*store);
        match self {
            Node::Leaf { vals } => {
                proof {
                    lemma_leaf_model(*vals);
                    assert(reach(bit_width, 0) == fanout(bit_width)) by {
                        assert((bit_width as nat) * 1 == bit_width as nat);
                    }
                }
                let k = i as usize;
                let ghost old_vals = *vals;
                let previous = vals[k].take();
                proof {
                    lemma_leaf_model(*vals);
                    if previous is None {
                        assert(vals@ =~= old_vals@);
                    }
                }
                Ok(previous)
            },
            Node::Link { links } => {
                proof {
                    lemma_branch_model(*links);
                    lemma_slot_in_range(bit_width, height as nat, i as nat);
                    lemma_span_step(bit_width, height as nat);
                    lemma_span_step(bit_width, (height - 1) as nat);
                }
                let sp = nodes_for_height(bit_width, height);
                let slot = (i / sp) as usize;
                let rest = i % sp;
                let ghost old_links = *links;
                let ghost h1 = (height - 1) as nat;
                let ghost sp_n = span(bit_width, height as nat);
                assert(link_slot(old_links[slot as int]) == before->Branch_0[slot as int]);
                let taken = links[slot].take();
                let (mut child, origin): (Node, Option<ContentId>) = match taken {
                    None => {
                        proof {
                            lemma_branch_model(*links);
                            assert(links@ =~= old_links@);
                        }
                        return Ok(None);
                    },
                    Some(Link::Dirty(node)) => (*node, None),
                    Some(Link::Cid { cid, cache: Some(node) }) => (*node, Some(cid)),
                    Some(Link::Cid { cid, cache: None }) => match load_node(
                        store,
                        &cid,
                        bit_width,
                        height - 1,
                    ) {
                        Ok(node) => (node, Some(cid)),
                        Err(e) => {
                            links[slot] = Some(Link::Cid { cid, cache: None });
                            proof {
                                lemma_branch_model(*links);
                                assert(links@ =~= old_links@);
                            }
                            return Err(e);
                        },
                    },
                };
                let ghost child_before = child@;
                assert(origin is Some ==> committed(child_before, h1));
                let res = child.delete(store, height - 1, bit_width, rest);
                let ghost child_after = child@;
                let deleted = match &res {
                    Ok(Some(_)) => true,
                    _ => false,
                };
                if deleted {
                    if child.is_empty() {
                        proof {
                            assert forall|j: nat| true implies lookup(
                                child_after,
                                blocks,
                                bit_width,
                                h1,
                                j,
                            ) == Ok::<Option<Seq<u8>>, Fault>(None) by {
                                lemma_vacant_holds_nothing(child_after, blocks, bit_width, h1, j);
                            }
                        }
                    } else {
                        links[slot] = Some(Link::Dirty(Box::new(child)));
                    }
                } else {
                    match origin {
                        Some(cid) => {
                            links[slot] = Some(Link::Cid { cid, cache: Some(Box::new(child)) });
                        },
                        None => {
                            links[slot] = Some(Link::Dirty(Box::new(child)));
                        },
                    }
                }
                proof {
                    lemma_branch_model(*links);
                    let after = node_model(Node::Link { links: *links });
                    assert forall|k: int| 0 <= k < links.len() && k != slot implies after->Branch_0[k]
                        == before->Branch_0[k] by {
                        assert(links[k] == old_links[k]);
                    }
                    assert forall|j: nat| j != i || !deleted implies #[trigger] lookup(
                        after,
                        blocks,
                        bit_width,
                        height as nat,
                        j,
                    ) == lookup(before, blocks, bit_width, height as nat, j) by {
                        let sj = j / sp_n;
                        if sj == slot {
                            let rj = j % sp_n;
                            vstd::arithmetic::div_mod::lemma_fundamental_div_mod(
                                j as int,
                                sp_n as int,
                            );
                            assert(deleted ==> rj != rest);
                            assert(lookup(child_after, blocks, bit_width, h1, rj) == lookup(
                                child_before,
                                blocks,
                                bit_width,
                                h1,
                                rj,
                            ));
                        } else if sj < links.len() {
                            assert(after->Branch_0[sj as int] == before->Branch_0[sj as int]);
                        }
                    }
                    if !deleted {
                        assert forall|k: int| used(before, k) == #[trigger] used(after, k) by {
                            if k != slot && 0 <= k < links.len() {
                                assert(after->Branch_0[k] == before->Branch_0[k]);
                            }
                        }
                    }
                    if dense(before, blocks, bit_width, height as nat) {
                        assert(dense(child_after, blocks, bit_width, h1));
                        assert(!vacant(child_before));
                        if !deleted {
                            assert(!vacant(child_after)) by {
                                lemma_vacancy(child_before);
                                lemma_vacancy(child_after);
                                let k = choose|k: int| used(child_before, k);
                                assert(used(child_after, k));
                            }
                        }
                        assert forall|k: int| 0 <= k < links.len() implies match #[trigger] after->Branch_0[k] {
                            Some(link) => match resolve(link, blocks, bit_width, h1) {
                                Ok(child) => !vacant(child) && dense(child, blocks, bit_width, h1),
                                Err(_) => false,
                            },
                            None => true,
                        } by {
                            if k != slot {
                                assert(after->Branch_0[k] == before->Branch_0[k]);
                            }
                        }
                    }
                }
                res
            },
        }
    }
}

} // verus!
