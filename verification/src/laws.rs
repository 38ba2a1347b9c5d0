//! What holds of a trie across calls: the last write to an index is what is read, the
//! count is the number of populated indices, and the height is the least that will do.

use crate::amt::TrieModel;
use crate::amt::load::{read_root, stored_trie};
use crate::error::{Error, Fault};
use crate::limits::{lemma_span_step, MAX_INDEX, reach, span};
use crate::node::{committed, lemma_high_slot, lemma_vacant_holds_nothing, lookup, used, vacant};
use crate::node::dense::{faithful, lemma_high_slot_populated, lemma_read_back};
use crate::node::wire::{
    collapse_model, lemma_committed_is_sealed, lemma_expand_collapse, stored_form,
};
use vstd::prelude::*;

verus! {

/// A trie whose topmost node has every slot empty holds nothing at any index.
pub proof fn lemma_empty_holds_nothing(trie: TrieModel, i: nat)
    requires
        vacant(trie.node),
    ensures
        trie.lookup(i) == Ok::<Option<Seq<u8>>, Fault>(None),
{
    lemma_vacant_holds_nothing(trie.node, trie.blocks, trie.bit_width, trie.height as nat, i);
}

/// A write to a trie, with what the call handed back: `Put` for a `set` of a value at an
/// index, `Take` for a `delete` at an index.
pub enum Write {
    Put(u64, Seq<u8>, Result<(), Error>),
    Take(u64, Result<Option<Vec<u8>>, Error>),
}

impl Write {
    /// The index written to.
    pub open spec fn index(self) -> u64 {
        match self {
            Write::Put(i, _, _) => i,
            Write::Take(i, _) => i,
        }
    }

    /// Whether the call went well.
    pub open spec fn done(self) -> bool {
        match self {
            Write::Put(_, _, res) => res is Ok,
            Write::Take(_, res) => res is Ok,
        }
    }

    /// What the index holds after the write, where the call went well: the value of a
    /// `set`, and nothing after a `delete`.
    pub open spec fn leaves(self) -> Option<Seq<u8>> {
        match self {
            Write::Put(_, bytes, _) => Some(bytes),
            Write::Take(_, _) => None,
        }
    }

    /// Whether the write takes the trie `before` to the trie `after`.
    pub open spec fn takes(self, before: TrieModel, after: TrieModel) -> bool {
        match self {
            Write::Put(i, bytes, res) => before.sets_to(after, i, bytes, res),
            Write::Take(i, res) => before.deletes_to(after, i, res),
        }
    }
}

/// Whether `states` are the tries before, between and after the `writes`.
pub open spec fn written(states: Seq<TrieModel>, writes: Seq<Write>) -> bool {
    &&& states.len() == writes.len() + 1
    &&& forall|n: int|
        0 <= n < writes.len() ==> (#[trigger] writes[n]).takes(states[n], states[n + 1])
}

/// A write leaves every index but its own as it was, whether the call goes well or fails.
pub proof fn lemma_write_keeps_others(write: Write, before: TrieModel, after: TrieModel, i: nat)
    requires
        write.takes(before, after),
        write.index() != i,
    ensures
        after.lookup(i) == before.lookup(i),
{
    match write {
        Write::Put(j, bytes, res) => {
            if j <= MAX_INDEX {
                match before.lookup(j as nat) {
                    Err(_) => {
                        assert(after.lookup(i) == before.lookup(i));
                    },
                    Ok(_) => {
                        assert(after.lookup(i) == before.lookup(i));
                    },
                }
            }
        },
        Write::Take(j, res) => {
            if j <= MAX_INDEX {
                match before.lookup(j as nat) {
                    Ok(Some(_)) => {
                        assert(after.lookup(i) == before.lookup(i));
                    },
                    _ => {
                        assert(after.lookup(i) == before.lookup(i));
                    },
                }
            }
        },
    }
}

/// A write that goes well leaves at its index the value of the `set`, or nothing after a
/// `delete`.
pub proof fn lemma_write_lands(write: Write, before: TrieModel, after: TrieModel)
    requires
        write.takes(before, after),
        write.done(),
    ensures
        after.lookup(write.index() as nat) == Ok::<Option<Seq<u8>>, Fault>(write.leaves()),
{
    match write {
        Write::Put(j, bytes, res) => {},
        Write::Take(j, res) => {
            match before.lookup(j as nat) {
                Ok(None) => {
                    assert(after.lookup(j as nat) == before.lookup(j as nat));
                },
                _ => {},
            }
        },
    }
}

/// An index that no call in a sequence of `set` and `delete` writes to holds at the end
/// what it held at the start, whether the calls succeed or fail. An index of a new trie
/// that was never set thus holds nothing.
pub proof fn lemma_unwritten_index_is_kept(states: Seq<TrieModel>, writes: Seq<Write>, i: nat)
    requires
        written(states, writes),
        forall|n: int| 0 <= n < writes.len() ==> (#[trigger] writes[n]).index() != i,
    ensures
        states.last().lookup(i) == states[0].lookup(i),
    decreases writes.len(),
{
    if writes.len() > 0 {
        let n = writes.len() - 1;
        assert(written(states.drop_last(), writes.drop_last())) by {
            assert forall|m: int| 0 <= m < n implies (#[trigger] writes.drop_last()[m]).takes(
                states.drop_last()[m],
                states.drop_last()[m + 1],
            ) by {
                assert(writes[m].takes(states[m], states[m + 1]));
            }
        }
        assert forall|m: int| 0 <= m < n implies (#[trigger] writes.drop_last()[m]).index() != i by {
            assert(writes[m].index() != i);
        }
        lemma_unwritten_index_is_kept(states.drop_last(), writes.drop_last(), i);
        assert(writes[n].takes(states[n], states[n + 1]));
        lemma_write_keeps_others(writes[n], states[n], states[n + 1], i);
    }
}

/// After a sequence of calls of `set` and `delete`, an index holds what the last of them
/// that wrote to it left there, if that call went well: the value of a `set`, which is
/// what `get` then hands back, or nothing after a `delete`.
pub proof fn lemma_last_write_wins(states: Seq<TrieModel>, writes: Seq<Write>, k: int)
    requires
        written(states, writes),
        0 <= k < writes.len(),
        writes[k].done(),
        forall|n: int| k < n < writes.len() ==> (#[trigger] writes[n]).index() != writes[k].index(),
    ensures
        states.last().lookup(writes[k].index() as nat) == Ok::<Option<Seq<u8>>, Fault>(
            writes[k].leaves(),
        ),
{
    let i = writes[k].index();
    let len = writes.len() as int;
    let tail_states = states.subrange(k + 1, len + 1);
    let tail_writes = writes.subrange(k + 1, len);
    assert(writes[k].takes(states[k], states[k + 1]));
    lemma_write_lands(writes[k], states[k], states[k + 1]);
    assert(written(tail_states, tail_writes)) by {
        assert forall|m: int| 0 <= m < tail_writes.len() implies (#[trigger] tail_writes[m]).takes(
            tail_states[m],
            tail_states[m + 1],
        ) by {
            let n = k + 1 + m;
            assert(writes[n].takes(states[n], states[n + 1]));
        }
    }
    assert forall|m: int| 0 <= m < tail_writes.len() implies (#[trigger] tail_writes[m]).index()
        != i by {
        assert(writes[k + 1 + m].index() != i);
    }
    lemma_unwritten_index_is_kept(tail_states, tail_writes, i as nat);
    assert(tail_states.last() == states.last());
    assert(tail_states[0] == states[k + 1]);
}

/// A trie whose topmost node has every slot empty, with a count of zero, has the count of
/// its populated indices.
pub proof fn lemma_empty_is_counted(trie: TrieModel)
    requires
        vacant(trie.node),
        trie.count == 0,
    ensures
        trie.counted(),
{
    assert forall|j: int| !trie.populated().contains(j) by {
        if j >= 0 {
            lemma_empty_holds_nothing(trie, j as nat);
        }
    }
    assert(trie.populated() =~= Set::<int>::empty());
}

/// The populated indices of a counted trie are fewer than the indices up to the
/// greatest, as long as one of those is not populated.
pub proof fn lemma_count_has_room(trie: TrieModel, i: u64)
    requires
        trie.counted(),
        i <= MAX_INDEX,
        !trie.populated().contains(i as int),
    ensures
        trie.count < u64::MAX,
{
    let all = vstd::set_lib::set_int_range(0, MAX_INDEX + 1);
    vstd::set_lib::lemma_int_range(0, MAX_INDEX + 1);
    let with_i = trie.populated().insert(i as int);
    assert(with_i.subset_of(all));
    vstd::set_lib::lemma_len_subset(with_i, all);
}

/// A `set` keeps the count at the number of populated indices, and on such a trie never
/// fails for the count.
pub proof fn lemma_set_keeps_count(
    before: TrieModel,
    after: TrieModel,
    i: u64,
    bytes: Seq<u8>,
    res: Result<(), Error>,
)
    requires
        before.counted(),
        before.sets_to(after, i, bytes, res),
    ensures
        after.counted(),
        !(res matches Err(Error::CountMismatch)),
{
    if i <= MAX_INDEX {
        match before.lookup(i as nat) {
            Err(_) => {
                assert(after.populated() =~= before.populated()) by {
                    assert forall|j: int| after.populated().contains(j)
                        == before.populated().contains(j) by {
                        if j >= 0 {
                            assert(after.lookup(j as nat) == before.lookup(j as nat));
                        }
                    }
                }
            },
            Ok(Some(_)) => {
                assert(after.populated() =~= before.populated()) by {
                    assert forall|j: int| after.populated().contains(j)
                        == before.populated().contains(j) by {
                        if j >= 0 && j != i {
                            assert(after.lookup(j as nat) == before.lookup(j as nat));
                        }
                    }
                }
            },
            Ok(None) => {
                lemma_count_has_room(before, i);
                assert(after.populated() =~= before.populated().insert(i as int)) by {
                    assert forall|j: int| after.populated().contains(j)
                        == before.populated().insert(i as int).contains(j) by {
                        if j >= 0 && j != i {
                            assert(after.lookup(j as nat) == before.lookup(j as nat));
                        }
                    }
                }
            },
        }
    }
}

/// A `delete` keeps the count at the number of populated indices, and on such a trie
/// never fails for the count.
pub proof fn lemma_delete_keeps_count(
    before: TrieModel,
    after: TrieModel,
    i: u64,
    res: Result<Option<Vec<u8>>, Error>,
)
    requires
        before.counted(),
        before.deletes_to(after, i, res),
    ensures
        after.counted(),
        !(res matches Err(Error::CountMismatch)),
{
    if i <= MAX_INDEX {
        match before.lookup(i as nat) {
            Ok(Some(_)) => {
                assert(before.populated().contains(i as int));
                assert(after.populated() =~= before.populated().remove(i as int)) by {
                    assert forall|j: int| after.populated().contains(j)
                        == before.populated().remove(i as int).contains(j) by {
                        if j >= 0 && j != i {
                            assert(after.lookup(j as nat) == before.lookup(j as nat));
                        }
                    }
                }
            },
            _ => {
                assert(after.populated() =~= before.populated()) by {
                    assert forall|j: int| after.populated().contains(j)
                        == before.populated().contains(j) by {
                        if j >= 0 {
                            assert(after.lookup(j as nat) == before.lookup(j as nat));
                        }
                    }
                }
            },
        }
    }
}

/// The height of a trie in its least form is the least that its content allows: above
/// height zero, some populated index is out of the reach of a trie one lower.
pub proof fn lemma_height_is_least(trie: TrieModel)
    requires
        trie.wf(),
        trie.canonical(),
        trie.height > 0,
    ensures
        exists|i: nat|
            i >= reach(trie.bit_width, (trie.height - 1) as nat) && (#[trigger] trie.lookup(
                i,
            )) matches Ok(Some(_)),
{
    lemma_high_slot(trie.node);
    let k = choose|k: int| k >= 1 && used(trie.node, k);
    lemma_high_slot_populated(trie.node, trie.blocks, trie.bit_width, trie.height as nat, k);
    let sp = span(trie.bit_width, trie.height as nat);
    let i = choose|i: nat|
        k * sp <= i < reach(trie.bit_width, trie.height as nat) && (#[trigger] lookup(
            trie.node,
            trie.blocks,
            trie.bit_width,
            trie.height as nat,
            i,
        )) matches Ok(Some(_));
    lemma_span_step(trie.bit_width, trie.height as nat);
    assert(k * sp >= sp) by (nonlinear_arith)
        requires
            k >= 1,
            sp > 0,
    ;
    assert(trie.lookup(i) matches Ok(Some(_)));
}

impl TrieModel {
    /// Whether the store holds under `id` a block that decodes, in the layout of the trie,
    /// to its root: to its bit width, height and count and the wire form of its topmost
    /// node.
    pub open spec fn stored_under(self, id: Seq<u8>) -> bool {
        &&& self.blocks.dom().contains(id)
        &&& collapse_model(self.node, self.bit_width) matches Some(parts)
        &&& read_root(self.blocks[id], self.version) == Some(
            (self.bit_width, self.height, self.count, parts),
        )
    }
}

/// Loading a trie from the content hash that a flush handed back gives a trie that holds
/// the same at every index, with the same count and height. This holds of a trie as the
/// operations on a new trie leave it, where the store holds under each content hash a
/// block that decodes to what was encoded for it.
pub proof fn lemma_load_after_flush(trie: TrieModel, id: Seq<u8>)
    requires
        trie.sound(),
        committed(trie.node, trie.height as nat),
        faithful(trie.node, trie.blocks, trie.bit_width, trie.height as nat),
        trie.stored_under(id),
    ensures
        stored_trie(trie.blocks, id, trie.version) matches Ok(loaded) && {
            &&& loaded.same_content(trie)
            &&& loaded.count == trie.count
            &&& loaded.height == trie.height
            &&& loaded.bit_width == trie.bit_width
        },
{
    let height = trie.height as nat;
    lemma_committed_is_sealed(trie.node, height, trie.bit_width);
    lemma_expand_collapse(trie.node, trie.bit_width, height);
    let loaded = stored_trie(trie.blocks, id, trie.version)->Ok_0;
    assert(loaded.node == stored_form(trie.node));
    assert forall|j: nat| #[trigger] loaded.lookup(j) == trie.lookup(j) by {
        lemma_read_back(trie.node, trie.blocks, trie.bit_width, height, j);
    }
}

} // verus!
