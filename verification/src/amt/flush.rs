//! The flush that commits a trie to its store.

use crate::amt::{AmtImpl, TrieModel};
use crate::error::{Error, Fault};
use crate::node::{committed, lemma_same_slots, NodeModel};
use crate::node::dense::{lemma_dense_extends, lemma_dense_is_readable, lemma_part_is_dense};
use crate::node::flush::{extends, flushed, lemma_flushed_committed, lemma_lookup_extends};
use crate::node::wire::{collapse_model, lemma_committed_is_sealed};
use crate::root::{encode_legacy_root, encode_root, legacy_root_encoding, root_encoding, Version};
use crate::store::{content_id, ContentId, put_block};
use crate::node::flush::{flushed_in_part, lemma_part_holds_the_same};
use vstd::prelude::*;

verus! {

impl TrieModel {
    /// The block that stores the root: the encoding, in the layout of the trie, of its bit
    /// width, height and count and of the wire form of its topmost node. `None` where the
    /// topmost node has a pending reference, or the root no encoding.
    pub open spec fn root_block(self) -> Option<Seq<u8>> {
        match collapse_model(self.node, self.bit_width) {
            Some(parts) => match self.version {
                Version::V3 => root_encoding(
                    self.bit_width,
                    self.height,
                    self.count,
                    parts.bmap,
                    parts.links,
                    parts.values,
                ),
                Version::V0 => legacy_root_encoding(
                    self.height,
                    self.count,
                    parts.bmap,
                    parts.links,
                    parts.values,
                ),
            },
            None => None,
        }
    }

    /// The trie with `node` for its topmost node.
    pub open spec fn with_node(self, node: NodeModel) -> TrieModel {
        TrieModel { node, ..self }
    }

    /// The trie as a flush leaves it, but for the blocks of its store: every pending
    /// subtree is stored and held beside its content hash. `None` where a node or the
    /// root has no encoding.
    pub open spec fn flushed(self) -> Option<TrieModel> {
        match flushed(self.node, self.bit_width, self.height as nat) {
            Some(node) => if self.with_node(node).root_block() is Some {
                Some(self.with_node(node))
            } else {
                None
            },
            None => None,
        }
    }

    /// Whether `after` holds, at every index of this trie that is not stopped by a block
    /// which the store does not hold, what this trie holds there.
    pub open spec fn holds_what_was_read(self, before: TrieModel) -> bool {
        forall|j: nat|
            !(before.lookup(j) matches Err(Fault::Missing(_))) ==> #[trigger] self.lookup(j)
                == before.lookup(j)
    }

    /// Whether `after` and `res` are what a flush of this trie may leave and hand back.
    ///
    /// The flush succeeds exactly when every node to be stored, and the root, has an
    /// encoding. The trie then has every pending subtree stored and held beside its
    /// content hash; the content hash handed back is that of the block of the root,
    /// which the store holds. Whether it succeeds or fails, the trie holds what it held
    /// and is as the operations on a new trie leave it if it was: a flush that fails has
    /// stored some of the pending subtrees and changed nothing else. The store has
    /// gained blocks and lost none; where nothing was pending it has gained the block of
    /// the root at most.
    pub open spec fn flushes_to(self, after: TrieModel, res: Result<ContentId, Error>) -> bool {
        &&& after.same_frame(TrieModel { blocks: after.blocks, ..self })
        &&& after.height == self.height
        &&& after.count == self.count
        &&& extends(self.blocks, after.blocks)
        &&& res is Ok <==> self.flushed() is Some
        &&& after.holds_what_was_read(self)
        &&& self.sound() ==> after.sound()
        &&& flushed_in_part(self.node, after.node, self.height as nat)
        &&& res matches Err(e) ==> e is Codec
        &&& res matches Ok(id) ==> {
            &&& after.node == self.flushed().unwrap().node
            &&& committed(after.node, after.height as nat)
            &&& id@ == content_id(after.root_block().unwrap())
            &&& after.blocks.dom().contains(id@)
            &&& committed(self.node, self.height as nat) ==> after.blocks == if self.blocks.dom().contains(
                id@,
            ) {
                self.blocks
            } else {
                self.blocks.insert(id@, after.root_block().unwrap())
            }
        }
    }
}

impl AmtImpl {
    /// Commits the trie to its store and hands back the content hash of the root: the
    /// identity of the trie. Every pending subtree is stored, from the leaves up, and
    /// then the root; a block that the store already holds is not written again. Fails
    /// with `Codec` exactly when a node or the root has no encoding.
    pub fn flush(&mut self) -> (res: Result<ContentId, Error>)
        requires
            old(self)@.wf(),
        ensures
            final(self)@.wf(),
            old(self)@.flushes_to(final(self)@, res),
    {
        let ghost before = self@;
        let bit_width = self.root.bit_width;
        let height = self.root.height;
        match self.root.node.flush(&mut self.block_store, bit_width, height) {
            Err(e) => {
                proof {
                    lemma_flush_keeps(before, self@);
                }
                return Err(e);
            },
            Ok(()) => {},
        }
        let wire = match self.root.node.collapse(bit_width) {
            Ok(wire) => wire,
            Err(e) => {
                proof {
                    lemma_committed_is_sealed(self@.node, height as nat, bit_width);
                }
                return Err(e);
            },
        };
        let encoded = match self.root.version {
            Version::V3 => encode_root(bit_width, height, self.root.count, &wire),
            Version::V0 => encode_legacy_root(height, self.root.count, &wire),
        };
        let block = match encoded {
            Ok(block) => block,
            Err(text) => {
                proof {
                    lemma_flush_keeps(before, self@);
                }
                return Err(Error::Codec(text));
            },
        };
        let ghost stored = self@;
        let id = match put_block(&mut self.block_store, &block) {
            Ok(id) => id,
            Err(e) => {
                return Err(e);
            },
        };
        proof {
            lemma_flush_keeps(before, self@);
            assert(self@.with_node(self@.node) == self@);
            assert(before.with_node(stored.node).root_block() == Some(block@));
            assert(self@.root_block() == Some(block@));
        }
        Ok(id)
    }
}

/// A trie that is flushed in part, over a store that has gained blocks, holds what it
/// held at every index that could be read, and is as the operations on a new trie leave
/// it if it was.
pub proof fn lemma_flush_keeps(before: TrieModel, after: TrieModel)
    requires
        before.wf(),
        after.wf(),
        after.version == before.version,
        after.bit_width == before.bit_width,
        after.height == before.height,
        after.count == before.count,
        flushed_in_part(before.node, after.node, before.height as nat),
        extends(before.blocks, after.blocks),
    ensures
        after.holds_what_was_read(before),
        before.sound() ==> after.sound(),
{
    let bit_width = before.bit_width;
    let height = before.height as nat;
    assert forall|j: nat|
        !(before.lookup(j) matches Err(Fault::Missing(_))) implies #[trigger] after.lookup(j)
        == before.lookup(j) by {
        lemma_part_holds_the_same(before.node, after.node, before.blocks, bit_width, height, j);
        lemma_lookup_extends(after.node, before.blocks, after.blocks, bit_width, height, j);
    }
    if before.sound() {
        lemma_part_is_dense(before.node, after.node, before.blocks, bit_width, height);
        lemma_dense_extends(after.node, before.blocks, after.blocks, bit_width, height);
        lemma_part_holds_the_same(before.node, after.node, before.blocks, bit_width, height, 0);
        lemma_same_slots(before.node, after.node);
        assert(after.populated() =~= before.populated()) by {
            assert forall|j: int| after.populated().contains(j) == before.populated().contains(
                j,
            ) by {
                if j >= 0 {
                    lemma_dense_is_readable(before.node, before.blocks, bit_width, height, j as nat);
                    assert(after.lookup(j as nat) == before.lookup(j as nat));
                }
            }
        }
    }
}

/// A second flush, with nothing written to the trie in between, hands back the same
/// content hash as the first and leaves the trie and the store as the first left them.
pub proof fn lemma_flush_is_idempotent(
    first: TrieModel,
    second: TrieModel,
    third: TrieModel,
    id: ContentId,
    again: Result<ContentId, Error>,
)
    requires
        first.wf(),
        first.flushes_to(second, Ok(id)),
        second.flushes_to(third, again),
    ensures
        again matches Ok(same) && same@ == id@,
        third == second,
{
    lemma_flushed_committed(second.node, second.bit_width, second.height as nat);
    assert(second.with_node(second.node) == second);
}

} // verus!
