//! The trie handle: a root over a block store, with point and batch reads and writes by
//! index, ordered traversal, and the flush that commits a trie to one content hash.

use crate::error::{Error, Fault, reports};
use crate::laws::lemma_empty_is_counted;
use crate::limits::{
    DEFAULT_BIT_WIDTH, fits, lemma_max_height_fits, lemma_pow2_strictly_increases_or_equal,
    MAX_INDEX, nodes_for_height, reach, spec_max_height, valid_bit_width,
};
use crate::node::{
    collapsible, lemma_beyond_reach, lookup, Node, NodeModel, resolve, shaped, vacant,
};
use crate::node::dense::{dense, lemma_vacant_is_dense};
use crate::node::read::found;
use crate::root::{RootImpl, Version};
use crate::store::{Blocks, store_blocks};
use fvm_ipld_blockstore::MemoryBlockstore;
use vstd::arithmetic::power2::lemma2_to64_rest;
use vstd::prelude::*;

pub mod alike;
pub mod batch;
pub mod flush;
pub mod load;
pub mod walk;
pub mod write;

pub use self::walk::ValueMut;

verus! {

/// What a trie is: its root, and the blocks of the store it reads from and writes to.
pub struct TrieModel {
    pub version: Version,
    pub bit_width: u32,
    pub height: u32,
    pub count: u64,
    pub node: NodeModel,
    pub blocks: Blocks,
}

impl TrieModel {
    /// Whether the root has a form that the operations keep: a bit width that a trie can
    /// have, the default in the legacy layout; a height up to the greatest of that bit
    /// width; and a topmost node of the form of that height.
    pub open spec fn wf(self) -> bool {
        &&& valid_bit_width(self.bit_width)
        &&& self.version == Version::V0 ==> self.bit_width == DEFAULT_BIT_WIDTH
        &&& self.height <= spec_max_height(self.bit_width)
        &&& shaped(self.node, self.bit_width, self.height as nat)
    }

    /// What the trie holds at index `i`: the value, or nothing; or the fault that stops
    /// the way to it. It holds nothing past the indices that its height addresses.
    pub open spec fn lookup(self, i: nat) -> Result<Option<Seq<u8>>, Fault> {
        lookup(self.node, self.blocks, self.bit_width, self.height as nat, i)
    }

    /// The number of indices that the trie addresses at its height.
    pub open spec fn reach(self) -> nat {
        reach(self.bit_width, self.height as nat)
    }

    /// The populated indices.
    pub open spec fn populated(self) -> Set<int> {
        Set::new(|j: int| 0 <= j && self.lookup(j as nat) matches Ok(Some(_)))
    }

    /// Whether the count is the number of populated indices, none of which is above the
    /// greatest index.
    pub open spec fn counted(self) -> bool {
        &&& self.populated().finite()
        &&& self.populated().len() == self.count
        &&& forall|j: int| self.populated().contains(j) ==> j <= MAX_INDEX
    }

    /// Whether the trie keeps no subtree that holds nothing and has its root in its least
    /// form: the form in which its height is the least that its content allows.
    pub open spec fn canonical(self) -> bool {
        &&& dense(self.node, self.blocks, self.bit_width, self.height as nat)
        &&& self.settled()
    }

    /// Whether the trie is as the operations on a new trie leave it: of the right form,
    /// with the count of its populated indices, and with the least height.
    pub open spec fn sound(self) -> bool {
        &&& self.wf()
        &&& self.counted()
        &&& self.canonical()
    }
}

/// A persistent, content-addressed trie from indices to values. A value is held as the
/// bytes that encode it as one CBOR item, and is written to the store as that item. The
/// trie owns the store that it commits to.
pub struct AmtImpl {
    root: RootImpl,
    block_store: MemoryBlockstore,
}

impl View for AmtImpl {
    type V = TrieModel;

    closed spec fn view(&self) -> TrieModel {
        TrieModel {
            version: self.root.version,
            bit_width: self.root.bit_width,
            height: self.root.height,
            count: self.root.count,
            node: self.root.node@,
            blocks: store_blocks(self.block_store),
        }
    }
}

impl AmtImpl {
    /// An empty trie of the default bit width over `block_store`.
    pub fn new(block_store: MemoryBlockstore) -> (amt: AmtImpl)
        ensures
            amt@.sound(),
            amt@.version == Version::V3,
            amt@.bit_width == DEFAULT_BIT_WIDTH,
            amt@.height == 0,
            amt@.count == 0,
            vacant(amt@.node),
            amt@.blocks == store_blocks(block_store),
    {
        Self::new_with_bit_width(block_store, DEFAULT_BIT_WIDTH)
    }

    /// An empty trie of the given bit width over `block_store`.
    pub fn new_with_bit_width(block_store: MemoryBlockstore, bit_width: u32) -> (amt: AmtImpl)
        requires
            valid_bit_width(bit_width),
        ensures
            amt@.sound(),
            amt@.version == Version::V3,
            amt@.bit_width == bit_width,
            amt@.height == 0,
            amt@.count == 0,
            vacant(amt@.node),
            amt@.blocks == store_blocks(block_store),
    {
        let amt = AmtImpl {
            root: RootImpl {
                version: Version::V3,
                bit_width,
                height: 0,
                count: 0,
                node: Node::vacant(bit_width, 0),
            },
            block_store,
        };
        proof {
            lemma_empty_is_counted(amt@);
            lemma_vacant_is_dense(amt@.node, amt@.blocks, bit_width, 0);
        }
        amt
    }

    /// An empty trie in the legacy layout over `block_store`.
    pub fn new_legacy(block_store: MemoryBlockstore) -> (amt: AmtImpl)
        ensures
            amt@.sound(),
            amt@.version == Version::V0,
            amt@.bit_width == DEFAULT_BIT_WIDTH,
            amt@.height == 0,
            amt@.count == 0,
            vacant(amt@.node),
            amt@.blocks == store_blocks(block_store),
    {
        let amt = AmtImpl {
            root: RootImpl {
                version: Version::V0,
                bit_width: DEFAULT_BIT_WIDTH,
                height: 0,
                count: 0,
                node: Node::vacant(DEFAULT_BIT_WIDTH, 0),
            },
            block_store,
        };
        proof {
            lemma_empty_is_counted(amt@);
            lemma_vacant_is_dense(amt@.node, amt@.blocks, DEFAULT_BIT_WIDTH, 0);
        }
        amt
    }

    /// The bit width of the trie.
    pub fn bit_width(&self) -> (w: u32)
        ensures
            w == self@.bit_width,
    {
        self.root.bit_width
    }

    /// The height of the trie.
    pub fn height(&self) -> (h: u32)
        ensures
            h == self@.height,
    {
        self.root.height
    }

    /// The count of the trie: the number of populated indices.
    pub fn count(&self) -> (n: u64)
        ensures
            n == self@.count,
    {
        self.root.count
    }

    /// A copy of the store that the trie reads from and writes to. The store itself stays
    /// with the trie: it can be written to through a shared reference, and what the trie
    /// holds depends on its blocks.
    pub fn store_copy(&self) -> (store: MemoryBlockstore)
        ensures
            store_blocks(store) == self@.blocks,
    {
        self.block_store.clone()
    }

    /// Gives up the trie for its store.
    pub fn into_store(self) -> (store: MemoryBlockstore)
        ensures
            store_blocks(store) == self@.blocks,
    {
        self.block_store
    }

    /// Whether `i` is past the indices that the trie addresses at its height.
    fn beyond(&self, i: u64) -> (b: bool)
        requires
            self@.wf(),
        ensures
            b == (i >= self@.reach()),
            fits(self@.bit_width, self@.height as nat),
    {
        proof {
            lemma_max_height_fits(self@.bit_width, self@.height as nat);
            let e = (self@.bit_width as nat) * ((self@.height + 1) as nat);
            lemma2_to64_rest();
            if e >= 64 {
                lemma_pow2_strictly_increases_or_equal(64, e);
            } else {
                lemma_pow2_strictly_increases_or_equal(e, 63);
            }
            assert(self@.height + 1 <= 64);
        }
        let n = nodes_for_height(self.root.bit_width, self.root.height + 1);
        n != u64::MAX && i >= n
    }

    /// The value at index `i`. Fails with `OutOfRange` for an index above the greatest,
    /// and with the report of the fault where the way to the index cannot be read from
    /// the store.
    pub fn get(&self, i: u64) -> (res: Result<Option<Vec<u8>>, Error>)
        requires
            self@.wf(),
        ensures
            i > MAX_INDEX ==> (res matches Err(Error::OutOfRange(j)) && j == i),
            i <= MAX_INDEX ==> found(res, self@.lookup(i as nat)),
            self@.sound() && i <= MAX_INDEX ==> res is Ok,
    {
        proof {
            if self@.sound() {
                crate::node::dense::lemma_dense_is_readable(
                    self@.node,
                    self@.blocks,
                    self@.bit_width,
                    self@.height as nat,
                    i as nat,
                );
            }
        }
        if i > MAX_INDEX {
            return Err(Error::OutOfRange(i));
        }
        if self.beyond(i) {
            proof {
                lemma_beyond_reach(
                    self@.node,
                    self@.blocks,
                    self@.bit_width,
                    self@.height as nat,
                    i as nat,
                );
            }
            return Ok(None);
        }
        self.root.node.get(&self.block_store, self.root.height, self.root.bit_width, i)
    }
}

impl TrieModel {
    /// Whether two tries hold the same at every index.
    pub open spec fn same_content(self, other: TrieModel) -> bool {
        forall|j: nat| #[trigger] self.lookup(j) == other.lookup(j)
    }

    /// Whether two tries hold the same at every index but `i`.
    pub open spec fn same_but_at(self, other: TrieModel, i: nat) -> bool {
        forall|j: nat| j != i ==> #[trigger] self.lookup(j) == other.lookup(j)
    }

    /// Whether two tries have the same layout and bit width over the same blocks.
    pub open spec fn same_frame(self, other: TrieModel) -> bool {
        &&& self.version == other.version
        &&& self.bit_width == other.bit_width
        &&& self.blocks == other.blocks
    }

    /// Whether the root is in its least form: an empty trie is a leaf of height zero, and
    /// above height zero the topmost node cannot give way to its first subtree.
    pub open spec fn settled(self) -> bool {
        &&& vacant(self.node) ==> self.height == 0
        &&& self.height > 0 ==> !collapsible(self.node)
    }

    /// Whether the root is held from its least form by a fault that `error` reports: the
    /// subtree that should take the place of the topmost node cannot be read.
    pub open spec fn stuck_on(self, error: Error) -> bool {
        &&& self.height > 0
        &&& collapsible(self.node)
        &&& resolve(
            self.node->Branch_0[0]->Some_0,
            self.blocks,
            self.bit_width,
            (self.height - 1) as nat,
        ) matches Err(fault) && reports(error, fault)
    }
}

} // verus!
