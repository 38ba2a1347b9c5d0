//! Loading a trie from the content hash of its root.

use crate::amt::{AmtImpl, TrieModel};
use crate::codec::NodeParts;
use crate::error::Error;
use crate::limits::{DEFAULT_BIT_WIDTH, max_height, spec_max_height, valid_bit_width};
use crate::node::shaped;
use crate::node::wire::expand_model;
use crate::root::{
    decode_legacy_root, decode_root, legacy_root_decoding, root_decoding, RootImpl, Version,
};
use crate::store::{Blocks, ContentId, get_block, store_blocks};
use fvm_ipld_blockstore::MemoryBlockstore;
use vstd::prelude::*;

verus! {

/// Why a root cannot be had from a store.
pub enum LoadFault {
    /// The store holds no block under the content hash.
    Missing,
    /// The block does not decode to a root, or the root has a bit width that no trie has,
    /// or its topmost node is not of the form of its height.
    Malformed,
    /// The root has the first height, which is above the second: the greatest of its bit
    /// width.
    TooHigh(u32, u32),
}

/// The bit width, the height, the count and the wire form of the topmost node that a
/// block decodes to as a root in the given layout.
pub open spec fn read_root(block: Seq<u8>, version: Version) -> Option<(u32, u32, u64, NodeParts)> {
    match version {
        Version::V3 => match root_decoding(block) {
            Some((bit_width, height, count, bmap, links, values)) => Some(
                (bit_width, height, count, NodeParts { bmap, links, values }),
            ),
            None => None,
        },
        Version::V0 => match legacy_root_decoding(block) {
            Some((height, count, bmap, links, values)) => Some(
                (DEFAULT_BIT_WIDTH, height, count, NodeParts { bmap, links, values }),
            ),
            None => None,
        },
    }
}

/// The trie whose root the store holds under a content hash, in the given layout.
pub open spec fn stored_trie(blocks: Blocks, id: Seq<u8>, version: Version) -> Result<
    TrieModel,
    LoadFault,
> {
    if !blocks.dom().contains(id) {
        Err(LoadFault::Missing)
    } else {
        match read_root(blocks[id], version) {
            None => Err(LoadFault::Malformed),
            Some((bit_width, height, count, parts)) => if !valid_bit_width(bit_width) {
                Err(LoadFault::Malformed)
            } else {
                match expand_model(parts, bit_width) {
                    None => Err(LoadFault::Malformed),
                    Some(node) => if height > spec_max_height(bit_width) {
                        Err(LoadFault::TooHigh(height, spec_max_height(bit_width) as u32))
                    } else if !shaped(node, bit_width, height as nat) {
                        Err(LoadFault::Malformed)
                    } else {
                        Ok(TrieModel { version, bit_width, height, count, node, blocks })
                    },
                }
            },
        }
    }
}

/// Whether `res` is the outcome of loading the trie under `id`: the trie, or the error
/// that reports why there is none.
pub open spec fn loaded(res: Result<AmtImpl, Error>, id: Seq<u8>, model: Result<TrieModel, LoadFault>)
    -> bool {
    match (res, model) {
        (Ok(amt), Ok(trie)) => amt@ == trie,
        (Err(Error::CidNotFound(missing)), Err(LoadFault::Missing)) => missing@ == id,
        (Err(Error::Codec(_)), Err(LoadFault::Malformed)) => true,
        (Err(Error::MaxHeight(height, max)), Err(LoadFault::TooHigh(h, m))) => height == h && max
            == m,
        _ => false,
    }
}

impl AmtImpl {
    /// The trie whose root `block_store` holds under `cid`, in the current layout.
    ///
    /// Fails with `CidNotFound` where the store holds no block there; with `Codec` where
    /// the block does not decode to a root of a trie; and with `MaxHeight` where the
    /// height of the root is above the greatest of its bit width.
    pub fn load(cid: &ContentId, block_store: MemoryBlockstore) -> (res: Result<AmtImpl, Error>)
        ensures
            loaded(res, cid@, stored_trie(store_blocks(block_store), cid@, Version::V3)),
            res matches Ok(amt) ==> amt@.wf(),
    {
        Self::load_as(cid, block_store, Version::V3)
    }

    /// The trie whose root `block_store` holds under `cid`, in the legacy layout. Fails
    /// as [`AmtImpl::load`] does.
    pub fn load_legacy(cid: &ContentId, block_store: MemoryBlockstore) -> (res: Result<
        AmtImpl,
        Error,
    >)
        ensures
            loaded(res, cid@, stored_trie(store_blocks(block_store), cid@, Version::V0)),
            res matches Ok(amt) ==> amt@.wf(),
    {
        Self::load_as(cid, block_store, Version::V0)
    }

    fn load_as(cid: &ContentId, block_store: MemoryBlockstore, version: Version) -> (res: Result<
        AmtImpl,
        Error,
    >)
        ensures
            loaded(res, cid@, stored_trie(store_blocks(block_store), cid@, version)),
            res matches Ok(amt) ==> amt@.wf(),
    {
        let block = match get_block(&block_store, cid) {
            Ok(Some(block)) => block,
            Ok(None) => {
                return Err(Error::CidNotFound(cid.clone()));
            },
            Err(e) => {
                return Err(e);
            },
        };
        let decoded = match version {
            Version::V3 => decode_root(&block),
            Version::V0 => match decode_legacy_root(&block) {
                Ok((height, count, wire)) => Ok((DEFAULT_BIT_WIDTH, height, count, wire)),
                Err(text) => Err(text),
            },
        };
        let (bit_width, height, count, wire) = match decoded {
            Ok(root) => root,
            Err(text) => {
                return Err(Error::Codec(text));
            },
        };
        if bit_width < 1 || bit_width > crate::limits::MAX_BIT_WIDTH {
            return Err(Error::Codec("a root has a bit width that no trie has".to_owned()));
        }
        let node = match wire.expand(bit_width) {
            Ok(node) => node,
            Err(e) => {
                return Err(e);
            },
        };
        let highest = max_height(bit_width);
        if height > highest {
            return Err(Error::MaxHeight(height, highest));
        }
        if node.is_leaf() != (height == 0) {
            return Err(Error::Codec("the node of a root is not of the form of its height".to_owned()));
        }
        Ok(AmtImpl { root: RootImpl { version, bit_width, height, count, node }, block_store })
    }
}

} // verus!
