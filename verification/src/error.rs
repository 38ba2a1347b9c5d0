//! The ways in which an operation on a trie fails.

use crate::store::ContentId;
use vstd::prelude::*;

verus! {

/// Why an operation on a trie failed.
#[derive(Debug)]
pub enum Error {
    /// The index is above the greatest index that a trie holds.
    OutOfRange(u64),
    /// The stored root has the first height, which is above the second: the greatest
    /// height of a trie of its bit width.
    MaxHeight(u32, u32),
    /// The store holds no block under this content hash.
    CidNotFound(ContentId),
    /// A block could not be encoded or decoded, or what it decodes to is no node or root
    /// of this trie. The text says what was found.
    Codec(String),
    /// The count of a trie cannot take another entry, or has none left to give up: it does
    /// not say how many indices are populated.
    CountMismatch,
    /// A strict batch delete met this index, which is not populated.
    NoSuchIndex(u64),
    /// The store failed to read or to write a block. The text says how.
    Store(String),
    /// A callback reported this failure.
    Callback(String),
}

/// Why what a reference denotes cannot be had from a store.
pub enum Fault {
    /// The store holds no block under this content hash.
    Missing(Seq<u8>),
    /// The block under a content hash does not decode to a node of the trie.
    Malformed,
}

/// Whether `error` is the report of `fault`.
pub open spec fn reports(error: Error, fault: Fault) -> bool {
    match (error, fault) {
        (Error::CidNotFound(id), Fault::Missing(key)) => id@ == key,
        (Error::Codec(_), Fault::Malformed) => true,
        _ => false,
    }
}

} // verus!
