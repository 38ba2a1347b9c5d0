//! The block store: content hashes, and the blocks an in-memory store holds under them.

use crate::error::Error;
use cid::Cid;
use fvm_ipld_blockstore::{Block, Blockstore, MemoryBlockstore};
use fvm_ipld_encoding::DAG_CBOR;
use multihash_codetable::Code;
use vstd::prelude::*;

verus! {

/// What a store holds: blocks of bytes, keyed by the bytes of their content hash.
pub type Blocks = Map<Seq<u8>, Seq<u8>>;

/// An in-memory block store.
#[verifier::external_type_specification]
#[verifier::external_body]
pub struct ExMemoryBlockstore(MemoryBlockstore);

/// `<MemoryBlockstore as Clone>::clone` is derived: the copy holds the same blocks.
pub assume_specification[ <MemoryBlockstore as Clone>::clone ](store: &MemoryBlockstore) -> (copy:
    MemoryBlockstore)
    ensures
        store_blocks(copy) == store_blocks(*store),
;

/// The blocks that a store holds, each under the binary form of its key.
pub uninterp spec fn store_blocks(store: MemoryBlockstore) -> Blocks;

/// The binary form in which the content hash that `bytes` parse to writes itself; `None`
/// where `bytes` parse to no content hash.
pub uninterp spec fn canonical_form(bytes: Seq<u8>) -> Option<Seq<u8>>;

/// Whether `bytes` is the binary form that a content hash writes itself in: they parse, and
/// the content hash they parse to writes itself as the same bytes.
pub open spec fn is_content_id(bytes: Seq<u8>) -> bool {
    canonical_form(bytes) == Some(bytes)
}

/// The binary form of the content hash of a block: version 1, the DAG-CBOR codec and the
/// 256-bit BLAKE2b digest of `data`.
pub uninterp spec fn content_id(data: Seq<u8>) -> Seq<u8>;

/// The text form of the content hash whose binary form is `bytes`.
pub uninterp spec fn content_id_text(bytes: Seq<u8>) -> Seq<char>;

/// A content hash: the deterministic digest of a block's bytes, which is both its key in a
/// store and a verifiable reference to it. Held in its binary form.
#[derive(Debug)]
pub struct ContentId {
    pub(crate) bytes: Vec<u8>,
}

impl View for ContentId {
    type V = Seq<u8>;

    closed spec fn view(&self) -> Seq<u8> {
        self.bytes@
    }
}

impl ContentId {
    #[verifier::type_invariant]
    spec fn canonical(self) -> bool {
        is_content_id(self.bytes@)
    }

    /// The content hash that `bytes` spell, if they are the binary form of one.
    pub fn from_bytes(bytes: &Vec<u8>) -> (id: Option<ContentId>)
        ensures
            id is Some <==> is_content_id(bytes@),
            id matches Some(c) ==> c@ == bytes@,
    {
        match rewrite(bytes) {
            Some(written) => {
                if bytes_equal(&written, bytes) {
                    Some(ContentId { bytes: written })
                } else {
                    None
                }
            },
            None => None,
        }
    }

    /// The binary form.
    pub fn to_bytes(&self) -> (bytes: Vec<u8>)
        ensures
            bytes@ == self@,
    {
        self.bytes.clone()
    }

    /// A copy of this content hash.
    pub fn clone(&self) -> (copy: ContentId)
        ensures
            copy@ == self@,
    {
        proof {
            use_type_invariant(self);
        }
        ContentId { bytes: self.bytes.clone() }
    }

    /// Whether two content hashes are the same.
    pub fn same(&self, other: &ContentId) -> (b: bool)
        ensures
            b == (self@ == other@),
    {
        bytes_equal(&self.bytes, &other.bytes)
    }

    /// The text form.
    pub fn to_string(&self) -> (text: String)
        ensures
            text@ == content_id_text(self@),
    {
        proof {
            use_type_invariant(self);
        }
        render(&self.bytes)
    }
}

/// Whether two byte strings are equal.
pub fn bytes_equal(a: &Vec<u8>, b: &Vec<u8>) -> (same: bool)
    ensures
        same == (a@ == b@),
{
    if a.len() != b.len() {
        return false;
    }
    let mut k: usize = 0;
    while k < a.len()
        invariant
            a.len() == b.len(),
            k <= a.len(),
            forall|j: int| 0 <= j < k ==> a@[j] == b@[j],
        decreases a.len() - k,
    {
        if a[k] != b[k] {
            return false;
        }
        k += 1;
    }
    assert(a@ =~= b@);
    true
}

/// Parses `bytes` with `Cid::try_from` and writes what they parse to with `Cid::to_bytes`:
/// the bytes named by [`canonical_form`]. Whether they equal `bytes` is not decided here.
#[verifier::external_body]
fn rewrite(bytes: &Vec<u8>) -> (written: Option<Vec<u8>>)
    ensures
        written is Some <==> canonical_form(bytes@) is Some,
        written matches Some(w) ==> canonical_form(bytes@) == Some(w@),
{
    match Cid::try_from(bytes.as_slice()) {
        Ok(cid) => Some(cid.to_bytes()),
        Err(_) => None,
    }
}

/// `Cid::to_string` of the content hash that `bytes` spell: its text form, named by
/// [`content_id_text`].
#[verifier::external_body]
fn render(bytes: &Vec<u8>) -> (text: String)
    requires
        is_content_id(bytes@),
    ensures
        text@ == content_id_text(bytes@),
{
    match Cid::try_from(bytes.as_slice()) {
        Ok(cid) => cid.to_string(),
        Err(_) => String::new(),
    }
}

/// `Block::cid` with the DAG-CBOR codec and `Code::Blake2b256`, written with
/// `Cid::to_bytes`: the content hash of `data`, named by [`content_id`]. What `to_bytes`
/// writes parses back to the same content hash, so the result is in binary form.
#[verifier::external_body]
fn block_id(data: &Vec<u8>) -> (id: ContentId)
    ensures
        id@ == content_id(data@),
        is_content_id(id@),
{
    ContentId { bytes: Block::new(DAG_CBOR, data).cid(Code::Blake2b256).to_bytes() }
}

/// `Blockstore::get` of `MemoryBlockstore`: a copy of the block held under `key`, if any.
/// That store answers every key with `Ok`, and `key` has to be in binary form, so that it
/// parses; the text of a failure is handed on all the same.
#[verifier::external_body]
fn store_get(store: &MemoryBlockstore, key: &Vec<u8>) -> (res: Result<Option<Vec<u8>>, String>)
    requires
        is_content_id(key@),
    ensures
        res is Ok,
        res matches Ok(block) ==> {
            &&& block is Some <==> store_blocks(*store).dom().contains(key@)
            &&& block matches Some(b) ==> b@ == store_blocks(*store)[key@]
        },
{
    match Cid::try_from(key.as_slice()) {
        Ok(cid) => store.get(&cid).map_err(|e| e.to_string()),
        Err(e) => Err(e.to_string()),
    }
}

/// `Blockstore::put_keyed` of `MemoryBlockstore`: afterwards the store holds `block` under
/// `key`, in place of what it held there, and every other block as before. That store
/// answers every write with `Ok`, and `key` has to be in binary form, so that it parses;
/// the text of a failure is handed on all the same.
#[verifier::external_body]
fn store_put_keyed(store: &mut MemoryBlockstore, key: &Vec<u8>, block: &Vec<u8>) -> (res: Result<
    (),
    String,
>)
    requires
        is_content_id(key@),
    ensures
        res is Ok,
        store_blocks(*final(store)) == store_blocks(*old(store)).insert(key@, block@),
{
    match Cid::try_from(key.as_slice()) {
        Ok(cid) => store.put_keyed(&cid, block.as_slice()).map_err(|e| e.to_string()),
        Err(e) => Err(e.to_string()),
    }
}

/// A copy of the block that the store holds under `key`, if it holds one. A failure of the
/// store is handed on as `Store`; a store in memory does not fail.
pub fn get_block(store: &MemoryBlockstore, key: &ContentId) -> (res: Result<Option<Vec<u8>>, Error>)
    ensures
        res is Ok,
        res matches Ok(block) ==> {
            &&& block is Some <==> store_blocks(*store).dom().contains(key@)
            &&& block matches Some(b) ==> b@ == store_blocks(*store)[key@]
        },
{
    proof {
        use_type_invariant(key);
    }
    match store_get(store, &key.bytes) {
        Ok(block) => Ok(block),
        Err(text) => Err(Error::Store(text)),
    }
}

/// Stores `block` under its content hash, unless the store already holds a block there:
/// content that is addressed by its hash is never written twice. A failure of the store
/// is handed on as `Store`; a store in memory does not fail.
pub fn put_block(store: &mut MemoryBlockstore, block: &Vec<u8>) -> (res: Result<ContentId, Error>)
    ensures
        res is Ok,
        res matches Ok(id) ==> id@ == content_id(block@),
        store_blocks(*final(store)) == if store_blocks(*old(store)).dom().contains(
            content_id(block@),
        ) {
            store_blocks(*old(store))
        } else {
            store_blocks(*old(store)).insert(content_id(block@), block@)
        },
{
    let id = block_id(block);
    let held = match store_get(store, &id.bytes) {
        Ok(held) => held,
        Err(text) => {
            return Err(Error::Store(text));
        },
    };
    if held.is_none() {
        match store_put_keyed(store, &id.bytes, block) {
            Ok(()) => {},
            Err(text) => {
                return Err(Error::Store(text));
            },
        }
    }
    Ok(id)
}

} // verus!
