//! The root of a trie: its height, its count, its bit width and its topmost node, in one of
//! two wire layouts.

use cid::Cid;
use crate::codec::CollapsedNode;
use crate::node::Node;
use crate::store::ContentId;
use fvm_ipld_encoding::{BytesDe, BytesSer, from_slice, to_vec};
use ipld_core::ipld::Ipld;
use vstd::prelude::*;

verus! {

/// The wire layout of a root.
#[derive(Clone, Copy, Debug, PartialEq, Eq, Structural)]
pub enum Version {
    /// The legacy layout: height, count and node. The bit width is not written; it is
    /// always the default.
    V0,
    /// The current layout: bit width, height, count and node.
    V3,
}

/// The root of a trie.
pub struct RootImpl {
    pub version: Version,
    pub bit_width: u32,
    pub height: u32,
    pub count: u64,
    pub node: Node,
}

/// The encoding of a root in the current layout: the CBOR array of the bit width, the
/// height, the count and the wire form of the node, each value of the node as the CBOR
/// item that its bytes are the encoding of. `None` where it has no encoding.
pub uninterp spec fn root_encoding(
    bit_width: u32,
    height: u32,
    count: u64,
    bmap: Seq<u8>,
    links: Seq<Seq<u8>>,
    values: Seq<Seq<u8>>,
) -> Option<Seq<u8>>;

/// The encoding of a root in the legacy layout: the CBOR array of the height, the count
/// and the wire form of the node, each value of the node as the CBOR item that its bytes
/// are the encoding of. `None` where it has no encoding.
pub uninterp spec fn legacy_root_encoding(
    height: u32,
    count: u64,
    bmap: Seq<u8>,
    links: Seq<Seq<u8>>,
    values: Seq<Seq<u8>>,
) -> Option<Seq<u8>>;

/// The bit width, the height, the count, and the bitmap, links and values of the node that
/// a block decodes to as a root in the current layout. `None` where it does not decode to
/// one.
pub uninterp spec fn root_decoding(block: Seq<u8>) -> Option<
    (u32, u32, u64, Seq<u8>, Seq<Seq<u8>>, Seq<Seq<u8>>),
>;

/// The height, the count, and the bitmap, links and values of the node that a block
/// decodes to as a root in the legacy layout. `None` where it does not decode to one.
pub uninterp spec fn legacy_root_decoding(block: Seq<u8>) -> Option<
    (u32, u64, Seq<u8>, Seq<Seq<u8>>, Seq<Seq<u8>>),
>;

/// `fvm_ipld_encoding::to_vec` on the bit width, the height, the count and the triple of
/// the node, its values as the items that `from_slice` reads from their bytes: the block
/// named by [`root_encoding`], or the text of the failure.
#[verifier::external_body]
pub(crate) fn encode_root(bit_width: u32, height: u32, count: u64, node: &CollapsedNode) -> (block:
    Result<Vec<u8>, String>)
    ensures
        block is Ok <==> root_encoding(
            bit_width,
            height,
            count,
            node@.bmap,
            node@.links,
            node@.values,
        ) is Some,
        block matches Ok(b) ==> root_encoding(
            bit_width,
            height,
            count,
            node@.bmap,
            node@.links,
            node@.values,
        ) == Some(b@),
{
    let links: Result<Vec<Cid>, cid::Error> =
        node.links.iter().map(|id| Cid::try_from(id.bytes.as_slice())).collect();
    let values: Result<Vec<Ipld>, _> = node.values.iter().map(|v| from_slice::<Ipld>(v)).collect();
    match (links, values) {
        (Ok(links), Ok(values)) => to_vec(
            &(bit_width, height, count, (BytesSer(&node.bmap), links, values)),
        ).map_err(|e| e.description),
        (Err(e), _) => Err(e.to_string()),
        (_, Err(e)) => Err(e.description),
    }
}

/// `fvm_ipld_encoding::to_vec` on the height, the count and the triple of the node, its
/// values as the items that `from_slice` reads from their bytes: the block named by
/// [`legacy_root_encoding`], or the text of the failure.
#[verifier::external_body]
pub(crate) fn encode_legacy_root(height: u32, count: u64, node: &CollapsedNode) -> (block: Result<
    Vec<u8>,
    String,
>)
    ensures
        block is Ok <==> legacy_root_encoding(
            height,
            count,
            node@.bmap,
            node@.links,
            node@.values,
        ) is Some,
        block matches Ok(b) ==> legacy_root_encoding(
            height,
            count,
            node@.bmap,
            node@.links,
            node@.values,
        ) == Some(b@),
{
    let links: Result<Vec<Cid>, cid::Error> =
        node.links.iter().map(|id| Cid::try_from(id.bytes.as_slice())).collect();
    let values: Result<Vec<Ipld>, _> = node.values.iter().map(|v| from_slice::<Ipld>(v)).collect();
    match (links, values) {
        (Ok(links), Ok(values)) => to_vec(
            &(height, count, (BytesSer(&node.bmap), links, values)),
        ).map_err(|e| e.description),
        (Err(e), _) => Err(e.to_string()),
        (_, Err(e)) => Err(e.description),
    }
}

/// `fvm_ipld_encoding::from_slice` to the bit width, the height, the count and the triple
/// of a node, each value written back to bytes with `to_vec`: what [`root_decoding`]
/// names, or the text of the failure. Each content hash is written with `Cid::to_bytes`,
/// so each is in binary form.
#[verifier::external_body]
pub(crate) fn decode_root(block: &Vec<u8>) -> (root: Result<(u32, u32, u64, CollapsedNode), String>)
    ensures
        root is Ok <==> root_decoding(block@) is Some,
        root matches Ok(r) ==> root_decoding(block@) == Some(
            (r.0, r.1, r.2, r.3@.bmap, r.3@.links, r.3@.values),
        ),
{
    let (bit_width, height, count, (bmap, links, items)) = match from_slice::<
        (u32, u32, u64, (BytesDe, Vec<Cid>, Vec<Ipld>)),
    >(block) {
        Ok(parts) => parts,
        Err(e) => return Err(e.description),
    };
    let links = links.iter().map(|c| ContentId { bytes: c.to_bytes() }).collect();
    match items.iter().map(|v| to_vec(v)).collect::<Result<Vec<Vec<u8>>, _>>() {
        Ok(values) => Ok((bit_width, height, count, CollapsedNode { bmap: bmap.0, links, values })),
        Err(e) => Err(e.description),
    }
}

/// `fvm_ipld_encoding::from_slice` to the height, the count and the triple of a node,
/// each value written back to bytes with `to_vec`: what [`legacy_root_decoding`] names, or
/// the text of the failure. Each content hash is written with `Cid::to_bytes`, so each is
/// in binary form.
#[verifier::external_body]
pub(crate) fn decode_legacy_root(block: &Vec<u8>) -> (root: Result<(u32, u64, CollapsedNode), String>)
    ensures
        root is Ok <==> legacy_root_decoding(block@) is Some,
        root matches Ok(r) ==> legacy_root_decoding(block@) == Some(
            (r.0, r.1, r.2@.bmap, r.2@.links, r.2@.values),
        ),
{
    let (height, count, (bmap, links, items)) = match from_slice::<
        (u32, u64, (BytesDe, Vec<Cid>, Vec<Ipld>)),
    >(block) {
        Ok(parts) => parts,
        Err(e) => return Err(e.description),
    };
    let links = links.iter().map(|c| ContentId { bytes: c.to_bytes() }).collect();
    match items.iter().map(|v| to_vec(v)).collect::<Result<Vec<Vec<u8>>, _>>() {
        Ok(values) => Ok((height, count, CollapsedNode { bmap: bmap.0, links, values })),
        Err(e) => Err(e.description),
    }
}

} // verus!
