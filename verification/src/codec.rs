//! The wire form of a node: a bitmap of the slots in use, and what they hold, packed.

use cid::Cid;
use crate::error::Error;
use crate::limits::{fanout, lemma_shift_is_pow2, valid_bit_width};
use crate::store::ContentId;
use fvm_ipld_encoding::{BytesDe, BytesSer, from_slice, to_vec};
use vstd::arithmetic::power2::{lemma2_to64, lemma_pow2_adds, pow2};
use ipld_core::ipld::Ipld;
use vstd::prelude::*;

verus! {

/// What the wire form of a node holds.
pub struct NodeParts {
    /// One bit for each slot, set where the slot is in use; slot `k` is bit `k % 8` of
    /// byte `k / 8`.
    pub bmap: Seq<u8>,
    /// The content hashes of the subtrees in the slots in use, in the order of the slots.
    pub links: Seq<Seq<u8>>,
    /// The values in the slots in use, in the order of the slots.
    pub values: Seq<Seq<u8>>,
}

/// The compact wire form of a node: it leaves out the empty slots.
pub struct CollapsedNode {
    pub bmap: Vec<u8>,
    pub links: Vec<ContentId>,
    pub values: Vec<Vec<u8>>,
}

/// The binary forms of a sequence of content hashes.
pub open spec fn ids_of(links: Seq<ContentId>) -> Seq<Seq<u8>> {
    links.map_values(|id: ContentId| id@)
}

/// The bytes of a sequence of values.
pub open spec fn payloads_of(values: Seq<Vec<u8>>) -> Seq<Seq<u8>> {
    values.map_values(|v: Vec<u8>| v@)
}

impl View for CollapsedNode {
    type V = NodeParts;

    open spec fn view(&self) -> NodeParts {
        NodeParts {
            bmap: self.bmap@,
            links: ids_of(self.links@),
            values: payloads_of(self.values@),
        }
    }
}

/// The encoding of the wire form of a node: the CBOR array of its bitmap as a byte string,
/// the array of its links, and the array of its values, each value as the CBOR item that
/// its bytes are the encoding of. `None` where it has no encoding, as where the bytes of a
/// value are not the encoding of one item.
pub uninterp spec fn node_encoding(bmap: Seq<u8>, links: Seq<Seq<u8>>, values: Seq<Seq<u8>>)
    -> Option<Seq<u8>>;

/// The bitmap, the links and the values that a block decodes to as the wire form of a
/// node, each value as the bytes that encode its CBOR item. `None` where it does not
/// decode to one.
pub uninterp spec fn node_decoding(block: Seq<u8>) -> Option<(Seq<u8>, Seq<Seq<u8>>, Seq<Seq<u8>>)>;

/// `fvm_ipld_encoding::to_vec` on the triple of the bitmap as a byte string, the links as
/// content hashes and the values as the items that `from_slice` reads from their bytes: the
/// block named by [`node_encoding`], or the text of the failure.
#[verifier::external_body]
pub(crate) fn encode_node(node: &CollapsedNode) -> (block: Result<Vec<u8>, String>)
    ensures
        block is Ok <==> node_encoding(node@.bmap, node@.links, node@.values) is Some,
        block matches Ok(b) ==> node_encoding(node@.bmap, node@.links, node@.values) == Some(b@),
{
    let links: Result<Vec<Cid>, cid::Error> =
        node.links.iter().map(|id| Cid::try_from(id.bytes.as_slice())).collect();
    let values: Result<Vec<Ipld>, _> = node.values.iter().map(|v| from_slice::<Ipld>(v)).collect();
    match (links, values) {
        (Ok(links), Ok(values)) => to_vec(&(BytesSer(&node.bmap), links, values)).map_err(
            |e| e.description,
        ),
        (Err(e), _) => Err(e.to_string()),
        (_, Err(e)) => Err(e.description),
    }
}

/// `fvm_ipld_encoding::from_slice` to the triple of a byte string, content hashes and
/// items, each item written back to bytes with `to_vec`: the wire form named by
/// [`node_decoding`], or the text of the failure. Each content hash is written with
/// `Cid::to_bytes`, so each is in binary form.
#[verifier::external_body]
pub(crate) fn decode_node(block: &Vec<u8>) -> (node: Result<CollapsedNode, String>)
    ensures
        node is Ok <==> node_decoding(block@) is Some,
        node matches Ok(n) ==> node_decoding(block@) == Some((n@.bmap, n@.links, n@.values)),
{
    let (bmap, links, items) = match from_slice::<(BytesDe, Vec<Cid>, Vec<Ipld>)>(block) {
        Ok(parts) => parts,
        Err(e) => return Err(e.description),
    };
    match items.iter().map(|v| to_vec(v)).collect::<Result<Vec<Vec<u8>>, _>>() {
        Ok(values) => Ok(
            CollapsedNode {
                bmap: bmap.0,
                links: links.iter().map(|c| ContentId { bytes: c.to_bytes() }).collect(),
                values,
            },
        ),
        Err(e) => Err(e.description),
    }
}

/// The number of bytes in the bitmap of a node: one bit for each slot, and one byte at
/// the least.
pub open spec fn bmap_len(bit_width: u32) -> nat {
    if bit_width <= 3 {
        1
    } else {
        pow2((bit_width - 3) as nat)
    }
}

/// Whether the bitmap has the bit of slot `k` set.
pub open spec fn bit_at(bmap: Seq<u8>, k: int) -> bool {
    bmap[k / 8] & (1u8 << ((k % 8) as u8)) != 0
}

/// The number of slots below `k` whose bit is set.
pub open spec fn rank(bmap: Seq<u8>, k: nat) -> nat
    decreases k,
{
    if k == 0 {
        0
    } else {
        rank(bmap, (k - 1) as nat) + if bit_at(bmap, k - 1) {
            1nat
        } else {
            0nat
        }
    }
}

/// The `n` slots that the bitmap spreads the packed `items` over: the slot of each set bit
/// holds the next item.
pub open spec fn spread<T>(bmap: Seq<u8>, items: Seq<T>, n: nat) -> Seq<Option<T>> {
    Seq::new(
        n,
        |k: int|
            if bit_at(bmap, k) {
                Some(items[rank(bmap, k as nat) as int])
            } else {
                None
            },
    )
}

/// The number of slots of a node.
pub fn slots(bit_width: u32) -> (n: usize)
    requires
        valid_bit_width(bit_width),
    ensures
        n == fanout(bit_width),
        n >= 2,
{
    proof {
        lemma_shift_is_pow2(bit_width as nat);
        vstd::arithmetic::power2::lemma_pow2_strictly_increases(0, bit_width as nat);
        lemma2_to64();
        assert(pow2(bit_width as nat) <= pow2(31)) by {
            crate::limits::lemma_pow2_strictly_increases_or_equal(bit_width as nat, 31);
        }
        assert((1u64 << (bit_width as u64)) == (1usize << bit_width) as u64) by (bit_vector)
            requires
                bit_width <= 31,
        ;
    }
    1usize << bit_width
}

/// The number of bytes in the bitmap of a node.
pub fn bmap_bytes(bit_width: u32) -> (n: usize)
    requires
        valid_bit_width(bit_width),
    ensures
        n == bmap_len(bit_width),
        8 * n >= fanout(bit_width),
        8 * n <= 0x8000_0000,
        bit_width > 3 ==> 8 * n == fanout(bit_width),
{
    proof {
        lemma2_to64();
    }
    if bit_width <= 3 {
        proof {
            crate::limits::lemma_pow2_strictly_increases_or_equal(bit_width as nat, 3);
        }
        1
    } else {
        proof {
            lemma_pow2_adds((bit_width - 3) as nat, 3);
            crate::limits::lemma_pow2_strictly_increases_or_equal(bit_width as nat, 31);
        }
        slots(bit_width) / 8
    }
}

/// `rank` never falls as `k` grows, and grows by one slot at most for each.
pub proof fn lemma_rank_monotone(bmap: Seq<u8>, a: nat, b: nat)
    requires
        a <= b,
    ensures
        rank(bmap, a) <= rank(bmap, b) <= rank(bmap, a) + (b - a),
    decreases b,
{
    if a < b {
        lemma_rank_monotone(bmap, a, (b - 1) as nat);
    }
}

/// The slots of a leaf that the wire form stands for, where it stands for one: it has no
/// links, a bitmap of the right length, and as many values as the bitmap has bits set
/// among the slots of a node.
pub open spec fn expand_leaf(parts: NodeParts, bit_width: u32) -> Option<Seq<Option<Seq<u8>>>> {
    if parts.links.len() == 0 && parts.bmap.len() == bmap_len(bit_width) && rank(
        parts.bmap,
        fanout(bit_width),
    ) == parts.values.len() {
        Some(spread(parts.bmap, parts.values, fanout(bit_width)))
    } else {
        None
    }
}

/// The slots of a branch that the wire form stands for, where it stands for one: it has
/// links and no values, a bitmap of the right length, and as many links as the bitmap has
/// bits set among the slots of a node.
pub open spec fn expand_branch(parts: NodeParts, bit_width: u32) -> Option<Seq<Option<Seq<u8>>>> {
    if parts.links.len() > 0 && parts.values.len() == 0 && parts.bmap.len() == bmap_len(
        bit_width,
    ) && rank(parts.bmap, fanout(bit_width)) == parts.links.len() {
        Some(spread(parts.bmap, parts.links, fanout(bit_width)))
    } else {
        None
    }
}

/// Whether the bitmap has the bit of slot `k` set.
pub fn bit_set(bmap: &Vec<u8>, k: usize) -> (set: bool)
    requires
        k / 8 < bmap.len(),
    ensures
        set == bit_at(bmap@, k as int),
{
    let shift: u8 = (k % 8) as u8;
    bmap[k / 8] & (1u8 << shift) != 0
}

/// The bit of slot `k` within its byte of a bitmap, where the slot is in use; else zero.
pub open spec fn slot_flag(used: Seq<bool>, k: int) -> u8 {
    if 0 <= k < used.len() && used[k] {
        1u8 << ((k % 8) as u8)
    } else {
        0u8
    }
}

/// The first `t` bits of byte `b` of the bitmap of the slots in use.
pub open spec fn bitmap_byte(used: Seq<bool>, b: int, t: nat) -> u8
    decreases t,
{
    if t == 0 {
        0u8
    } else {
        bitmap_byte(used, b, (t - 1) as nat) | slot_flag(used, 8 * b + t - 1)
    }
}

/// The bitmap, of `n` bytes, of the slots in use.
pub open spec fn bitmap_of(used: Seq<bool>, n: nat) -> Seq<u8> {
    Seq::new(n, |b: int| bitmap_byte(used, b, 8))
}

/// What the slots in use hold, in the order of the slots.
pub open spec fn packed<T>(slots: Seq<Option<T>>) -> Seq<T>
    decreases slots.len(),
{
    if slots.len() == 0 {
        Seq::empty()
    } else {
        match slots.last() {
            Some(item) => packed(slots.drop_last()).push(item),
            None => packed(slots.drop_last()),
        }
    }
}

/// Which of the slots are in use.
pub open spec fn in_use<T>(slots: Seq<Option<T>>) -> Seq<bool> {
    slots.map_values(|slot: Option<T>| slot is Some)
}

/// Packing one slot more adds what that slot holds.
pub proof fn lemma_packed_step<T>(slots: Seq<Option<T>>, k: int)
    requires
        0 <= k < slots.len(),
    ensures
        packed(slots.take(k + 1)) == match slots[k] {
            Some(item) => packed(slots.take(k)).push(item),
            None => packed(slots.take(k)),
        },
{
    assert(slots.take(k + 1).drop_last() =~= slots.take(k));
}

/// The bit of slot `k` within its byte of a bitmap, where the slot is in use; else zero.
fn flag(used: &Vec<bool>, k: usize) -> (f: u8)
    ensures
        f == slot_flag(used@, k as int),
{
    if k < used.len() && used[k] {
        let shift: u8 = (k % 8) as u8;
        1u8 << shift
    } else {
        0
    }
}

/// The bitmap, of `n` bytes, of the slots in use.
pub fn bitmap(used: &Vec<bool>, n: usize) -> (bmap: Vec<u8>)
    requires
        8 * n <= usize::MAX,
    ensures
        bmap@ == bitmap_of(used@, n as nat),
{
    let mut bmap: Vec<u8> = Vec::new();
    let mut b: usize = 0;
    while b < n
        invariant
            b <= n,
            8 * n <= usize::MAX,
            bmap.len() == b,
            forall|j: int| 0 <= j < b ==> bmap[j] == bitmap_byte(used@, j, 8),
        decreases n - b,
    {
        let mut byte: u8 = 0;
        let mut t: u8 = 0;
        while t < 8
            invariant
                t <= 8,
                b < n,
                8 * n <= usize::MAX,
                byte == bitmap_byte(used@, b as int, t as nat),
            decreases 8 - t,
        {
            byte = byte | flag(used, 8 * b + t as usize);
            t += 1;
        }
        bmap.push(byte);
        b += 1;
    }
    assert(bmap@ =~= bitmap_of(used@, n as nat));
    bmap
}

/// The bitmap of a node has a bit for each of its slots.
pub proof fn lemma_bmap_len(bit_width: u32)
    requires
        valid_bit_width(bit_width),
    ensures
        8 * bmap_len(bit_width) >= fanout(bit_width),
{
    lemma2_to64();
    if bit_width <= 3 {
        crate::limits::lemma_pow2_strictly_increases_or_equal(bit_width as nat, 3);
    } else {
        lemma_pow2_adds((bit_width - 3) as nat, 3);
    }
}

/// Each bit of a byte that is put together from one flag for each bit is set exactly
/// when its flag is.
proof fn lemma_flags(f0: u8, f1: u8, f2: u8, f3: u8, f4: u8, f5: u8, f6: u8, f7: u8)
    requires
        f0 == 0 || f0 == 1,
        f1 == 0 || f1 == 2,
        f2 == 0 || f2 == 4,
        f3 == 0 || f3 == 8,
        f4 == 0 || f4 == 16,
        f5 == 0 || f5 == 32,
        f6 == 0 || f6 == 64,
        f7 == 0 || f7 == 128,
    ensures
        ((((((((0u8 | f0) | f1) | f2) | f3) | f4) | f5) | f6) | f7) & 1 != 0 <==> f0 != 0,
        ((((((((0u8 | f0) | f1) | f2) | f3) | f4) | f5) | f6) | f7) & 2 != 0 <==> f1 != 0,
        ((((((((0u8 | f0) | f1) | f2) | f3) | f4) | f5) | f6) | f7) & 4 != 0 <==> f2 != 0,
        ((((((((0u8 | f0) | f1) | f2) | f3) | f4) | f5) | f6) | f7) & 8 != 0 <==> f3 != 0,
        ((((((((0u8 | f0) | f1) | f2) | f3) | f4) | f5) | f6) | f7) & 16 != 0 <==> f4 != 0,
        ((((((((0u8 | f0) | f1) | f2) | f3) | f4) | f5) | f6) | f7) & 32 != 0 <==> f5 != 0,
        ((((((((0u8 | f0) | f1) | f2) | f3) | f4) | f5) | f6) | f7) & 64 != 0 <==> f6 != 0,
        ((((((((0u8 | f0) | f1) | f2) | f3) | f4) | f5) | f6) | f7) & 128 != 0 <==> f7 != 0,
{
    assert(((((((((0u8 | f0) | f1) | f2) | f3) | f4) | f5) | f6) | f7) & 1 != 0 <==> f0 != 0)
        by (bit_vector)
        requires
            f0 == 0 || f0 == 1,
            f1 == 0 || f1 == 2,
            f2 == 0 || f2 == 4,
            f3 == 0 || f3 == 8,
            f4 == 0 || f4 == 16,
            f5 == 0 || f5 == 32,
            f6 == 0 || f6 == 64,
            f7 == 0 || f7 == 128,
    ;
    assert(((((((((0u8 | f0) | f1) | f2) | f3) | f4) | f5) | f6) | f7) & 2 != 0 <==> f1 != 0)
        by (bit_vector)
        requires
            f0 == 0 || f0 == 1,
            f1 == 0 || f1 == 2,
            f2 == 0 || f2 == 4,
            f3 == 0 || f3 == 8,
            f4 == 0 || f4 == 16,
            f5 == 0 || f5 == 32,
            f6 == 0 || f6 == 64,
            f7 == 0 || f7 == 128,
    ;
    assert(((((((((0u8 | f0) | f1) | f2) | f3) | f4) | f5) | f6) | f7) & 4 != 0 <==> f2 != 0)
        by (bit_vector)
        requires
            f0 == 0 || f0 == 1,
            f1 == 0 || f1 == 2,
            f2 == 0 || f2 == 4,
            f3 == 0 || f3 == 8,
            f4 == 0 || f4 == 16,
            f5 == 0 || f5 == 32,
            f6 == 0 || f6 == 64,
            f7 == 0 || f7 == 128,
    ;
    assert(((((((((0u8 | f0) | f1) | f2) | f3) | f4) | f5) | f6) | f7) & 8 != 0 <==> f3 != 0)
        by (bit_vector)
        requires
            f0 == 0 || f0 == 1,
            f1 == 0 || f1 == 2,
            f2 == 0 || f2 == 4,
            f3 == 0 || f3 == 8,
            f4 == 0 || f4 == 16,
            f5 == 0 || f5 == 32,
            f6 == 0 || f6 == 64,
            f7 == 0 || f7 == 128,
    ;
    assert(((((((((0u8 | f0) | f1) | f2) | f3) | f4) | f5) | f6) | f7) & 16 != 0 <==> f4 != 0)
        by (bit_vector)
        requires
            f0 == 0 || f0 == 1,
            f1 == 0 || f1 == 2,
            f2 == 0 || f2 == 4,
            f3 == 0 || f3 == 8,
            f4 == 0 || f4 == 16,
            f5 == 0 || f5 == 32,
            f6 == 0 || f6 == 64,
            f7 == 0 || f7 == 128,
    ;
    assert(((((((((0u8 | f0) | f1) | f2) | f3) | f4) | f5) | f6) | f7) & 32 != 0 <==> f5 != 0)
        by (bit_vector)
        requires
            f0 == 0 || f0 == 1,
            f1 == 0 || f1 == 2,
            f2 == 0 || f2 == 4,
            f3 == 0 || f3 == 8,
            f4 == 0 || f4 == 16,
            f5 == 0 || f5 == 32,
            f6 == 0 || f6 == 64,
            f7 == 0 || f7 == 128,
    ;
    assert(((((((((0u8 | f0) | f1) | f2) | f3) | f4) | f5) | f6) | f7) & 64 != 0 <==> f6 != 0)
        by (bit_vector)
        requires
            f0 == 0 || f0 == 1,
            f1 == 0 || f1 == 2,
            f2 == 0 || f2 == 4,
            f3 == 0 || f3 == 8,
            f4 == 0 || f4 == 16,
            f5 == 0 || f5 == 32,
            f6 == 0 || f6 == 64,
            f7 == 0 || f7 == 128,
    ;
    assert(((((((((0u8 | f0) | f1) | f2) | f3) | f4) | f5) | f6) | f7) & 128 != 0 <==> f7 != 0)
        by (bit_vector)
        requires
            f0 == 0 || f0 == 1,
            f1 == 0 || f1 == 2,
            f2 == 0 || f2 == 4,
            f3 == 0 || f3 == 8,
            f4 == 0 || f4 == 16,
            f5 == 0 || f5 == 32,
            f6 == 0 || f6 == 64,
            f7 == 0 || f7 == 128,
    ;
}

/// The bitmap of the slots in use has the bit of a slot set exactly when the slot is in
/// use.
pub proof fn lemma_bitmap_bit(used: Seq<bool>, n: nat, k: int)
    requires
        0 <= k < 8 * n,
    ensures
        bit_at(bitmap_of(used, n), k) == (k < used.len() && used[k]),
{
    let b = k / 8;
    let t = k % 8;
    let byte = bitmap_byte(used, b, 8);
    reveal_with_fuel(bitmap_byte, 9);
    let f0 = slot_flag(used, 8 * b + 0);
    let f1 = slot_flag(used, 8 * b + 1);
    let f2 = slot_flag(used, 8 * b + 2);
    let f3 = slot_flag(used, 8 * b + 3);
    let f4 = slot_flag(used, 8 * b + 4);
    let f5 = slot_flag(used, 8 * b + 5);
    let f6 = slot_flag(used, 8 * b + 6);
    let f7 = slot_flag(used, 8 * b + 7);
    assert(1u8 << 0u8 == 1u8) by (bit_vector);
    assert(1u8 << 1u8 == 2u8) by (bit_vector);
    assert(1u8 << 2u8 == 4u8) by (bit_vector);
    assert(1u8 << 3u8 == 8u8) by (bit_vector);
    assert(1u8 << 4u8 == 16u8) by (bit_vector);
    assert(1u8 << 5u8 == 32u8) by (bit_vector);
    assert(1u8 << 6u8 == 64u8) by (bit_vector);
    assert(1u8 << 7u8 == 128u8) by (bit_vector);
    assert((8 * b + 0) % 8 == 0 && (8 * b + 1) % 8 == 1 && (8 * b + 2) % 8 == 2 && (8 * b + 3) % 8
        == 3);
    assert((8 * b + 4) % 8 == 4 && (8 * b + 5) % 8 == 5 && (8 * b + 6) % 8 == 6 && (8 * b + 7) % 8
        == 7);
    assert(byte == ((((((((0u8 | f0) | f1) | f2) | f3) | f4) | f5) | f6) | f7));
    lemma_flags(f0, f1, f2, f3, f4, f5, f6, f7);
    assert(k == 8 * b + t);
    assert(bitmap_of(used, n)[b] == byte);
}

/// The number of set bits below slot `k` in the bitmap of some slots is the number of
/// items that the slots below `k` hold.
pub proof fn lemma_rank_of_bitmap<T>(slots: Seq<Option<T>>, n: nat, k: nat)
    requires
        k <= slots.len() <= 8 * n,
    ensures
        rank(bitmap_of(in_use(slots), n), k) == packed(slots.take(k as int)).len(),
    decreases k,
{
    if k > 0 {
        lemma_rank_of_bitmap(slots, n, (k - 1) as nat);
        lemma_bitmap_bit(in_use(slots), n, k - 1);
        lemma_packed_step(slots, k - 1);
    } else {
        assert(slots.take(0).len() == 0);
    }
}

/// What the slots below `k` hold, packed, is the start of what the slots below `m` hold,
/// packed.
pub proof fn lemma_packed_prefix<T>(slots: Seq<Option<T>>, k: int, m: int)
    requires
        0 <= k <= m <= slots.len(),
    ensures
        packed(slots.take(k)).len() <= packed(slots.take(m)).len(),
        forall|j: int|
            0 <= j < packed(slots.take(k)).len() ==> packed(slots.take(m))[j] == packed(
                slots.take(k),
            )[j],
    decreases m - k,
{
    if k < m {
        lemma_packed_prefix(slots, k, m - 1);
        lemma_packed_step(slots, m - 1);
    }
}

/// Spreading what some slots hold, packed, over the bitmap of the slots gives the slots
/// back.
pub proof fn lemma_spread_of_packed<T>(slots: Seq<Option<T>>, n: nat)
    requires
        slots.len() <= 8 * n,
    ensures
        spread(bitmap_of(in_use(slots), n), packed(slots), slots.len()) == slots,
        rank(bitmap_of(in_use(slots), n), slots.len()) == packed(slots).len(),
{
    let bmap = bitmap_of(in_use(slots), n);
    let items = packed(slots);
    let len = slots.len() as int;
    assert(slots.take(len) =~= slots);
    lemma_rank_of_bitmap(slots, n, slots.len());
    assert forall|k: int| 0 <= k < len implies spread(bmap, items, slots.len())[k] == slots[k] by {
        lemma_bitmap_bit(in_use(slots), n, k);
        lemma_rank_of_bitmap(slots, n, k as nat);
        if slots[k] is Some {
            lemma_packed_step(slots, k);
            lemma_packed_prefix(slots, k + 1, len);
            let upto = packed(slots.take(k + 1));
            assert(upto[packed(slots.take(k)).len() as int] == slots[k]->Some_0);
        }
    }
    assert(spread(bmap, items, slots.len()) =~= slots);
}

} // verus!
