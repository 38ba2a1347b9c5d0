//! Ceilings on indices, heights and fan-out, and the arithmetic of index ranges.

use vstd::arithmetic::power2::*;
use vstd::prelude::*;

verus! {

/// The bit width of a trie that is made without one.
pub const DEFAULT_BIT_WIDTH: u32 = 3;

/// The greatest bit width: the number of slots of a node, `2^bit_width`, has to fit in a
/// `usize` of 32 bits.
pub const MAX_BIT_WIDTH: u32 = 31;

/// The largest index a trie holds. One below the largest `u64`, so that the number of
/// indices up to it still fits.
pub const MAX_INDEX: u64 = 0xffff_ffff_ffff_fffe;

/// Whether a trie can have this bit width.
pub open spec fn valid_bit_width(bit_width: u32) -> bool {
    1 <= bit_width <= MAX_BIT_WIDTH
}

/// The greatest height of a trie of this bit width: the greatest for which the number of
/// indices under one slot of the root, `2^(bit_width * height)`, fits in a `u64`. It is
/// enough to reach every index up to `MAX_INDEX`.
pub open spec fn spec_max_height(bit_width: u32) -> nat {
    (63int / (bit_width as int)) as nat
}

/// The number of slots of a node: `2^bit_width`.
pub open spec fn fanout(bit_width: u32) -> nat {
    pow2(bit_width as nat)
}

/// The number of indices under one slot of a node at `height`: `2^(bit_width * height)`.
pub open spec fn span(bit_width: u32, height: nat) -> nat {
    pow2((bit_width as nat) * height)
}

/// The number of indices that a trie of this height addresses: `2^(bit_width * (height + 1))`.
pub open spec fn reach(bit_width: u32, height: nat) -> nat {
    span(bit_width, height + 1)
}

/// The greatest height of a trie of this bit width.
pub fn max_height(bit_width: u32) -> (h: u32)
    requires
        valid_bit_width(bit_width),
    ensures
        h == spec_max_height(bit_width),
{
    63 / bit_width
}

/// `2^(bit_width * height)`, or the largest `u64` where that does not fit.
pub fn nodes_for_height(bit_width: u32, height: u32) -> (n: u64)
    ensures
        (bit_width as nat) * (height as nat) >= 64 ==> n == u64::MAX,
        (bit_width as nat) * (height as nat) < 64 ==> n == span(bit_width, height as nat),
{
    assert((bit_width as int) * (height as int) <= 0xffff_ffff * 0xffff_ffff) by (nonlinear_arith)
        requires
            bit_width <= 0xffff_ffff,
            height <= 0xffff_ffff,
    ;
    let height_log_two: u64 = bit_width as u64 * height as u64;
    if height_log_two >= 64 {
        return u64::MAX;
    }
    proof {
        lemma_shift_is_pow2(height_log_two as nat);
    }
    1u64 << height_log_two
}

/// `1 << k` is `2^k` while it fits in a `u64`, and `2^k` fits while `k < 64`.
pub proof fn lemma_shift_is_pow2(k: nat)
    requires
        k < 64,
    ensures
        (1u64 << (k as u64)) == pow2(k),
        pow2(k) <= 0x8000_0000_0000_0000,
{
    lemma_pow2_strictly_increases_or_equal(k, 63);
    lemma2_to64_rest();
    vstd::bits::lemma_u64_shl_is_mul(1, k as u64);
}

/// `2^a <= 2^b` when `a <= b`.
pub proof fn lemma_pow2_strictly_increases_or_equal(a: nat, b: nat)
    requires
        a <= b,
    ensures
        pow2(a) <= pow2(b),
{
    if a < b {
        lemma_pow2_strictly_increases(a, b);
    }
}

/// Whether the number of indices under one slot of a node at `height` fits in a `u64`.
pub open spec fn fits(bit_width: u32, height: nat) -> bool {
    (bit_width as nat) * height <= 63
}

/// A height up to the greatest height of a bit width fits.
pub proof fn lemma_max_height_fits(bit_width: u32, height: nat)
    requires
        valid_bit_width(bit_width),
        height <= spec_max_height(bit_width),
    ensures
        fits(bit_width, height),
{
    assert((bit_width as int) * (height as int) <= 63) by (nonlinear_arith)
        requires
            1 <= bit_width,
            0 <= height <= 63int / (bit_width as int),
    ;
}

/// A subtree one level up addresses `2^bit_width` times as many indices, and what fits at
/// a height fits below it.
pub proof fn lemma_span_step(bit_width: u32, height: nat)
    ensures
        span(bit_width, height + 1) == span(bit_width, height) * fanout(bit_width),
        span(bit_width, height) > 0,
        fanout(bit_width) > 0,
        fits(bit_width, height + 1) ==> fits(bit_width, height),
{
    let b = bit_width as nat;
    assert(b * (height + 1) == b * height + b) by (nonlinear_arith);
    lemma_pow2_adds(b * height, b);
    lemma_pow2_pos(b * height);
    lemma_pow2_pos(b);
}

/// An index below the reach of a subtree falls into one of its slots, and its place in
/// that slot is below the reach of the subtree one level down.
pub proof fn lemma_slot_in_range(bit_width: u32, height: nat, i: nat)
    requires
        height > 0,
        i < reach(bit_width, height),
    ensures
        i / span(bit_width, height) < fanout(bit_width),
        i % span(bit_width, height) < reach(bit_width, (height - 1) as nat),
        i == span(bit_width, height) * (i / span(bit_width, height)) + i % span(
            bit_width,
            height,
        ),
{
    lemma_span_step(bit_width, height);
    let s = span(bit_width, height) as int;
    let f = fanout(bit_width) as int;
    vstd::arithmetic::div_mod::lemma_fundamental_div_mod(i as int, s);
    vstd::arithmetic::div_mod::lemma_mod_bound(i as int, s);
    assert((i as int) / s < f) by (nonlinear_arith)
        requires
            0 <= i < s * f,
            s > 0,
    ;
}

/// A higher trie addresses no fewer indices.
pub proof fn lemma_reach_grows(bit_width: u32, low: nat, high: nat)
    requires
        low <= high,
    ensures
        reach(bit_width, low) <= reach(bit_width, high),
{
    let b = bit_width as nat;
    assert(b * (low + 1) <= b * (high + 1)) by (nonlinear_arith)
        requires
            low <= high,
    ;
    lemma_pow2_strictly_increases_or_equal(b * (low + 1), b * (high + 1));
}

} // verus!
