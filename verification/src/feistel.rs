//! A fixed-round Feistel network over a `left_bits + right_bits`-bit block,
//! with the keyed mixer as the round function and one fixed round key.
//!
//! Each round splits the block into a high `left_bits`-bit half and a low
//! `right_bits`-bit half, XORs the mixed low half into the high half, and
//! reassembles with the halves swapped. For `left_bits <= right_bits` every
//! round is invertible, so the whole network is a bijection on
//! `[0, 2^(left_bits + right_bits))`, whatever the round function does.

use vstd::prelude::*;
use vstd::arithmetic::power2::pow2;
use vstd::arithmetic::power2::lemma_pow2_adds;
use vstd::arithmetic::power2::lemma_pow2_pos;
use vstd::arithmetic::div_mod::lemma_div_denominator;
use vstd::arithmetic::div_mod::lemma_basic_div;
use vstd::arithmetic::div_mod::lemma_div_non_zero;
use vstd::bits::lemma_u64_shr_is_div;
use crate::mix::hash_of;
use crate::mix::hash_ahash;

verus! {

/// The low-bits mask of width `b`.
pub open spec fn mask_of(b: u64) -> u64
    recommends
        b < 64,
{
    ((1u64 << b) - 1) as u64
}

/// `x` fits in a `lb + rb`-bit block.
pub open spec fn in_block(x: u64, lb: u64, rb: u64) -> bool {
    (x >> rb) >> lb == 0
}

/// The bit split is one the network is a bijection for: the left half no
/// wider than the right half, and the block at most 64 bits wide.
pub open spec fn valid_split(lb: u64, rb: u64) -> bool {
    lb <= rb && rb < 64 && lb + rb <= 64
}

/// One Feistel round, with the round function's value `h` passed in.
pub open spec fn round_with(x: u64, h: u64, lb: u64, rb: u64) -> u64 {
    let l = (x >> rb) & mask_of(lb);
    let r = x & mask_of(rb);
    let t = (l ^ h) & mask_of(lb);
    ((r << lb) | (t & mask_of(rb)))
}

/// One Feistel round under round key `key`.
pub open spec fn round_spec(x: u64, lb: u64, rb: u64, key: u64) -> u64 {
    round_with(x, hash_of((x & mask_of(rb)) ^ key), lb, rb)
}

/// The inverse of one Feistel round, with the round function's value `h`
/// passed in.
pub open spec fn inv_round_with(y: u64, h: u64, lb: u64, rb: u64) -> u64 {
    let t = y & mask_of(lb);
    let r = (y >> lb) & mask_of(rb);
    let l = (t ^ h) & mask_of(lb);
    ((l << rb) | r)
}

/// The inverse of one Feistel round under round key `key`.
pub open spec fn inv_round_spec(y: u64, lb: u64, rb: u64, key: u64) -> u64 {
    inv_round_with(y, hash_of((((y >> lb) & mask_of(rb))) ^ key), lb, rb)
}

/// The four-round Feistel network.
pub open spec fn feistel_spec(x: u64, lb: u64, rb: u64, key: u64) -> u64 {
    round_spec(round_spec(round_spec(round_spec(x, lb, rb, key), lb, rb, key), lb, rb, key), lb, rb, key)
}

/// The four-round Feistel network run backwards.
pub open spec fn feistel_inv_spec(y: u64, lb: u64, rb: u64, key: u64) -> u64 {
    inv_round_spec(inv_round_spec(inv_round_spec(inv_round_spec(y, lb, rb, key), lb, rb, key), lb, rb, key), lb, rb, key)
}

/// Fitting in the block is the same as being below `2^(lb + rb)`.
pub proof fn lemma_in_block_iff(x: u64, lb: u64, rb: u64)
    requires
        lb < 64,
        rb < 64,
        lb + rb <= 64,
    ensures
        in_block(x, lb, rb) <==> (x as nat) < pow2((lb + rb) as nat),
{
    lemma_u64_shr_is_div(x, rb);
    let x1 = x >> rb;
    lemma_u64_shr_is_div(x1, lb);
    lemma_pow2_pos(rb as nat);
    lemma_pow2_pos(lb as nat);
    lemma_pow2_adds(rb as nat, lb as nat);
    lemma_div_denominator(x as int, pow2(rb as nat) as int, pow2(lb as nat) as int);
    assert((x1 >> lb) as int == x as int / pow2((lb + rb) as nat) as int);
    lemma_pow2_pos((lb + rb) as nat);
    if (x as nat) < pow2((lb + rb) as nat) {
        lemma_basic_div(x as int, pow2((lb + rb) as nat) as int);
    } else {
        lemma_div_non_zero(x as int, pow2((lb + rb) as nat) as int);
    }
}

proof fn lemma_round_with_in_block(x: u64, h: u64, lb: u64, rb: u64)
    by (bit_vector)
    requires
        lb < 64,
        rb < 64,
        lb + rb <= 64,
    ensures
        in_block(round_with(x, h, lb, rb), lb, rb),
{
}

proof fn lemma_round_with_inverts(x: u64, h: u64, lb: u64, rb: u64)
    by (bit_vector)
    requires
        lb <= rb,
        rb < 64,
        lb + rb <= 64,
        in_block(x, lb, rb),
    ensures
        (round_with(x, h, lb, rb) >> lb) & mask_of(rb) == x & mask_of(rb),
        inv_round_with(round_with(x, h, lb, rb), h, lb, rb) == x,
{
}

proof fn lemma_inv_round_with_in_block(y: u64, h: u64, lb: u64, rb: u64)
    by (bit_vector)
    requires
        lb < 64,
        rb < 64,
        lb + rb <= 64,
    ensures
        in_block(inv_round_with(y, h, lb, rb), lb, rb),
{
}

proof fn lemma_inv_round_with_inverts(y: u64, h: u64, lb: u64, rb: u64)
    by (bit_vector)
    requires
        lb <= rb,
        rb < 64,
        lb + rb <= 64,
        in_block(y, lb, rb),
    ensures
        inv_round_with(y, h, lb, rb) & mask_of(rb) == (y >> lb) & mask_of(rb),
        round_with(inv_round_with(y, h, lb, rb), h, lb, rb) == y,
{
}

/// The inverse round undoes the round, on any block value.
proof fn lemma_round_trip_one(x: u64, lb: u64, rb: u64, key: u64)
    requires
        valid_split(lb, rb),
        in_block(x, lb, rb),
    ensures
        in_block(round_spec(x, lb, rb, key), lb, rb),
        inv_round_spec(round_spec(x, lb, rb, key), lb, rb, key) == x,
{
    let h = hash_of((x & mask_of(rb)) ^ key);
    lemma_round_with_in_block(x, h, lb, rb);
    lemma_round_with_inverts(x, h, lb, rb);
}

/// The round undoes the inverse round, on any block value.
proof fn lemma_round_trip_one_rev(y: u64, lb: u64, rb: u64, key: u64)
    requires
        valid_split(lb, rb),
        in_block(y, lb, rb),
    ensures
        in_block(inv_round_spec(y, lb, rb, key), lb, rb),
        round_spec(inv_round_spec(y, lb, rb, key), lb, rb, key) == y,
{
    let h = hash_of((((y >> lb) & mask_of(rb))) ^ key);
    lemma_inv_round_with_in_block(y, h, lb, rb);
    lemma_inv_round_with_inverts(y, h, lb, rb);
}

/// The network's output always lands back in the block.
pub proof fn lemma_feistel_in_block(x: u64, lb: u64, rb: u64, key: u64)
    requires
        lb < 64,
        rb < 64,
        lb + rb <= 64,
    ensures
        in_block(feistel_spec(x, lb, rb, key), lb, rb),
{
    let x3 = round_spec(round_spec(round_spec(x, lb, rb, key), lb, rb, key), lb, rb, key);
    lemma_round_with_in_block(x3, hash_of((x3 & mask_of(rb)) ^ key), lb, rb);
}

/// Running the four rounds backwards recovers the input: the network is
/// injective on the block, independent of the round function.
pub proof fn lemma_feistel_round_trip(x: u64, lb: u64, rb: u64, key: u64)
    requires
        valid_split(lb, rb),
        in_block(x, lb, rb),
    ensures
        feistel_inv_spec(feistel_spec(x, lb, rb, key), lb, rb, key) == x,
{
    let x1 = round_spec(x, lb, rb, key);
    let x2 = round_spec(x1, lb, rb, key);
    let x3 = round_spec(x2, lb, rb, key);
    lemma_round_trip_one(x, lb, rb, key);
    lemma_round_trip_one(x1, lb, rb, key);
    lemma_round_trip_one(x2, lb, rb, key);
    lemma_round_trip_one(x3, lb, rb, key);
}

/// Running the four rounds forwards recovers what the backward run started
/// from: the network is onto the block.
pub proof fn lemma_feistel_round_trip_rev(y: u64, lb: u64, rb: u64, key: u64)
    requires
        valid_split(lb, rb),
        in_block(y, lb, rb),
    ensures
        in_block(feistel_inv_spec(y, lb, rb, key), lb, rb),
        feistel_spec(feistel_inv_spec(y, lb, rb, key), lb, rb, key) == y,
{
    let y1 = inv_round_spec(y, lb, rb, key);
    let y2 = inv_round_spec(y1, lb, rb, key);
    let y3 = inv_round_spec(y2, lb, rb, key);
    lemma_round_trip_one_rev(y, lb, rb, key);
    lemma_round_trip_one_rev(y1, lb, rb, key);
    lemma_round_trip_one_rev(y2, lb, rb, key);
    lemma_round_trip_one_rev(y3, lb, rb, key);
}

/// The network maps distinct block values to distinct block values.
pub proof fn lemma_feistel_injective(x1: u64, x2: u64, lb: u64, rb: u64, key: u64)
    requires
        valid_split(lb, rb),
        in_block(x1, lb, rb),
        in_block(x2, lb, rb),
        feistel_spec(x1, lb, rb, key) == feistel_spec(x2, lb, rb, key),
    ensures
        x1 == x2,
{
    lemma_feistel_round_trip(x1, lb, rb, key);
    lemma_feistel_round_trip(x2, lb, rb, key);
}

/// One Feistel round, forward.
fn round_exec(x: u64, lb: u64, rb: u64, key: u64) -> (r: u64)
    requires
        lb < 64,
        rb < 64,
        lb + rb <= 64,
    ensures
        r == round_spec(x, lb, rb, key),
{
    proof {
        assert(1u64 << lb >= 1 && 1u64 << rb >= 1) by (bit_vector)
            requires
                lb < 64 && rb < 64,
        ;
    }
    let left_mask: u64 = (1u64 << lb) - 1;
    let right_mask: u64 = (1u64 << rb) - 1;
    let l: u64 = (x >> rb) & left_mask;
    let r0: u64 = x & right_mask;
    let t: u64 = (l ^ hash_ahash(r0 ^ key)) & left_mask;
    ((r0 << lb) | (t & right_mask))
}

/// One Feistel round, backward.
fn inv_round_exec(y: u64, lb: u64, rb: u64, key: u64) -> (r: u64)
    requires
        lb < 64,
        rb < 64,
        lb + rb <= 64,
    ensures
        r == inv_round_spec(y, lb, rb, key),
{
    proof {
        assert(1u64 << lb >= 1 && 1u64 << rb >= 1) by (bit_vector)
            requires
                lb < 64 && rb < 64,
        ;
    }
    let left_mask: u64 = (1u64 << lb) - 1;
    let right_mask: u64 = (1u64 << rb) - 1;
    let t: u64 = y & left_mask;
    let r0: u64 = (y >> lb) & right_mask;
    let l: u64 = (t ^ hash_ahash(r0 ^ key)) & left_mask;
    ((l << rb) | r0)
}

/// Four-round Feistel network over a `left_bits + right_bits`-bit block,
/// with the same round key in every round.
pub fn feistel_evaluate(input: u64, left_bits: u32, right_bits: u32, key: u64) -> (r: u64)
    requires
        left_bits < 64,
        right_bits < 64,
        left_bits + right_bits <= 64,
    ensures
        r == feistel_spec(input, left_bits as u64, right_bits as u64, key),
{
    let lb: u64 = left_bits as u64;
    let rb: u64 = right_bits as u64;
    let x1 = round_exec(input, lb, rb, key);
    let x2 = round_exec(x1, lb, rb, key);
    let x3 = round_exec(x2, lb, rb, key);
    round_exec(x3, lb, rb, key)
}

/// The four rounds run backwards: the inverse permutation of
/// [`feistel_evaluate`] on the block, for `left_bits <= right_bits`.
pub fn feistel_inverse(input: u64, left_bits: u32, right_bits: u32, key: u64) -> (r: u64)
    requires
        left_bits < 64,
        right_bits < 64,
        left_bits + right_bits <= 64,
    ensures
        r == feistel_inv_spec(input, left_bits as u64, right_bits as u64, key),
{
    let lb: u64 = left_bits as u64;
    let rb: u64 = right_bits as u64;
    let y1 = inv_round_exec(input, lb, rb, key);
    let y2 = inv_round_exec(y1, lb, rb, key);
    let y3 = inv_round_exec(y2, lb, rb, key);
    inv_round_exec(y3, lb, rb, key)
}

} // verus!
