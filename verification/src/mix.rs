//! The round mixing function: a keyed 64-bit pseudo-random function with
//! strong avalanche behaviour, provided by the `ahash` crate.
//!
//! The Feistel rounds only need the mixer to be a fixed function of the key
//! words and the input word; its value on given inputs is opaque, so it is
//! modelled by the uninterpreted function [`mix_of`].

use vstd::prelude::*;
use ahash::AHasher;
use std::hash::Hasher;

verus! {

/// The value of the keyed mixer on `(key_lo, key_hi, x)`: whatever 64-bit
/// word the `ahash` digest of `x` under those key words is. It depends on
/// its arguments alone.
pub uninterp spec fn mix_of(key_lo: u64, key_hi: u64, x: u64) -> u64;

/// Relies on `ahash::AHasher::new_with_keys`, `Hasher::write_u64` and
/// `Hasher::finish`: hashing one `u64` under fixed keys is a pure function
/// of the two key words and the input word.
#[verifier::external_body]
fn mix_call(key_lo: u64, key_hi: u64, x: u64) -> (r: u64)
    ensures
        r == mix_of(key_lo, key_hi, x),
{
    let mut hasher = AHasher::new_with_keys(key_lo as u128, key_hi as u128);
    hasher.write_u64(x);
    hasher.finish()
}

/// The mixer under the two fixed key words used throughout this library.
pub open spec fn hash_of(x: u64) -> u64 {
    mix_of(0x5f7788c56cb54593, 0x76fa89eb1eef921d, x)
}

/// AES-round-quality keyed hash of one 64-bit word, under the library's
/// fixed key material.
pub fn hash_ahash(input: u64) -> (r: u64)
    ensures
        r == hash_of(input),
{
    mix_call(0x5f7788c56cb54593, 0x76fa89eb1eef921d, input)
}

} // verus!
