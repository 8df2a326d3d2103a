use vstd::prelude::*;
use crate::util::coding::{decode_fixed32, spec_decode_fixed32};

verus! {

/// Multiplier of the hash.
pub const HASH_M: u32 = 0xc6a4a793;

/// Folds one little-endian word into the running hash.
pub open spec fn hash_mix(h: u32, w: u32) -> u32 {
    let h1 = h.wrapping_add(w).wrapping_mul(HASH_M);
    h1 ^ (h1 >> 16u32)
}

/// The running hash after folding in the first `n` whole words of `data`.
pub open spec fn hash_words(data: Seq<u8>, n: nat, h: u32) -> u32
    decreases n,
{
    if n == 0 {
        h
    } else {
        hash_mix(
            hash_words(data, (n - 1) as nat, h),
            spec_decode_fixed32(data.subrange(4 * (n - 1), 4 * (n - 1) + 4)),
        )
    }
}

/// Folds the last `data.len() - i` (fewer than four) bytes into the hash.
pub open spec fn hash_tail(data: Seq<u8>, i: int, h: u32) -> u32 {
    let diff = data.len() - i;
    let h2 = if diff >= 3 {
        h.wrapping_add(((data[i + 2] as u32) << 16u32) as u32)
    } else {
        h
    };
    let h1 = if diff >= 2 {
        h2.wrapping_add(((data[i + 1] as u32) << 8u32) as u32)
    } else {
        h2
    };
    if diff >= 1 {
        let h0 = h1.wrapping_add(data[i] as u32).wrapping_mul(HASH_M);
        h0 ^ (h0 >> 24u32)
    } else {
        h1
    }
}

/// The hash of `data` with `seed`.
pub open spec fn spec_hash(data: Seq<u8>, seed: u32) -> u32 {
    let n = data.len() / 4;
    hash_tail(data, 4 * n as int, hash_words(data, n, seed ^ HASH_M.wrapping_mul(data.len() as u32)))
}

/// A fast non-cryptographic hash of `data` (similar to murmur hash).
pub fn hash(data: &[u8], seed: u32) -> (r: u32)
    ensures
        r == spec_hash(data@, seed),
{
    let len = data.len();
    let mut h: u32 = seed ^ HASH_M.wrapping_mul(#[verifier::truncate] (len as u32));
    let ghost h0 = h;
    let mut i: usize = 0;
    let ghost mut k: nat = 0;
    while len - i >= 4
        invariant
            len == data@.len(),
            i == 4 * k,
            i <= len,
            h == hash_words(data@, k, h0),
        decreases len - i,
    {
        let w = decode_fixed32(vstd::slice::slice_subrange(data, i, i + 4));
        assert(data@.subrange(i as int, i + 4) == data@.subrange(4 * k as int, 4 * k as int + 4));
        h = h.wrapping_add(w).wrapping_mul(HASH_M);
        h = h ^ (h >> 16);
        i = i + 4;
        proof {
            k = k + 1;
        }
    }
    assert(k == len / 4);
    let diff = len - i;
    if diff >= 3 {
        h = h.wrapping_add((data[i + 2] as u32) << 16);
    }
    if diff >= 2 {
        h = h.wrapping_add((data[i + 1] as u32) << 8);
    }
    if diff >= 1 {
        h = h.wrapping_add(data[i] as u32).wrapping_mul(HASH_M);
        h = h ^ (h >> 24);
    }
    h
}

} // verus!
