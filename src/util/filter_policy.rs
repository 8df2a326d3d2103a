use vstd::prelude::*;
use crate::util::hash::{hash, spec_hash};

verus! {

/// The seed of the hash that bloom filters use.
pub const BLOOM_SEED: u32 = 0xbc9f1d34;

/// The most probes a filter may ask for.
pub const MAX_PROBES: usize = 30;

/// The hash of a key for a bloom filter.
pub open spec fn spec_bloom_hash(key: Seq<u8>) -> u32 {
    spec_hash(key, BLOOM_SEED)
}

/// The step between probes: the hash rotated right by 17 bits.
pub open spec fn probe_delta(h: u32) -> u32 {
    ((h >> 17u32) | (h << 15u32)) as u32
}

/// The `j`-th probe of a key whose hash is `h`.
pub open spec fn probe(h: u32, j: nat) -> u32
    decreases j,
{
    if j == 0 {
        h
    } else {
        probe(h, (j - 1) as nat).wrapping_add(probe_delta(h))
    }
}

/// Bit `i` of the bit array `bytes`.
pub open spec fn bit_set(bytes: Seq<u8>, i: int) -> bool {
    (bytes[i / 8] >> (i % 8) as u8) & 1u8 == 1u8
}

/// The number of probes for `bits_per_key` bits per key: about ln 2 per bit,
/// between 1 and 30.
pub open spec fn spec_probes(bits_per_key: nat) -> nat {
    let k = bits_per_key * 69 / 100;
    if k < 1 {
        1
    } else if k > 30 {
        30
    } else {
        k
    }
}

/// Whether the `j`-th probe of hash `h` hits a set bit of the filter's bit array.
pub open spec fn probe_hits(filter: Seq<u8>, h: u32, j: nat) -> bool {
    bit_set(filter, probe(h, j) as int % ((filter.len() - 1) * 8))
}

/// What `key_may_match` answers: false for a filter of fewer than two bytes;
/// true for a probe count it does not know; otherwise whether every probe of
/// the key hits a set bit.
pub open spec fn spec_may_match(key: Seq<u8>, filter: Seq<u8>) -> bool {
    if filter.len() < 2 {
        false
    } else {
        let k = filter[filter.len() - 1];
        if k > 30 {
            true
        } else {
            forall|j: nat| j < k ==> #[trigger] probe_hits(filter, spec_bloom_hash(key), j)
        }
    }
}

/// `f` is a bloom filter for `keys` with `bits_per_key` bits per key and `k`
/// probes: a bit array of at least 64 bits, rounded up to whole bytes, in
/// which every probe of every key is set, followed by the probe count.
pub open spec fn filter_for(f: Seq<u8>, keys: Seq<Seq<u8>>, bits_per_key: nat, k: nat) -> bool {
    let bits0 = keys.len() * bits_per_key;
    let bits1 = if bits0 < 64 { 64 } else { bits0 };
    let bytes = (bits1 + 7) / 8;
    &&& f.len() == bytes + 1
    &&& f[bytes as int] == k
    &&& forall|i: int, j: nat|
        0 <= i < keys.len() && j < k ==> #[trigger] bit_set(
            f,
            probe(spec_bloom_hash(keys[i]), j) as int % (bytes * 8) as int,
        )
}

/// A filter over a set of keys that answers "maybe present" or "surely absent".
pub trait FilterPolicy {
    fn name(&self) -> &'static str;
}

/// A bloom filter with a fixed number of bits per key.
pub struct BloomFilterPolicy {
    bits_per_key: usize,
    k: usize,
}

proof fn lemma_set_bit(b: u8, s: u8, t: u8)
    requires
        s < 8,
        t < 8,
    ensures
        ((b | (1u8 << s)) >> s) & 1u8 == 1u8,
        (b >> t) & 1u8 == 1u8 ==> ((b | (1u8 << s)) >> t) & 1u8 == 1u8,
{
    assert(((b | (1u8 << s)) >> s) & 1u8 == 1u8) by (bit_vector)
        requires s < 8;
    assert((b >> t) & 1u8 == 1u8 ==> ((b | (1u8 << s)) >> t) & 1u8 == 1u8) by (bit_vector)
        requires s < 8, t < 8;
}

impl BloomFilterPolicy {
    pub closed spec fn spec_bits_per_key(&self) -> nat {
        self.bits_per_key as nat
    }

    pub closed spec fn spec_k(&self) -> nat {
        self.k as nat
    }

    pub closed spec fn wf(&self) -> bool {
        1 <= self.k <= MAX_PROBES
    }

    pub fn new(bits_per_key: usize) -> (r: Self)
        ensures
            r.wf(),
            r.spec_bits_per_key() == bits_per_key,
            r.spec_k() == spec_probes(bits_per_key as nat),
    {
        // 69/100 approximates ln 2; beyond 100 bits the count is capped anyway
        let k = if bits_per_key >= 100 {
            30
        } else {
            bits_per_key * 69 / 100
        };
        let k = if k < 1 {
            1
        } else if k > MAX_PROBES {
            MAX_PROBES
        } else {
            k
        };
        BloomFilterPolicy { bits_per_key, k }
    }

    pub fn bloom_hash(key: &[u8]) -> (r: u32)
        ensures
            r == spec_bloom_hash(key@),
    {
        hash(key, BLOOM_SEED)
    }

    pub fn name(&self) -> (r: &'static str) {
        "leveldb.BuiltinBloomFilter2"
    }

    /// Appends to `dst` a filter for `keys`: a bit array of at least 64 bits
    /// (`bits_per_key` per key, rounded up to whole bytes) in which every
    /// probe of every key is set, followed by the probe count.
    pub fn create_filter(&self, keys: &Vec<Vec<u8>>, dst: &mut Vec<u8>)
        requires
            self.wf(),
            keys@.len() * self.spec_bits_per_key() + 64 <= usize::MAX,
        ensures
            final(dst)@.take(old(dst)@.len() as int) == old(dst)@,
            filter_for(
                final(dst)@.skip(old(dst)@.len() as int),
                keys@.map_values(|k: Vec<u8>| k@),
                self.spec_bits_per_key(),
                self.spec_k(),
            ),
    {
        let n = keys.len();
        let bits0 = n * self.bits_per_key;
        let bits1 = if bits0 < 64 {
            64
        } else {
            bits0
        };
        let bytes = (bits1 + 7) / 8;
        let bits = bytes * 8;
        let init_size = dst.len();
        let mut z: usize = 0;
        while z < bytes
            invariant
                z <= bytes,
                dst@.len() == init_size + z,
                dst@.take(init_size as int) == old(dst)@,
                init_size == old(dst)@.len(),
                forall|q: int| init_size <= q < dst@.len() ==> dst@[q] == 0,
            decreases bytes - z,
        {
            dst.push(0u8);
            assert(dst@.take(init_size as int) =~= old(dst)@);
            z = z + 1;
        }
        dst.push(self.k as u8);
        assert(dst@.take(init_size as int) =~= old(dst)@);
        let total = dst.len();
        let mut i: usize = 0;
        while i < n
            invariant
                total == dst@.len(),
                n == keys@.len(),
                bits == bytes * 8,
                bits >= 64,
                init_size == old(dst)@.len(),
                dst@.len() == init_size + bytes + 1,
                dst@.take(init_size as int) == old(dst)@,
                dst@[init_size + bytes] == self.k as u8,
                self.k <= MAX_PROBES,
                i <= n,
                forall|ii: int, j: nat|
                    0 <= ii < i && j < self.k ==> #[trigger] bit_set(
                        dst@.skip(init_size as int),
                        probe(spec_bloom_hash(keys@[ii]@), j) as int % bits as int,
                    ),
            decreases n - i,
        {
            let mut h = BloomFilterPolicy::bloom_hash(keys[i].as_slice());
            let ghost h0 = h;
            let delta = (h >> 17) | (h << 15);
            let mut j: usize = 0;
            while j < self.k
                invariant
                    total == dst@.len(),
                    n == keys@.len(),
                    i < n,
                    h0 == spec_bloom_hash(keys@[i as int]@),
                    delta == probe_delta(h0),
                    h == probe(h0, j as nat),
                    bits == bytes * 8,
                    bits >= 64,
                    init_size == old(dst)@.len(),
                    dst@.len() == init_size + bytes + 1,
                    dst@.take(init_size as int) == old(dst)@,
                    dst@[init_size + bytes] == self.k as u8,
                    self.k <= MAX_PROBES,
                    j <= self.k,
                    forall|ii: int, jj: nat|
                        0 <= ii < i && jj < self.k ==> #[trigger] bit_set(
                            dst@.skip(init_size as int),
                            probe(spec_bloom_hash(keys@[ii]@), jj) as int % bits as int,
                        ),
                    forall|jj: nat|
                        jj < j ==> #[trigger] bit_set(
                            dst@.skip(init_size as int),
                            probe(h0, jj) as int % bits as int,
                        ),
                decreases self.k - j,
            {
                let bitpos = (h as usize) % bits;
                assert(bitpos / 8 < bytes);
                let idx = init_size + bitpos / 8;
                let old_byte = dst[idx];
                let shift = (bitpos % 8) as u8;
                let ghost before = dst@;
                dst.set(idx, old_byte | (1u8 << shift));
                proof {
                    let f0 = before.skip(init_size as int);
                    let f1 = dst@.skip(init_size as int);
                    assert forall|q: int| 0 <= q < (bits as int) implies #[trigger] bit_set(f0, q) ==> bit_set(f1, q) by {
                        lemma_set_bit(old_byte, shift, (q % 8) as u8);
                        if q / 8 != bitpos / 8 {
                            assert(f1[q / 8] == f0[q / 8]);
                        }
                    }
                    lemma_set_bit(old_byte, shift, shift);
                    assert(bit_set(f1, bitpos as int));
                    assert forall|ii: int, jj: nat| 0 <= ii < i && jj < self.k implies #[trigger] bit_set(
                        f1,
                        probe(spec_bloom_hash(keys@[ii]@), jj) as int % bits as int,
                    ) by {
                        let q = probe(spec_bloom_hash(keys@[ii]@), jj) as int % bits as int;
                        assert(bit_set(f0, q));
                    }
                    assert forall|jj: nat| jj < j + 1 implies #[trigger] bit_set(
                        f1,
                        probe(h0, jj) as int % bits as int,
                    ) by {
                        let q = probe(h0, jj) as int % bits as int;
                        if jj < j {
                            assert(bit_set(f0, q));
                        }
                    }
                    assert(dst@.take(init_size as int) =~= old(dst)@);
                    assert(dst@[init_size + bytes] == before[init_size + bytes]);
                }
                h = h.wrapping_add(delta);
                j = j + 1;
            }
            i = i + 1;
        }
        proof {
            let ks = keys@.map_values(|k: Vec<u8>| k@);
            assert forall|ii: int, jj: nat| 0 <= ii < ks.len() && jj < self.spec_k() implies #[trigger] bit_set(
                dst@.skip(init_size as int),
                probe(spec_bloom_hash(ks[ii]), jj) as int % (bytes * 8) as int,
            ) by {
                assert(ks[ii] == keys@[ii]@);
            }
        }
    }

    /// Whether `key` may be among the keys that `filter` was made for.
    pub fn key_may_match(&self, key: &[u8], filter: &[u8]) -> (r: bool)
        requires
            filter@.len() <= usize::MAX / 8,
        ensures
            r == spec_may_match(key@, filter@),
    {
        let len = filter.len();
        if len < 2 {
            return false;
        }
        let bits = (len - 1) * 8;
        let k = filter[len - 1];
        if k > 30 {
            return true;
        }
        let mut h = BloomFilterPolicy::bloom_hash(key);
        let ghost h0 = h;
        let delta = (h >> 17) | (h << 15);
        let mut j: u8 = 0;
        while j < k
            invariant
                len == filter@.len(),
                len >= 2,
                bits == (len - 1) * 8,
                k == filter@[len - 1],
                k <= 30,
                h0 == spec_bloom_hash(key@),
                delta == probe_delta(h0),
                h == probe(h0, j as nat),
                j <= k,
                forall|jj: nat| jj < j ==> #[trigger] probe_hits(filter@, h0, jj),
            decreases k - j,
        {
            let bitpos = (h as usize) % bits;
            let shifted = filter[bitpos / 8] >> ((bitpos % 8) as u8);
            assert((shifted & 1u8) == 0u8 || (shifted & 1u8) == 1u8) by (bit_vector);
            if shifted & 1u8 == 0 {
                assert(!probe_hits(filter@, h0, j as nat));
                return false;
            }
            assert(probe_hits(filter@, h0, j as nat));
            h = h.wrapping_add(delta);
            j = j + 1;
        }
        true
    }
}

impl FilterPolicy for BloomFilterPolicy {
    fn name(&self) -> &'static str {
        BloomFilterPolicy::name(self)
    }
}

} // verus!
