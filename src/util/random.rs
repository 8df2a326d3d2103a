use vstd::prelude::*;

verus! {

/// 2^31 - 1, the modulus of the generator.
pub const M: u32 = 0x7fffffff;

/// The multiplier of the generator.
pub const A: u64 = 16807;

/// The state that follows `seed`: `seed * A mod M`, where a result of 0 is
/// represented by `M` (it cannot arise from a state in `1..M`).
pub open spec fn spec_next_seed(seed: u32) -> u32 {
    let x = (seed as int * A as int) % M as int;
    if x == 0 {
        M
    } else {
        x as u32
    }
}

/// A deterministic Park-Miller generator: `seed' = seed * 16807 mod (2^31 - 1)`.
pub struct Random {
    seed: u32,
}

impl Random {
    /// The current state.
    pub closed spec fn state(&self) -> u32 {
        self.seed
    }

    /// The state always lies in `1..=M`.
    pub open spec fn wf(&self) -> bool {
        1 <= self.state() <= M
    }

    /// Seeds the generator; 0 and `M` (after masking to 31 bits) become 1.
    pub fn new(seed: u32) -> (r: Self)
        ensures
            r.wf(),
            r.state() == (if seed & M == 0 || seed & M == M {
                1
            } else {
                seed & M
            }),
    {
        let mut s = seed & M;
        assert(seed & M <= M) by (bit_vector);
        if s == 0 || s == M {
            s = 1;
        }
        Random { seed: s }
    }

    /// Advances the state and returns it.
    pub fn next(&mut self) -> (r: u32)
        requires
            old(self).wf(),
        ensures
            final(self).wf(),
            r == final(self).state(),
            r == spec_next_seed(old(self).state()),
    {
        let product: u64 = self.seed as u64 * A;
        // product % M, using 2^31 == 1 (mod M)
        let hi: u64 = product / 0x8000_0000;
        let lo: u64 = product % 0x8000_0000;
        let mut s: u64 = hi + lo;
        if s > M as u64 {
            s = s - M as u64;
        }
        proof {
            let p = product as int;
            let m = M as int;
            assert(p == hi as int * 0x8000_0000 + lo as int);
            assert(hi as int * 0x8000_0000 == hi as int * 0x7fff_ffff + hi as int);
            assert(p == hi as int * m + (hi as int + lo as int));
            vstd::arithmetic::div_mod::lemma_mod_multiples_vanish(hi as int, hi as int + lo as int, m);
            assert(hi <= 16807);
            vstd::arithmetic::div_mod::lemma_mod_sub_multiples_vanish(s as int, m);
            assert(s as int % m == p % m) by {
                if hi as int + lo as int > m {
                    vstd::arithmetic::div_mod::lemma_mod_sub_multiples_vanish(hi as int + lo as int, m);
                }
            }
            assert(s >= 1);
            if s == M as u64 {
                vstd::arithmetic::div_mod::lemma_mod_self_0(m);
            } else {
                vstd::arithmetic::div_mod::lemma_small_mod(s as nat, m as nat);
            }
        }
        self.seed = s as u32;
        self.seed
    }

    /// Advances the state; returns it modulo `n`.
    pub fn uniform(&mut self, n: u32) -> (r: u32)
        requires
            old(self).wf(),
            n > 0,
        ensures
            final(self).wf(),
            final(self).state() == spec_next_seed(old(self).state()),
            r == final(self).state() % n,
    {
        self.next() % n
    }

    /// Advances the state; true iff it is a multiple of `n`.
    pub fn one_in(&mut self, n: u32) -> (r: bool)
        requires
            old(self).wf(),
            n > 0,
        ensures
            final(self).wf(),
            final(self).state() == spec_next_seed(old(self).state()),
            r == (final(self).state() % n == 0),
    {
        (self.next() % n) == 0
    }

    /// Draws `k = uniform(max_log + 1)`, then returns `uniform(2^k)`: small
    /// values are exponentially more likely than large ones.
    pub fn skewed(&mut self, max_log: u32) -> (r: u32)
        requires
            old(self).wf(),
            max_log < 32,
        ensures
            final(self).wf(),
            final(self).state() == spec_next_seed(spec_next_seed(old(self).state())),
            ({
                let k = spec_next_seed(old(self).state()) % (max_log + 1) as u32;
                r == final(self).state() % (1u32 << k)
            }),
    {
        let k = self.uniform(max_log + 1);
        assert(k < 32);
        assert(1u32 << k > 0) by (bit_vector)
            requires k < 32;
        let tmp: u32 = 1u32 << k;
        self.uniform(tmp)
    }
}

} // verus!
