//! Deterministic hasher for the unique-distance and unique-lag caches.
//!
//! The state is a single `u64`. Bytes are folded in with the FNV-style
//! multiplier `0x100000001b3`; a `u32` key replaces the state outright, so a
//! cache keyed by `u32` bit patterns hashes each key to itself.
use vstd::prelude::*;

verus! {

/// The multiplier of one folding step.
pub const HASH_PRIME: u64 = 0x100000001b3u64;

/// One folding step, `h * P + b` taken modulo 2^64.
pub open spec fn hash_step(h: u64, b: u64) -> u64 {
    ((h as int * HASH_PRIME as int + b as int) % 0x1_0000_0000_0000_0000int) as u64
}

/// The state after folding `bytes` (first byte first) into `h`.
pub open spec fn hash_fold(h: u64, bytes: Seq<u8>) -> u64
    decreases bytes.len(),
{
    if bytes.len() == 0 {
        h
    } else {
        hash_step(hash_fold(h, bytes.drop_last()), bytes.last() as u64)
    }
}

/// Hasher whose whole state is one `u64`.
pub struct U32Hasher {
    pub state: u64,
}

fn step(h: u64, b: u64) -> (r: u64)
    ensures
        r == hash_step(h, b),
{
    let m = h.wrapping_mul(HASH_PRIME);
    let r = m.wrapping_add(b);
    proof {
        let big: int = 0x1_0000_0000_0000_0000int;
        let p: int = h as int * HASH_PRIME as int;
        assert(m as int == p % big);
        vstd::arithmetic::div_mod::lemma_add_mod_noop(p, b as int, big);
        vstd::arithmetic::div_mod::lemma_small_mod(b as nat, big as nat);
        vstd::arithmetic::div_mod::lemma_mod_bound(p, big);
        if m as int + b as int > u64::MAX as int {
            vstd::arithmetic::div_mod::lemma_mod_sub_multiples_vanish((m as int + b as int), big);
            vstd::arithmetic::div_mod::lemma_small_mod((m as int + b as int - big) as nat, big as nat);
        } else {
            vstd::arithmetic::div_mod::lemma_small_mod((m as int + b as int) as nat, big as nat);
        }
    }
    r
}

impl U32Hasher {
    /// A hasher in its default state (zero).
    pub fn new() -> (h: Self)
        ensures
            h.state == 0,
    {
        U32Hasher { state: 0 }
    }

    /// The current state.
    pub fn finish(&self) -> (r: u64)
        ensures
            r == self.state,
    {
        self.state
    }

    /// Folds every byte of `bytes` into the state, first byte first.
    pub fn write(&mut self, bytes: &[u8])
        ensures
            final(self).state == hash_fold(old(self).state, bytes@),
    {
        let mut h = self.state;
        let mut i: usize = 0;
        while i < bytes.len()
            invariant
                i <= bytes@.len(),
                h == hash_fold(old(self).state, bytes@.take(i as int)),
            decreases bytes@.len() - i,
        {
            assert(bytes@.take(i as int + 1).drop_last() =~= bytes@.take(i as int));
            h = step(h, bytes[i] as u64);
            i = i + 1;
        }
        assert(bytes@.take(bytes@.len() as int) =~= bytes@);
        self.state = h;
    }

    /// A `u32` key replaces the state.
    pub fn write_u32(&mut self, i: u32)
        ensures
            final(self).state == i as u64,
    {
        self.state = i as u64;
    }

    /// Folds a whole `u64` in as one step.
    pub fn write_u64(&mut self, i: u64)
        ensures
            final(self).state == hash_step(old(self).state, i),
    {
        self.state = step(self.state, i);
    }
}

/// Law: writing `a` and then `b` leaves the same state as writing `a + b`
/// in one call, so how a key's bytes are split across calls does not matter.
pub proof fn lemma_write_concat(h: u64, a: Seq<u8>, b: Seq<u8>)
    ensures
        hash_fold(hash_fold(h, a), b) == hash_fold(h, a + b),
    decreases b.len(),
{
    if b.len() == 0 {
        assert(a + b =~= a);
    } else {
        lemma_write_concat(h, a, b.drop_last());
        assert((a + b).drop_last() =~= a + b.drop_last());
        assert((a + b).last() == b.last());
    }
}

} // verus!
