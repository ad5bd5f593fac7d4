//! Deterministic noise for procedural sound effects: xorshift* over a
//! fixed seed, so every run (native or web) synthesizes identical samples.

use vstd::prelude::*;

verus! {

/// The fixed seed every noise source starts from.
pub open spec fn noise_seed() -> u64 {
    0x1234_5678_9ABC_DEF1
}

/// One xorshift step (shifts 12, 25, 27).
pub open spec fn xorshift(x: u64) -> u64 {
    let a = x ^ (x >> 12u64);
    let b = a ^ (a << 25u64);
    b ^ (b >> 27u64)
}

/// The 24 output bits of xorshift*: the top bits of the state times the
/// multiplier.
pub open spec fn output_bits(x: u64) -> u32 {
    (x.wrapping_mul(0x2545_F491_4F6C_DD1Du64) >> 40u64) as u32
}

/// State after `n` steps from the seed.
pub open spec fn state_after(n: nat) -> u64
    decreases n,
{
    if n == 0 { noise_seed() } else { xorshift(state_after((n - 1) as nat)) }
}

/// Deterministic noise source (xorshift*), so sounds are identical every run.
pub struct Noise {
    state: u64,
}

impl Noise {
    pub closed spec fn state(&self) -> u64 {
        self.state
    }

    pub fn new() -> (n: Self)
        ensures
            n.state() == noise_seed(),
    {
        Noise { state: 0x1234_5678_9ABC_DEF1 }
    }

    /// Advance one step and return the 24 random bits of the new state
    /// (`value / 2^23 - 1` is a sample in [-1, 1)).
    pub fn next_bits(&mut self) -> (bits: u32)
        ensures
            final(self).state() == xorshift(old(self).state()),
            bits == output_bits(final(self).state()),
            bits < 0x100_0000,
    {
        let mut x = self.state;
        x ^= x >> 12u64;
        x ^= x << 25u64;
        x ^= x >> 27u64;
        self.state = x;
        let bits = (x.wrapping_mul(0x2545_F491_4F6C_DD1Du64) >> 40u64) as u32;
        proof {
            let m = x.wrapping_mul(0x2545_F491_4F6C_DD1Du64);
            assert((m >> 40u64) < 0x100_0000u64) by (bit_vector);
        }
        bits
    }
}

/// The xorshift step is a bijection that fixes only zero, so a nonzero seed
/// never decays into the all-zero state (which would go silent forever).
pub proof fn lemma_xorshift_keeps_nonzero(x: u64)
    requires
        x != 0,
    ensures
        xorshift(x) != 0,
{
    let a = x ^ (x >> 12u64);
    let b = a ^ (a << 25u64);
    let c = b ^ (b >> 27u64);
    assert(x != 0 ==> (x ^ (x >> 12u64)) != 0) by (bit_vector);
    assert(a != 0 ==> (a ^ (a << 25u64)) != 0) by (bit_vector);
    assert(b != 0 ==> (b ^ (b >> 27u64)) != 0) by (bit_vector);
}

/// Every state reached from the seed is nonzero.
pub proof fn lemma_noise_never_zero(n: nat)
    ensures
        state_after(n) != 0,
    decreases n,
{
    if n > 0 {
        lemma_noise_never_zero((n - 1) as nat);
        lemma_xorshift_keeps_nonzero(state_after((n - 1) as nat));
    }
}

} // verus!
