//! The search's explicit random source.
//!
//! Root exploration noise and stochastic rollouts draw from a small seeded
//! xorshift generator that the tree owns, so a search is a pure function of
//! its seed: two searches from the same seed draw the same numbers.

use vstd::prelude::*;

verus! {

/// The state a zero seed falls back to: xorshift must never hold state 0,
/// which it would map to itself.
pub const SEED_FALLBACK: u64 = 0x9E37_79B9_7F4A_7C15;

/// One xorshift step as a mathematical function of the state.
pub open spec fn spec_next(s: u64) -> u64 {
    let a = s ^ (s << 13);
    let b = a ^ (a >> 7);
    b ^ (b << 17)
}

/// The state after `k` xorshift steps.
pub open spec fn spec_iter(s: u64, k: int) -> u64
    decreases k,
{
    if k <= 0 {
        s
    } else {
        spec_next(spec_iter(s, k - 1))
    }
}

/// The state after folding in the seed: never zero.
pub open spec fn spec_seeded(seed: u64) -> u64 {
    if seed == 0 {
        SEED_FALLBACK
    } else {
        seed
    }
}

/// A seeded xorshift generator.
#[derive(Clone, Copy, Debug)]
pub struct SearchRng {
    pub state: u64,
}

/// A state the generator can actually hold: xorshift permutes the non-zero
/// 64-bit words, so a generator seeded through `new` never reaches 0.
pub open spec fn rng_wf(r: SearchRng) -> bool {
    r.state != 0
}

impl SearchRng {
    /// Builds the generator from a caller-chosen seed.
    pub fn new(seed: u64) -> (r: SearchRng)
        ensures
            r.state == spec_seeded(seed),
            rng_wf(r),
    {
        if seed == 0 {
            SearchRng { state: SEED_FALLBACK }
        } else {
            SearchRng { state: seed }
        }
    }

    /// Draws the next word and advances the state.
    pub fn next_word(&mut self) -> (r: u64)
        requires
            rng_wf(*old(self)),
        ensures
            final(self).state == spec_next(old(self).state),
            r == spec_next(old(self).state),
            rng_wf(*final(self)),
    {
        let s: u64 = self.state;
        let a: u64 = s ^ (s << 13);
        let b: u64 = a ^ (a >> 7);
        let c: u64 = b ^ (b << 17);
        proof {
            assert(s != 0 ==> (((s ^ (s << 13)) ^ ((s ^ (s << 13)) >> 7))
                ^ ((((s ^ (s << 13)) ^ ((s ^ (s << 13)) >> 7))) << 17)) != 0) by (bit_vector);
        }
        self.state = c;
        c
    }
}

} // verus!
