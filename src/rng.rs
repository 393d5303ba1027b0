use vstd::prelude::*;

verus! {

/// One step of the 32-bit xorshift mix (shifts 13, 17, 5).
pub open spec fn xorshift(x: u32) -> u32 {
    let a = x ^ (x << 13u32);
    let b = a ^ (a >> 17u32);
    b ^ (b << 5u32)
}

/// The state a generator made from `seed` starts in.
pub open spec fn start_state(seed: u32) -> u32 {
    seed | 1u32
}

/// The state after `k` draws from `state`.
pub open spec fn state_after(state: u32, k: nat) -> u32
    decreases k,
{
    if k == 0 {
        state
    } else {
        xorshift(state_after(state, (k - 1) as nat))
    }
}

/// The `k`-th value (counting from 0) drawn from a generator made from `seed`.
pub open spec fn draw(seed: u32, k: nat) -> u32 {
    state_after(start_state(seed), k + 1)
}

/// Deterministic xorshift generator.
pub struct SimpleRng {
    pub state: u32,
}

impl SimpleRng {
    /// A generator whose state is `seed` with its lowest bit forced to 1.
    pub fn new(seed: u32) -> (r: SimpleRng)
        ensures
            r.state == start_state(seed),
            r.state & 1u32 == 1u32,
    {
        let state: u32 = seed | 1;
        assert(state & 1u32 == 1u32) by (bit_vector)
            requires
                state == seed | 1u32,
        ;
        SimpleRng { state }
    }

    /// Advances the state by one xorshift step and returns the new state.
    pub fn next_u32(&mut self) -> (r: u32)
        ensures
            r == xorshift(old(self).state),
            final(self).state == r,
    {
        let mut x = self.state;
        x = x ^ (x << 13u32);
        x = x ^ (x >> 17u32);
        x = x ^ (x << 5u32);
        self.state = x;
        x
    }
}

/// Two generators made from the same seed yield the same value at every
/// position of their sequences.
pub proof fn lemma_same_seed_same_sequence(s1: u32, s2: u32, k: nat)
    requires
        s1 == s2,
    ensures
        draw(s1, k) == draw(s2, k),
{
}

} // verus!
