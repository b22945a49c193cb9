use std::collections::hash_map::RandomState;
use std::hash::BuildHasher;
use vstd::prelude::*;

verus! {

/// Where the seed of a generator comes from.
#[derive(Clone, Copy, Debug, PartialEq, Eq, Structural)]
pub enum RngMode {
    /// A seed is drawn when the generator is built.
    RandomSeed,
    /// The given seed is used.
    Seeded(u64),
}

/// The state that stands for the seed zero, which the generator cannot start from.
pub const ZERO_SEED_STATE: u64 = 0x9E37_79B9_7F4A_7C15;

const MULTIPLIER: u64 = 0x2545_F491_4F6C_DD1D;

/// The state in which a generator with the seed `seed` starts.
pub open spec fn initial_state(seed: u64) -> u64 {
    if seed == 0 {
        ZERO_SEED_STATE
    } else {
        seed
    }
}

/// The state that follows `state`: three shifts, each mixed into the state.
pub open spec fn next_state(state: u64) -> u64 {
    let a = state ^ (state >> 12);
    let b = a ^ (a << 25);
    b ^ (b >> 27)
}

/// The number drawn in `state`: the state that follows it, times a
/// constant, in sixty-four bits.
pub open spec fn output(state: u64) -> u64 {
    ((next_state(state) as int * 0x2545_F491_4F6C_DD1D) % 0x1_0000_0000_0000_0000) as u64
}

/// The state after `draws` numbers were drawn from `state`.
pub open spec fn state_after(state: u64, draws: nat) -> u64
    decreases draws,
{
    if draws == 0 {
        state
    } else {
        next_state(state_after(state, (draws - 1) as nat))
    }
}

/// A small generator of pseudo-random numbers, of the xorshift family: the
/// same seed gives the same numbers.
#[derive(Clone, Copy, Debug)]
pub struct Rng {
    state: u64,
}

impl Rng {
    /// The generator's state.
    pub closed spec fn state(self) -> u64 {
        self.state
    }

    /// A generator that starts from `seed`.
    pub fn new(seed: u64) -> (rng: Rng)
        ensures
            rng.state() == initial_state(seed),
    {
        if seed == 0 {
            Rng { state: ZERO_SEED_STATE }
        } else {
            Rng { state: seed }
        }
    }

    /// Draws a number.
    pub fn next_u64(&mut self) -> (value: u64)
        ensures
            value == output(old(self).state()),
            final(self).state() == next_state(old(self).state()),
    {
        let a = self.state ^ (self.state >> 12);
        let b = a ^ (a << 25);
        let c = b ^ (b >> 27);
        self.state = c;
        c.wrapping_mul(MULTIPLIER)
    }

    /// Draws a number below `bound`: the remainder of a drawn number.
    pub fn below(&mut self, bound: u64) -> (value: u64)
        requires
            bound > 0,
        ensures
            value == output(old(self).state()) % bound,
            value < bound,
            final(self).state() == next_state(old(self).state()),
    {
        self.next_u64() % bound
    }
}

/// `RandomState::new` of std: a hasher state with keys that the process
/// drew at random. Nothing is claimed of it.
#[verifier::external_body]
fn fresh_random_state() -> RandomState {
    RandomState::new()
}

/// `BuildHasher::hash_one` of std, on a `RandomState`: the hash of `value`
/// under the state's keys. Nothing is claimed of it.
#[verifier::external_body]
fn hash_one_u64(state: &RandomState, value: u64) -> u64 {
    state.hash_one(value)
}

/// A seed for a generator that was given none: a hash under keys that std
/// draws at random. Which number it is depends on chance, so nothing holds
/// of it.
pub fn random_seed() -> u64 {
    let state = fresh_random_state();
    hash_one_u64(&state, 0)
}

} // verus!
