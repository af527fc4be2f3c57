//! Seeded pseudo-random generators.
//!
//! Every stochastic step in the toolkit (data splits, synthetic noise, weight
//! initialisation, training-batch shuffles) is driven by one of these small
//! xorshift-family generators so that every run is reproducible from a seed.

use vstd::prelude::*;

verus! {

/// One step of the 32-bit xorshift generator (shifts 13, 17, 5).
pub open spec fn xorshift32_step(x: u32) -> u32 {
    let a = x ^ (x << 13u32);
    let b = a ^ (a >> 17u32);
    b ^ (b << 5u32)
}

/// The 32-bit xorshift step maps a non-zero state to a non-zero state: each of
/// its three xor-shift stages is invertible, so only zero maps to zero.
pub proof fn lemma_xorshift32_nonzero(x: u32)
    requires
        x != 0,
    ensures
        xorshift32_step(x) != 0,
{
    let a = x ^ (x << 13u32);
    let b = a ^ (a >> 17u32);
    assert(x != 0 ==> x ^ (x << 13u32) != 0) by (bit_vector);
    assert(a != 0 ==> a ^ (a >> 17u32) != 0) by (bit_vector);
    assert(b != 0 ==> b ^ (b << 5u32) != 0) by (bit_vector);
}

/// A 32-bit xorshift generator whose state is never zero.
pub struct Xorshift {
    state: u32,
}

impl View for Xorshift {
    type V = u32;

    closed spec fn view(&self) -> u32 {
        self.state
    }
}

impl Xorshift {
    #[verifier::type_invariant]
    spec fn state_nonzero(&self) -> bool {
        self.state != 0
    }

    /// Seed the generator; a zero seed is replaced by 1 (zero is a fixed point).
    pub fn new(seed: u32) -> (r: Self)
        ensures
            r@ == (if seed == 0 { 1u32 } else { seed }),
            r@ != 0,
    {
        Xorshift { state: if seed == 0 { 1 } else { seed } }
    }

    /// Advance the generator and return the new state.
    pub fn next_u32(&mut self) -> (x: u32)
        ensures
            x == xorshift32_step(old(self)@),
            final(self)@ == x,
            x != 0,
    {
        proof {
            use_type_invariant(&*self);
            lemma_xorshift32_nonzero(self.state);
        }
        let mut x = self.state;
        x ^= x << 13u32;
        x ^= x >> 17u32;
        x ^= x << 5u32;
        self.state = x;
        x
    }
}


/// Seed of the noise stream for microphone `k` of a simulated array: the run
/// seed is spread by a Knuth multiplicative hash and offset by `k + 1`, so each
/// channel gets an independent stream.
pub fn channel_seed(seed: u32, k: u32) -> (r: u32)
    requires
        k < u32::MAX,
    ensures
        r == seed.wrapping_mul(2_654_435_761u32).wrapping_add((k + 1) as u32),
{
    seed.wrapping_mul(2_654_435_761).wrapping_add(k + 1)
}

/// One step of the 64-bit xorshift core used by [`Rng`] (shifts 12, 25, 27).
pub open spec fn xorshift64s_step(x: u64) -> u64 {
    let a = x ^ (x >> 12u64);
    let b = a ^ (a << 25u64);
    b ^ (b >> 27u64)
}

/// The output scrambler of [`Rng`]: the state times a fixed odd constant.
pub open spec fn rng_output(state: u64) -> u64 {
    state.wrapping_mul(0x2545_F491_4F6C_DD1Du64)
}

/// SplitMix64-style avalanche of a seed, forced odd so it is never zero.
pub open spec fn rng_seed_state(seed: u64) -> u64 {
    let z0 = seed.wrapping_add(0x9E37_79B9_7F4A_7C15u64);
    let z1 = (z0 ^ (z0 >> 30u64)).wrapping_mul(0xBF58_476D_1CE4_E5B9u64);
    let z2 = (z1 ^ (z1 >> 27u64)).wrapping_mul(0x94D0_49BB_1331_11EBu64);
    (z2 ^ (z2 >> 31u64)) | 1u64
}

/// The 64-bit xorshift step of [`Rng`] keeps a non-zero state non-zero.
pub proof fn lemma_xorshift64s_nonzero(x: u64)
    requires
        x != 0,
    ensures
        xorshift64s_step(x) != 0,
{
    let a = x ^ (x >> 12u64);
    let b = a ^ (a << 25u64);
    assert(x != 0 ==> x ^ (x >> 12u64) != 0) by (bit_vector);
    assert(a != 0 ==> a ^ (a << 25u64) != 0) by (bit_vector);
    assert(b != 0 ==> b ^ (b >> 27u64) != 0) by (bit_vector);
}

/// Seeded 64-bit generator (xorshift64* with a SplitMix64 seed avalanche), so
/// nearby seeds give well-separated streams. Its state is never zero.
pub struct Rng {
    state: u64,
}

impl View for Rng {
    type V = u64;

    closed spec fn view(&self) -> u64 {
        self.state
    }
}

impl Rng {
    #[verifier::type_invariant]
    spec fn state_nonzero(&self) -> bool {
        self.state != 0
    }

    /// Seed the generator through the SplitMix64 avalanche.
    pub fn new(seed: u64) -> (r: Self)
        ensures
            r@ == rng_seed_state(seed),
            r@ != 0,
    {
        let mut z = seed.wrapping_add(0x9E37_79B9_7F4A_7C15);
        z = (z ^ (z >> 30u64)).wrapping_mul(0xBF58_476D_1CE4_E5B9);
        z = (z ^ (z >> 27u64)).wrapping_mul(0x94D0_49BB_1331_11EB);
        z ^= z >> 31u64;
        let state = z | 1;
        assert(z | 1u64 != 0) by (bit_vector);
        Rng { state }
    }

    /// Advance the state and return the scrambled 64-bit output.
    pub fn next_u64(&mut self) -> (r: u64)
        ensures
            final(self)@ == xorshift64s_step(old(self)@),
            final(self)@ != 0,
            r == rng_output(final(self)@),
    {
        proof {
            use_type_invariant(&*self);
            lemma_xorshift64s_nonzero(self.state);
        }
        let mut x = self.state;
        x ^= x >> 12u64;
        x ^= x << 25u64;
        x ^= x >> 27u64;
        self.state = x;
        x.wrapping_mul(0x2545_F491_4F6C_DD1D)
    }
}

/// Seed of the generator that draws the extra (non-drone) sources of a scene.
pub fn scene_seed(seed: u64) -> (r: u64)
    ensures
        r == seed ^ 0xA5A5_A5A5u64,
{
    seed ^ 0xA5A5_A5A5
}

/// Seed of the noise floor of the `k`-th drone of a scene, so every drone
/// source is independent of the others.
pub fn drone_source_seed(seed: u64, k: u64) -> (r: u64)
    requires
        k < u64::MAX,
    ensures
        r == seed ^ 0x0000_D00Eu64.wrapping_mul((k + 1) as u64),
{
    seed ^ 0x0000_D00Eu64.wrapping_mul(k + 1)
}

/// One step of the 64-bit xorshift generator (shifts 13, 7, 17).
pub open spec fn xorshift64_step(x: u64) -> u64 {
    let a = x ^ (x << 13u64);
    let b = a ^ (a >> 7u64);
    b ^ (b << 17u64)
}

/// The (13, 7, 17) xorshift step keeps a non-zero state non-zero.
pub proof fn lemma_xorshift64_nonzero(x: u64)
    requires
        x != 0,
    ensures
        xorshift64_step(x) != 0,
{
    let a = x ^ (x << 13u64);
    let b = a ^ (a >> 7u64);
    assert(x != 0 ==> x ^ (x << 13u64) != 0) by (bit_vector);
    assert(a != 0 ==> a ^ (a >> 7u64) != 0) by (bit_vector);
    assert(b != 0 ==> b ^ (b << 17u64) != 0) by (bit_vector);
}

/// Multiplier that spreads the seed of the network weight initialiser.
pub const WEIGHT_INIT_MULTIPLIER: u64 = 0x9E37_79B9_7F4A_7C15;

/// Multiplier that spreads the seed of the training-batch shuffler.
pub const BATCH_SHUFFLE_MULTIPLIER: u64 = 0xD1B5_4A32_D192_ED03;

/// Starting state of a [`Xorshift64`]: the seed times a spreading multiplier,
/// with zero replaced by 1.
pub open spec fn xorshift64_seed_state(seed: u64, multiplier: u64) -> u64 {
    let m = seed.wrapping_mul(multiplier);
    if m == 0 { 1u64 } else { m }
}

/// A plain 64-bit xorshift generator whose state is never zero.
pub struct Xorshift64 {
    state: u64,
}

impl View for Xorshift64 {
    type V = u64;

    closed spec fn view(&self) -> u64 {
        self.state
    }
}

impl Xorshift64 {
    #[verifier::type_invariant]
    spec fn state_nonzero(&self) -> bool {
        self.state != 0
    }

    /// Seed the generator with `seed * multiplier` (zero replaced by 1).
    pub fn new(seed: u64, multiplier: u64) -> (r: Self)
        ensures
            r@ == xorshift64_seed_state(seed, multiplier),
            r@ != 0,
    {
        let m = seed.wrapping_mul(multiplier);
        Xorshift64 { state: if m == 0 { 1 } else { m } }
    }

    /// Advance the generator and return the new state.
    pub fn next_u64(&mut self) -> (x: u64)
        ensures
            x == xorshift64_step(old(self)@),
            final(self)@ == x,
            x != 0,
    {
        proof {
            use_type_invariant(&*self);
            lemma_xorshift64_nonzero(self.state);
        }
        let mut x = self.state;
        x ^= x << 13u64;
        x ^= x >> 7u64;
        x ^= x << 17u64;
        self.state = x;
        x
    }
}

} // verus!
