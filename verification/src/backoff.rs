//! Exponential backoff with jitter for retry loops, and the random levels of the
//! skiplist, which share one generator.
//!
//! Each failed attempt waits about twice as long as the one before it, up to a cap,
//! plus a random perturbation that keeps threads which began to contend together from
//! retrying together.

use vstd::prelude::*;
use std::collections::hash_map::RandomState;
use std::hash::BuildHasher;

verus! {

/// The exponent at which waiting stops being a pure spin.
pub const SPIN_LIMIT: u32 = 6;

/// The exponent past which the backoff is complete.
pub const YIELD_LIMIT: u32 = 10;

/// The multiplier that scrambles the generator's state into an output.
pub const SCRAMBLE: u64 = 0x2545_F491_4F6C_DD1D;

/// The odd constant by which seeds are spread over the word.
pub const GOLDEN: u64 = 0x9E37_79B9_7F4A_7C15;

/// One step of the xorshift generator on its state.
pub open spec fn xorshift(x: u64) -> u64 {
    let a = x ^ (x >> 12);
    let b = a ^ (a << 25);
    b ^ (b >> 27)
}

/// The output for a state.
pub open spec fn scrambled(x: u64) -> u64 {
    x.wrapping_mul(SCRAMBLE)
}

/// Zero is the generator's only fixed point of no return: a state other than zero never
/// leads to it.
pub proof fn xorshift_stays_nonzero(x: u64)
    requires
        x != 0,
    ensures
        xorshift(x) != 0,
{
    assert(x != 0 ==> x ^ (x >> 12) != 0) by (bit_vector);
    let a = x ^ (x >> 12);
    assert(a != 0 ==> a ^ (a << 25) != 0) by (bit_vector);
    let b = a ^ (a << 25);
    assert(b != 0 ==> b ^ (b >> 27) != 0) by (bit_vector);
}

/// A small generator that spreads out retries. Not for cryptography.
#[derive(Debug)]
pub struct Xorshift64 {
    state: u64,
}

impl Xorshift64 {
    /// The generator's state.
    pub closed spec fn state(&self) -> u64 {
        self.state
    }

    /// A generator whose state is `seed` with the low bit set, so that it is not zero.
    pub fn new(seed: u64) -> (r: Self)
        ensures
            r.state() == seed | 1,
            r.state() != 0,
    {
        assert(seed | 1 != 0) by (bit_vector);
        Xorshift64 { state: seed | 1 }
    }

    /// Steps the state and returns the output for the new one.
    pub fn next(&mut self) -> (r: u64)
        ensures
            final(self).state() == xorshift(old(self).state()),
            r == scrambled(final(self).state()),
            ({
                let a = old(self).state() ^ (old(self).state() >> 12);
                let b = a ^ (a << 25);
                &&& final(self).state() == b ^ (b >> 27)
                &&& r == (b ^ (b >> 27)).wrapping_mul(0x2545_F491_4F6C_DD1D)
            }),
            old(self).state() != 0 ==> final(self).state() != 0,
    {
        let mut x: u64 = self.state;
        x = x ^ (x >> 12);
        x = x ^ (x << 25);
        x = x ^ (x >> 27);
        self.state = x;
        proof {
            if old(self).state() != 0 {
                xorshift_stays_nonzero(old(self).state());
            }
        }
        x.wrapping_mul(SCRAMBLE)
    }
}

/// `core::hint::spin_loop` tells the processor that the caller is busy-waiting. It takes
/// and returns nothing, so nothing is claimed of it.
pub assume_specification[ core::hint::spin_loop ]();

/// `RandomState::new` draws the keys of a hash function. They differ from call to call and from
/// process to process, so nothing is claimed of them.
pub assume_specification[ RandomState::new ]() -> RandomState;

/// `BuildHasher::hash_one` of a [`RandomState`]: the hash of `word` under the keys of `state`.
/// The keys are random, so nothing is claimed of the hash.
#[verifier::external_body]
fn hash_one(state: &RandomState, word: u64) -> u64 {
    state.hash_one(word)
}

/// Two to the power of the exponent `step`, capped at the spin limit.
pub open spec fn spin_base(step: u32) -> u64 {
    if step == 0 {
        1
    } else if step == 1 {
        2
    } else if step == 2 {
        4
    } else if step == 3 {
        8
    } else if step == 4 {
        16
    } else if step == 5 {
        32
    } else {
        64
    }
}

/// How many iterations a spin at `step` takes for the random word `random`: the base plus
/// a jitter below half of it.
pub open spec fn spin_iters(step: u32, random: u64) -> int {
    let half = if spin_base(step) < 2 { 1int } else { spin_base(step) as int / 2 };
    spin_base(step) + random as int % half
}

/// Backoff state for one retry loop.
pub struct Backoff {
    step: u32,
    rng: Xorshift64,
}

impl Backoff {
    /// The exponent reached.
    pub closed spec fn step(&self) -> u32 {
        self.step
    }

    /// The state of the jitter generator.
    pub closed spec fn rng(&self) -> u64 {
        self.rng.state()
    }

    /// The generator has not been stuck at zero, and the exponent is capped.
    pub closed spec fn wf(&self) -> bool {
        self.rng.state() != 0 && self.step <= YIELD_LIMIT + 1
    }

    /// A backoff at its first step. Its seed is random, so threads that begin to contend
    /// together do not wait in step.
    pub fn new() -> (r: Self)
        ensures
            r.wf(),
            r.step() == 0,
    {
        let state = RandomState::new();
        Backoff::with_seed(hash_one(&state, 0))
    }

    /// A backoff at its first step whose jitter starts from `word`.
    pub fn with_seed(word: u64) -> (r: Self)
        ensures
            r.wf(),
            r.step() == 0,
            r.rng() == word.wrapping_mul(GOLDEN) | 1,
            r.rng() == word.wrapping_mul(0x9E37_79B9_7F4A_7C15) | 1,
    {
        let seed: u64 = word.wrapping_mul(GOLDEN);
        Backoff { step: 0, rng: Xorshift64::new(seed) }
    }

    /// The number of iterations the next spin takes. Steps the jitter generator.
    fn iterations(&mut self) -> (iters: u64)
        requires
            old(self).wf(),
        ensures
            final(self).wf(),
            final(self).step() == old(self).step(),
            final(self).rng() == xorshift(old(self).rng()),
            iters == spin_iters(old(self).step(), scrambled(final(self).rng())),
            spin_base(old(self).step()) <= iters < 2 * spin_base(old(self).step()),
            iters <= 95,
    {
        let step: u32 = self.step;
        let shift: u32 = if step < SPIN_LIMIT { step } else { SPIN_LIMIT };
        let base: u64 = 1u64 << shift;
        proof {
            assert(shift <= 6 ==> 1u64 << shift == (if shift == 0 { 1u64 } else if shift == 1 { 2 }
                else if shift == 2 { 4 } else if shift == 3 { 8 } else if shift == 4 { 16 }
                else if shift == 5 { 32 } else { 64 })) by (bit_vector);
        }
        let wide: u64 = if base < 2 { 2 } else { base };
        let mask: u64 = wide / 2 - 1;
        let random: u64 = self.rng.next();
        let jitter: u64 = random & mask;
        proof {
            let half: u64 = (mask + 1) as u64;
            assert(half == 1 || half == 2 || half == 4 || half == 8 || half == 16 || half == 32);
            assert(random & 0 == random % 1 && random & 1 == random % 2 && random & 3 == random % 4
                && random & 7 == random % 8 && random & 15 == random % 16 && random & 31 == random % 32)
                by (bit_vector);
        }
        base + jitter
    }

    /// Spins for the current step and moves to the next. Returns whether the backoff was
    /// still in its cheap, spinning regime.
    pub fn spin(&mut self) -> (cheap: bool)
        requires
            old(self).wf(),
        ensures
            final(self).wf(),
            cheap == (old(self).step() <= SPIN_LIMIT),
            cheap <==> old(self).step() <= 6,
            final(self).step() == (if old(self).step() < 11 { old(self).step() + 1 } else { old(self).step() as int }),
            final(self).step() == (if old(self).step() <= YIELD_LIMIT { old(self).step() + 1 } else {
                old(self).step() as int
            }),
            final(self).rng() == xorshift(old(self).rng()),
    {
        let step: u32 = self.step;
        let iters: u64 = self.iterations();
        let mut i: u64 = 0;
        while i < iters
            invariant
                i <= iters,
            decreases iters - i,
        {
            core::hint::spin_loop();
            i += 1;
        }
        if step <= YIELD_LIMIT {
            self.step = step + 1;
        }
        step <= SPIN_LIMIT
    }

    /// A step of a longer wait. Spins while that is cheap; past that the caller has to give
    /// its thread up to the scheduler, which `true` asks for.
    pub fn snooze(&mut self) -> (yield_thread: bool)
        requires
            old(self).wf(),
        ensures
            final(self).wf(),
            yield_thread == (old(self).step() > SPIN_LIMIT),
            yield_thread <==> old(self).step() > 6,
            final(self).step() == (if old(self).step() < 11 { old(self).step() + 1 } else { old(self).step() as int }),
            final(self).step() == (if old(self).step() <= YIELD_LIMIT { old(self).step() + 1 } else {
                old(self).step() as int
            }),
            final(self).rng() == (if yield_thread { old(self).rng() } else { xorshift(old(self).rng()) }),
    {
        if self.step <= SPIN_LIMIT {
            self.spin();
            false
        } else {
            if self.step <= YIELD_LIMIT {
                self.step = self.step + 1;
            }
            true
        }
    }

    /// Whether parking the thread would by now be cheaper than to go on spinning.
    pub fn is_completed(&self) -> (r: bool)
        ensures
            r == (self.step() > YIELD_LIMIT),
            r <==> self.step() > 10,
    {
        self.step > YIELD_LIMIT
    }
}

impl Default for Backoff {
    /// A backoff at its first step, seeded as by [`Backoff::new`].
    fn default() -> (r: Self)
        ensures
            r.wf(),
            r.step() == 0,
    {
        Backoff::new()
    }
}

/// The level that the random word `bits` gives under the cap `max`: one, plus one for each
/// low pair of bits that is all ones, up to the first that is not.
pub open spec fn geometric_level(bits: u64, max: nat) -> nat
    decreases max,
{
    if max <= 1 || bits & 3 != 3 {
        1
    } else {
        1 + geometric_level(bits >> 2, (max - 1) as nat)
    }
}

/// A level is at least one, and at most the cap where the cap is at least one.
pub proof fn geometric_level_in_range(bits: u64, max: nat)
    ensures
        1 <= geometric_level(bits, max),
        max >= 1 ==> geometric_level(bits, max) <= max,
    decreases max,
{
    if !(max <= 1 || bits & 3 != 3) {
        geometric_level_in_range(bits >> 2, (max - 1) as nat);
    }
}

/// A random level for a skiplist node: level `k + 1` is reached from level `k` with
/// probability one in four. Steps the generator state.
pub fn random_geometric_level(rng_state: &mut u64, max_level: usize) -> (level: usize)
    ensures
        *final(rng_state) == xorshift(*old(rng_state)),
        level == geometric_level(scrambled(*final(rng_state)), max_level as nat),
        1 <= level,
        max_level >= 1 ==> level <= max_level,
{
    let mut x: u64 = *rng_state;
    x = x ^ (x >> 12);
    x = x ^ (x << 25);
    x = x ^ (x >> 27);
    *rng_state = x;
    let r: u64 = x.wrapping_mul(SCRAMBLE);
    let mut level: usize = 1;
    let mut bits: u64 = r;
    while level < max_level && (bits & 3) == 3
        invariant
            1 <= level,
            level <= max_level || level == 1,
            geometric_level(r, max_level as nat) == level - 1 + geometric_level(
                bits,
                (if max_level >= level { max_level - level + 1 } else { 0 }) as nat,
            ),
        decreases max_level - level,
    {
        level += 1;
        bits = bits >> 2;
    }
    proof {
        geometric_level_in_range(r, max_level as nat);
    }
    level
}

/// The base of a spin doubles with each step, from one up to sixty-four, and stays there.
pub proof fn spins_double(step: u32)
    ensures
        spin_base(0) == 1,
        step < 6 ==> spin_base((step + 1) as u32) == 2 * spin_base(step),
        step >= 6 ==> spin_base(step) == 64,
{
}

/// A spin takes its base and a jitter below half of it, which the random word decides.
pub proof fn jitter_is_below_half(step: u32, random: u64)
    ensures
        spin_base(step) <= spin_iters(step, random),
        2 * (spin_iters(step, random) - spin_base(step)) < (if spin_base(step) < 2 { 2 } else { spin_base(step) as int }),
        spin_base(step) >= 2 ==> (spin_iters(step, random) - spin_base(step) - random) % (spin_base(step) as int / 2) == 0,
{
    let r = random as int;
    assert((r % 1 - r) % 1 == 0 && (r % 2 - r) % 2 == 0 && (r % 4 - r) % 4 == 0);
    assert((r % 8 - r) % 8 == 0 && (r % 16 - r) % 16 == 0 && (r % 32 - r) % 32 == 0);
}

/// A step of the generator loses nothing: different states lead to different states.
pub proof fn xorshift_is_injective(x: u64, y: u64)
    requires
        xorshift(x) == xorshift(y),
    ensures
        x == y,
{
    let a = x ^ (x >> 12);
    let b = y ^ (y >> 12);
    let c = a ^ (a << 25);
    let d = b ^ (b << 25);
    assert(c ^ (c >> 27) == d ^ (d >> 27) ==> c == d) by (bit_vector);
    assert(a ^ (a << 25) == b ^ (b << 25) ==> a == b) by (bit_vector);
    assert(x ^ (x >> 12) == y ^ (y >> 12) ==> x == y) by (bit_vector);
}

/// Each step is the same linear mix of the word: the step of an exclusive or is the exclusive or
/// of the steps, and the step of the lowest bit is fixed.
pub proof fn xorshift_is_linear(x: u64, y: u64)
    ensures
        xorshift(x ^ y) == xorshift(x) ^ xorshift(y),
        xorshift(1) == 0x200_0001,
        scrambled(x) == x.wrapping_mul(0x2545_F491_4F6C_DD1D),
{
    assert((x ^ y) ^ ((x ^ y) >> 12) == (x ^ (x >> 12)) ^ (y ^ (y >> 12))) by (bit_vector);
    let a = x ^ (x >> 12);
    let b = y ^ (y >> 12);
    assert((a ^ b) ^ ((a ^ b) << 25) == (a ^ (a << 25)) ^ (b ^ (b << 25))) by (bit_vector);
    let c = a ^ (a << 25);
    let d = b ^ (b << 25);
    assert((c ^ d) ^ ((c ^ d) >> 27) == (c ^ (c >> 27)) ^ (d ^ (d >> 27))) by (bit_vector);
    assert(1u64 ^ (1u64 >> 12) == 1 && 1u64 ^ (1u64 << 25) == 0x200_0001 && 0x200_0001u64 ^ (0x200_0001u64 >> 27) == 0x200_0001)
        by (bit_vector);
}

/// A level is one more than the number of low pairs of bits that are all ones, up to the cap: a
/// pair that is not stops it, and a pair that is goes on with the bits above it.
pub proof fn levels_count_pairs(bits: u64, max: nat)
    ensures
        bits % 4 != 3 ==> geometric_level(bits, max) == 1,
        bits % 4 == 3 && max > 1 ==> geometric_level(bits, max) == 1 + geometric_level(bits / 4, (max - 1) as nat),
        max <= 1 ==> geometric_level(bits, max) == 1,
{
    assert(bits & 3 == bits % 4 && bits >> 2 == bits / 4) by (bit_vector);
}

} // verus!
