//! Workloads: the keys, the mixes of operations and the records by which the engine is
//! demonstrated and measured.

use vstd::prelude::*;
use crate::le;
use crate::pow2;
use crate::zerocopy::{put_field, take_field, FixedImage, Pod, ZeroCopy};

verus! {

/// A record of a trade: fixed-size fields next to each other without a gap.
#[derive(Clone, Copy, Debug, PartialEq, Eq, Structural)]
pub struct Trade {
    pub id: u64,
    pub price: u64,
    pub qty: u32,
    pub side: u32,
}

impl ZeroCopy for Trade {
    const SERIALIZED_SIZE: usize = 24;

    open spec fn alignment() -> nat {
        8
    }

    open spec fn image(&self) -> Seq<u8> {
        self.id.image() + self.price.image() + self.qty.image() + self.side.image()
    }

    fn align_of() -> (n: usize) {
        8
    }

    fn encode(&self, dst: &mut [u8]) {
        proof {
            self.id.image_len();
            self.price.image_len();
            self.qty.image_len();
            self.side.image_len();
        }
        let at: usize = put_field(&self.id, dst, 0);
        let at: usize = put_field(&self.price, dst, at);
        let at: usize = put_field(&self.qty, dst, at);
        let at: usize = put_field(&self.side, dst, at);
        assert(dst@ =~= self.image() + old(dst)@.skip(24));
    }

    fn decode(src: &[u8]) -> (r: Self) {
        let r = Trade {
            id: take_field(src, 0),
            price: take_field(src, 8),
            qty: take_field(src, 16),
            side: take_field(src, 20),
        };
        proof {
            r.id.image_len();
            r.price.image_len();
            r.qty.image_len();
            r.side.image_len();
            assert(r.image() =~= src@.take(24));
        }
        r
    }
}

impl FixedImage for Trade {
    proof fn image_len(&self) {
        self.id.image_len();
        self.price.image_len();
        self.qty.image_len();
        self.side.image_len();
    }

    proof fn image_determines(&self, other: &Self) {
        self.id.image_len();
        self.price.image_len();
        self.qty.image_len();
        self.side.image_len();
        other.id.image_len();
        other.price.image_len();
        other.qty.image_len();
        other.side.image_len();
        let a = self.image();
        let b = other.image();
        assert(self.id.image() =~= a.subrange(0, 8));
        assert(other.id.image() =~= b.subrange(0, 8));
        assert(self.price.image() =~= a.subrange(8, 16));
        assert(other.price.image() =~= b.subrange(8, 16));
        assert(self.qty.image() =~= a.subrange(16, 20));
        assert(other.qty.image() =~= b.subrange(16, 20));
        assert(self.side.image() =~= a.subrange(20, 24));
        assert(other.side.image() =~= b.subrange(20, 24));
        self.id.image_determines(other.id);
        self.price.image_determines(other.price);
        self.qty.image_determines(other.qty);
        self.side.image_determines(other.side);
    }
}

/// The bytes of a trade are those of its fields, in the order of their declaration.
pub proof fn trades_are_their_fields(t: Trade)
    ensures
        t.image().len() == 24,
        t.image().subrange(0, 8) == t.id.image(),
        t.image().subrange(8, 16) == t.price.image(),
        t.image().subrange(16, 20) == t.qty.image(),
        t.image().subrange(20, 24) == t.side.image(),
        Trade::SERIALIZED_SIZE == 24,
        Trade::alignment() == 8,
{
    t.id.image_len();
    t.price.image_len();
    t.qty.image_len();
    t.side.image_len();
    let m = t.image();
    assert(m.subrange(0, 8) =~= t.id.image());
    assert(m.subrange(8, 16) =~= t.price.image());
    assert(m.subrange(16, 20) =~= t.qty.image());
    assert(m.subrange(20, 24) =~= t.side.image());
}

/// The key of item `i` of thread `t`, where each thread has `per_thread` items: the number of
/// the item in eight bytes, the lowest first.
pub fn key(t: usize, i: usize, per_thread: usize) -> (r: Vec<u8>)
    requires
        t * per_thread + i <= usize::MAX,
    ensures
        r@ == le::le((t * per_thread + i) as nat, 8),
        r@.len() == 8,
{
    proof {
        assert(0 <= t * per_thread) by (nonlinear_arith);
        le::le_ranges();
        le::le_round_trip((t * per_thread + i) as nat, 8);
    }
    let n: usize = t * per_thread + i;
    le::to_le(n as u128, 8)
}

/// Different items have different keys.
pub proof fn keys_are_distinct(t: nat, i: nat, u: nat, j: nat, per_thread: nat)
    requires
        i < per_thread,
        j < per_thread,
        t * per_thread + i <= u64::MAX,
        u * per_thread + j <= u64::MAX,
        le::le(t * per_thread + i, 8) == le::le(u * per_thread + j, 8),
    ensures
        t == u,
        i == j,
{
    le::le_ranges();
    le::le_round_trip(t * per_thread + i, 8);
    le::le_round_trip(u * per_thread + j, 8);
    assert(t == u) by (nonlinear_arith)
        requires
            t * per_thread + i == u * per_thread + j,
            i < per_thread,
            j < per_thread,
    ;
}

/// The number of shards for `threads` writers: eight for each, rounded up to a power of two,
/// and at least 32.
pub fn shards_for(threads: usize) -> (r: usize)
    requires
        threads * 8 <= pow2::max_pow2(),
    ensures
        pow2::is_next_pow2(r as int, if threads * 8 < 32 {
            32
        } else {
            threads * 8
        }),
{
    let n: usize = pow2::next_pow2(threads * 8);
    proof {
        vstd::arithmetic::power2::lemma2_to64();
        assert(vstd::arithmetic::power2::pow2(5) == 32);
    }
    if n < 32 {
        proof {
            assert forall|e: nat| 32 <= #[trigger] vstd::arithmetic::power2::pow2(e) implies 32
                <= vstd::arithmetic::power2::pow2(e) by {}
        }
        return 32;
    }
    proof {
        if threads * 8 < 32 {
            assert(threads * 8 <= vstd::arithmetic::power2::pow2(5));
        }
    }
    n
}

/// One step of the generator of the mixed workload.
pub open spec fn mixed_step(x: u64) -> u64 {
    let a = x ^ (x << 13);
    let b = a ^ (a >> 7);
    b ^ (b << 17)
}

/// The first state of the generator for thread `t`.
pub open spec fn mixed_seed(t: u64) -> u64 {
    0x9E37_79B9_7F4A_7C15u64 ^ ((t + 1) as u64).wrapping_mul(0xD1B5_4A32_D192_ED03)
}

/// An operation of the mixed workload: the item, and whether it is written or read.
pub struct MixedOp {
    pub slot: u64,
    pub write: bool,
}

/// The mixed workload of one thread: nine reads to a write.
pub struct MixedOps {
    rng: u64,
    per_thread: u64,
}

impl MixedOps {
    /// The state of the generator.
    pub closed spec fn state(&self) -> u64 {
        self.rng
    }

    /// The number of items.
    pub closed spec fn items(&self) -> u64 {
        self.per_thread
    }

    /// The workload of thread `t` on `per_thread` items.
    pub fn new(t: u64, per_thread: u64) -> (r: Self)
        requires
            t < u64::MAX,
        ensures
            r.state() == mixed_seed(t),
            r.state() == 0x9E37_79B9_7F4A_7C15u64 ^ ((t + 1) as u64).wrapping_mul(0xD1B5_4A32_D192_ED03),
            r.items() == per_thread,
    {
        let seed: u64 = (t + 1).wrapping_mul(0xD1B5_4A32_D192_ED03);
        MixedOps { rng: 0x9E37_79B9_7F4A_7C15u64 ^ seed, per_thread }
    }

    /// The next operation.
    pub fn next(&mut self) -> (r: MixedOp)
        requires
            old(self).items() > 0,
        ensures
            final(self).items() == old(self).items(),
            final(self).state() == mixed_step(old(self).state()),
            ({
                let a = old(self).state() ^ (old(self).state() << 13);
                let b = a ^ (a >> 7);
                final(self).state() == b ^ (b << 17)
            }),
            r.slot == final(self).state() % old(self).items(),
            r.write == (final(self).state() % 10 == 0),
    {
        let mut x: u64 = self.rng;
        x = x ^ (x << 13);
        x = x ^ (x >> 7);
        x = x ^ (x << 17);
        self.rng = x;
        MixedOp { slot: x % self.per_thread, write: x % 10 == 0 }
    }
}

/// The key that thread `t` reads in round `i` when it strides over all `total` keys.
pub fn shared_stride(t: u64, i: u64, total: u64) -> (r: u64)
    requires
        total > 0,
        t.wrapping_mul(7919) + i.wrapping_mul(104729) <= u64::MAX,
    ensures
        r == (t.wrapping_mul(7919) + i.wrapping_mul(104729)) % total as int,
        r < total,
{
    (t.wrapping_mul(7919) + i.wrapping_mul(104729)) % total
}

/// The key that a thread reads in round `i` when it strides over its own `per_thread` keys.
pub fn local_stride(i: u64, per_thread: u64) -> (r: u64)
    requires
        per_thread > 0,
    ensures
        r == i.wrapping_mul(2_654_435_761) % per_thread,
        r < per_thread,
{
    i.wrapping_mul(2_654_435_761) % per_thread
}

/// The place of a percentile among `len` samples in order, given in thousandths.
pub open spec fn percentile_place(len: int, per_mille: int) -> int {
    let place = len * per_mille / 1000;
    if place < len {
        place
    } else {
        len - 1
    }
}

/// A percentile of samples in order, given in thousandths.
pub fn percentile(samples: &Vec<u64>, per_mille: u32) -> (r: u64)
    requires
        samples@.len() > 0,
    ensures
        r == samples@[percentile_place(samples@.len() as int, per_mille as int)],
        samples@.len() * per_mille / 1000 < samples@.len() ==> r == samples@[samples@.len() * per_mille / 1000],
        samples@.len() * per_mille / 1000 >= samples@.len() ==> r == samples@[samples@.len() - 1],
{
    let len: usize = samples.len();
    proof {
        assert(0 <= len * per_mille <= u64::MAX * u32::MAX) by (nonlinear_arith)
            requires
                0 <= len <= u64::MAX,
                0 <= per_mille <= u32::MAX,
        ;
    }
    let place: u128 = len as u128 * per_mille as u128 / 1000;
    if place < len as u128 {
        samples[place as usize]
    } else {
        samples[len - 1]
    }
}

/// At least so many of the samples as the percentile says are no larger than it, and the rest
/// are no smaller.
pub proof fn percentile_divides(samples: Seq<u64>, per_mille: int)
    requires
        samples.len() > 0,
        0 <= per_mille <= 1000,
        forall|i: int, j: int| 0 <= i <= j < samples.len() ==> samples[i] <= samples[j],
    ensures
        0 <= percentile_place(samples.len() as int, per_mille) < samples.len(),
        forall|i: int|
            0 <= i && i * 1000 < samples.len() * per_mille ==> #[trigger] samples[i] <= samples[percentile_place(
                samples.len() as int,
                per_mille,
            )],
        forall|i: int|
            i < samples.len() && i * 1000 >= samples.len() * per_mille ==> samples[percentile_place(
                samples.len() as int,
                per_mille,
            )] <= #[trigger] samples[i],
{
    let len = samples.len() as int;
    assert(0 <= len * per_mille <= len * 1000) by (nonlinear_arith)
        requires
            len > 0,
            0 <= per_mille <= 1000,
    ;
}

/// A step of the generator of the mixed workload loses nothing, and mixes the word linearly.
pub proof fn mixed_steps_are_injective(x: u64, y: u64)
    ensures
        mixed_step(x) == mixed_step(y) ==> x == y,
        mixed_step(x ^ y) == mixed_step(x) ^ mixed_step(y),
        mixed_step(0) == 0,
{
    let a = x ^ (x << 13);
    let b = y ^ (y << 13);
    let c = a ^ (a >> 7);
    let d = b ^ (b >> 7);
    assert(x ^ (x << 13) == y ^ (y << 13) ==> x == y) by (bit_vector);
    assert(a ^ (a >> 7) == b ^ (b >> 7) ==> a == b) by (bit_vector);
    assert(c ^ (c << 17) == d ^ (d << 17) ==> c == d) by (bit_vector);
    assert((x ^ y) ^ ((x ^ y) << 13) == (x ^ (x << 13)) ^ (y ^ (y << 13))) by (bit_vector);
    assert((a ^ b) ^ ((a ^ b) >> 7) == (a ^ (a >> 7)) ^ (b ^ (b >> 7))) by (bit_vector);
    assert((c ^ d) ^ ((c ^ d) << 17) == (c ^ (c << 17)) ^ (d ^ (d << 17))) by (bit_vector);
    assert(0u64 ^ (0u64 << 13) == 0 && 0u64 ^ (0u64 >> 7) == 0 && 0u64 ^ (0u64 << 17) == 0) by (bit_vector);
}

} // verus!
