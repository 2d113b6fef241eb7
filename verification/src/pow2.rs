//! Powers of two, and rounding up to them.

use vstd::prelude::*;
use vstd::arithmetic::power2;

verus! {

/// `n` is a power of two.
pub open spec fn is_pow2(n: int) -> bool {
    exists|e: nat| #[trigger] power2::pow2(e) == n
}

/// The largest power of two that a `usize` holds.
pub open spec fn max_pow2() -> int {
    usize::MAX / 2 + 1
}

/// `r` is the smallest power of two that is at least `n`.
pub open spec fn is_next_pow2(r: int, n: int) -> bool {
    &&& is_pow2(r)
    &&& n <= r
    &&& forall|e: nat| n <= #[trigger] power2::pow2(e) ==> r <= power2::pow2(e)
}

/// A number has only one next power of two.
pub proof fn next_pow2_is_unique(a: int, b: int, n: int)
    requires
        is_next_pow2(a, n),
        is_next_pow2(b, n),
    ensures
        a == b,
{
    let e = choose|e: nat| #[trigger] power2::pow2(e) == a;
    let f = choose|f: nat| #[trigger] power2::pow2(f) == b;
}

proof fn lemma_max_pow2()
    ensures
        is_pow2(max_pow2()),
{
    power2::lemma2_to64();
    power2::lemma2_to64_rest();
    if usize::BITS == 32 {
        assert(max_pow2() == power2::pow2(31));
    } else {
        assert(max_pow2() == power2::pow2(63));
    }
}

/// The smallest power of two that is at least `n`.
pub fn next_pow2(n: usize) -> (r: usize)
    requires
        n <= max_pow2(),
    ensures
        is_next_pow2(r as int, n as int),
        r >= 1,
        r <= max_pow2(),
{
    let mut p: usize = 1;
    let ghost mut e: nat = 0;
    proof {
        power2::lemma2_to64();
    }
    while p < n
        invariant
            n <= max_pow2(),
            1 <= p <= max_pow2(),
            p == power2::pow2(e),
            e > 0 ==> power2::pow2((e - 1) as nat) < n,
        decreases max_pow2() - p,
    {
        proof {
            power2::lemma_pow2_unfold(e + 1);
            lemma_max_pow2();
            let top = choose|top: nat| #[trigger] power2::pow2(top) == max_pow2();
            if top <= e {
                if top < e {
                    power2::lemma_pow2_strictly_increases(top, e);
                }
            } else if e + 1 < top {
                power2::lemma_pow2_strictly_increases(e + 1, top);
            }
            e = e + 1;
        }
        p = p * 2;
    }
    proof {
        assert forall|f: nat| n <= #[trigger] power2::pow2(f) implies p <= power2::pow2(f) by {
            if f < e {
                if f < e - 1 {
                    power2::lemma_pow2_strictly_increases(f, (e - 1) as nat);
                }
            } else if e < f {
                power2::lemma_pow2_strictly_increases(e, f);
            }
        }
    }
    p
}

/// Masking with one less than a power of two is the remainder by it.
pub proof fn mask_is_remainder(h: u64, n: u64)
    requires
        is_pow2(n as int),
    ensures
        h & ((n - 1) as u64) == h % n,
{
    let e = choose|e: nat| #[trigger] power2::pow2(e) == n;
    if e >= 64 {
        power2::lemma2_to64();
        power2::lemma2_to64_rest();
        if e > 64 {
            power2::lemma_pow2_strictly_increases(64, e);
        }
    }
    power2::lemma_pow2_pos(e);
    vstd::bits::lemma_u64_low_bits_mask_is_mod(h, e);
    assert(vstd::bits::low_bits_mask(e) == n - 1);
}

proof fn lemma_divides_range(n: int)
    requires
        is_pow2(n),
        n <= max_pow2(),
    ensures
        n >= 1,
        (usize::MAX + 1) % n == 0,
{
    let e = choose|e: nat| #[trigger] power2::pow2(e) == n;
    let bits: nat = usize::BITS as nat;
    power2::lemma2_to64();
    power2::lemma2_to64_rest();
    power2::lemma_pow2_pos(e);
    assert(usize::MAX + 1 == power2::pow2(bits));
    if e >= bits {
        if e > bits {
            power2::lemma_pow2_strictly_increases(bits, e);
        }
        assert(false);
    }
    power2::lemma_pow2_adds(e, (bits - e) as nat);
    vstd::arithmetic::div_mod::lemma_mod_multiples_basic(power2::pow2((bits - e) as nat) as int, n);
    assert(power2::pow2((bits - e) as nat) * n == n * power2::pow2((bits - e) as nat)) by (nonlinear_arith);
}

/// A counter that wraps at the end of its range keeps its remainder by a power of two in step:
/// one more on the counter is one more, round the ring, on the remainder.
pub proof fn wrapping_keeps_remainders(c: usize, n: usize)
    requires
        is_pow2(n as int),
        n <= max_pow2(),
    ensures
        n >= 1,
        c.wrapping_add(1) as int % n as int == (if c as int % n as int + 1 < n {
            c as int % n as int + 1
        } else {
            0
        }),
{
    lemma_divides_range(n as int);
    let m = n as int;
    if c < usize::MAX {
        vstd::arithmetic::div_mod::lemma_add_mod_noop(c as int, 1, m);
        if m > 1 {
            vstd::arithmetic::div_mod::lemma_small_mod(1, m as nat);
        }
        if c as int % m + 1 < m {
            vstd::arithmetic::div_mod::lemma_small_mod((c as int % m + 1) as nat, m as nat);
        } else {
            vstd::arithmetic::div_mod::lemma_mod_self_0(m);
        }
    } else {
        vstd::arithmetic::div_mod::lemma_add_mod_noop(c as int, 1, m);
        if m > 1 {
            vstd::arithmetic::div_mod::lemma_small_mod(1, m as nat);
            if c as int % m + 1 < m {
                vstd::arithmetic::div_mod::lemma_small_mod((c as int % m + 1) as nat, m as nat);
            }
        }
        vstd::arithmetic::div_mod::lemma_small_mod(0, m as nat);
    }
}

/// The largest power of two in range is a power of two whose double is out of range.
pub proof fn max_pow2_is_largest()
    ensures
        is_pow2(max_pow2()),
        max_pow2() <= usize::MAX < 2 * max_pow2(),
{
    lemma_max_pow2();
}

/// The next power of two is one, is large enough, and is less than the double of what it has to
/// reach.
pub proof fn next_pow2_is_close(r: int, n: int)
    requires
        is_next_pow2(r, n),
        n >= 1,
    ensures
        n <= r < 2 * n,
        exists|e: nat| #[trigger] power2::pow2(e) == r,
{
    let e = choose|e: nat| #[trigger] power2::pow2(e) == r;
    if e > 0 && r >= 2 * n {
        power2::lemma_pow2_unfold(e);
        assert(power2::pow2((e - 1) as nat) * 2 == r);
        assert(n <= power2::pow2((e - 1) as nat));
    }
    power2::lemma2_to64();
}

} // verus!
