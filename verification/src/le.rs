//! Little-endian byte strings of fixed width.

use vstd::prelude::*;
use vstd::arithmetic::power::*;

verus! {

/// The `n` low bytes of `x`, least significant first.
pub open spec fn le(x: nat, n: nat) -> Seq<u8>
    decreases n,
{
    if n == 0 {
        Seq::empty()
    } else {
        seq![(x % 256) as u8] + le(x / 256, (n - 1) as nat)
    }
}

/// The number that a byte string stands for, least significant byte first.
pub open spec fn le_value(s: Seq<u8>) -> nat
    decreases s.len(),
{
    if s.len() == 0 {
        0
    } else {
        s[0] as nat + 256 * le_value(s.drop_first())
    }
}

/// The number of values that `n` bytes can hold.
pub open spec fn le_range(n: nat) -> nat
    decreases n,
{
    if n == 0 {
        1
    } else {
        256 * le_range((n - 1) as nat)
    }
}

/// `n` bytes are `n` long, and hold what was put in, up to the width.
pub proof fn le_round_trip(x: nat, n: nat)
    ensures
        le(x, n).len() == n,
        x < le_range(n) ==> le_value(le(x, n)) == x,
    decreases n,
{
    if n > 0 {
        le_round_trip(x / 256, (n - 1) as nat);
        assert(le(x, n).drop_first() =~= le(x / 256, (n - 1) as nat));
    }
}

/// Every byte string is the encoding of the number that it stands for.
pub proof fn le_covers(s: Seq<u8>)
    ensures
        le_value(s) < le_range(s.len()),
        le(le_value(s), s.len()) == s,
    decreases s.len(),
{
    if s.len() > 0 {
        let rest = s.drop_first();
        le_covers(rest);
        let v = le_value(rest);
        assert((s[0] as nat + 256 * v) % 256 == s[0]);
        assert((s[0] as nat + 256 * v) / 256 == v);
        assert(s =~= seq![s[0]] + rest);
    } else {
        assert(le(le_value(s), 0) =~= s);
    }
}

/// Byte `i` of a number is its digit with the place value 256 to the power of `i`.
pub proof fn digits_are_by_place(x: nat, n: nat, i: int)
    requires
        0 <= i < n,
    ensures
        le(x, n).len() == n,
        le(x, n)[i] == (x as int / pow(256, i as nat)) % 256,
    decreases n,
{
    le_round_trip(x, n);
    lemma_pow0(256);
    lemma_pow_positive(256, i as nat);
    if i > 0 {
        digits_are_by_place(x / 256, (n - 1) as nat, i - 1);
        lemma_pow_positive(256, (i - 1) as nat);
        assert(pow(256, i as nat) == 256 * pow(256, (i - 1) as nat)) by {
            reveal(pow);
        }
        vstd::arithmetic::div_mod::lemma_div_denominator(x as int, 256, pow(256, (i - 1) as nat));
    }
}

/// `n` bytes hold 256 to the power of `n` values.
pub proof fn ranges_are_powers(n: nat)
    ensures
        le_range(n) == pow(256, n),
    decreases n,
{
    lemma_pow0(256);
    if n > 0 {
        ranges_are_powers((n - 1) as nat);
        assert(pow(256, n) == 256 * pow(256, (n - 1) as nat)) by {
            reveal(pow);
        }
    }
}

/// The value of a byte string is the sum of its bytes by place: a byte that is put behind counts
/// 256 to the power of the length so far.
pub proof fn values_are_by_place(s: Seq<u8>, b: u8)
    ensures
        le_value(s.push(b)) == le_value(s) + b * pow(256, s.len()),
        le_value(Seq::<u8>::empty()) == 0,
    decreases s.len(),
{
    lemma_pow0(256);
    if s.len() > 0 {
        values_are_by_place(s.drop_first(), b);
        assert(s.push(b).drop_first() =~= s.drop_first().push(b));
        let p = pow(256, (s.len() - 1) as nat);
        assert(pow(256, s.len()) == 256 * p) by {
            reveal(pow);
        }
        assert(256 * (b * p) == b * (256 * p)) by (nonlinear_arith);
    } else {
        assert(s.push(b).drop_first() =~= Seq::<u8>::empty());
        assert(le_value(s.push(b).drop_first()) == 0);
    }
}

/// The ranges of the widths in use.
pub proof fn le_ranges()
    ensures
        le_range(1) == 0x100,
        le_range(2) == 0x1_0000,
        le_range(4) == 0x1_0000_0000,
        le_range(8) == 0x1_0000_0000_0000_0000,
        le_range(16) == 0x1_0000_0000_0000_0000_0000_0000_0000_0000,
{
    reveal_with_fuel(le_range, 18);
}

/// The `n` low bytes of `x`, least significant first.
pub fn to_le(x: u128, n: usize) -> (r: Vec<u8>)
    ensures
        r@ == le(x as nat, n as nat),
{
    let mut r: Vec<u8> = Vec::new();
    let mut rest: u128 = x;
    let mut i: usize = 0;
    proof {
        assert(le(x as nat, n as nat) =~= r@ + le(rest as nat, n as nat));
    }
    while i < n
        invariant
            i <= n,
            le(x as nat, n as nat) == r@ + le(rest as nat, (n - i) as nat),
        decreases n - i,
    {
        let ghost before = r@;
        let b: u8 = (rest % 256) as u8;
        r.push(b);
        proof {
            let tail = le((rest / 256) as nat, (n - i - 1) as nat);
            assert(le(rest as nat, (n - i) as nat) == seq![b] + tail);
            assert(before + (seq![b] + tail) =~= r@ + tail);
        }
        rest = rest / 256;
        i += 1;
    }
    assert(r@ + le(rest as nat, 0) =~= r@);
    r
}

/// The number that up to sixteen bytes stand for, least significant first.
pub fn from_le(s: &[u8]) -> (x: u128)
    requires
        s@.len() <= 16,
    ensures
        x == le_value(s@),
{
    let mut x: u128 = 0;
    let mut i: usize = s.len();
    proof {
        le_ranges();
    }
    while i > 0
        invariant
            i <= s@.len() <= 16,
            x == le_value(s@.skip(i as int)),
        decreases i,
    {
        proof {
            let tail = s@.skip(i as int);
            let here = s@.skip(i - 1);
            assert(here.drop_first() =~= tail);
            le_covers(here);
            lemma_range_monotonic(here.len(), 16);
            le_ranges();
        }
        x = x * 256 + s[i - 1] as u128;
        i = i - 1;
    }
    assert(s@.skip(0) =~= s@);
    x
}

proof fn lemma_range_monotonic(a: nat, b: nat)
    requires
        a <= b,
    ensures
        1 <= le_range(a) <= le_range(b),
    decreases b,
{
    if a < b {
        lemma_range_monotonic(a, (b - 1) as nat);
    } else if a > 0 {
        lemma_range_monotonic((a - 1) as nat, (a - 1) as nat);
    }
}

} // verus!
