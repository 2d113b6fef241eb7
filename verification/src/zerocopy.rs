//! Plain-old-data values as byte strings: encoding, decoding, and reading in place.
//!
//! A [`Pod`] value is its bytes and nothing else: it has no padding, and every byte string of
//! its size is a value. A record type is [`ZeroCopy`] when its fields are all of that kind and
//! lie next to each other without a gap; [`check_record`] decides that from the fields. Bytes
//! are in little-endian order.

use vstd::prelude::*;
use vstd::arithmetic::power::pow;
use crate::arena;
use crate::arena::{Arena, Span};
use crate::derived;
use crate::le;
use crate::order::bytes_eq;

verus! {

/// Plain old data.
pub trait Pod: Copy {
    /// The size in bytes.
    spec fn size() -> nat;

    /// The alignment in bytes.
    spec fn align() -> nat;

    /// The size is one that the machine can address, as it is for every type that exists.
    spec fn fits() -> bool;

    /// The bytes of the value.
    spec fn image(self) -> Seq<u8>;

    /// The bytes are as many as the size says.
    proof fn image_len(self)
        ensures
            self.image().len() == Self::size(),
    ;

    /// Values with the same bytes are the same value.
    proof fn image_determines(self, other: Self)
        requires
            self.image() == other.image(),
        ensures
            self == other,
    ;

    /// The size in bytes.
    fn size_of() -> (n: usize)
        requires
            Self::fits(),
        ensures
            n == Self::size(),
    ;

    /// The alignment in bytes.
    fn align_of() -> (n: usize)
        ensures
            n == Self::align(),
            n >= 1,
    ;

    /// The bytes of the value.
    fn to_bytes(&self) -> (r: Vec<u8>)
        ensures
            r@ == self.image(),
    ;

    /// The value of some bytes. Every byte string of the right size has one.
    fn from_bytes(src: &[u8]) -> (r: Self)
        requires
            src@.len() == Self::size(),
            Self::fits(),
        ensures
            r.image() == src@,
    ;
}

impl Pod for u8 {
    open spec fn size() -> nat {
        1
    }

    open spec fn align() -> nat {
        1
    }

    open spec fn fits() -> bool {
        true
    }

    open spec fn image(self) -> Seq<u8> {
        le::le(self as nat, 1)
    }

    proof fn image_len(self) {
        le::le_round_trip(self as nat, Self::size());
    }

    proof fn image_determines(self, other: Self) {
        le::le_ranges();
        le::le_round_trip(self as nat, Self::size());
        le::le_round_trip(other as nat, Self::size());
    }

    fn size_of() -> (n: usize) {
        1
    }

    fn align_of() -> (n: usize) {
        1
    }

    fn to_bytes(&self) -> (r: Vec<u8>) {
        le::to_le(*self as u128, 1)
    }

    fn from_bytes(src: &[u8]) -> (r: Self) {
        proof {
            le::le_ranges();
            le::le_covers(src@);
        }
        let x: u128 = le::from_le(src);
        x as u8
    }
}

impl Pod for u16 {
    open spec fn size() -> nat {
        2
    }

    open spec fn align() -> nat {
        2
    }

    open spec fn fits() -> bool {
        true
    }

    open spec fn image(self) -> Seq<u8> {
        le::le(self as nat, 2)
    }

    proof fn image_len(self) {
        le::le_round_trip(self as nat, Self::size());
    }

    proof fn image_determines(self, other: Self) {
        le::le_ranges();
        le::le_round_trip(self as nat, Self::size());
        le::le_round_trip(other as nat, Self::size());
    }

    fn size_of() -> (n: usize) {
        2
    }

    fn align_of() -> (n: usize) {
        2
    }

    fn to_bytes(&self) -> (r: Vec<u8>) {
        le::to_le(*self as u128, 2)
    }

    fn from_bytes(src: &[u8]) -> (r: Self) {
        proof {
            le::le_ranges();
            le::le_covers(src@);
        }
        let x: u128 = le::from_le(src);
        x as u16
    }
}

impl Pod for u32 {
    open spec fn size() -> nat {
        4
    }

    open spec fn align() -> nat {
        4
    }

    open spec fn fits() -> bool {
        true
    }

    open spec fn image(self) -> Seq<u8> {
        le::le(self as nat, 4)
    }

    proof fn image_len(self) {
        le::le_round_trip(self as nat, Self::size());
    }

    proof fn image_determines(self, other: Self) {
        le::le_ranges();
        le::le_round_trip(self as nat, Self::size());
        le::le_round_trip(other as nat, Self::size());
    }

    fn size_of() -> (n: usize) {
        4
    }

    fn align_of() -> (n: usize) {
        4
    }

    fn to_bytes(&self) -> (r: Vec<u8>) {
        le::to_le(*self as u128, 4)
    }

    fn from_bytes(src: &[u8]) -> (r: Self) {
        proof {
            le::le_ranges();
            le::le_covers(src@);
        }
        let x: u128 = le::from_le(src);
        x as u32
    }
}

impl Pod for u64 {
    open spec fn size() -> nat {
        8
    }

    open spec fn align() -> nat {
        8
    }

    open spec fn fits() -> bool {
        true
    }

    open spec fn image(self) -> Seq<u8> {
        le::le(self as nat, 8)
    }

    proof fn image_len(self) {
        le::le_round_trip(self as nat, Self::size());
    }

    proof fn image_determines(self, other: Self) {
        le::le_ranges();
        le::le_round_trip(self as nat, Self::size());
        le::le_round_trip(other as nat, Self::size());
    }

    fn size_of() -> (n: usize) {
        8
    }

    fn align_of() -> (n: usize) {
        8
    }

    fn to_bytes(&self) -> (r: Vec<u8>) {
        le::to_le(*self as u128, 8)
    }

    fn from_bytes(src: &[u8]) -> (r: Self) {
        proof {
            le::le_ranges();
            le::le_covers(src@);
        }
        let x: u128 = le::from_le(src);
        x as u64
    }
}

impl Pod for u128 {
    open spec fn size() -> nat {
        16
    }

    open spec fn align() -> nat {
        16
    }

    open spec fn fits() -> bool {
        true
    }

    open spec fn image(self) -> Seq<u8> {
        le::le(self as nat, 16)
    }

    proof fn image_len(self) {
        le::le_round_trip(self as nat, Self::size());
    }

    proof fn image_determines(self, other: Self) {
        le::le_ranges();
        le::le_round_trip(self as nat, Self::size());
        le::le_round_trip(other as nat, Self::size());
    }

    fn size_of() -> (n: usize) {
        16
    }

    fn align_of() -> (n: usize) {
        16
    }

    fn to_bytes(&self) -> (r: Vec<u8>) {
        le::to_le(*self, 16)
    }

    fn from_bytes(src: &[u8]) -> (r: Self) {
        proof {
            le::le_ranges();
            le::le_covers(src@);
        }
        let x: u128 = le::from_le(src);
        x
    }
}

impl Pod for usize {
    open spec fn size() -> nat {
        (usize::BITS / 8) as nat
    }

    open spec fn align() -> nat {
        (usize::BITS / 8) as nat
    }

    open spec fn fits() -> bool {
        true
    }

    open spec fn image(self) -> Seq<u8> {
        le::le(self as nat, (usize::BITS / 8) as nat)
    }

    proof fn image_len(self) {
        le::le_round_trip(self as nat, Self::size());
    }

    proof fn image_determines(self, other: Self) {
        le::le_ranges();
        le::le_round_trip(self as nat, Self::size());
        le::le_round_trip(other as nat, Self::size());
    }

    fn size_of() -> (n: usize) {
        (usize::BITS / 8) as usize
    }

    fn align_of() -> (n: usize) {
        (usize::BITS / 8) as usize
    }

    fn to_bytes(&self) -> (r: Vec<u8>) {
        le::to_le(*self as u128, (usize::BITS / 8) as usize)
    }

    fn from_bytes(src: &[u8]) -> (r: Self) {
        proof {
            le::le_ranges();
            le::le_covers(src@);
        }
        let x: u128 = le::from_le(src);
        x as usize
    }
}

impl Pod for i8 {
    open spec fn size() -> nat {
        1
    }

    open spec fn align() -> nat {
        1
    }

    open spec fn fits() -> bool {
        true
    }

    open spec fn image(self) -> Seq<u8> {
        le::le((self as u8) as nat, 1)
    }

    proof fn image_len(self) {
        le::le_round_trip((self as u8) as nat, Self::size());
    }

    proof fn image_determines(self, other: Self) {
        le::le_ranges();
        le::le_round_trip((self as u8) as nat, Self::size());
        le::le_round_trip((other as u8) as nat, Self::size());
        let (a, b) = (self, other);
        assert(a as u8 == b as u8 ==> a == b) by (bit_vector);
    }

    fn size_of() -> (n: usize) {
        1
    }

    fn align_of() -> (n: usize) {
        1
    }

    fn to_bytes(&self) -> (r: Vec<u8>) {
        le::to_le((*self as u8) as u128, 1)
    }

    fn from_bytes(src: &[u8]) -> (r: Self) {
        proof {
            le::le_ranges();
            le::le_covers(src@);
        }
        let x: u128 = le::from_le(src);
        let u: u8 = x as u8;
        assert((u as i8) as u8 == u) by (bit_vector);
        u as i8
    }
}

impl Pod for i16 {
    open spec fn size() -> nat {
        2
    }

    open spec fn align() -> nat {
        2
    }

    open spec fn fits() -> bool {
        true
    }

    open spec fn image(self) -> Seq<u8> {
        le::le((self as u16) as nat, 2)
    }

    proof fn image_len(self) {
        le::le_round_trip((self as u16) as nat, Self::size());
    }

    proof fn image_determines(self, other: Self) {
        le::le_ranges();
        le::le_round_trip((self as u16) as nat, Self::size());
        le::le_round_trip((other as u16) as nat, Self::size());
        let (a, b) = (self, other);
        assert(a as u16 == b as u16 ==> a == b) by (bit_vector);
    }

    fn size_of() -> (n: usize) {
        2
    }

    fn align_of() -> (n: usize) {
        2
    }

    fn to_bytes(&self) -> (r: Vec<u8>) {
        le::to_le((*self as u16) as u128, 2)
    }

    fn from_bytes(src: &[u8]) -> (r: Self) {
        proof {
            le::le_ranges();
            le::le_covers(src@);
        }
        let x: u128 = le::from_le(src);
        let u: u16 = x as u16;
        assert((u as i16) as u16 == u) by (bit_vector);
        u as i16
    }
}

impl Pod for i32 {
    open spec fn size() -> nat {
        4
    }

    open spec fn align() -> nat {
        4
    }

    open spec fn fits() -> bool {
        true
    }

    open spec fn image(self) -> Seq<u8> {
        le::le((self as u32) as nat, 4)
    }

    proof fn image_len(self) {
        le::le_round_trip((self as u32) as nat, Self::size());
    }

    proof fn image_determines(self, other: Self) {
        le::le_ranges();
        le::le_round_trip((self as u32) as nat, Self::size());
        le::le_round_trip((other as u32) as nat, Self::size());
        let (a, b) = (self, other);
        assert(a as u32 == b as u32 ==> a == b) by (bit_vector);
    }

    fn size_of() -> (n: usize) {
        4
    }

    fn align_of() -> (n: usize) {
        4
    }

    fn to_bytes(&self) -> (r: Vec<u8>) {
        le::to_le((*self as u32) as u128, 4)
    }

    fn from_bytes(src: &[u8]) -> (r: Self) {
        proof {
            le::le_ranges();
            le::le_covers(src@);
        }
        let x: u128 = le::from_le(src);
        let u: u32 = x as u32;
        assert((u as i32) as u32 == u) by (bit_vector);
        u as i32
    }
}

impl Pod for i64 {
    open spec fn size() -> nat {
        8
    }

    open spec fn align() -> nat {
        8
    }

    open spec fn fits() -> bool {
        true
    }

    open spec fn image(self) -> Seq<u8> {
        le::le((self as u64) as nat, 8)
    }

    proof fn image_len(self) {
        le::le_round_trip((self as u64) as nat, Self::size());
    }

    proof fn image_determines(self, other: Self) {
        le::le_ranges();
        le::le_round_trip((self as u64) as nat, Self::size());
        le::le_round_trip((other as u64) as nat, Self::size());
        let (a, b) = (self, other);
        assert(a as u64 == b as u64 ==> a == b) by (bit_vector);
    }

    fn size_of() -> (n: usize) {
        8
    }

    fn align_of() -> (n: usize) {
        8
    }

    fn to_bytes(&self) -> (r: Vec<u8>) {
        le::to_le((*self as u64) as u128, 8)
    }

    fn from_bytes(src: &[u8]) -> (r: Self) {
        proof {
            le::le_ranges();
            le::le_covers(src@);
        }
        let x: u128 = le::from_le(src);
        let u: u64 = x as u64;
        assert((u as i64) as u64 == u) by (bit_vector);
        u as i64
    }
}

impl Pod for i128 {
    open spec fn size() -> nat {
        16
    }

    open spec fn align() -> nat {
        16
    }

    open spec fn fits() -> bool {
        true
    }

    open spec fn image(self) -> Seq<u8> {
        le::le((self as u128) as nat, 16)
    }

    proof fn image_len(self) {
        le::le_round_trip((self as u128) as nat, Self::size());
    }

    proof fn image_determines(self, other: Self) {
        le::le_ranges();
        le::le_round_trip((self as u128) as nat, Self::size());
        le::le_round_trip((other as u128) as nat, Self::size());
        let (a, b) = (self, other);
        assert(a as u128 == b as u128 ==> a == b) by (bit_vector);
    }

    fn size_of() -> (n: usize) {
        16
    }

    fn align_of() -> (n: usize) {
        16
    }

    fn to_bytes(&self) -> (r: Vec<u8>) {
        le::to_le((*self as u128) as u128, 16)
    }

    fn from_bytes(src: &[u8]) -> (r: Self) {
        proof {
            le::le_ranges();
            le::le_covers(src@);
        }
        let x: u128 = le::from_le(src);
        let u: u128 = x as u128;
        assert((u as i128) as u128 == u) by (bit_vector);
        u as i128
    }
}

impl Pod for isize {
    open spec fn size() -> nat {
        (usize::BITS / 8) as nat
    }

    open spec fn align() -> nat {
        (usize::BITS / 8) as nat
    }

    open spec fn fits() -> bool {
        true
    }

    open spec fn image(self) -> Seq<u8> {
        le::le((self as usize) as nat, (usize::BITS / 8) as nat)
    }

    proof fn image_len(self) {
        le::le_round_trip((self as usize) as nat, Self::size());
    }

    proof fn image_determines(self, other: Self) {
        le::le_ranges();
        le::le_round_trip((self as usize) as nat, Self::size());
        le::le_round_trip((other as usize) as nat, Self::size());
        let (a, b) = (self, other);
        assert(a as usize == b as usize ==> a == b) by (bit_vector);
    }

    fn size_of() -> (n: usize) {
        (usize::BITS / 8) as usize
    }

    fn align_of() -> (n: usize) {
        (usize::BITS / 8) as usize
    }

    fn to_bytes(&self) -> (r: Vec<u8>) {
        le::to_le((*self as usize) as u128, (usize::BITS / 8) as usize)
    }

    fn from_bytes(src: &[u8]) -> (r: Self) {
        proof {
            le::le_ranges();
            le::le_covers(src@);
        }
        let x: u128 = le::from_le(src);
        let u: usize = x as usize;
        assert((u as isize) as usize == u) by (bit_vector);
        u as isize
    }
}

/// The bytes of a sequence of values, one after the other.
pub open spec fn images<T: Pod>(s: Seq<T>) -> Seq<u8>
    decreases s.len(),
{
    if s.len() == 0 {
        Seq::empty()
    } else {
        images(s.drop_last()) + s.last().image()
    }
}

proof fn lemma_images_len<T: Pod>(s: Seq<T>)
    ensures
        images(s).len() == s.len() * T::size(),
    decreases s.len(),
{
    if s.len() > 0 {
        lemma_images_len(s.drop_last());
        s.last().image_len();
        assert((s.len() - 1) * T::size() + T::size() == s.len() * T::size()) by (nonlinear_arith);
    } else {
        assert(0 * T::size() == 0) by (nonlinear_arith);
    }
}

proof fn lemma_images_determine<T: Pod>(a: Seq<T>, b: Seq<T>)
    requires
        a.len() == b.len(),
        images(a) == images(b),
    ensures
        a == b,
    decreases a.len(),
{
    if a.len() > 0 {
        lemma_images_len(a.drop_last());
        lemma_images_len(b.drop_last());
        a.last().image_len();
        b.last().image_len();
        let n = images(a.drop_last()).len() as int;
        assert(images(a).take(n) =~= images(a.drop_last()));
        assert(images(b).take(n) =~= images(b.drop_last()));
        assert(images(a).skip(n) =~= a.last().image());
        assert(images(b).skip(n) =~= b.last().image());
        lemma_images_determine(a.drop_last(), b.drop_last());
        a.last().image_determines(b.last());
        assert(a =~= a.drop_last().push(a.last()));
        assert(b =~= b.drop_last().push(b.last()));
    } else {
        assert(a =~= b);
    }
}

/// An array of plain old data is plain old data: there is no gap between its elements.
impl<T: Pod, const N: usize> Pod for [T; N] {
    open spec fn size() -> nat {
        N as nat * T::size()
    }

    open spec fn align() -> nat {
        T::align()
    }

    open spec fn fits() -> bool {
        T::fits() && N * T::size() <= usize::MAX
    }

    open spec fn image(self) -> Seq<u8> {
        images(self@)
    }

    proof fn image_len(self) {
        lemma_images_len(self@);
    }

    proof fn image_determines(self, other: Self) {
        lemma_images_determine(self@, other@);
        assert(self =~= other);
    }

    fn size_of() -> (n: usize) {
        N * T::size_of()
    }

    fn align_of() -> (n: usize) {
        T::align_of()
    }

    fn to_bytes(&self) -> (r: Vec<u8>) {
        let mut r: Vec<u8> = Vec::new();
        let mut i: usize = 0;
        while i < N
            invariant
                i <= N,
                r@ == images(self@.take(i as int)),
            decreases N - i,
        {
            let mut part = self[i].to_bytes();
            proof {
                assert(self@.take(i + 1).drop_last() =~= self@.take(i as int));
            }
            r.append(&mut part);
            i += 1;
        }
        assert(self@.take(N as int) =~= self@);
        r
    }

    fn from_bytes(src: &[u8]) -> (r: Self) {
        let size: usize = T::size_of();
        let zeros: Vec<u8> = vec![0u8; size];
        let filler: T = T::from_bytes(zeros.as_slice());
        let mut r: [T; N] = vstd::array::array_fill_for_copy_types(filler);
        let mut i: usize = 0;
        let mut at: usize = 0;
        while i < N
            invariant
                i <= N,
                size == T::size(),
                T::fits(),
                N * T::size() <= usize::MAX,
                src@.len() == N * T::size(),
                at == i * T::size(),
                src@.take(at as int) == images(r@.take(i as int)),
            decreases N - i,
        {
            proof {
                assert((i + 1) * T::size() == i * T::size() + T::size()) by (nonlinear_arith);
                assert((i + 1) * T::size() <= N * T::size()) by (nonlinear_arith)
                    requires
                        i < N,
                ;
            }
            let ghost before = r@;
            let x = T::from_bytes(vstd::slice::slice_subrange(src, at, at + size));
            r[i] = x;
            proof {
                assert(r@.take(i + 1).drop_last() =~= before.take(i as int));
                assert(src@.take(at + size) =~= src@.take(at as int) + src@.subrange(at as int, at + size));
            }
            at = at + size;
            i += 1;
        }
        proof {
            assert(src@.take(at as int) =~= src@);
            assert(r@.take(N as int) =~= r@);
        }
        r
    }
}

/// The bytes of an unsigned integer are its digits to the base 256, the lowest first, and there
/// are as many of them as the type has.
pub proof fn unsigned_images(a: u8, b: u16, c: u32, d: u64, e: u128, i: int)
    requires
        0 <= i < 16,
    ensures
        a.image() == seq![a],
        b.image().len() == 2 && c.image().len() == 4 && d.image().len() == 8 && e.image().len() == 16,
        i < 2 ==> b.image()[i] == (b as int / pow(256, i as nat)) % 256,
        i < 4 ==> c.image()[i] == (c as int / pow(256, i as nat)) % 256,
        i < 8 ==> d.image()[i] == (d as int / pow(256, i as nat)) % 256,
        e.image()[i] == (e as int / pow(256, i as nat)) % 256,
        u8::size() == 1 && u16::size() == 2 && u32::size() == 4 && u64::size() == 8 && u128::size() == 16,
        u8::align() == 1 && u16::align() == 2 && u32::align() == 4 && u64::align() == 8 && u128::align() == 16,
{
    le::digits_are_by_place(a as nat, 1, 0);
    vstd::arithmetic::power::lemma_pow0(256);
    assert(a.image() =~= seq![a]);
    le::digits_are_by_place(b as nat, 2, if i < 2 { i } else { 0 });
    le::digits_are_by_place(c as nat, 4, if i < 4 { i } else { 0 });
    le::digits_are_by_place(d as nat, 8, if i < 8 { i } else { 0 });
    le::digits_are_by_place(e as nat, 16, i);
}

/// The bytes of an integer of the width of an address are its digits to the base 256 too.
pub proof fn address_wide_images(a: usize, i: int)
    requires
        0 <= i < usize::BITS / 8,
    ensures
        a.image().len() == usize::BITS / 8,
        a.image()[i] == (a as int / pow(256, i as nat)) % 256,
        usize::size() == usize::BITS / 8 && usize::align() == usize::BITS / 8,
        isize::size() == usize::BITS / 8 && isize::align() == usize::BITS / 8,
{
    le::digits_are_by_place(a as nat, (usize::BITS / 8) as nat, i);
}

/// The bytes of a signed integer are those of the unsigned one that differs from it by nothing, or
/// by the range of the type where it is negative.
pub proof fn signed_images(a: i8, b: i16, c: i32, d: i64, e: i128, ua: u8, ub: u16, uc: u32, ud: u64, ue: u128)
    requires
        ua == (if a < 0 { a + 0x100 } else { a as int }),
        ub == (if b < 0 { b + 0x1_0000 } else { b as int }),
        uc == (if c < 0 { c + 0x1_0000_0000 } else { c as int }),
        ud == (if d < 0 { d + 0x1_0000_0000_0000_0000 } else { d as int }),
        ue == (if e < 0 { e + 0x1_0000_0000_0000_0000_0000_0000_0000_0000 } else { e as int }),
    ensures
        a.image() == ua.image(),
        b.image() == ub.image(),
        c.image() == uc.image(),
        d.image() == ud.image(),
        e.image() == ue.image(),
        i8::size() == 1 && i16::size() == 2 && i32::size() == 4 && i64::size() == 8 && i128::size() == 16,
        i8::align() == 1 && i16::align() == 2 && i32::align() == 4 && i64::align() == 8 && i128::align() == 16,
{
    assert(a as u8 == (if a < 0 { a + 0x100 } else { a + 0 })) by (bit_vector);
    assert(b as u16 == (if b < 0 { b + 0x1_0000 } else { b + 0 })) by (bit_vector);
    assert(c as u32 == (if c < 0 { c + 0x1_0000_0000 } else { c + 0 })) by (bit_vector);
    assert(d as u64 == (if d < 0 { d + 0x1_0000_0000_0000_0000 } else { d + 0 })) by (bit_vector);
    assert(e as u128 == (if e < 0 { e + 0x1_0000_0000_0000_0000_0000_0000_0000_0000 } else { e + 0 })) by (bit_vector);
}

/// Values that follow each other have their bytes one after the other.
pub proof fn images_follow_each_other<T: Pod>(s: Seq<T>, i: int)
    requires
        0 <= i < s.len(),
    ensures
        images(s).len() == s.len() * T::size(),
        0 <= i * T::size() && (i + 1) * T::size() <= images(s).len(),
        images(s).subrange(i * T::size(), (i + 1) * T::size()) == s[i].image(),
    decreases s.len(),
{
    lemma_images_len(s);
    lemma_images_len(s.drop_last());
    s.last().image_len();
    let n = T::size() as int;
    let m = s.len() - 1;
    assert((m + 1) * n == m * n + n) by (nonlinear_arith);
    assert((i + 1) * n == i * n + n && 0 <= i * n) by (nonlinear_arith)
        requires
            0 <= i,
            0 <= n,
    ;
    if i == m {
        assert(images(s).subrange(i * n, (i + 1) * n) =~= s[i].image());
    } else {
        images_follow_each_other(s.drop_last(), i);
        assert(images(s).subrange(i * n, (i + 1) * n) =~= images(s.drop_last()).subrange(i * n, (i + 1) * n));
    }
}

/// The bytes of an array are those of its elements, one after the other.
pub proof fn array_images<T: Pod, const N: usize>(a: [T; N], i: int)
    requires
        0 <= i < N,
    ensures
        a.image().len() == N * T::size(),
        0 <= i * T::size() && (i + 1) * T::size() <= a.image().len(),
        a.image().subrange(i * T::size(), (i + 1) * T::size()) == a@[i].image(),
        <[T; N]>::size() == N * T::size(),
        <[T; N]>::align() == T::align(),
{
    images_follow_each_other(a@, i);
}

/// What a record's field is made of.
#[derive(Clone, Copy)]
pub struct FieldLayout {
    /// The size of the field's type.
    pub size: usize,
    /// The alignment of the field's type.
    pub align: usize,
    /// Whether the field's type is plain old data.
    pub pod: bool,
}

/// What kind of type a record is declared as.
#[derive(Clone, Copy, PartialEq, Eq, Structural)]
pub enum ItemKind {
    Struct,
    Enum,
    Union,
}

/// Why a type cannot be read in place.
#[derive(Clone, Copy, PartialEq, Eq, Structural, Debug)]
pub enum LayoutError {
    /// Only a struct has a fixed layout.
    NotAStruct,
    /// The field with this number is not plain old data.
    FieldNotPod(usize),
    /// The type has padding bytes, which have no defined contents.
    Padding,
}

/// Where the first `n` fields end when each is placed, in order, at the next multiple of its
/// alignment.
pub open spec fn fields_end(fields: Seq<FieldLayout>, n: int) -> int
    decreases n,
{
    if n <= 0 {
        0
    } else {
        arena::align_up(fields_end(fields, n - 1), fields[n - 1].align as int) + fields[n - 1].size
    }
}

/// The largest alignment among the first `n` fields.
pub open spec fn fields_align(fields: Seq<FieldLayout>, n: int) -> int
    decreases n,
{
    if n <= 0 {
        1
    } else if fields[n - 1].align > fields_align(fields, n - 1) {
        fields[n - 1].align as int
    } else {
        fields_align(fields, n - 1)
    }
}

/// The size of the struct: the end of its fields, rounded up to its alignment.
pub open spec fn struct_size(fields: Seq<FieldLayout>) -> int {
    arena::align_up(fields_end(fields, fields.len() as int), fields_align(fields, fields.len() as int))
}

/// The sizes of the first `n` fields together.
pub open spec fn sizes_sum(fields: Seq<FieldLayout>, n: int) -> int
    decreases n,
{
    if n <= 0 {
        0
    } else {
        sizes_sum(fields, n - 1) + fields[n - 1].size
    }
}

/// The struct has no padding: it is as large as its fields together.
pub open spec fn padding_free(fields: Seq<FieldLayout>) -> bool {
    struct_size(fields) == sizes_sum(fields, fields.len() as int)
}

/// The first field that is not plain old data, counted from zero; the number of fields if all are.
pub open spec fn first_non_pod(fields: Seq<FieldLayout>) -> int
    decreases fields.len(),
{
    if fields.len() == 0 || !fields[0].pod {
        0
    } else {
        1 + first_non_pod(fields.drop_first())
    }
}

proof fn lemma_fields(fields: Seq<FieldLayout>, n: int)
    requires
        0 <= n <= fields.len(),
        forall|i: int| 0 <= i < fields.len() ==> (#[trigger] fields[i]).align > 0,
    ensures
        fields_align(fields, n) >= 1,
        0 <= sizes_sum(fields, n) <= fields_end(fields, n),
        n > 0 ==> sizes_sum(fields, n - 1) <= sizes_sum(fields, n),
        n > 0 && sizes_sum(fields, n - 1) < fields_end(fields, n - 1) ==> sizes_sum(fields, n) < fields_end(fields, n),
        n > 0 && sizes_sum(fields, n - 1) == fields_end(fields, n - 1) ==> (sizes_sum(fields, n) == fields_end(fields, n)
            <==> sizes_sum(fields, n - 1) % fields[n - 1].align as int == 0),
    decreases n,
{
    if n > 0 {
        lemma_fields(fields, n - 1);
        let e = fields_end(fields, n - 1);
        let a = fields[n - 1].align as int;
        arena::align_up_is_least(e, a, 0);
        assert(fields[n - 1].align > 0);
    }
}

proof fn lemma_gap_stays(fields: Seq<FieldLayout>, a: int, b: int)
    requires
        0 <= a <= b <= fields.len(),
        forall|i: int| 0 <= i < fields.len() ==> (#[trigger] fields[i]).align > 0,
    ensures
        sizes_sum(fields, a) < fields_end(fields, a) ==> sizes_sum(fields, b) < fields_end(fields, b),
        sizes_sum(fields, a) <= sizes_sum(fields, b),
    decreases b,
{
    if a < b {
        lemma_gap_stays(fields, a, b - 1);
        lemma_fields(fields, b);
    }
}

proof fn lemma_first_non_pod(fields: Seq<FieldLayout>)
    ensures
        0 <= first_non_pod(fields) <= fields.len(),
        forall|i: int| 0 <= i < first_non_pod(fields) ==> (#[trigger] fields[i]).pod,
        first_non_pod(fields) < fields.len() ==> !fields[first_non_pod(fields)].pod,
    decreases fields.len(),
{
    if fields.len() > 0 && fields[0].pod {
        let rest = fields.drop_first();
        lemma_first_non_pod(rest);
        assert forall|i: int| 0 <= i < first_non_pod(fields) implies (#[trigger] fields[i]).pod by {
            if i > 0 {
                assert(rest[i - 1].pod);
            }
        }
    }
}

/// Decides whether a record type whose fields lie in the order of their declaration, as under
/// `repr(C)`, can be encoded and read in place, and returns its size. It can when it is a struct,
/// all of its fields are plain old data, and it has no padding. For a type whose fields the
/// compiler may place in another order, the compiler itself has to compare the sizes.
pub fn check_record(kind: ItemKind, fields: &[FieldLayout]) -> (r: Result<usize, LayoutError>)
    requires
        forall|i: int| 0 <= i < fields@.len() ==> (#[trigger] fields@[i]).align > 0,
        sizes_sum(fields@, fields@.len() as int) <= usize::MAX,
    ensures
        kind != ItemKind::Struct <==> r == Err::<usize, LayoutError>(LayoutError::NotAStruct),
        kind == ItemKind::Struct ==> {
            let bad = first_non_pod(fields@);
            if bad < fields@.len() {
                r == Err::<usize, LayoutError>(LayoutError::FieldNotPod(bad as usize))
            } else if padding_free(fields@) {
                r is Ok && r->Ok_0 == struct_size(fields@)
            } else {
                r == Err::<usize, LayoutError>(LayoutError::Padding)
            }
        },
{
    if kind != ItemKind::Struct {
        return Err(LayoutError::NotAStruct);
    }
    proof {
        lemma_first_non_pod(fields@);
    }
    let mut i: usize = 0;
    while i < fields.len()
        invariant
            i <= fields@.len(),
            i <= first_non_pod(fields@) <= fields@.len(),
            forall|j: int| 0 <= j < first_non_pod(fields@) ==> (#[trigger] fields@[j]).pod,
            first_non_pod(fields@) < fields@.len() ==> !fields@[first_non_pod(fields@)].pod,
            kind == ItemKind::Struct,
        decreases fields@.len() - i,
    {
        if !fields[i].pod {
            return Err(LayoutError::FieldNotPod(i));
        }
        i += 1;
    }
    let mut sum: usize = 0;
    let mut align: usize = 1;
    let ghost n = fields@.len() as int;
    i = 0;
    while i < fields.len()
        invariant
            i <= fields@.len(),
            n == fields@.len(),
            kind == ItemKind::Struct,
            first_non_pod(fields@) == n,
            forall|j: int| 0 <= j < fields@.len() ==> (#[trigger] fields@[j]).align > 0,
            sizes_sum(fields@, n) <= usize::MAX,
            sum == sizes_sum(fields@, i as int),
            sum == fields_end(fields@, i as int),
            align == fields_align(fields@, i as int),
        decreases fields@.len() - i,
    {
        proof {
            lemma_fields(fields@, i + 1);
            lemma_gap_stays(fields@, i + 1, n);
            lemma_fields(fields@, n);
        }
        if sum % fields[i].align != 0 {
            proof {
                arena::align_up_is_least(fields_end(fields@, n), fields_align(fields@, n), 0);
            }
            return Err(LayoutError::Padding);
        }
        sum = sum + fields[i].size;
        if fields[i].align > align {
            align = fields[i].align;
        }
        i += 1;
    }
    proof {
        lemma_fields(fields@, n);
        arena::align_up_is_least(sum as int, align as int, 0);
    }
    if sum % align != 0 {
        return Err(LayoutError::Padding);
    }
    Ok(sum)
}

/// The places of fields that lie in the order of their declaration.
pub open spec fn declared_places(fields: Seq<FieldLayout>) -> Seq<derived::Place> {
    Seq::new(
        fields.len(),
        |i: int| derived::place(arena::align_up(fields_end(fields, i), fields[i].align as int), fields[i].size as nat),
    )
}

proof fn lemma_ends(fields: Seq<FieldLayout>, a: int, b: int)
    requires
        0 <= a <= b <= fields.len(),
        forall|i: int| 0 <= i < fields.len() ==> (#[trigger] fields[i]).align > 0,
    ensures
        0 <= fields_end(fields, a) <= fields_end(fields, b),
    decreases b,
{
    lemma_fields(fields, a);
    if a < b {
        lemma_ends(fields, a, b - 1);
        arena::align_up_is_least(fields_end(fields, b - 1), fields[b - 1].align as int, 0);
    }
}

/// A record that [`check_record`] admits has its fields where the laws on derived implementations
/// ask for them: inside it, apart from each other, and with no byte between them.
pub proof fn checked_records_are_laid_out(fields: Seq<FieldLayout>)
    requires
        forall|i: int| 0 <= i < fields.len() ==> (#[trigger] fields[i]).align > 0,
        padding_free(fields),
    ensures
        derived::laid_out(declared_places(fields), struct_size(fields) as nat),
{
    let n = fields.len() as int;
    let places = declared_places(fields);
    lemma_fields(fields, n);
    arena::align_up_is_least(fields_end(fields, n), fields_align(fields, n), 0);
    assert forall|i: int| 0 <= i < n implies {
        &&& fields_end(fields, i) <= (#[trigger] places[i]).at
        &&& places[i].at + places[i].size == fields_end(fields, i + 1)
        &&& fields_end(fields, i + 1) <= fields_end(fields, n)
    } by {
        lemma_fields(fields, i);
        lemma_ends(fields, i + 1, n);
        assert(fields[i].align > 0);
        arena::align_up_is_least(fields_end(fields, i), fields[i].align as int, 0);
    }
    assert forall|i: int, j: int| 0 <= i < j < n implies derived::apart(#[trigger] places[i], #[trigger] places[j]) by {
        lemma_ends(fields, i + 1, j);
    }
    lemma_total_size(fields, n);
}

proof fn lemma_total_size(fields: Seq<FieldLayout>, n: int)
    requires
        0 <= n <= fields.len(),
    ensures
        derived::total_size(declared_places(fields), n) == sizes_sum(fields, n),
    decreases n,
{
    if n > 0 {
        lemma_total_size(fields, n - 1);
        assert(declared_places(fields)[n - 1].size == fields[n - 1].size);
    }
}

/// Where the fields of a struct lie is a matter of sizes and alignments: each starts at the first
/// multiple of its alignment behind the one before it, and the struct ends at the first multiple
/// of the largest alignment.
pub proof fn fields_follow_each_other(fields: Seq<FieldLayout>, n: int)
    requires
        0 <= n < fields.len(),
    ensures
        fields_end(fields, 0) == 0,
        sizes_sum(fields, 0) == 0,
        fields_align(fields, 0) == 1,
        fields_end(fields, n + 1) == arena::align_up(fields_end(fields, n), fields[n].align as int) + fields[n].size,
        sizes_sum(fields, n + 1) == sizes_sum(fields, n) + fields[n].size,
        fields_align(fields, n + 1) >= fields_align(fields, n),
        fields_align(fields, n + 1) >= fields[n].align,
        fields_align(fields, n + 1) == fields_align(fields, n) || fields_align(fields, n + 1) == fields[n].align,
        struct_size(fields) == arena::align_up(
            fields_end(fields, fields.len() as int),
            fields_align(fields, fields.len() as int),
        ),
{
}

/// A record is admitted where each field starts right behind the one before it and the whole is a
/// multiple of the largest alignment, however many fields it has, and only there.
pub proof fn records_without_gaps_are_admitted(fields: Seq<FieldLayout>)
    requires
        forall|i: int| 0 <= i < fields.len() ==> (#[trigger] fields[i]).align > 0,
    ensures
        padding_free(fields) <==> (forall|i: int|
            0 <= i < fields.len() ==> sizes_sum(fields, i) % (#[trigger] fields[i]).align as int == 0) && sizes_sum(
            fields,
            fields.len() as int,
        ) % fields_align(fields, fields.len() as int) == 0,
        padding_free(fields) ==> struct_size(fields) == sizes_sum(fields, fields.len() as int),
{
    let n = fields.len() as int;
    lemma_fields(fields, n);
    arena::align_up_is_least(fields_end(fields, n), fields_align(fields, n), 0);
    let tight = forall|i: int| 0 <= i < n ==> sizes_sum(fields, i) % (#[trigger] fields[i]).align as int == 0;
    if tight {
        lemma_tight(fields, n);
    } else {
        let i = choose|i: int| 0 <= i < n && sizes_sum(fields, i) % (#[trigger] fields[i]).align as int != 0;
        lemma_fields(fields, i + 1);
        lemma_fields(fields, i);
        lemma_gap_stays(fields, i + 1, n);
        lemma_gap_stays(fields, i, n);
    }
}

proof fn lemma_tight(fields: Seq<FieldLayout>, n: int)
    requires
        0 <= n <= fields.len(),
        forall|i: int| 0 <= i < fields.len() ==> (#[trigger] fields[i]).align > 0,
        forall|i: int| 0 <= i < fields.len() ==> sizes_sum(fields, i) % (#[trigger] fields[i]).align as int == 0,
    ensures
        fields_end(fields, n) == sizes_sum(fields, n),
    decreases n,
{
    if n > 0 {
        lemma_tight(fields, n - 1);
        assert(sizes_sum(fields, n - 1) % fields[n - 1].align as int == 0);
    }
}

/// The field that is named as no plain old data is the first such field.
pub proof fn first_bad_field_is_named(fields: Seq<FieldLayout>, i: int)
    requires
        0 <= i < fields.len(),
    ensures
        0 <= first_non_pod(fields) <= fields.len(),
        i < first_non_pod(fields) ==> fields[i].pod,
        first_non_pod(fields) < fields.len() ==> !fields[first_non_pod(fields)].pod,
{
    lemma_first_non_pod(fields);
}

/// A record that is its bytes.
pub trait ZeroCopy: Sized {
    /// The size in bytes.
    const SERIALIZED_SIZE: usize;

    /// The alignment in bytes.
    open spec fn alignment() -> nat {
        1
    }

    /// The bytes of the record. An implementation says what they are.
    open spec fn image(&self) -> Seq<u8> {
        arbitrary()
    }

    /// The alignment in bytes.
    fn align_of() -> (n: usize)
        ensures
            n == Self::alignment(),
            n >= 1,
    ;

    /// Writes the record to the front of `dst`.
    fn encode(&self, dst: &mut [u8])
        requires
            old(dst)@.len() >= Self::SERIALIZED_SIZE,
        ensures
            final(dst)@ == self.image() + old(dst)@.skip(Self::SERIALIZED_SIZE as int),
    ;

    /// Reads the record at the front of `src`.
    fn decode(src: &[u8]) -> (r: Self)
        requires
            src@.len() >= Self::SERIALIZED_SIZE,
        ensures
            r.image() == src@.take(Self::SERIALIZED_SIZE as int),
    ;

    /// The record at the front of `src`, whose first byte has the address `addr`; `None` where
    /// `src` is too short or the address does not have the record's alignment.
    fn view(src: &[u8], addr: usize) -> (r: Option<Self>)
        ensures
            r is Some <==> src@.len() >= Self::SERIALIZED_SIZE && addr as int % Self::alignment() as int == 0,
            r is Some ==> r->0.image() == src@.take(Self::SERIALIZED_SIZE as int),
    {
        if src.len() < Self::SERIALIZED_SIZE {
            return None;
        }
        let align: usize = Self::align_of();
        if addr % align != 0 {
            return None;
        }
        Some(Self::decode(src))
    }
}

/// A record whose bytes say which record it is.
pub trait FixedImage: ZeroCopy {
    /// The bytes are as many as the size says.
    proof fn image_len(&self)
        ensures
            self.image().len() == Self::SERIALIZED_SIZE,
    ;

    /// Records with the same bytes are the same record.
    proof fn image_determines(&self, other: &Self)
        requires
            self.image() == other.image(),
        ensures
            *self == *other,
    ;
}

/// Decoding, or viewing, gives back what was encoded: `y` is what [`ZeroCopy::decode`] returns
/// on bytes that start with those that [`ZeroCopy::encode`] wrote for `x`.
pub proof fn decoding_inverts_encoding<T: FixedImage>(x: T, y: T, rest: Seq<u8>)
    requires
        y.image() == (x.image() + rest).take(T::SERIALIZED_SIZE as int),
    ensures
        y == x,
{
    x.image_len();
    assert((x.image() + rest).take(T::SERIALIZED_SIZE as int) =~= x.image());
    y.image_determines(&x);
}

/// Writes the bytes of a field at `at` and returns where the next field starts.
pub fn put_field<T: Pod>(x: &T, dst: &mut [u8], at: usize) -> (next: usize)
    requires
        at + T::size() <= old(dst)@.len(),
    ensures
        next == at + T::size(),
        final(dst)@ == derived::put(old(dst)@, derived::place(at as int, T::size()), x.image()),
        final(dst)@ == old(dst)@.take(at as int) + x.image() + old(dst)@.skip(next as int),
        final(dst)@.subrange(at as int, next as int) == x.image(),
{
    let bytes = x.to_bytes();
    proof {
        x.image_len();
        assert(dst.len() <= usize::MAX);
    }
    let mut i: usize = 0;
    while i < bytes.len()
        invariant
            i <= bytes@.len(),
            at + bytes@.len() <= dst.len(),
            dst@.len() == old(dst)@.len(),
            forall|j: int| 0 <= j < dst@.len() && !(at <= j < at + i) ==> dst@[j] == old(dst)@[j],
            forall|j: int| at <= j < at + i ==> dst@[j] == bytes@[j - at],
        decreases bytes@.len() - i,
    {
        dst[at + i] = bytes[i];
        i += 1;
    }
    assert(dst@ =~= old(dst)@.take(at as int) + x.image() + old(dst)@.skip(at + bytes@.len()));
    assert(dst@.subrange(at as int, at + bytes@.len()) =~= x.image());
    at + bytes.len()
}

/// Reads the field whose bytes start at `at`.
pub fn take_field<T: Pod>(src: &[u8], at: usize) -> (x: T)
    requires
        at + T::size() <= src@.len(),
        T::fits(),
    ensures
        x.image() == derived::taken(src@, derived::place(at as int, T::size())),
        x.image() == src@.subrange(at as int, at + T::size()),
{
    let n: usize = T::size_of();
    proof {
        assert(src.len() <= usize::MAX);
    }
    T::from_bytes(vstd::slice::slice_subrange(src, at, at + n))
}

/// A store that hands out borrows of what it holds, bound to the borrow of the store itself.
pub trait ZeroCopyStorage {
    /// What is borrowed.
    type Ref: ?Sized;

    /// The store is well formed.
    open spec fn valid(&self) -> bool {
        true
    }

    /// A lookup of `key` may give `r`.
    open spec fn gives(&self, key: Seq<u8>, r: Option<&Self::Ref>) -> bool {
        true
    }

    /// Looks `key` up. The borrow lives no longer than that of the store.
    fn get<'a>(&'a self, key: &[u8]) -> (r: Option<&'a Self::Ref>)
        requires
            self.valid(),
        ensures
            self.gives(key@, r),
    ;
}

/// A store whose keys and values lie in an arena. Entries are kept in the order in which they
/// came; a lookup takes the first that matches.
pub struct ArenaKv {
    arena: Arena,
    entries: Vec<(Span, Span)>,
}

/// The value of the first entry with key `key`.
pub open spec fn first_match(entries: Seq<(Seq<u8>, Seq<u8>)>, key: Seq<u8>) -> Option<Seq<u8>>
    decreases entries.len(),
{
    if entries.len() == 0 {
        None
    } else if entries[0].0 == key {
        Some(entries[0].1)
    } else {
        first_match(entries.drop_first(), key)
    }
}

/// A lookup finds something exactly where some entry has the key, and then it is the value of the
/// first such entry.
pub proof fn lookups_find_the_first(entries: Seq<(Seq<u8>, Seq<u8>)>, key: Seq<u8>)
    ensures
        first_match(entries, key) is Some <==> exists|i: int| 0 <= i < entries.len() && (#[trigger] entries[i]).0 == key,
        first_match(entries, key) is Some ==> exists|i: int|
            0 <= i < entries.len() && #[trigger] entries[i] == (key, first_match(entries, key)->0) && forall|j: int|
                0 <= j < i ==> (#[trigger] entries[j]).0 != key,
    decreases entries.len(),
{
    if entries.len() > 0 {
        let rest = entries.drop_first();
        assert(entries[0].0 == key ==> entries[0] == (key, first_match(entries, key)->0));
        if entries[0].0 != key {
            lookups_find_the_first(rest, key);
            if exists|i: int| 0 <= i < entries.len() && (#[trigger] entries[i]).0 == key {
                let i = choose|i: int| 0 <= i < entries.len() && (#[trigger] entries[i]).0 == key;
                assert(rest[i - 1] == entries[i]);
            }
            if first_match(rest, key) is Some {
                let i = choose|i: int|
                    0 <= i < rest.len() && #[trigger] rest[i] == (key, first_match(rest, key)->0) && forall|j: int|
                        0 <= j < i ==> (#[trigger] rest[j]).0 != key;
                assert(entries[i + 1] == rest[i]);
                assert forall|j: int| 0 <= j < i + 1 implies (#[trigger] entries[j]).0 != key by {
                    if j > 0 {
                        assert(rest[j - 1] == entries[j]);
                    }
                }
            }
        }
    }
}

/// An entry that is put under a new key is what a lookup of the key finds; an entry that is put
/// under a key that is there changes no lookup; and neither changes the lookup of another key.
pub proof fn entries_are_found_by_their_keys(entries: Seq<(Seq<u8>, Seq<u8>)>, key: Seq<u8>, val: Seq<u8>, other: Seq<u8>)
    ensures
        first_match(entries, key) is None ==> first_match(entries.push((key, val)), key) == Some(val),
        first_match(entries, key) is Some ==> first_match(entries.push((key, val)), key) == first_match(entries, key),
        other != key ==> first_match(entries.push((key, val)), other) == first_match(entries, other),
        first_match(Seq::empty(), key) is None,
    decreases entries.len(),
{
    let more = entries.push((key, val));
    if entries.len() > 0 {
        entries_are_found_by_their_keys(entries.drop_first(), key, val, other);
        assert(more.drop_first() =~= entries.drop_first().push((key, val)));
        assert(more[0] == entries[0]);
    } else {
        assert(more[0] == (key, val));
        assert(more.drop_first() =~= entries);
    }
}

impl ArenaKv {
    /// The entries, in the order in which they came.
    pub closed spec fn entries(&self) -> Seq<(Seq<u8>, Seq<u8>)> {
        Seq::new(
            self.entries@.len(),
            |i: int| (self.arena@.at(self.entries@[i].0), self.arena@.at(self.entries@[i].1)),
        )
    }

    /// The bytes of the arena in use.
    pub closed spec fn used(&self) -> int {
        self.arena@.head
    }

    /// The size of the arena.
    pub closed spec fn capacity(&self) -> int {
        self.arena@.bytes.len() as int
    }

    /// Every entry lies in the arena.
    pub closed spec fn wf(&self) -> bool {
        &&& self.arena.wf()
        &&& forall|i: int|
            0 <= i < self.entries@.len() ==> self.arena@.holds((#[trigger] self.entries@[i]).0) && self.arena@.holds(
                self.entries@[i].1,
            )
    }

    /// An empty store over an arena of `cap` bytes, rounded up to a multiple of 64.
    pub fn new(cap: usize) -> (r: Self)
        requires
            cap > 0,
            cap + 63 <= isize::MAX,
        ensures
            r.wf(),
            r.entries() == Seq::<(Seq<u8>, Seq<u8>)>::empty(),
            r.used() == 0,
            r.capacity() == arena::align_up(cap as int, 64),
    {
        proof {
            vstd::arithmetic::power2::lemma2_to64();
            assert(vstd::arithmetic::power2::pow2(6) == 64);
        }
        let r = ArenaKv { arena: Arena::with_capacity(cap, 64), entries: Vec::new() };
        assert(r.entries() =~= Seq::<(Seq<u8>, Seq<u8>)>::empty());
        r
    }

    /// Copies key and value into the arena and adds the entry. Returns `false`, and adds none,
    /// where they do not fit; a key that did fit then stays in the arena all the same.
    pub fn put(&mut self, key: &[u8], val: &[u8]) -> (ok: bool)
        requires
            old(self).wf(),
        ensures
            final(self).wf(),
            final(self).capacity() == old(self).capacity(),
            ok == (old(self).used() + key@.len() + val@.len() <= old(self).capacity()),
            final(self).entries() == (if ok {
                old(self).entries().push((key@, val@))
            } else {
                old(self).entries()
            }),
            final(self).used() == old(self).used() + (if ok {
                key@.len() + val@.len()
            } else if old(self).used() + key@.len() <= old(self).capacity() {
                key@.len()
            } else {
                0
            }),
    {
        let k = match self.arena.push_span(key) {
            Some(k) => k,
            None => {
                assert(self.entries() =~= old(self).entries());
                return false;
            },
        };
        let ghost mid = self.arena@;
        let v = match self.arena.push_span(val) {
            Some(v) => v,
            None => {
                assert(self.entries() =~= old(self).entries());
                return false;
            },
        };
        self.entries.push((k, v));
        proof {
            assert(mid.holds(k));
            assert(self.entries() =~= old(self).entries().push((key@, val@)));
        }
        true
    }
}

impl ZeroCopyStorage for ArenaKv {
    type Ref = [u8];

    open spec fn valid(&self) -> bool {
        self.wf()
    }

    /// The value of the first entry with the key, if there is one.
    open spec fn gives(&self, key: Seq<u8>, r: Option<&[u8]>) -> bool {
        match first_match(self.entries(), key) {
            Some(value) => r is Some && r->0@ == value,
            None => r is None,
        }
    }

    fn get<'a>(&'a self, key: &[u8]) -> (r: Option<&'a [u8]>)
        ensures
            r is Some <==> first_match(self.entries(), key@) is Some,
            r is Some ==> r->0@ == first_match(self.entries(), key@)->0,
            r is Some <==> exists|i: int| 0 <= i < self.entries().len() && (#[trigger] self.entries()[i]).0 == key@,
            r is Some ==> exists|i: int|
                0 <= i < self.entries().len() && #[trigger] self.entries()[i] == (key@, r->0@) && forall|j: int|
                    0 <= j < i ==> (#[trigger] self.entries()[j]).0 != key@,
    {
        proof {
            lookups_find_the_first(self.entries(), key@);
        }
        let mut i: usize = 0;
        assert(self.entries().skip(0) =~= self.entries());
        while i < self.entries.len()
            invariant
                i <= self.entries@.len(),
                self.wf(),
                first_match(self.entries(), key@) == first_match(self.entries().skip(i as int), key@),
            decreases self.entries@.len() - i,
        {
            let (k, v) = self.entries[i];
            assert(self.arena@.holds(self.entries@[i as int].0));
            if bytes_eq(self.arena.slice(&k), key) {
                proof {
                    lookups_find_the_first(self.entries(), key@);
                    assert(self.entries().skip(i as int)[0] == self.entries()[i as int]);
                }
                return Some(self.arena.slice(&v));
            }
            assert(self.entries().skip(i as int).drop_first() =~= self.entries().skip(i + 1));
            i += 1;
        }
        None
    }
}

} // verus!
