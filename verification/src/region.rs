//! Memory that starts at an aligned address.
//!
//! A region is taken from the allocator with room to spare, and starts at the first byte of it
//! whose address is a multiple of the alignment. The address is learnt from the standard library,
//! which shows where a reference points. It differs from run to run, so nothing is claimed of
//! what is shown; what is stated holds whatever it is.

use vstd::prelude::*;
use crate::arena;

verus! {

/// The standard library's pointer format, `{:p}`: the address of `byte`, as text. Where memory
/// lies is up to the machine, so nothing is claimed of the text.
#[verifier::external_body]
fn shown(byte: &u8) -> Vec<u8> {
    format!("{:p}", byte).into_bytes()
}

/// The address at which `mem` is shown to lie, or zero where it holds nothing.
fn locate(mem: &Vec<u8>) -> usize {
    if mem.len() == 0 {
        0
    } else {
        read_address(shown(&mem[0]).as_slice())
    }
}

/// The value of a hexadecimal digit, in lower case; `None` for any other character.
pub open spec fn digit(c: u8) -> Option<usize> {
    if 48 <= c <= 57 {
        Some((c - 48) as usize)
    } else if 97 <= c <= 102 {
        Some((c - 87) as usize)
    } else {
        None
    }
}

/// The number that a text shows in hexadecimal, modulo the width of an address. What is no digit
/// is passed over.
pub open spec fn number(text: Seq<u8>) -> usize
    decreases text.len(),
{
    if text.len() == 0 {
        0
    } else {
        match digit(text.last()) {
            Some(d) => number(text.drop_last()).wrapping_mul(16).wrapping_add(d),
            None => number(text.drop_last()),
        }
    }
}

/// Reads an address from the text that shows it.
pub fn read_address(text: &[u8]) -> (r: usize)
    ensures
        r == number(text@),
{
    let mut r: usize = 0;
    let mut i: usize = 0;
    while i < text.len()
        invariant
            i <= text@.len(),
            r == number(text@.take(i as int)),
        decreases text@.len() - i,
    {
        let c: u8 = text[i];
        proof {
            assert(text@.take(i + 1).drop_last() =~= text@.take(i as int));
        }
        if 48 <= c && c <= 57 {
            r = r.wrapping_mul(16).wrapping_add((c - 48) as usize);
        } else if 97 <= c && c <= 102 {
            r = r.wrapping_mul(16).wrapping_add((c - 87) as usize);
        }
        i += 1;
    }
    assert(text@.take(i as int) =~= text@);
    r
}

/// Memory at an aligned address.
pub struct Region {
    mem: Vec<u8>,
    noted: usize,
    start: usize,
    len: usize,
}

impl View for Region {
    type V = Seq<u8>;

    /// The bytes.
    closed spec fn view(&self) -> Seq<u8> {
        self.mem@.subrange(self.start as int, self.start + self.len)
    }
}

impl Region {
    /// The address of the first byte, going by where the memory was shown to lie.
    pub closed spec fn addr(&self) -> int {
        self.noted + self.start
    }

    /// The bytes lie within the memory.
    pub closed spec fn wf(&self) -> bool {
        self.start + self.len <= self.mem@.len()
    }

    /// The bytes start at a multiple of `align`, unless there are too many of them for memory with
    /// room to spare.
    pub open spec fn aligned(&self, align: int) -> bool {
        self@.len() + align - 1 <= isize::MAX ==> self.addr() % align == 0
    }

    /// The bytes are no more than an address can count.
    pub proof fn lemma_len(&self)
        requires
            self.wf(),
        ensures
            self@.len() <= usize::MAX,
    {
        assert(self.mem.len() <= usize::MAX);
    }

    /// `len` zeros at an address that is a multiple of `align`.
    pub fn new(len: usize, align: usize) -> (r: Self)
        requires
            align > 0,
            len <= isize::MAX,
        ensures
            r.wf(),
            r@ == Seq::new(len as nat, |i: int| 0u8),
            r.aligned(align as int),
            len + align - 1 <= isize::MAX ==> r.addr() % (align as int) == 0,
    {
        let most: usize = isize::MAX as usize;
        if align - 1 > most - len {
            let mem: Vec<u8> = vec![0u8; len];
            let noted: usize = locate(&mem);
            let r = Region { mem, noted, start: 0, len };
            assert(r@ =~= Seq::new(len as nat, |i: int| 0u8));
            return r;
        }
        let mem: Vec<u8> = vec![0u8; len + (align - 1)];
        let noted: usize = locate(&mem);
        let rem: usize = noted % align;
        let start: usize = if rem == 0 { 0 } else { align - rem };
        proof {
            arena::align_up_is_least(noted as int, align as int, 0);
        }
        let r = Region { mem, noted, start, len };
        assert(r@ =~= Seq::new(len as nat, |i: int| 0u8));
        r
    }

    /// The address of the first byte; `None` where it is past the end of the address space.
    pub fn address(&self) -> (r: Option<usize>)
        ensures
            r is Some <==> self.addr() <= usize::MAX,
            r is Some ==> r->0 == self.addr(),
    {
        self.noted.checked_add(self.start)
    }

    /// The number of bytes.
    pub fn len(&self) -> (n: usize)
        requires
            self.wf(),
        ensures
            n == self@.len(),
    {
        self.len
    }

    /// The bytes.
    pub fn as_slice(&self) -> (r: &[u8])
        requires
            self.wf(),
        ensures
            r@ == self@,
    {
        assert(self.mem.len() <= usize::MAX);
        vstd::slice::slice_subrange(self.mem.as_slice(), self.start, self.start + self.len)
    }

    /// The bytes, to be changed. There are as many of them afterwards.
    pub fn as_mut_slice(&mut self) -> (r: &mut [u8])
        requires
            old(self).wf(),
        ensures
            r@ == old(self)@,
            final(r)@.len() == old(self)@.len() ==> final(self).wf() && final(self)@ == final(r)@,
            final(self).addr() == old(self).addr(),
    {
        let start: usize = self.start;
        let len: usize = self.len;
        let (_, rest) = self.mem.as_mut_slice().split_at_mut(start);
        let (r, _) = rest.split_at_mut(len);
        r
    }

    /// Changes the byte at `i`.
    pub fn set(&mut self, i: usize, b: u8)
        requires
            old(self).wf(),
            i < old(self)@.len(),
        ensures
            final(self).wf(),
            final(self)@ == old(self)@.update(i as int, b),
            final(self).addr() == old(self).addr(),
    {
        assert(self.mem.len() <= usize::MAX);
        self.mem[self.start + i] = b;
        assert(self@ =~= old(self)@.update(i as int, b));
    }
}

/// A text of hexadecimal digits shows the number to the base sixteen, and marks like the `x` of
/// the prefix do not count.
pub proof fn numbers_are_to_the_base_sixteen(text: Seq<u8>, c: u8)
    ensures
        number(Seq::<u8>::empty()) == 0,
        48 <= c <= 57 && number(text) <= (usize::MAX - 15) / 16 ==> number(text.push(c)) == number(text) * 16 + (c - 48),
        97 <= c <= 102 && number(text) <= (usize::MAX - 15) / 16 ==> number(text.push(c)) == number(text) * 16 + (c - 87),
        !(48 <= c <= 57) && !(97 <= c <= 102) ==> number(text.push(c)) == number(text),
{
    assert(text.push(c).drop_last() =~= text);
    if number(text) <= (usize::MAX - 15) / 16 {
        vstd::arithmetic::div_mod::lemma_small_mod((number(text) * 16) as nat, (usize::MAX - usize::MIN + 1) as nat);
        assert(number(text).wrapping_mul(16) == number(text) * 16);
    }
}

/// Aligned bytes start at a multiple of the alignment wherever memory has room for them and for
/// the gap before them.
pub proof fn aligned_bytes_start_at_multiples(r: Region, align: int)
    requires
        align > 0,
        r.aligned(align),
        r@.len() + align - 1 <= isize::MAX,
    ensures
        r.addr() % align == 0,
{
}

} // verus!
