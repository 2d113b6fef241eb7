//! The bump arena: allocation by moving a cursor over one region, reclaimed as a whole.
//!
//! An allocation reserves the next bytes, after padding for its alignment. Nothing is freed
//! on its own; `reset` takes all of it back at once. The region starts at a multiple of its
//! alignment.

use vstd::prelude::*;
use crate::pow2;
use crate::region::Region;

verus! {

/// The smallest multiple of `align` that is at least `x`.
pub open spec fn align_up(x: int, align: int) -> int {
    if x % align == 0 {
        x
    } else {
        x - x % align + align
    }
}

/// Rounding up gives a multiple, and the smallest one that is large enough.
pub proof fn align_up_is_least(x: int, align: int, y: int)
    requires
        align > 0,
    ensures
        align_up(x, align) % align == 0,
        x <= align_up(x, align) < x + align,
        y % align == 0 && y >= x ==> y >= align_up(x, align),
{
    let r = x % align;
    let q = x / align;
    assert(x == q * align + r && 0 <= r < align) by (nonlinear_arith)
        requires
            align > 0,
            r == x % align,
            q == x / align,
    ;
    if r != 0 {
        assert((q + 1) * align == q * align + align) by (nonlinear_arith);
        vstd::arithmetic::div_mod::lemma_mod_multiples_basic(q + 1, align);
    }
    if y % align == 0 && y >= x && r != 0 {
        let p = y / align;
        assert(y == p * align) by (nonlinear_arith)
            requires
                align > 0,
                y % align == 0,
                p == y / align,
        ;
        assert(p >= q + 1) by (nonlinear_arith)
            requires
                p * align >= q * align + r,
                r > 0,
                align > 0,
        ;
        assert(p * align >= (q + 1) * align) by (nonlinear_arith)
            requires
                p >= q + 1,
                align > 0,
        ;
    }
}

/// A piece of the arena: its address and its length.
#[derive(Clone, Copy)]
pub struct Span {
    pub addr: usize,
    pub len: usize,
}

/// The state of an arena.
pub struct ArenaView {
    /// The address of the region's first byte.
    pub base: int,
    /// The region.
    pub bytes: Seq<u8>,
    /// The bytes reserved.
    pub head: int,
}

impl ArenaView {
    /// The address at which an allocation with this alignment would start.
    pub open spec fn next_addr(self, align: int) -> int {
        align_up(self.base + self.head, align)
    }

    /// There is room for `size` bytes with this alignment.
    pub open spec fn has_room(self, size: int, align: int) -> bool {
        self.next_addr(align) - self.base + size <= self.bytes.len()
    }

    /// The state after such an allocation.
    pub open spec fn reserve(self, size: int, align: int) -> ArenaView {
        ArenaView { head: self.next_addr(align) - self.base + size, ..self }
    }

    /// The bytes of a span.
    pub open spec fn at(self, span: Span) -> Seq<u8> {
        self.bytes.subrange(span.addr - self.base, span.addr - self.base + span.len)
    }

    /// The span lies in what has been reserved.
    pub open spec fn holds(self, span: Span) -> bool {
        self.base <= span.addr && span.addr - self.base + span.len <= self.head
    }

    /// The cursor is within the region.
    pub open spec fn wf(self) -> bool {
        0 < self.base && 0 <= self.head <= self.bytes.len() && self.base + self.bytes.len() <= usize::MAX
    }
}

/// A new allocation overlaps none that was made before it and lies within the region.
pub proof fn allocations_are_disjoint(a: ArenaView, size: int, align: int, earlier: Span)
    requires
        a.wf(),
        size > 0,
        align > 0,
        a.has_room(size, align),
        a.holds(earlier),
    ensures
        earlier.addr + earlier.len <= a.next_addr(align),
        a.next_addr(align) % align == 0,
        a.next_addr(align) + size <= a.base + a.bytes.len(),
        a.reserve(size, align).wf(),
        a.reserve(size, align).holds(earlier),
{
    align_up_is_least(a.base + a.head, align, 0);
}

/// There is room for an allocation wherever it could stand behind what is reserved, and it is put
/// at the first place where it can. What is reserved then ends with it.
pub proof fn room_is_used(a: ArenaView, size: int, align: int, at: int)
    requires
        a.wf(),
        size > 0,
        align > 0,
    ensures
        at % align == 0 && a.base + a.head <= at && at + size <= a.base + a.bytes.len() ==> a.has_room(size, align)
            && a.next_addr(align) <= at,
        a.has_room(size, align) ==> a.next_addr(align) % align == 0 && a.base + a.head <= a.next_addr(align)
            && a.next_addr(align) + size <= a.base + a.bytes.len(),
        a.base + a.reserve(size, align).head == a.next_addr(align) + size,
        a.reserve(size, align).bytes == a.bytes,
        a.reserve(size, align).base == a.base,
{
    align_up_is_least(a.base + a.head, align, at);
}

/// A span is the bytes of the region from its address on.
pub proof fn spans_are_parts(a: ArenaView, span: Span, i: int)
    requires
        a.wf(),
        a.holds(span),
        0 <= i < span.len,
    ensures
        a.at(span).len() == span.len,
        a.at(span)[i] == a.bytes[span.addr - a.base + i],
        span.addr + span.len <= a.base + a.head,
        a.base <= span.addr,
{
}

/// The bump allocator.
pub struct Arena {
    base: usize,
    bytes: Region,
    align: usize,
    head: usize,
}

impl View for Arena {
    type V = ArenaView;

    closed spec fn view(&self) -> ArenaView {
        ArenaView { base: self.base as int, bytes: self.bytes@, head: self.head as int }
    }
}

impl Arena {
    /// The arena is well formed.
    pub closed spec fn wf(&self) -> bool {
        self@.wf() && self.bytes.wf() && self.base as int % self.align as int == 0
    }

    /// The alignment of the region.
    pub closed spec fn alignment(&self) -> usize {
        self.align
    }

    /// The region.
    pub closed spec fn region(&self) -> Region {
        self.bytes
    }

    /// A well-formed arena has a well-formed state.
    pub proof fn lemma_wf(&self)
        requires
            self.wf(),
        ensures
            self@.wf(),
    {
    }

    /// An arena of `cap` bytes, rounded up to a multiple of `align`, a power of two, to which its
    /// region is aligned.
    pub fn with_capacity(cap: usize, align: usize) -> (r: Self)
        requires
            cap > 0,
            pow2::is_pow2(align as int),
            align > 0,
            cap + align - 1 <= isize::MAX,
        ensures
            r.wf(),
            r.alignment() == align,
            r@.base % align as int == 0,
            r.region().aligned(align as int),
            ({
                let addr = r.region().addr();
                0 < addr && addr % align as int == 0 && addr + r@.bytes.len() <= usize::MAX ==> r@.base == addr
            }),
            r@.bytes.len() == align_up(cap as int, align as int),
            r@.head == 0,
    {
        proof {
            vstd::arithmetic::div_mod::lemma_mod_self_0(align as int);
            align_up_is_least(cap as int, align as int, 0);
        }
        let rem: usize = cap % align;
        let pad: usize = if rem == 0 { 0 } else { align - rem };
        let bytes = Region::new(cap + pad, align);
        // Memory that cannot be aligned is given addresses as if it were.
        let base: usize = match bytes.address() {
            Some(addr) if addr > 0 && addr % align == 0 && addr <= usize::MAX - (cap + pad) => addr,
            _ => align,
        };
        Arena { base, bytes, align, head: 0 }
    }

    /// Reserves `size` bytes aligned to `align` and returns their address, or `None` where they
    /// do not fit. A request for no bytes is answered with the region's address.
    pub fn alloc_raw(&mut self, size: usize, align: usize) -> (r: Option<usize>)
        requires
            old(self).wf(),
            align > 0,
            pow2::is_pow2(align as int),
        ensures
            final(self).wf(),
            final(self).alignment() == old(self).alignment(),
            size == 0 ==> r == Some(old(self)@.base as usize) && final(self)@ == old(self)@,
            size > 0 && old(self)@.has_room(size as int, align as int) ==> r == Some(
                old(self)@.next_addr(align as int) as usize,
            ) && r->0 == old(self)@.next_addr(align as int) && final(self)@ == old(self)@.reserve(
                size as int,
                align as int,
            ),
            size > 0 && !old(self)@.has_room(size as int, align as int) ==> r is None && final(self)@ == old(self)@,
    {
        if size == 0 {
            return Some(self.base);
        }
        let start: usize = self.base + self.head;
        let rem: usize = start % align;
        let pad: usize = if rem == 0 { 0 } else { align - rem };
        proof {
            align_up_is_least(start as int, align as int, 0);
        }
        let padded: usize = match self.head.checked_add(pad) {
            Some(v) => v,
            None => return None,
        };
        let new_head: usize = match padded.checked_add(size) {
            Some(v) => v,
            None => return None,
        };
        if new_head > self.bytes.len() {
            return None;
        }
        self.head = new_head;
        Some(start + pad)
    }

    /// Copies `bytes` into the arena and returns where they are, or `None` where they do not fit.
    pub fn push_span(&mut self, bytes: &[u8]) -> (r: Option<Span>)
        requires
            old(self).wf(),
        ensures
            final(self).wf(),
            final(self).alignment() == old(self).alignment(),
            r is Some <==> old(self)@.head + bytes@.len() <= old(self)@.bytes.len(),
            r is None ==> final(self)@ == old(self)@,
            r is Some ==> {
                &&& r->0.len == bytes@.len()
                &&& r->0.addr == (if bytes@.len() == 0 { old(self)@.base } else { old(self)@.base + old(self)@.head })
                &&& final(self)@.holds(r->0)
                &&& final(self)@.at(r->0) == bytes@
                &&& final(self)@.base == old(self)@.base
                &&& final(self)@.bytes.len() == old(self)@.bytes.len()
                &&& final(self)@.head == old(self)@.head + bytes@.len()
            },
            forall|s: Span| #[trigger]
                old(self)@.holds(s) ==> final(self)@.holds(s) && final(self)@.at(s) == old(self)@.at(s),
    {
        proof {
            vstd::arithmetic::power2::lemma2_to64();
            assert(pow2::is_pow2(1));
        }
        let addr: usize = match self.alloc_raw(bytes.len(), 1) {
            Some(a) => a,
            None => return None,
        };
        let off: usize = addr - self.base;
        let ghost region = self.bytes@;
        let mut i: usize = 0;
        while i < bytes.len()
            invariant
                i <= bytes@.len(),
                off + bytes@.len() <= self.bytes@.len(),
                self.bytes.wf(),
                self.bytes@.len() == region.len(),
                self.base == old(self).base,
                self.align == old(self).align,
                self.head == old(self).head + bytes@.len(),
                forall|j: int| 0 <= j < region.len() && !(off <= j < off + i) ==> self.bytes@[j] == region[j],
                forall|j: int| off <= j < off + i ==> self.bytes@[j] == bytes@[j - off],
            decreases bytes@.len() - i,
        {
            proof {
                self.bytes.lemma_len();
            }
            self.bytes.set(off + i, bytes[i]);
            i += 1;
        }
        let span = Span { addr, len: bytes.len() };
        proof {
            assert(self@.at(span) =~= bytes@);
            assert forall|s: Span| #[trigger] old(self)@.holds(s) implies self@.holds(s) && self@.at(s) == old(self)@.at(s) by {
                assert(self@.at(s) =~= old(self)@.at(s));
            }
        }
        Some(span)
    }

    /// Copies `bytes` into the arena and borrows them there, or returns `None` where they do not
    /// fit.
    pub fn push_bytes(&mut self, bytes: &[u8]) -> (r: Option<&[u8]>)
        requires
            old(self).wf(),
        ensures
            final(self).wf(),
            r is Some <==> old(self)@.head + bytes@.len() <= old(self)@.bytes.len(),
            r is None ==> final(self)@ == old(self)@,
            r is Some ==> r->0@ == bytes@ && final(self)@.head == old(self)@.head + bytes@.len() && final(self)@.base
                == old(self)@.base && final(self)@.bytes.len() == old(self)@.bytes.len(),
            forall|s: Span| #[trigger]
                old(self)@.holds(s) ==> final(self)@.holds(s) && final(self)@.at(s) == old(self)@.at(s),
    {
        match self.push_span(bytes) {
            Some(span) => Some(self.slice(&span)),
            None => None,
        }
    }

    /// Borrows the bytes of a span.
    pub fn slice(&self, span: &Span) -> (r: &[u8])
        requires
            self.wf(),
            self@.holds(*span),
        ensures
            r@ == self@.at(*span),
    {
        let off: usize = span.addr - self.base;
        vstd::slice::slice_subrange(self.bytes.as_slice(), off, off + span.len)
    }

    /// The bytes reserved.
    pub fn used(&self) -> (n: usize)
        ensures
            n == self@.head,
    {
        self.head
    }

    /// The size of the region.
    pub fn capacity(&self) -> (n: usize)
        requires
            self.wf(),
        ensures
            n == self@.bytes.len(),
    {
        self.bytes.len()
    }

    /// Takes everything back at once.
    pub fn reset(&mut self)
        requires
            old(self).wf(),
        ensures
            final(self).wf(),
            final(self).alignment() == old(self).alignment(),
            final(self)@ == (ArenaView { head: 0, ..old(self)@ }),
    {
        self.head = 0;
    }
}

} // verus!
