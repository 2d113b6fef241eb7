//! A pool of buffers that are registered once and handed out by index, and the decisions of a
//! portable backend that reads into them and writes batches.
//!
//! All buffers are made at registration, each a whole number of pages that starts at a page. A
//! buffer that is handed out is not handed out again before it comes back, and it keeps what was
//! written to it.

use vstd::prelude::*;
use crate::group_commit;
use crate::mmap_log;
use crate::mmap_log::round_to_page;
use crate::region;
use crate::region::Region;

verus! {

/// The pool.
pub struct RegisteredBuffers {
    bufs: Vec<Option<Region>>,
    buf_len: usize,
    free: Vec<u16>,
}

/// A buffer that was handed out.
pub struct FixedBuf {
    index: u16,
    bytes: Region,
}

impl View for FixedBuf {
    type V = Seq<u8>;

    /// The bytes of the buffer.
    closed spec fn view(&self) -> Seq<u8> {
        self.bytes@
    }
}

impl FixedBuf {
    /// The number under which the buffer is registered.
    pub closed spec fn id(&self) -> u16 {
        self.index
    }

    /// The memory of the buffer.
    pub closed spec fn region(&self) -> Region {
        self.bytes
    }

    /// The buffer starts at a page.
    pub open spec fn wf(&self) -> bool {
        page_region(self.region())
    }

    /// The number under which the buffer is registered.
    pub fn index(&self) -> (r: u16)
        ensures
            r == self.id(),
    {
        self.index
    }

    /// The bytes.
    pub fn as_slice(&self) -> (r: &[u8])
        requires
            self.wf(),
        ensures
            r@ == self@,
    {
        self.bytes.as_slice()
    }

    /// The bytes, to be changed. There are as many of them afterwards.
    pub fn as_mut_slice(&mut self) -> (r: &mut [u8])
        requires
            old(self).wf(),
        ensures
            r@ == old(self)@,
            final(r)@.len() == old(self)@.len() ==> final(self).wf() && final(self)@ == final(r)@,
            final(self).id() == old(self).id(),
    {
        self.bytes.as_mut_slice()
    }
}

/// Memory that starts at a page.
pub open spec fn page_region(r: Region) -> bool {
    r.wf() && r.aligned(mmap_log::PAGE as int)
}

/// The length of the buffers for a wanted length: whole pages, and at least one.
pub open spec fn rounded_len(buf_len: int) -> int {
    mmap_log::page_rounded(if buf_len < 1 {
        1
    } else {
        buf_len
    })
}

impl RegisteredBuffers {
    /// The number of buffers.
    pub closed spec fn size(&self) -> nat {
        self.bufs@.len()
    }

    /// The length of each buffer.
    pub closed spec fn len(&self) -> nat {
        self.buf_len as nat
    }

    /// The buffers that can be handed out; the last is the next.
    pub closed spec fn free(&self) -> Seq<u16> {
        self.free@
    }

    /// What the buffer `i`, which can be handed out, holds.
    pub closed spec fn held(&self, i: u16) -> Seq<u8> {
        self.bufs@[i as int]->0@
    }

    /// The buffer `i` is handed out.
    pub open spec fn lent(&self, i: u16) -> bool {
        i < self.size() && !self.free().contains(i)
    }

    /// The free buffers are those that the pool holds, each once.
    pub closed spec fn wf(&self) -> bool {
        &&& 0 < self.bufs@.len() <= u16::MAX
        &&& self.free@.no_duplicates()
        &&& forall|k: int| 0 <= k < self.free@.len() ==> (#[trigger] self.free@[k]) < self.bufs@.len()
        &&& forall|i: u16|
            i < self.bufs@.len() ==> (#[trigger] self.bufs@[i as int] is Some <==> self.free@.contains(i))
        &&& forall|i: int|
            0 <= i < self.bufs@.len() && (#[trigger] self.bufs@[i]) is Some ==> self.bufs@[i]->0@.len() == self.buf_len
                && page_region(self.bufs@[i]->0)
    }

    /// Makes `count` buffers of `buf_len` bytes, rounded up to whole pages, all zero.
    pub fn register(count: usize, buf_len: usize) -> (r: Self)
        requires
            0 < count <= u16::MAX,
            buf_len + 4095 <= usize::MAX,
            count * rounded_len(buf_len as int) <= isize::MAX,
        ensures
            r.wf(),
            r.size() == count,
            r.len() == rounded_len(buf_len as int),
            r.free() == Seq::new(count as nat, |i: int| i as u16),
            forall|i: u16| i < count ==> #[trigger] r.held(i) == Seq::new(r.len(), |k: int| 0u8),
    {
        let wanted: usize = if buf_len < 1 {
            1
        } else {
            buf_len
        };
        proof {
            let l = rounded_len(buf_len as int);
            assert(l >= 1);
            assert(l <= count * l) by (nonlinear_arith)
                requires
                    count >= 1,
                    l >= 1,
            ;
        }
        let len: usize = round_to_page(wanted);
        let mut bufs: Vec<Option<Region>> = Vec::new();
        let mut free: Vec<u16> = Vec::new();
        let mut i: usize = 0;
        while i < count
            invariant
                i <= count <= u16::MAX,
                bufs@.len() == i,
                free@.len() == i,
                forall|k: int| 0 <= k < i ==> (#[trigger] free@[k]) == k,
                forall|k: int|
                    0 <= k < i ==> (#[trigger] bufs@[k]) is Some && bufs@[k]->0@ == Seq::new(len as nat, |b: int| 0u8)
                        && page_region(bufs@[k]->0),
                len <= isize::MAX,
            decreases count - i,
        {
            bufs.push(Some(Region::new(len, mmap_log::PAGE)));
            free.push(i as u16);
            i += 1;
        }
        let r = RegisteredBuffers { bufs, buf_len: len, free };
        proof {
            assert(r.free@ =~= Seq::new(count as nat, |i: int| i as u16));
            assert forall|i: u16| i < r.bufs@.len() implies (#[trigger] r.bufs@[i as int] is Some
                <==> r.free@.contains(i)) by {
                assert(r.free@[i as int] == i);
            }
        }
        r
    }

    /// Hands a free buffer out; `None` where there is none. The buffer was not handed out
    /// before, so it is none of those that are.
    pub fn acquire(&mut self) -> (r: Option<FixedBuf>)
        requires
            old(self).wf(),
        ensures
            final(self).wf(),
            final(self).size() == old(self).size(),
            final(self).len() == old(self).len(),
            r is None <==> old(self).free().len() == 0,
            r is None ==> *final(self) == *old(self),
            r is Some ==> {
                let b = r->0;
                &&& b.id() == old(self).free().last()
                &&& !old(self).lent(b.id())
                &&& final(self).lent(b.id())
                &&& b.wf()
                &&& b@ == old(self).held(b.id())
                &&& b@.len() == old(self).len()
                &&& final(self).free() == old(self).free().drop_last()
                &&& forall|i: u16| final(self).free().contains(i) ==> #[trigger] final(self).held(i) == old(self).held(i)
            },
    {
        if self.free.len() == 0 {
            return None;
        }
        let ghost f = self.free@;
        match self.free.pop() {
            None => None,
            Some(index) => {
                proof {
                    assert(f[f.len() - 1] == index);
                    assert(f.contains(index));
                    assert(self.bufs@[index as int] is Some);
                    assert(self.free@ =~= f.drop_last());
                }
                let mut slot: Option<Region> = None;
                std::mem::swap(&mut slot, &mut self.bufs[index as usize]);
                proof {
                    assert forall|i: u16| i < self.bufs@.len() implies (#[trigger] self.bufs@[i as int] is Some
                        <==> self.free@.contains(i)) by {
                        assert(old(self).bufs@[i as int] is Some <==> f.contains(i));
                        if f.contains(i) && i != index {
                            let k = choose|k: int| 0 <= k < f.len() && f[k] == i;
                            assert(self.free@[k] == i);
                        }
                        if self.free@.contains(i) {
                            let k = choose|k: int| 0 <= k < self.free@.len() && self.free@[k] == i;
                            assert(f[k] == i);
                            assert(f[f.len() - 1] == index);
                        }
                    }
                    assert forall|i: u16| self.free@.contains(i) implies #[trigger] self.held(i) == old(self).held(i) by {
                        let k = choose|k: int| 0 <= k < self.free@.len() && self.free@[k] == i;
                        assert(f[k] == i);
                    }
                    assert(!self.free@.contains(index)) by {
                        if self.free@.contains(index) {
                            let k = choose|k: int| 0 <= k < self.free@.len() && self.free@[k] == index;
                            assert(f[k] == index);
                        }
                    }
                }
                match slot {
                    Some(bytes) => Some(FixedBuf { index, bytes }),
                    None => None,
                }
            },
        }
    }

    /// Takes a buffer back.
    pub fn release(&mut self, buf: FixedBuf)
        requires
            old(self).wf(),
            old(self).lent(buf.id()),
            buf.wf(),
            buf@.len() == old(self).len(),
        ensures
            final(self).wf(),
            final(self).size() == old(self).size(),
            final(self).len() == old(self).len(),
            final(self).free() == old(self).free().push(buf.id()),
            final(self).held(buf.id()) == buf@,
            forall|i: u16| old(self).free().contains(i) ==> #[trigger] final(self).held(i) == old(self).held(i),
    {
        let FixedBuf { index, bytes } = buf;
        let ghost f = self.free@;
        self.bufs[index as usize] = Some(bytes);
        self.free.push(index);
        proof {
            assert forall|i: u16| i < self.bufs@.len() implies (#[trigger] self.bufs@[i as int] is Some
                <==> self.free@.contains(i)) by {
                assert(old(self).bufs@[i as int] is Some <==> f.contains(i));
                if f.contains(i) {
                    let k = choose|k: int| 0 <= k < f.len() && f[k] == i;
                    assert(self.free@[k] == i);
                }
                if i == index {
                    assert(self.free@[f.len() as int] == i);
                }
                if self.free@.contains(i) && i != index {
                    let k = choose|k: int| 0 <= k < self.free@.len() && self.free@[k] == i;
                    assert(f[k] == i);
                }
            }
            assert(self.free@.no_duplicates()) by {
                assert forall|a: int, b: int| 0 <= a < self.free@.len() && 0 <= b < self.free@.len() && a != b
                    implies self.free@[a] != self.free@[b] by {
                    if a == f.len() {
                        assert(f.contains(f[b]));
                    } else if b == f.len() {
                        assert(f.contains(f[a]));
                    }
                }
            }
        }
    }

    /// The buffers are those that can be handed out and those that are.
    pub proof fn buffers_are_conserved(&self)
        requires
            self.wf(),
        ensures
            Set::new(|i: int| 0 <= i < self.size() && self.lent(i as u16)).finite(),
            Set::new(|i: int| 0 <= i < self.size() && self.lent(i as u16)).len() + self.free().len() == self.size(),
    {
        let n = self.size() as int;
        let lent = Set::new(|i: int| 0 <= i < self.size() && self.lent(i as u16));
        let free = self.free().map_values(|i: u16| i as int);
        assert(free.no_duplicates()) by {
            assert forall|a: int, b: int| 0 <= a < free.len() && 0 <= b < free.len() && a != b implies free[a]
                != free[b] by {
                assert(self.free()[a] != self.free()[b]);
            }
        }
        free.unique_seq_to_set();
        vstd::set_lib::lemma_int_range(0, n);
        let all = vstd::set_lib::set_int_range(0, n);
        assert(free.to_set().subset_of(all)) by {
            assert forall|x: int| free.to_set().contains(x) implies all.contains(x) by {
                let k = choose|k: int| 0 <= k < free.len() && free[k] == x;
                assert(self.free@[k] < self.bufs@.len());
            }
        }
        assert(all.difference(free.to_set()) =~= lent) by {
            assert forall|x: int| 0 <= x < n implies (free.to_set().contains(x) <==> self.free().contains(x as u16)) by {
                if free.to_set().contains(x) {
                    let k = choose|k: int| 0 <= k < free.len() && free[k] == x;
                    assert(self.free()[k] == x as u16);
                }
                if self.free().contains(x as u16) {
                    let k = choose|k: int| 0 <= k < self.free().len() && self.free()[k] == x as u16;
                    assert(free[k] == x);
                }
            }
        }
        assert(all.intersect(free.to_set()) =~= free.to_set());
        vstd::set_lib::lemma_set_difference_len(all, free.to_set());
    }

    /// The number of buffers.
    pub fn count(&self) -> (r: usize)
        ensures
            r == self.size(),
    {
        self.bufs.len()
    }

    /// The length of each buffer.
    pub fn buf_len(&self) -> (r: usize)
        ensures
            r == self.len(),
    {
        self.buf_len
    }

    /// The number of buffers that can be handed out.
    pub fn available(&self) -> (r: usize)
        ensures
            r == self.free().len(),
    {
        self.free.len()
    }
}

/// The decisions of a backend that reads and writes at positions of a file.
#[derive(Clone, Copy)]
pub struct PortableBackend;

impl PortableBackend {
    /// How much of a buffer a read of `len` bytes may fill.
    pub fn read_window(&self, buf: &FixedBuf, len: usize) -> (r: usize)
        requires
            buf.wf(),
        ensures
            r == (if len <= buf@.len() {
                len as int
            } else {
                buf@.len() as int
            }),
    {
        let n: usize = buf.as_slice().len();
        if len <= n {
            len
        } else {
            n
        }
    }

    /// Starts the write of some buffers at `offset`.
    pub fn write_vectored(&self, offset: u64, bufs: &Vec<Vec<u8>>) -> (r: VectoredWrite)
        requires
            offset + joined_bytes(bufs@).len() <= u64::MAX,
        ensures
            r.wf(bufs@),
            r.offset() == offset,
            r.done() == 0,
    {
        let r = VectoredWrite { index: 0, within: 0, pos: offset, total: 0, offset: Ghost(offset as int) };
        assert(parts(bufs@).take(0) =~= Seq::<Seq<u8>>::empty());
        r
    }
}

/// A write that came to nothing.
#[derive(Clone, Copy, PartialEq, Eq, Structural, Debug)]
pub enum WriteError {
    /// The file took no byte of what was left.
    WriteZero,
}

/// The bytes of each buffer.
pub open spec fn parts(bufs: Seq<Vec<u8>>) -> Seq<Seq<u8>> {
    Seq::new(bufs.len(), |i: int| bufs[i]@)
}

/// The bytes of the buffers, one after the other.
pub open spec fn joined_bytes(bufs: Seq<Vec<u8>>) -> Seq<u8> {
    group_commit::joined(parts(bufs))
}

/// A write of several buffers that goes on until the file has taken all of it.
pub struct VectoredWrite {
    index: usize,
    within: usize,
    pos: u64,
    total: u64,
    offset: Ghost<int>,
}

/// The next piece to write: the part of buffer `index` from `from` on, at position `pos`.
pub struct Piece {
    pub index: usize,
    pub from: usize,
    pub pos: u64,
}

impl VectoredWrite {
    /// Where the write started.
    pub closed spec fn offset(&self) -> int {
        self.offset@
    }

    /// How many bytes are written.
    pub closed spec fn done(&self) -> int {
        self.total as int
    }

    /// The position is that of the bytes that are left.
    pub closed spec fn wf(&self, bufs: Seq<Vec<u8>>) -> bool {
        &&& self.index <= bufs.len()
        &&& self.index < bufs.len() ==> self.within <= bufs[self.index as int]@.len()
        &&& self.index == bufs.len() ==> self.within == 0
        &&& self.total == group_commit::joined(parts(bufs).take(self.index as int)).len() + self.within
        &&& self.pos == self.offset@ + self.total
        &&& self.offset@ >= 0
        &&& self.offset@ + joined_bytes(bufs).len() <= u64::MAX
    }

    /// The next piece to write; `None` when all is written.
    pub fn next(&mut self, bufs: &Vec<Vec<u8>>) -> (r: Option<Piece>)
        requires
            old(self).wf(bufs@),
        ensures
            final(self).wf(bufs@),
            final(self).offset() == old(self).offset(),
            final(self).done() == old(self).done(),
            r is None <==> old(self).done() == joined_bytes(bufs@).len(),
            r is Some ==> final(self).at(bufs@, r->0),
    {
        proof {
            self.lemma_bounds(bufs@);
        }
        while self.index < bufs.len() && self.within == bufs[self.index].len()
            invariant
                self.wf(bufs@),
                self.offset() == old(self).offset(),
                self.done() == old(self).done(),
            decreases bufs@.len() - self.index,
        {
            proof {
                let s = parts(bufs@);
                let i = self.index as int;
                assert(s.take(i + 1).drop_last() =~= s.take(i));
                assert(s.take(i + 1).last() == bufs@[i]@);
            }
            self.index = self.index + 1;
            self.within = 0;
        }
        proof {
            self.lemma_bounds(bufs@);
        }
        if self.index < bufs.len() {
            Some(Piece { index: self.index, from: self.within, pos: self.pos })
        } else {
            assert(parts(bufs@).take(self.index as int) =~= parts(bufs@));
            None
        }
    }

    /// `p` is the piece that comes next: it is not empty, and it is what the bytes as a whole
    /// have after those that are written.
    pub closed spec fn at(&self, bufs: Seq<Vec<u8>>, p: Piece) -> bool {
        let all = joined_bytes(bufs);
        &&& p.index < bufs.len()
        &&& p.from < bufs[p.index as int]@.len()
        &&& p.pos == self.offset() + self.done()
        &&& bufs[p.index as int]@.skip(p.from as int) == all.subrange(
            self.done(),
            self.done() + bufs[p.index as int]@.len() - p.from,
        )
        &&& self.done() + bufs[p.index as int]@.len() - p.from <= all.len()
        &&& self.index == p.index
        &&& self.within == p.from
    }

    /// What the piece that comes next is.
    pub proof fn lemma_at(&self, bufs: Seq<Vec<u8>>, p: Piece)
        requires
            self.at(bufs, p),
        ensures
            ({
                let all = joined_bytes(bufs);
                let left = bufs[p.index as int]@.len() - p.from;
                &&& p.index < bufs.len()
                &&& left > 0
                &&& p.pos == self.offset() + self.done()
                &&& self.done() + left <= all.len()
                &&& bufs[p.index as int]@.skip(p.from as int) == all.subrange(self.done(), self.done() + left)
            }),
    {
    }

    proof fn lemma_bounds(&self, bufs: Seq<Vec<u8>>)
        requires
            self.wf(bufs),
        ensures
            self.index < bufs.len() ==> {
                let left = bufs[self.index as int]@.len() - self.within;
                let all = joined_bytes(bufs);
                &&& self.total + left <= all.len()
                &&& bufs[self.index as int]@.skip(self.within as int) == all.subrange(
                    self.total as int,
                    self.total + left,
                )
            },
    {
        if self.index < bufs.len() {
            let s = parts(bufs);
            let i = self.index as int;
            group_commit::joined_splits(s, i + 1);
            assert(s.take(i + 1).drop_last() =~= s.take(i));
            assert(s.take(i + 1).last() == bufs[i]@);
            let left = bufs[i]@.len() - self.within;
            assert(bufs[i]@.skip(self.within as int) =~= joined_bytes(bufs).subrange(
                self.total as int,
                self.total + left,
            ));
        }
    }

    /// Notes that the file took the first `n` bytes of the piece.
    pub fn wrote(&mut self, bufs: &Vec<Vec<u8>>, piece: &Piece, n: usize) -> (r: Result<(), WriteError>)
        requires
            old(self).wf(bufs@),
            old(self).at(bufs@, *piece),
            n <= bufs@[piece.index as int]@.len() - piece.from,
        ensures
            final(self).wf(bufs@),
            final(self).offset() == old(self).offset(),
            n == 0 <==> r == Err::<(), WriteError>(WriteError::WriteZero),
            r is Ok ==> final(self).done() == old(self).done() + n,
            r is Err ==> *final(self) == *old(self),
    {
        if n == 0 {
            return Err(WriteError::WriteZero);
        }
        proof {
            self.lemma_bounds(bufs@);
            assert(bufs@[piece.index as int].len() <= usize::MAX);
        }
        self.within = self.within + n;
        self.total = self.total + n as u64;
        self.pos = self.pos + n as u64;
        Ok(())
    }

    /// The number of bytes that are written.
    pub fn total(&self) -> (r: u64)
        ensures
            r == self.done(),
    {
        self.total
    }
}

/// Whatever number of bytes the file takes of each piece, what it holds is the buffers one after
/// the other, as far as they are written.
pub proof fn pieces_join(base: Seq<u8>, offset: int, all: Seq<u8>, done: int, n: int)
    requires
        0 <= offset,
        0 <= done,
        0 <= n,
        done + n <= all.len(),
    ensures
        group_commit::written(
            group_commit::written(base, offset, all.take(done)),
            offset + done,
            all.subrange(done, done + n),
        ) == group_commit::written(base, offset, all.take(done + n)),
{
    let file = group_commit::written(base, offset, all.take(done));
    let part = all.subrange(done, done + n);
    assert(all.take(done + n) =~= all.take(done) + part);
    assert(group_commit::written(file, offset + done, part) =~= group_commit::written(base, offset, all.take(done + n)));
}

/// The length of a buffer is the smallest whole number of pages, at least one, that is large
/// enough.
pub proof fn buffer_lengths_are_least(n: int, m: int)
    requires
        0 <= n,
    ensures
        n <= rounded_len(n),
        0 < rounded_len(n),
        rounded_len(n) % 4096 == 0,
        m % 4096 == 0 && m >= n && m >= 1 ==> m >= rounded_len(n),
{
    mmap_log::page_rounding_is_least(if n < 1 {
        1
    } else {
        n
    }, m);
}

/// What is written is every byte of every buffer, in order: buffer `i` stands where the lengths of
/// those before it put it, however many there are.
pub proof fn every_buffer_is_written(bufs: Seq<Vec<u8>>, i: int)
    requires
        0 <= i < bufs.len(),
    ensures
        ({
            let at = joined_bytes(bufs.take(i)).len() as int;
            &&& at + bufs[i]@.len() <= joined_bytes(bufs).len()
            &&& joined_bytes(bufs).subrange(at, at + bufs[i]@.len()) == bufs[i]@
            &&& joined_bytes(bufs.take(i + 1)).len() == at + bufs[i]@.len()
            &&& joined_bytes(bufs.take(0)).len() == 0
            &&& joined_bytes(bufs.take(bufs.len() as int)) == joined_bytes(bufs)
        }),
{
    let s = parts(bufs);
    group_commit::joined_records_stand(s, i);
    assert(parts(bufs.take(i)) =~= s.take(i));
    assert(parts(bufs.take(i + 1)) =~= s.take(i + 1));
    assert(parts(bufs.take(0)) =~= s.take(0));
    assert(bufs.take(bufs.len() as int) =~= bufs);
}

/// A piece that comes next lies in the file right behind what is written, and holds the bytes that
/// come next.
pub proof fn pieces_continue_the_write(w: VectoredWrite, bufs: Seq<Vec<u8>>, p: Piece, k: int)
    requires
        w.at(bufs, p),
        0 <= k < bufs[p.index as int]@.len() - p.from,
    ensures
        p.index < bufs.len(),
        p.pos == w.offset() + w.done(),
        0 <= w.done() ==> w.done() + k < joined_bytes(bufs).len(),
        0 <= w.done() ==> joined_bytes(bufs)[w.done() + k] == bufs[p.index as int]@[p.from + k],
{
    w.lemma_at(bufs, p);
    let rest = bufs[p.index as int]@.skip(p.from as int);
    let all = joined_bytes(bufs);
    assert(rest[k] == bufs[p.index as int]@[p.from + k]);
    if 0 <= w.done() {
        assert(rest[k] == all.subrange(w.done(), w.done() + bufs[p.index as int]@.len() - p.from)[k]);
    }
}

/// A buffer starts at a page, so that a device can take it as it lies.
pub proof fn buffers_start_at_pages(buf: FixedBuf)
    requires
        buf.wf(),
        buf@.len() + 4095 <= isize::MAX,
    ensures
        buf.region().addr() % 4096 == 0,
        buf.region()@ == buf@,
{
    region::aligned_bytes_start_at_multiples(buf.region(), 4096);
}

} // verus!
