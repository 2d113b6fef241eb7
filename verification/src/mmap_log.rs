//! The write-ahead log: an append-only region of fixed size with an index of its records.
//!
//! The region is allocated once, in whole pages that start at a multiple of the page size, and
//! filled from the front. A record is a span of the region, so it is read where it was written.
//! Opening loads what the log file holds; flushing hands out the bytes that the file is to hold.

use vstd::prelude::*;
use crate::group_commit;
use crate::region;
use crate::region::Region;

verus! {

/// The page size: the region is a whole number of pages.
pub const PAGE: usize = 4096;

/// `n` rounded up to a whole number of pages.
pub open spec fn page_rounded(n: int) -> int {
    (n + 4095) / 4096 * 4096
}

/// Rounds up to a whole number of pages.
pub fn round_to_page(n: usize) -> (r: usize)
    requires
        page_rounded(n as int) <= usize::MAX,
        n + 4095 <= usize::MAX,
    ensures
        r == page_rounded(n as int),
        n <= r < n + 4096,
        r % 4096 == 0,
{
    let m: usize = n + (PAGE - 1);
    m / PAGE * PAGE
}

/// What a log holds: its capacity, the bytes written, and the records among them.
pub struct LogView {
    pub capacity: nat,
    pub contents: Seq<u8>,
    pub records: Seq<Seq<u8>>,
}

/// The part of a file's bytes that a log of `capacity` bytes loads.
pub open spec fn loaded(file: Seq<u8>, capacity: nat) -> Seq<u8> {
    if file.len() <= capacity {
        file
    } else {
        file.take(capacity as int)
    }
}

impl LogView {
    /// There is room for `n` more bytes.
    pub open spec fn has_room(self, n: nat) -> bool {
        self.contents.len() + n <= self.capacity
    }

    /// One record more.
    pub open spec fn append(self, bytes: Seq<u8>) -> LogView {
        LogView { contents: self.contents + bytes, records: self.records.push(bytes), ..self }
    }
}

/// The append-only log.
pub struct MappedLog {
    region: Region,
    len: usize,
    spans: Vec<(usize, usize)>,
}

impl View for MappedLog {
    type V = LogView;

    closed spec fn view(&self) -> LogView {
        LogView {
            capacity: self.region@.len(),
            contents: self.region@.take(self.len as int),
            records: Seq::new(self.spans@.len(), |i: int| span_bytes(self.region@, self.spans@[i])),
        }
    }
}

/// The bytes of a span: it is given by its start and its length.
pub open spec fn span_bytes(region: Seq<u8>, span: (usize, usize)) -> Seq<u8> {
    region.subrange(span.0 as int, span.0 + span.1)
}

impl MappedLog {
    /// The bytes written fit, and every record lies among them.
    pub closed spec fn wf(&self) -> bool {
        &&& self.region.wf()
        &&& self.region.aligned(PAGE as int)
        &&& self.len <= self.region@.len()
        &&& forall|i: int|
            0 <= i < self.spans@.len() ==> (#[trigger] self.spans@[i]).0 + self.spans@[i].1 <= self.len
    }

    /// The region.
    pub closed spec fn region(&self) -> Region {
        self.region
    }

    /// The region starts at a page.
    pub open spec fn starts_at_page(&self) -> bool {
        self.region().aligned(PAGE as int)
    }

    /// Opens a log of `cap` bytes, rounded up to a page, over a file that holds `existing`.
    /// What of that fits is loaded; it is replay material and counts as no record.
    pub fn open(existing: &[u8], cap: usize) -> (r: Self)
        requires
            page_rounded(cap as int) <= isize::MAX,
        ensures
            r.wf(),
            r@.capacity == page_rounded(cap as int),
            r@.contents == loaded(existing@, r@.capacity),
            r@.contents.len() == (if existing@.len() <= r@.capacity { existing@.len() } else { r@.capacity }),
            r@.contents == existing@.take(r@.contents.len() as int),
            cap <= r@.capacity < cap + 4096,
            r@.capacity % 4096 == 0,
            r@.records == Seq::<Seq<u8>>::empty(),
            r.starts_at_page(),
    {
        let cap: usize = round_to_page(cap);
        let mut region = Region::new(cap, PAGE);
        let len: usize = if existing.len() < cap { existing.len() } else { cap };
        let mut i: usize = 0;
        while i < len
            invariant
                i <= len,
                len <= existing@.len(),
                len <= region@.len(),
                region.wf(),
                region.aligned(PAGE as int),
                region@.len() == cap,
                forall|j: int| 0 <= j < i ==> region@[j] == existing@[j],
            decreases len - i,
        {
            region.set(i, existing[i]);
            i += 1;
        }
        let r = MappedLog { region, len, spans: Vec::new() };
        proof {
            assert(r@.contents =~= loaded(existing@, cap as nat));
            assert(r@.records =~= Seq::<Seq<u8>>::empty());
        }
        r
    }

    /// Appends `bytes` and returns the number of the record, or `None` where the region has no
    /// room for it.
    pub fn append(&mut self, bytes: &[u8]) -> (r: Option<usize>)
        requires
            old(self).wf(),
        ensures
            final(self).wf(),
            final(self).starts_at_page(),
            old(self)@.has_room(bytes@.len()) ==> r == Some(old(self)@.records.len() as usize) && r->0 == old(
                self,
            )@.records.len() && final(self)@ == old(self)@.append(bytes@),
            !old(self)@.has_room(bytes@.len()) ==> r is None && final(self)@ == old(self)@,
            r is Some <==> old(self)@.contents.len() + bytes@.len() <= old(self)@.capacity,
            r is Some ==> final(self)@.contents == old(self)@.contents + bytes@ && final(self)@.records == old(
                self,
            )@.records.push(bytes@),
            final(self)@.capacity == old(self)@.capacity,
    {
        if bytes.len() > self.region.len() - self.len {
            return None;
        }
        let start: usize = self.len;
        let mut i: usize = 0;
        while i < bytes.len()
            invariant
                i <= bytes@.len(),
                start == self.len,
                start == old(self).len,
                self.spans == old(self).spans,
                self.region.wf(),
                self.region.aligned(PAGE as int),
                start + bytes@.len() <= self.region@.len(),
                self.region@.len() == old(self).region@.len(),
                forall|j: int| 0 <= j < start ==> self.region@[j] == old(self).region@[j],
                forall|j: int| start <= j < start + i ==> self.region@[j] == bytes@[j - start],
            decreases bytes@.len() - i,
        {
            proof {
                self.region.lemma_len();
            }
            self.region.set(start + i, bytes[i]);
            i += 1;
        }
        self.spans.push((start, bytes.len()));
        self.len = start + bytes.len();
        proof {
            assert(self@.contents =~= old(self)@.contents + bytes@);
            assert forall|k: int| 0 <= k < old(self).spans@.len() implies span_bytes(self.region@, #[trigger] self.spans@[k])
                == span_bytes(old(self).region@, old(self).spans@[k]) by {
                assert(span_bytes(self.region@, self.spans@[k]) =~= span_bytes(old(self).region@, old(self).spans@[k]));
            }
            assert(span_bytes(self.region@, (start, bytes.len())) =~= bytes@);
            assert(self@.records =~= old(self)@.records.push(bytes@));
        }
        Some(self.spans.len() - 1)
    }

    /// The record with number `index`, borrowed from the region.
    pub fn record(&self, index: usize) -> (r: Option<&[u8]>)
        requires
            self.wf(),
        ensures
            r is Some <==> index < self@.records.len(),
            r is Some ==> r->0@ == self@.records[index as int],
    {
        if index >= self.spans.len() {
            return None;
        }
        let (start, len) = self.spans[index];
        Some(vstd::slice::slice_subrange(self.region.as_slice(), start, start + len))
    }

    /// The bytes that the log file is to hold from its start.
    pub fn flush(&self) -> (bytes: &[u8])
        requires
            self.wf(),
        ensures
            bytes@ == self@.contents,
    {
        vstd::slice::slice_subrange(self.region.as_slice(), 0, self.len)
    }

    /// The number of bytes written.
    pub fn len(&self) -> (n: usize)
        requires
            self.wf(),
        ensures
            n == self@.contents.len(),
    {
        self.len
    }

    /// The capacity in bytes.
    pub fn capacity(&self) -> (n: usize)
        requires
            self.wf(),
        ensures
            n == self@.capacity,
    {
        self.region.len()
    }

    /// Whether nothing has been written.
    pub fn is_empty(&self) -> (r: bool)
        requires
            self.wf(),
        ensures
            r == (self@.contents.len() == 0),
    {
        self.len == 0
    }
}

/// A log that is flushed to a file and opened again from it, at the capacity that it had or
/// more, holds the bytes that it held.
pub proof fn reopening_restores(log: LogView, capacity: nat)
    requires
        log.contents.len() <= log.capacity <= capacity,
    ensures
        loaded(log.contents, capacity) == log.contents,
{
}

/// Appending keeps every earlier record, under its number.
pub proof fn appending_keeps_records(log: LogView, bytes: Seq<u8>, i: int)
    requires
        0 <= i < log.records.len(),
    ensures
        log.append(bytes).records[i] == log.records[i],
        log.append(bytes).records[log.records.len() as int] == bytes,
{
}

/// Rounding to pages gives the smallest whole number of pages that is large enough.
pub proof fn page_rounding_is_least(n: int, m: int)
    requires
        0 <= n,
    ensures
        n <= page_rounded(n) < n + 4096,
        page_rounded(n) % 4096 == 0,
        m % 4096 == 0 && m >= n ==> m >= page_rounded(n),
{
}

/// A log takes a record exactly where the bytes that are left are enough for it, however much it
/// holds already. What it takes stands behind what it held.
pub proof fn room_is_what_is_left(log: LogView, bytes: Seq<u8>)
    ensures
        log.has_room(bytes.len()) <==> log.contents.len() + bytes.len() <= log.capacity,
        log.append(bytes).contents.len() == log.contents.len() + bytes.len(),
        log.append(bytes).contents.take(log.contents.len() as int) == log.contents,
        log.append(bytes).contents.skip(log.contents.len() as int) == bytes,
        log.append(bytes).capacity == log.capacity,
        log.append(bytes).records.len() == log.records.len() + 1,
{
    let c = log.append(bytes).contents;
    assert(c.take(log.contents.len() as int) =~= log.contents);
    assert(c.skip(log.contents.len() as int) =~= bytes);
}

/// The log after it was handed some records, of which it takes those for which it has room.
pub open spec fn handed(log: LogView, records: Seq<Seq<u8>>) -> LogView
    decreases records.len(),
{
    if records.len() == 0 {
        log
    } else {
        let before = handed(log, records.drop_last());
        if before.has_room(records.last().len()) {
            before.append(records.last())
        } else {
            before
        }
    }
}

/// A log takes all of some records that fit it together, in order.
pub proof fn records_that_fit_are_taken(log: LogView, records: Seq<Seq<u8>>)
    requires
        log.contents.len() + group_commit::joined(records).len() <= log.capacity,
    ensures
        handed(log, records).records == log.records + records,
        handed(log, records).contents == log.contents + group_commit::joined(records),
        handed(log, records).capacity == log.capacity,
    decreases records.len(),
{
    if records.len() == 0 {
        assert(log.records + records =~= log.records);
        assert(log.contents + group_commit::joined(records) =~= log.contents);
    } else {
        records_that_fit_are_taken(log, records.drop_last());
        let before = handed(log, records.drop_last());
        assert(before.append(records.last()).records =~= log.records + records);
        assert(before.append(records.last()).contents =~= log.contents + group_commit::joined(records));
    }
}

/// A log that is opened over a file holds the front of the file, as much of it as it has room for.
pub proof fn opening_loads_the_front(file: Seq<u8>, capacity: nat, i: int)
    ensures
        loaded(file, capacity).len() == (if file.len() <= capacity { file.len() } else { capacity }),
        0 <= i < file.len() && i < capacity ==> loaded(file, capacity)[i] == file[i],
{
}

/// The memory of a log starts at a page.
pub proof fn logs_start_at_pages(log: MappedLog)
    requires
        log.starts_at_page(),
        log.region()@.len() + 4095 <= isize::MAX,
    ensures
        log.region().addr() % 4096 == 0,
{
    region::aligned_bytes_start_at_multiples(log.region(), 4096);
}

} // verus!
