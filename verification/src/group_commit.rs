//! Group commit for a write-ahead log.
//!
//! Writers leave their records in a queue and wait; a batcher takes all records that have come
//! together in a short window, writes them in one go, and then releases their writers. The
//! queue is a stack, so the records of a batch come out in another order than they went in;
//! each carries a number, by which the batcher restores the order of submission.
//!
//! [`GroupCommitWal`] is the state between the writers and the batcher. A batch is taken with
//! [`GroupCommitWal::take_batch`], which says where in the file it goes, and handed back with
//! [`GroupCommitWal::commit`] with what came of the write. A writer learns that its record is
//! written only where the write of its batch succeeded.

use vstd::prelude::*;
use std::collections::BTreeMap;
use crate::executor::Poll;

verus! {

/// The handshake of one record: the waker of the writer that waits for it.
pub struct Completion {
    done: bool,
    waker: Option<u64>,
}

impl Completion {
    /// The waker, if one is left.
    pub closed spec fn waker(&self) -> Option<u64> {
        self.waker
    }

    /// The record is written.
    pub closed spec fn done(&self) -> bool {
        self.done
    }

    /// The handshake of a record that is not yet written.
    pub fn new() -> (r: Self)
        ensures
            !r.done(),
            r.waker() is None,
    {
        Completion { done: false, waker: None }
    }

    /// Leaves the waker of the writer, in place of an earlier one.
    pub fn register(&mut self, waker: u64)
        ensures
            final(self).done() == old(self).done(),
            final(self).waker() == Some(waker),
    {
        self.waker = Some(waker);
    }

    /// Marks the record as written and takes the waker that is to be called.
    pub fn signal(&mut self) -> (r: Option<u64>)
        ensures
            final(self).done(),
            final(self).waker() is None,
            r == old(self).waker(),
    {
        self.done = true;
        let w = self.waker;
        self.waker = None;
        w
    }
}

/// A record that waits to be written.
pub struct Pending {
    pub seq: u64,
    pub data: Vec<u8>,
}

/// Records in the order of their numbers.
pub open spec fn ascending(s: Seq<Pending>) -> bool {
    forall|i: int, j: int| 0 <= i < j < s.len() ==> (#[trigger] s[i]).seq <= (#[trigger] s[j]).seq
}

spec fn descending(s: Seq<Pending>) -> bool {
    forall|i: int, j: int| 0 <= i < j < s.len() ==> (#[trigger] s[i]).seq >= (#[trigger] s[j]).seq
}

/// No two records have the same number.
pub open spec fn numbered(s: Seq<Pending>) -> bool {
    forall|i: int, j: int| 0 <= i < j < s.len() ==> (#[trigger] s[i]).seq != (#[trigger] s[j]).seq
}

fn merge(first: Vec<Pending>, second: Vec<Pending>) -> (r: Vec<Pending>)
    requires
        ascending(first@),
        ascending(second@),
    ensures
        ascending(r@),
        r@.to_multiset() == first@.to_multiset().add(second@.to_multiset()),
{
    broadcast use vstd::seq_lib::group_to_multiset_ensures;

    let ghost all = first@.to_multiset().add(second@.to_multiset());
    let mut a = first;
    let mut b = second;
    let mut out: Vec<Pending> = Vec::new();
    assert(a@.to_multiset().add(b@.to_multiset()).add(out@.to_multiset()) =~= all);
    while a.len() > 0 || b.len() > 0
        invariant
            ascending(a@),
            ascending(b@),
            descending(out@),
            out@.len() > 0 && a@.len() > 0 ==> a@.last().seq <= out@.last().seq,
            out@.len() > 0 && b@.len() > 0 ==> b@.last().seq <= out@.last().seq,
            a@.to_multiset().add(b@.to_multiset()).add(out@.to_multiset()) == all,
        decreases a@.len() + b@.len(),
    {
        broadcast use vstd::seq_lib::group_to_multiset_ensures;

        let from_a = b.len() == 0 || (a.len() > 0 && a[a.len() - 1].seq > b[b.len() - 1].seq);
        let ghost a0 = a@;
        let ghost b0 = b@;
        let ghost out0 = out@;
        let taken = if from_a {
            a.pop()
        } else {
            b.pop()
        };
        match taken {
            Some(p) => {
                proof {
                    if from_a {
                        assert(a0 =~= a@.push(p));
                    } else {
                        assert(b0 =~= b@.push(p));
                    }
                }
                out.push(p);
                proof {
                    assert(a@.to_multiset().add(b@.to_multiset()).add(out@.to_multiset()) =~= all);
                }
            },
            None => {},
        }
    }
    let mut r: Vec<Pending> = Vec::new();
    assert(out@.to_multiset().add(r@.to_multiset()) =~= all);
    while out.len() > 0
        invariant
            descending(out@),
            ascending(r@),
            out@.len() > 0 && r@.len() > 0 ==> r@.last().seq <= out@.last().seq,
            out@.to_multiset().add(r@.to_multiset()) == all,
        decreases out@.len(),
    {
        broadcast use vstd::seq_lib::group_to_multiset_ensures;

        let ghost out0 = out@;
        match out.pop() {
            Some(p) => {
                assert(out0 =~= out@.push(p));
                r.push(p);
                assert(out@.to_multiset().add(r@.to_multiset()) =~= all);
            },
            None => {},
        }
    }
    assert(r@.to_multiset() =~= all);
    r
}

/// Sorts records by their numbers.
pub fn sort_by_seq(records: Vec<Pending>) -> (r: Vec<Pending>)
    ensures
        ascending(r@),
        r@.to_multiset() == records@.to_multiset(),
    decreases records@.len(),
{
    broadcast use vstd::seq_lib::group_to_multiset_ensures;

    let mut left = records;
    if left.len() <= 1 {
        return left;
    }
    let half: usize = left.len() / 2;
    let right = left.split_off(half);
    proof {
        assert(records@ =~= left@ + right@);
        vstd::seq_lib::lemma_multiset_commutative(left@, right@);
    }
    let a = sort_by_seq(left);
    let b = sort_by_seq(right);
    merge(a, b)
}

/// There is only one order of records by their numbers.
pub proof fn order_is_unique(a: Seq<Pending>, b: Seq<Pending>)
    requires
        ascending(a),
        ascending(b),
        numbered(b),
        a.to_multiset() == b.to_multiset(),
    ensures
        a == b,
    decreases a.len(),
{
    broadcast use vstd::seq_lib::group_to_multiset_ensures;

    assert(a.to_multiset().len() == a.len() && b.to_multiset().len() == b.len());
    if a.len() > 0 {
        let x = a[0];
        let y = b[0];
        assert(a.to_multiset().count(x) > 0);
        assert(b.to_multiset().count(y) > 0);
        assert(b.contains(x));
        assert(a.contains(y));
        let j = choose|j: int| 0 <= j < b.len() && b[j] == x;
        let i = choose|i: int| 0 <= i < a.len() && a[i] == y;
        assert(x.seq <= y.seq);
        assert(y.seq <= x.seq);
        assert(j == 0);
        let a1 = a.remove(0);
        let b1 = b.remove(0);
        assert(a1.to_multiset() =~= b1.to_multiset());
        assert forall|p: int, q: int| 0 <= p < q < a1.len() implies (#[trigger] a1[p]).seq <= (#[trigger] a1[q]).seq by {
            assert(a1[p] == a[p + 1]);
            assert(a1[q] == a[q + 1]);
        }
        assert forall|p: int, q: int| 0 <= p < q < b1.len() implies (#[trigger] b1[p]).seq <= (#[trigger] b1[q]).seq
            && b1[p].seq != b1[q].seq by {
            assert(b1[p] == b[p + 1]);
            assert(b1[q] == b[q + 1]);
        }
        order_is_unique(a1, b1);
        assert(a =~= seq![x] + a1);
        assert(b =~= seq![y] + b1);
    } else {
        assert(a =~= b);
    }
}

/// The records one after the other.
pub open spec fn joined(records: Seq<Seq<u8>>) -> Seq<u8>
    decreases records.len(),
{
    if records.len() == 0 {
        Seq::empty()
    } else {
        joined(records.drop_last()) + records.last()
    }
}

/// Records can be joined in two parts.
pub proof fn joined_splits(records: Seq<Seq<u8>>, k: int)
    requires
        0 <= k <= records.len(),
    ensures
        joined(records) == joined(records.take(k)) + joined(records.skip(k)),
    decreases records.len(),
{
    if k == records.len() {
        assert(records.take(k) =~= records);
        assert(records.skip(k).len() == 0);
        assert(joined(records) =~= joined(records.take(k)) + joined(records.skip(k)));
    } else {
        let rest = records.drop_last();
        joined_splits(rest, k);
        assert(rest.take(k) =~= records.take(k));
        assert(records.skip(k).drop_last() =~= rest.skip(k));
        assert(records.skip(k).last() == records.last());
        assert(joined(records) =~= joined(records.take(k)) + joined(records.skip(k)));
    }
}

/// The bytes of records that wait.
pub open spec fn bytes_of(records: Seq<Pending>) -> Seq<Seq<u8>> {
    Seq::new(records.len(), |i: int| records[i].data@)
}

/// Why a record was not committed.
#[derive(Clone, Copy, PartialEq, Eq, Structural, Debug)]
pub enum CommitError {
    /// The batch of the record could not be written.
    WriteFailed,
}

/// What a writer waits on.
#[derive(Clone, Copy)]
pub struct CommitFuture {
    seq: u64,
}

impl CommitFuture {
    /// The number of the record.
    pub closed spec fn seq(&self) -> int {
        self.seq as int
    }

    /// What came of the record: `Ok` once its batch is written, an error where the write failed.
    /// Where nothing came yet, `waker` is left to be called when it does.
    pub fn poll(&self, wal: &mut GroupCommitWal, waker: u64) -> (r: Poll<Result<(), CommitError>>)
        requires
            old(wal).wf(),
            self.seq() < old(wal)@.submitted.len(),
        ensures
            final(wal).wf(),
            r == old(wal)@.came_to(self.seq()),
            r is Pending <==> old(wal)@.settled <= self.seq(),
            r == Poll::<Result<(), CommitError>>::Ready(Ok(())) <==> self.seq() < old(wal)@.settled && !old(
                wal,
            )@.failed.contains(self.seq()),
            r == Poll::<Result<(), CommitError>>::Ready(Err(CommitError::WriteFailed)) <==> self.seq() < old(
                wal,
            )@.settled && old(wal)@.failed.contains(self.seq()),
            r is Ready ==> *final(wal) == *old(wal),
            r is Pending ==> final(wal)@ == (WalView {
                wakers: old(wal)@.wakers.insert(self.seq(), waker),
                ..old(wal)@
            }),
    {
        broadcast use vstd::std_specs::btree::group_btree_axioms;

        if self.seq < wal.settled {
            if wal.failed.contains_key(&self.seq) {
                return Poll::Ready(Err(CommitError::WriteFailed));
            }
            return Poll::Ready(Ok(()));
        }
        match wal.completions.remove(&self.seq) {
            Some(c) => {
                let mut c = c;
                c.register(waker);
                wal.completions.insert(self.seq, c);
                assert(wal@.wakers =~= old(wal)@.wakers.insert(self.seq(), waker));
            },
            None => {},
        }
        Poll::Pending
    }
}

/// The state of the log.
pub struct WalView {
    /// The records in the order of submission.
    pub submitted: Seq<Seq<u8>>,
    /// How many of them the batcher has taken.
    pub taken: int,
    /// How many of them were written, or should have been.
    pub settled: int,
    /// Those of them whose write failed.
    pub failed: Set<int>,
    /// The wakers that are left, by record.
    pub wakers: Map<int, u64>,
    /// The offset of the first record in the file.
    pub start: int,
    /// Whether the log accepts records.
    pub running: bool,
    /// The number of records at which a batch is not waited for any longer.
    pub max_batch: int,
}

impl WalView {
    /// What came of record number `s`.
    pub open spec fn came_to(self, s: int) -> Poll<Result<(), CommitError>> {
        if s >= self.settled {
            Poll::Pending
        } else if self.failed.contains(s) {
            Poll::Ready(Err(CommitError::WriteFailed))
        } else {
            Poll::Ready(Ok(()))
        }
    }

    /// Where record number `s` goes in the file.
    pub open spec fn place(self, s: int) -> int {
        self.start + joined(self.submitted.take(s)).len()
    }

    /// The state after the write of a batch of `n` records succeeded or failed.
    pub open spec fn settle(self, n: int, ok: bool) -> WalView {
        let batch = numbers(self.settled, self.settled + n);
        WalView {
            settled: self.settled + n,
            failed: if ok {
                self.failed
            } else {
                self.failed.union(batch)
            },
            wakers: self.wakers.remove_keys(batch),
            ..self
        }
    }
}

/// The numbers from `from` up to `to`.
pub open spec fn numbers(from: int, to: int) -> Set<int> {
    Set::new(|s: int| from <= s < to)
}

/// A batch: the records, in the order of submission, and where they go.
pub struct Batch {
    pub records: Vec<Pending>,
    pub offset: u64,
    pub total: u64,
}

/// The queue of records, and the writers that wait.
pub struct GroupCommitWal {
    stack: Vec<Pending>,
    seq: u64,
    offset: u64,
    pending_count: u64,
    running: bool,
    max_batch: usize,
    settled: u64,
    failed: BTreeMap<u64, bool>,
    completions: BTreeMap<u64, Completion>,
    submitted: Ghost<Seq<Seq<u8>>>,
    start: Ghost<int>,
}

impl View for GroupCommitWal {
    type V = WalView;

    closed spec fn view(&self) -> WalView {
        WalView {
            submitted: self.submitted@,
            taken: self.seq - self.stack@.len(),
            settled: self.settled as int,
            failed: Set::new(|s: int| 0 <= s <= u64::MAX && self.failed@.contains_key(s as u64)),
            wakers: Map::new(
                |s: int|
                    0 <= s <= u64::MAX && self.completions@.contains_key(s as u64) && self.completions@[s as u64].waker() is Some,
                |s: int| self.completions@[s as u64].waker()->0,
            ),
            start: self.start@,
            running: self.running,
            max_batch: self.max_batch as int,
        }
    }
}

impl GroupCommitWal {
    /// The stack holds the records that were not taken, and the completions are those of the
    /// records that are not written.
    pub closed spec fn wf(&self) -> bool {
        let v = self@;
        &&& self.seq == v.submitted.len()
        &&& self.stack@.len() <= self.seq
        &&& self.pending_count == self.stack@.len()
        &&& forall|k: int|
            0 <= k < self.stack@.len() ==> (#[trigger] self.stack@[k]).seq == v.taken + k && self.stack@[k].data@
                == v.submitted[v.taken + k]
        &&& self.offset == v.start + joined(v.submitted.take(v.taken)).len()
        &&& v.start >= 0
        &&& v.start + joined(v.submitted).len() <= u64::MAX
        &&& v.settled <= v.taken
        &&& forall|s: u64| #[trigger] self.failed@.contains_key(s) ==> s < v.settled
        &&& forall|s: u64| #[trigger] self.completions@.contains_key(s) <==> v.settled <= s < v.submitted.len()
    }

    /// What follows from well-formedness outside of this module.
    pub proof fn lemma_wf(&self)
        requires
            self.wf(),
        ensures
            0 <= self@.settled <= self@.taken <= self@.submitted.len(),
            self@.submitted.len() <= u64::MAX,
            0 <= self@.start,
            self@.start + joined(self@.submitted).len() <= u64::MAX,
            forall|s: int| #[trigger] self@.wakers.contains_key(s) ==> self@.settled <= s < self@.submitted.len(),
            forall|s: int| #[trigger] self@.failed.contains(s) ==> 0 <= s < self@.settled,
    {
    }

    /// A log whose first record goes to offset `start_off`. A batch is due as soon as
    /// `max_batch` records wait.
    pub fn new(start_off: u64, max_batch: usize) -> (r: Self)
        ensures
            r.wf(),
            r@ == (WalView {
                submitted: Seq::empty(),
                taken: 0,
                settled: 0,
                failed: Set::empty(),
                wakers: Map::empty(),
                start: start_off as int,
                running: true,
                max_batch: max_batch as int,
            }),
    {
        broadcast use vstd::std_specs::btree::group_btree_axioms;

        let r = GroupCommitWal {
            stack: Vec::new(),
            seq: 0,
            offset: start_off,
            pending_count: 0,
            running: true,
            max_batch,
            settled: 0,
            failed: BTreeMap::new(),
            completions: BTreeMap::new(),
            submitted: Ghost(Seq::empty()),
            start: Ghost(start_off as int),
        };
        proof {
            assert(r@.submitted.take(0) =~= Seq::<Seq<u8>>::empty());
            assert(r@.wakers =~= Map::<int, u64>::empty());
            assert(r@.failed =~= Set::<int>::empty());
        }
        r
    }

    /// Whether a record of `len` bytes can be numbered and placed.
    pub open spec fn has_room(&self, len: nat) -> bool {
        &&& self@.submitted.len() < u64::MAX
        &&& self@.start + joined(self@.submitted).len() + len <= u64::MAX
    }

    /// Submits a record.
    pub fn append(&mut self, record: &[u8]) -> (f: CommitFuture)
        requires
            old(self).wf(),
            old(self).has_room(record@.len()),
        ensures
            final(self).wf(),
            f.seq() == old(self)@.submitted.len(),
            final(self)@ == (WalView { submitted: old(self)@.submitted.push(record@), ..old(self)@ }),
    {
        broadcast use vstd::std_specs::btree::group_btree_axioms;

        let seq: u64 = self.seq;
        let ghost before = self@;
        let data: Vec<u8> = vstd::slice::slice_to_vec(record);
        self.stack.push(Pending { seq, data });
        self.completions.insert(seq, Completion::new());
        self.seq = seq + 1;
        proof {
            assert(self.stack.len() <= usize::MAX);
            self.submitted@ = self.submitted@.push(record@);
            assert(self@.submitted.take(before.taken) =~= before.submitted.take(before.taken));
            assert(self@.submitted.drop_last() =~= before.submitted);
            assert(self@.wakers =~= before.wakers);
        }
        self.pending_count = self.pending_count + 1;
        CommitFuture { seq }
    }

    /// The number of records that wait.
    pub fn pending(&self) -> (n: u64)
        requires
            self.wf(),
        ensures
            n == self@.submitted.len() - self@.taken,
    {
        self.pending_count
    }

    /// Whether the batcher should go on waiting: the log is running, the window is still open,
    /// and the batch is not full.
    pub fn should_wait(&self, window_open: bool) -> (r: bool)
        requires
            self.wf(),
        ensures
            r == (self@.running && window_open && self@.submitted.len() - self@.taken < self@.max_batch),
    {
        self.running && window_open && self.pending_count < self.max_batch as u64
    }

    /// Whether the batcher may end: the log does not accept records any longer and none waits.
    pub fn is_finished(&self) -> (r: bool)
        requires
            self.wf(),
        ensures
            r == (!self@.running && self@.taken == self@.submitted.len()),
    {
        !self.running && self.stack.len() == 0
    }

    /// Ends the acceptance of records.
    pub fn stop(&mut self)
        requires
            old(self).wf(),
        ensures
            final(self).wf(),
            final(self)@ == (WalView { running: false, ..old(self)@ }),
    {
        self.running = false;
        assert(self@.wakers =~= old(self)@.wakers);
    }

    /// Takes all records that wait, in the order of submission; `None` where there are none.
    pub fn take_batch(&mut self) -> (r: Option<Batch>)
        requires
            old(self).wf(),
        ensures
            final(self).wf(),
            final(self)@ == (WalView { taken: old(self)@.submitted.len() as int, ..old(self)@ }),
            r is None <==> old(self)@.taken == old(self)@.submitted.len(),
            r is Some ==> {
                let v = old(self)@;
                let b = r->0;
                &&& bytes_of(b.records@) == v.submitted.skip(v.taken)
                &&& b.records@.len() == v.submitted.len() - v.taken
                &&& forall|k: int| 0 <= k < b.records@.len() ==> (#[trigger] b.records@[k]).data@ == v.submitted[v.taken + k]
                &&& forall|k: int| 0 <= k < b.records@.len() ==> (#[trigger] b.records@[k]).seq == v.taken + k
                &&& b.offset == v.start + joined(v.submitted.take(v.taken)).len()
                &&& b.total == joined(bytes_of(b.records@)).len()
            },
    {
        let ghost v = self@;
        if self.stack.len() == 0 {
            return None;
        }
        let mut batch: Vec<Pending> = Vec::new();
        let ghost all = self.stack@;
        while self.stack.len() > 0
            invariant
                self.seq == old(self).seq,
                self.offset == old(self).offset,
                self.pending_count == old(self).pending_count,
                self.running == old(self).running,
                self.max_batch == old(self).max_batch,
                self.settled == old(self).settled,
                self.failed == old(self).failed,
                self.completions == old(self).completions,
                self.submitted == old(self).submitted,
                self.start == old(self).start,
                batch@.len() + self.stack@.len() == all.len(),
                self.stack@ == all.take(self.stack@.len() as int),
                forall|k: int| 0 <= k < batch@.len() ==> #[trigger] batch@[k] == all[all.len() - 1 - k],
            decreases self.stack@.len(),
        {
            let ghost before = self.stack@;
            match self.stack.pop() {
                Some(p) => {
                    proof {
                        assert(self.stack@ =~= all.take(self.stack@.len() as int));
                        assert(p == before[before.len() - 1]);
                    }
                    batch.push(p);
                },
                None => {},
            }
        }
        proof {
            assert(batch@ =~= all.reverse());
            all.lemma_reverse_to_multiset();
        }
        self.pending_count = 0;
        let records = sort_by_seq(batch);
        proof {
            order_is_unique(records@, all);
            assert(bytes_of(records@) =~= v.submitted.skip(v.taken));
            joined_splits(v.submitted, v.taken);
        }
        let mut total: u64 = 0;
        let mut i: usize = 0;
        assert(bytes_of(records@).take(0) =~= Seq::<Seq<u8>>::empty());
        while i < records.len()
            invariant
                i <= records@.len(),
                total == joined(bytes_of(records@).take(i as int)).len(),
                joined(bytes_of(records@)).len() <= u64::MAX,
            decreases records@.len() - i,
        {
            proof {
                let s = bytes_of(records@);
                assert(s.take(i + 1).drop_last() =~= s.take(i as int));
                assert(s.take(i + 1).last() == records@[i as int].data@);
                joined_splits(s, i + 1);
            }
            total = total + records[i].data.len() as u64;
            i += 1;
        }
        let offset: u64 = self.offset;
        assert(bytes_of(records@).take(i as int) =~= bytes_of(records@));
        self.offset = offset + total;
        proof {
            assert(v.submitted.take(v.submitted.len() as int) =~= v.submitted);
            assert(self@.wakers =~= v.wakers);
        }
        Some(Batch { records, offset, total })
    }

    /// Notes whether the write of a batch succeeded, and returns the wakers of its writers, in
    /// order.
    pub fn commit(&mut self, batch: &Batch, ok: bool) -> (woken: Vec<u64>)
        requires
            old(self).wf(),
            forall|k: int|
                0 <= k < batch.records@.len() ==> (#[trigger] batch.records@[k]).seq == old(self)@.settled + k,
            old(self)@.settled + batch.records@.len() <= old(self)@.taken,
        ensures
            final(self).wf(),
            final(self)@ == old(self)@.settle(batch.records@.len() as int, ok),
            final(self)@.settled == old(self)@.settled + batch.records@.len(),
            forall|s: int| #[trigger]
                final(self)@.failed.contains(s) <==> old(self)@.failed.contains(s) || (!ok && old(self)@.settled <= s
                    < final(self)@.settled),
            final(self)@.submitted == old(self)@.submitted,
            final(self)@.taken == old(self)@.taken,
            woken@ == wakers_between(
                old(self)@.wakers,
                old(self)@.settled,
                old(self)@.settled + batch.records@.len(),
            ),
    {
        broadcast use vstd::std_specs::btree::group_btree_axioms;

        let ghost v = self@;
        let mut woken: Vec<u64> = Vec::new();
        let mut i: usize = 0;
        proof {
            assert(self@.wakers =~= v.settle(0, ok).wakers);
            assert(self@.failed =~= v.settle(0, ok).failed);
        }
        while i < batch.records.len()
            invariant
                i <= batch.records@.len(),
                self.wf(),
                v == old(self)@,
                forall|k: int|
                    0 <= k < batch.records@.len() ==> (#[trigger] batch.records@[k]).seq == v.settled + k,
                v.settled + batch.records@.len() <= v.taken,
                v.taken <= v.submitted.len() <= u64::MAX,
                woken@ == wakers_between(v.wakers, v.settled, v.settled + i),
                self@ == v.settle(i as int, ok),
            decreases batch.records@.len() - i,
        {
            broadcast use vstd::std_specs::btree::group_btree_axioms;

            let seq: u64 = batch.records[i].seq;
            let ghost before = self@;
            let ghost gone = numbers(v.settled, v.settled + i);
            let ghost next = numbers(v.settled, v.settled + i + 1);
            assert(before.wakers == v.wakers.remove_keys(gone));
            assert(self.completions@.contains_key(seq));
            match self.completions.remove(&seq) {
                Some(c) => {
                    let mut c = c;
                    let waker = c.signal();
                    self.settled = seq + 1;
                    if !ok {
                        self.failed.insert(seq, true);
                    }
                    proof {
                        let s = seq as int;
                        assert(s as u64 == seq);
                        assert(waker is Some <==> before.wakers.contains_key(s));
                        assert(waker is Some ==> waker->0 == before.wakers[s]);
                        assert(before.wakers.contains_key(s) <==> v.wakers.contains_key(s));
                        assert forall|t: int| self@.wakers.contains_key(t) <==> v.wakers.remove_keys(next).contains_key(
                            t,
                        ) by {
                            assert(before.wakers.contains_key(t) <==> v.wakers.remove_keys(gone).contains_key(t));
                            if 0 <= t <= u64::MAX && t != s {
                                assert(t as u64 != seq);
                            }
                        }
                        assert(self@.wakers =~= v.wakers.remove_keys(next)) by {
                            assert forall|t: int| self@.wakers.contains_key(t) implies self@.wakers[t] == v.wakers[t] by {
                                assert(before.wakers[t] == v.wakers.remove_keys(gone)[t]);
                            }
                        }
                        assert(self@.failed =~= v.settle(i + 1, ok).failed) by {
                            assert forall|t: int| self@.failed.contains(t) <==> v.settle(i + 1, ok).failed.contains(t) by {
                                assert(before.failed.contains(t) <==> v.settle(i as int, ok).failed.contains(t));
                                if 0 <= t <= u64::MAX && t != s {
                                    assert(t as u64 != seq);
                                }
                            }
                        }
                    }
                    match waker {
                        Some(w) => {
                            woken.push(w);
                        },
                        None => {},
                    }
                },
                None => {},
            }
            i += 1;
        }
        woken
    }
}

/// The wakers of the records with numbers from `from` up to `to`, in order.
pub open spec fn wakers_between(wakers: Map<int, u64>, from: int, to: int) -> Seq<u64>
    decreases to - from,
{
    if to <= from {
        Seq::empty()
    } else if wakers.contains_key(to - 1) {
        wakers_between(wakers, from, to - 1).push(wakers[to - 1])
    } else {
        wakers_between(wakers, from, to - 1)
    }
}

/// The contents of a file after `data` was written at `offset`. A write past the end leaves a gap
/// of zeros, and a write of nothing leaves the file as it is.
pub open spec fn written(file: Seq<u8>, offset: int, data: Seq<u8>) -> Seq<u8> {
    if data.len() == 0 {
        file
    } else if offset + data.len() <= file.len() {
        file.take(offset) + data + file.skip(offset + data.len())
    } else if offset <= file.len() {
        file.take(offset) + data
    } else {
        file + Seq::new((offset - file.len()) as nat, |i: int| 0u8) + data
    }
}

/// The file holds the records in the order of submission, one after the other: writing a batch
/// where it goes appends the records that it holds, and all records before them are there.
pub proof fn file_holds_submissions(file: Seq<u8>, base: Seq<u8>, v: WalView, records: Seq<Seq<u8>>, offset: int)
    requires
        0 <= v.taken <= v.submitted.len(),
        base.len() == v.start,
        file == base + joined(v.submitted.take(v.taken)),
        records == v.submitted.skip(v.taken),
        offset == v.start + joined(v.submitted.take(v.taken)).len(),
    ensures
        written(file, offset, joined(records)) == base + joined(v.submitted),
{
    joined_splits(v.submitted, v.taken);
    assert(file.take(offset) =~= file);
    assert(written(file, offset, joined(records)) =~= base + joined(v.submitted));
}

/// `data` stands in the file, at `at`.
pub open spec fn stands(file: Seq<u8>, at: int, data: Seq<u8>) -> bool {
    at + data.len() <= file.len() && file.subrange(at, at + data.len()) == data
}

/// The file holds every record whose write succeeded, at its place.
pub open spec fn file_holds(file: Seq<u8>, v: WalView) -> bool {
    forall|s: int|
        0 <= s < v.settled && !v.failed.contains(s) ==> stands(file, #[trigger] v.place(s), v.submitted[s])
}

/// The file always holds every record that a writer was told is written. A write that succeeded
/// puts its batch where it goes; one that failed may put anything there. Neither touches what
/// stands before, so that what was committed stays.
pub proof fn committed_records_are_in_file(file: Seq<u8>, file2: Seq<u8>, v: WalView, n: int, ok: bool)
    requires
        0 <= n,
        0 <= v.settled,
        0 <= v.start,
        v.settled + n <= v.submitted.len(),
        file_holds(file, v),
        file.len() <= file2.len(),
        forall|i: int| 0 <= i < file.len() && i < v.place(v.settled) ==> #[trigger] file2[i] == file[i],
        ok ==> stands(file2, v.place(v.settled), joined(v.submitted.subrange(v.settled, v.settled + n))),
    ensures
        file_holds(file2, v.settle(n, ok)),
{
    let w = v.settle(n, ok);
    let batch = v.submitted.subrange(v.settled, v.settled + n);
    assert forall|s: int| 0 <= s < w.settled && !w.failed.contains(s) implies stands(
        file2,
        #[trigger] w.place(s),
        w.submitted[s],
    ) by {
        let data = v.submitted[s];
        let at = v.place(s);
        assert(w.place(s) == at);
        if s < v.settled {
            assert(stands(file, v.place(s), v.submitted[s]));
            let front = v.submitted.take(v.settled);
            joined_splits(front, s + 1);
            assert(front.take(s + 1).drop_last() =~= v.submitted.take(s));
            assert(front.take(s + 1).last() == data);
            assert(at + data.len() <= v.place(v.settled));
            assert(file2.subrange(at, at + data.len()) =~= file.subrange(at, at + data.len()));
        } else {
            let k = s - v.settled;
            let base = v.place(v.settled);
            let all = joined(batch);
            assert(ok);
            joined_splits(batch, k + 1);
            assert(batch.take(k + 1).drop_last() =~= batch.take(k));
            assert(batch.take(k + 1).last() == data);
            let upto = v.submitted.take(s);
            joined_splits(upto, v.settled);
            assert(upto.take(v.settled) =~= v.submitted.take(v.settled));
            assert(upto.skip(v.settled) =~= batch.take(k));
            let off = joined(batch.take(k)).len() as int;
            assert(at == base + off);
            assert(all.subrange(off, off + data.len()) =~= data);
            assert(file2.subrange(at, at + data.len()) =~= file2.subrange(base, base + all.len()).subrange(
                off,
                off + data.len(),
            ));
        }
    }
}

/// A writer whose future gave `Ok` finds its record in the file.
pub proof fn ready_records_are_in_file(file: Seq<u8>, v: WalView, s: int)
    requires
        0 <= s,
        file_holds(file, v),
        v.came_to(s) == Poll::<Result<(), CommitError>>::Ready(Ok(())),
    ensures
        stands(file, v.place(s), v.submitted[s]),
{
}

/// A batch that was handed back settles each of its records the way that its write went, leaves
/// the outcomes that were there, and decides nothing about the records behind it.
pub proof fn batches_settle_their_records(v: WalView, n: int, ok: bool, s: int)
    requires
        0 <= n,
        0 <= s,
        forall|t: int| #[trigger] v.failed.contains(t) ==> t < v.settled,
    ensures
        v.settled <= s < v.settled + n && ok ==> v.settle(n, ok).came_to(s) == Poll::<Result<(), CommitError>>::Ready(Ok(())),
        v.settled <= s < v.settled + n && !ok ==> v.settle(n, ok).came_to(s) == Poll::<Result<(), CommitError>>::Ready(
            Err(CommitError::WriteFailed),
        ),
        s < v.settled ==> v.settle(n, ok).came_to(s) == v.came_to(s) && v.came_to(s) is Ready,
        s >= v.settled + n ==> v.settle(n, ok).came_to(s) is Pending && v.came_to(s) is Pending,
{
}

/// A writer is told of a failure exactly where its record was in a batch whose write failed. The
/// batches are given by their lengths and the outcomes of their writes, from the first record on.
pub proof fn failures_are_of_failed_batches(v: WalView, lens: Seq<nat>, oks: Seq<bool>, s: int)
    requires
        v.settled == 0,
        v.failed == Set::<int>::empty(),
        lens.len() == oks.len(),
        0 <= s,
    ensures
        ({
            let r = after_batches(v, lens, oks).came_to(s);
            &&& r == Poll::<Result<(), CommitError>>::Ready(Err(CommitError::WriteFailed)) <==> exists|k: int|
                0 <= k < lens.len() && #[trigger] in_batch(lens, k, s) && !oks[k]
            &&& r == Poll::<Result<(), CommitError>>::Ready(Ok(())) <==> exists|k: int|
                0 <= k < lens.len() && #[trigger] in_batch(lens, k, s) && oks[k]
        }),
    decreases lens.len(),
{
    lemma_after_batches(v, lens, oks);
    if lens.len() > 0 {
        let rest = lens.drop_last();
        failures_are_of_failed_batches(v, rest, oks.drop_last(), s);
        let n = lens.len() - 1;
        lemma_after_batches(v, rest, oks.drop_last());
        let before = after_batches(v, rest, oks.drop_last());
        batches_settle_their_records(before, lens.last() as int, oks.last(), s);
        assert forall|k: int| 0 <= k < n implies #[trigger] in_batch(lens, k, s) == in_batch(rest, k, s) by {
            assert(lens.take(k) =~= rest.take(k));
            assert(lens.take(k + 1) =~= rest.take(k + 1));
        }
        assert(lens.take(n) =~= rest);
        assert(lens.take(n + 1) =~= lens);
        assert(in_batch(lens, n, s) <==> sum_of(rest) <= s < sum_of(lens));
        assert forall|k: int| 0 <= k < n && #[trigger] in_batch(rest, k, s) implies s < sum_of(rest) by {
            lemma_sum_grows(rest, k + 1);
        }
        if s < before.settled {
            assert(before.came_to(s) is Ready);
            if before.failed.contains(s) {
                let k = choose|k: int| 0 <= k < rest.len() && #[trigger] in_batch(rest, k, s) && !oks.drop_last()[k];
                assert(in_batch(lens, k, s));
            } else {
                let k = choose|k: int| 0 <= k < rest.len() && #[trigger] in_batch(rest, k, s) && oks.drop_last()[k];
                assert(in_batch(lens, k, s));
            }
            assert forall|k: int| 0 <= k < lens.len() && #[trigger] in_batch(lens, k, s) implies k < n && in_batch(rest, k, s)
                && oks[k] == oks.drop_last()[k] by {}
        } else {
            assert forall|k: int| 0 <= k < lens.len() && #[trigger] in_batch(lens, k, s) implies k == n by {
                if k < n {
                    assert(in_batch(rest, k, s));
                }
            }
        }
    }
}

/// The numbers together.
pub open spec fn sum_of(lens: Seq<nat>) -> nat
    decreases lens.len(),
{
    if lens.len() == 0 {
        0
    } else {
        sum_of(lens.drop_last()) + lens.last()
    }
}

/// Record `s` is in batch `k`, where the batches follow each other from the first record on.
pub open spec fn in_batch(lens: Seq<nat>, k: int, s: int) -> bool {
    sum_of(lens.take(k)) <= s < sum_of(lens.take(k + 1))
}

/// The log after batches of these lengths were handed back with these outcomes.
pub open spec fn after_batches(v: WalView, lens: Seq<nat>, oks: Seq<bool>) -> WalView
    decreases lens.len(),
{
    if lens.len() == 0 {
        v
    } else {
        after_batches(v, lens.drop_last(), oks.drop_last()).settle(lens.last() as int, oks.last())
    }
}

proof fn lemma_after_batches(v: WalView, lens: Seq<nat>, oks: Seq<bool>)
    requires
        v.settled == 0,
        v.failed == Set::<int>::empty(),
    ensures
        after_batches(v, lens, oks).settled == sum_of(lens),
        forall|t: int| #[trigger] after_batches(v, lens, oks).failed.contains(t) ==> t < sum_of(lens),
    decreases lens.len(),
{
    if lens.len() > 0 {
        lemma_after_batches(v, lens.drop_last(), oks.drop_last());
    }
}

proof fn lemma_sum_grows(lens: Seq<nat>, k: int)
    requires
        0 <= k <= lens.len(),
    ensures
        sum_of(lens.take(k)) <= sum_of(lens),
    decreases lens.len(),
{
    if k < lens.len() {
        lemma_sum_grows(lens.drop_last(), k);
        assert(lens.drop_last().take(k) =~= lens.take(k));
    } else {
        assert(lens.take(k) =~= lens);
    }
}

/// The writers that are woken are those that wait for the records of the batch: one for each
/// record that has a waker, in the order of the records.
pub proof fn waiters_are_woken_in_order(wakers: Map<int, u64>, from: int, mid: int, to: int)
    requires
        from <= mid <= to,
    ensures
        wakers_between(wakers, from, to) == wakers_between(wakers, from, mid) + wakers_between(wakers, mid, to),
        wakers.contains_key(from) ==> wakers_between(wakers, from, from + 1) == seq![wakers[from]],
        !wakers.contains_key(from) ==> wakers_between(wakers, from, from + 1) == Seq::<u64>::empty(),
        wakers_between(wakers, from, from) == Seq::<u64>::empty(),
    decreases to - mid,
{
    assert(wakers_between(wakers, from, from) =~= Seq::<u64>::empty());
    assert(wakers.contains_key(from) ==> wakers_between(wakers, from, from + 1) =~= seq![wakers[from]]);
    if mid < to {
        waiters_are_woken_in_order(wakers, from, mid, to - 1);
    }
    assert(wakers_between(wakers, from, to) =~= wakers_between(wakers, from, mid) + wakers_between(wakers, mid, to));
}

/// A batch that is handed back takes the wakers of its records along and leaves the others.
pub proof fn settled_records_have_no_waker(v: WalView, n: int, ok: bool, s: int)
    ensures
        v.settle(n, ok).wakers.contains_key(s) <==> v.wakers.contains_key(s) && !(v.settled <= s < v.settled + n),
        v.settle(n, ok).wakers.contains_key(s) ==> v.settle(n, ok).wakers[s] == v.wakers[s],
{
}

/// Records that follow each other stand where the lengths of those before them put them, and
/// nothing stands between them.
pub proof fn joined_records_stand(records: Seq<Seq<u8>>, s: int)
    requires
        0 <= s < records.len(),
    ensures
        stands(joined(records), joined(records.take(s)).len() as int, records[s]),
        joined(records.take(0)).len() == 0,
        joined(records.take(s + 1)).len() == joined(records.take(s)).len() + records[s].len(),
        joined(records.take(records.len() as int)) == joined(records),
{
    let at = joined(records.take(s)).len() as int;
    let data = records[s];
    joined_splits(records, s + 1);
    assert(records.take(s + 1).drop_last() =~= records.take(s));
    assert(records.take(s + 1).last() == data);
    assert(records.take(records.len() as int) =~= records);
    assert(joined(records.take(s + 1)) == joined(records.take(s)) + data);
    assert(joined(records).subrange(at, at + data.len()) =~= data);
}

/// A write changes the bytes that it covers and no others; what it adds to the file in front of
/// them is zero.
pub proof fn writes_change_what_they_cover(file: Seq<u8>, offset: int, data: Seq<u8>, i: int)
    requires
        0 <= offset,
        data.len() > 0,
        0 <= i,
    ensures
        written(file, offset, data).len() == (if file.len() < offset + data.len() {
            offset + data.len()
        } else {
            file.len() as int
        }),
        offset <= i < offset + data.len() ==> written(file, offset, data)[i] == data[i - offset],
        i < file.len() && !(offset <= i < offset + data.len()) ==> written(file, offset, data)[i] == file[i],
        file.len() <= i < offset ==> written(file, offset, data)[i] == 0,
        written(file, offset, Seq::empty()) == file,
{
}

} // verus!
