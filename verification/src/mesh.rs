//! A mesh of workers that share nothing: each owns one shard, and a write to another's shard
//! is a command in a queue.
//!
//! A worker that finds a queue full does not wait on it. It keeps the command, serves its own
//! inbox, and tries again at its next step, so that the queues go on draining.
//! [`run_put_workload`] runs the workers in turn until nothing is in flight, and comes to that
//! end for every workload.

use vstd::prelude::*;
use std::collections::BTreeMap;
use crate::lanes;
use crate::lanes::{open_lanes, Command, Entry, Matrix, Reply, ShardOwner};
use crate::pow2;
use crate::shard;
use crate::sums;

pub use crate::service::{MeshService, ServiceHandle};

verus! {

/// Counters of the mesh as a whole, by which it is known when nothing is in flight.
pub struct MeshShared {
    sent: u128,
    applied: u128,
    phase1_done: usize,
    n: usize,
}

/// What is known of `inflight` requests after some replies.
pub open spec fn noted(m: Map<u64, Option<Vec<u8>>>, replies: Seq<Reply>) -> Map<u64, Option<Vec<u8>>>
    decreases replies.len(),
{
    if replies.len() == 0 {
        m
    } else {
        noted(m, replies.drop_last()).insert(replies.last().token, replies.last().val)
    }
}

/// A worker: its shard, the writes that it still has to send, and the replies that it got.
pub struct Worker {
    owner: ShardOwner,
    todo: Vec<(Vec<u8>, Vec<u8>)>,
    next: usize,
    announced: bool,
    inflight: BTreeMap<u64, Option<Vec<u8>>>,
    plan: Ghost<Seq<Command>>,
}

/// The write of an item.
pub open spec fn put_of(item: (Vec<u8>, Vec<u8>)) -> Command {
    Command::Put { key: item.0, val: item.1 }
}

impl Worker {
    /// What this worker keeps true of itself and its sides of the queues.
    spec fn wf(&self, m: Matrix) -> bool {
        &&& self.owner.wf(m)
        &&& self.owner.unsent() is None
        &&& self.plan@.len() == self.todo@.len()
        &&& self.next <= self.todo@.len()
        &&& self.owner.work() == self.plan@.take(self.next as int)
        &&& forall|k: int| self.next <= k < self.todo@.len() ==> #[trigger] self.plan@[k] == put_of(self.todo@[k])
        &&& forall|k: int| 0 <= k < self.plan@.len() ==> (#[trigger] self.plan@[k]) is Put
        &&& self.announced ==> self.next == self.todo@.len() && self.owner.stalled() is None
    }

    /// How far this worker has come: each write counts when it is taken up, when it is out of
    /// the worker's hands, and when it is carried out.
    spec fn progress(&self) -> int {
        2 * self.next - (if self.owner.stalled() is Some {
            1int
        } else {
            0
        }) + (if self.announced {
            1int
        } else {
            0
        }) + self.owner.log().len()
    }

    /// What this worker has sent after a step: one write more, unless one waits for room or none
    /// is left.
    spec fn step_work(&self) -> Seq<Command> {
        if self.owner.stalled() is None && self.next < self.plan@.len() {
            self.owner.work().push(self.plan@[self.next as int])
        } else {
            self.owner.work()
        }
    }

    /// The write that this worker carries out itself in a step.
    spec fn step_own(&self) -> Seq<Entry> {
        let id = self.owner.id();
        if self.owner.stalled() is None && self.next < self.plan@.len() && shard::shard_of(
            self.plan@[self.next as int].about(),
            self.owner.n(),
        ) == id {
            seq![Entry { src: id, cmd: self.plan@[self.next as int] }]
        } else {
            Seq::empty()
        }
    }

    /// This worker cannot take a step: its inbox is empty, and it has nothing to send or the
    /// queue is full.
    spec fn stuck(&self, m: Matrix) -> bool {
        &&& match self.owner.stalled() {
            Some((d, c)) => m.cmd(self.owner.id(), d)@.len() == lanes::LANE_CAP,
            None => self.announced,
        }
        &&& forall|i: int| 0 <= i < self.owner.n() ==> (#[trigger] m.cmd(i, self.owner.id()))@.len() == 0
    }

    /// Takes the replies to this worker's own requests.
    fn drain_replies(&mut self, m: &mut Matrix) -> (r: bool)
        requires
            old(self).owner.wf(*old(m)),
        ensures
            final(self).owner == old(self).owner,
            final(self).todo == old(self).todo,
            final(self).next == old(self).next,
            final(self).announced == old(self).announced,
            final(self).plan == old(self).plan,
            final(self).owner.wf(*final(m)),
            ({
                let id = old(self).owner.id();
                let n = old(self).owner.n();
                let got = old(m).received(id, 0, n);
                &&& old(m).step_of(*final(m), id, n)
                &&& r == (got.len() > 0)
                &&& final(self).inflight@ == noted(old(self).inflight@, got)
                &&& forall|i: int, j: int|
                    0 <= i < n && 0 <= j < n ==> #[trigger] final(m).cmd(i, j) == old(m).cmd(i, j)
                &&& !r ==> old(m).same(*final(m), n)
            }),
    {
        broadcast use vstd::std_specs::btree::group_btree_axioms;

        let mut replies = self.owner.collect(m);
        let progressed = replies.len() > 0;
        let ghost got = replies@;
        let mut i: usize = 0;
        assert(got.take(0).len() == 0);
        while i < replies.len()
            invariant
                self.owner == old(self).owner,
                self.todo == old(self).todo,
                self.next == old(self).next,
                self.announced == old(self).announced,
                self.plan == old(self).plan,
                i <= replies@.len(),
                got.len() == replies@.len(),
                forall|k: int| i <= k < got.len() ==> #[trigger] replies@[k] == got[k],
                self.inflight@ == noted(old(self).inflight@, got.take(i as int)),
            decreases replies@.len() - i,
        {
            broadcast use vstd::std_specs::btree::group_btree_axioms;

            let token: u64 = replies[i].token;
            let mut val: Option<Vec<u8>> = None;
            std::mem::swap(&mut val, &mut replies[i].val);
            assert(got.take(i + 1).drop_last() =~= got.take(i as int));
            self.inflight.insert(token, val);
            i += 1;
        }
        assert(got.take(i as int) =~= got);
        progressed
    }

    /// Serves everything in the inbox once: carries out the commands, answers requests, and
    /// takes the replies to this worker's own. Returns whether there was anything.
    fn pump(&mut self, m: &mut Matrix, shared: &mut MeshShared) -> (r: bool)
        requires
            old(self).owner.wf(*old(m)),
            old(shared).applied + old(self).owner.n() * lanes::LANE_CAP <= u128::MAX,
        ensures
            final(self).todo == old(self).todo,
            final(self).next == old(self).next,
            final(self).announced == old(self).announced,
            final(self).plan == old(self).plan,
            final(self).owner.wf(*final(m)),
            final(self).owner.same_seat(old(self).owner),
            final(self).owner.work() == old(self).owner.work(),
            final(self).owner.stalled() == old(self).owner.stalled(),
            final(shared).sent == old(shared).sent,
            final(shared).phase1_done == old(shared).phase1_done,
            final(shared).n == old(shared).n,
            ({
                let id = old(self).owner.id();
                let n = old(self).owner.n();
                let inbox = old(m).inbox(id, 0, n);
                let count = final(shared).applied - old(shared).applied;
                &&& 0 <= count <= inbox.len()
                &&& old(m).step_of(*final(m), id, n)
                &&& final(self).owner.log() == old(self).owner.log() + inbox.take(count)
                &&& final(self).owner.unsent() is None ==> count == inbox.len() && forall|i: int|
                    0 <= i < n ==> (#[trigger] final(m).cmd(i, id))@.len() == 0
                &&& old(self).owner.unsent() is None && lanes::all_puts(inbox) ==> final(self).owner.unsent() is None
                &&& forall|i: int, j: int|
                    0 <= i < n && 0 <= j < n && j != id ==> #[trigger] final(m).cmd(i, j) == old(m).cmd(i, j)
                &&& count == 0 && old(self).owner.unsent() is None ==> final(self).owner == old(self).owner && forall|
                    i: int,
                    j: int,
                |
                    0 <= i < n && 0 <= j < n ==> #[trigger] final(m).cmd(i, j) == old(m).cmd(i, j)
                &&& !r ==> count == 0
                &&& r ==> count > 0 || old(m).received(id, 0, n).len() > 0
            }),
    {
        let ghost m0 = *m;
        let ghost id = self.owner.id();
        let ghost n = self.owner.n();
        proof {
            self.owner.lemma_wf(m0);
            m0.lemma_wf(n, id, id);
            m0.reply(id, id).fifo();
        }
        let count: u128 = self.owner.pump(m);
        shared.applied = shared.applied + count;
        let ghost m1 = *m;
        proof {
            self.owner.lemma_wf(m1);
            m1.lemma_wf(n, id, id);
            m1.reply(id, id).fifo();
        }
        let more = self.drain_replies(m);
        proof {
            lanes::steps_compose(m0, m1, *m, id, n);
            lanes::received_is_from_others(m0, m1, id, 0, n);
            assert forall|i: int| 0 <= i < n && m1.cmd(i, id)@.len() == 0 implies (#[trigger] m.cmd(i, id))@.len() == 0 by {}
            assert forall|i: int, j: int| 0 <= i < n && 0 <= j < n && j != id implies #[trigger] m.cmd(i, j) == m0.cmd(
                i,
                j,
            ) by {
                assert(m1.cmd(i, j) == m0.cmd(i, j));
            }
        }
        count > 0 || more
    }

    /// Sets a key: at once where this worker owns it, else by a command to the owner. A command
    /// that finds the queue full is kept.
    fn put(&mut self, m: &mut Matrix, shared: &mut MeshShared, key: Vec<u8>, val: Vec<u8>)
        requires
            old(self).owner.wf(*old(m)),
            old(self).owner.stalled() is None,
            old(shared).sent < u128::MAX,
            old(shared).applied < u128::MAX,
        ensures
            final(self).todo == old(self).todo,
            final(self).next == old(self).next,
            final(self).announced == old(self).announced,
            final(self).plan == old(self).plan,
            final(self).inflight == old(self).inflight,
            final(self).owner.wf(*final(m)),
            final(self).owner.same_seat(old(self).owner),
            final(self).owner.unsent() == old(self).owner.unsent(),
            final(shared).sent == old(shared).sent + 1,
            final(shared).phase1_done == old(shared).phase1_done,
            final(shared).n == old(shared).n,
            ({
                let cmd = Command::Put { key, val };
                let id = old(self).owner.id();
                let n = old(self).owner.n();
                let d = shard::shard_of(key@, n);
                &&& final(self).owner.work() == old(self).owner.work().push(cmd)
                &&& old(m).step_of(*final(m), id, n)
                &&& if d == id {
                    &&& final(self).owner.stalled() is None
                    &&& final(self).owner.log() == old(self).owner.log().push(Entry { src: id, cmd })
                    &&& *final(m) == *old(m)
                    &&& final(shared).applied == old(shared).applied + 1
                } else {
                    let room = old(m).cmd(id, d)@.len() < lanes::LANE_CAP;
                    &&& final(self).owner.log() == old(self).owner.log()
                    &&& old(m).only_cmd(*final(m), id, d, n)
                    &&& final(shared).applied == old(shared).applied
                    &&& room ==> final(self).owner.stalled() is None && final(m).cmd(id, d)@ == old(m).cmd(id, d)@.push(
                        cmd,
                    )
                    &&& !room ==> final(self).owner.stalled() == Some((d, cmd)) && final(m).cmd(id, d) == old(m).cmd(
                        id,
                        d,
                    )
                }
            }),
    {
        proof {
            self.owner.lemma_wf(*m);
        }
        let d: usize = self.owner.owner_of(key.as_slice());
        shared.sent = shared.sent + 1;
        if d == self.owner.shard_id() {
            shared.applied = shared.applied + 1;
        }
        let sent = self.owner.send(m, Command::Put { key, val });
    }

    /// Takes one step: tries the command that waits again, or sends the next write, or
    /// announces that all are sent; then serves the inbox. Returns whether anything moved.
    #[verifier::rlimit(40)]
    fn step(&mut self, m: &mut Matrix, shared: &mut MeshShared) -> (moved: bool)
        requires
            old(self).wf(*old(m)),
            lanes::all_puts(old(m).inbox(old(self).owner.id(), 0, old(self).owner.n())),
            old(shared).sent < u128::MAX,
            old(shared).applied + 1 + old(self).owner.n() * lanes::LANE_CAP <= u128::MAX,
            !old(self).announced ==> old(shared).phase1_done < usize::MAX,
        ensures
            final(self).wf(*final(m)),
            final(self).owner.same_seat(old(self).owner),
            final(self).plan == old(self).plan,
            old(m).step_of(*final(m), old(self).owner.id(), old(self).owner.n()),
            final(shared).n == old(shared).n,
            final(shared).sent - old(shared).sent == final(self).owner.work().len() - old(self).owner.work().len(),
            final(shared).applied - old(shared).applied == final(self).owner.log().len() - old(self).owner.log().len(),
            old(self).owner.log().is_prefix_of(final(self).owner.log()),
            final(shared).phase1_done - old(shared).phase1_done == flag(final(self).announced) - flag(
                old(self).announced,
            ),
            final(self).progress() >= old(self).progress() + flag(moved),
            final(self).owner.work() == old(self).step_work(),
            final(self).owner.log() == old(self).owner.log() + old(self).step_own() + old(m).inbox(
                old(self).owner.id(),
                0,
                old(self).owner.n(),
            ),
            forall|i: int| 0 <= i < old(self).owner.n() ==> (#[trigger] final(m).cmd(i, old(self).owner.id()))@.len() == 0,
            !moved ==> {
                &&& final(self).stuck(*final(m))
                &&& forall|i: int, j: int|
                    0 <= i < old(self).owner.n() && 0 <= j < old(self).owner.n() ==> #[trigger] final(m).cmd(i, j)
                        == old(m).cmd(i, j)
            },
    {
        let ghost id = self.owner.id();
        let ghost n = self.owner.n();
        let ghost m0 = *m;
        let mut moved = false;
        proof {
            self.owner.lemma_wf(m0);
        }
        if self.owner.is_stalled() {
            if self.owner.flush(m) {
                moved = true;
            } else {
                proof {
                    let d = (old(self).owner.stalled()->0).0;
                    self.owner.lemma_wf(*m);
                    m.lemma_wf(n, id, d);
                    m.cmd(id, d).fifo();
                }
            }
        } else if self.next < self.todo.len() {
            let at: usize = self.next;
            let mut item: (Vec<u8>, Vec<u8>) = (Vec::new(), Vec::new());
            std::mem::swap(&mut item, &mut self.todo[at]);
            let (key, val) = item;
            let ghost cmd = Command::Put { key, val };
            assert(self.plan@[at as int] == cmd);
            self.put(m, shared, key, val);
            self.next = at + 1;
            moved = true;
            proof {
                assert(self.plan@.take(at + 1) =~= self.plan@.take(at as int).push(cmd));
            }
        } else if !self.announced {
            self.announced = true;
            shared.phase1_done = shared.phase1_done + 1;
            moved = true;
        }
        let ghost m1 = *m;
        let ghost mid = *self;
        proof {
            self.owner.lemma_wf(m1);
            assert(self.wf(m1));
            assert forall|i: int| 0 <= i < n implies (#[trigger] m1.cmd(i, id))@ == m0.cmd(i, id)@ by {}
            lanes::inbox_is_the_column(m0, m1, id, 0, n);
        }
        let applied: u128 = shared.applied;
        proof {
            assert(mid.owner.work() =~= old(self).step_work());
            assert(mid.owner.log() =~= old(self).owner.log() + old(self).step_own());
        }
        let served = self.pump(m, shared);
        proof {
            let inbox = m0.inbox(id, 0, n);
            assert(inbox.take(inbox.len() as int) =~= inbox);
            assert(self.owner.log() =~= old(self).owner.log() + old(self).step_own() + inbox);
        }
        if shared.applied != applied {
            moved = true;
        }
        proof {
            let log = old(self).owner.log();
            assert(log =~= self.owner.log().take(log.len() as int));
            lanes::steps_compose(m0, m1, *m, id, n);
            if !moved {
                assert forall|i: int, j: int| 0 <= i < n && 0 <= j < n implies #[trigger] m.cmd(i, j) == m0.cmd(i, j) by {
                    assert(m1.cmd(i, j) == m0.cmd(i, j));
                }
            }
        }
        moved
    }
}

spec fn flag(b: bool) -> int {
    if b {
        1
    } else {
        0
    }
}

/// The mesh: the workers, the queues between them, and the counters.
pub struct Mesh {
    workers: Vec<Worker>,
    matrix: Matrix,
    shared: MeshShared,
}

impl Mesh {
    /// The number of shards.
    pub closed spec fn n(&self) -> int {
        self.workers@.len() as int
    }

    /// The writes that worker `i` was given, in order.
    pub closed spec fn plan(&self, i: int) -> Seq<Command> {
        self.workers@[i].plan@
    }

    /// The commands that were carried out on shard `j`, in order.
    pub closed spec fn log(&self, j: int) -> Seq<Entry> {
        self.workers@[j].owner.log()
    }

    /// The writes that worker `i` has sent, in order.
    pub closed spec fn sent(&self, i: int) -> Seq<Command> {
        self.workers@[i].owner.work()
    }

    /// Worker `i` has a write that waits for room.
    pub closed spec fn waits(&self, i: int) -> bool {
        self.workers@[i].owner.stalled() is Some
    }

    /// The commands that wait in the queue from worker `i` to worker `j`.
    pub closed spec fn queue(&self, i: int, j: int) -> Seq<Command> {
        self.matrix.cmd(i, j)@
    }

    /// The number of commands that were carried out.
    pub closed spec fn applied(&self) -> int {
        self.shared.applied as int
    }

    /// What shard `j` holds.
    pub open spec fn shard(&self, j: int) -> Map<Seq<u8>, Seq<u8>> {
        lanes::applied(self.log(j))
    }

    /// Every worker has sent all of its writes, and everything sent was carried out: on each
    /// shard, the commands that came from a worker are the writes of that worker that belong to
    /// the shard, in the worker's order.
    pub open spec fn quiesced(&self) -> bool {
        forall|i: int, j: int|
            0 <= i < self.n() && 0 <= j < self.n() ==> #[trigger] lanes::of_source(self.log(j), i) == lanes::routed(
                self.plan(i),
                j,
                self.n(),
            )
    }

    spec fn worker_ok(&self, i: int) -> bool {
        &&& self.workers@[i].wf(self.matrix)
        &&& self.workers@[i].owner.id() == i
        &&& self.workers@[i].owner.n() == self.workers@.len()
    }

    spec fn sent_by(&self) -> spec_fn(int) -> int {
        |i: int| self.workers@[i].owner.work().len() as int
    }

    spec fn applied_by(&self) -> spec_fn(int) -> int {
        |i: int| self.workers@[i].owner.log().len() as int
    }

    spec fn done_by(&self) -> spec_fn(int) -> int {
        |i: int| flag(self.workers@[i].announced)
    }

    /// The number of writes that each worker was given.
    pub open spec fn given_to(&self) -> spec_fn(int) -> int {
        |i: int| self.plan(i).len() as int
    }

    spec fn progress_of(&self) -> spec_fn(int) -> int {
        |i: int| self.workers@[i].progress()
    }

    /// The number of writes that the workers were given.
    pub open spec fn total(&self) -> int {
        sums::sum(self.given_to(), self.n())
    }

    /// Every worker keeps true what it relies on, and the counters count.
    pub closed spec fn wf(&self) -> bool {
        let n = self.n();
        &&& 1 <= n <= pow2::max_pow2()
        &&& pow2::is_pow2(n)
        &&& self.shared.n == n
        &&& self.matrix.wf(n)
        &&& forall|i: int| 0 <= i < n ==> #[trigger] self.worker_ok(i)
        &&& self.shared.sent == sums::sum(self.sent_by(), n)
        &&& self.shared.applied == sums::sum(self.applied_by(), n)
        &&& self.shared.phase1_done == sums::sum(self.done_by(), n)
    }

    proof fn lemma_pair(&self, i: int, j: int)
        requires
            self.wf(),
            0 <= i < self.n(),
            0 <= j < self.n(),
        ensures
            ({
                let work = lanes::routed(self.workers@[i].owner.work(), j, self.n());
                let done = lanes::of_source(self.log(j), i);
                let queued = if i == j {
                    Seq::empty()
                } else {
                    self.matrix.cmd(i, j)@ + self.workers@[i].owner.stalled_to(j)
                };
                work == done + queued
            }),
    {
        assert(self.worker_ok(i));
        assert(self.worker_ok(j));
        let a = self.workers@[i].owner;
        let b = self.workers@[j].owner;
        a.lemma_wf(self.matrix);
        b.lemma_wf(self.matrix);
        if i == j {
            assert(lanes::of_source(self.log(j), i) + Seq::<Command>::empty() =~= lanes::of_source(self.log(j), i));
        } else {
            assert(a.row_ok(self.matrix, j));
            assert(b.col_ok(self.matrix, i));
            let ring = self.matrix.cmd(i, j);
            self.matrix.lemma_wf(self.n(), i, j);
            ring.fifo();
            assert(ring.pushed() + a.stalled_to(j) =~= ring.popped() + (ring@ + a.stalled_to(j)));
        }
    }

    /// No more was carried out than was sent, and when as much was, then everything was.
    proof fn lemma_counts(&self)
        requires
            self.wf(),
        ensures
            self.shared.applied <= self.shared.sent,
            self.shared.applied == self.shared.sent <==> forall|i: int, j: int|
                0 <= i < self.n() && 0 <= j < self.n() ==> #[trigger] lanes::of_source(self.log(j), i) == lanes::routed(
                    self.workers@[i].owner.work(),
                    j,
                    self.n(),
                ),
    {
        let n = self.n();
        let done = |i: int, j: int| lanes::of_source(self.log(j), i).len() as int;
        let work = |i: int, j: int| lanes::routed(self.workers@[i].owner.work(), j, n).len() as int;
        // The log of a shard by where its entries came from.
        let by_shard = |j: int| sums::sum(|i: int| done(i, j), n);
        assert forall|j: int| 0 <= j < n implies #[trigger] self.applied_by()(j) == by_shard(j) by {
            assert(self.worker_ok(j));
            self.workers@[j].owner.lemma_wf(self.matrix);
            lanes::sources_partition_log(self.log(j), n);
            sums::sum_of_equals(
                |i: int| lanes::of_source(self.log(j), i).len() as int,
                |i: int| done(i, j),
                n,
            );
        }
        sums::sum_of_equals(self.applied_by(), by_shard, n);
        // The same, by worker.
        let by_worker = |i: int| sums::sum(|j: int| done(i, j), n);
        sums::sum_by_rows_or_columns(done, n, n);
        assert(sums::sum(by_shard, n) == sums::sum(by_worker, n)) by {
            sums::sum_of_equals(by_worker, |i: int| sums::sum(|j: int| done(i, j), n), n);
            sums::sum_of_equals(by_shard, |j: int| sums::sum(|i: int| done(i, j), n), n);
        }
        let sent = |i: int| sums::sum(|j: int| work(i, j), n);
        assert forall|i: int| 0 <= i < n implies #[trigger] self.sent_by()(i) == sent(i) by {
            lanes::shards_partition_work(self.workers@[i].owner.work(), n);
            sums::sum_of_equals(
                |j: int| lanes::routed(self.workers@[i].owner.work(), j, n).len() as int,
                |j: int| work(i, j),
                n,
            );
        }
        sums::sum_of_equals(self.sent_by(), sent, n);
        assert forall|i: int| 0 <= i < n implies #[trigger] by_worker(i) <= sent(i) by {
            let f = |j: int| done(i, j);
            let g = |j: int| work(i, j);
            assert forall|j: int| 0 <= j < n implies #[trigger] f(j) <= g(j) by {
                self.lemma_pair(i, j);
            }
            sums::sum_is_monotone(f, g, n);
        }
        sums::sum_is_monotone(by_worker, sent, n);
        if self.shared.applied == self.shared.sent {
            assert forall|i: int, j: int| 0 <= i < n && 0 <= j < n implies #[trigger] lanes::of_source(self.log(j), i)
                == lanes::routed(self.workers@[i].owner.work(), j, n) by {
                assert(by_worker(i) == sent(i));
                let f = |j: int| done(i, j);
                let g = |j: int| work(i, j);
                assert forall|j: int| 0 <= j < n implies #[trigger] f(j) <= g(j) by {
                    self.lemma_pair(i, j);
                }
                sums::sum_is_monotone(f, g, n);
                assert(f(j) == g(j));
                self.lemma_pair(i, j);
                let w = lanes::routed(self.workers@[i].owner.work(), j, n);
                assert(w =~= lanes::of_source(self.log(j), i));
            }
        }
        if forall|i: int, j: int|
            0 <= i < n && 0 <= j < n ==> #[trigger] lanes::of_source(self.log(j), i) == lanes::routed(
                self.workers@[i].owner.work(),
                j,
                n,
            ) {
            assert forall|i: int| 0 <= i < n implies #[trigger] by_worker(i) == sent(i) by {
                let f = |j: int| done(i, j);
                let g = |j: int| work(i, j);
                assert forall|j: int| 0 <= j < n implies #[trigger] f(j) == g(j) by {
                    assert(lanes::of_source(self.log(j), i) == lanes::routed(self.workers@[i].owner.work(), j, n));
                }
                sums::sum_of_equals(f, g, n);
            }
            sums::sum_of_equals(by_worker, sent, n);
        }
    }

    /// Only writes go through the queues.
    proof fn lemma_inbox_puts(&self, id: int, from: int)
        requires
            self.wf(),
            0 <= id < self.n(),
            0 <= from,
        ensures
            lanes::all_puts(self.matrix.inbox(id, from, self.n())),
        decreases self.n() - from,
    {
        let n = self.n();
        if from < n {
            self.lemma_inbox_puts(id, from + 1);
            assert(self.worker_ok(from));
            self.workers@[from].owner.lemma_wf(self.matrix);
            self.matrix.lemma_wf(n, from, id);
            let ring = self.matrix.cmd(from, id);
            ring.fifo();
            if from != id {
                assert(self.workers@[from].owner.row_ok(self.matrix, id));
                let work = self.workers@[from].owner.work();
                lemma_routed_puts(work, id, n);
                let all = lanes::routed(work, id, n);
                assert forall|k: int| 0 <= k < ring@.len() implies (#[trigger] ring@[k]) is Put by {
                    assert(ring@[k] == ring.pushed()[ring.popped().len() + k]);
                    assert(ring.pushed()[ring.popped().len() + k] == all[ring.popped().len() + k]);
                }
            }
            let head = lanes::tagged(ring@, from);
            let tail = self.matrix.inbox(id, from + 1, n);
            assert forall|k: int| 0 <= k < (head + tail).len() implies (#[trigger] (head + tail)[k]).cmd is Put by {
                if k < head.len() {
                    assert((head + tail)[k] == head[k]);
                    assert(head[k].cmd == ring@[k]);
                } else {
                    assert((head + tail)[k] == tail[k - head.len()]);
                }
            }
        }
    }

    /// The counters stay far from their limits.
    proof fn lemma_room(&self)
        requires
            self.wf(),
        ensures
            self.shared.sent < u128::MAX,
            self.shared.applied + 1 + self.n() * lanes::LANE_CAP <= u128::MAX,
            self.shared.phase1_done <= self.n(),
            sums::sum(self.progress_of(), self.n()) <= 3 * self.total() + self.n(),
            forall|i: int|
                0 <= i < self.n() && !(#[trigger] self.workers@[i]).announced ==> self.shared.phase1_done < self.n(),
    {
        let n = self.n();
        self.lemma_counts();
        assert forall|i: int| 0 <= i < n implies 0 <= #[trigger] self.sent_by()(i) <= 0xffff_ffff_ffff_ffff by {
            assert(self.worker_ok(i));
            assert(self.workers@[i].todo.len() <= usize::MAX);
        }
        sums::sum_is_bounded(self.sent_by(), 0xffff_ffff_ffff_ffff, n);
        assert(n <= 0x8000_0000_0000_0000);
        assert forall|i: int| 0 <= i < n implies #[trigger] self.sent_by()(i) <= self.given_to()(i) by {
            assert(self.worker_ok(i));
        }
        sums::sum_is_monotone(self.sent_by(), self.given_to(), n);
        let one = |i: int| 1int;
        assert forall|i: int| 0 <= i < n implies 0 <= #[trigger] self.done_by()(i) <= 1 by {}
        sums::sum_is_bounded(self.done_by(), 1, n);
        sums::sum_is_bounded(one, 1, n);
        lemma_sum_one(one, n);
        assert forall|i: int| 0 <= i < n && !(#[trigger] self.workers@[i]).announced implies self.shared.phase1_done < n by {
            assert forall|k: int| 0 <= k < n implies #[trigger] self.done_by()(k) <= one(k) by {}
            sums::sum_is_monotone(self.done_by(), one, n);
            assert(self.done_by()(i) < one(i));
        }
        let rest = |i: int| 2 * self.given_to()(i) + self.done_by()(i);
        let upper = |i: int| rest(i) + self.applied_by()(i);
        assert forall|i: int| 0 <= i < n implies #[trigger] self.progress_of()(i) <= upper(i) by {
            assert(self.worker_ok(i));
        }
        sums::sum_is_monotone(self.progress_of(), upper, n);
        sums::sum_of_sum(rest, self.applied_by(), upper, n);
        let twice = |i: int| 2 * self.given_to()(i);
        sums::sum_of_sum(twice, self.done_by(), rest, n);
        sums::sum_of_sum(self.given_to(), self.given_to(), twice, n);
    }

    /// Lets worker `id` take one step. Returns whether anything moved.
    #[verifier::rlimit(40)]
    pub fn step(&mut self, id: usize) -> (moved: bool)
        requires
            old(self).wf(),
            id < old(self).n(),
        ensures
            final(self).wf(),
            final(self).n() == old(self).n(),
            forall|i: int| 0 <= i < old(self).n() ==> #[trigger] final(self).plan(i) == old(self).plan(i),
            final(self).total() == old(self).total(),
            old(self).log(id as int).is_prefix_of(final(self).log(id as int)),
            forall|i: int| 0 <= i < old(self).n() && i != id ==> #[trigger] final(self).log(i) == old(self).log(i),
            final(self).applied() - old(self).applied() == final(self).log(id as int).len() - old(self).log(
                id as int,
            ).len(),
            ({
                let k = id as int;
                let n = old(self).n();
                let at = old(self).sent(k).len() as int;
                let sends = !old(self).waits(k) && at < old(self).plan(k).len();
                let waiting = Seq::new(
                    n as nat,
                    |i: int| old(self).queue(i, k).map_values(|c: Command| (Entry { src: i, cmd: c })),
                ).flatten();
                &&& final(self).sent(k) == (if sends {
                    old(self).sent(k).push(old(self).plan(k)[at])
                } else {
                    old(self).sent(k)
                })
                &&& final(self).log(k) == old(self).log(k) + (if sends && shard::shard_of(
                    old(self).plan(k)[at].about(),
                    n,
                ) == k {
                    seq![Entry { src: k, cmd: old(self).plan(k)[at] }]
                } else {
                    Seq::empty()
                }) + waiting
                &&& forall|i: int| 0 <= i < n ==> (#[trigger] final(self).queue(i, k)).len() == 0
                &&& forall|i: int| 0 <= i < n && i != k ==> #[trigger] final(self).sent(i) == old(self).sent(i)
            }),
            final(self).progress() >= old(self).progress(),
            moved ==> final(self).progress() > old(self).progress(),
            !moved ==> forall|i: int|
                0 <= i < old(self).n() && (i == id || old(self).stuck_at(i)) ==> #[trigger] final(self).stuck_at(i),
    {
        let ghost n = self.n();
        let ghost k = id as int;
        proof {
            assert(self.worker_ok(k));
            self.lemma_inbox_puts(k, 0);
            self.lemma_room();
            assert(self.workers@[k].announced || self.shared.phase1_done < n);
        }
        let moved = self.workers[id].step(&mut self.matrix, &mut self.shared);
        proof {
            let before = *old(self);
            let waiting = Seq::new(
                n as nat,
                |i: int| before.queue(i, k).map_values(|c: Command| (Entry { src: i, cmd: c })),
            );
            lanes::inboxes_are_the_queues(before.matrix, k, 0, n);
            assert(waiting =~= Seq::new(
                (n - 0) as nat,
                |i: int| before.matrix.cmd(0 + i, k)@.map_values(|c: Command| (Entry { src: 0 + i, cmd: c })),
            ));
            assert(before.workers@[k].owner.id() == k);
            self.workers@[k].owner.lemma_wf(self.matrix);
            assert forall|i: int| 0 <= i < n implies #[trigger] self.worker_ok(i) by {
                assert(before.worker_ok(i));
                if i != k {
                    assert(self.workers@[i] == before.workers@[i]);
                    self.workers@[i].owner.steps_of_others(before.matrix, self.matrix, k);
                }
            }
            assert forall|i: int| 0 <= i < n && i != k implies #[trigger] before.sent_by()(i) == self.sent_by()(i) by {}
            sums::sum_changes_by(before.sent_by(), self.sent_by(), k, n);
            assert forall|i: int| 0 <= i < n && i != k implies #[trigger] before.applied_by()(i) == self.applied_by()(i) by {}
            sums::sum_changes_by(before.applied_by(), self.applied_by(), k, n);
            assert forall|i: int| 0 <= i < n && i != k implies #[trigger] before.done_by()(i) == self.done_by()(i) by {}
            sums::sum_changes_by(before.done_by(), self.done_by(), k, n);
            assert forall|i: int| 0 <= i < n && i != k implies #[trigger] before.progress_of()(i) == self.progress_of()(i) by {}
            sums::sum_changes_by(before.progress_of(), self.progress_of(), k, n);
            assert forall|i: int| 0 <= i < n implies #[trigger] before.given_to()(i) == self.given_to()(i) by {}
            sums::sum_of_equals(before.given_to(), self.given_to(), n);
            assert forall|i: int| 0 <= i < n implies #[trigger] self.plan(i) == before.plan(i) by {}
            if !moved {
                assert forall|i: int| 0 <= i < n && (i == id || before.stuck_at(i)) implies #[trigger] self.stuck_at(
                    i,
                ) by {
                    assert(before.worker_ok(i));
                    before.workers@[i].owner.lemma_wf(before.matrix);
                    if i != k {
                        assert(self.workers@[i] == before.workers@[i]);
                        assert forall|a: int| 0 <= a < n implies (#[trigger] self.matrix.cmd(a, i))@.len() == 0 by {
                            assert(before.matrix.cmd(a, i)@.len() == 0);
                        }
                        if before.workers@[i].owner.stalled() is Some {
                            let d = (before.workers@[i].owner.stalled()->0).0;
                            assert(self.matrix.cmd(i, d) == before.matrix.cmd(i, d));
                        }
                    }
                }
            }
        }
        moved
    }

    /// Worker `i` cannot take a step: nothing waits for it, and it has nothing to send or the
    /// queue that it would send to is full.
    pub closed spec fn stuck_at(&self, i: int) -> bool {
        self.workers@[i].stuck(self.matrix)
    }

    /// The steps that were taken, weighed so that each step that moves something adds to them.
    pub closed spec fn progress(&self) -> int {
        sums::sum(self.progress_of(), self.n())
    }

    /// Every worker has announced that it is done, and as much was carried out as was sent.
    pub closed spec fn finished(&self) -> bool {
        self.shared.phase1_done == self.n() && self.shared.sent == self.shared.applied
    }

    /// The mesh cannot deadlock: where no worker can take a step, it has finished.
    pub proof fn deadlock_freedom(&self)
        requires
            self.wf(),
            forall|i: int| 0 <= i < self.n() ==> #[trigger] self.stuck_at(i),
        ensures
            self.finished(),
    {
        let n = self.n();
        assert forall|i: int| 0 <= i < n implies (#[trigger] self.workers@[i]).announced && self.workers@[i].owner.stalled() is None by {
            assert(self.worker_ok(i));
            self.workers@[i].owner.lemma_wf(self.matrix);
            assert(self.stuck_at(i));
            if self.workers@[i].owner.stalled() is Some {
                let d = (self.workers@[i].owner.stalled()->0).0;
                assert(self.worker_ok(d));
                assert(self.stuck_at(d));
                assert(self.matrix.cmd(i, d)@.len() == 0);
            }
        }
        let one = |i: int| 1int;
        assert forall|i: int| 0 <= i < n implies #[trigger] self.done_by()(i) == one(i) by {
            assert(self.workers@[i].announced);
        }
        sums::sum_of_equals(self.done_by(), one, n);
        lemma_sum_one(one, n);
        assert forall|i: int, j: int| 0 <= i < n && 0 <= j < n implies #[trigger] lanes::of_source(self.log(j), i)
            == lanes::routed(self.workers@[i].owner.work(), j, n) by {
            self.lemma_pair(i, j);
            assert(self.worker_ok(j));
            assert(self.stuck_at(j));
            assert(self.matrix.cmd(i, j)@.len() == 0);
            assert(self.workers@[i].announced);
            assert(lanes::of_source(self.log(j), i) =~= lanes::routed(self.workers@[i].owner.work(), j, n));
        }
        self.lemma_counts();
    }

    /// A mesh that has finished has carried out every write that the workers were given, once.
    pub proof fn finished_is_complete(&self)
        requires
            self.wf(),
            self.finished(),
        ensures
            self.quiesced(),
            self.applied() == self.total(),
    {
        let n = self.n();
        self.lemma_counts();
        self.lemma_room();
        assert forall|i: int| 0 <= i < n implies self.plan(i) == (#[trigger] self.workers@[i]).owner.work() by {
            assert(self.worker_ok(i));
            assert(self.workers@[i].announced);
            assert(self.plan(i).take(self.plan(i).len() as int) =~= self.plan(i));
        }
        assert forall|i: int| 0 <= i < n implies #[trigger] self.sent_by()(i) == self.given_to()(i) by {
            assert(self.plan(i) == self.workers@[i].owner.work());
        }
        sums::sum_of_equals(self.sent_by(), self.given_to(), n);
        assert forall|i: int, j: int| 0 <= i < n && 0 <= j < n implies #[trigger] lanes::of_source(self.log(j), i)
            == lanes::routed(self.plan(i), j, n) by {
            assert(self.plan(i) == self.workers@[i].owner.work());
        }
    }

    /// The steps that can be taken are bounded by the number of writes.
    pub proof fn progress_is_bounded(&self)
        requires
            self.wf(),
        ensures
            self.progress() <= 3 * self.total() + self.n(),
    {
        self.lemma_room();
    }

    /// Whether every worker has sent its writes and as much was carried out as was sent.
    pub fn is_finished(&self) -> (r: bool)
        requires
            self.wf(),
        ensures
            r == self.finished(),
    {
        self.shared.phase1_done == self.shared.n && self.shared.sent == self.shared.applied
    }

    /// Lets the workers take steps in turn until nothing is in flight.
    fn run(&mut self)
        requires
            old(self).wf(),
        ensures
            final(self).wf(),
            final(self).n() == old(self).n(),
            forall|i: int| 0 <= i < old(self).n() ==> #[trigger] final(self).plan(i) == old(self).plan(i),
            final(self).total() == old(self).total(),
            final(self).finished(),
            final(self).quiesced(),
            final(self).applied() == final(self).total(),
    {
        let mut finished = self.is_finished();
        while !finished
            invariant
                self.wf(),
                self.n() == old(self).n(),
                forall|i: int| 0 <= i < self.n() ==> #[trigger] self.plan(i) == old(self).plan(i),
                self.total() == old(self).total(),
                finished == self.finished(),
            decreases 3 * self.total() + self.n() - self.progress() + flag(!finished),
        {
            let ghost start = self.progress();
            let mut moved = false;
            let mut id: usize = 0;
            while id < self.workers.len()
                invariant
                    self.wf(),
                    id <= self.n(),
                    self.n() == old(self).n(),
                    self.n() == self.workers@.len(),
                    forall|i: int| 0 <= i < self.n() ==> #[trigger] self.plan(i) == old(self).plan(i),
                    self.total() == old(self).total(),
                    self.progress() >= start,
                    moved ==> self.progress() > start,
                    !moved ==> forall|i: int| 0 <= i < id ==> #[trigger] self.stuck_at(i),
                decreases self.n() - id,
            {
                if self.step(id) {
                    moved = true;
                }
                id += 1;
            }
            finished = self.is_finished();
            proof {
                self.progress_is_bounded();
                if !moved {
                    self.deadlock_freedom();
                }
            }
        }
        proof {
            self.finished_is_complete();
        }
    }

    /// The number of shards.
    pub fn num_shards(&self) -> (r: usize)
        ensures
            r == self.n(),
    {
        self.workers.len()
    }

    /// Ends the mesh and returns the number of commands that were carried out.
    pub fn shutdown(self) -> (r: u64)
        ensures
            r == self.applied() % 0x1_0000_0000_0000_0000,
    {
        let total: u128 = self.shared.applied;
        assert((total & 0xffff_ffff_ffff_ffff) as u64 == total % 0x1_0000_0000_0000_0000) by (bit_vector);
        (total & 0xffff_ffff_ffff_ffff) as u64
    }
}

proof fn lemma_sum_one(f: spec_fn(int) -> int, n: int)
    requires
        0 <= n,
        forall|i: int| #[trigger] f(i) == 1,
    ensures
        sums::sum(f, n) == n,
    decreases n,
{
    if n > 0 {
        lemma_sum_one(f, n - 1);
        assert(f(n - 1) == 1);
    }
}

proof fn lemma_routed_puts(work: Seq<Command>, dst: int, n: int)
    requires
        forall|k: int| 0 <= k < work.len() ==> (#[trigger] work[k]) is Put,
    ensures
        forall|k: int|
            0 <= k < lanes::routed(work, dst, n).len() ==> (#[trigger] lanes::routed(work, dst, n)[k]) is Put,
    decreases work.len(),
{
    if work.len() > 0 {
        let rest = work.drop_last();
        assert forall|k: int| 0 <= k < rest.len() implies (#[trigger] rest[k]) is Put by {
            assert(rest[k] == work[k]);
        }
        lemma_routed_puts(rest, dst, n);
        assert(work[work.len() - 1] is Put);
    }
}

/// The writes of some items.
pub open spec fn puts_of(items: Seq<(Vec<u8>, Vec<u8>)>) -> Seq<Command> {
    Seq::new(items.len(), |k: int| put_of(items[k]))
}

/// `plan` is the writes of what `workload` returned for worker `id` of `n`.
pub open spec fn workload_gives<F: Fn(usize, usize) -> Vec<(Vec<u8>, Vec<u8>)>>(
    workload: F,
    id: int,
    n: int,
    plan: Seq<Command>,
) -> bool {
    exists|items: Vec<(Vec<u8>, Vec<u8>)>| #[trigger]
        call_ensures(workload, (id as usize, n as usize), items) && plan == puts_of(items@)
}

/// Makes a mesh of `requested` shards, rounded up to a power of two, and asks `workload` for
/// the writes of each worker. No step is taken yet.
pub fn prepare<F: Fn(usize, usize) -> Vec<(Vec<u8>, Vec<u8>)>>(requested: usize, workload: F) -> (r: Mesh)
    requires
        requested <= pow2::max_pow2(),
        forall|id: usize, n: usize| id < n ==> #[trigger] call_requires(workload, (id, n)),
    ensures
        r.wf(),
        pow2::is_next_pow2(r.n(), if requested < 1 {
            1
        } else {
            requested as int
        }),
        forall|i: int| 0 <= i < r.n() ==> workload_gives(workload, i, r.n(), #[trigger] r.plan(i)),
        forall|i: int| 0 <= i < r.n() ==> #[trigger] r.log(i) == Seq::<Entry>::empty(),
{
    let (matrix, mut owners) = open_lanes(requested);
    let n: usize = owners.len();
    let mut rest: Vec<ShardOwner> = Vec::new();
    let ghost all = owners@;
    // From the back, so that each owner can be moved to its worker.
    while owners.len() > 0
        invariant
            n == all.len(),
            owners@.len() + rest@.len() == n,
            owners@ == all.take(owners@.len() as int),
            forall|k: int| 0 <= k < rest@.len() ==> #[trigger] rest@[k] == all[n - 1 - k],
        decreases owners@.len(),
    {
        let ghost before = owners@;
        match owners.pop() {
            Some(o) => {
                proof {
                    assert(owners@ =~= all.take(owners@.len() as int));
                    assert(o == before[before.len() - 1]);
                }
                rest.push(o);
            },
            None => {},
        }
    }
    let mut workers: Vec<Worker> = Vec::new();
    while rest.len() > 0
        invariant
            n == all.len(),
            1 <= n <= pow2::max_pow2(),
            rest@.len() + workers@.len() == n,
            forall|k: int| 0 <= k < rest@.len() ==> #[trigger] rest@[k] == all[n - 1 - k],
            forall|i: int| 0 <= i < n ==> (#[trigger] all[i]).fresh(matrix, i, n as int),
            forall|id: usize, n: usize| id < n ==> #[trigger] call_requires(workload, (id, n)),
            forall|i: int|
                0 <= i < workers@.len() ==> {
                    &&& (#[trigger] workers@[i]).wf(matrix)
                    &&& workers@[i].owner.fresh(matrix, i, n as int)
                    &&& !workers@[i].announced
                    &&& workload_gives(workload, i, n as int, workers@[i].plan@)
                },
        decreases rest@.len(),
    {
        let id: usize = workers.len();
        let ghost before = rest@;
        match rest.pop() {
            Some(owner) => {
                let items = workload(id, n);
                let ghost plan = puts_of(items@);
                proof {
                    assert(owner == before[before.len() - 1]);
                    assert(owner == all[id as int]);
                }
                let ghost given = items;
                let w = Worker {
                    owner,
                    todo: items,
                    next: 0,
                    announced: false,
                    inflight: BTreeMap::new(),
                    plan: Ghost(plan),
                };
                proof {
                    assert(w.owner.work() =~= plan.take(0));
                    assert((id as int) as usize == id && (n as int) as usize == n);
                    assert(call_ensures(workload, ((id as int) as usize, (n as int) as usize), given));
                    assert(workload_gives(workload, id as int, n as int, plan));
                }
                workers.push(w);
            },
            None => {},
        }
    }
    let shared = MeshShared { sent: 0, applied: 0, phase1_done: 0, n };
    let mesh = Mesh { workers, matrix, shared };
    proof {
        assert forall|i: int| 0 <= i < n implies #[trigger] mesh.worker_ok(i) by {
            assert(mesh.workers@[i].wf(mesh.matrix));
        }
        assert forall|i: int| 0 <= i < n implies 0 <= #[trigger] mesh.sent_by()(i) <= 0 by {
            assert(mesh.workers@[i].owner.fresh(mesh.matrix, i, n as int));
        }
        assert forall|i: int| 0 <= i < n implies 0 <= #[trigger] mesh.applied_by()(i) <= 0 by {
            assert(mesh.workers@[i].owner.fresh(mesh.matrix, i, n as int));
        }
        assert forall|i: int| 0 <= i < n implies 0 <= #[trigger] mesh.done_by()(i) <= 0 by {
            assert(mesh.workers@[i].wf(mesh.matrix));
        }
        sums::sum_is_bounded(mesh.sent_by(), 0, n as int);
        sums::sum_is_bounded(mesh.applied_by(), 0, n as int);
        sums::sum_is_bounded(mesh.done_by(), 0, n as int);
        assert(n * 0 == 0);
    }
    proof {
        assert forall|i: int| 0 <= i < mesh.n() implies workload_gives(
            workload,
            i,
            mesh.n(),
            #[trigger] mesh.plan(i),
        ) by {
            assert(mesh.workers@[i].wf(mesh.matrix));
        }
        assert forall|i: int| 0 <= i < mesh.n() implies #[trigger] mesh.log(i) == Seq::<Entry>::empty() by {
            assert(mesh.workers@[i].owner.fresh(mesh.matrix, i, n as int));
        }
    }
    mesh
}

/// Makes a mesh of `requested` shards, rounded up to a power of two, asks `workload` for the
/// writes of each worker, and runs the workers until every write was carried out. The second
/// part of the result is 0: the number of writes is what [`Mesh::shutdown`] returns.
pub fn run_put_workload<F: Fn(usize, usize) -> Vec<(Vec<u8>, Vec<u8>)>>(requested: usize, workload: F) -> (r: (
    Mesh,
    u64,
))
    requires
        requested <= pow2::max_pow2(),
        forall|id: usize, n: usize| id < n ==> #[trigger] call_requires(workload, (id, n)),
    ensures
        r.0.wf(),
        r.1 == 0,
        pow2::is_next_pow2(r.0.n(), if requested < 1 {
            1
        } else {
            requested as int
        }),
        forall|i: int| 0 <= i < r.0.n() ==> workload_gives(workload, i, r.0.n(), #[trigger] r.0.plan(i)),
        r.0.finished(),
        r.0.quiesced(),
        r.0.applied() == r.0.total(),
{
    let mut mesh = prepare(requested, workload);
    mesh.run();
    (mesh, 0)
}

/// The core to which worker `t` is pinned, among the cores that there are. A worker for which
/// there is none runs where it is put.
pub fn core_for(cores: &Vec<usize>, t: usize) -> (r: Option<usize>)
    ensures
        r == (if t < cores@.len() {
            Some(cores@[t as int])
        } else {
            None
        }),
{
    if t < cores.len() {
        Some(cores[t])
    } else {
        None
    }
}

/// The value that the last write of `key` in `cmds` sets; `None` where none writes it.
pub open spec fn last_write(cmds: Seq<Command>, key: Seq<u8>) -> Option<Seq<u8>>
    decreases cmds.len(),
{
    if cmds.len() == 0 {
        None
    } else {
        match cmds.last() {
            Command::Put { key: k, val } => if k@ == key {
                Some(val@)
            } else {
                last_write(cmds.drop_last(), key)
            },
            Command::Get { .. } => last_write(cmds.drop_last(), key),
        }
    }
}

/// `cmds` writes `key`.
pub open spec fn writes(cmds: Seq<Command>, key: Seq<u8>) -> bool {
    exists|k: int| 0 <= k < cmds.len() && (#[trigger] cmds[k]) is Put && cmds[k].about() == key
}

proof fn lemma_last_write_routed(cmds: Seq<Command>, key: Seq<u8>, n: int)
    ensures
        last_write(lanes::routed(cmds, shard::shard_of(key, n), n), key) == last_write(cmds, key),
    decreases cmds.len(),
{
    let d = shard::shard_of(key, n);
    if cmds.len() > 0 {
        lemma_last_write_routed(cmds.drop_last(), key, n);
        if shard::shard_of(cmds.last().about(), n) == d {
            let r = lanes::routed(cmds, d, n);
            assert(r.drop_last() =~= lanes::routed(cmds.drop_last(), d, n));
        }
    }
}

proof fn lemma_writes_routed(cmds: Seq<Command>, key: Seq<u8>, dst: int, n: int)
    ensures
        writes(lanes::routed(cmds, dst, n), key) ==> writes(cmds, key),
    decreases cmds.len(),
{
    if cmds.len() > 0 {
        let rest = cmds.drop_last();
        lemma_writes_routed(rest, key, dst, n);
        let r = lanes::routed(cmds, dst, n);
        let s = lanes::routed(rest, dst, n);
        if writes(r, key) {
            let k = choose|k: int| 0 <= k < r.len() && (#[trigger] r[k]) is Put && r[k].about() == key;
            if k < s.len() {
                assert(s[k] == r[k]);
                assert(writes(s, key));
                let p = choose|p: int| 0 <= p < rest.len() && (#[trigger] rest[p]) is Put && rest[p].about() == key;
                assert(cmds[p] == rest[p]);
            } else {
                assert(cmds[cmds.len() - 1] == r[k]);
            }
        }
    }
}

proof fn lemma_single_writer(log: Seq<Entry>, key: Seq<u8>, writer: int)
    requires
        forall|k: int|
            0 <= k < log.len() && (#[trigger] log[k]).cmd is Put && log[k].cmd.about() == key ==> log[k].src == writer,
    ensures
        lanes::lookup(lanes::applied(log), key) == last_write(lanes::of_source(log, writer), key),
    decreases log.len(),
{
    if log.len() > 0 {
        let rest = log.drop_last();
        assert forall|k: int| 0 <= k < rest.len() && (#[trigger] rest[k]).cmd is Put && rest[k].cmd.about() == key
            implies rest[k].src == writer by {
            assert(rest[k] == log[k]);
        }
        lemma_single_writer(rest, key, writer);
        assert(log[log.len() - 1] == log.last());
        if log.last().src == writer {
            let s = lanes::of_source(log, writer);
            assert(s.drop_last() =~= lanes::of_source(rest, writer));
        }
    }
}

proof fn lemma_of_source_at(log: Seq<Entry>, k: int)
    requires
        0 <= k < log.len(),
    ensures
        lanes::of_source(log, log[k].src).contains(log[k].cmd),
    decreases log.len(),
{
    let rest = log.drop_last();
    let src = log[k].src;
    let s = lanes::of_source(log, src);
    if k < log.len() - 1 {
        assert(rest[k] == log[k]);
        lemma_of_source_at(rest, k);
        let t = lanes::of_source(rest, src);
        let p = choose|p: int| 0 <= p < t.len() && t[p] == log[k].cmd;
        assert(s[p] == t[p]);
    } else {
        assert(s[s.len() - 1] == log[k].cmd);
    }
}

/// A key that only one worker writes ends with the value that this worker wrote last.
pub proof fn last_write_wins(mesh: Mesh, key: Seq<u8>, writer: int)
    requires
        mesh.wf(),
        mesh.quiesced(),
        0 <= writer < mesh.n(),
        forall|i: int| 0 <= i < mesh.n() && i != writer ==> !writes(#[trigger] mesh.plan(i), key),
    ensures
        lanes::lookup(mesh.shard(shard::shard_of(key, mesh.n())), key) == last_write(mesh.plan(writer), key),
{
    let n = mesh.n();
    let d = shard::shard_of(key, n);
    vstd::arithmetic::div_mod::lemma_mod_bound(shard::fnv(key) as int, n);
    let log = mesh.log(d);
    assert(mesh.worker_ok(d));
    mesh.workers@[d].owner.lemma_wf(mesh.matrix);
    assert forall|k: int| 0 <= k < log.len() && (#[trigger] log[k]).cmd is Put && log[k].cmd.about() == key
        implies log[k].src == writer by {
        let i = log[k].src;
        lemma_of_source_at(log, k);
        assert(lanes::of_source(mesh.log(d), i) == lanes::routed(mesh.plan(i), d, n));
        let r = lanes::routed(mesh.plan(i), d, n);
        let p = choose|p: int| 0 <= p < r.len() && r[p] == log[k].cmd;
        assert(writes(r, key));
        lemma_writes_routed(mesh.plan(i), key, d, n);
    }
    lemma_single_writer(log, key, writer);
    assert(lanes::of_source(mesh.log(d), writer) == lanes::routed(mesh.plan(writer), d, n));
    lemma_last_write_routed(mesh.plan(writer), key, n);
}

/// A shard holds only keys that route to it.
pub proof fn shards_are_disjoint(mesh: Mesh, j: int, key: Seq<u8>)
    requires
        mesh.wf(),
        0 <= j < mesh.n(),
        mesh.shard(j).contains_key(key),
    ensures
        shard::shard_of(key, mesh.n()) == j,
{
    assert(mesh.worker_ok(j));
    mesh.workers@[j].owner.lemma_wf(mesh.matrix);
    lanes::applied_is_owned(mesh.log(j), key, j, mesh.n());
}

/// What a worker is to write is all that the workload gave for it, item by item and in order.
pub proof fn plans_hold_every_item<F: Fn(usize, usize) -> Vec<(Vec<u8>, Vec<u8>)>>(
    workload: F,
    id: int,
    n: int,
    plan: Seq<Command>,
)
    requires
        workload_gives(workload, id, n, plan),
    ensures
        exists|items: Vec<(Vec<u8>, Vec<u8>)>| #[trigger]
            call_ensures(workload, (id as usize, n as usize), items) && plan.len() == items@.len() && forall|k: int|
                0 <= k < items@.len() ==> (#[trigger] plan[k]) is Put && plan[k]->Put_key == items@[k].0
                    && plan[k]->Put_val == items@[k].1,
{
    let items = choose|items: Vec<(Vec<u8>, Vec<u8>)>| #[trigger]
        call_ensures(workload, (id as usize, n as usize), items) && plan == puts_of(items@);
    assert(call_ensures(workload, (id as usize, n as usize), items));
    assert forall|k: int| 0 <= k < items@.len() implies (#[trigger] plan[k]) is Put && plan[k]->Put_key == items@[k].0
        && plan[k]->Put_val == items@[k].1 by {}
}

/// A finished mesh has carried out every write of every worker, at the shard that the key belongs
/// to and nowhere else, those of one worker in the order in which it was to make them, and as many
/// as there were in all.
pub proof fn finished_meshes_hold_every_write(mesh: Mesh, i: int, j: int)
    requires
        mesh.wf(),
        mesh.finished(),
        0 <= i < mesh.n(),
        0 <= j < mesh.n(),
    ensures
        mesh.log(j).filter(|e: Entry| e.src == i).map_values(|e: Entry| e.cmd) == mesh.plan(i).filter(
            |c: Command| shard::shard_of(c.about(), mesh.n()) == j,
        ),
        mesh.applied() == sums::sum(|w: int| mesh.plan(w).len() as int, mesh.n()),
{
    mesh.finished_is_complete();
    assert(lanes::of_source(mesh.log(j), i) == lanes::routed(mesh.plan(i), j, mesh.n()));
    lanes::commands_of_a_source(mesh.log(j), i);
    lanes::commands_for_a_shard(mesh.plan(i), j, mesh.n());
    sums::sum_of_equals(mesh.given_to(), |w: int| mesh.plan(w).len() as int, mesh.n());
}

/// What a shard of a mesh holds under a key is what the last write of the key in its log wrote.
pub proof fn shards_hold_what_was_written(mesh: Mesh, j: int, key: Seq<u8>)
    ensures
        mesh.shard(j).contains_key(key) <==> exists|p: int|
            0 <= p < mesh.log(j).len() && (#[trigger] mesh.log(j)[p]).cmd is Put && mesh.log(j)[p].cmd->Put_key@ == key,
        mesh.shard(j).contains_key(key) ==> exists|p: int|
            0 <= p < mesh.log(j).len() && (#[trigger] mesh.log(j)[p]).cmd is Put && mesh.log(j)[p].cmd->Put_key@ == key
                && mesh.log(j)[p].cmd->Put_val@ == mesh.shard(j)[key] && forall|q: int|
                p < q < mesh.log(j).len() ==> !((#[trigger] mesh.log(j)[q]).cmd is Put && mesh.log(j)[q].cmd->Put_key@
                    == key),
{
    lanes::shards_hold_the_last_writes(mesh.log(j), key);
}

/// The last write of a key among some commands is the one behind which no other writes the key.
pub proof fn last_writes_are_last(cmds: Seq<Command>, key: Seq<u8>)
    ensures
        last_write(cmds, key) is Some <==> exists|p: int|
            0 <= p < cmds.len() && (#[trigger] cmds[p]) is Put && cmds[p]->Put_key@ == key,
        last_write(cmds, key) is Some ==> exists|p: int|
            0 <= p < cmds.len() && (#[trigger] cmds[p]) is Put && cmds[p]->Put_key@ == key && cmds[p]->Put_val@
                == last_write(cmds, key)->0 && forall|q: int|
                p < q < cmds.len() ==> !((#[trigger] cmds[q]) is Put && cmds[q]->Put_key@ == key),
    decreases cmds.len(),
{
    if cmds.len() > 0 {
        let rest = cmds.drop_last();
        let n = cmds.len() - 1;
        last_writes_are_last(rest, key);
        assert(cmds[n] == cmds.last());
        if !(cmds[n] is Put && cmds[n]->Put_key@ == key) {
            if exists|p: int| 0 <= p < cmds.len() && (#[trigger] cmds[p]) is Put && cmds[p]->Put_key@ == key {
                let p = choose|p: int| 0 <= p < cmds.len() && (#[trigger] cmds[p]) is Put && cmds[p]->Put_key@ == key;
                assert(rest[p] == cmds[p]);
            }
            if last_write(rest, key) is Some {
                let p = choose|p: int|
                    0 <= p < rest.len() && (#[trigger] rest[p]) is Put && rest[p]->Put_key@ == key && rest[p]->Put_val@
                        == last_write(rest, key)->0 && forall|q: int|
                        p < q < rest.len() ==> !((#[trigger] rest[q]) is Put && rest[q]->Put_key@ == key);
                assert(cmds[p] == rest[p]);
                assert forall|q: int| p < q < cmds.len() implies !((#[trigger] cmds[q]) is Put && cmds[q]->Put_key@ == key) by {
                    if q < n {
                        assert(rest[q] == cmds[q]);
                    }
                }
            }
        }
    }
}

} // verus!
