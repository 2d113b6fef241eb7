//! Shards that each belong to one worker, and the queues between the workers.
//!
//! There is a queue of commands and a queue of replies from each worker to each other worker.
//! Every queue has one writer and one reader. What a worker relies on is a matter of its own
//! two sides of the queues: of what it has put into its row and of what it has taken from its
//! column. A step of another worker changes neither ([`ShardOwner::steps_of_others`]), so what
//! is shown here of one step holds in every order in which the workers take theirs.

use vstd::prelude::*;
use crate::ordmap::OrdMap;
use crate::pow2;
use crate::shard;
use crate::shard::fnv1a;
use crate::spsc;
use crate::spsc::{Consumer, Producer, Ring};
use crate::sums;

verus! {

/// The number of slots of each queue.
pub const LANE_CAP: usize = 4096;

/// A command to the owner of a key.
pub enum Command {
    /// Sets the value of a key. There is no reply.
    Put { key: Vec<u8>, val: Vec<u8> },
    /// Asks for the value of a key. The reply goes to worker `from` and carries `token`.
    Get { key: Vec<u8>, from: usize, token: u64 },
}

/// The reply to a [`Command::Get`].
pub struct Reply {
    pub token: u64,
    pub val: Option<Vec<u8>>,
}

/// A reply as token and value.
pub type Answer = (u64, Option<Seq<u8>>);

/// A command that an owner has carried out, with the worker that it came from.
pub struct Entry {
    pub src: int,
    pub cmd: Command,
}

impl Command {
    /// The key that the command is about.
    pub open spec fn about(self) -> Seq<u8> {
        match self {
            Command::Put { key, .. } => key@,
            Command::Get { key, .. } => key@,
        }
    }
}

/// The value of `key` in `m`, if it has one.
pub open spec fn lookup(m: Map<Seq<u8>, Seq<u8>>, key: Seq<u8>) -> Option<Seq<u8>> {
    if m.contains_key(key) {
        Some(m[key])
    } else {
        None
    }
}

/// What a shard holds after the commands of `log`.
pub open spec fn applied(log: Seq<Entry>) -> Map<Seq<u8>, Seq<u8>>
    decreases log.len(),
{
    if log.len() == 0 {
        Map::empty()
    } else {
        match log.last().cmd {
            Command::Put { key, val } => applied(log.drop_last()).insert(key@, val@),
            Command::Get { .. } => applied(log.drop_last()),
        }
    }
}

/// The commands of `log` that came from worker `src`, in order.
pub open spec fn of_source(log: Seq<Entry>, src: int) -> Seq<Command>
    decreases log.len(),
{
    if log.len() == 0 {
        Seq::empty()
    } else if log.last().src == src {
        of_source(log.drop_last(), src).push(log.last().cmd)
    } else {
        of_source(log.drop_last(), src)
    }
}

/// The answers that the owner of `log` owes to worker `dst`, in order: to each `Get` the value
/// that the key had at that place of the log.
pub open spec fn answers(log: Seq<Entry>, dst: int) -> Seq<Answer>
    decreases log.len(),
{
    if log.len() == 0 {
        Seq::empty()
    } else {
        let rest = answers(log.drop_last(), dst);
        if log.last().src == dst {
            match log.last().cmd {
                Command::Get { key, token, .. } => rest.push((token, lookup(applied(log.drop_last()), key@))),
                Command::Put { .. } => rest,
            }
        } else {
            rest
        }
    }
}

/// The commands of `work` whose keys belong to shard `dst` of `n`, in order.
pub open spec fn routed(work: Seq<Command>, dst: int, n: int) -> Seq<Command>
    decreases work.len(),
{
    if work.len() == 0 {
        Seq::empty()
    } else if shard::shard_of(work.last().about(), n) == dst {
        routed(work.drop_last(), dst, n).push(work.last())
    } else {
        routed(work.drop_last(), dst, n)
    }
}

/// The log holds no `Get`.
pub open spec fn all_puts(log: Seq<Entry>) -> bool {
    forall|k: int| 0 <= k < log.len() ==> (#[trigger] log[k]).cmd is Put
}

/// A reply as an answer.
pub open spec fn answer(r: Reply) -> Answer {
    (
        r.token,
        match r.val {
            Some(v) => Some(v@),
            None => None,
        },
    )
}

/// Replies as answers.
pub open spec fn answered(s: Seq<Reply>) -> Seq<Answer> {
    Seq::new(s.len(), |i: int| answer(s[i]))
}

/// Commands as entries of a log.
pub open spec fn tagged(s: Seq<Command>, src: int) -> Seq<Entry> {
    Seq::new(s.len(), |i: int| (Entry { src, cmd: s[i] }))
}

/// `c` may stand in the queue from `src` to `dst`.
pub open spec fn lane_takes(c: Command, src: int, dst: int, n: int) -> bool {
    &&& shard::shard_of(c.about(), n) == dst
    &&& match c {
        Command::Get { from, .. } => from == src,
        Command::Put { .. } => true,
    }
}

/// A lookup gives what the map says of the key, whichever key it is.
pub proof fn lookups_are_of_entries(m: Map<Seq<u8>, Seq<u8>>, key: Seq<u8>)
    ensures
        lookup(m, key) is Some <==> m.contains_key(key),
        m.contains_key(key) ==> lookup(m, key) == Some(m[key]),
{
}

/// A shard holds a key exactly where its log has a write of it, and then it holds what the last of
/// these writes wrote.
pub proof fn shards_hold_the_last_writes(log: Seq<Entry>, key: Seq<u8>)
    ensures
        applied(log).contains_key(key) <==> exists|p: int|
            0 <= p < log.len() && (#[trigger] log[p]).cmd is Put && log[p].cmd->Put_key@ == key,
        applied(log).contains_key(key) ==> exists|p: int|
            0 <= p < log.len() && (#[trigger] log[p]).cmd is Put && log[p].cmd->Put_key@ == key && log[p].cmd->Put_val@
                == applied(log)[key] && forall|q: int|
                p < q < log.len() ==> !((#[trigger] log[q]).cmd is Put && log[q].cmd->Put_key@ == key),
    decreases log.len(),
{
    if log.len() > 0 {
        let rest = log.drop_last();
        let n = log.len() - 1;
        shards_hold_the_last_writes(rest, key);
        assert(log[n] == log.last());
        if !(log[n].cmd is Put && log[n].cmd->Put_key@ == key) {
            if exists|p: int| 0 <= p < log.len() && (#[trigger] log[p]).cmd is Put && log[p].cmd->Put_key@ == key {
                let p = choose|p: int| 0 <= p < log.len() && (#[trigger] log[p]).cmd is Put && log[p].cmd->Put_key@ == key;
                assert(rest[p] == log[p]);
            }
            if applied(rest).contains_key(key) {
                let p = choose|p: int|
                    0 <= p < rest.len() && (#[trigger] rest[p]).cmd is Put && rest[p].cmd->Put_key@ == key
                        && rest[p].cmd->Put_val@ == applied(rest)[key] && forall|q: int|
                        p < q < rest.len() ==> !((#[trigger] rest[q]).cmd is Put && rest[q].cmd->Put_key@ == key);
                assert(log[p] == rest[p]);
                assert forall|q: int| p < q < log.len() implies !((#[trigger] log[q]).cmd is Put && log[q].cmd->Put_key@ == key) by {
                    if q < n {
                        assert(rest[q] == log[q]);
                    }
                }
            }
        }
    }
}

/// The commands from a worker are all entries of the log that came from it, in order.
pub proof fn commands_of_a_source(log: Seq<Entry>, src: int)
    ensures
        of_source(log, src) == log.filter(|e: Entry| e.src == src).map_values(|e: Entry| e.cmd),
    decreases log.len(),
{
    let from = |e: Entry| e.src == src;
    let cmd = |e: Entry| e.cmd;
    reveal(Seq::filter);
    if log.len() > 0 {
        commands_of_a_source(log.drop_last(), src);
        let f = log.drop_last().filter(from);
        if from(log.last()) {
            assert(f.push(log.last()).map_values(cmd) =~= f.map_values(cmd).push(log.last().cmd));
        }
    }
    assert(of_source(log, src) =~= log.filter(from).map_values(cmd));
}

/// The commands for a shard are all commands whose keys belong to it, in order.
pub proof fn commands_for_a_shard(work: Seq<Command>, dst: int, n: int)
    ensures
        routed(work, dst, n) == work.filter(|c: Command| shard::shard_of(c.about(), n) == dst),
    decreases work.len(),
{
    let here = |c: Command| shard::shard_of(c.about(), n) == dst;
    reveal(Seq::filter);
    if work.len() > 0 {
        commands_for_a_shard(work.drop_last(), dst, n);
        assert(here(work.last()) == (shard::shard_of(work.last().about(), n) == dst));
    }
    assert(routed(work, dst, n) =~= work.filter(here));
}

/// A command is about the key that it carries, and an answer is the token and the bytes of its
/// reply.
pub proof fn commands_and_answers_are_as_they_stand(c: Command, r: Reply)
    ensures
        c is Put ==> c.about() == c->Put_key@,
        c is Get ==> c.about() == c->Get_key@,
        answer(r).0 == r.token,
        answer(r).1 is Some <==> r.val is Some,
        r.val is Some ==> answer(r).1->0 == (r.val->0)@,
{
}

/// The owner of `key` among `mask + 1` shards.
pub fn route(key: &[u8], mask: u64) -> (r: usize)
    requires
        pow2::is_pow2(mask + 1),
        mask < usize::MAX,
    ensures
        r == shard::shard_of(key@, mask + 1),
        r <= mask,
{
    let h: u64 = fnv1a(key);
    proof {
        pow2::mask_is_remainder(h, (mask + 1) as u64);
    }
    (h & mask) as usize
}

/// The queues: from worker `i` to worker `j` one of commands and one of replies.
pub struct Matrix {
    cmd: Vec<Vec<Ring<Command>>>,
    reply: Vec<Vec<Ring<Reply>>>,
}

impl Matrix {
    /// The queue of commands from `i` to `j`.
    pub closed spec fn cmd(&self, i: int, j: int) -> Ring<Command> {
        self.cmd@[i]@[j]
    }

    /// The queue of replies from `i` to `j`.
    pub closed spec fn reply(&self, i: int, j: int) -> Ring<Reply> {
        self.reply@[i]@[j]
    }

    spec fn shaped(&self, n: int) -> bool {
        &&& self.cmd@.len() == n
        &&& self.reply@.len() == n
        &&& forall|i: int| 0 <= i < n ==> (#[trigger] self.cmd@[i])@.len() == n
        &&& forall|i: int| 0 <= i < n ==> (#[trigger] self.reply@[i])@.len() == n
    }

    /// The queue of commands from `i` to `j` is in order.
    pub open spec fn cmd_ok(&self, i: int, j: int, n: int) -> bool {
        &&& self.cmd(i, j).wf()
        &&& self.cmd(i, j).capacity() == LANE_CAP
        &&& forall|k: int|
            0 <= k < self.cmd(i, j).pushed().len() ==> lane_takes(#[trigger] self.cmd(i, j).pushed()[k], i, j, n)
    }

    /// The queue of replies from `i` to `j` is in order.
    pub open spec fn reply_ok(&self, i: int, j: int) -> bool {
        &&& self.reply(i, j).wf()
        &&& self.reply(i, j).capacity() == LANE_CAP
    }

    /// There are queues between `n` workers, and each holds only what may stand in it.
    pub closed spec fn wf(&self, n: int) -> bool {
        &&& self.shaped(n)
        &&& forall|i: int, j: int| 0 <= i < n && 0 <= j < n ==> #[trigger] self.cmd_ok(i, j, n)
        &&& forall|i: int, j: int| 0 <= i < n && 0 <= j < n ==> #[trigger] self.reply_ok(i, j)
    }

    /// The queues of a well-formed matrix are in order.
    pub proof fn lemma_wf(&self, n: int, i: int, j: int)
        requires
            self.wf(n),
            0 <= i < n,
            0 <= j < n,
        ensures
            self.cmd_ok(i, j, n),
            self.reply_ok(i, j),
    {
    }

    /// Nothing stands in the queues between `n` workers.
    pub open spec fn quiet(&self, n: int) -> bool {
        &&& forall|i: int, j: int| 0 <= i < n && 0 <= j < n ==> (#[trigger] self.cmd(i, j))@.len() == 0
        &&& forall|i: int, j: int| 0 <= i < n && 0 <= j < n ==> (#[trigger] self.reply(i, j))@.len() == 0
    }

    /// Whether nothing stands in the queues between `n` workers.
    pub fn is_quiet(&self, n: usize) -> (r: bool)
        requires
            self.wf(n as int),
        ensures
            r == self.quiet(n as int),
    {
        let mut i: usize = 0;
        while i < n
            invariant
                i <= n,
                self.wf(n as int),
                forall|a: int, b: int| 0 <= a < i && 0 <= b < n ==> (#[trigger] self.cmd(a, b))@.len() == 0,
                forall|a: int, b: int| 0 <= a < i && 0 <= b < n ==> (#[trigger] self.reply(a, b))@.len() == 0,
            decreases n - i,
        {
            let mut j: usize = 0;
            while j < n
                invariant
                    i < n,
                    j <= n,
                    self.wf(n as int),
                    forall|b: int| 0 <= b < j ==> (#[trigger] self.cmd(i as int, b))@.len() == 0,
                    forall|b: int| 0 <= b < j ==> (#[trigger] self.reply(i as int, b))@.len() == 0,
                decreases n - j,
            {
                proof {
                    self.lemma_wf(n as int, i as int, j as int);
                }
                if self.cmd[i][j].len() != 0 || self.reply[i][j].len() != 0 {
                    proof {
                        assert(self.cmd(i as int, j as int)@.len() != 0 || self.reply(i as int, j as int)@.len() != 0);
                    }
                    return false;
                }
                j += 1;
            }
            i += 1;
        }
        true
    }

    /// The commands that wait for worker `id` in the queues from workers `from` to `n`, as
    /// they are carried out: one queue after the other.
    pub open spec fn inbox(&self, id: int, from: int, n: int) -> Seq<Entry>
        decreases n - from,
    {
        if from >= n {
            Seq::empty()
        } else {
            tagged(self.cmd(from, id)@, from) + self.inbox(id, from + 1, n)
        }
    }

    /// The replies that wait for worker `id` in the queues from workers `from` to `n`, as they
    /// are taken: one queue after the other.
    pub open spec fn received(&self, id: int, from: int, n: int) -> Seq<Reply>
        decreases n - from,
    {
        if from >= n {
            Seq::empty()
        } else {
            self.reply(from, id)@ + self.received(id, from + 1, n)
        }
    }

    /// Between `self` and `next` only worker `id` acted: others' rows got nothing new, and from
    /// others' columns nothing was taken.
    pub open spec fn step_of(&self, next: Matrix, id: int, n: int) -> bool {
        &&& forall|i: int, j: int|
            0 <= i < n && 0 <= j < n && i != id ==> (#[trigger] next.cmd(i, j)).pushed() == self.cmd(i, j).pushed()
        &&& forall|i: int, j: int|
            0 <= i < n && 0 <= j < n && j != id ==> (#[trigger] next.cmd(i, j)).popped() == self.cmd(i, j).popped()
        &&& forall|i: int, j: int|
            0 <= i < n && 0 <= j < n && i != id ==> (#[trigger] next.reply(i, j)).pushed() == self.reply(
                i,
                j,
            ).pushed()
        &&& forall|i: int, j: int|
            0 <= i < n && 0 <= j < n && j != id ==> (#[trigger] next.reply(i, j)).popped() == self.reply(
                i,
                j,
            ).popped()
    }

    /// What stands in the queues, where a command weighs more than a reply that can come of it.
    pub open spec fn load(&self, n: int) -> int {
        sums::grid_sum(|i: int, j: int| self.lane_load(i, j), n)
    }

    /// What stands in the queues from `i` to `j`.
    pub open spec fn lane_load(&self, i: int, j: int) -> int {
        3 * self.cmd(i, j)@.len() as int + self.reply(i, j)@.len() as int
    }

    /// The load changes by what changes in the lanes `(a, b)` and `(c, d)`.
    pub proof fn load_changes_by(&self, next: Matrix, a: int, b: int, c: int, d: int, n: int)
        requires
            0 <= a < n,
            0 <= b < n,
            0 <= c < n,
            0 <= d < n,
            !(a == c && b == d),
            forall|i: int, j: int|
                0 <= i < n && 0 <= j < n && !(i == a && j == b) && !(i == c && j == d) ==> #[trigger] next.cmd(i, j)
                    == self.cmd(i, j),
            forall|i: int, j: int|
                0 <= i < n && 0 <= j < n && !(i == a && j == b) && !(i == c && j == d) ==> #[trigger] next.reply(i, j)
                    == self.reply(i, j),
        ensures
            next.load(n) - self.load(n) == next.lane_load(a, b) - self.lane_load(a, b) + next.lane_load(c, d)
                - self.lane_load(c, d),
    {
        let f = |i: int, j: int| self.lane_load(i, j);
        let g = |i: int, j: int| next.lane_load(i, j);
        let mid = |i: int, j: int| if i == a && j == b {
            next.lane_load(i, j)
        } else {
            self.lane_load(i, j)
        };
        sums::grid_sum_changes_by(f, mid, a, b, n);
        assert forall|i: int, j: int| 0 <= i < n && 0 <= j < n && !(i == c && j == d) implies #[trigger] mid(i, j) == g(
            i,
            j,
        ) by {
            if !(i == a && j == b) {
                assert(next.cmd(i, j) == self.cmd(i, j));
                assert(next.reply(i, j) == self.reply(i, j));
            }
        }
        sums::grid_sum_changes_by(mid, g, c, d, n);
    }

    /// The load changes by what changes in the lane `(a, b)`.
    pub proof fn load_changes_at(&self, next: Matrix, a: int, b: int, n: int)
        requires
            0 <= a < n,
            0 <= b < n,
            forall|i: int, j: int|
                0 <= i < n && 0 <= j < n && !(i == a && j == b) ==> #[trigger] next.cmd(i, j) == self.cmd(i, j),
            forall|i: int, j: int|
                0 <= i < n && 0 <= j < n && !(i == a && j == b) ==> #[trigger] next.reply(i, j) == self.reply(i, j),
        ensures
            next.load(n) - self.load(n) == next.lane_load(a, b) - self.lane_load(a, b),
    {
        let f = |i: int, j: int| self.lane_load(i, j);
        let g = |i: int, j: int| next.lane_load(i, j);
        assert forall|i: int, j: int| 0 <= i < n && 0 <= j < n && !(i == a && j == b) implies #[trigger] f(i, j) == g(
            i,
            j,
        ) by {
            assert(next.cmd(i, j) == self.cmd(i, j));
            assert(next.reply(i, j) == self.reply(i, j));
        }
        sums::grid_sum_changes_by(f, g, a, b, n);
    }

    /// The load is not negative.
    pub proof fn load_is_nonnegative(&self, n: int)
        ensures
            self.load(n) >= 0,
    {
        sums::grid_sum_is_nonnegative(|i: int, j: int| self.lane_load(i, j), n);
    }

    /// All queues are as they were.
    pub open spec fn same(&self, next: Matrix, n: int) -> bool {
        &&& forall|i: int, j: int| 0 <= i < n && 0 <= j < n ==> #[trigger] next.cmd(i, j) == self.cmd(i, j)
        &&& forall|i: int, j: int| 0 <= i < n && 0 <= j < n ==> #[trigger] next.reply(i, j) == self.reply(i, j)
    }

    /// All queues but that of commands from `a` to `b` are as they were.
    pub open spec fn only_cmd(&self, next: Matrix, a: int, b: int, n: int) -> bool {
        &&& forall|i: int, j: int|
            0 <= i < n && 0 <= j < n && !(i == a && j == b) ==> #[trigger] next.cmd(i, j) == self.cmd(i, j)
        &&& forall|i: int, j: int| 0 <= i < n && 0 <= j < n ==> #[trigger] next.reply(i, j) == self.reply(i, j)
    }

    /// All queues but that of replies from `a` to `b` are as they were.
    pub open spec fn only_reply(&self, next: Matrix, a: int, b: int, n: int) -> bool {
        &&& forall|i: int, j: int|
            0 <= i < n && 0 <= j < n && !(i == a && j == b) ==> #[trigger] next.reply(i, j) == self.reply(i, j)
        &&& forall|i: int, j: int| 0 <= i < n && 0 <= j < n ==> #[trigger] next.cmd(i, j) == self.cmd(i, j)
    }

    fn push_cmd(&mut self, tx: &Producer<Command>, i: usize, j: usize, c: Command, Ghost(n): Ghost<int>) -> (r: Result<(), Command>)
        requires
            old(self).wf(n),
            i < n,
            j < n,
            lane_takes(c, i as int, j as int, n),
        ensures
            final(self).wf(n),
            old(self).only_cmd(*final(self), i as int, j as int, n),
            ({
                let before = old(self).cmd(i as int, j as int);
                let after = final(self).cmd(i as int, j as int);
                &&& after.popped() == before.popped()
                &&& r is Ok <==> before@.len() < LANE_CAP
                &&& r is Ok ==> after@ == before@.push(c) && after.pushed() == before.pushed().push(c)
                &&& r is Err ==> r->Err_0 == c && after == before
            }),
    {
        assert(self.cmd_ok(i as int, j as int, n));
        assert(self.cmd@[i as int]@.len() == n);
        let r = tx.push(&mut self.cmd[i][j], c);
        proof {
            assert forall|x: int, y: int| 0 <= x < n && 0 <= y < n && !(x == i && y == j) implies #[trigger] self.cmd(
                x,
                y,
            ) == old(self).cmd(x, y) by {}
            assert forall|x: int, y: int| 0 <= x < n && 0 <= y < n implies #[trigger] self.cmd_ok(x, y, n) by {
                assert(old(self).cmd_ok(x, y, n));
            }
            assert forall|x: int, y: int| 0 <= x < n && 0 <= y < n implies #[trigger] self.reply_ok(x, y) by {
                assert(old(self).reply_ok(x, y));
            }
        }
        r
    }

    fn push_reply(&mut self, tx: &Producer<Reply>, i: usize, j: usize, c: Reply, Ghost(n): Ghost<int>) -> (r: Result<
        (),
        Reply,
    >)
        requires
            old(self).wf(n),
            i < n,
            j < n,
        ensures
            final(self).wf(n),
            old(self).only_reply(*final(self), i as int, j as int, n),
            ({
                let before = old(self).reply(i as int, j as int);
                let after = final(self).reply(i as int, j as int);
                &&& after.popped() == before.popped()
                &&& r is Ok <==> before@.len() < LANE_CAP
                &&& r is Ok ==> after@ == before@.push(c) && after.pushed() == before.pushed().push(c)
                &&& r is Err ==> r->Err_0 == c && after == before
            }),
    {
        assert(self.reply_ok(i as int, j as int));
        assert(self.reply@[i as int]@.len() == n);
        let r = tx.push(&mut self.reply[i][j], c);
        proof {
            assert forall|x: int, y: int| 0 <= x < n && 0 <= y < n && !(x == i && y == j) implies #[trigger] self.reply(
                x,
                y,
            ) == old(self).reply(x, y) by {}
            assert forall|x: int, y: int| 0 <= x < n && 0 <= y < n implies #[trigger] self.cmd_ok(x, y, n) by {
                assert(old(self).cmd_ok(x, y, n));
            }
            assert forall|x: int, y: int| 0 <= x < n && 0 <= y < n implies #[trigger] self.reply_ok(x, y) by {
                assert(old(self).reply_ok(x, y));
            }
        }
        r
    }

    fn pop_cmd(&mut self, rx: &Consumer<Command>, i: usize, j: usize, Ghost(n): Ghost<int>) -> (r: Option<Command>)
        requires
            old(self).wf(n),
            i < n,
            j < n,
        ensures
            final(self).wf(n),
            old(self).only_cmd(*final(self), i as int, j as int, n),
            ({
                let before = old(self).cmd(i as int, j as int);
                let after = final(self).cmd(i as int, j as int);
                &&& after.pushed() == before.pushed()
                &&& r is None <==> before@.len() == 0
                &&& r is None ==> after == before
                &&& r is Some ==> r->0 == before@[0] && after@ == before@.drop_first() && after.popped()
                    == before.popped().push(r->0) && lane_takes(r->0, i as int, j as int, n)
            }),
    {
        assert(self.cmd_ok(i as int, j as int, n));
        assert(self.cmd@[i as int]@.len() == n);
        let r = rx.pop(&mut self.cmd[i][j]);
        proof {
            let before = old(self).cmd(i as int, j as int);
            before.fifo();
            if r is Some {
                assert(before.pushed()[before.popped().len() as int] == r->0);
            }
            assert forall|x: int, y: int| 0 <= x < n && 0 <= y < n && !(x == i && y == j) implies #[trigger] self.cmd(
                x,
                y,
            ) == old(self).cmd(x, y) by {}
            assert forall|x: int, y: int| 0 <= x < n && 0 <= y < n implies #[trigger] self.cmd_ok(x, y, n) by {
                assert(old(self).cmd_ok(x, y, n));
            }
            assert forall|x: int, y: int| 0 <= x < n && 0 <= y < n implies #[trigger] self.reply_ok(x, y) by {
                assert(old(self).reply_ok(x, y));
            }
        }
        r
    }

    fn pop_reply(&mut self, rx: &Consumer<Reply>, i: usize, j: usize, Ghost(n): Ghost<int>) -> (r: Option<Reply>)
        requires
            old(self).wf(n),
            i < n,
            j < n,
        ensures
            final(self).wf(n),
            old(self).only_reply(*final(self), i as int, j as int, n),
            ({
                let before = old(self).reply(i as int, j as int);
                let after = final(self).reply(i as int, j as int);
                &&& after.pushed() == before.pushed()
                &&& r is None <==> before@.len() == 0
                &&& r is None ==> after == before
                &&& r is Some ==> r->0 == before@[0] && after@ == before@.drop_first() && after.popped()
                    == before.popped().push(r->0)
            }),
    {
        assert(self.reply_ok(i as int, j as int));
        assert(self.reply@[i as int]@.len() == n);
        let r = rx.pop(&mut self.reply[i][j]);
        proof {
            assert forall|x: int, y: int| 0 <= x < n && 0 <= y < n && !(x == i && y == j) implies #[trigger] self.reply(
                x,
                y,
            ) == old(self).reply(x, y) by {}
            assert forall|x: int, y: int| 0 <= x < n && 0 <= y < n implies #[trigger] self.cmd_ok(x, y, n) by {
                assert(old(self).cmd_ok(x, y, n));
            }
            assert forall|x: int, y: int| 0 <= x < n && 0 <= y < n implies #[trigger] self.reply_ok(x, y) by {
                assert(old(self).reply_ok(x, y));
            }
        }
        r
    }
}

/// A shard with its ends of the queues.
pub struct ShardOwner {
    id: usize,
    n: usize,
    mask: u64,
    shard: OrdMap,
    cmd_tx: Vec<Producer<Command>>,
    cmd_rx: Vec<Consumer<Command>>,
    reply_tx: Vec<Producer<Reply>>,
    reply_rx: Vec<Consumer<Reply>>,
    stalled: Option<(usize, Command)>,
    unsent: Option<(usize, Reply)>,
    log: Ghost<Seq<Entry>>,
    work: Ghost<Seq<Command>>,
}

impl ShardOwner {
    /// The number of this shard.
    pub closed spec fn id(&self) -> int {
        self.id as int
    }

    /// The number of shards.
    pub closed spec fn n(&self) -> int {
        self.n as int
    }

    /// The commands that were carried out on this shard, in order.
    pub closed spec fn log(&self) -> Seq<Entry> {
        self.log@
    }

    /// The commands that were given to this worker to send, in order.
    pub closed spec fn work(&self) -> Seq<Command> {
        self.work@
    }

    /// The command that waits for room in a queue, with the worker that it is for.
    pub closed spec fn stalled(&self) -> Option<(int, Command)> {
        match self.stalled {
            Some(s) => Some((s.0 as int, s.1)),
            None => None,
        }
    }

    /// The reply that waits for room in a queue, with the worker that it is for.
    pub closed spec fn unsent(&self) -> Option<(int, Reply)> {
        match self.unsent {
            Some(s) => Some((s.0 as int, s.1)),
            None => None,
        }
    }

    /// The command that waits for room in the queue to `j`.
    pub open spec fn stalled_to(&self, j: int) -> Seq<Command> {
        match self.stalled() {
            Some((d, c)) => if d == j {
                seq![c]
            } else {
                Seq::empty()
            },
            None => Seq::empty(),
        }
    }

    /// What this worker holds back, where a command weighs more than the place that it waits
    /// for.
    pub open spec fn held(&self) -> int {
        (if self.stalled() is Some {
            4int
        } else {
            0
        }) + (if self.unsent() is Some {
            2int
        } else {
            0
        })
    }

    /// The answer that waits for room in the queue to `j`.
    pub open spec fn unsent_to(&self, j: int) -> Seq<Answer> {
        match self.unsent() {
            Some((d, r)) => if d == j {
                seq![answer(r)]
            } else {
                Seq::empty()
            },
            None => Seq::empty(),
        }
    }

    /// The worker has its place among a power of two of them, and its shard holds what the log
    /// says.
    pub closed spec fn seated(&self) -> bool {
        &&& 1 <= self.n <= pow2::max_pow2()
        &&& pow2::is_pow2(self.n as int)
        &&& self.mask == self.n - 1
        &&& self.id < self.n
        &&& self.cmd_tx@.len() == self.n
        &&& self.cmd_rx@.len() == self.n
        &&& self.reply_tx@.len() == self.n
        &&& self.reply_rx@.len() == self.n
        &&& self.shard.wf()
        &&& self.shard@ == applied(self.log@)
    }

    /// What this worker has put into its queues to `j` is what it was given for `j`, and the
    /// answers that it owes `j`.
    pub open spec fn row_ok(&self, m: Matrix, j: int) -> bool {
        &&& m.cmd(self.id(), j).pushed() + self.stalled_to(j) == routed(self.work(), j, self.n())
        &&& answered(m.reply(self.id(), j).pushed()) + self.unsent_to(j) == answers(self.log(), j)
    }

    /// What this worker has taken from the queue from `i` is what it has carried out for `i`.
    pub open spec fn col_ok(&self, m: Matrix, i: int) -> bool {
        m.cmd(i, self.id()).popped() == of_source(self.log(), i)
    }

    /// What this worker keeps true of itself and its sides of the queues.
    pub closed spec fn wf(&self, m: Matrix) -> bool {
        &&& self.seated()
        &&& m.wf(self.n as int)
        &&& forall|j: int| 0 <= j < self.n && j != self.id ==> #[trigger] self.row_ok(m, j)
        &&& forall|i: int| 0 <= i < self.n && i != self.id ==> #[trigger] self.col_ok(m, i)
        &&& of_source(self.log@, self.id as int) == routed(self.work@, self.id as int, self.n as int)
        &&& m.cmd(self.id as int, self.id as int).pushed().len() == 0
        &&& m.reply(self.id as int, self.id as int).pushed().len() == 0
        &&& self.stalled() is Some ==> {
            &&& 0 <= (self.stalled()->0).0 < self.n
            &&& (self.stalled()->0).0 != self.id
            &&& lane_takes((self.stalled()->0).1, self.id as int, (self.stalled()->0).0, self.n as int)
        }
        &&& self.unsent() is Some ==> 0 <= (self.unsent()->0).0 < self.n && (self.unsent()->0).0 != self.id
        &&& forall|k: int|
            0 <= k < self.log@.len() ==> 0 <= (#[trigger] self.log@[k]).src < self.n && shard::shard_of(
                self.log@[k].cmd.about(),
                self.n as int,
            ) == self.id
    }

    /// What a worker keeps true survives the steps of all other workers.
    pub proof fn steps_of_others(&self, before: Matrix, after: Matrix, other: int)
        requires
            self.wf(before),
            after.wf(self.n()),
            before.step_of(after, other, self.n()),
            other != self.id(),
        ensures
            self.wf(after),
    {
        let n = self.n as int;
        let id = self.id as int;
        assert forall|j: int| 0 <= j < n && j != id implies #[trigger] self.row_ok(after, j) by {
            assert(self.row_ok(before, j));
            assert(after.cmd(id, j).pushed() == before.cmd(id, j).pushed());
            assert(after.reply(id, j).pushed() == before.reply(id, j).pushed());
        }
        assert forall|i: int| 0 <= i < n && i != id implies #[trigger] self.col_ok(after, i) by {
            assert(self.col_ok(before, i));
            assert(after.cmd(i, id).popped() == before.cmd(i, id).popped());
        }
        assert(after.cmd(id, id).pushed() == before.cmd(id, id).pushed());
        assert(after.reply(id, id).pushed() == before.reply(id, id).pushed());
    }

    proof fn lemma_same(&self, before: Matrix, after: Matrix)
        requires
            self.wf(before),
            after.wf(self.n()),
            before.same(after, self.n()),
        ensures
            self.wf(after),
    {
        let n = self.n as int;
        let id = self.id as int;
        assert forall|j: int| 0 <= j < n && j != id implies #[trigger] self.row_ok(after, j) by {
            assert(self.row_ok(before, j));
            assert(after.cmd(id, j) == before.cmd(id, j));
            assert(after.reply(id, j) == before.reply(id, j));
        }
        assert forall|i: int| 0 <= i < n && i != id implies #[trigger] self.col_ok(after, i) by {
            assert(self.col_ok(before, i));
            assert(after.cmd(i, id) == before.cmd(i, id));
        }
        assert(after.cmd(id, id) == before.cmd(id, id));
        assert(after.reply(id, id) == before.reply(id, id));
    }

    /// Carries out one command and returns the reply to it.
    fn apply(&mut self, src: usize, cmd: Command) -> (r: Option<Reply>)
        requires
            old(self).seated(),
        ensures
            final(self).seated(),
            final(self).log@ == old(self).log@.push(Entry { src: src as int, cmd }),
            final(self).work@ == old(self).work@,
            final(self).stalled == old(self).stalled,
            final(self).unsent == old(self).unsent,
            final(self).id == old(self).id,
            final(self).n == old(self).n,
            match cmd {
                Command::Put { .. } => r is None,
                Command::Get { key, token, .. } => r is Some && answer(r->0) == (
                    token,
                    lookup(applied(old(self).log@), key@),
                ),
            },
    {
        proof {
            let entry = Entry { src: src as int, cmd };
            self.log@ = self.log@.push(entry);
            assert(self.log@.drop_last() =~= old(self).log@);
        }
        match cmd {
            Command::Put { key, val } => {
                self.shard.insert(key, val);
                None
            },
            Command::Get { key, from, token } => {
                let val = match self.shard.get(key.as_slice()) {
                    Some(v) => Some(vstd::slice::slice_to_vec(v.as_slice())),
                    None => None,
                };
                Some(Reply { token, val })
            },
        }
    }

    /// The same shard, in the same place.
    pub open spec fn same_seat(&self, before: ShardOwner) -> bool {
        self.id() == before.id() && self.n() == before.n()
    }

    /// Sends a command to the owner of its key: carries it out where that is this worker, else
    /// puts it into the queue. Returns `false`, and keeps the command, where the queue is full.
    pub fn send(&mut self, m: &mut Matrix, cmd: Command) -> (r: bool)
        requires
            old(self).wf(*old(m)),
            old(self).stalled() is None,
            lane_takes(cmd, old(self).id(), shard::shard_of(cmd.about(), old(self).n()), old(self).n()),
            cmd is Get ==> shard::shard_of(cmd.about(), old(self).n()) != old(self).id(),
        ensures
            final(self).wf(*final(m)),
            final(self).same_seat(*old(self)),
            old(m).step_of(*final(m), old(self).id(), old(self).n()),
            final(self).work() == old(self).work().push(cmd),
            final(self).unsent() == old(self).unsent(),
            ({
                let id = old(self).id();
                let d = shard::shard_of(cmd.about(), old(self).n());
                let before = old(m).cmd(id, d);
                let after = final(m).cmd(id, d);
                if d == id {
                    &&& r
                    &&& final(self).stalled() is None
                    &&& final(self).log() == old(self).log().push(Entry { src: id, cmd })
                    &&& *final(m) == *old(m)
                } else {
                    &&& r == (before@.len() < LANE_CAP)
                    &&& final(self).log() == old(self).log()
                    &&& old(m).only_cmd(*final(m), id, d, old(self).n())
                    &&& r ==> final(self).stalled() is None && after@ == before@.push(cmd)
                    &&& !r ==> final(self).stalled() == Some((d, cmd)) && after == before
                }
            }),
    {
        let d: usize = match &cmd {
            Command::Put { key, val } => route(key.as_slice(), self.mask),
            Command::Get { key, from, token } => route(key.as_slice(), self.mask),
        };
        let ghost n = self.n as int;
        let ghost id = self.id as int;
        proof {
            self.work@ = self.work@.push(cmd);
            assert(self.work@.drop_last() =~= old(self).work@);
            assert(self.work@.last() == cmd);
        }
        if d == self.id {
            let id_: usize = self.id;
            let none = self.apply(id_, cmd);
            proof {
                let entry = Entry { src: id, cmd };
                assert(self.log@.drop_last() =~= old(self).log@);
                assert forall|j: int| 0 <= j < n && j != id implies #[trigger] self.row_ok(*m, j) by {
                    assert(old(self).row_ok(*m, j));
                }
                assert forall|i: int| 0 <= i < n && i != id implies #[trigger] self.col_ok(*m, i) by {
                    assert(old(self).col_ok(*m, i));
                }
            }
            return true;
        }
        match m.push_cmd(&self.cmd_tx[d], self.id, d, cmd, Ghost(n)) {
            Ok(_) => {
                proof {
                    assert forall|j: int| 0 <= j < n && j != id implies #[trigger] self.row_ok(*m, j) by {
                        assert(old(self).row_ok(*old(m), j));
                        assert(m.reply(id, j) == old(m).reply(id, j));
                        assert(m.cmd(id, j).pushed() + self.stalled_to(j) =~= routed(self.work@, j, n));
                    }
                    assert forall|i: int| 0 <= i < n && i != id implies #[trigger] self.col_ok(*m, i) by {
                        assert(old(self).col_ok(*old(m), i));
                        assert(m.cmd(i, id) == old(m).cmd(i, id));
                    }
                    assert(m.cmd(id, id) == old(m).cmd(id, id));
                    assert(m.reply(id, id) == old(m).reply(id, id));
                }
                true
            },
            Err(c) => {
                self.stalled = Some((d, c));
                proof {
                    assert forall|j: int| 0 <= j < n && j != id implies #[trigger] self.row_ok(*m, j) by {
                        assert(old(self).row_ok(*old(m), j));
                        assert(m.reply(id, j) == old(m).reply(id, j));
                        assert(m.cmd(id, j) == old(m).cmd(id, j));
                        assert(m.cmd(id, j).pushed() + self.stalled_to(j) =~= routed(self.work@, j, n));
                    }
                    assert forall|i: int| 0 <= i < n && i != id implies #[trigger] self.col_ok(*m, i) by {
                        assert(old(self).col_ok(*old(m), i));
                        assert(m.cmd(i, id) == old(m).cmd(i, id));
                    }
                    assert(m.cmd(id, id) == old(m).cmd(id, id));
                    assert(m.reply(id, id) == old(m).reply(id, id));
                }
                false
            },
        }
    }

    /// Tries again to put the command that waits into its queue. Returns whether there is none
    /// waiting afterwards.
    pub fn flush(&mut self, m: &mut Matrix) -> (r: bool)
        requires
            old(self).wf(*old(m)),
        ensures
            final(self).wf(*final(m)),
            final(self).same_seat(*old(self)),
            old(m).step_of(*final(m), old(self).id(), old(self).n()),
            final(self).work() == old(self).work(),
            final(self).log() == old(self).log(),
            final(self).unsent() == old(self).unsent(),
            r == (final(self).stalled() is None),
            match old(self).stalled() {
                None => r && *final(m) == *old(m) && *final(self) == *old(self),
                Some((d, c)) => {
                    let before = old(m).cmd(old(self).id(), d);
                    let after = final(m).cmd(old(self).id(), d);
                    &&& old(m).only_cmd(*final(m), old(self).id(), d, old(self).n())
                    &&& r == (before@.len() < LANE_CAP)
                    &&& r ==> after@ == before@.push(c)
                    &&& !r ==> *final(self) == *old(self) && after == before
                },
            },
    {
        let ghost n = self.n as int;
        let ghost id = self.id as int;
        let mut waiting: Option<(usize, Command)> = None;
        std::mem::swap(&mut waiting, &mut self.stalled);
        match waiting {
            None => true,
            Some((d, c)) => {
                let ghost cmd = c;
                let done = match m.push_cmd(&self.cmd_tx[d], self.id, d, c, Ghost(n)) {
                    Ok(_) => true,
                    Err(c) => {
                        self.stalled = Some((d, c));
                        false
                    },
                };
                proof {
                    assert forall|j: int| 0 <= j < n && j != id implies #[trigger] self.row_ok(*m, j) by {
                        assert(old(self).row_ok(*old(m), j));
                        assert(m.reply(id, j) == old(m).reply(id, j));
                        if j != d {
                            assert(m.cmd(id, j) == old(m).cmd(id, j));
                        }
                        assert(m.cmd(id, j).pushed() + self.stalled_to(j) =~= old(m).cmd(id, j).pushed() + old(
                            self,
                        ).stalled_to(j));
                    }
                    assert forall|i: int| 0 <= i < n && i != id implies #[trigger] self.col_ok(*m, i) by {
                        assert(old(self).col_ok(*old(m), i));
                        assert(m.cmd(i, id) == old(m).cmd(i, id));
                    }
                    assert(m.cmd(id, id) == old(m).cmd(id, id));
                    assert(m.reply(id, id) == old(m).reply(id, id));
                }
                done
            },
        }
    }

    /// Tries again to put the reply that waits into its queue. Returns whether there is none
    /// waiting afterwards.
    pub fn deliver(&mut self, m: &mut Matrix) -> (r: bool)
        requires
            old(self).wf(*old(m)),
        ensures
            final(self).wf(*final(m)),
            final(self).same_seat(*old(self)),
            old(m).step_of(*final(m), old(self).id(), old(self).n()),
            final(self).work() == old(self).work(),
            final(self).log() == old(self).log(),
            final(self).stalled() == old(self).stalled(),
            r == (final(self).unsent() is None),
            match old(self).unsent() {
                None => r && *final(m) == *old(m) && *final(self) == *old(self),
                Some((d, c)) => {
                    let before = old(m).reply(old(self).id(), d);
                    let after = final(m).reply(old(self).id(), d);
                    &&& old(m).only_reply(*final(m), old(self).id(), d, old(self).n())
                    &&& r == (before@.len() < LANE_CAP)
                    &&& r ==> after@ == before@.push(c)
                    &&& !r ==> *final(self) == *old(self) && after == before
                },
            },
    {
        let ghost n = self.n as int;
        let ghost id = self.id as int;
        let mut waiting: Option<(usize, Reply)> = None;
        std::mem::swap(&mut waiting, &mut self.unsent);
        match waiting {
            None => true,
            Some((d, c)) => {
                let done = match m.push_reply(&self.reply_tx[d], self.id, d, c, Ghost(n)) {
                    Ok(_) => true,
                    Err(c) => {
                        self.unsent = Some((d, c));
                        false
                    },
                };
                proof {
                    assert forall|j: int| 0 <= j < n && j != id implies #[trigger] self.row_ok(*m, j) by {
                        assert(old(self).row_ok(*old(m), j));
                        assert(m.cmd(id, j) == old(m).cmd(id, j));
                        if j != d {
                            assert(m.reply(id, j) == old(m).reply(id, j));
                        }
                        assert(answered(m.reply(id, j).pushed()) + self.unsent_to(j) =~= answered(
                            old(m).reply(id, j).pushed(),
                        ) + old(self).unsent_to(j));
                    }
                    assert forall|i: int| 0 <= i < n && i != id implies #[trigger] self.col_ok(*m, i) by {
                        assert(old(self).col_ok(*old(m), i));
                        assert(m.cmd(i, id) == old(m).cmd(i, id));
                    }
                    assert(m.cmd(id, id) == old(m).cmd(id, id));
                    assert(m.reply(id, id) == old(m).reply(id, id));
                }
                done
            },
        }
    }

    /// Takes the next reply from worker `src`.
    pub fn next_reply(&mut self, m: &mut Matrix, src: usize) -> (r: Option<Reply>)
        requires
            old(self).wf(*old(m)),
            src < old(self).n(),
        ensures
            final(self).wf(*final(m)),
            *final(self) == *old(self),
            old(m).step_of(*final(m), old(self).id(), old(self).n()),
            old(m).only_reply(*final(m), src as int, old(self).id(), old(self).n()),
            ({
                let before = old(m).reply(src as int, old(self).id());
                let after = final(m).reply(src as int, old(self).id());
                &&& r is None <==> before@.len() == 0
                &&& r is None ==> after == before
                &&& r is Some ==> r->0 == before@[0] && after@ == before@.drop_first() && after.popped()
                    == before.popped().push(r->0)
            }),
    {
        let ghost n = self.n as int;
        let ghost id = self.id as int;
        let r = m.pop_reply(&self.reply_rx[src], src, self.id, Ghost(n));
        proof {
            assert forall|j: int| 0 <= j < n && j != id implies #[trigger] self.row_ok(*m, j) by {
                assert(old(self).row_ok(*old(m), j));
                assert(m.cmd(id, j) == old(m).cmd(id, j));
                assert(m.reply(id, j) == old(m).reply(id, j));
            }
            assert forall|i: int| 0 <= i < n && i != id implies #[trigger] self.col_ok(*m, i) by {
                assert(old(self).col_ok(*old(m), i));
                assert(m.cmd(i, id) == old(m).cmd(i, id));
            }
            assert(m.cmd(id, id) == old(m).cmd(id, id));
        }
        r
    }

    /// Carries out the next command from worker `src`. A reply goes into the queue to `src`, or
    /// waits where that queue is full. Returns whether there was a command.
    #[verifier::rlimit(60)]
    #[verifier::spinoff_prover]
    pub fn serve(&mut self, m: &mut Matrix, src: usize) -> (r: bool)
        requires
            old(self).wf(*old(m)),
            src < old(self).n(),
            old(self).unsent() is None,
        ensures
            final(self).wf(*final(m)),
            final(self).same_seat(*old(self)),
            old(m).step_of(*final(m), old(self).id(), old(self).n()),
            final(self).work() == old(self).work(),
            final(self).stalled() == old(self).stalled(),
            r == (old(m).cmd(src as int, old(self).id())@.len() > 0),
            !r ==> *final(self) == *old(self) && old(m).same(*final(m), old(self).n()),
            r ==> old(self).served(*old(m), *final(self), *final(m), src as int),
    {
        let ghost n = self.n as int;
        let ghost id = self.id as int;
        let ghost s = src as int;
        let cmd = match m.pop_cmd(&self.cmd_rx[src], src, self.id, Ghost(n)) {
            Some(c) => c,
            None => {
                proof {
                    assert(m.cmd(s, id) == old(m).cmd(s, id));
                    assert(old(m).same(*m, n));
                    self.lemma_same(*old(m), *m);
                }
                return false;
            },
        };
        let ghost m1 = *m;
        proof {
            old(m).lemma_wf(n, id, id);
            old(m).cmd(id, id).fifo();
            assert(s != id);
        }
        let reply = self.apply(src, cmd);
        proof {
            assert(self.log@.drop_last() =~= old(self).log@);
            assert(self.log@.last() == (Entry { src: s, cmd }));
        }
        match reply {
            None => {},
            Some(c) => {
                let ghost a = answer(c);
                match m.push_reply(&self.reply_tx[src], self.id, src, c, Ghost(n)) {
                    Ok(_) => {
                        assert(answered(m.reply(id, s)@) =~= answered(m1.reply(id, s)@).push(a));
                    },
                    Err(c) => {
                        self.unsent = Some((src, c));
                    },
                }
            },
        }
        assert(m1.reply(id, s) == old(m).reply(id, s));
        proof {
            assert forall|i: int, j: int| 0 <= i < n && 0 <= j < n implies #[trigger] m.cmd(i, j) == m1.cmd(i, j) by {}
            assert forall|j: int| 0 <= j < n && j != id implies #[trigger] self.row_ok(*m, j) by {
                assert(old(self).row_ok(*old(m), j));
                assert(m.cmd(id, j) == m1.cmd(id, j));
                assert(m1.cmd(id, j) == old(m).cmd(id, j));
                assert(m1.reply(id, j) == old(m).reply(id, j));
                if j != src {
                    assert(m.reply(id, j) == m1.reply(id, j));
                }
                assert(answered(m.reply(id, j).pushed()) + self.unsent_to(j) =~= answers(self.log@, j));
            }
            assert forall|i: int| 0 <= i < n && i != id implies #[trigger] self.col_ok(*m, i) by {
                assert(old(self).col_ok(*old(m), i));
                assert(m.cmd(i, id) == m1.cmd(i, id));
                if i != src {
                    assert(m1.cmd(i, id) == old(m).cmd(i, id));
                }
            }
            assert(m.cmd(id, id) == m1.cmd(id, id));
            assert(m1.cmd(id, id) == old(m).cmd(id, id));
            assert(m1.reply(id, id) == old(m).reply(id, id));
            assert(m.reply(id, id) == m1.reply(id, id));
            assert forall|i: int, j: int| 0 <= i < n && 0 <= j < n && !(i == id && j == s) implies #[trigger] m.reply(
                i,
                j,
            ) == old(m).reply(i, j) by {
                assert(m1.reply(i, j) == old(m).reply(i, j));
            }
            assert forall|i: int, j: int| 0 <= i < n && 0 <= j < n && !(i == s && j == id) implies #[trigger] m.cmd(
                i,
                j,
            ) == old(m).cmd(i, j) by {
                assert(m1.cmd(i, j) == old(m).cmd(i, j));
            }
        }
        true
    }

    /// From `self` and `m` to `next` and `m2` one command from `src` was carried out.
    pub open spec fn served(&self, m: Matrix, next: ShardOwner, m2: Matrix, src: int) -> bool {
        let id = self.id();
        let n = self.n();
        let cmd = m.cmd(src, id)@[0];
        &&& next.log() == self.log().push(Entry { src, cmd })
        &&& m2.cmd(src, id)@ == m.cmd(src, id)@.drop_first()
        &&& forall|i: int, j: int|
            0 <= i < n && 0 <= j < n && !(i == src && j == id) ==> #[trigger] m2.cmd(i, j) == m.cmd(i, j)
        &&& forall|i: int, j: int|
            0 <= i < n && 0 <= j < n && !(i == id && j == src) ==> #[trigger] m2.reply(i, j) == m.reply(i, j)
        &&& cmd is Put ==> next.unsent() is None && m2.reply(id, src) == m.reply(id, src)
        &&& cmd is Get ==> {
            let room = m.reply(id, src)@.len() < LANE_CAP;
            let a = (cmd->token, lookup(applied(self.log()), cmd.about()));
            &&& room ==> {
                &&& next.unsent() is None
                &&& answered(m2.reply(id, src)@) == answered(m.reply(id, src)@).push(a)
            }
            &&& !room ==> {
                &&& m2.reply(id, src) == m.reply(id, src)
                &&& next.unsent() is Some
                &&& (next.unsent()->0).0 == src
                &&& answer((next.unsent()->0).1) == a
            }
        }
    }

    proof fn lemma_served_load(&self, m: Matrix, next: ShardOwner, m2: Matrix, src: int)
        requires
            self.served(m, next, m2, src),
            self.wf(m),
            self.unsent() is None,
            next.stalled() == self.stalled(),
            0 <= src < self.n(),
            m.cmd(src, self.id())@.len() > 0,
        ensures
            m2.load(self.n()) + next.held() + 1 <= m.load(self.n()) + self.held(),
    {
        let id = self.id();
        let n = self.n();
        m.lemma_wf(n, id, id);
        m.cmd(id, id).fifo();
        m.load_changes_by(m2, src, id, id, src, n);
        assert(m2.cmd(id, src) == m.cmd(id, src));
        assert(m2.reply(src, id) == m.reply(src, id));
        let cmd = m.cmd(src, id)@[0];
        if cmd is Get && m.reply(id, src)@.len() < LANE_CAP {
            assert(answered(m2.reply(id, src)@).len() == m2.reply(id, src)@.len());
            assert(answered(m.reply(id, src)@).len() == m.reply(id, src)@.len());
        }
    }

    /// Carries out the commands that wait for this worker, one queue after the other, until
    /// none is left or a reply has to wait. Returns their number.
    #[verifier::rlimit(60)]
    #[verifier::spinoff_prover]
    pub fn pump(&mut self, m: &mut Matrix) -> (count: u128)
        requires
            old(self).wf(*old(m)),
        ensures
            final(self).wf(*final(m)),
            final(self).same_seat(*old(self)),
            old(m).step_of(*final(m), old(self).id(), old(self).n()),
            final(self).work() == old(self).work(),
            final(self).stalled() == old(self).stalled(),
            ({
                let id = old(self).id();
                let n = old(self).n();
                let inbox = old(m).inbox(id, 0, n);
                &&& count <= inbox.len()
                &&& final(self).log() == old(self).log() + inbox.take(count as int)
                &&& final(self).unsent() is None ==> count == inbox.len() && forall|i: int|
                    0 <= i < n ==> (#[trigger] final(m).cmd(i, id))@.len() == 0
                &&& forall|i: int, j: int|
                    0 <= i < n && 0 <= j < n && j != id ==> #[trigger] final(m).cmd(i, j) == old(m).cmd(i, j)
                &&& forall|i: int, j: int|
                    0 <= i < n && 0 <= j < n && i != id ==> #[trigger] final(m).reply(i, j) == old(m).reply(i, j)
                &&& count == 0 && (old(self).unsent() is None || final(self).unsent() is Some) ==> *final(self) == *old(
                    self,
                ) && old(m).same(*final(m), n)
                &&& count <= n * LANE_CAP
                &&& old(self).unsent() is None && all_puts(inbox) ==> final(self).unsent() is None
                &&& final(m).load(n) + final(self).held() + count <= old(m).load(n) + old(self).held()
                &&& old(self).unsent() is None && (forall|j: int|
                    0 <= j < n ==> (#[trigger] old(m).reply(id, j))@.len() + inbox.len() <= LANE_CAP)
                    ==> final(self).unsent() is None
            }),
    {
        let ghost n = self.n as int;
        let ghost id = self.id as int;
        let ghost inbox = m.inbox(id, 0, n);
        let mut count: u128 = 0;
        let ghost m0 = *m;
        if !self.deliver(m) {
            proof {
                assert(self.log() =~= old(self).log() + inbox.take(0));
                let d = (old(self).unsent()->0).0;
                m0.load_changes_at(*m, id, d, n);
            }
            return 0;
        }
        let ghost m1 = *m;
        proof {
            if old(self).unsent() is Some {
                let d = (old(self).unsent()->0).0;
                m0.load_changes_at(m1, id, d, n);
                assert(m1.cmd(id, d) == m0.cmd(id, d));
            }
            inbox_is_the_column(m0, m1, id, 0, n);
            assert(inbox.skip(0) =~= inbox);
            assert(self.log() =~= old(self).log() + inbox.take(0));
        }
        let mut src: usize = 0;
        while src < self.n
            invariant
                self.wf(*m),
                self.same_seat(*old(self)),
                n == self.n,
                id == self.id,
                n == old(self).n(),
                id == old(self).id(),
                src <= n,
                n <= usize::MAX,
                m0 == *old(m),
                m0.step_of(*m, id, n),
                self.work() == old(self).work(),
                self.stalled() == old(self).stalled(),
                self.unsent() is None,
                inbox == m0.inbox(id, 0, n),
                count <= inbox.len(),
                count <= src * LANE_CAP,
                self.log() == old(self).log() + inbox.take(count as int),
                inbox.skip(count as int) == m.inbox(id, src as int, n),
                forall|i: int| 0 <= i < src ==> (#[trigger] m.cmd(i, id))@.len() == 0,
                forall|i: int, j: int|
                    0 <= i < n && 0 <= j < n && j != id ==> #[trigger] m.cmd(i, j) == m0.cmd(i, j),
                forall|i: int, j: int|
                    0 <= i < n && 0 <= j < n && i != id ==> #[trigger] m.reply(i, j) == m0.reply(i, j),
                count == 0 && old(self).unsent() is None ==> *self == *old(self) && old(m).same(*m, n),
                m.load(n) + self.held() + count <= m0.load(n) + old(self).held(),
                old(self).unsent() is None ==> forall|j: int|
                    0 <= j < n ==> (#[trigger] m.reply(id, j))@.len() <= m0.reply(id, j)@.len() + count,
            decreases n - src,
        {
            let mut taken: usize = 0;
            let mut more = true;
            proof {
                m.lemma_wf(n, src as int, id);
                m.cmd(src as int, id).fifo();
            }
            while more
                invariant
                    self.wf(*m),
                    self.same_seat(*old(self)),
                    n == self.n,
                    id == self.id,
                    n == old(self).n(),
                    id == old(self).id(),
                    src < n,
                    n <= usize::MAX,
                    m0 == *old(m),
                    m0.step_of(*m, id, n),
                    self.work() == old(self).work(),
                    self.stalled() == old(self).stalled(),
                    self.unsent() is None,
                    inbox == m0.inbox(id, 0, n),
                    count <= inbox.len(),
                    taken + m.cmd(src as int, id)@.len() <= LANE_CAP,
                    count <= src * LANE_CAP + taken,
                    self.log() == old(self).log() + inbox.take(count as int),
                    inbox.skip(count as int) == m.inbox(id, src as int, n),
                    forall|i: int| 0 <= i < src ==> (#[trigger] m.cmd(i, id))@.len() == 0,
                    !more ==> m.cmd(src as int, id)@.len() == 0,
                    forall|i: int, j: int|
                        0 <= i < n && 0 <= j < n && j != id ==> #[trigger] m.cmd(i, j) == m0.cmd(i, j),
                    forall|i: int, j: int|
                        0 <= i < n && 0 <= j < n && i != id ==> #[trigger] m.reply(i, j) == m0.reply(i, j),
                    count == 0 && old(self).unsent() is None ==> *self == *old(self) && old(m).same(*m, n),
                    m.load(n) + self.held() + count <= m0.load(n) + old(self).held(),
                    old(self).unsent() is None ==> forall|j: int|
                        0 <= j < n ==> (#[trigger] m.reply(id, j))@.len() <= m0.reply(id, j)@.len() + count,
                decreases m.cmd(src as int, id)@.len() + (if more {
                    1int
                } else {
                    0
                }),
            {
                let ghost before = *m;
                let ghost log = self.log();
                let ghost owner = *self;
                more = self.serve(m, src);
                if more {
                    proof {
                        let c = before.cmd(src as int, id)@[0];
                        let e = Entry { src: src as int, cmd: c };
                        assert(owner.served(before, *self, *m, src as int));
                        lemma_inbox_served(before, *m, id, src as int, n);
                        assert(inbox[count as int] == e) by {
                            assert(inbox.skip(count as int)[0] == e);
                        }
                        assert(inbox.take(count + 1) =~= inbox.take(count as int).push(e));
                        assert(self.log() =~= old(self).log() + inbox.take(count + 1));
                        assert(inbox.skip(count + 1) =~= inbox.skip(count as int).drop_first());
                        steps_compose(m0, before, *m, id, n);
                        owner.lemma_served_load(before, *self, *m, src as int);
                        assert forall|j: int| 0 <= j < n implies (#[trigger] m.reply(id, j))@.len() <= before.reply(
                            id,
                            j,
                        )@.len() + 1 by {
                            if j != src {
                                assert(m.reply(id, j) == before.reply(id, j));
                            } else if c is Get {
                                assert(answered(m.reply(id, j)@).len() == m.reply(id, j)@.len());
                                assert(answered(before.reply(id, j)@).len() == before.reply(id, j)@.len());
                            }
                        }
                    }
                    taken = taken + 1;
                    count = count + 1;
                    if self.unsent.is_some() {
                        assert(inbox[count - 1].cmd is Get);
                        return count;
                    }
                } else {
                    proof {
                        before.load_changes_at(*m, id, id, n);
                        inbox_is_the_column(before, *m, id, src as int, n);
                        steps_compose(m0, before, *m, id, n);
                    }
                }
            }
            proof {
                lemma_inbox_next(*m, id, src as int, n);
                assert((src + 1) * LANE_CAP == src * LANE_CAP + LANE_CAP);
            }
            src += 1;
        }
        proof {
            assert(inbox.skip(count as int).len() == 0);
        }
        count
    }

    /// Delivers the reply that waits and carries out the commands that wait, until none is left
    /// or a reply has to wait. Returns whether anything moved.
    #[verifier::rlimit(40)]
    #[verifier::spinoff_prover]
    pub fn catch_up(&mut self, m: &mut Matrix) -> (moved: bool)
        requires
            old(self).wf(*old(m)),
        ensures
            final(self).wf(*final(m)),
            final(self).same_seat(*old(self)),
            old(m).step_of(*final(m), old(self).id(), old(self).n()),
            final(self).work() == old(self).work(),
            final(self).stalled() == old(self).stalled(),
            old(self).caught_up(*old(m), *final(self), *final(m)),
            ({
                let n = old(self).n();
                &&& final(m).load(n) + final(self).held() <= old(m).load(n) + old(self).held()
                &&& moved ==> final(m).load(n) + final(self).held() < old(m).load(n) + old(self).held()
                &&& !moved ==> {
                    &&& *final(self) == *old(self)
                    &&& old(m).same(*final(m), n)
                    &&& final(self).unsent() is Some ==> final(m).reply(
                        old(self).id(),
                        (final(self).unsent()->0).0,
                    )@.len() == LANE_CAP
                }
            }),
    {
        let ghost id = self.id();
        let ghost n = self.n();
        let ghost m0 = *m;
        let ghost owner0 = *self;
        let blocked = self.is_blocked();
        let free = self.deliver(m);
        let ghost m1 = *m;
        proof {
            if owner0.unsent() is Some {
                let d = (owner0.unsent()->0).0;
                m0.load_changes_at(m1, id, d, n);
                assert(m1.cmd(id, d) == m0.cmd(id, d));
                m0.lemma_wf(n, id, d);
                m0.reply(id, d).fifo();
            }
            assert forall|i: int| 0 <= i < n implies (#[trigger] m1.cmd(i, id))@ == m0.cmd(i, id)@ by {}
            inbox_is_the_column(m0, m1, id, 0, n);
        }
        if !free {
            assert(self.log() =~= owner0.log() + m0.inbox(id, 0, n).take(0));
            return false;
        }
        let count: u128 = self.pump(m);
        proof {
            steps_compose(m0, m1, *m, id, n);
            assert forall|i: int, j: int| 0 <= i < n && 0 <= j < n && j != id implies #[trigger] m.cmd(i, j) == m0.cmd(
                i,
                j,
            ) by {
                assert(m1.cmd(i, j) == m0.cmd(i, j));
            }
            assert forall|i: int, j: int| 0 <= i < n && 0 <= j < n && i != id implies #[trigger] m.reply(i, j)
                == m0.reply(i, j) by {
                assert(m1.reply(i, j) == m0.reply(i, j));
            }
            if !blocked {
                assert forall|j: int| 0 <= j < n implies (#[trigger] m1.reply(id, j)) == m0.reply(id, j) by {}
            }
            if count == 0 && !blocked {
                assert forall|i: int, j: int| 0 <= i < n && 0 <= j < n implies #[trigger] m.cmd(i, j) == m0.cmd(i, j) by {
                    assert(m1.cmd(i, j) == m0.cmd(i, j));
                }
                assert forall|i: int, j: int| 0 <= i < n && 0 <= j < n implies #[trigger] m.reply(i, j) == m0.reply(
                    i,
                    j,
                ) by {
                    assert(m1.reply(i, j) == m0.reply(i, j));
                }
            }
        }
        blocked || count > 0
    }

    /// From `self` and `m` to `next` and `m2` the commands that waited were carried out, in
    /// order, until a reply had to wait.
    pub open spec fn caught_up(&self, m: Matrix, next: ShardOwner, m2: Matrix) -> bool {
        let id = self.id();
        let n = self.n();
        let inbox = m.inbox(id, 0, n);
        let count = next.log().len() - self.log().len();
        &&& 0 <= count <= inbox.len()
        &&& next.log() == self.log() + inbox.take(count)
        &&& next.unsent() is None ==> count == inbox.len() && forall|i: int|
            0 <= i < n ==> (#[trigger] m2.cmd(i, id))@.len() == 0
        &&& forall|i: int, j: int| 0 <= i < n && 0 <= j < n && j != id ==> #[trigger] m2.cmd(i, j) == m.cmd(i, j)
        &&& forall|i: int, j: int| 0 <= i < n && 0 <= j < n && i != id ==> #[trigger] m2.reply(i, j) == m.reply(i, j)
        &&& self.unsent() is None && (forall|j: int|
            0 <= j < n ==> (#[trigger] m.reply(id, j))@.len() + inbox.len() <= LANE_CAP) ==> next.unsent() is None
    }

    /// Takes all replies that wait for this worker, one queue after the other.
    pub fn collect(&mut self, m: &mut Matrix) -> (r: Vec<Reply>)
        requires
            old(self).wf(*old(m)),
        ensures
            final(self).wf(*final(m)),
            *final(self) == *old(self),
            old(m).step_of(*final(m), old(self).id(), old(self).n()),
            r@ == old(m).received(old(self).id(), 0, old(self).n()),
            forall|i: int| 0 <= i < old(self).n() ==> (#[trigger] final(m).reply(i, old(self).id()))@.len() == 0,
            forall|i: int, j: int|
                0 <= i < old(self).n() && 0 <= j < old(self).n() ==> #[trigger] final(m).cmd(i, j) == old(m).cmd(i, j),
            forall|i: int, j: int|
                0 <= i < old(self).n() && 0 <= j < old(self).n() && j != old(self).id() ==> #[trigger] final(m).reply(
                    i,
                    j,
                ) == old(m).reply(i, j),
            r@.len() == 0 ==> old(m).same(*final(m), old(self).n()),
            final(m).load(old(self).n()) + r@.len() == old(m).load(old(self).n()),
    {
        let ghost n = self.n as int;
        let ghost id = self.id as int;
        let mut r: Vec<Reply> = Vec::new();
        let mut src: usize = 0;
        assert(r@ + m.received(id, 0, n) =~= m.received(id, 0, n));
        while src < self.n
            invariant
                self.wf(*m),
                *self == *old(self),
                n == self.n,
                id == self.id,
                src <= n,
                old(m).step_of(*m, id, n),
                r@ + m.received(id, src as int, n) == old(m).received(id, 0, n),
                forall|i: int| 0 <= i < src ==> (#[trigger] m.reply(i, id))@.len() == 0,
                forall|i: int, j: int| 0 <= i < n && 0 <= j < n ==> #[trigger] m.cmd(i, j) == old(m).cmd(i, j),
                forall|i: int, j: int|
                    0 <= i < n && 0 <= j < n && j != id ==> #[trigger] m.reply(i, j) == old(m).reply(i, j),
                r@.len() == 0 ==> old(m).same(*m, n),
                m.load(n) + r@.len() == old(m).load(n),
            decreases n - src,
        {
            let mut more = true;
            while more
                invariant
                    self.wf(*m),
                    *self == *old(self),
                    n == self.n,
                    id == self.id,
                    src < n,
                    old(m).step_of(*m, id, n),
                    r@ + m.received(id, src as int, n) == old(m).received(id, 0, n),
                    forall|i: int| 0 <= i < src ==> (#[trigger] m.reply(i, id))@.len() == 0,
                    !more ==> m.reply(src as int, id)@.len() == 0,
                    forall|i: int, j: int| 0 <= i < n && 0 <= j < n ==> #[trigger] m.cmd(i, j) == old(m).cmd(i, j),
                    forall|i: int, j: int|
                        0 <= i < n && 0 <= j < n && j != id ==> #[trigger] m.reply(i, j) == old(m).reply(i, j),
                    r@.len() == 0 ==> old(m).same(*m, n),
                    m.load(n) + r@.len() == old(m).load(n),
                decreases m.reply(src as int, id)@.len() + (if more {
                    1int
                } else {
                    0
                }),
            {
                let ghost before = *m;
                let ghost got = r@;
                match self.next_reply(m, src) {
                    Some(reply) => {
                        r.push(reply);
                        proof {
                            lemma_received_same(before, *m, id, src + 1, n);
                            assert(got + before.received(id, src as int, n) =~= r@ + m.received(id, src as int, n));
                        }
                    },
                    None => {
                        more = false;
                        proof {
                            lemma_received_same(before, *m, id, src as int, n);
                        }
                    },
                }
                proof {
                    steps_compose(*old(m), before, *m, id, n);
                    before.load_changes_at(*m, src as int, id, n);
                    assert(m.cmd(src as int, id) == before.cmd(src as int, id));
                }
            }
            proof {
                assert(m.received(id, src as int, n) =~= m.received(id, src + 1, n));
            }
            src += 1;
        }
        assert(r@ + m.received(id, src as int, n) =~= r@);
        r
    }

    /// The value of `key`, which this worker owns.
    pub fn read(&self, key: &[u8]) -> (r: Option<Vec<u8>>)
        requires
            self.seated(),
        ensures
            lookup(applied(self.log()), key@) == (match r {
                Some(v) => Some(v@),
                None => None,
            }),
    {
        match self.shard.get(key) {
            Some(v) => Some(vstd::slice::slice_to_vec(v.as_slice())),
            None => None,
        }
    }
}

/// Steps of one worker, one after the other, are a step of that worker.
pub proof fn steps_compose(a: Matrix, b: Matrix, c: Matrix, id: int, n: int)
    requires
        a.step_of(b, id, n),
        b.step_of(c, id, n),
    ensures
        a.step_of(c, id, n),
{
    assert forall|i: int, j: int| 0 <= i < n && 0 <= j < n && i != id implies (#[trigger] c.cmd(i, j)).pushed() == a.cmd(
        i,
        j,
    ).pushed() by {
        assert(b.cmd(i, j).pushed() == a.cmd(i, j).pushed());
    }
    assert forall|i: int, j: int| 0 <= i < n && 0 <= j < n && j != id implies (#[trigger] c.cmd(i, j)).popped() == a.cmd(
        i,
        j,
    ).popped() by {
        assert(b.cmd(i, j).popped() == a.cmd(i, j).popped());
    }
    assert forall|i: int, j: int| 0 <= i < n && 0 <= j < n && i != id implies (#[trigger] c.reply(i, j)).pushed()
        == a.reply(i, j).pushed() by {
        assert(b.reply(i, j).pushed() == a.reply(i, j).pushed());
    }
    assert forall|i: int, j: int| 0 <= i < n && 0 <= j < n && j != id implies (#[trigger] c.reply(i, j)).popped()
        == a.reply(i, j).popped() by {
        assert(b.reply(i, j).popped() == a.reply(i, j).popped());
    }
}

proof fn lemma_received_same(a: Matrix, b: Matrix, id: int, from: int, n: int)
    requires
        forall|i: int| from <= i < n ==> (#[trigger] b.reply(i, id))@ == a.reply(i, id)@,
    ensures
        a.received(id, from, n) == b.received(id, from, n),
    decreases n - from,
{
    if from < n {
        lemma_received_same(a, b, id, from + 1, n);
        assert(b.reply(from, id)@ == a.reply(from, id)@);
    }
}

/// The replies to a worker are a matter of the queues from the others.
pub proof fn received_is_from_others(a: Matrix, b: Matrix, id: int, from: int, n: int)
    requires
        0 <= from,
        forall|i: int, j: int| 0 <= i < n && 0 <= j < n && i != id ==> #[trigger] b.reply(i, j) == a.reply(i, j),
        0 <= id < n,
        b.reply(id, id)@.len() == 0,
        a.reply(id, id)@.len() == 0,
    ensures
        a.received(id, from, n) == b.received(id, from, n),
    decreases n - from,
{
    if from < n {
        received_is_from_others(a, b, id, from + 1, n);
        if from == id {
            assert(a.reply(id, id)@ =~= b.reply(id, id)@);
        } else {
            assert(b.reply(from, id) == a.reply(from, id));
        }
    }
}

/// Where no reply waits, the queues to the worker are empty.
pub proof fn nothing_received(m: Matrix, id: int, from: int, n: int)
    requires
        0 <= from,
        m.received(id, from, n).len() == 0,
    ensures
        forall|i: int| from <= i < n ==> (#[trigger] m.reply(i, id))@.len() == 0,
    decreases n - from,
{
    if from < n {
        nothing_received(m, id, from + 1, n);
    }
}

/// The inbox is a matter of the worker's column alone.
pub proof fn inbox_is_the_column(a: Matrix, b: Matrix, id: int, from: int, n: int)
    requires
        forall|i: int| from <= i < n ==> (#[trigger] b.cmd(i, id))@ == a.cmd(i, id)@,
    ensures
        a.inbox(id, from, n) == b.inbox(id, from, n),
    decreases n - from,
{
    if from < n {
        inbox_is_the_column(a, b, id, from + 1, n);
        assert(b.cmd(from, id)@ == a.cmd(from, id)@);
    }
}

proof fn lemma_inbox_served(a: Matrix, b: Matrix, id: int, src: int, n: int)
    requires
        0 <= src < n,
        a.cmd(src, id)@.len() > 0,
        b.cmd(src, id)@ == a.cmd(src, id)@.drop_first(),
        forall|i: int| src < i < n ==> (#[trigger] b.cmd(i, id)) == a.cmd(i, id),
    ensures
        a.inbox(id, src, n).len() > 0,
        a.inbox(id, src, n)[0] == (Entry { src, cmd: a.cmd(src, id)@[0] }),
        b.inbox(id, src, n) == a.inbox(id, src, n).drop_first(),
{
    inbox_is_the_column(a, b, id, src + 1, n);
    assert(b.inbox(id, src, n) =~= a.inbox(id, src, n).drop_first());
}

proof fn lemma_inbox_next(m: Matrix, id: int, src: int, n: int)
    requires
        0 <= src < n,
        m.cmd(src, id)@.len() == 0,
    ensures
        m.inbox(id, src, n) == m.inbox(id, src + 1, n),
{
    assert(m.inbox(id, src, n) =~= m.inbox(id, src + 1, n));
}

/// A queue through which nothing has gone.
pub open spec fn unused<T>(r: Ring<T>) -> bool {
    &&& r.wf()
    &&& r.capacity() == LANE_CAP
    &&& r.pushed() == Seq::<T>::empty()
    &&& r.popped() == Seq::<T>::empty()
    &&& r@ == Seq::<T>::empty()
}

fn lane<T>() -> (r: (Ring<T>, Producer<T>, Consumer<T>))
    ensures
        unused(r.0),
{
    let r = spsc::channel::<T>(LANE_CAP);
    proof {
        vstd::arithmetic::power2::lemma2_to64();
        assert(vstd::arithmetic::power2::pow2(12) == LANE_CAP);
    }
    r
}

/// A row of a square of queues, or of the ends of queues, as it grows.
fn empty_rows<T>(n: usize) -> (r: Vec<Vec<T>>)
    ensures
        r@.len() == n,
        forall|i: int| 0 <= i < n ==> (#[trigger] r@[i])@.len() == 0,
{
    let mut r: Vec<Vec<T>> = Vec::new();
    while r.len() < n
        invariant
            r@.len() <= n,
            forall|i: int| 0 <= i < r@.len() ==> (#[trigger] r@[i])@.len() == 0,
        decreases n - r@.len(),
    {
        r.push(Vec::new());
    }
    r
}

/// Makes an `n` by `n` square of queues: the queues by row, their producers by row, and their
/// consumers by column.
fn grid<T>(n: usize) -> (r: (Vec<Vec<Ring<T>>>, Vec<Vec<Producer<T>>>, Vec<Vec<Consumer<T>>>))
    ensures
        r.0@.len() == n,
        r.1@.len() == n,
        r.2@.len() == n,
        forall|i: int| 0 <= i < n ==> (#[trigger] r.0@[i])@.len() == n,
        forall|i: int| 0 <= i < n ==> (#[trigger] r.1@[i])@.len() == n,
        forall|i: int| 0 <= i < n ==> (#[trigger] r.2@[i])@.len() == n,
        forall|i: int, j: int| 0 <= i < n && 0 <= j < n ==> unused(#[trigger] r.0@[i]@[j]),
{
    let mut rings: Vec<Vec<Ring<T>>> = Vec::new();
    let mut tx: Vec<Vec<Producer<T>>> = Vec::new();
    let mut rx: Vec<Vec<Consumer<T>>> = empty_rows(n);
    while rings.len() < n
        invariant
            rings@.len() <= n,
            tx@.len() == rings@.len(),
            rx@.len() == n,
            forall|i: int| 0 <= i < rings@.len() ==> (#[trigger] rings@[i])@.len() == n,
            forall|i: int| 0 <= i < rings@.len() ==> (#[trigger] tx@[i])@.len() == n,
            forall|i: int| 0 <= i < n ==> (#[trigger] rx@[i])@.len() == rings@.len(),
            forall|i: int, j: int| 0 <= i < rings@.len() && 0 <= j < n ==> unused(#[trigger] rings@[i]@[j]),
        decreases n - rings@.len(),
    {
        let mut row: Vec<Ring<T>> = Vec::new();
        let mut out: Vec<Producer<T>> = Vec::new();
        let ghost k = rings@.len();
        while row.len() < n
            invariant
                row@.len() <= n,
                out@.len() == row@.len(),
                rx@.len() == n,
                forall|j: int| 0 <= j < row@.len() ==> (#[trigger] rx@[j])@.len() == k + 1,
                forall|j: int| row@.len() <= j < n ==> (#[trigger] rx@[j])@.len() == k,
                forall|j: int| 0 <= j < row@.len() ==> unused(#[trigger] row@[j]),
            decreases n - row@.len(),
        {
            let j: usize = row.len();
            let (ring, producer, consumer) = lane::<T>();
            row.push(ring);
            out.push(producer);
            rx[j].push(consumer);
        }
        rings.push(row);
        tx.push(out);
    }
    (rings, tx, rx)
}

/// Makes `requested` shards, rounded up to a power of two, with the queues between them.
pub fn open_lanes(requested: usize) -> (r: (Matrix, Vec<ShardOwner>))
    requires
        requested <= pow2::max_pow2(),
    ensures
        pow2::is_next_pow2(r.1@.len() as int, if requested < 1 {
            1
        } else {
            requested as int
        }),
        r.1@.len() <= pow2::max_pow2(),
        r.0.wf(r.1@.len() as int),
        forall|i: int, j: int|
            0 <= i < r.1@.len() && 0 <= j < r.1@.len() ==> unused(#[trigger] r.0.cmd(i, j)),
        forall|i: int, j: int|
            0 <= i < r.1@.len() && 0 <= j < r.1@.len() ==> unused(#[trigger] r.0.reply(i, j)),
        forall|i: int| 0 <= i < r.1@.len() ==> (#[trigger] r.1@[i]).fresh(r.0, i, r.1@.len() as int),
{
    let wanted: usize = if requested < 1 {
        1
    } else {
        requested
    };
    let n: usize = pow2::next_pow2(wanted);
    let (cmd, mut cmd_tx, mut cmd_rx) = grid::<Command>(n);
    let (reply, mut reply_tx, mut reply_rx) = grid::<Reply>(n);
    let m = Matrix { cmd, reply };
    proof {
        assert forall|i: int, j: int| 0 <= i < n && 0 <= j < n implies #[trigger] m.cmd_ok(i, j, n as int) by {
            assert(unused(m.cmd@[i]@[j]));
        }
        assert forall|i: int, j: int| 0 <= i < n && 0 <= j < n implies #[trigger] m.reply_ok(i, j) by {
            assert(unused(m.reply@[i]@[j]));
        }
        assert forall|i: int, j: int| 0 <= i < n && 0 <= j < n implies unused(#[trigger] m.cmd(i, j)) by {
            assert(unused(m.cmd@[i]@[j]));
        }
        assert forall|i: int, j: int| 0 <= i < n && 0 <= j < n implies unused(#[trigger] m.reply(i, j)) by {
            assert(unused(m.reply@[i]@[j]));
        }
    }
    let mut owners: Vec<ShardOwner> = Vec::new();
    let mut i: usize = 0;
    while i < n
        invariant
            i <= n,
            1 <= n <= pow2::max_pow2(),
            pow2::is_pow2(n as int),
            m.wf(n as int),
            forall|a: int, b: int| 0 <= a < n && 0 <= b < n ==> unused(#[trigger] m.cmd(a, b)),
            forall|a: int, b: int| 0 <= a < n && 0 <= b < n ==> unused(#[trigger] m.reply(a, b)),
            owners@.len() == i,
            forall|k: int| 0 <= k < i ==> (#[trigger] owners@[k]).fresh(m, k, n as int),
            cmd_tx@.len() == n,
            cmd_rx@.len() == n,
            reply_tx@.len() == n,
            reply_rx@.len() == n,
            forall|k: int| i <= k < n ==> (#[trigger] cmd_tx@[k])@.len() == n,
            forall|k: int| i <= k < n ==> (#[trigger] cmd_rx@[k])@.len() == n,
            forall|k: int| i <= k < n ==> (#[trigger] reply_tx@[k])@.len() == n,
            forall|k: int| i <= k < n ==> (#[trigger] reply_rx@[k])@.len() == n,
        decreases n - i,
    {
        let mut a: Vec<Producer<Command>> = Vec::new();
        let mut b: Vec<Consumer<Command>> = Vec::new();
        let mut c: Vec<Producer<Reply>> = Vec::new();
        let mut d: Vec<Consumer<Reply>> = Vec::new();
        std::mem::swap(&mut a, &mut cmd_tx[i]);
        std::mem::swap(&mut b, &mut cmd_rx[i]);
        std::mem::swap(&mut c, &mut reply_tx[i]);
        std::mem::swap(&mut d, &mut reply_rx[i]);
        let owner = ShardOwner {
            id: i,
            n,
            mask: (n - 1) as u64,
            shard: OrdMap::new(),
            cmd_tx: a,
            cmd_rx: b,
            reply_tx: c,
            reply_rx: d,
            stalled: None,
            unsent: None,
            log: Ghost(Seq::empty()),
            work: Ghost(Seq::empty()),
        };
        proof {
            assert forall|j: int| 0 <= j < n && j != i implies #[trigger] owner.row_ok(m, j) by {
                assert(unused(m.cmd(i as int, j)));
                assert(unused(m.reply(i as int, j)));
                assert(m.cmd(i as int, j).pushed() + owner.stalled_to(j) =~= Seq::<Command>::empty());
                assert(answered(m.reply(i as int, j).pushed()) + owner.unsent_to(j) =~= Seq::<Answer>::empty());
            }
            assert forall|j: int| 0 <= j < n && j != i implies #[trigger] owner.col_ok(m, j) by {
                assert(unused(m.cmd(j, i as int)));
            }
            assert(unused(m.cmd(i as int, i as int)));
            assert(unused(m.reply(i as int, i as int)));
        }
        owners.push(owner);
        i += 1;
    }
    (m, owners)
}

impl ShardOwner {
    /// Shard `i` of `n`, with nothing in it and nothing done.
    pub open spec fn fresh(&self, m: Matrix, i: int, n: int) -> bool {
        &&& self.wf(m)
        &&& self.id() == i
        &&& self.n() == n
        &&& self.log() == Seq::<Entry>::empty()
        &&& self.work() == Seq::<Command>::empty()
        &&& self.stalled() is None
        &&& self.unsent() is None
    }

    /// The number of this shard.
    pub fn shard_id(&self) -> (r: usize)
        ensures
            r == self.id(),
    {
        self.id
    }

    /// The number of shards.
    pub fn num_shards(&self) -> (r: usize)
        ensures
            r == self.n(),
    {
        self.n
    }

    /// The owner of `key`.
    pub fn owner_of(&self, key: &[u8]) -> (r: usize)
        requires
            self.seated(),
        ensures
            r == shard::shard_of(key@, self.n()),
            r < self.n(),
    {
        route(key, self.mask)
    }

    /// Whether a command waits for room.
    pub fn is_stalled(&self) -> (r: bool)
        ensures
            r == (self.stalled() is Some),
    {
        self.stalled.is_some()
    }

    /// Whether a reply waits for room.
    pub fn is_blocked(&self) -> (r: bool)
        ensures
            r == (self.unsent() is Some),
    {
        self.unsent.is_some()
    }

    /// What follows from well-formedness outside of this module.
    pub proof fn lemma_wf(&self, m: Matrix)
        requires
            self.wf(m),
        ensures
            self.seated(),
            0 <= self.id() < self.n(),
            1 <= self.n() <= pow2::max_pow2(),
            pow2::is_pow2(self.n()),
            m.wf(self.n()),
            forall|j: int| 0 <= j < self.n() && j != self.id() ==> #[trigger] self.row_ok(m, j),
            forall|i: int| 0 <= i < self.n() && i != self.id() ==> #[trigger] self.col_ok(m, i),
            of_source(self.log(), self.id()) == routed(self.work(), self.id(), self.n()),
            m.cmd(self.id(), self.id()).pushed().len() == 0,
            m.reply(self.id(), self.id()).pushed().len() == 0,
            self.stalled() is Some ==> {
                &&& 0 <= (self.stalled()->0).0 < self.n()
                &&& (self.stalled()->0).0 != self.id()
                &&& lane_takes((self.stalled()->0).1, self.id(), (self.stalled()->0).0, self.n())
            },
            self.unsent() is Some ==> 0 <= (self.unsent()->0).0 < self.n() && (self.unsent()->0).0 != self.id(),
            forall|k: int|
                0 <= k < self.log().len() ==> 0 <= (#[trigger] self.log()[k]).src < self.n() && shard::shard_of(
                    self.log()[k].cmd.about(),
                    self.n(),
                ) == self.id(),
    {
    }
}

/// The workers of a log: its entries are as many as those that came from each worker together.
pub proof fn sources_partition_log(log: Seq<Entry>, n: int)
    requires
        forall|k: int| 0 <= k < log.len() ==> 0 <= (#[trigger] log[k]).src < n,
        n >= 0,
    ensures
        log.len() == sums::sum(|i: int| of_source(log, i).len() as int, n),
    decreases log.len(),
{
    let f = |i: int| of_source(log, i).len() as int;
    if log.len() == 0 {
        assert forall|i: int| 0 <= i < n implies 0 <= #[trigger] f(i) <= 0 by {}
        sums::sum_is_bounded(f, 0, n);
        assert(n * 0 == 0);
    } else {
        let rest = log.drop_last();
        assert forall|k: int| 0 <= k < rest.len() implies 0 <= (#[trigger] rest[k]).src < n by {
            assert(rest[k] == log[k]);
        }
        sources_partition_log(rest, n);
        let g = |i: int| of_source(rest, i).len() as int;
        let s = log[log.len() - 1].src;
        assert forall|i: int| 0 <= i < n && i != s implies #[trigger] g(i) == f(i) by {}
        sums::sum_changes_by(g, f, s, n);
        assert(f(s) == g(s) + 1);
    }
}

/// The commands of a worker are as many as those for each shard together.
pub proof fn shards_partition_work(work: Seq<Command>, n: int)
    requires
        n >= 1,
    ensures
        work.len() == sums::sum(|j: int| routed(work, j, n).len() as int, n),
    decreases work.len(),
{
    let f = |j: int| routed(work, j, n).len() as int;
    if work.len() == 0 {
        assert forall|j: int| 0 <= j < n implies 0 <= #[trigger] f(j) <= 0 by {}
        sums::sum_is_bounded(f, 0, n);
        assert(n * 0 == 0);
    } else {
        let rest = work.drop_last();
        shards_partition_work(rest, n);
        let g = |j: int| routed(rest, j, n).len() as int;
        let d = shard::shard_of(work.last().about(), n);
        assert(0 <= d < n) by {
            vstd::arithmetic::div_mod::lemma_mod_bound(shard::fnv(work.last().about()) as int, n);
        }
        assert forall|j: int| 0 <= j < n && j != d implies #[trigger] g(j) == f(j) by {}
        sums::sum_changes_by(g, f, d, n);
        assert(f(d) == g(d) + 1);
    }
}

/// A log of commands on keys of one shard leaves only keys of that shard.
pub proof fn applied_is_owned(log: Seq<Entry>, key: Seq<u8>, j: int, n: int)
    requires
        forall|k: int| 0 <= k < log.len() ==> shard::shard_of((#[trigger] log[k]).cmd.about(), n) == j,
        applied(log).contains_key(key),
    ensures
        shard::shard_of(key, n) == j,
    decreases log.len(),
{
    if log.len() > 0 {
        let rest = log.drop_last();
        assert(log[log.len() - 1] == log.last());
        if applied(rest).contains_key(key) {
            assert forall|k: int| 0 <= k < rest.len() implies shard::shard_of((#[trigger] rest[k]).cmd.about(), n) == j by {
                assert(rest[k] == log[k]);
            }
            applied_is_owned(rest, key, j, n);
        }
    }
}

/// Where only the queue from `a` holds commands for a worker, those are its inbox.
pub proof fn inbox_from_one(m: Matrix, id: int, a: int, from: int, n: int)
    requires
        0 <= from,
        0 <= a < n,
        forall|i: int| 0 <= i < n && i != a ==> (#[trigger] m.cmd(i, id))@.len() == 0,
    ensures
        m.inbox(id, from, n) == (if from <= a {
            tagged(m.cmd(a, id)@, a)
        } else {
            Seq::empty()
        }),
    decreases n - from,
{
    if from < n {
        inbox_from_one(m, id, a, from + 1, n);
        assert(m.inbox(id, from, n) =~= (if from <= a {
            tagged(m.cmd(a, id)@, a)
        } else {
            Seq::empty()
        }));
    }
}

/// Where only the queue from `a` holds replies for a worker, those are what it receives.
pub proof fn received_from_one(m: Matrix, id: int, a: int, from: int, n: int)
    requires
        0 <= from,
        0 <= a < n,
        forall|i: int| 0 <= i < n && i != a ==> (#[trigger] m.reply(i, id))@.len() == 0,
    ensures
        m.received(id, from, n) == (if from <= a {
            m.reply(a, id)@
        } else {
            Seq::empty()
        }),
    decreases n - from,
{
    if from < n {
        received_from_one(m, id, a, from + 1, n);
        assert(m.received(id, from, n) =~= (if from <= a {
            m.reply(a, id)@
        } else {
            Seq::empty()
        }));
    }
}

/// What a step of a worker adds to its work for `j` is what it adds to the queue to `j`, where
/// nothing waits for room.
pub proof fn cmd_lane_grows(w: ShardOwner, m: Matrix, w2: ShardOwner, m2: Matrix, j: int, x: Seq<Command>)
    requires
        w.wf(m),
        w2.wf(m2),
        w2.same_seat(w),
        m.step_of(m2, w.id(), w.n()),
        w.stalled() is None,
        w2.stalled() is None,
        0 <= j < w.n(),
        j != w.id(),
        routed(w2.work(), j, w.n()) == routed(w.work(), j, w.n()) + x,
    ensures
        m2.cmd(w.id(), j)@ == m.cmd(w.id(), j)@ + x,
{
    let id = w.id();
    m.lemma_wf(w.n(), id, j);
    m2.lemma_wf(w.n(), id, j);
    let r = m.cmd(id, j);
    let r2 = m2.cmd(id, j);
    r.fifo();
    r2.fifo();
    assert(w.row_ok(m, j));
    assert(w2.row_ok(m2, j));
    assert(r.pushed() + w.stalled_to(j) =~= r.pushed());
    assert(r2.pushed() + w2.stalled_to(j) =~= r2.pushed());
    assert(r2.popped() == r.popped());
    assert(r.popped() + (r@ + x) =~= r.pushed() + x);
    assert(r2@ =~= (r2.popped() + r2@).skip(r2.popped().len() as int));
    assert(r@ + x =~= (r.popped() + (r@ + x)).skip(r.popped().len() as int));
}

/// What a step of a worker adds to the answers for `j` is what it adds to the queue to `j`,
/// where nothing waits for room.
pub proof fn reply_lane_grows(w: ShardOwner, m: Matrix, w2: ShardOwner, m2: Matrix, j: int, y: Seq<Answer>)
    requires
        w.wf(m),
        w2.wf(m2),
        w2.same_seat(w),
        m.step_of(m2, w.id(), w.n()),
        w.unsent() is None,
        w2.unsent() is None,
        0 <= j < w.n(),
        j != w.id(),
        answers(w2.log(), j) == answers(w.log(), j) + y,
    ensures
        answered(m2.reply(w.id(), j)@) == answered(m.reply(w.id(), j)@) + y,
{
    let id = w.id();
    m.lemma_wf(w.n(), id, j);
    m2.lemma_wf(w.n(), id, j);
    let r = m.reply(id, j);
    let r2 = m2.reply(id, j);
    r.fifo();
    r2.fifo();
    assert(w.row_ok(m, j));
    assert(w2.row_ok(m2, j));
    assert(answered(r.pushed()) + w.unsent_to(j) =~= answered(r.pushed()));
    assert(answered(r2.pushed()) + w2.unsent_to(j) =~= answered(r2.pushed()));
    assert(r2.popped() == r.popped());
    let p = answered(r.popped());
    assert(answered(r.pushed()) =~= p + answered(r@));
    assert(answered(r2.pushed()) =~= p + answered(r2@));
    assert(p + (answered(r@) + y) =~= answered(r.pushed()) + y);
    assert(answered(r2@) =~= (p + answered(r2@)).skip(p.len() as int));
    assert(answered(r@) + y =~= (p + (answered(r@) + y)).skip(p.len() as int));
}

/// The tokens of the `Get`s among some commands, in order.
pub open spec fn get_tokens(cmds: Seq<Command>) -> Seq<u64>
    decreases cmds.len(),
{
    if cmds.len() == 0 {
        Seq::empty()
    } else {
        match cmds.last() {
            Command::Get { token, .. } => get_tokens(cmds.drop_last()).push(token),
            Command::Put { .. } => get_tokens(cmds.drop_last()),
        }
    }
}

/// The tokens of some answers.
pub open spec fn tokens_of(answers: Seq<Answer>) -> Seq<u64> {
    Seq::new(answers.len(), |i: int| answers[i].0)
}

/// The tokens of two runs of commands are those of the first, then those of the second.
pub proof fn get_tokens_join(a: Seq<Command>, b: Seq<Command>)
    ensures
        get_tokens(a + b) == get_tokens(a) + get_tokens(b),
    decreases b.len(),
{
    if b.len() == 0 {
        assert(a + b =~= a);
        assert(get_tokens(a) + get_tokens(b) =~= get_tokens(a));
    } else {
        get_tokens_join(a, b.drop_last());
        assert((a + b).drop_last() =~= a + b.drop_last());
        assert((a + b).last() == b.last());
        assert(get_tokens(a + b) =~= get_tokens(a) + get_tokens(b));
    }
}

proof fn lemma_answer_tokens(log: Seq<Entry>, dst: int)
    ensures
        tokens_of(answers(log, dst)) == get_tokens(of_source(log, dst)),
    decreases log.len(),
{
    if log.len() > 0 {
        lemma_answer_tokens(log.drop_last(), dst);
        let s = of_source(log, dst);
        if log.last().src == dst {
            assert(s.drop_last() =~= of_source(log.drop_last(), dst));
            assert(s.last() == log.last().cmd);
        }
        assert(tokens_of(answers(log, dst)) =~= get_tokens(s));
    } else {
        assert(tokens_of(answers(log, dst)) =~= get_tokens(of_source(log, dst)));
    }
}

/// The requests that a worker sent to another come back in order: the tokens of the replies, of
/// the reply that waits, of the commands that wait to be carried out and of the command that
/// waits to be sent are, one after the other, the tokens of the requests.
pub proof fn tokens_are_in_flight(w: ShardOwner, o: ShardOwner, m: Matrix)
    requires
        w.wf(m),
        o.wf(m),
        w.n() == o.n(),
        w.id() != o.id(),
    ensures
        get_tokens(routed(w.work(), o.id(), w.n())) == tokens_of(answered(m.reply(o.id(), w.id()).pushed())) + tokens_of(
            o.unsent_to(w.id()),
        ) + get_tokens(m.cmd(w.id(), o.id())@) + get_tokens(w.stalled_to(o.id())),
{
    let i = w.id();
    let j = o.id();
    let n = w.n();
    m.lemma_wf(n, i, j);
    let ring = m.cmd(i, j);
    ring.fifo();
    assert(w.row_ok(m, j));
    assert(o.row_ok(m, i));
    assert(o.col_ok(m, i));
    get_tokens_join(ring.pushed(), w.stalled_to(j));
    get_tokens_join(ring.popped(), ring@);
    lemma_answer_tokens(o.log(), i);
    let a = answered(m.reply(j, i).pushed());
    let b = o.unsent_to(i);
    assert(tokens_of(a + b) =~= tokens_of(a) + tokens_of(b));
}

/// The reply stands in a queue to worker `id`, from one of the workers `from` to `n`.
pub open spec fn in_column(m: Matrix, id: int, from: int, n: int, r: Reply) -> bool {
    exists|j: int, q: int| from <= j < n && 0 <= q < m.reply(j, id)@.len() && #[trigger] m.reply(j, id)@[q] == r
}

/// A worker receives the replies that stand in its column, and no others.
pub proof fn received_is_the_column(m: Matrix, id: int, from: int, n: int)
    requires
        0 <= from <= n,
    ensures
        forall|k: int|
            0 <= k < m.received(id, from, n).len() ==> in_column(m, id, from, n, #[trigger] m.received(id, from, n)[k]),
        forall|j: int, q: int|
            from <= j < n && 0 <= q < m.reply(j, id)@.len() ==> m.received(id, from, n).contains(
                #[trigger] m.reply(j, id)@[q],
            ),
    decreases n - from,
{
    if from < n {
        received_is_the_column(m, id, from + 1, n);
        let a = m.reply(from, id)@;
        let b = m.received(id, from + 1, n);
        let all = m.received(id, from, n);
        assert(all == a + b);
        assert forall|k: int| 0 <= k < all.len() implies in_column(m, id, from, n, #[trigger] all[k]) by {
            if k < a.len() {
                assert(m.reply(from, id)@[k] == all[k]);
            } else {
                assert(in_column(m, id, from + 1, n, b[k - a.len()]));
            }
        }
        assert forall|j: int, q: int| from <= j < n && 0 <= q < m.reply(j, id)@.len() implies all.contains(
            #[trigger] m.reply(j, id)@[q],
        ) by {
            if j == from {
                assert(all[q] == a[q]);
            } else {
                let k = choose|k: int| 0 <= k < b.len() && b[k] == m.reply(j, id)@[q];
                assert(all[a.len() + k] == b[k]);
            }
        }
    }
}

/// How many replies worker `i` has taken from each worker.
pub open spec fn taken_by(m: Matrix, i: int) -> spec_fn(int) -> int {
    |j: int| m.reply(j, i).popped().len() as int
}

/// The keys of the `Get`s among some commands, in order.
pub open spec fn get_keys(cmds: Seq<Command>) -> Seq<Seq<u8>>
    decreases cmds.len(),
{
    if cmds.len() == 0 {
        Seq::empty()
    } else {
        match cmds.last() {
            Command::Get { key, .. } => get_keys(cmds.drop_last()).push(key@),
            Command::Put { .. } => get_keys(cmds.drop_last()),
        }
    }
}

/// The places of the `Get`s of worker `dst` in a log, in order.
pub open spec fn get_places(log: Seq<Entry>, dst: int) -> Seq<int>
    decreases log.len(),
{
    if log.len() == 0 {
        Seq::empty()
    } else if log.last().src == dst && log.last().cmd is Get {
        get_places(log.drop_last(), dst).push(log.len() - 1)
    } else {
        get_places(log.drop_last(), dst)
    }
}

/// There are as many keys as tokens.
pub proof fn keys_and_tokens(cmds: Seq<Command>)
    ensures
        get_keys(cmds).len() == get_tokens(cmds).len(),
    decreases cmds.len(),
{
    if cmds.len() > 0 {
        keys_and_tokens(cmds.drop_last());
    }
}

/// The keys of two runs of commands are those of the first, then those of the second.
pub proof fn get_keys_join(a: Seq<Command>, b: Seq<Command>)
    ensures
        get_keys(a + b) == get_keys(a) + get_keys(b),
    decreases b.len(),
{
    if b.len() == 0 {
        assert(a + b =~= a);
        assert(get_keys(a) + get_keys(b) =~= get_keys(a));
    } else {
        get_keys_join(a, b.drop_last());
        assert((a + b).drop_last() =~= a + b.drop_last());
        assert((a + b).last() == b.last());
        assert(get_keys(a + b) =~= get_keys(a) + get_keys(b));
    }
}

/// At place `p` the log has a `Get` of `key` that worker `src` sent.
pub open spec fn got_at(log: Seq<Entry>, p: int, src: int, key: Seq<u8>) -> bool {
    0 <= p < log.len() && log[p].src == src && log[p].cmd is Get && log[p].cmd.about() == key
}

/// Each answer is the value that its key had at the place of its `Get` in the log.
pub proof fn answers_are_of_their_places(log: Seq<Entry>, dst: int)
    ensures
        get_places(log, dst).len() == answers(log, dst).len(),
        get_keys(of_source(log, dst)).len() == answers(log, dst).len(),
        forall|p: int|
            0 <= p < answers(log, dst).len() ==> {
                let m = #[trigger] get_places(log, dst)[p];
                &&& got_at(log, m, dst, get_keys(of_source(log, dst))[p])
                &&& answers(log, dst)[p].1 == lookup(applied(log.take(m)), get_keys(of_source(log, dst))[p])
            },
    decreases log.len(),
{
    if log.len() > 0 {
        let rest = log.drop_last();
        answers_are_of_their_places(rest, dst);
        let s = of_source(log, dst);
        if log.last().src == dst {
            assert(s.drop_last() =~= of_source(rest, dst));
            assert(s.last() == log.last().cmd);
        }
        assert forall|p: int| 0 <= p < answers(log, dst).len() implies {
            let m = #[trigger] get_places(log, dst)[p];
            &&& got_at(log, m, dst, get_keys(of_source(log, dst))[p])
            &&& answers(log, dst)[p].1 == lookup(applied(log.take(m)), get_keys(of_source(log, dst))[p])
        } by {
            if p < answers(rest, dst).len() {
                let m = get_places(rest, dst)[p];
                assert(get_places(log, dst)[p] == m);
                assert(rest.take(m) =~= log.take(m));
            } else {
                assert(log.take(log.len() - 1) =~= rest);
            }
        }
    }
}

/// When a log grows, the `Get`s that it held stay where they are, and new ones come behind.
pub proof fn places_stay(log: Seq<Entry>, more: Seq<Entry>, dst: int)
    ensures
        get_places(log, dst).len() <= get_places(log + more, dst).len(),
        forall|p: int|
            0 <= p < get_places(log, dst).len() ==> #[trigger] get_places(log + more, dst)[p] == get_places(log, dst)[p],
        forall|p: int|
            get_places(log, dst).len() <= p < get_places(log + more, dst).len() ==> log.len() <= #[trigger] get_places(
                log + more,
                dst,
            )[p],
    decreases more.len(),
{
    if more.len() == 0 {
        assert(log + more =~= log);
    } else {
        places_stay(log, more.drop_last(), dst);
        assert((log + more).drop_last() =~= log + more.drop_last());
        assert((log + more).last() == more.last());
    }
}

/// What a worker answered to another is what that one has taken, what waits for it, and what
/// could not be sent yet.
pub proof fn replies_are_answers(w: ShardOwner, o: ShardOwner, m: Matrix, p: int)
    requires
        w.wf(m),
        o.wf(m),
        w.n() == o.n(),
        w.id() != o.id(),
        0 <= p < m.reply(o.id(), w.id()).pushed().len(),
    ensures
        p < answers(o.log(), w.id()).len(),
        answer(m.reply(o.id(), w.id()).pushed()[p]) == answers(o.log(), w.id())[p],
{
    let pushed = m.reply(o.id(), w.id()).pushed();
    assert(o.row_ok(m, w.id()));
    let all = answered(pushed) + o.unsent_to(w.id());
    assert(all[p] == answered(pushed)[p]);
}

/// What a worker carried out for another is the front of what that one sent.
pub proof fn carried_out_is_front(w: ShardOwner, o: ShardOwner, m: Matrix)
    requires
        w.wf(m),
        o.wf(m),
        w.n() == o.n(),
        w.id() != o.id(),
    ensures
        ({
            let sent = routed(w.work(), o.id(), w.n());
            let done = of_source(o.log(), w.id());
            &&& get_keys(done).len() <= get_keys(sent).len()
            &&& forall|p: int| 0 <= p < get_keys(done).len() ==> #[trigger] get_keys(sent)[p] == get_keys(done)[p]
        }),
{
    let i = w.id();
    let j = o.id();
    m.lemma_wf(w.n(), i, j);
    let ring = m.cmd(i, j);
    ring.fifo();
    assert(w.row_ok(m, j));
    assert(o.col_ok(m, i));
    get_keys_join(ring.pushed(), w.stalled_to(j));
    get_keys_join(ring.popped(), ring@);
}

/// A queue between two workers takes a command or a reply while fewer than four thousand and
/// ninety-six wait in it, and never holds more.
pub proof fn queues_have_room(m: Matrix, n: int, i: int, j: int)
    requires
        m.wf(n),
        0 <= i < n,
        0 <= j < n,
    ensures
        m.cmd(i, j).capacity() == 4096,
        m.reply(i, j).capacity() == 4096,
        m.cmd(i, j)@.len() <= 4096,
        m.reply(i, j)@.len() <= 4096,
        m.cmd(i, j).popped() + m.cmd(i, j)@ == m.cmd(i, j).pushed(),
        m.reply(i, j).popped() + m.reply(i, j)@ == m.reply(i, j).pushed(),
{
    m.lemma_wf(n, i, j);
    m.cmd(i, j).fifo();
    m.reply(i, j).fifo();
}

/// What waits for a worker is everything in the queues to it, one queue after the other, each in
/// order and under the number of the worker that sent it.
pub proof fn inboxes_are_the_queues(m: Matrix, id: int, from: int, n: int)
    requires
        0 <= from <= n,
    ensures
        m.inbox(id, from, n) == Seq::new(
            (n - from) as nat,
            |i: int| m.cmd(from + i, id)@.map_values(|c: Command| (Entry { src: from + i, cmd: c })),
        ).flatten(),
        m.received(id, from, n) == Seq::new((n - from) as nat, |i: int| m.reply(from + i, id)@).flatten(),
    decreases n - from,
{
    let a = Seq::new(
        (n - from) as nat,
        |i: int| m.cmd(from + i, id)@.map_values(|c: Command| (Entry { src: from + i, cmd: c })),
    );
    let b = Seq::new((n - from) as nat, |i: int| m.reply(from + i, id)@);
    if from < n {
        inboxes_are_the_queues(m, id, from + 1, n);
        let a1 = Seq::new(
            (n - from - 1) as nat,
            |i: int| m.cmd(from + 1 + i, id)@.map_values(|c: Command| (Entry { src: from + 1 + i, cmd: c })),
        );
        let b1 = Seq::new((n - from - 1) as nat, |i: int| m.reply(from + 1 + i, id)@);
        assert forall|i: int| 0 <= i < a1.len() implies #[trigger] a.drop_first()[i] == a1[i] by {
            assert(a.drop_first()[i] =~= a1[i]);
        }
        assert(a.drop_first() =~= a1);
        assert(b.drop_first() =~= b1);
        assert(a.first() =~= tagged(m.cmd(from, id)@, from));
        assert(b.first() == m.reply(from, id)@);
    }
}

} // verus!
