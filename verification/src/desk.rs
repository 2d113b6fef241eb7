//! A worker of the service: the requests that it takes up, and the clients that wait for it.
//!
//! What a worker does for clients is a matter of its *desk*: the commands that it carried out
//! and sent, the clients that wait for replies, by token, and the outcomes, by ticket.

use vstd::prelude::*;
use std::collections::BTreeMap;
use crate::lanes;
use crate::lanes::{Command, Entry, Matrix, Reply, ShardOwner};
use crate::shard;
use crate::slab::Slab;

verus! {

/// What a client asks for.
pub enum ClientOp {
    Put { key: Vec<u8>, val: Vec<u8> },
    Get { key: Vec<u8> },
}

/// Where the outcome of a request is left for the client.
pub struct ReqCompletion {
    done: bool,
    value: Option<Vec<u8>>,
}

/// A [`ReqCompletion`] as a value: `None` while the request is open.
pub type Completed = Option<Option<Seq<u8>>>;

/// The bytes of an optional byte vector.
pub open spec fn bytes_of(v: Option<Vec<u8>>) -> Option<Seq<u8>> {
    match v {
        Some(v) => Some(v@),
        None => None,
    }
}

impl View for ReqCompletion {
    type V = Completed;

    closed spec fn view(&self) -> Completed {
        if self.done {
            Some(bytes_of(self.value))
        } else {
            None
        }
    }
}

impl ReqCompletion {
    /// The completion of a request that is open.
    pub fn new() -> (r: Self)
        ensures
            r@ is None,
    {
        ReqCompletion { done: false, value: None }
    }

    /// Leaves the outcome for the client.
    pub fn fulfill(&mut self, val: Option<Vec<u8>>)
        ensures
            final(self)@ == Some(bytes_of(val)),
    {
        self.value = val;
        self.done = true;
    }

    /// Whether the outcome is there.
    pub fn is_done(&self) -> (r: bool)
        ensures
            r == (self@ is Some),
    {
        self.done
    }

    /// Takes the outcome.
    pub fn take(self) -> (r: Option<Vec<u8>>)
        requires
            self@ is Some,
        ensures
            bytes_of(r) == self@->0,
    {
        self.value
    }
}

/// A request, with the ticket under which its completion is kept.
pub struct ClientReq {
    pub op: ClientOp,
    pub ticket: usize,
}

/// The requests that clients have left for a worker. They are taken all at once, the newest
/// first.
pub struct Ingress {
    queue: Vec<ClientReq>,
}

impl View for Ingress {
    type V = Seq<ClientReq>;

    /// The requests in the order in which they came.
    closed spec fn view(&self) -> Seq<ClientReq> {
        self.queue@
    }
}

impl Ingress {
    /// No requests.
    pub fn new() -> (r: Self)
        ensures
            r@ == Seq::<ClientReq>::empty(),
    {
        Ingress { queue: Vec::new() }
    }

    /// Leaves a request.
    pub fn push(&mut self, op: ClientOp, ticket: usize)
        ensures
            final(self)@ == old(self)@.push(ClientReq { op, ticket }),
    {
        self.queue.push(ClientReq { op, ticket });
    }

    /// Whether there is no request.
    pub fn is_empty(&self) -> (r: bool)
        ensures
            r == (self@.len() == 0),
    {
        self.queue.len() == 0
    }

    /// Takes all requests, the newest first.
    pub fn drain(&mut self) -> (r: Vec<ClientReq>)
        ensures
            r@ == old(self)@.reverse(),
            final(self)@ == Seq::<ClientReq>::empty(),
    {
        let mut out: Vec<ClientReq> = Vec::new();
        let ghost all = self.queue@;
        while self.queue.len() > 0
            invariant
                out@.len() + self.queue@.len() == all.len(),
                self.queue@ == all.take(self.queue@.len() as int),
                forall|k: int| 0 <= k < out@.len() ==> #[trigger] out@[k] == all[all.len() - 1 - k],
            decreases self.queue@.len(),
        {
            let ghost before = self.queue@;
            match self.queue.pop() {
                Some(req) => {
                    proof {
                        assert(self.queue@ =~= all.take(self.queue@.len() as int));
                        assert(req == before[before.len() - 1]);
                    }
                    out.push(req);
                },
                None => {},
            }
        }
        assert(out@ =~= all.reverse());
        out
    }
}

/// The completions by ticket, as values.
pub open spec fn outcomes(t: Map<usize, ReqCompletion>) -> Map<usize, Completed> {
    t.map_values(|c: ReqCompletion| c@)
}

/// The completions after the one of `ticket` got its outcome.
pub open spec fn fulfilled(t: Map<usize, Completed>, ticket: usize, v: Option<Seq<u8>>) -> Map<usize, Completed> {
    if t.contains_key(ticket) {
        t.insert(ticket, Some(v))
    } else {
        t
    }
}

fn fulfill_ticket(table: &mut Slab<ReqCompletion>, ticket: usize, val: Option<Vec<u8>>)
    requires
        old(table).wf(),
    ensures
        final(table).wf(),
        outcomes(final(table).view()) == fulfilled(outcomes(old(table).view()), ticket, bytes_of(val)),
{
    if table.contains(ticket) {
        let c = table.get_mut(ticket);
        c.fulfill(val);
        assert(outcomes(table.view()) =~= fulfilled(outcomes(old(table).view()), ticket, bytes_of(val)));
    }
}

/// The number of tokens of each worker.
pub const TOKENS: u64 = 0x1_0000_0000_0000;

/// The token of the request number `t` of worker `id`.
pub open spec fn token_of(id: u64, t: u64) -> u64 {
    (id << 48) | t
}

/// The number of the request after number `t`.
pub open spec fn token_after(t: u64) -> u64 {
    if t + 1 == TOKENS {
        0
    } else {
        (t + 1) as u64
    }
}

/// What a worker has done for clients: the commands that it carried out and sent, the clients
/// that wait for replies, and the outcomes.
pub struct Desk {
    pub log: Seq<Entry>,
    pub work: Seq<Command>,
    pub waiters: Map<u64, usize>,
    pub next: u64,
    pub table: Map<usize, Completed>,
}

/// The desk of worker `id` of `n` after it took up a request.
pub open spec fn take_up(d: Desk, req: ClientReq, id: int, n: int) -> Desk {
    match req.op {
        ClientOp::Put { key, val } => {
            let cmd = Command::Put { key, val };
            Desk {
                log: if shard::shard_of(key@, n) == id {
                    d.log.push(Entry { src: id, cmd })
                } else {
                    d.log
                },
                work: d.work.push(cmd),
                table: fulfilled(d.table, req.ticket, None),
                ..d
            }
        },
        ClientOp::Get { key } => if shard::shard_of(key@, n) == id {
            Desk {
                table: fulfilled(d.table, req.ticket, lanes::lookup(lanes::applied(d.log), key@)),
                ..d
            }
        } else {
            let token = token_of(id as u64, d.next);
            Desk {
                work: d.work.push(Command::Get { key, from: id as usize, token }),
                waiters: d.waiters.insert(token, req.ticket),
                next: token_after(d.next),
                ..d
            }
        },
    }
}

/// The desk of worker `id` of `n` after it took up some requests, in order.
pub open spec fn taken_up(d: Desk, reqs: Seq<ClientReq>, id: int, n: int) -> Desk
    decreases reqs.len(),
{
    if reqs.len() == 0 {
        d
    } else {
        take_up(taken_up(d, reqs.drop_last(), id, n), reqs.last(), id, n)
    }
}

/// The token for the next request is in use when `p` of the requests are taken up.
pub open spec fn busy_at(d: Desk, reqs: Seq<ClientReq>, p: int, id: int, n: int) -> bool {
    let before = taken_up(d, reqs.take(p), id, n);
    before.waiters.contains_key(token_of(id as u64, before.next))
}

/// Waiters and outcomes after some replies: a reply goes to the client that waits for its
/// token.
pub open spec fn settled(w: Map<u64, usize>, t: Map<usize, Completed>, replies: Seq<Reply>) -> (
    Map<u64, usize>,
    Map<usize, Completed>,
)
    decreases replies.len(),
{
    if replies.len() == 0 {
        (w, t)
    } else {
        let (w1, t1) = settled(w, t, replies.drop_last());
        let r = replies.last();
        if w1.contains_key(r.token) {
            (w1.remove(r.token), fulfilled(t1, w1[r.token], bytes_of(r.val)))
        } else {
            (w1, t1)
        }
    }
}

/// A worker of the service.
pub struct ServiceWorker {
    owner: ShardOwner,
    client_waiters: BTreeMap<u64, usize>,
    next_token: u64,
    backlog: Vec<ClientReq>,
    pos: usize,
}

impl ServiceWorker {
    /// The shard.
    pub closed spec fn owner(&self) -> ShardOwner {
        self.owner
    }

    /// The clients that wait for replies, by token.
    pub closed spec fn waiters(&self) -> Map<u64, usize> {
        self.client_waiters@
    }

    /// The requests that were taken from the ingress and not yet taken up, in order.
    pub closed spec fn pending(&self) -> Seq<ClientReq> {
        self.backlog@.skip(self.pos as int)
    }

    /// The number of the next request that this worker forwards.
    pub closed spec fn next_number(&self) -> u64 {
        self.next_token
    }

    /// A client still waits for the reply to the request that had the next token before, so
    /// that the token cannot be given out again yet.
    pub open spec fn token_busy(&self) -> bool {
        self.waiters().contains_key(token_of(self.owner().id() as u64, self.next_number()))
    }

    fn is_token_busy(&self) -> (r: bool)
        ensures
            r == self.token_busy(),
    {
        broadcast use vstd::std_specs::btree::group_btree_axioms;

        let token: u64 = ((self.owner.shard_id() as u64) << 48) | self.next_token;
        self.client_waiters.contains_key(&token)
    }

    /// The requests that this worker takes up next, given those in its ingress.
    pub open spec fn next_requests(&self, ingress: Seq<ClientReq>) -> Seq<ClientReq> {
        if self.pending().len() == 0 {
            ingress.reverse()
        } else {
            self.pending()
        }
    }

    /// The desk.
    pub open spec fn desk(&self, table: Map<usize, ReqCompletion>) -> Desk {
        Desk {
            log: self.owner().log(),
            work: self.owner().work(),
            waiters: self.waiters(),
            next: self.next_number(),
            table: outcomes(table),
        }
    }

    /// A worker that has done nothing yet.
    pub fn new(owner: ShardOwner) -> (r: Self)
        ensures
            r.owner() == owner,
            r.waiters() == Map::<u64, usize>::empty(),
            r.pending().len() == 0,
            forall|m: Matrix| owner.wf(m) ==> #[trigger] r.wf(m),
    {
        broadcast use vstd::std_specs::btree::group_btree_axioms;

        ServiceWorker { owner, client_waiters: BTreeMap::new(), next_token: 0, backlog: Vec::new(), pos: 0 }
    }

    /// What this worker keeps true of itself and its sides of the queues.
    pub open spec fn wf(&self, m: Matrix) -> bool {
        &&& self.owner().wf(m)
        &&& self.next_number() < TOKENS
        &&& self.in_order()
    }

    /// The backlog is where it should be.
    pub closed spec fn in_order(&self) -> bool {
        self.pos <= self.backlog@.len()
    }

    /// Takes the replies to the requests that this worker forwarded, and leaves the outcomes
    /// for the clients.
    pub fn collect_replies(&mut self, m: &mut Matrix, table: &mut Slab<ReqCompletion>) -> (r: bool)
        requires
            old(self).wf(*old(m)),
            old(table).wf(),
        ensures
            final(self).wf(*final(m)),
            final(table).wf(),
            final(self).owner() == old(self).owner(),
            final(self).pending() == old(self).pending(),
            ({
                let id = old(self).owner().id();
                let n = old(self).owner().n();
                let got = old(m).received(id, 0, n);
                let before = old(self).desk(old(table).view());
                let after = final(self).desk(final(table).view());
                let (w, t) = settled(before.waiters, before.table, got);
                &&& old(m).step_of(*final(m), id, n)
                &&& r == (got.len() > 0)
                &&& after == (Desk { waiters: w, table: t, ..before })
                &&& forall|i: int| 0 <= i < n ==> (#[trigger] final(m).reply(i, id))@.len() == 0
                &&& forall|i: int, j: int|
                    0 <= i < n && 0 <= j < n ==> #[trigger] final(m).cmd(i, j) == old(m).cmd(i, j)
                &&& forall|i: int, j: int|
                    0 <= i < n && 0 <= j < n && j != id ==> #[trigger] final(m).reply(i, j) == old(m).reply(i, j)
                &&& final(m).load(n) + got.len() == old(m).load(n)
                &&& !r ==> old(m).same(*final(m), n)
            }),
    {
        broadcast use vstd::std_specs::btree::group_btree_axioms;

        let mut replies = self.owner.collect(m);
        let progressed = replies.len() > 0;
        let ghost got = replies@;
        let ghost before = self.desk(table.view());
        let mut i: usize = 0;
        assert(got.take(0).len() == 0);
        while i < replies.len()
            invariant
                self.owner == old(self).owner,
                self.next_token == old(self).next_token,
                self.backlog == old(self).backlog,
                self.pos == old(self).pos,
                table.wf(),
                i <= replies@.len(),
                got.len() == replies@.len(),
                forall|k: int| i <= k < got.len() ==> #[trigger] replies@[k] == got[k],
                (self.client_waiters@, outcomes(table.view())) == settled(
                    before.waiters,
                    before.table,
                    got.take(i as int),
                ),
            decreases replies@.len() - i,
        {
            broadcast use vstd::std_specs::btree::group_btree_axioms;

            let token: u64 = replies[i].token;
            let mut val: Option<Vec<u8>> = None;
            std::mem::swap(&mut val, &mut replies[i].val);
            proof {
                assert(got.take(i + 1).drop_last() =~= got.take(i as int));
                assert(got.take(i + 1).last() == got[i as int]);
            }
            match self.client_waiters.remove(&token) {
                Some(ticket) => {
                    fulfill_ticket(table, ticket, val);
                },
                None => {},
            }
            i += 1;
        }
        assert(got.take(i as int) =~= got);
        progressed
    }

    /// Serves the commands that wait for this worker and takes the replies to it. Returns
    /// whether anything moved.
    #[verifier::rlimit(60)]
    #[verifier::spinoff_prover]
    pub fn pump_matrix(&mut self, m: &mut Matrix, table: &mut Slab<ReqCompletion>) -> (r: bool)
        requires
            old(self).wf(*old(m)),
            old(table).wf(),
        ensures
            final(self).wf(*final(m)),
            final(table).wf(),
            final(self).owner().same_seat(old(self).owner()),
            final(self).owner().stalled() == old(self).owner().stalled(),
            final(self).pending() == old(self).pending(),
            old(self).pumped(*old(m), old(table).view(), *final(self), *final(m), final(table).view()),
            ({
                let id = old(self).owner().id();
                let n = old(self).owner().n();
                &&& old(m).step_of(*final(m), id, n)
                &&& final(m).load(n) + final(self).owner().held() <= old(m).load(n) + old(self).owner().held()
                &&& r ==> final(m).load(n) + final(self).owner().held() < old(m).load(n) + old(self).owner().held()
                &&& !r ==> {
                    &&& final(self).owner() == old(self).owner()
                    &&& old(m).same(*final(m), n)
                    &&& final(self).owner().unsent() is Some ==> final(m).reply(
                        id,
                        (final(self).owner().unsent()->0).0,
                    )@.len() == lanes::LANE_CAP
                }
            }),
    {
        let ghost id = self.owner.id();
        let ghost n = self.owner.n();
        let ghost m0 = *m;
        let ghost owner0 = self.owner;
        proof {
            owner0.lemma_wf(m0);
            m0.lemma_wf(n, id, id);
            m0.reply(id, id).fifo();
        }
        let served = self.owner.catch_up(m);
        let ghost m1 = *m;
        proof {
            self.owner.lemma_wf(m1);
            m1.lemma_wf(n, id, id);
            m1.reply(id, id).fifo();
            lanes::received_is_from_others(m0, m1, id, 0, n);
        }
        let got = self.collect_replies(m, table);
        proof {
            lanes::steps_compose(m0, m1, *m, id, n);
            assert forall|i: int, j: int| 0 <= i < n && 0 <= j < n && j != id implies #[trigger] m.cmd(i, j) == m0.cmd(
                i,
                j,
            ) by {
                assert(m1.cmd(i, j) == m0.cmd(i, j));
            }
            assert forall|i: int, j: int| 0 <= i < n && 0 <= j < n && i != id && j != id implies #[trigger] m.reply(
                i,
                j,
            ) == m0.reply(i, j) by {
                assert(m1.reply(i, j) == m0.reply(i, j));
            }
            assert forall|i: int| 0 <= i < n && m1.cmd(i, id)@.len() == 0 implies (#[trigger] m.cmd(i, id))@.len() == 0 by {}
            if !served && !got {
                assert forall|i: int, j: int| 0 <= i < n && 0 <= j < n implies #[trigger] m.cmd(i, j) == m0.cmd(i, j) by {
                    assert(m1.cmd(i, j) == m0.cmd(i, j));
                }
                assert forall|i: int, j: int| 0 <= i < n && 0 <= j < n implies #[trigger] m.reply(i, j) == m0.reply(
                    i,
                    j,
                ) by {
                    assert(m1.reply(i, j) == m0.reply(i, j));
                }
            }
        }
        served || got
    }

    /// From `self`, `m` and `t` to `next`, `m2` and `t2` this worker served what waited for it:
    /// the commands, until a reply had to wait, and all replies.
    pub open spec fn pumped(
        &self,
        m: Matrix,
        t: Map<usize, ReqCompletion>,
        next: ServiceWorker,
        m2: Matrix,
        t2: Map<usize, ReqCompletion>,
    ) -> bool {
        let id = self.owner().id();
        let n = self.owner().n();
        let inbox = m.inbox(id, 0, n);
        let before = self.desk(t);
        let after = next.desk(t2);
        let count = after.log.len() - before.log.len();
        let (w, o) = settled(before.waiters, before.table, m.received(id, 0, n));
        &&& 0 <= count <= inbox.len()
        &&& after == (Desk { log: before.log + inbox.take(count), waiters: w, table: o, ..before })
        &&& next.owner().unsent() is None ==> count == inbox.len() && forall|i: int|
            0 <= i < n ==> (#[trigger] m2.cmd(i, id))@.len() == 0
        &&& forall|i: int| 0 <= i < n ==> (#[trigger] m2.reply(i, id))@.len() == 0
        &&& forall|i: int, j: int| 0 <= i < n && 0 <= j < n && j != id ==> #[trigger] m2.cmd(i, j) == m.cmd(i, j)
        &&& forall|i: int, j: int|
            0 <= i < n && 0 <= j < n && i != id && j != id ==> #[trigger] m2.reply(i, j) == m.reply(i, j)
        &&& self.owner().unsent() is None && (forall|j: int|
            0 <= j < n ==> (#[trigger] m.reply(id, j))@.len() + inbox.len() <= lanes::LANE_CAP)
            ==> next.owner().unsent() is None
    }

    /// Takes up a request: serves it where this worker owns the key, else forwards it to the
    /// owner.
    fn accept(&mut self, m: &mut Matrix, table: &mut Slab<ReqCompletion>, req: ClientReq)
        requires
            old(self).wf(*old(m)),
            old(table).wf(),
            old(self).owner().stalled() is None,
        ensures
            final(self).wf(*final(m)),
            final(table).wf(),
            final(self).owner().same_seat(old(self).owner()),
            final(self).owner().unsent() == old(self).owner().unsent(),
            final(self).backlog == old(self).backlog,
            final(self).pos == old(self).pos,
            ({
                let id = old(self).owner().id();
                let n = old(self).owner().n();
                &&& final(self).desk(final(table).view()) == take_up(old(self).desk(old(table).view()), req, id, n)
                &&& old(m).step_of(*final(m), id, n)
                &&& forall|i: int, j: int|
                    0 <= i < n && 0 <= j < n && i != id ==> #[trigger] final(m).cmd(i, j) == old(m).cmd(i, j)
                &&& forall|i: int, j: int|
                    0 <= i < n && 0 <= j < n ==> #[trigger] final(m).reply(i, j) == old(m).reply(i, j)
                &&& forall|j: int|
                    0 <= j < n ==> (#[trigger] final(m).cmd(id, j))@.len() <= old(m).cmd(id, j)@.len() + 1
                &&& final(self).owner().stalled() is Some ==> exists|j: int|
                    0 <= j < n && (#[trigger] old(m).cmd(id, j))@.len() >= lanes::LANE_CAP
                &&& final(m).load(n) + final(self).owner().held() <= old(m).load(n) + old(self).owner().held() + 4
            }),
    {
        broadcast use vstd::std_specs::btree::group_btree_axioms;

        let ghost id = self.owner.id();
        let ghost n = self.owner.n();
        let ghost m0 = *m;
        proof {
            self.owner.lemma_wf(m0);
        }
        let ClientReq { op, ticket } = req;
        match op {
            ClientOp::Put { key, val } => {
                let ghost d = shard::shard_of(key@, n);
                proof {
                    vstd::arithmetic::div_mod::lemma_mod_bound(shard::fnv(key@) as int, n);
                }
                let sent = self.owner.send(m, Command::Put { key, val });
                fulfill_ticket(table, ticket, None);
                proof {
                    m0.load_changes_at(*m, id, d, n);
                }
            },
            ClientOp::Get { key } => {
                let d: usize = self.owner.owner_of(key.as_slice());
                if d == self.owner.shard_id() {
                    let val = self.owner.read(key.as_slice());
                    fulfill_ticket(table, ticket, val);
                } else {
                    let from: usize = self.owner.shard_id();
                    let token: u64 = ((from as u64) << 48) | self.next_token;
                    self.client_waiters.insert(token, ticket);
                    self.next_token = if self.next_token + 1 == TOKENS {
                        0
                    } else {
                        self.next_token + 1
                    };
                    let sent = self.owner.send(m, Command::Get { key, from, token });
                    proof {
                        m0.load_changes_at(*m, id, d as int, n);
                    }
                }
            },
        }
    }

    /// Takes up the requests that clients have left, the newest first, until none is left or a
    /// command has to wait for room. Returns whether anything moved.
    pub fn drain_ingress(&mut self, m: &mut Matrix, ingress: &mut Ingress, table: &mut Slab<ReqCompletion>) -> (r: bool)
        requires
            old(self).wf(*old(m)),
            old(table).wf(),
        ensures
            final(self).wf(*final(m)),
            final(table).wf(),
            final(self).owner().same_seat(old(self).owner()),
            final(self).owner().unsent() == old(self).owner().unsent(),
            old(m).step_of(*final(m), old(self).owner().id(), old(self).owner().n()),
            old(self).drained(
                *old(m),
                old(ingress)@,
                old(table).view(),
                *final(self),
                *final(m),
                final(ingress)@,
                final(table).view(),
                r,
            ),
            ({
                let n = old(self).owner().n();
                let before = old(m).load(n) + old(self).owner().held() + 5 * (old(self).pending().len()
                    + old(ingress)@.len());
                let after = final(m).load(n) + final(self).owner().held() + 5 * (final(self).pending().len()
                    + final(ingress)@.len());
                &&& after <= before
                &&& r ==> after < before
            }),
    {
        let ghost id = self.owner.id();
        let ghost n = self.owner.n();
        let ghost m0 = *m;
        let ghost owner0 = self.owner;
        let ghost reqs = self.next_requests(ingress@);
        let ghost desk0 = self.desk(table.view());
        proof {
            self.owner.lemma_wf(m0);
        }
        let was_stalled = self.owner.is_stalled();
        let free = self.owner.flush(m);
        proof {
            if was_stalled {
                let d = (owner0.stalled()->0).0;
                m0.load_changes_at(*m, id, d, n);
                assert(m.reply(id, d) == m0.reply(id, d));
            }
        }
        if !free {
            assert(m0.same(*m, n)) by {
                assert forall|i: int, j: int| 0 <= i < n && 0 <= j < n implies #[trigger] m.cmd(i, j) == m0.cmd(i, j) by {}
            }
            return false;
        }
        if self.pos >= self.backlog.len() {
            let fresh = ingress.drain();
            self.backlog = fresh;
            self.pos = 0;
        }
        let ghost m1 = *m;
        let first: usize = self.pos;
        let ghost start = first as int;
        let ghost all = self.backlog@;
        let ghost rest = ingress@.len();
        proof {
            assert(all.skip(start) =~= reqs);
            assert(reqs.take(0) =~= Seq::<ClientReq>::empty());
            assert(self.desk(table.view()) == desk0);
        }
        while self.pos < self.backlog.len() && !self.owner.is_stalled() && !self.is_token_busy()
            invariant
                self.wf(*m),
                table.wf(),
                n == self.owner.n(),
                id == self.owner.id(),
                0 <= id < n,
                self.owner.unsent() == owner0.unsent(),
                self.backlog@.len() == all.len(),
                start == first,
                start <= self.pos,
                forall|k: int| self.pos <= k < all.len() ==> #[trigger] self.backlog@[k] == all[k],
                all.skip(start) == reqs,
                self.desk(table.view()) == taken_up(desk0, reqs.take(self.pos - start), id, n),
                forall|p: int| 0 <= p < self.pos - start ==> !#[trigger] busy_at(desk0, reqs, p, id, n),
                m0.step_of(m1, id, n),
                m1.step_of(*m, id, n),
                forall|i: int, j: int|
                    0 <= i < n && 0 <= j < n && i != id ==> #[trigger] m.cmd(i, j) == m0.cmd(i, j),
                forall|i: int, j: int| 0 <= i < n && 0 <= j < n ==> #[trigger] m.reply(i, j) == m0.reply(i, j),
                forall|j: int|
                    0 <= j < n ==> (#[trigger] m.cmd(id, j))@.len() <= m1.cmd(id, j)@.len() + (self.pos - start),
                self.owner.stalled() is Some ==> self.pos > start && exists|j: int|
                    0 <= j < n && (#[trigger] m1.cmd(id, j))@.len() + (self.pos - start) > lanes::LANE_CAP,
                self.pos == start ==> self.owner == owner0 || was_stalled,
                self.pos == start ==> m1.same(*m, n),
                m.load(n) + self.owner.held() + 5 * (all.len() - self.pos) + (if was_stalled || self.pos > start {
                    1int
                } else {
                    0
                }) <= m0.load(n) + owner0.held() + 5 * (all.len() - start),
            decreases all.len() - self.pos,
        {
            let ghost before = *m;
            let ghost desk = self.desk(table.view());
            assert(!busy_at(desk0, reqs, self.pos - start, id, n));
            let at: usize = self.pos;
            let mut req = ClientReq { op: ClientOp::Get { key: Vec::new() }, ticket: 0 };
            std::mem::swap(&mut req, &mut self.backlog[at]);
            self.pos = at + 1;
            proof {
                let k = at - start;
                assert(req == all[at as int]);
                assert(all.skip(start)[k] == req);
                assert(reqs.take(k + 1).drop_last() =~= reqs.take(k));
                assert(reqs.take(k + 1).last() == req);
            }
            self.accept(m, table, req);
            proof {
                lanes::steps_compose(m1, before, *m, id, n);
                assert forall|i: int, j: int| 0 <= i < n && 0 <= j < n && i != id implies #[trigger] m.cmd(i, j)
                    == m0.cmd(i, j) by {
                    assert(before.cmd(i, j) == m0.cmd(i, j));
                }
                assert forall|i: int, j: int| 0 <= i < n && 0 <= j < n implies #[trigger] m.reply(i, j) == m0.reply(
                    i,
                    j,
                ) by {
                    assert(before.reply(i, j) == m0.reply(i, j));
                }
                assert forall|j: int| 0 <= j < n implies (#[trigger] m.cmd(id, j))@.len() <= m1.cmd(id, j)@.len() + (
                self.pos - start) by {
                    assert(before.cmd(id, j)@.len() <= m1.cmd(id, j)@.len() + (at - start));
                }
                if self.owner.stalled() is Some {
                    let j = choose|j: int| 0 <= j < n && (#[trigger] before.cmd(id, j))@.len() >= lanes::LANE_CAP;
                    assert(m1.cmd(id, j)@.len() + (self.pos - start) > lanes::LANE_CAP);
                }
            }
        }
        proof {
            let k = self.pos - start;
            assert(self.pending() =~= reqs.skip(k));
            lanes::steps_compose(m0, m1, *m, id, n);
            if !was_stalled {
                assert forall|j: int| 0 <= j < n implies #[trigger] m1.cmd(id, j) == m0.cmd(id, j) by {}
            }
            if !was_stalled && k == 0 {
                assert(m0.same(*m, n)) by {
                    assert forall|i: int, j: int| 0 <= i < n && 0 <= j < n implies #[trigger] m.cmd(i, j) == m0.cmd(
                        i,
                        j,
                    ) by {
                        assert(m1.cmd(i, j) == m0.cmd(i, j));
                    }
                }
            }
        }
        was_stalled || self.pos > first
    }

    /// From `self`, `m`, `g` and `t` to `next`, `m2`, `g2` and `t2` this worker took up the
    /// requests that were left for it, until a command had to wait.
    pub open spec fn drained(
        &self,
        m: Matrix,
        g: Seq<ClientReq>,
        t: Map<usize, ReqCompletion>,
        next: ServiceWorker,
        m2: Matrix,
        g2: Seq<ClientReq>,
        t2: Map<usize, ReqCompletion>,
        moved: bool,
    ) -> bool {
        let id = self.owner().id();
        let n = self.owner().n();
        let reqs = self.next_requests(g);
        let k = reqs.len() - next.pending().len();
        let stalled = self.owner().stalled();
        let blocked = stalled is Some && m.cmd(id, (stalled->0).0)@.len() >= lanes::LANE_CAP;
        &&& forall|i: int, j: int| 0 <= i < n && 0 <= j < n && i != id ==> #[trigger] m2.cmd(i, j) == m.cmd(i, j)
        &&& forall|i: int, j: int| 0 <= i < n && 0 <= j < n ==> #[trigger] m2.reply(i, j) == m.reply(i, j)
        &&& blocked ==> {
            &&& !moved
            &&& next.owner() == self.owner()
            &&& next.pending() == self.pending()
            &&& g2 == g
            &&& next.desk(t2) == self.desk(t)
            &&& m.same(m2, n)
        }
        &&& !blocked ==> {
            &&& 0 <= k <= reqs.len()
            &&& next.pending() == reqs.skip(k)
            &&& g2 == (if self.pending().len() == 0 {
                Seq::empty()
            } else {
                g
            })
            &&& next.owner().stalled() is None && !next.token_busy() ==> k == reqs.len()
            &&& next.desk(t2) == taken_up(self.desk(t), reqs.take(k), id, n)
            &&& forall|p: int| 0 <= p < k ==> !#[trigger] busy_at(self.desk(t), reqs, p, id, n)
            &&& moved == (stalled is Some || k > 0)
            &&& stalled is None && (forall|j: int|
                0 <= j < n ==> (#[trigger] m.cmd(id, j))@.len() + reqs.len() <= lanes::LANE_CAP)
                ==> next.owner().stalled() is None
            &&& !moved ==> next.owner() == self.owner() && m.same(m2, n)
        }
    }

    /// The number of this worker's shard.
    pub fn id(&self) -> (r: usize)
        ensures
            r == self.owner().id(),
    {
        self.owner.shard_id()
    }

    /// The worker has nothing to do, given the requests that were left for it: nothing waits for
    /// room, no client waits for a reply, and no request is left.
    pub open spec fn at_rest(&self, ingress: Seq<ClientReq>) -> bool {
        &&& self.owner().stalled() is None
        &&& self.owner().unsent() is None
        &&& self.pending().len() == 0
        &&& self.waiters() == Map::<u64, usize>::empty()
        &&& ingress.len() == 0
    }

    /// Whether the worker has nothing to do.
    pub fn is_at_rest(&self, ingress: &Ingress) -> (r: bool)
        requires
            self.in_order(),
        ensures
            r == self.at_rest(ingress@),
    {
        proof {
            assert(self.waiters().is_empty() ==> self.waiters() =~= Map::<u64, usize>::empty());
        }
        !self.owner.is_stalled() && !self.owner.is_blocked() && self.pos >= self.backlog.len()
            && self.client_waiters.is_empty() && ingress.is_empty()
    }
}

/// The tokens of the requests that a worker with this work sent to worker `j`, in order.
pub open spec fn sent_tokens(work: Seq<Command>, j: int, n: int) -> Seq<u64> {
    lanes::get_tokens(lanes::routed(work, j, n))
}

/// Of the requests that worker `id` sent to worker `j`, number `p` was not answered: `taken`
/// says how many replies were taken from each worker.
pub open spec fn owed(work: Seq<Command>, taken: spec_fn(int) -> int, id: int, n: int, j: int, p: int) -> bool {
    0 <= j < n && j != id && taken(j) <= p < sent_tokens(work, j, n).len()
}

/// The clients that wait are those whose requests were not answered, each under a token of its
/// own.
pub open spec fn waits(work: Seq<Command>, waiters: Map<u64, usize>, taken: spec_fn(int) -> int, id: int, n: int) -> bool {
    &&& forall|j: int| 0 <= j < n && j != id ==> 0 <= #[trigger] taken(j) <= sent_tokens(work, j, n).len()
    &&& forall|j: int, p: int| #[trigger]
        owed(work, taken, id, n, j, p) ==> waiters.contains_key(sent_tokens(work, j, n)[p])
    &&& forall|t: u64| #[trigger]
        waiters.contains_key(t) ==> exists|j: int, p: int| #[trigger]
            owed(work, taken, id, n, j, p) && sent_tokens(work, j, n)[p] == t
    &&& forall|j: int, p: int, k: int, q: int|
        #![trigger owed(work, taken, id, n, j, p), owed(work, taken, id, n, k, q)]
        owed(work, taken, id, n, j, p) && owed(work, taken, id, n, k, q) && sent_tokens(work, j, n)[p] == sent_tokens(
            work,
            k,
            n,
        )[q] ==> j == k && p == q
}

/// A worker that takes up a request whose token is free keeps the clients that wait and their
/// requests in step.
proof fn lemma_take_up_waits(d: Desk, req: ClientReq, taken: spec_fn(int) -> int, id: int, n: int)
    requires
        waits(d.work, d.waiters, taken, id, n),
        !d.waiters.contains_key(token_of(id as u64, d.next)),
        n > 0,
    ensures
        waits(take_up(d, req, id, n).work, take_up(d, req, id, n).waiters, taken, id, n),
{
    let d2 = take_up(d, req, id, n);
    if d2.work.len() > d.work.len() {
        let cmd = d2.work.last();
        assert(d2.work.drop_last() =~= d.work);
        let o = shard::shard_of(cmd.about(), n);
        vstd::arithmetic::div_mod::lemma_mod_bound(shard::fnv(cmd.about()) as int, n);
        assert forall|j: int| 0 <= j < n && j != o implies #[trigger] sent_tokens(d2.work, j, n) == sent_tokens(
            d.work,
            j,
            n,
        ) by {}
        let r = lanes::routed(d2.work, o, n);
        assert(r.drop_last() =~= lanes::routed(d.work, o, n));
        if cmd is Put {
            assert(sent_tokens(d2.work, o, n) =~= sent_tokens(d.work, o, n));
            assert forall|j: int, p: int| #[trigger] owed(d2.work, taken, id, n, j, p) implies owed(
                d.work,
                taken,
                id,
                n,
                j,
                p,
            ) && sent_tokens(d2.work, j, n) == sent_tokens(d.work, j, n) by {}
            assert forall|t: u64| #[trigger] d2.waiters.contains_key(t) implies exists|j: int, p: int| #[trigger]
                owed(d2.work, taken, id, n, j, p) && sent_tokens(d2.work, j, n)[p] == t by {
                let (j, p) = choose|j: int, p: int| #[trigger]
                    owed(d.work, taken, id, n, j, p) && sent_tokens(d.work, j, n)[p] == t;
                assert(owed(d2.work, taken, id, n, j, p));
            }
        } else {
            let token = token_of(id as u64, d.next);
            let m = sent_tokens(d.work, o, n).len() as int;
            assert(sent_tokens(d2.work, o, n) =~= sent_tokens(d.work, o, n).push(token));
            assert forall|j: int, p: int| #[trigger] owed(d2.work, taken, id, n, j, p) implies (j == o && p == m
                && sent_tokens(d2.work, j, n)[p] == token) || (owed(d.work, taken, id, n, j, p) && sent_tokens(
                d2.work,
                j,
                n,
            )[p] == sent_tokens(d.work, j, n)[p] && sent_tokens(d.work, j, n)[p] != token) by {
                if !(j == o && p == m) {
                    assert(owed(d.work, taken, id, n, j, p));
                    assert(d.waiters.contains_key(sent_tokens(d.work, j, n)[p]));
                }
            }
            assert forall|t: u64| #[trigger] d2.waiters.contains_key(t) implies exists|j: int, p: int| #[trigger]
                owed(d2.work, taken, id, n, j, p) && sent_tokens(d2.work, j, n)[p] == t by {
                if t == token {
                    assert(owed(d2.work, taken, id, n, o, m));
                } else {
                    assert(d.waiters.contains_key(t));
                    let (j, p) = choose|j: int, p: int| #[trigger]
                        owed(d.work, taken, id, n, j, p) && sent_tokens(d.work, j, n)[p] == t;
                    assert(owed(d2.work, taken, id, n, j, p));
                    assert(sent_tokens(d2.work, j, n)[p] == t);
                }
            }
        }
    }
}

/// The same for several requests, one after the other.
pub proof fn taking_up_keeps_waits(d: Desk, reqs: Seq<ClientReq>, taken: spec_fn(int) -> int, id: int, n: int)
    requires
        waits(d.work, d.waiters, taken, id, n),
        n > 0,
        forall|p: int| 0 <= p < reqs.len() ==> !#[trigger] busy_at(d, reqs, p, id, n),
    ensures
        waits(taken_up(d, reqs, id, n).work, taken_up(d, reqs, id, n).waiters, taken, id, n),
    decreases reqs.len(),
{
    if reqs.len() > 0 {
        let rest = reqs.drop_last();
        assert forall|p: int| 0 <= p < rest.len() implies !#[trigger] busy_at(d, rest, p, id, n) by {
            assert(rest.take(p) =~= reqs.take(p));
            assert(!busy_at(d, reqs, p, id, n));
        }
        taking_up_keeps_waits(d, rest, taken, id, n);
        assert(reqs.take(rest.len() as int) =~= rest);
        assert(!busy_at(d, reqs, rest.len() as int, id, n));
        lemma_take_up_waits(taken_up(d, rest, id, n), reqs.last(), taken, id, n);
    }
}

/// Some replies carry the token `t`.
pub open spec fn answers_token(replies: Seq<Reply>, t: u64) -> bool {
    exists|k: int| 0 <= k < replies.len() && (#[trigger] replies[k]).token == t
}

/// Replies release the clients that wait for their tokens, and no others.
pub proof fn replies_release(w: Map<u64, usize>, t: Map<usize, Completed>, replies: Seq<Reply>)
    ensures
        forall|x: u64| #[trigger]
            settled(w, t, replies).0.contains_key(x) <==> w.contains_key(x) && !answers_token(replies, x),
        forall|x: u64| #[trigger] settled(w, t, replies).0.contains_key(x) ==> settled(w, t, replies).0[x] == w[x],
    decreases replies.len(),
{
    if replies.len() > 0 {
        let rest = replies.drop_last();
        let r = replies.last();
        replies_release(w, t, rest);
        assert forall|x: u64| answers_token(replies, x) <==> answers_token(rest, x) || r.token == x by {
            if answers_token(rest, x) {
                let k = choose|k: int| 0 <= k < rest.len() && (#[trigger] rest[k]).token == x;
                assert(replies[k].token == x);
            }
            if r.token == x {
                assert(replies[replies.len() - 1].token == x);
            }
            if answers_token(replies, x) && r.token != x {
                let k = choose|k: int| 0 <= k < replies.len() && (#[trigger] replies[k]).token == x;
                assert(rest[k].token == x);
            }
        }
        assert forall|x: u64| #[trigger] settled(w, t, replies).0.contains_key(x) <==> w.contains_key(x)
            && !answers_token(replies, x) by {
            assert(settled(w, t, rest).0.contains_key(x) <==> w.contains_key(x) && !answers_token(rest, x));
        }
        assert forall|x: u64| #[trigger] settled(w, t, replies).0.contains_key(x) implies settled(w, t, replies).0[x]
            == w[x] by {
            assert(settled(w, t, rest).0.contains_key(x));
        }
    }
}

/// Taking replies keeps the clients that wait and their requests in step.
pub proof fn collecting_keeps_waits(
    work: Seq<Command>,
    w: Map<u64, usize>,
    w2: Map<u64, usize>,
    taken: spec_fn(int) -> int,
    taken2: spec_fn(int) -> int,
    replies: Seq<Reply>,
    id: int,
    n: int,
)
    requires
        waits(work, w, taken, id, n),
        forall|j: int| 0 <= j < n && j != id ==> taken(j) <= #[trigger] taken2(j) <= sent_tokens(work, j, n).len(),
        forall|x: u64| #[trigger] w2.contains_key(x) <==> w.contains_key(x) && !answers_token(replies, x),
        forall|k: int|
            0 <= k < replies.len() ==> exists|j: int, p: int| #[trigger]
                owed(work, taken, id, n, j, p) && p < taken2(j) && sent_tokens(work, j, n)[p] == (
                #[trigger] replies[k]).token,
        forall|j: int, p: int| #[trigger]
            owed(work, taken, id, n, j, p) && p < taken2(j) ==> answers_token(replies, sent_tokens(work, j, n)[p]),
    ensures
        waits(work, w2, taken2, id, n),
{
    assert forall|j: int| 0 <= j < n && j != id implies 0 <= #[trigger] taken2(j) <= sent_tokens(work, j, n).len() by {
        assert(0 <= taken(j));
    }
    assert forall|j: int, p: int| #[trigger] owed(work, taken2, id, n, j, p) implies owed(work, taken, id, n, j, p) by {}
    assert forall|j: int, p: int| #[trigger] owed(work, taken2, id, n, j, p) implies w2.contains_key(
        sent_tokens(work, j, n)[p],
    ) by {
        assert(owed(work, taken, id, n, j, p));
        let x = sent_tokens(work, j, n)[p];
        assert(w.contains_key(x));
        if answers_token(replies, x) {
            let k = choose|k: int| 0 <= k < replies.len() && (#[trigger] replies[k]).token == x;
            let (i, q) = choose|i: int, q: int| #[trigger]
                owed(work, taken, id, n, i, q) && q < taken2(i) && sent_tokens(work, i, n)[q] == replies[k].token;
            assert(owed(work, taken, id, n, i, q));
            assert(i == j && q == p);
        }
    }
    assert forall|x: u64| #[trigger] w2.contains_key(x) implies exists|j: int, p: int| #[trigger]
        owed(work, taken2, id, n, j, p) && sent_tokens(work, j, n)[p] == x by {
        let (j, p) = choose|j: int, p: int| #[trigger]
            owed(work, taken, id, n, j, p) && sent_tokens(work, j, n)[p] == x;
        assert(owed(work, taken, id, n, j, p));
        if p < taken2(j) {
            assert(answers_token(replies, x));
        }
        assert(owed(work, taken2, id, n, j, p));
    }
}

/// The request of `ticket` has no outcome yet.
pub open spec fn open_ticket(t: Map<usize, Completed>, ticket: usize) -> bool {
    t.contains_key(ticket) && t[ticket] is None
}

/// A client waits for the request of `ticket`.
pub open spec fn waits_for(w: Map<u64, usize>, ticket: usize) -> bool {
    exists|x: u64| #[trigger] w.contains_key(x) && w[x] == ticket
}

/// Replies leave a request open only where its client still waits.
pub proof fn replies_keep_open(w: Map<u64, usize>, t: Map<usize, Completed>, replies: Seq<Reply>, ticket: usize)
    requires
        open_ticket(settled(w, t, replies).1, ticket),
    ensures
        open_ticket(t, ticket),
        waits_for(w, ticket) ==> waits_for(settled(w, t, replies).0, ticket),
    decreases replies.len(),
{
    if replies.len() > 0 {
        let rest = replies.drop_last();
        let r = replies.last();
        let (w1, t1) = settled(w, t, rest);
        assert(open_ticket(t1, ticket));
        replies_keep_open(w, t, rest, ticket);
        if waits_for(w1, ticket) {
            let x = choose|x: u64| #[trigger] w1.contains_key(x) && w1[x] == ticket;
            let w2 = settled(w, t, replies).0;
            assert(x != r.token);
            assert(w2.contains_key(x) && w2[x] == ticket);
        }
    }
}

/// Taking up requests leaves one open only where its client waits for a reply.
pub proof fn taking_up_keeps_open(d: Desk, reqs: Seq<ClientReq>, id: int, n: int, ticket: usize)
    requires
        open_ticket(taken_up(d, reqs, id, n).table, ticket),
        forall|p: int| 0 <= p < reqs.len() ==> !#[trigger] busy_at(d, reqs, p, id, n),
    ensures
        open_ticket(d.table, ticket),
        waits_for(d.waiters, ticket) ==> waits_for(taken_up(d, reqs, id, n).waiters, ticket),
        forall|p: int|
            0 <= p < reqs.len() && (#[trigger] reqs[p]).ticket == ticket ==> waits_for(
                taken_up(d, reqs, id, n).waiters,
                ticket,
            ),
    decreases reqs.len(),
{
    if reqs.len() > 0 {
        let rest = reqs.drop_last();
        let req = reqs.last();
        let d1 = taken_up(d, rest, id, n);
        let d2 = taken_up(d, reqs, id, n);
        assert forall|p: int| 0 <= p < rest.len() implies !#[trigger] busy_at(d, rest, p, id, n) by {
            assert(rest.take(p) =~= reqs.take(p));
            assert(!busy_at(d, reqs, p, id, n));
        }
        assert(reqs.take(rest.len() as int) =~= rest);
        assert(!busy_at(d, reqs, rest.len() as int, id, n));
        let token = token_of(id as u64, d1.next);
        assert(open_ticket(d1.table, ticket));
        taking_up_keeps_open(d, rest, id, n, ticket);
        assert(waits_for(d1.waiters, ticket) ==> waits_for(d2.waiters, ticket)) by {
            if waits_for(d1.waiters, ticket) {
                let x = choose|x: u64| #[trigger] d1.waiters.contains_key(x) && d1.waiters[x] == ticket;
                assert(x != token);
                assert(d2.waiters.contains_key(x) && d2.waiters[x] == ticket);
            }
        }
        assert forall|p: int| 0 <= p < reqs.len() && (#[trigger] reqs[p]).ticket == ticket implies waits_for(
            d2.waiters,
            ticket,
        ) by {
            if p < rest.len() {
                assert(rest[p].ticket == ticket);
            } else {
                assert(req.ticket == ticket);
                assert(d2.waiters.contains_key(token) && d2.waiters[token] == ticket);
            }
        }
    }
}

/// Some of the requests has this ticket.
pub open spec fn asked(reqs: Seq<ClientReq>, ticket: usize) -> bool {
    exists|p: int| 0 <= p < reqs.len() && (#[trigger] reqs[p]).ticket == ticket
}

impl ServiceWorker {
    /// The clients that wait are those whose requests were not answered.
    pub open spec fn in_step(&self, m: Matrix) -> bool {
        waits(self.owner().work(), self.waiters(), lanes::taken_by(m, self.owner().id()), self.owner().id(), self.owner().n())
    }

    /// The request of `ticket` is at this worker, whose ingress holds `g`: it was left there,
    /// was not taken up, or was forwarded and not answered.
    pub open spec fn minds(&self, g: Seq<ClientReq>, ticket: usize) -> bool {
        ||| waits_for(self.waiters(), ticket)
        ||| asked(self.pending(), ticket)
        ||| asked(g, ticket)
    }

    /// Who waits after this worker took up requests, and which requests are open.
    pub proof fn draining_keeps(
        &self,
        m: Matrix,
        g: Seq<ClientReq>,
        t: Map<usize, ReqCompletion>,
        next: ServiceWorker,
        m2: Matrix,
        g2: Seq<ClientReq>,
        t2: Map<usize, ReqCompletion>,
        moved: bool,
    )
        requires
            self.wf(m),
            self.in_step(m),
            next.owner().same_seat(self.owner()),
            m.step_of(m2, self.owner().id(), self.owner().n()),
            self.drained(m, g, t, next, m2, g2, t2, moved),
        ensures
            next.in_step(m2),
            forall|ticket: usize| #[trigger]
                open_ticket(outcomes(t2), ticket) ==> open_ticket(outcomes(t), ticket) && (self.minds(g, ticket)
                    ==> next.minds(g2, ticket)),
    {
        let id = self.owner().id();
        let n = self.owner().n();
        self.owner().lemma_wf(m);
        let d = self.desk(t);
        let d2 = next.desk(t2);
        let taken = lanes::taken_by(m, id);
        let taken2 = lanes::taken_by(m2, id);
        let stalled = self.owner().stalled();
        let blocked = stalled is Some && m.cmd(id, (stalled->0).0)@.len() >= lanes::LANE_CAP;
        let reqs = self.next_requests(g);
        let k = reqs.len() - next.pending().len();
        let front = if blocked {
            Seq::<ClientReq>::empty()
        } else {
            reqs.take(k)
        };
        assert(d2 == taken_up(d, front, id, n));
        assert forall|p: int| 0 <= p < front.len() implies !#[trigger] busy_at(d, front, p, id, n) by {
            assert(front.take(p) =~= reqs.take(p));
            assert(!busy_at(d, reqs, p, id, n));
        }
        taking_up_keeps_waits(d, front, taken, id, n);
        assert forall|j: int| 0 <= j < n && j != id implies taken(j) == #[trigger] taken2(j) && taken2(j) <= sent_tokens(
            d2.work,
            j,
            n,
        ).len() by {
            assert(m2.reply(j, id) == m.reply(j, id));
            assert(taken(j) <= sent_tokens(d2.work, j, n).len());
        }
        collecting_keeps_waits(d2.work, d2.waiters, d2.waiters, taken, taken2, Seq::empty(), id, n);
        assert forall|ticket: usize| #[trigger] open_ticket(outcomes(t2), ticket) implies open_ticket(outcomes(t), ticket)
            && (self.minds(g, ticket) ==> next.minds(g2, ticket)) by {
            taking_up_keeps_open(d, front, id, n, ticket);
            if self.minds(g, ticket) && !blocked {
                if waits_for(self.waiters(), ticket) {
                    assert(waits_for(next.waiters(), ticket));
                } else {
                    if asked(self.pending(), ticket) || self.pending().len() == 0 {
                        assert(asked(reqs, ticket)) by {
                            if asked(self.pending(), ticket) {
                                let p = choose|p: int|
                                    0 <= p < self.pending().len() && (#[trigger] self.pending()[p]).ticket == ticket;
                                assert(reqs[p].ticket == ticket);
                            } else {
                                let p = choose|p: int| 0 <= p < g.len() && (#[trigger] g[p]).ticket == ticket;
                                assert(reqs[g.len() - 1 - p].ticket == ticket);
                            }
                        }
                        let p = choose|p: int| 0 <= p < reqs.len() && (#[trigger] reqs[p]).ticket == ticket;
                        if p < k {
                            assert(front[p].ticket == ticket);
                        } else {
                            assert(next.pending()[p - k].ticket == ticket);
                        }
                    }
                }
            }
        }
    }

    /// Who waits after this worker took the replies to it, and which requests are open.
    pub proof fn pumping_keeps(
        &self,
        m: Matrix,
        t: Map<usize, ReqCompletion>,
        next: ServiceWorker,
        m2: Matrix,
        t2: Map<usize, ReqCompletion>,
        all: Seq<ServiceWorker>,
    )
        requires
            self.wf(m),
            self.in_step(m),
            next.wf(m2),
            next.owner().same_seat(self.owner()),
            next.pending() == self.pending(),
            m.step_of(m2, self.owner().id(), self.owner().n()),
            self.pumped(m, t, next, m2, t2),
            all.len() == self.owner().n(),
            forall|j: int|
                0 <= j < all.len() ==> {
                    &&& (#[trigger] all[j]).wf(m)
                    &&& all[j].owner().id() == j
                    &&& all[j].owner().n() == all.len()
                },
        ensures
            next.in_step(m2),
            forall|ticket: usize, g: Seq<ClientReq>| #[trigger]
                self.minds(g, ticket) && open_ticket(outcomes(t2), ticket) ==> next.minds(g, ticket),
            forall|ticket: usize| #[trigger] open_ticket(outcomes(t2), ticket) ==> open_ticket(outcomes(t), ticket),
    {
        let id = self.owner().id();
        let n = self.owner().n();
        self.owner().lemma_wf(m);
        next.owner().lemma_wf(m2);
        let d = self.desk(t);
        let d2 = next.desk(t2);
        let got = m.received(id, 0, n);
        let work = d.work;
        let taken = lanes::taken_by(m, id);
        let taken2 = lanes::taken_by(m2, id);
        assert forall|j: int| 0 <= j < n && j != id implies {
            let pushed = m.reply(j, id).pushed();
            &&& #[trigger] taken2(j) == pushed.len()
            &&& taken(j) + m.reply(j, id)@.len() == pushed.len()
            &&& pushed.len() <= sent_tokens(work, j, n).len()
            &&& forall|p: int| 0 <= p < pushed.len() ==> sent_tokens(work, j, n)[p] == (#[trigger] pushed[p]).token
            &&& forall|q: int| 0 <= q < m.reply(j, id)@.len() ==> #[trigger] m.reply(j, id)@[q] == pushed[taken(j) + q]
        } by {
            let pushed = m.reply(j, id).pushed();
            m.lemma_wf(n, j, id);
            m2.lemma_wf(n, j, id);
            m.reply(j, id).fifo();
            m2.reply(j, id).fifo();
            assert(m2.reply(j, id).pushed() == pushed);
            assert(m2.reply(j, id)@.len() == 0);
            assert(all[j].wf(m));
            lanes::tokens_are_in_flight(self.owner(), all[j].owner(), m);
            let tokens = lanes::tokens_of(lanes::answered(pushed));
            assert forall|p: int| 0 <= p < pushed.len() implies sent_tokens(work, j, n)[p] == (#[trigger] pushed[p]).token by {
                assert(sent_tokens(work, j, n)[p] == tokens[p]);
            }
        }
        lanes::received_is_the_column(m, id, 0, n);
        m.lemma_wf(n, id, id);
        m.reply(id, id).fifo();
        replies_release(d.waiters, d.table, got);
        assert forall|k: int| 0 <= k < got.len() implies exists|j: int, p: int| #[trigger]
            owed(work, taken, id, n, j, p) && p < taken2(j) && sent_tokens(work, j, n)[p] == (#[trigger] got[k]).token by {
            assert(lanes::in_column(m, id, 0, n, got[k]));
            let (j, q) = choose|j: int, q: int|
                0 <= j < n && 0 <= q < m.reply(j, id)@.len() && #[trigger] m.reply(j, id)@[q] == got[k];
            assert(j != id);
            assert(taken2(j) == m.reply(j, id).pushed().len());
            let p = taken(j) + q;
            assert(m.reply(j, id).pushed()[p] == got[k]);
            assert(owed(work, taken, id, n, j, p));
        }
        assert forall|j: int, p: int| #[trigger] owed(work, taken, id, n, j, p) && p < taken2(j) implies answers_token(
            got,
            sent_tokens(work, j, n)[p],
        ) by {
            let q = p - taken(j);
            let r = m.reply(j, id)@[q];
            assert(got.contains(r));
            let k = choose|k: int| 0 <= k < got.len() && got[k] == r;
            assert(m.reply(j, id).pushed()[p] == r);
            assert(got[k].token == sent_tokens(work, j, n)[p]);
        }
        collecting_keeps_waits(work, d.waiters, d2.waiters, taken, taken2, got, id, n);
        assert forall|ticket: usize| #[trigger] open_ticket(outcomes(t2), ticket) implies open_ticket(outcomes(t), ticket)
            && (waits_for(self.waiters(), ticket) ==> waits_for(next.waiters(), ticket)) by {
            replies_keep_open(d.waiters, d.table, got, ticket);
        }
    }
}

/// Replies leave no new completion and take none away.
pub proof fn replies_keep_tickets(w: Map<u64, usize>, t: Map<usize, Completed>, replies: Seq<Reply>)
    ensures
        settled(w, t, replies).1.dom() == t.dom(),
    decreases replies.len(),
{
    if replies.len() > 0 {
        replies_keep_tickets(w, t, replies.drop_last());
        assert(settled(w, t, replies).1.dom() =~= t.dom());
    }
}

/// Requests that are taken up leave no new completion and take none away. The commands that a
/// worker carried out and sent stay what they were, and more may follow.
pub proof fn taking_up_adds(d: Desk, reqs: Seq<ClientReq>, id: int, n: int)
    ensures
        taken_up(d, reqs, id, n).table.dom() == d.table.dom(),
        d.log.is_prefix_of(taken_up(d, reqs, id, n).log),
        d.work.is_prefix_of(taken_up(d, reqs, id, n).work),
    decreases reqs.len(),
{
    if reqs.len() > 0 {
        taking_up_adds(d, reqs.drop_last(), id, n);
        let d1 = taken_up(d, reqs.drop_last(), id, n);
        let d2 = taken_up(d, reqs, id, n);
        assert(d2.table.dom() =~= d.table.dom());
        assert(d.log =~= d2.log.take(d.log.len() as int)) by {
            assert(d.log =~= d1.log.take(d.log.len() as int));
        }
        assert(d.work =~= d2.work.take(d.work.len() as int)) by {
            assert(d.work =~= d1.work.take(d.work.len() as int));
        }
    } else {
        assert(d.log =~= d.log.take(d.log.len() as int));
        assert(d.work =~= d.work.take(d.work.len() as int));
    }
}

/// A token is the number of the worker, and below it the number of the request, which counts up
/// and starts again when the lower part is used up. So tokens tell requests apart.
pub proof fn tokens_are_worker_and_number(id: u64, t: u64)
    requires
        id < 0x1_0000,
        t < 0x1_0000_0000_0000,
    ensures
        token_of(id, t) == id * 0x1_0000_0000_0000 + t,
        token_after(t) == (t + 1) % 0x1_0000_0000_0000,
{
    assert(id < 0x1_0000u64 && t < 0x1_0000_0000_0000u64 ==> (id << 48) | t == id * 0x1_0000_0000_0000 + t) by (bit_vector);
}

/// A request is answered when it is taken up, or a client waits for it and its command is on the
/// way, whichever key and value it has: a write is answered and leaves one command, which the
/// worker carries out itself where the key is its own; a read of a key of the worker's own is
/// answered with the last write; any other read leaves one command and a client that waits for
/// its token.
pub proof fn requests_are_answered_or_wait(d: Desk, reqs: Seq<ClientReq>, req: ClientReq, id: int, n: int)
    requires
        taken_up(d, reqs, id, n).table.contains_key(req.ticket),
    ensures
        taken_up(d, Seq::<ClientReq>::empty(), id, n) == d,
        ({
            let b = taken_up(d, reqs, id, n);
            let a = taken_up(d, reqs.push(req), id, n);
            &&& a.table.dom() == b.table.dom()
            &&& forall|t: usize| t != req.ticket && #[trigger] b.table.contains_key(t) ==> a.table[t] == b.table[t]
            &&& forall|x: u64| #[trigger]
                b.waiters.contains_key(x) && a.waiters[x] != b.waiters[x] ==> x == token_of(id as u64, b.next)
            &&& match req.op {
                ClientOp::Put { key, val } => {
                    &&& a.table[req.ticket] == Some(None::<Seq<u8>>)
                    &&& a.work == b.work.push(Command::Put { key, val })
                    &&& shard::shard_of(key@, n) == id ==> a.log == b.log.push(
                        Entry { src: id, cmd: Command::Put { key, val } },
                    )
                    &&& shard::shard_of(key@, n) != id ==> a.log == b.log
                    &&& a.waiters == b.waiters
                    &&& a.next == b.next
                },
                ClientOp::Get { key } => {
                    &&& a.log == b.log
                    &&& shard::shard_of(key@, n) == id ==> {
                        &&& a.table[req.ticket] is Some
                        &&& a.table[req.ticket]->0 is Some <==> exists|p: int|
                            0 <= p < b.log.len() && (#[trigger] b.log[p]).cmd is Put && b.log[p].cmd->Put_key@ == key@
                        &&& a.table[req.ticket]->0 is Some ==> exists|p: int|
                            0 <= p < b.log.len() && (#[trigger] b.log[p]).cmd is Put && b.log[p].cmd->Put_key@ == key@
                                && b.log[p].cmd->Put_val@ == a.table[req.ticket]->0->0 && forall|q: int|
                                p < q < b.log.len() ==> !((#[trigger] b.log[q]).cmd is Put && b.log[q].cmd->Put_key@
                                    == key@)
                        &&& a.work == b.work
                        &&& a.waiters == b.waiters
                        &&& a.next == b.next
                    }
                    &&& shard::shard_of(key@, n) != id ==> {
                        &&& a.table == b.table
                        &&& a.work.len() == b.work.len() + 1
                        &&& a.work.drop_last() == b.work
                        &&& a.work.last() is Get
                        &&& a.work.last()->Get_key == key
                        &&& a.work.last()->from == id as usize
                        &&& a.work.last()->token == token_of(id as u64, b.next)
                        &&& a.waiters.contains_key(token_of(id as u64, b.next))
                        &&& a.waiters[token_of(id as u64, b.next)] == req.ticket
                        &&& a.next == token_after(b.next)
                    }
                },
            }
        }),
{
    let b = taken_up(d, reqs, id, n);
    assert(reqs.push(req).drop_last() =~= reqs);
    assert(taken_up(d, reqs.push(req), id, n) == take_up(b, req, id, n));
    assert(take_up(b, req, id, n).table.dom() =~= b.table.dom());
    match req.op {
        ClientOp::Get { key } => {
            lanes::shards_hold_the_last_writes(b.log, key@);
            lanes::lookups_are_of_entries(lanes::applied(b.log), key@);
            if shard::shard_of(key@, n) != id {
                assert(take_up(b, req, id, n).work.drop_last() =~= b.work);
            }
        },
        _ => {},
    }
}

/// A reply goes to the client that waits for its token, which waits no longer, and to no other:
/// the client gets the bytes of the reply, however many, and every other outcome is as it was.
pub proof fn replies_reach_their_clients(w: Map<u64, usize>, t: Map<usize, Completed>, replies: Seq<Reply>, r: Reply)
    ensures
        settled(w, t, Seq::<Reply>::empty()) == (w, t),
        ({
            let (w1, t1) = settled(w, t, replies);
            let (w2, t2) = settled(w, t, replies.push(r));
            &&& !w2.contains_key(r.token)
            &&& forall|x: u64| x != r.token ==> (#[trigger] w2.contains_key(x) <==> w1.contains_key(x))
            &&& forall|x: u64| #[trigger] w2.contains_key(x) ==> w2[x] == w1[x]
            &&& t2.dom() == t1.dom()
            &&& w1.contains_key(r.token) && t1.contains_key(w1[r.token]) ==> t2[w1[r.token]] is Some
            &&& w1.contains_key(r.token) && t1.contains_key(w1[r.token]) && r.val is None ==> t2[w1[r.token]]->0 is None
            &&& w1.contains_key(r.token) && t1.contains_key(w1[r.token]) && r.val is Some ==> t2[w1[r.token]]->0 == Some(
                r.val->0@,
            )
            &&& forall|k: usize|
                !(w1.contains_key(r.token) && w1[r.token] == k) && #[trigger] t1.contains_key(k) ==> t2[k] == t1[k]
        }),
{
    assert(replies.push(r).drop_last() =~= replies);
    let (w1, t1) = settled(w, t, replies);
    let (w2, t2) = settled(w, t, replies.push(r));
    assert(t2.dom() =~= t1.dom());
}

/// A worker that serves what waits for it carries out every command in the queues to it, as long
/// as there is room for the replies, and hands on every reply; the other queues are as they were.
pub proof fn serving_takes_everything(
    w: ServiceWorker,
    m: Matrix,
    t: Map<usize, ReqCompletion>,
    next: ServiceWorker,
    m2: Matrix,
    t2: Map<usize, ReqCompletion>,
)
    requires
        w.pumped(m, t, next, m2, t2),
        w.owner().n() >= 0,
    ensures
        ({
            let id = w.owner().id();
            let n = w.owner().n();
            let waiting = Seq::new(
                n as nat,
                |i: int| m.cmd(i, id)@.map_values(|c: Command| (Entry { src: i, cmd: c })),
            ).flatten();
            let answers = Seq::new(n as nat, |i: int| m.reply(i, id)@).flatten();
            &&& next.owner().unsent() is None ==> next.owner().log() == w.owner().log() + waiting
            &&& w.owner().unsent() is None && (forall|j: int|
                0 <= j < n ==> (#[trigger] m.reply(id, j))@.len() + waiting.len() <= 4096) ==> next.owner().log()
                == w.owner().log() + waiting
            &&& exists|k: int| 0 <= k <= waiting.len() && next.owner().log() == w.owner().log() + #[trigger] waiting.take(k)
            &&& (next.waiters(), outcomes(t2)) == settled(w.waiters(), outcomes(t), answers)
            &&& forall|i: int| 0 <= i < n ==> (#[trigger] m2.reply(i, id))@.len() == 0
            &&& next.owner().work() == w.owner().work()
        }),
{
    let id = w.owner().id();
    let n = w.owner().n();
    lanes::inboxes_are_the_queues(m, id, 0, n);
    assert(Seq::new(n as nat, |i: int| m.cmd(i, id)@.map_values(|c: Command| (Entry { src: i, cmd: c }))) =~= Seq::new(
        (n - 0) as nat,
        |i: int| m.cmd(0 + i, id)@.map_values(|c: Command| (Entry { src: 0 + i, cmd: c })),
    ));
    assert(Seq::new(n as nat, |i: int| m.reply(i, id)@) =~= Seq::new((n - 0) as nat, |i: int| m.reply(0 + i, id)@));
    let inbox = m.inbox(id, 0, n);
    assert(inbox.take(inbox.len() as int) =~= inbox);
    let count = next.desk(t2).log.len() - w.desk(t).log.len();
    assert(next.owner().log() == w.owner().log() + inbox.take(count));
}

/// A worker that takes up requests takes them in order and leaves none behind as long as there is
/// room in the queues from it and no token is in use.
pub proof fn requests_are_taken_in_order(
    w: ServiceWorker,
    m: Matrix,
    g: Seq<ClientReq>,
    t: Map<usize, ReqCompletion>,
    next: ServiceWorker,
    m2: Matrix,
    g2: Seq<ClientReq>,
    t2: Map<usize, ReqCompletion>,
    moved: bool,
)
    requires
        w.drained(m, g, t, next, m2, g2, t2, moved),
        w.owner().stalled() is None,
    ensures
        ({
            let id = w.owner().id();
            let n = w.owner().n();
            let reqs = if w.pending().len() == 0 {
                g.reverse()
            } else {
                w.pending()
            };
            let k = reqs.len() - next.pending().len();
            &&& 0 <= k <= reqs.len()
            &&& next.pending() == reqs.skip(k)
            &&& w.pending().len() == 0 ==> g2.len() == 0
            &&& w.pending().len() > 0 ==> g2 == g
            &&& next.desk(t2) == taken_up(w.desk(t), reqs.take(k), id, n)
            &&& moved <==> k > 0
            &&& (forall|j: int| 0 <= j < n ==> (#[trigger] m.cmd(id, j))@.len() + reqs.len() <= 4096)
                && !next.waiters().contains_key(token_of(id as u64, next.next_number())) && next.owner().id() == id
                ==> next.pending().len() == 0
        }),
{
}

} // verus!
