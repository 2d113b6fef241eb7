//! The mesh as a service: requests of clients, and the answers to them.
//!
//! A request lands at an accepting worker. A worker that owns the key serves it; another one
//! forwards it to the owner and hands the answer on. Clients that know the routing send a
//! request to the owner in the first place.
//!
//! A client either leaves a request and takes the outcome later ([`MeshService::submit`],
//! [`MeshService::take_outcome`]) while the workers take steps ([`MeshService::step`]), or uses a
//! [`ServiceHandle`], which lets the workers take steps until the outcome is there. What holds
//! of the outcomes holds in every order in which the workers take their steps.

use vstd::prelude::*;
use crate::desk;
use crate::desk::{ClientOp, ClientReq, Completed, Desk, Ingress, ReqCompletion, ServiceWorker};
use crate::lanes;
use crate::lanes::{open_lanes, route, Answer, Command, Entry, Matrix, Reply, ShardOwner};
use crate::pow2;
use crate::promises;
use crate::promises::Asked;
use crate::shard;
use crate::slab::Slab;
use crate::sums;

verus! {

/// What the clients and the workers share.
struct ServiceShared {
    ingress: Vec<Ingress>,
    table: Slab<ReqCompletion>,
    n: usize,
    mask: u64,
    rr: usize,
    stop: bool,
}

/// The service.
pub struct MeshService {
    workers: Vec<ServiceWorker>,
    matrix: Matrix,
    shared: ServiceShared,
    asked: Ghost<Map<usize, Asked>>,
}

impl MeshService {
    /// The number of shards.
    pub closed spec fn n(&self) -> int {
        self.workers@.len() as int
    }

    /// The commands that were carried out on shard `j`.
    pub closed spec fn log(&self, j: int) -> Seq<Entry> {
        self.workers@[j].owner().log()
    }

    /// What the shards hold together.
    pub open spec fn contents(&self) -> Map<Seq<u8>, Seq<u8>> {
        Map::new(
            |k: Seq<u8>| lanes::applied(self.log(shard::shard_of(k, self.n()))).contains_key(k),
            |k: Seq<u8>| lanes::applied(self.log(shard::shard_of(k, self.n())))[k],
        )
    }

    spec fn worker_ok(&self, i: int) -> bool {
        &&& self.workers@[i].wf(self.matrix)
        &&& self.workers@[i].owner().id() == i
        &&& self.workers@[i].owner().n() == self.workers@.len()
    }

    /// Worker `i` of the service.
    pub closed spec fn worker(&self, i: int) -> ServiceWorker {
        self.workers@[i]
    }

    /// The queues between the workers.
    pub closed spec fn queues(&self) -> Matrix {
        self.matrix
    }

    /// The requests that were left for worker `i`.
    pub closed spec fn left_for(&self, i: int) -> Seq<ClientReq> {
        self.shared.ingress@[i]@
    }

    /// The completions by ticket.
    pub closed spec fn completions(&self) -> Map<usize, ReqCompletion> {
        self.shared.table.view()
    }

    /// The outcomes by ticket: `None` while a request is open.
    pub open spec fn outcomes(&self) -> Map<usize, Completed> {
        desk::outcomes(self.completions())
    }

    /// The requests by ticket, as they were left.
    pub closed spec fn asked(&self) -> Map<usize, Asked> {
        self.asked@
    }

    /// The commands that worker `i` sent to the owners of their keys, or carried out itself.
    pub open spec fn work(&self, i: int) -> Seq<Command> {
        self.worker(i).owner().work()
    }

    /// The logs of the shards.
    pub open spec fn logs(&self) -> spec_fn(int) -> Seq<Entry> {
        |j: int| self.log(j)
    }

    /// The requests at worker `i` that it has not taken up.
    spec fn queue(&self, i: int) -> Seq<ClientReq> {
        self.workers@[i].pending() + self.shared.ingress@[i]@
    }

    /// Each request at worker `i` is what a client left there.
    spec fn orderly(&self, i: int) -> bool {
        promises::in_order(
            self.workers@[i].desk(self.completions()),
            self.queue(i),
            self.asked(),
            self.logs(),
            lanes::taken_by(self.matrix, i),
            i,
            self.n(),
        )
    }

    /// The request of `ticket` was left when the logs were no longer than they are.
    pub open spec fn noted(&self, ticket: usize) -> bool {
        let a = self.asked()[ticket];
        &&& 0 <= a.at < self.n()
        &&& a.since.len() == self.n()
        &&& forall|j: int| 0 <= j < self.n() ==> #[trigger] a.since[j] <= self.log(j).len()
        &&& a.sent <= self.work(a.at).len()
    }

    /// The outcome of `ticket`, if it is there, is right.
    pub open spec fn truthful(&self, ticket: usize) -> bool {
        let a = self.asked()[ticket];
        self.outcomes()[ticket] is Some ==> promises::right(
            a,
            self.outcomes()[ticket]->0,
            self.logs(),
            self.work(a.at),
            self.n(),
        )
    }

    /// The workers are told to stop.
    pub closed spec fn stopping(&self) -> bool {
        self.shared.stop
    }

    /// Some worker minds the request of `ticket`.
    spec fn is_minded(&self, ticket: usize) -> bool {
        exists|i: int| 0 <= i < self.n() && (#[trigger] self.workers@[i]).minds(self.shared.ingress@[i]@, ticket)
    }

    /// No request is lost or mistaken for another: the clients that wait are those whose
    /// requests were not answered, some worker minds every request that is open, each request
    /// is what a client left, and the outcomes are right.
    spec fn kept(&self) -> bool {
        &&& forall|i: int| 0 <= i < self.n() ==> #[trigger] self.orderly(i)
        &&& self.asked().dom() == self.outcomes().dom()
        &&& forall|ticket: usize| #[trigger]
            self.asked().contains_key(ticket) ==> self.noted(ticket) && self.truthful(ticket)
        &&& forall|ticket: usize| #[trigger]
            desk::open_ticket(self.outcomes(), ticket) ==> self.is_minded(ticket)
    }

    /// Every worker keeps true what it relies on, and no request is lost.
    pub closed spec fn wf(&self) -> bool {
        self.sound() && self.kept()
    }

    spec fn sound(&self) -> bool {
        let n = self.n();
        &&& 1 <= n <= pow2::max_pow2()
        &&& pow2::is_pow2(n)
        &&& self.shared.n == n
        &&& self.shared.mask == n - 1
        &&& self.shared.ingress@.len() == n
        &&& self.shared.table.wf()
        &&& self.matrix.wf(n)
        &&& forall|i: int| 0 <= i < n ==> #[trigger] self.worker_ok(i)
    }

    /// No message is under way between the workers.
    spec fn quiet(&self) -> bool {
        self.matrix.quiet(self.n())
    }

    /// Worker `i` has nothing to do.
    spec fn at_rest(&self, i: int) -> bool {
        self.workers@[i].at_rest(self.shared.ingress@[i]@)
    }

    /// There is no request under way.
    pub closed spec fn idle(&self) -> bool {
        &&& self.quiet()
        &&& forall|i: int| 0 <= i < self.n() ==> #[trigger] self.at_rest(i)
    }

    /// Starts a service of `requested` shards, rounded up to a power of two.
    pub fn start(requested: usize) -> (r: Self)
        requires
            requested <= pow2::max_pow2(),
        ensures
            r.wf(),
            r.idle(),
            pow2::is_next_pow2(r.n(), if requested < 1 {
                1
            } else {
                requested as int
            }),
            r.contents() == Map::<Seq<u8>, Seq<u8>>::empty(),
            r.outcomes() == Map::<usize, Completed>::empty(),
            r.turn() == 0,
            !r.stopping(),
    {
        let (matrix, mut owners) = open_lanes(requested);
        let n: usize = owners.len();
        let ghost all = owners@;
        let mut back: Vec<ShardOwner> = Vec::new();
        // From the back, so that each owner can be moved to its worker.
        while owners.len() > 0
            invariant
                n == all.len(),
                owners@.len() + back@.len() == n,
                owners@ == all.take(owners@.len() as int),
                forall|k: int| 0 <= k < back@.len() ==> #[trigger] back@[k] == all[n - 1 - k],
            decreases owners@.len(),
        {
            let ghost before = owners@;
            match owners.pop() {
                Some(o) => {
                    proof {
                        assert(owners@ =~= all.take(owners@.len() as int));
                        assert(o == before[before.len() - 1]);
                    }
                    back.push(o);
                },
                None => {},
            }
        }
        let mut workers: Vec<ServiceWorker> = Vec::new();
        let mut ingress: Vec<Ingress> = Vec::new();
        while back.len() > 0
            invariant
                n == all.len(),
                back@.len() + workers@.len() == n,
                ingress@.len() == workers@.len(),
                forall|k: int| 0 <= k < back@.len() ==> #[trigger] back@[k] == all[n - 1 - k],
                forall|i: int| 0 <= i < n ==> (#[trigger] all[i]).fresh(matrix, i, n as int),
                forall|i: int|
                    0 <= i < workers@.len() ==> {
                        &&& (#[trigger] workers@[i]).wf(matrix)
                        &&& workers@[i].owner().fresh(matrix, i, n as int)
                        &&& workers@[i].pending().len() == 0
                        &&& workers@[i].waiters() == Map::<u64, usize>::empty()
                    },
                forall|i: int| 0 <= i < ingress@.len() ==> (#[trigger] ingress@[i])@.len() == 0,
            decreases back@.len(),
        {
            let ghost before = back@;
            match back.pop() {
                Some(owner) => {
                    proof {
                        assert(owner == before[before.len() - 1]);
                        assert(owner == all[workers@.len() as int]);
                    }
                    workers.push(ServiceWorker::new(owner));
                    ingress.push(Ingress::new());
                },
                None => {},
            }
        }
        let shared = ServiceShared { ingress, table: Slab::new(), n, mask: (n - 1) as u64, rr: 0, stop: false };
        let r = MeshService { workers, matrix, shared, asked: Ghost(Map::empty()) };
        proof {
            assert forall|i: int| 0 <= i < n implies #[trigger] r.worker_ok(i) by {
                assert(r.workers@[i].wf(r.matrix));
            }
            assert forall|i: int| 0 <= i < n implies #[trigger] r.at_rest(i) by {
                assert(r.workers@[i].owner().fresh(r.matrix, i, n as int));
                assert(r.shared.ingress@[i]@.len() == 0);
            }
            assert forall|i: int| 0 <= i < n implies #[trigger] r.orderly(i) by {
                r.workers@[i].owner().lemma_wf(r.matrix);
                assert forall|j: int| 0 <= j < n && j != i implies #[trigger] r.matrix.reply(j, i).popped().len() == 0 by {
                    let o = r.workers@[j].owner();
                    assert(o.fresh(r.matrix, j, n as int));
                    o.lemma_wf(r.matrix);
                    assert(o.row_ok(r.matrix, i));
                    r.matrix.lemma_wf(n as int, j, i);
                    r.matrix.reply(j, i).fifo();
                    assert((lanes::answered(r.matrix.reply(j, i).pushed()) + o.unsent_to(i)).len() == 0);
                }
            }
            assert forall|k: Seq<u8>| !(#[trigger] r.contents().contains_key(k)) by {
                let j = shard::shard_of(k, n as int);
                vstd::arithmetic::div_mod::lemma_mod_bound(shard::fnv(k) as int, n as int);
                assert(r.workers@[j].owner().fresh(r.matrix, j, n as int));
            }
            assert(r.contents() =~= Map::<Seq<u8>, Seq<u8>>::empty());
            assert(r.outcomes() =~= Map::<usize, Completed>::empty());
        }
        r
    }

    /// The number of shards.
    pub fn num_shards(&self) -> (r: usize)
        requires
            self.wf(),
        ensures
            r == self.n(),
    {
        self.shared.n
    }

    /// Lets worker `id` serve what waits for it.
    fn pump_at(&mut self, id: usize) -> (r: bool)
        requires
            old(self).wf(),
            id < old(self).n(),
        ensures
            final(self).wf(),
            final(self).n() == old(self).n(),
            final(self).shared.ingress == old(self).shared.ingress,
            final(self).shared.rr == old(self).shared.rr,
            final(self).shared.stop == old(self).shared.stop,
            final(self).asked() == old(self).asked(),
            final(self).outcomes().dom() == old(self).outcomes().dom(),
            forall|ticket: usize| #[trigger]
                old(self).asked().contains_key(ticket) ==> final(self).answered_rightly(*old(self), id as int, ticket),
            final(self).extends(*old(self)),
            forall|i: int|
                0 <= i < old(self).n() && i != id ==> #[trigger] final(self).workers@[i] == old(self).workers@[i],
            old(self).matrix.step_of(final(self).matrix, id as int, old(self).n()),
            ({
                let w = old(self).workers@[id as int];
                let w2 = final(self).workers@[id as int];
                let n = old(self).n();
                let before = old(self).matrix.load(n) + w.owner().held();
                let after = final(self).matrix.load(n) + w2.owner().held();
                &&& w.pumped(
                    old(self).matrix,
                    old(self).shared.table.view(),
                    w2,
                    final(self).matrix,
                    final(self).shared.table.view(),
                )
                &&& w2.owner().stalled() == w.owner().stalled()
                &&& w2.pending() == w.pending()
                &&& after <= before
                &&& r ==> after < before
                &&& !r ==> {
                    &&& w2.owner() == w.owner()
                    &&& old(self).matrix.same(final(self).matrix, n)
                    &&& w2.owner().unsent() is Some ==> final(self).matrix.reply(
                        id as int,
                        (w2.owner().unsent()->0).0,
                    )@.len() == lanes::LANE_CAP
                }
            }),
    {
        let ghost n = self.n();
        assert(self.worker_ok(id as int));
        let r = self.workers[id].pump_matrix(&mut self.matrix, &mut self.shared.table);
        proof {
            self.lemma_stepped(*old(self), id as int);
            self.lemma_pumped(*old(self), id as int);
        }
        r
    }

    /// Lets worker `id` take up the requests that were left for it.
    fn drain_at(&mut self, id: usize) -> (r: bool)
        requires
            old(self).wf(),
            id < old(self).n(),
        ensures
            final(self).wf(),
            final(self).n() == old(self).n(),
            final(self).shared.rr == old(self).shared.rr,
            final(self).shared.stop == old(self).shared.stop,
            final(self).asked() == old(self).asked(),
            final(self).outcomes().dom() == old(self).outcomes().dom(),
            forall|ticket: usize| #[trigger]
                old(self).asked().contains_key(ticket) ==> final(self).answered_rightly(*old(self), id as int, ticket),
            final(self).extends(*old(self)),
            forall|i: int|
                0 <= i < old(self).n() && i != id ==> #[trigger] final(self).workers@[i] == old(self).workers@[i],
            forall|i: int|
                0 <= i < old(self).n() && i != id ==> #[trigger] final(self).shared.ingress@[i] == old(
                    self,
                ).shared.ingress@[i],
            old(self).matrix.step_of(final(self).matrix, id as int, old(self).n()),
            ({
                let w = old(self).workers@[id as int];
                let w2 = final(self).workers@[id as int];
                let g = old(self).shared.ingress@[id as int]@;
                let g2 = final(self).shared.ingress@[id as int]@;
                let n = old(self).n();
                let before = old(self).matrix.load(n) + w.owner().held() + 5 * (w.pending().len() + g.len());
                let after = final(self).matrix.load(n) + w2.owner().held() + 5 * (w2.pending().len() + g2.len());
                &&& w.drained(
                    old(self).matrix,
                    g,
                    old(self).shared.table.view(),
                    w2,
                    final(self).matrix,
                    g2,
                    final(self).shared.table.view(),
                    r,
                )
                &&& w2.owner().unsent() == w.owner().unsent()
                &&& after <= before
                &&& r ==> after < before
            }),
    {
        let ghost n = self.n();
        assert(self.worker_ok(id as int));
        let r = self.workers[id].drain_ingress(
            &mut self.matrix,
            &mut self.shared.ingress[id],
            &mut self.shared.table,
        );
        proof {
            self.lemma_stepped(*old(self), id as int);
            self.lemma_drained(*old(self), id as int, r);
        }
        r
    }

    proof fn lemma_stepped(&self, before: MeshService, id: int)
        requires
            before.wf(),
            0 <= id < before.n(),
            self.workers@.len() == before.workers@.len(),
            self.shared.n == before.shared.n,
            self.shared.mask == before.shared.mask,
            self.shared.ingress@.len() == before.shared.ingress@.len(),
            self.shared.table.wf(),
            forall|i: int| 0 <= i < before.n() && i != id ==> #[trigger] self.workers@[i] == before.workers@[i],
            self.workers@[id].wf(self.matrix),
            self.workers@[id].owner().same_seat(before.workers@[id].owner()),
            before.matrix.step_of(self.matrix, id, before.n()),
        ensures
            self.sound(),
    {
        let n = before.n();
        assert(before.worker_ok(id));
        self.workers@[id].owner().lemma_wf(self.matrix);
        assert forall|i: int| 0 <= i < n implies #[trigger] self.worker_ok(i) by {
            assert(before.worker_ok(i));
            if i != id {
                assert(self.workers@[i] == before.workers@[i]);
                self.workers@[i].owner().steps_of_others(before.matrix, self.matrix, id);
            }
        }
    }

    /// The logs and the commands sent are those of `before`, and more may follow.
    pub open spec fn extends(&self, before: MeshService) -> bool {
        &&& forall|i: int| 0 <= i < before.n() ==> before.log(i).is_prefix_of(#[trigger] self.log(i))
        &&& forall|i: int| 0 <= i < before.n() ==> before.work(i).is_prefix_of(#[trigger] self.work(i))
    }

    proof fn lemma_extends(&self, before: MeshService, id: int)
        requires
            self.n() == before.n(),
            forall|i: int| 0 <= i < before.n() && i != id ==> #[trigger] self.workers@[i] == before.workers@[i],
            before.log(id).is_prefix_of(self.log(id)),
            before.work(id).is_prefix_of(self.work(id)),
        ensures
            self.extends(before),
    {
        assert forall|i: int| 0 <= i < before.n() implies before.log(i).is_prefix_of(#[trigger] self.log(i)) by {
            if i != id {
                assert(self.workers@[i] == before.workers@[i]);
                assert(before.log(i) =~= self.log(i).take(before.log(i).len() as int));
            }
        }
        assert forall|i: int| 0 <= i < before.n() implies before.work(i).is_prefix_of(#[trigger] self.work(i)) by {
            if i != id {
                assert(self.workers@[i] == before.workers@[i]);
                assert(before.work(i) =~= self.work(i).take(before.work(i).len() as int));
            }
        }
    }

    /// What extends an extension extends.
    pub proof fn extensions_compose(&self, mid: MeshService, before: MeshService)
        requires
            self.n() == before.n(),
            mid.n() == before.n(),
            self.extends(mid),
            mid.extends(before),
        ensures
            self.extends(before),
    {
        assert forall|i: int| 0 <= i < before.n() implies before.log(i).is_prefix_of(#[trigger] self.log(i)) by {
            assert(mid.log(i).is_prefix_of(self.log(i)));
            assert(before.log(i).is_prefix_of(mid.log(i)));
            assert(before.log(i) =~= self.log(i).take(before.log(i).len() as int));
        }
        assert forall|i: int| 0 <= i < before.n() implies before.work(i).is_prefix_of(#[trigger] self.work(i)) by {
            assert(mid.work(i).is_prefix_of(self.work(i)));
            assert(before.work(i).is_prefix_of(mid.work(i)));
            assert(before.work(i) =~= self.work(i).take(before.work(i).len() as int));
        }
    }

    proof fn lemma_not_ahead(&self, i: int)
        requires
            self.sound(),
            0 <= i < self.n(),
        ensures
            promises::not_ahead(self.work(i), self.logs(), i, self.n()),
    {
        let n = self.n();
        let logs = self.logs();
        assert(self.worker_ok(i));
        assert forall|j: int| 0 <= j < n && j != i implies lanes::get_places(#[trigger] logs(j), i).len()
            <= desk::sent_tokens(self.work(i), j, n).len() by {
            assert(self.worker_ok(j));
            lanes::carried_out_is_front(self.workers@[i].owner(), self.workers@[j].owner(), self.matrix);
            lanes::keys_and_tokens(lanes::routed(self.work(i), j, n));
            lanes::answers_are_of_their_places(self.log(j), i);
        }
    }

    /// Where a step of worker `id` changed the outcome of `ticket`, the request was left there,
    /// was open, and got the right outcome.
    spec fn answered_rightly(&self, before: MeshService, id: int, ticket: usize) -> bool {
        self.outcomes()[ticket] != before.outcomes()[ticket] ==> {
            &&& before.asked()[ticket].at == id
            &&& before.outcomes()[ticket] is None
            &&& self.outcomes()[ticket] is Some
            &&& promises::right(
                before.asked()[ticket],
                self.outcomes()[ticket]->0,
                self.logs(),
                self.work(id),
                self.n(),
            )
        }
    }

    /// A step of a worker that keeps its own requests in order and answers rightly keeps all
    /// requests in order.
    #[verifier::rlimit(40)]
    #[verifier::spinoff_prover]
    proof fn lemma_step_keeps(&self, before: MeshService, id: int)
        requires
            before.wf(),
            self.sound(),
            0 <= id < before.n(),
            self.n() == before.n(),
            self.asked() == before.asked(),
            forall|i: int| 0 <= i < before.n() && i != id ==> #[trigger] self.workers@[i] == before.workers@[i],
            forall|i: int|
                0 <= i < before.n() && i != id ==> #[trigger] self.shared.ingress@[i] == before.shared.ingress@[i],
            before.matrix.step_of(self.matrix, id, before.n()),
            before.log(id).is_prefix_of(self.log(id)),
            before.work(id).is_prefix_of(self.work(id)),
            promises::in_order(
                self.workers@[id].desk(self.completions()),
                self.queue(id),
                before.asked(),
                before.logs(),
                lanes::taken_by(self.matrix, id),
                id,
                before.n(),
            ),
            self.outcomes().dom() == before.outcomes().dom(),
            forall|ticket: usize| #[trigger]
                before.asked().contains_key(ticket) ==> self.answered_rightly(before, id, ticket),
        ensures
            forall|i: int| 0 <= i < self.n() ==> #[trigger] self.orderly(i),
            forall|ticket: usize| #[trigger]
                self.asked().contains_key(ticket) ==> self.noted(ticket) && self.truthful(ticket),
    {
        let n = before.n();
        let logs = before.logs();
        let logs2 = self.logs();
        let asked = before.asked();
        assert forall|j: int| 0 <= j < n implies (#[trigger] logs(j)).is_prefix_of(logs2(j)) by {
            if j != id {
                assert(self.workers@[j] == before.workers@[j]);
                assert(logs(j) =~= logs2(j).take(logs(j).len() as int));
            }
        }
        assert forall|ticket: usize, j: int| #[trigger] asked.contains_key(ticket) && 0 <= j < n implies #[trigger] asked[ticket].since[j]
            <= logs(j).len() by {
            assert(before.noted(ticket));
        }
        assert forall|i: int| 0 <= i < n implies #[trigger] self.orderly(i) by {
            self.lemma_not_ahead(i);
            let taken2 = lanes::taken_by(self.matrix, i);
            let d2 = self.workers@[i].desk(self.completions());
            if i == id {
                promises::order_stays(
                    d2,
                    d2.table,
                    self.queue(id),
                    asked,
                    logs,
                    logs2,
                    taken2,
                    taken2,
                    id,
                    n,
                );
                assert((Desk { table: d2.table, ..d2 }) == d2);
            } else {
                assert(before.orderly(i));
                let d = before.workers@[i].desk(before.completions());
                let taken = lanes::taken_by(before.matrix, i);
                assert forall|j: int| 0 <= j < n && j != i implies #[trigger] taken2(j) == taken(j) by {
                    assert(self.matrix.reply(j, i).popped() == before.matrix.reply(j, i).popped());
                }
                assert forall|ticket: usize| #[trigger]
                    asked.contains_key(ticket) && asked[ticket].at == i && d.table.contains_key(ticket) implies d2.table[ticket]
                    == d.table[ticket] by {
                    assert(self.answered_rightly(before, id, ticket));
                }
                assert(self.workers@[i] == before.workers@[i]);
                assert(self.shared.ingress@[i] == before.shared.ingress@[i]);
                promises::order_stays(d, d2.table, before.queue(i), asked, logs, logs2, taken, taken2, i, n);
                assert((Desk { table: d2.table, ..d }) == d2);
            }
        }
        assert forall|ticket: usize| #[trigger] self.asked().contains_key(ticket) implies self.noted(ticket)
            && self.truthful(ticket) by {
            assert(before.noted(ticket));
            assert(before.truthful(ticket));
            assert(self.answered_rightly(before, id, ticket));
            let a = asked[ticket];
            assert forall|j: int| 0 <= j < n implies #[trigger] a.since[j] <= self.log(j).len() by {
                assert(logs(j).is_prefix_of(logs2(j)));
            }
            if a.at != id {
                assert(self.workers@[a.at] == before.workers@[a.at]);
                assert(before.work(a.at) =~= self.work(a.at).take(before.work(a.at).len() as int));
            }
            if before.outcomes()[ticket] is Some {
                assert(self.outcomes()[ticket] == before.outcomes()[ticket]);
                promises::right_stays(
                    a,
                    before.outcomes()[ticket]->0,
                    logs,
                    logs2,
                    before.work(a.at),
                    self.work(a.at),
                    n,
                );
            }
        }
    }

    proof fn lemma_in_step(&self, i: int)
        requires
            self.wf(),
            0 <= i < self.n(),
        ensures
            self.workers@[i].in_step(self.matrix),
    {
        assert(self.worker_ok(i));
        assert(self.orderly(i));
    }

    /// No request is lost when a worker serves what waits for it.
    proof fn lemma_pumped(&self, before: MeshService, id: int)
        requires
            before.wf(),
            self.sound(),
            0 <= id < before.n(),
            self.n() == before.n(),
            self.asked() == before.asked(),
            self.shared.ingress == before.shared.ingress,
            forall|i: int| 0 <= i < before.n() && i != id ==> #[trigger] self.workers@[i] == before.workers@[i],
            before.matrix.step_of(self.matrix, id, before.n()),
            before.workers@[id].pumped(
                before.matrix,
                before.completions(),
                self.workers@[id],
                self.matrix,
                self.completions(),
            ),
            self.workers@[id].pending() == before.workers@[id].pending(),
        ensures
            self.wf(),
            self.outcomes().dom() == before.outcomes().dom(),
            forall|ticket: usize| #[trigger]
                before.asked().contains_key(ticket) ==> self.answered_rightly(before, id, ticket),
            self.extends(before),
    {
        let n = before.n();
        let w = before.workers@[id];
        let w2 = self.workers@[id];
        assert(before.worker_ok(id));
        assert(self.worker_ok(id));
        assert forall|j: int| 0 <= j < n implies {
            &&& (#[trigger] before.workers@[j]).wf(before.matrix)
            &&& before.workers@[j].owner().id() == j
            &&& before.workers@[j].owner().n() == n
        } by {
            assert(before.worker_ok(j));
        }
        before.lemma_in_step(id);
        w.pumping_keeps(before.matrix, before.completions(), w2, self.matrix, self.completions(), before.workers@);
        assert forall|ticket: usize| #[trigger] desk::open_ticket(self.outcomes(), ticket) implies self.is_minded(
            ticket,
        ) by {
            assert(desk::open_ticket(before.outcomes(), ticket));
            let i = choose|i: int|
                0 <= i < n && (#[trigger] before.workers@[i]).minds(before.shared.ingress@[i]@, ticket);
            assert(self.workers@[i].minds(self.shared.ingress@[i]@, ticket));
        }
        let d = w.desk(before.completions());
        let d2 = w2.desk(self.completions());
        let got = before.matrix.received(id, 0, n);
        let q = before.queue(id);
        let taken = lanes::taken_by(before.matrix, id);
        let taken2 = lanes::taken_by(self.matrix, id);
        let logs = before.logs();
        let logs2 = self.logs();
        desk::replies_keep_tickets(d.waiters, d.table, got);
        assert(before.orderly(id));
        self.lemma_taken_grows(before, id);
        promises::collecting_keeps_order(d, q, got, before.asked(), logs, taken, taken2, id, n);
        before.lemma_replies(id);
        assert(d.log =~= d2.log.take(d.log.len() as int));
        assert(before.work(id) =~= self.work(id).take(before.work(id).len() as int));
        assert forall|j: int| 0 <= j < n implies (#[trigger] logs(j)).is_prefix_of(logs2(j)) by {
            if j != id {
                assert(self.workers@[j] == before.workers@[j]);
                assert(logs(j) =~= logs2(j).take(logs(j).len() as int));
            }
        }
        assert forall|ticket: usize| #[trigger] before.asked().contains_key(ticket) implies self.answered_rightly(
            before,
            id,
            ticket,
        ) by {
            assert(before.outcomes().dom().contains(ticket));
            if self.outcomes()[ticket] != before.outcomes()[ticket] {
                promises::replies_are_right(d, q, got, before.asked(), logs, taken, id, n, ticket);
                promises::right_stays(
                    before.asked()[ticket],
                    self.outcomes()[ticket]->0,
                    logs,
                    logs2,
                    before.work(id),
                    self.work(id),
                    n,
                );
            }
        }
        self.lemma_step_keeps(before, id);
        self.lemma_extends(before, id);
    }

    proof fn lemma_taken_grows(&self, before: MeshService, id: int)
        requires
            before.sound(),
            self.sound(),
            0 <= id < before.n(),
            self.n() == before.n(),
            before.matrix.step_of(self.matrix, id, before.n()),
            forall|j: int| 0 <= j < before.n() ==> (#[trigger] self.matrix.reply(j, id))@.len() == 0,
        ensures
            forall|j: int|
                0 <= j < before.n() && j != id ==> lanes::taken_by(before.matrix, id)(j) <= #[trigger] lanes::taken_by(
                    self.matrix,
                    id,
                )(j),
    {
        let n = before.n();
        assert forall|j: int| 0 <= j < n && j != id implies lanes::taken_by(before.matrix, id)(j)
            <= #[trigger] lanes::taken_by(self.matrix, id)(j) by {
            before.matrix.lemma_wf(n, j, id);
            self.matrix.lemma_wf(n, j, id);
            before.matrix.reply(j, id).fifo();
            self.matrix.reply(j, id).fifo();
            assert(self.matrix.reply(j, id)@.len() == 0);
            assert(self.matrix.reply(j, id).pushed() == before.matrix.reply(j, id).pushed());
        }
    }

    /// Each reply that waits for a worker answers a read that is owed to it.
    proof fn lemma_replies(&self, id: int)
        requires
            self.sound(),
            0 <= id < self.n(),
            self.workers@[id].in_step(self.matrix),
        ensures
            forall|k: int|
                0 <= k < self.matrix.received(id, 0, self.n()).len() ==> promises::is_owed(
                    #[trigger] self.matrix.received(id, 0, self.n())[k],
                    self.work(id),
                    self.logs(),
                    lanes::taken_by(self.matrix, id),
                    id,
                    self.n(),
                ),
    {
        let n = self.n();
        let m = self.matrix;
        let got = m.received(id, 0, n);
        let w = self.workers@[id].owner();
        let taken = lanes::taken_by(m, id);
        assert(self.worker_ok(id));
        w.lemma_wf(m);
        m.lemma_wf(n, id, id);
        m.reply(id, id).fifo();
        lanes::received_is_the_column(m, id, 0, n);
        assert forall|k: int| 0 <= k < got.len() implies promises::is_owed(
            #[trigger] got[k],
            self.work(id),
            self.logs(),
            taken,
            id,
            n,
        ) by {
            assert(lanes::in_column(m, id, 0, n, got[k]));
            let (j, q) = choose|j: int, q: int|
                0 <= j < n && 0 <= q < m.reply(j, id)@.len() && #[trigger] m.reply(j, id)@[q] == got[k];
            assert(j != id);
            let o = self.workers@[j].owner();
            assert(self.worker_ok(j));
            m.lemma_wf(n, j, id);
            m.reply(j, id).fifo();
            let p = taken(j) + q;
            let pushed = m.reply(j, id).pushed();
            assert(pushed[p] == got[k]);
            lanes::tokens_are_in_flight(w, o, m);
            lanes::replies_are_answers(w, o, m, p);
            lanes::carried_out_is_front(w, o, m);
            lanes::answers_are_of_their_places(o.log(), id);
            let tokens = lanes::tokens_of(lanes::answered(pushed));
            assert(desk::sent_tokens(self.work(id), j, n)[p] == tokens[p]);
            assert(desk::owed(self.work(id), taken, id, n, j, p));
            assert(promises::answers_read(got[k], self.work(id), self.logs(), taken, id, n, j, p));
        }
    }


    /// No request is lost when a worker takes up requests.
    proof fn lemma_drained(&self, before: MeshService, id: int, moved: bool)
        requires
            before.wf(),
            self.sound(),
            0 <= id < before.n(),
            self.n() == before.n(),
            self.asked() == before.asked(),
            forall|i: int| 0 <= i < before.n() && i != id ==> #[trigger] self.workers@[i] == before.workers@[i],
            forall|i: int|
                0 <= i < before.n() && i != id ==> #[trigger] self.shared.ingress@[i] == before.shared.ingress@[i],
            before.matrix.step_of(self.matrix, id, before.n()),
            before.workers@[id].drained(
                before.matrix,
                before.shared.ingress@[id]@,
                before.completions(),
                self.workers@[id],
                self.matrix,
                self.shared.ingress@[id]@,
                self.completions(),
                moved,
            ),
        ensures
            self.wf(),
            self.outcomes().dom() == before.outcomes().dom(),
            forall|ticket: usize| #[trigger]
                before.asked().contains_key(ticket) ==> self.answered_rightly(before, id, ticket),
            self.extends(before),
    {
        let n = before.n();
        let w = before.workers@[id];
        let w2 = self.workers@[id];
        let g = before.shared.ingress@[id]@;
        let g2 = self.shared.ingress@[id]@;
        assert(before.worker_ok(id));
        assert(self.worker_ok(id));
        before.lemma_in_step(id);
        w.draining_keeps(before.matrix, g, before.completions(), w2, self.matrix, g2, self.completions(), moved);
        assert forall|ticket: usize| #[trigger] desk::open_ticket(self.outcomes(), ticket) implies self.is_minded(
            ticket,
        ) by {
            assert(desk::open_ticket(before.outcomes(), ticket));
            let i = choose|i: int|
                0 <= i < n && (#[trigger] before.workers@[i]).minds(before.shared.ingress@[i]@, ticket);
            if i != id {
                assert(self.shared.ingress@[i] == before.shared.ingress@[i]);
            }
            assert(self.workers@[i].minds(self.shared.ingress@[i]@, ticket));
        }
        let d = w.desk(before.completions());
        let d2 = w2.desk(self.completions());
        let reqs = w.next_requests(g);
        let stalled = w.owner().stalled();
        let blocked = stalled is Some && before.matrix.cmd(id, (stalled->0).0)@.len() >= lanes::LANE_CAP;
        let k = if blocked {
            0
        } else {
            reqs.len() - w2.pending().len()
        };
        let all = if !blocked && w.pending().len() == 0 {
            g.reverse()
        } else {
            before.queue(id)
        };
        let taken = lanes::taken_by(before.matrix, id);
        let taken2 = lanes::taken_by(self.matrix, id);
        let logs = before.logs();
        let asked = before.asked();
        assert(before.orderly(id));
        if !blocked && w.pending().len() == 0 {
            assert(before.queue(id) =~= g);
            promises::order_is_free(d, g, asked, logs, taken, id, n);
        }
        if !blocked {
            assert(all.take(k) =~= reqs.take(k));
            assert forall|p: int| 0 <= p < k implies !#[trigger] desk::busy_at(d, all, p, id, n) by {
                assert(all.take(p) =~= reqs.take(p));
                assert(!desk::busy_at(d, reqs, p, id, n));
            }
        } else {
            assert(all.take(k) =~= Seq::<ClientReq>::empty());
        }
        assert(d2 == desk::taken_up(d, all.take(k), id, n));
        promises::taking_up_keeps_order(d, all, k, asked, logs, taken, id, n);
        assert(self.queue(id) =~= all.skip(k));
        desk::taking_up_adds(d, all.take(k), id, n);
        assert forall|ticket: usize| #[trigger] asked.contains_key(ticket) implies self.answered_rightly(
            before,
            id,
            ticket,
        ) by {
            assert(before.outcomes().dom().contains(ticket));
            assert(d.table.contains_key(ticket));
            assert(before.noted(ticket));
            if self.outcomes()[ticket] != before.outcomes()[ticket] {
                assert(asked[ticket].since[id] <= before.log(id).len());
                promises::taken_up_is_right(d, all, k, asked, self.logs(), id, n, ticket);
            }
        }
        assert forall|j: int| 0 <= j < n && j != id implies #[trigger] taken2(j) == taken(j) by {
            assert(self.matrix.reply(j, id) == before.matrix.reply(j, id));
        }
        assert forall|t: usize, j: int| #[trigger] asked.contains_key(t) && 0 <= j < n implies #[trigger] asked[t].since[j]
            <= logs(j).len() by {
            assert(before.noted(t));
        }
        assert forall|j: int| 0 <= j < n && j != id implies (#[trigger] logs(j)).is_prefix_of(logs(j)) by {
            assert(logs(j) =~= logs(j).take(logs(j).len() as int));
        }
        promises::order_stays(d2, d2.table, all.skip(k), asked, logs, logs, taken, taken2, id, n);
        assert((Desk { table: d2.table, ..d2 }) == d2);
        self.lemma_step_keeps(before, id);
        self.lemma_extends(before, id);
    }


    /// All is at rest but for one request that worker `a` forwarded to worker `o`: the command,
    /// the reply, and the clients of `a` that wait.
    spec fn under_way(&self, a: int, o: int, cmds: Seq<Command>, reps: Seq<Answer>, w: Map<u64, usize>) -> bool {
        let n = self.n();
        &&& forall|i: int, j: int|
            0 <= i < n && 0 <= j < n && !(i == a && j == o) ==> (#[trigger] self.matrix.cmd(i, j))@.len() == 0
        &&& self.matrix.cmd(a, o)@ == cmds
        &&& forall|i: int, j: int|
            0 <= i < n && 0 <= j < n && !(i == o && j == a) ==> (#[trigger] self.matrix.reply(i, j))@.len() == 0
        &&& lanes::answered(self.matrix.reply(o, a)@) == reps
        &&& forall|i: int|
            0 <= i < n ==> {
                &&& (#[trigger] self.workers@[i]).owner().stalled() is None
                &&& self.workers@[i].owner().unsent() is None
                &&& self.workers@[i].pending().len() == 0
                &&& self.workers@[i].waiters() == (if i == a {
                    w
                } else {
                    Map::empty()
                })
            }
        &&& forall|i: int| 0 <= i < n ==> (#[trigger] self.shared.ingress@[i])@.len() == 0
    }

    proof fn lemma_at_rest(&self, a: int, o: int)
        requires
            0 <= a < self.n(),
            0 <= o < self.n(),
            self.under_way(a, o, Seq::empty(), Seq::empty(), Map::empty()),
        ensures
            self.idle(),
    {
        let n = self.n();
        assert(lanes::answered(self.matrix.reply(o, a)@).len() == 0);
        assert forall|i: int| 0 <= i < n implies #[trigger] self.at_rest(i) by {
            assert(self.workers@[i].owner().stalled() is None);
            assert(self.shared.ingress@[i]@.len() == 0);
        }
    }

    /// A request was left at worker `a`, and `a` took it up.
    #[verifier::rlimit(40)]
    #[verifier::spinoff_prover]
    proof fn lemma_taken_up(&self, before: MeshService, a: int, req: ClientReq, moved: bool)
        requires
            before.wf(),
            self.wf(),
            self.n() == before.n(),
            0 <= a < before.n(),
            before.quiet(),
            forall|i: int| 0 <= i < before.n() && i != a ==> #[trigger] before.at_rest(i),
            before.workers@[a].owner().stalled() is None,
            before.workers@[a].owner().unsent() is None,
            before.workers@[a].pending().len() == 0,
            before.workers@[a].waiters() == Map::<u64, usize>::empty(),
            before.shared.ingress@[a]@ == seq![req],
            forall|i: int| 0 <= i < before.n() && i != a ==> #[trigger] self.workers@[i] == before.workers@[i],
            forall|i: int|
                0 <= i < before.n() && i != a ==> #[trigger] self.shared.ingress@[i] == before.shared.ingress@[i],
            before.matrix.step_of(self.matrix, a, before.n()),
            before.workers@[a].drained(
                before.matrix,
                before.shared.ingress@[a]@,
                before.shared.table.view(),
                self.workers@[a],
                self.matrix,
                self.shared.ingress@[a]@,
                self.shared.table.view(),
                moved,
            ),
            self.workers@[a].owner().unsent() == before.workers@[a].owner().unsent(),
        ensures
            ({
                let d = before.workers@[a].desk(before.shared.table.view());
                let after = desk::take_up(d, req, a, before.n());
                let key = match req.op {
                    ClientOp::Put { key, .. } => key@,
                    ClientOp::Get { key } => key@,
                };
                let o = shard::shard_of(key, before.n());
                &&& self.workers@[a].desk(self.shared.table.view()) == after
                &&& self.under_way(
                    a,
                    o,
                    if o == a {
                        Seq::empty()
                    } else {
                        seq![after.work.last()]
                    },
                    Seq::empty(),
                    after.waiters,
                )
            }),
    {
        let n = before.n();
        let w = before.workers@[a];
        let w2 = self.workers@[a];
        let m = before.matrix;
        let m2 = self.matrix;
        let d = w.desk(before.shared.table.view());
        let after = desk::take_up(d, req, a, n);
        let key = match req.op {
            ClientOp::Put { key, .. } => key@,
            ClientOp::Get { key } => key@,
        };
        let o = shard::shard_of(key, n);
        vstd::arithmetic::div_mod::lemma_mod_bound(shard::fnv(key) as int, n);
        assert(before.worker_ok(a));
        assert(self.worker_ok(a));
        w.owner().lemma_wf(m);
        w2.owner().lemma_wf(m2);
        let reqs = w.next_requests(before.shared.ingress@[a]@);
        assert(reqs =~= seq![req]);
        assert forall|j: int| 0 <= j < n implies (#[trigger] m.cmd(a, j))@.len() + reqs.len() <= lanes::LANE_CAP by {}
        assert(reqs.take(1).drop_last() =~= Seq::<ClientReq>::empty());
        assert(reqs.take(1).last() == req);
        assert(desk::taken_up(d, reqs.take(1), a, n) == after) by {
            reveal_with_fuel(desk::taken_up, 2);
        }
        assert(w2.desk(self.shared.table.view()) == after);
        let grown = after.work.len() > d.work.len();
        assert(grown ==> after.work.drop_last() =~= d.work);
        assert forall|i: int, j: int| 0 <= i < n && 0 <= j < n && !(i == a && j == o) implies (#[trigger] m2.cmd(
            i,
            j,
        ))@.len() == 0 by {
            assert(m.cmd(i, j)@.len() == 0);
            if i == a && j == a {
                m2.lemma_wf(n, a, a);
                m2.cmd(a, a).fifo();
            } else if i == a {
                assert(lanes::routed(after.work, j, n) =~= lanes::routed(d.work, j, n) + Seq::<Command>::empty());
                lanes::cmd_lane_grows(w.owner(), m, w2.owner(), m2, j, Seq::empty());
            }
        }
        if o == a {
            m2.lemma_wf(n, a, a);
            m2.cmd(a, a).fifo();
            assert(m2.cmd(a, o)@ =~= Seq::<Command>::empty());
        } else {
            let x = seq![after.work.last()];
            assert(lanes::routed(after.work, o, n) =~= lanes::routed(d.work, o, n) + x);
            lanes::cmd_lane_grows(w.owner(), m, w2.owner(), m2, o, x);
            assert(m.cmd(a, o)@.len() == 0);
            assert(m2.cmd(a, o)@ =~= x);
        }
        assert forall|i: int, j: int| 0 <= i < n && 0 <= j < n && !(i == o && j == a) implies (#[trigger] m2.reply(
            i,
            j,
        ))@.len() == 0 by {
            assert(m.reply(i, j)@.len() == 0);
        }
        assert(m2.reply(o, a) == m.reply(o, a));
        assert(lanes::answered(m2.reply(o, a)@) =~= Seq::<Answer>::empty());
        assert forall|i: int| 0 <= i < n implies {
            &&& (#[trigger] self.workers@[i]).owner().stalled() is None
            &&& self.workers@[i].owner().unsent() is None
            &&& self.workers@[i].pending().len() == 0
            &&& self.workers@[i].waiters() == (if i == a {
                after.waiters
            } else {
                Map::empty()
            })
        } by {
            if i != a {
                assert(before.at_rest(i));
                assert(self.workers@[i] == before.workers@[i]);
            }
        }
        assert forall|i: int| 0 <= i < n implies (#[trigger] self.shared.ingress@[i])@.len() == 0 by {
            if i != a {
                assert(before.at_rest(i));
                assert(self.shared.ingress@[i] == before.shared.ingress@[i]);
            }
        }
    }

    /// The owner of a forwarded request served it.
    #[verifier::rlimit(40)]
    #[verifier::spinoff_prover]
    proof fn lemma_served(&self, before: MeshService, a: int, o: int, cmd: Command, w: Map<u64, usize>)
        requires
            before.wf(),
            self.wf(),
            self.n() == before.n(),
            0 <= a < before.n(),
            0 <= o < before.n(),
            a != o,
            cmd is Get,
            before.under_way(a, o, seq![cmd], Seq::empty(), w),
            forall|i: int| 0 <= i < before.n() && i != o ==> #[trigger] self.workers@[i] == before.workers@[i],
            self.shared.ingress == before.shared.ingress,
            before.matrix.step_of(self.matrix, o, before.n()),
            before.workers@[o].pumped(
                before.matrix,
                before.shared.table.view(),
                self.workers@[o],
                self.matrix,
                self.shared.table.view(),
            ),
            self.workers@[o].owner().stalled() == before.workers@[o].owner().stalled(),
            self.workers@[o].pending() == before.workers@[o].pending(),
        ensures
            ({
                let d = before.workers@[o].desk(before.shared.table.view());
                let d2 = self.workers@[o].desk(self.shared.table.view());
                let val = lanes::lookup(lanes::applied(d.log), cmd.about());
                &&& d2 == (Desk { log: d.log.push(Entry { src: a, cmd }), ..d })
                &&& self.under_way(a, o, Seq::empty(), seq![(cmd->token, val)], w)
            }),
    {
        let n = before.n();
        let v = before.workers@[o];
        let v2 = self.workers@[o];
        let m = before.matrix;
        let m2 = self.matrix;
        let d = v.desk(before.shared.table.view());
        let d2 = v2.desk(self.shared.table.view());
        assert(before.worker_ok(o));
        assert(self.worker_ok(o));
        v.owner().lemma_wf(m);
        v2.owner().lemma_wf(m2);
        let e = Entry { src: a, cmd };
        lanes::inbox_from_one(m, o, a, 0, n);
        assert(m.inbox(o, 0, n) =~= seq![e]);
        assert(lanes::answered(m.reply(o, a)@).len() == 0);
        lanes::received_from_one(m, o, a, 0, n);
        assert(m.received(o, 0, n).len() == 0);
        assert forall|j: int| 0 <= j < n implies (#[trigger] m.reply(o, j))@.len() + 1 <= lanes::LANE_CAP by {}
        assert(seq![e].take(1) =~= seq![e]);
        assert(d.log + seq![e] =~= d.log.push(e));
        assert(d2.log == d.log.push(e));
        assert(d2.log.drop_last() =~= d.log);
        let val = lanes::lookup(lanes::applied(d.log), cmd.about());
        let y = seq![(cmd->token, val)];
        assert(lanes::answers(d2.log, a) =~= lanes::answers(d.log, a) + y);
        lanes::reply_lane_grows(v.owner(), m, v2.owner(), m2, a, y);
        assert(lanes::answered(m.reply(o, a)@) + y =~= y);
        assert forall|i: int, j: int| 0 <= i < n && 0 <= j < n && !(i == o && j == a) implies (#[trigger] m2.reply(
            i,
            j,
        ))@.len() == 0 by {
            assert(m.reply(i, j)@.len() == 0);
            if i == o && j != o {
                assert(lanes::answers(d2.log, j) =~= lanes::answers(d.log, j) + Seq::<Answer>::empty());
                lanes::reply_lane_grows(v.owner(), m, v2.owner(), m2, j, Seq::empty());
                assert(lanes::answered(m2.reply(o, j)@).len() == m2.reply(o, j)@.len());
                assert(lanes::answered(m.reply(o, j)@).len() == 0);
            }
        }
        assert forall|i: int, j: int| 0 <= i < n && 0 <= j < n implies (#[trigger] m2.cmd(i, j))@.len() == 0 by {
            if j != o {
                assert(m2.cmd(i, j) == m.cmd(i, j));
            }
        }
        assert(m2.cmd(a, o)@ =~= Seq::<Command>::empty());
        assert forall|i: int| 0 <= i < n implies {
            &&& (#[trigger] self.workers@[i]).owner().stalled() is None
            &&& self.workers@[i].owner().unsent() is None
            &&& self.workers@[i].pending().len() == 0
            &&& self.workers@[i].waiters() == (if i == a {
                w
            } else {
                Map::empty()
            })
        } by {
            assert(before.workers@[i].owner().stalled() is None);
            if i != o {
                assert(self.workers@[i] == before.workers@[i]);
            } else {
                assert(d2.waiters == d.waiters);
            }
        }
    }

    /// The worker that forwarded a request handed the reply on.
    #[verifier::rlimit(40)]
    #[verifier::spinoff_prover]
    proof fn lemma_answered(&self, before: MeshService, a: int, o: int, token: u64, val: Option<Seq<u8>>, ticket: usize)
        requires
            before.wf(),
            self.wf(),
            self.n() == before.n(),
            0 <= a < before.n(),
            0 <= o < before.n(),
            a != o,
            before.under_way(a, o, Seq::empty(), seq![(token, val)], Map::empty().insert(token, ticket)),
            forall|i: int| 0 <= i < before.n() && i != a ==> #[trigger] self.workers@[i] == before.workers@[i],
            self.shared.ingress == before.shared.ingress,
            before.matrix.step_of(self.matrix, a, before.n()),
            before.workers@[a].pumped(
                before.matrix,
                before.shared.table.view(),
                self.workers@[a],
                self.matrix,
                self.shared.table.view(),
            ),
            self.workers@[a].owner().stalled() == before.workers@[a].owner().stalled(),
            self.workers@[a].pending() == before.workers@[a].pending(),
        ensures
            ({
                let d = before.workers@[a].desk(before.shared.table.view());
                let d2 = self.workers@[a].desk(self.shared.table.view());
                &&& d2 == (Desk { waiters: Map::empty(), table: desk::fulfilled(d.table, ticket, val), ..d })
                &&& self.under_way(a, o, Seq::empty(), Seq::empty(), Map::empty())
            }),
    {
        let n = before.n();
        let v = before.workers@[a];
        let v2 = self.workers@[a];
        let m = before.matrix;
        let m2 = self.matrix;
        let d = v.desk(before.shared.table.view());
        let d2 = v2.desk(self.shared.table.view());
        assert(before.worker_ok(a));
        assert(self.worker_ok(a));
        v.owner().lemma_wf(m);
        v2.owner().lemma_wf(m2);
        lanes::inbox_from_one(m, a, o, 0, n);
        assert(m.inbox(a, 0, n).len() == 0);
        lanes::received_from_one(m, a, o, 0, n);
        let got = m.received(a, 0, n);
        assert(lanes::answered(got) == seq![(token, val)]);
        assert(got.len() == 1) by {
            assert(lanes::answered(got).len() == got.len());
        }
        assert(lanes::answer(got[0]) == (token, val)) by {
            assert(lanes::answered(got)[0] == lanes::answer(got[0]));
        }
        assert(got.drop_last() =~= Seq::<Reply>::empty());
        assert(got.last() == got[0]);
        assert(v.waiters() == Map::<u64, usize>::empty().insert(token, ticket));
        assert(desk::settled(d.waiters, d.table, got) == (
            d.waiters.remove(token),
            desk::fulfilled(d.table, ticket, val),
        )) by {
            reveal_with_fuel(desk::settled, 2);
        }
        assert(d.waiters.remove(token) =~= Map::<u64, usize>::empty());
        assert forall|j: int| 0 <= j < n implies (#[trigger] m.reply(a, j))@.len() + 0 <= lanes::LANE_CAP by {}
        assert(d2.log =~= d.log);
        assert forall|i: int, j: int| 0 <= i < n && 0 <= j < n implies (#[trigger] m2.reply(i, j))@.len() == 0 by {
            if i == a && j != a {
                assert(m.reply(a, j)@.len() == 0);
                assert(lanes::answers(d2.log, j) =~= lanes::answers(d.log, j) + Seq::<Answer>::empty());
                lanes::reply_lane_grows(v.owner(), m, v2.owner(), m2, j, Seq::empty());
                assert(lanes::answered(m2.reply(a, j)@).len() == m2.reply(a, j)@.len());
                assert(lanes::answered(m.reply(a, j)@).len() == 0);
            } else if j != a {
                assert(m2.reply(i, j) == m.reply(i, j));
            }
        }
        assert(lanes::answered(m2.reply(o, a)@) =~= Seq::<Answer>::empty());
        assert forall|i: int, j: int| 0 <= i < n && 0 <= j < n implies (#[trigger] m2.cmd(i, j))@.len() == 0 by {
            if j != a {
                assert(m2.cmd(i, j) == m.cmd(i, j));
                if i == a && j == o {
                    assert(m.cmd(a, o)@.len() == 0);
                }
            }
        }
        assert(m2.cmd(a, o)@ =~= Seq::<Command>::empty());
        assert forall|i: int| 0 <= i < n implies {
            &&& (#[trigger] self.workers@[i]).owner().stalled() is None
            &&& self.workers@[i].owner().unsent() is None
            &&& self.workers@[i].pending().len() == 0
            &&& self.workers@[i].waiters() == Map::<u64, usize>::empty()
        } by {
            assert(before.workers@[i].owner().stalled() is None);
            if i != a {
                assert(self.workers@[i] == before.workers@[i]);
            }
        }
    }

    /// The turn that decides which worker accepts the next request of a client that does not
    /// route.
    pub closed spec fn turn(&self) -> usize {
        self.shared.rr
    }

    /// A handle for clients.
    pub fn handle(&self) -> (r: ServiceHandle)
        requires
            self.wf(),
        ensures
            r.of(*self),
    {
        ServiceHandle { n: self.shared.n, mask: self.shared.mask }
    }

    /// Leaves a request at worker `accept` and returns the ticket of its completion, which is
    /// open.
    pub fn submit(&mut self, accept: usize, op: ClientOp) -> (ticket: usize)
        requires
            old(self).wf(),
            accept < old(self).n(),
        ensures
            final(self).wf(),
            final(self).same_but_requests(*old(self)),
            final(self).turn() == old(self).turn(),
            final(self).stopping() == old(self).stopping(),
            !old(self).outcomes().contains_key(ticket),
            final(self).outcomes() == old(self).outcomes().insert(ticket, None),
            final(self).asked() == old(self).asked().insert(
                ticket,
                Asked {
                    op,
                    at: accept as int,
                    since: Seq::new(old(self).n() as nat, |j: int| old(self).log(j).len()),
                    sent: old(self).work(accept as int).len(),
                },
            ),
            final(self).left_for(accept as int) == old(self).left_for(accept as int).push(ClientReq { op, ticket }),
            forall|i: int|
                0 <= i < old(self).n() && i != accept ==> #[trigger] final(self).left_for(i) == old(self).left_for(i),
    {
        let ghost a = accept as int;
        let ticket: usize = self.shared.table.insert(ReqCompletion::new());
        let ghost req = ClientReq { op, ticket };
        self.shared.ingress[accept].push(op, ticket);
        proof {
            let n = self.n();
            let entry = Asked {
                op,
                at: a,
                since: Seq::new(n as nat, |j: int| old(self).log(j).len()),
                sent: old(self).work(a).len(),
            };
            self.asked@ = self.asked@.insert(ticket, entry);
            assert(self.outcomes() =~= old(self).outcomes().insert(ticket, None));
            assert(self.asked().dom() =~= self.outcomes().dom());
            assert forall|i: int| 0 <= i < n implies #[trigger] self.worker_ok(i) by {
                assert(old(self).worker_ok(i));
            }
            assert forall|i: int| 0 <= i < n implies #[trigger] self.orderly(i) by {
                self.lemma_orderly_same(*old(self), i);
                if i == a {
                    let d = self.workers@[a].desk(self.completions());
                    let q = old(self).queue(a);
                    assert(old(self).orderly(a));
                    assert forall|k: int| 0 <= k < q.len() implies (#[trigger] q[k]).ticket != ticket by {
                        assert(desk::open_ticket(old(self).outcomes(), q[k].ticket));
                    }
                    assert forall|x: u64| #[trigger] d.waiters.contains_key(x) implies d.waiters[x] != ticket by {
                        assert(desk::open_ticket(old(self).outcomes(), d.waiters[x]));
                    }
                    promises::order_takes(
                        d,
                        q,
                        req,
                        self.asked(),
                        self.logs(),
                        lanes::taken_by(self.matrix, a),
                        a,
                        n,
                    );
                    assert(self.queue(a) =~= q.push(req));
                } else {
                    assert(self.queue(i) == old(self).queue(i));
                }
            }
            assert forall|t: usize| #[trigger] self.asked().contains_key(t) implies self.noted(t) && self.truthful(
                t,
            ) by {
                if t != ticket {
                    self.lemma_noted_same(*old(self), t);
                } else {
                    assert forall|j: int| 0 <= j < n implies #[trigger] entry.since[j] <= self.log(j).len() by {}
                }
            }
            assert forall|i: int| 0 <= i < n && i != a implies #[trigger] self.left_for(i) == old(self).left_for(i) by {}
            assert forall|t: usize| #[trigger] desk::open_ticket(self.outcomes(), t) implies self.is_minded(t) by {
                if t == ticket {
                    let g = self.shared.ingress@[a]@;
                    assert(g[g.len() - 1].ticket == ticket);
                    assert(self.workers@[a].minds(g, ticket));
                } else {
                    assert(desk::open_ticket(old(self).outcomes(), t));
                    let i = choose|i: int|
                        0 <= i < n && (#[trigger] old(self).workers@[i]).minds(old(self).shared.ingress@[i]@, t);
                    let g = old(self).shared.ingress@[i]@;
                    let g2 = self.shared.ingress@[i]@;
                    assert(g2.len() >= g.len());
                    assert forall|p: int| 0 <= p < g.len() implies #[trigger] g2[p] == g[p] by {
                        assert(self.left_for(i).len() >= 0);
                    }
                    if desk::asked(g, t) {
                        let p = choose|p: int| 0 <= p < g.len() && (#[trigger] g[p]).ticket == t;
                        assert(g2[p].ticket == t);
                    }
                    assert(self.workers@[i].minds(g2, t));
                }
            }
        }
        ticket
    }

    /// Takes the outcome of a request, if it is there.
    pub fn take_outcome(&mut self, ticket: usize) -> (r: Option<Option<Vec<u8>>>)
        requires
            old(self).wf(),
        ensures
            final(self).wf(),
            final(self).same_but_requests(*old(self)),
            final(self).turn() == old(self).turn(),
            final(self).stopping() == old(self).stopping(),
            forall|i: int| 0 <= i < old(self).n() ==> #[trigger] final(self).left_for(i) == old(self).left_for(i),
            ({
                let done = old(self).outcomes().contains_key(ticket) && old(self).outcomes()[ticket] is Some;
                &&& r is Some <==> done
                &&& done ==> desk::bytes_of(r->0) == old(self).outcomes()[ticket]->0
                &&& final(self).outcomes() == (if done {
                    old(self).outcomes().remove(ticket)
                } else {
                    old(self).outcomes()
                })
                &&& final(self).asked() == (if done {
                    old(self).asked().remove(ticket)
                } else {
                    old(self).asked()
                })
            }),
    {
        if !self.shared.table.contains(ticket) {
            return None;
        }
        if !self.shared.table.get(ticket).is_done() {
            return None;
        }
        let c = self.shared.table.remove(ticket);
        proof {
            self.asked@ = self.asked@.remove(ticket);
            assert(self.outcomes() =~= old(self).outcomes().remove(ticket));
            assert(self.asked().dom() =~= self.outcomes().dom());
            assert forall|i: int| 0 <= i < self.n() implies #[trigger] self.worker_ok(i) by {
                assert(old(self).worker_ok(i));
            }
            assert forall|i: int| 0 <= i < self.n() implies #[trigger] self.orderly(i) by {
                self.lemma_orderly_same(*old(self), i);
            }
            assert forall|t: usize| #[trigger] self.asked().contains_key(t) implies self.noted(t) && self.truthful(
                t,
            ) by {
                self.lemma_noted_same(*old(self), t);
            }
            assert forall|t: usize| #[trigger] desk::open_ticket(self.outcomes(), t) implies self.is_minded(t) by {
                assert(desk::open_ticket(old(self).outcomes(), t));
                assert(old(self).is_minded(t));
            }
        }
        Some(c.take())
    }

    /// The worker whose turn it is to accept a request. The turn passes on.
    pub fn next_accept(&mut self) -> (r: usize)
        requires
            old(self).wf(),
        ensures
            final(self).wf(),
            final(self).same_but_requests(*old(self)),
            final(self).stopping() == old(self).stopping(),
            final(self).asked() == old(self).asked(),
            final(self).completions() == old(self).completions(),
            forall|i: int| 0 <= i < old(self).n() ==> #[trigger] final(self).left_for(i) == old(self).left_for(i),
            r == old(self).turn() as int % old(self).n(),
            r < old(self).n(),
            final(self).turn() == old(self).turn().wrapping_add(1),
            old(self).idle() ==> final(self).idle() && final(self).contents() == old(self).contents(),
    {
        let r: usize = self.shared.rr % self.shared.n;
        self.shared.rr = self.shared.rr.wrapping_add(1);
        proof {
            self.lemma_same(*old(self));
            if old(self).idle() {
                self.lemma_idle_kept(*old(self));
            }
        }
        r
    }

    /// Tells the workers to stop once they have nothing to do.
    pub fn stop(&mut self)
        requires
            old(self).wf(),
        ensures
            final(self).wf(),
            final(self).same_but_requests(*old(self)),
            final(self).turn() == old(self).turn(),
            final(self).asked() == old(self).asked(),
            final(self).completions() == old(self).completions(),
            forall|i: int| 0 <= i < old(self).n() ==> #[trigger] final(self).left_for(i) == old(self).left_for(i),
            final(self).stopping(),
    {
        self.shared.stop = true;
        proof {
            self.lemma_same(*old(self));
        }
    }

    /// Whether no request is under way.
    pub fn is_idle(&self) -> (r: bool)
        requires
            self.wf(),
        ensures
            r == self.idle(),
    {
        if !self.matrix.is_quiet(self.workers.len()) {
            return false;
        }
        let mut i: usize = 0;
        while i < self.workers.len()
            invariant
                self.wf(),
                i <= self.workers@.len(),
                forall|k: int| 0 <= k < i ==> #[trigger] self.at_rest(k),
            decreases self.workers@.len() - i,
        {
            proof {
                assert(self.worker_ok(i as int));
            }
            if !self.workers[i].is_at_rest(&self.shared.ingress[i]) {
                proof {
                    assert(!self.at_rest(i as int));
                }
                return false;
            }
            i += 1;
        }
        true
    }

    /// Whether a worker may end, given whether its last step moved anything: the workers are told
    /// to stop, and all is quiescent, with no message under way between the workers, no request
    /// left at any of them and no client waiting. A worker that ended earlier could be missing
    /// when another one forwards a request to it.
    pub fn may_stop(&self, moved: bool) -> (r: bool)
        requires
            self.wf(),
        ensures
            r == (self.stopping() && !moved && self.idle()),
    {
        self.shared.stop && !moved && self.is_idle()
    }

    /// The workers and the queues are those of `before`.
    pub closed spec fn same_but_requests(&self, before: MeshService) -> bool {
        self.workers == before.workers && self.matrix == before.matrix
    }

    /// What follows from the workers and the queues being the same.
    pub proof fn same_workers(&self, before: MeshService)
        requires
            self.same_but_requests(before),
        ensures
            self.n() == before.n(),
            self.queues() == before.queues(),
            self.contents() == before.contents(),
            forall|i: int| #[trigger] self.worker(i) == before.worker(i),
            forall|i: int| #[trigger] self.log(i) == before.log(i),
    {
        assert(self.contents() =~= before.contents());
    }

    /// A change that touches no request of worker `i` leaves them in order.
    proof fn lemma_orderly_same(&self, before: MeshService, i: int)
        requires
            before.wf(),
            0 <= i < before.n(),
            self.workers == before.workers,
            self.matrix == before.matrix,
            forall|t: usize| #[trigger]
                before.asked().contains_key(t) && before.outcomes()[t] is None ==> self.asked().contains_key(t)
                    && self.asked()[t] == before.asked()[t] && self.outcomes().contains_key(t)
                    && self.outcomes()[t] is None,
        ensures
            promises::in_order(
                self.workers@[i].desk(self.completions()),
                before.queue(i),
                self.asked(),
                self.logs(),
                lanes::taken_by(self.matrix, i),
                i,
                self.n(),
            ),
    {
        let n = before.n();
        assert(before.orderly(i));
        let d = before.workers@[i].desk(before.completions());
        let t2 = self.outcomes();
        let q = before.queue(i);
        let taken = lanes::taken_by(before.matrix, i);
        let logs = before.logs();
        let logs2 = self.logs();
        assert forall|j: int| logs(j) == #[trigger] logs2(j) by {}
        assert forall|t: usize| #[trigger] desk::open_ticket(d.table, t) implies desk::open_ticket(t2, t)
            && self.asked()[t] == before.asked()[t] && self.asked().contains_key(t) by {
            assert(before.asked().dom().contains(t));
            assert(before.asked().contains_key(t));
        }
        assert forall|a: int| 0 <= a < q.len() implies desk::open_ticket(t2, (#[trigger] q[a]).ticket)
            && self.asked()[q[a].ticket] == before.asked()[q[a].ticket] && self.asked().contains_key(q[a].ticket) by {
            assert(desk::open_ticket(d.table, q[a].ticket));
        }
        assert forall|x: u64| #[trigger] d.waiters.contains_key(x) implies desk::open_ticket(t2, d.waiters[x])
            && self.asked()[d.waiters[x]] == before.asked()[d.waiters[x]] && self.asked().contains_key(d.waiters[x]) by {
            assert(desk::open_ticket(d.table, d.waiters[x]));
        }
        assert forall|j: int, p: int| #[trigger] desk::owed(d.work, taken, i, n, j, p) implies {
            let ticket = d.waiters[desk::sent_tokens(d.work, j, n)[p]];
            &&& promises::reads(self.asked(), ticket, i, promises::sent_keys(d.work, j, n)[p], j, n)
            &&& p < lanes::get_places(logs2(j), i).len() ==> self.asked()[ticket].since[j] <= lanes::get_places(
                logs2(j),
                i,
            )[p]
        } by {
            let x = desk::sent_tokens(d.work, j, n)[p];
            assert(d.waiters.contains_key(x));
        }
        assert(promises::not_ahead(d.work, logs2, i, n)) by {
            assert forall|j: int| 0 <= j < n && j != i implies lanes::get_places(#[trigger] logs2(j), i).len()
                <= desk::sent_tokens(d.work, j, n).len() by {
                assert(logs(j) == logs2(j));
            }
        }
    }

    /// A change that does not touch the request of `t` leaves it noted and its outcome right.
    proof fn lemma_noted_same(&self, before: MeshService, t: usize)
        requires
            before.wf(),
            self.workers == before.workers,
            before.asked().contains_key(t),
            self.asked()[t] == before.asked()[t],
            self.outcomes()[t] == before.outcomes()[t],
        ensures
            self.noted(t),
            self.truthful(t),
    {
        let a = before.asked()[t];
        let logs = before.logs();
        let logs2 = self.logs();
        assert(before.noted(t));
        assert(before.truthful(t));
        assert forall|j: int| 0 <= j < self.n() implies #[trigger] a.since[j] <= self.log(j).len() by {
            assert(before.log(j) == self.log(j));
        }
        if self.outcomes()[t] is Some {
            assert forall|j: int| 0 <= j < self.n() implies (#[trigger] logs(j)).is_prefix_of(logs2(j)) by {
                assert(logs(j) =~= logs2(j).take(logs(j).len() as int));
            }
            assert(before.work(a.at) =~= self.work(a.at).take(before.work(a.at).len() as int));
            promises::right_stays(
                a,
                self.outcomes()[t]->0,
                logs,
                logs2,
                before.work(a.at),
                self.work(a.at),
                self.n(),
            );
        }
    }

    proof fn lemma_same(&self, before: MeshService)
        requires
            before.wf(),
            self.workers == before.workers,
            self.matrix == before.matrix,
            self.shared.ingress == before.shared.ingress,
            self.shared.table == before.shared.table,
            self.shared.n == before.shared.n,
            self.shared.mask == before.shared.mask,
            self.asked() == before.asked(),
        ensures
            self.wf(),
    {
        assert forall|i: int| 0 <= i < self.n() implies #[trigger] self.worker_ok(i) by {
            assert(before.worker_ok(i));
        }
        assert forall|i: int| 0 <= i < self.n() implies #[trigger] self.orderly(i) by {
            self.lemma_orderly_same(before, i);
        }
        assert forall|t: usize| #[trigger] self.asked().contains_key(t) implies self.noted(t) && self.truthful(t) by {
            self.lemma_noted_same(before, t);
        }
        assert forall|t: usize| #[trigger] desk::open_ticket(self.outcomes(), t) implies self.is_minded(t) by {
            assert(desk::open_ticket(before.outcomes(), t));
            assert(before.is_minded(t));
        }
    }

    proof fn lemma_idle_kept(&self, before: MeshService)
        requires
            before.idle(),
            self.n() == before.n(),
            self.workers == before.workers,
            self.matrix == before.matrix,
            forall|i: int| 0 <= i < before.n() ==> #[trigger] self.left_for(i) == before.left_for(i),
        ensures
            self.idle(),
            self.contents() == before.contents(),
    {
        assert forall|i: int| 0 <= i < self.n() implies #[trigger] self.at_rest(i) by {
            assert(before.at_rest(i));
            assert(self.left_for(i) == before.left_for(i));
        }
        assert(self.contents() =~= before.contents());
    }

    /// Takes the outcome of a request, and lets the workers take steps until it is there.
    fn finish(&mut self, ticket: usize) -> (r: Option<Vec<u8>>)
        requires
            old(self).wf(),
            old(self).outcomes().contains_key(ticket),
        ensures
            final(self).wf(),
            final(self).n() == old(self).n(),
            final(self).turn() == old(self).turn(),
            final(self).stopping() == old(self).stopping(),
            final(self).asked() == old(self).asked().remove(ticket),
            final(self).outcomes().dom() == old(self).outcomes().dom().remove(ticket),
            forall|t: usize| #[trigger]
                old(self).outcomes().contains_key(t) && t != ticket && old(self).outcomes()[t] is Some
                    ==> final(self).outcomes()[t] == old(self).outcomes()[t],
            final(self).extends(*old(self)),
            promises::right(
                old(self).asked()[ticket],
                desk::bytes_of(r),
                final(self).logs(),
                final(self).work(old(self).asked()[ticket].at),
                old(self).n(),
            ),
            old(self).outcomes()[ticket] is Some ==> {
                &&& desk::bytes_of(r) == old(self).outcomes()[ticket]->0
                &&& final(self).same_but_requests(*old(self))
                &&& forall|i: int| 0 <= i < old(self).n() ==> #[trigger] final(self).left_for(i) == old(self).left_for(i)
                &&& final(self).outcomes() == old(self).outcomes().remove(ticket)
            },
    {
        proof {
            self.outcomes_are_right(ticket);
        }
        let first = self.take_outcome(ticket);
        match first {
            Some(val) => {
                proof {
                    self.lemma_taken(*old(self), ticket);
                }
                return val;
            },
            None => {},
        }
        let ghost s1 = *self;
        self.drain();
        let ghost s2 = *self;
        proof {
            assert(s2.outcomes().dom().contains(ticket));
            s2.outcomes_are_right(ticket);
        }
        let second = self.take_outcome(ticket);
        proof {
            self.lemma_taken(s2, ticket);
            s1.lemma_extends(*old(self), 0);
            s2.extensions_compose(s1, *old(self));
            self.extensions_compose(s2, *old(self));
            assert(self.outcomes().dom() =~= old(self).outcomes().dom().remove(ticket));
            assert forall|t: usize| #[trigger]
                old(self).outcomes().contains_key(t) && t != ticket && old(self).outcomes()[t] is Some implies self.outcomes()[t]
                == old(self).outcomes()[t] by {
                assert(s1.outcomes().contains_key(t));
                assert(s2.outcomes()[t] == s1.outcomes()[t]);
            }
        }
        match second {
            Some(val) => val,
            None => None,
        }
    }

    proof fn lemma_taken(&self, before: MeshService, ticket: usize)
        requires
            before.wf(),
            before.outcomes().contains_key(ticket),
            before.outcomes()[ticket] is Some,
            self.same_but_requests(before),
        ensures
            self.extends(before),
            promises::right(
                before.asked()[ticket],
                before.outcomes()[ticket]->0,
                self.logs(),
                self.work(before.asked()[ticket].at),
                before.n(),
            ),
    {
        before.outcomes_are_right(ticket);
        self.lemma_extends(before, 0);
        let logs = before.logs();
        let logs2 = self.logs();
        let a = before.asked()[ticket];
        assert forall|j: int| 0 <= j < before.n() implies (#[trigger] logs(j)).is_prefix_of(logs2(j)) by {
            assert(before.log(j).is_prefix_of(self.log(j)));
        }
        assert(before.work(a.at).is_prefix_of(self.work(a.at)));
        promises::right_stays(a, before.outcomes()[ticket]->0, logs, logs2, before.work(a.at), self.work(a.at), before.n());
    }

    /// Serves a write of a key at its owner.
    fn serve_put(&mut self, accept: usize, key: Vec<u8>, val: Vec<u8>)
        requires
            old(self).wf(),
            accept == shard::shard_of(key@, old(self).n()),
            accept < old(self).n(),
        ensures
            final(self).wf(),
            final(self).n() == old(self).n(),
            final(self).turn() == old(self).turn(),
            final(self).stopping() == old(self).stopping(),
            final(self).asked() == old(self).asked(),
            final(self).outcomes().dom() == old(self).outcomes().dom(),
            final(self).keeps_outcomes(*old(self)),
            final(self).extends(*old(self)),
            final(self).has_written(*old(self), key@, val@),
            old(self).idle() ==> {
                &&& final(self).idle()
                &&& final(self).outcomes() == old(self).outcomes()
                &&& final(self).contents() == old(self).contents().insert(key@, val@)
            },
    {
        let ghost n = self.n();
        let ghost a = accept as int;
        let ghost op = ClientOp::Put { key, val };
        proof {
            if self.idle() {
                assert(self.at_rest(a));
            }
        }
        let ticket: usize = self.submit(accept, ClientOp::Put { key, val });
        let ghost s1 = *self;
        let ghost req = ClientReq { op, ticket };
        proof {
            s1.lemma_extends(*old(self), 0);
            if old(self).idle() {
                assert(s1.shared.ingress@[a]@ =~= seq![req]);
                assert forall|i: int| 0 <= i < n && i != a implies #[trigger] s1.at_rest(i) by {
                    assert(old(self).at_rest(i));
                    assert(s1.left_for(i) == old(self).left_for(i));
                }
            }
        }
        let moved = self.drain_at(accept);
        let ghost s2 = *self;
        proof {
            s2.extensions_compose(s1, *old(self));
            assert(s2.outcomes().dom().contains(ticket));
            if old(self).idle() {
                s2.lemma_taken_up(s1, a, req, moved);
                s2.lemma_at_rest(a, a);
            }
        }
        let none = self.finish(ticket);
        proof {
            self.extensions_compose(s2, *old(self));
            assert(self.asked() =~= old(self).asked());
            assert(self.outcomes().dom() =~= old(self).outcomes().dom());
            assert forall|t: usize| #[trigger]
                old(self).outcomes().contains_key(t) && old(self).outcomes()[t] is Some implies self.outcomes()[t] == old(
                self,
            ).outcomes()[t] by {
                assert(s1.outcomes()[t] == old(self).outcomes()[t]);
                assert(s1.asked().dom().contains(t));
                assert(s2.answered_rightly(s1, a, t));
                assert(s2.outcomes().dom().contains(t));
            }
            let log = self.logs()(a);
            let since = s1.asked()[ticket].since;
            let p = choose|p: int| since[a] <= p < log.len() && #[trigger] promises::written_at(log, p, key, val);
            assert(promises::stands_at(self.log(a), p, key@, val@));
            if old(self).idle() {
                self.lemma_idle_kept(s2);
                assert(s2.outcomes() =~= old(self).outcomes().insert(ticket, Some(None)));
                assert(self.outcomes() =~= old(self).outcomes());
                let entry = Entry { src: a, cmd: Command::Put { key, val } };
                assert(s2.log(a) == old(self).log(a).push(entry));
                assert(s2.log(a).drop_last() =~= old(self).log(a));
                assert forall|i: int| 0 <= i < n && i != a implies #[trigger] s2.log(i) == old(self).log(i) by {
                    assert(s2.workers@[i] == s1.workers@[i]);
                }
                let want = old(self).contents().insert(key@, val@);
                assert forall|k: Seq<u8>| #[trigger] s2.contents().contains_key(k) <==> want.contains_key(k) by {
                    vstd::arithmetic::div_mod::lemma_mod_bound(shard::fnv(k) as int, n);
                }
                assert forall|k: Seq<u8>| #[trigger] s2.contents().contains_key(k) implies s2.contents()[k] == want[k] by {
                    vstd::arithmetic::div_mod::lemma_mod_bound(shard::fnv(k) as int, n);
                }
                assert(s2.contents() =~= want);
            }
        }
    }

    /// Serves a read of a key at worker `accept`, which forwards it where it does not own the
    /// key.
    #[verifier::rlimit(40)]
    fn serve_get(&mut self, accept: usize, owner: usize, key: Vec<u8>) -> (r: Option<Vec<u8>>)
        requires
            old(self).wf(),
            accept < old(self).n(),
            owner == shard::shard_of(key@, old(self).n()),
            owner < old(self).n(),
        ensures
            final(self).wf(),
            final(self).n() == old(self).n(),
            final(self).turn() == old(self).turn(),
            final(self).stopping() == old(self).stopping(),
            final(self).asked() == old(self).asked(),
            final(self).outcomes().dom() == old(self).outcomes().dom(),
            final(self).keeps_outcomes(*old(self)),
            final(self).extends(*old(self)),
            final(self).has_read(*old(self), accept as int, key@, desk::bytes_of(r)),
            old(self).idle() ==> {
                &&& final(self).idle()
                &&& final(self).read_through(*old(self), accept as int, key@)
                &&& final(self).outcomes() == old(self).outcomes()
                &&& final(self).contents() == old(self).contents()
                &&& desk::bytes_of(r) == lanes::lookup(old(self).contents(), key@)
            },
    {
        let ghost n = self.n();
        let ghost a = accept as int;
        let ghost o = owner as int;
        let ghost op = ClientOp::Get { key };
        let ghost val = lanes::lookup(self.contents(), key@);
        let ghost idle = self.idle();
        proof {
            if idle {
                assert(self.at_rest(a));
            }
        }
        let ticket: usize = self.submit(accept, ClientOp::Get { key });
        let ghost s1 = *self;
        let ghost req = ClientReq { op, ticket };
        proof {
            s1.lemma_extends(*old(self), 0);
            if idle {
                assert(s1.shared.ingress@[a]@ =~= seq![req]);
                assert forall|i: int| 0 <= i < n && i != a implies #[trigger] s1.at_rest(i) by {
                    assert(old(self).at_rest(i));
                    assert(s1.left_for(i) == old(self).left_for(i));
                }
            }
        }
        let moved = self.drain_at(accept);
        let ghost s2 = *self;
        proof {
            s2.extensions_compose(s1, *old(self));
            assert(s2.outcomes().dom().contains(ticket));
            s2.lemma_kept_on(s1, *old(self), a);
            if idle {
                s2.lemma_taken_up(s1, a, req, moved);
                assert forall|i: int| 0 <= i < n implies #[trigger] s2.log(i) == old(self).log(i) by {
                    if i != a {
                        assert(s2.workers@[i] == s1.workers@[i]);
                    }
                }
            }
        }
        if owner != accept {
            let ghost cmd = s2.workers@[a].owner().work().last();
            let ghost w = s2.workers@[a].waiters();
            let served = self.pump_at(owner);
            let ghost s3 = *self;
            proof {
                s3.extensions_compose(s2, *old(self));
                assert(s3.outcomes().dom().contains(ticket));
                s3.lemma_kept_on(s2, *old(self), o);
                if idle {
                    s3.lemma_served(s2, a, o, cmd, w);
                    assert(s3.workers@[a] == s2.workers@[a]);
                    assert(s3.log(o) == old(self).log(o).push(Entry { src: a, cmd }));
                    assert(s3.log(o).take(old(self).log(o).len() as int) =~= old(self).log(o));
                    assert(s3.read_through(*old(self), a, key@)) by {
                        assert forall|j: int| 0 <= j < n && j != o implies #[trigger] s3.log(j) == old(self).log(j) by {
                            assert(s3.workers@[j] == s2.workers@[j]);
                            assert(s2.log(j) == old(self).log(j));
                        }
                    }
                    assert forall|i: int| 0 <= i < n implies lanes::applied(#[trigger] s3.log(i)) == lanes::applied(
                        old(self).log(i),
                    ) by {
                        assert(s2.log(i) == old(self).log(i));
                        if i == o {
                            assert(s3.log(o).drop_last() =~= s2.log(o));
                        } else {
                            assert(s3.workers@[i] == s2.workers@[i]);
                        }
                    }
                }
            }
            let answered = self.pump_at(accept);
            proof {
                self.extensions_compose(s3, *old(self));
                assert(self.outcomes().dom().contains(ticket));
                self.lemma_kept_on(s3, *old(self), a);
                if idle {
                    self.lemma_answered(s3, a, o, cmd->token, val, ticket);
                    self.lemma_at_rest(a, o);
                    assert forall|j: int| 0 <= j < n implies #[trigger] self.log(j) == s3.log(j) by {
                        if j != a {
                            assert(self.workers@[j] == s3.workers@[j]);
                        }
                    }
                    assert(self.read_through(*old(self), a, key@)) by {
                        assert(self.log(o) == s3.log(o));
                        assert forall|j: int| 0 <= j < n && j != o implies #[trigger] self.log(j) == old(self).log(j) by {
                            assert(self.log(j) == s3.log(j));
                        }
                    }
                    assert forall|i: int| 0 <= i < n implies lanes::applied(#[trigger] self.log(i)) == lanes::applied(
                        old(self).log(i),
                    ) by {
                        assert(lanes::applied(s3.log(i)) == lanes::applied(old(self).log(i)));
                        if i != a {
                            assert(self.workers@[i] == s3.workers@[i]);
                        }
                    }
                }
            }
        } else {
            proof {
                if idle {
                    s2.lemma_at_rest(a, a);
                }
            }
        }
        let ghost s4 = *self;
        let r = self.finish(ticket);
        proof {
            self.extensions_compose(s4, *old(self));
            assert(self.asked() =~= old(self).asked());
            assert(self.outcomes().dom() =~= old(self).outcomes().dom());
            assert forall|t: usize| #[trigger]
                old(self).outcomes().contains_key(t) && old(self).outcomes()[t] is Some implies self.outcomes()[t] == old(
                self,
            ).outcomes()[t] by {
                assert(s4.outcomes()[t] == old(self).outcomes()[t]);
                assert(s4.outcomes().dom().contains(t));
            }
            let log = self.logs()(o);
            let since = s1.asked()[ticket].since;
            let p = choose|p: int|
                since[o] <= p <= log.len() && #[trigger] promises::read_at(log, p, key@, desk::bytes_of(r)) && (o != a
                    ==> lanes::got_at(log, p, a, key@));
            assert(promises::read_at(self.log(o), p, key@, desk::bytes_of(r)));
            if idle {
                self.lemma_idle_kept(s4);
                assert forall|j: int| 0 <= j < n implies #[trigger] self.log(j) == s4.log(j) by {}
                assert(self.read_through(*old(self), a, key@)) by {
                    assert(self.log(o) == s4.log(o));
                    assert forall|j: int| 0 <= j < n && (j != o || o == a) implies #[trigger] self.log(j) == old(
                        self,
                    ).log(j) by {
                        assert(self.log(j) == s4.log(j));
                        assert(s4.log(j) == old(self).log(j));
                    }
                }
                assert(s4.outcomes() =~= old(self).outcomes().insert(ticket, Some(val)));
                assert(self.outcomes() =~= old(self).outcomes());
                assert forall|i: int| 0 <= i < n implies lanes::applied(#[trigger] s4.log(i)) == lanes::applied(
                    old(self).log(i),
                ) by {}
                assert forall|k: Seq<u8>| #[trigger] s4.contents().contains_key(k) <==> old(
                    self,
                ).contents().contains_key(k) by {
                    let i = shard::shard_of(k, n);
                    vstd::arithmetic::div_mod::lemma_mod_bound(shard::fnv(k) as int, n);
                    assert(lanes::applied(s4.log(i)) == lanes::applied(old(self).log(i)));
                }
                assert forall|k: Seq<u8>| #[trigger] s4.contents().contains_key(k) implies s4.contents()[k] == old(
                    self,
                ).contents()[k] by {
                    let i = shard::shard_of(k, n);
                    vstd::arithmetic::div_mod::lemma_mod_bound(shard::fnv(k) as int, n);
                    assert(lanes::applied(s4.log(i)) == lanes::applied(old(self).log(i)));
                }
                assert(s4.contents() =~= old(self).contents());
            }
        }
        r
    }

    /// The outcomes of `first` that were there are kept by a step of worker `id`.
    proof fn lemma_kept_on(&self, mid: MeshService, first: MeshService, id: int)
        requires
            mid.wf(),
            first.wf(),
            forall|t: usize| #[trigger]
                first.outcomes().contains_key(t) && first.outcomes()[t] is Some ==> mid.outcomes().contains_key(t)
                    && mid.outcomes()[t] == first.outcomes()[t],
            forall|t: usize| #[trigger] mid.asked().contains_key(t) ==> self.answered_rightly(mid, id, t),
            self.outcomes().dom() == mid.outcomes().dom(),
        ensures
            forall|t: usize| #[trigger]
                first.outcomes().contains_key(t) && first.outcomes()[t] is Some ==> self.outcomes().contains_key(t)
                    && self.outcomes()[t] == first.outcomes()[t],
    {
        assert forall|t: usize| #[trigger]
            first.outcomes().contains_key(t) && first.outcomes()[t] is Some implies self.outcomes().contains_key(t)
            && self.outcomes()[t] == first.outcomes()[t] by {
            assert(mid.outcomes().contains_key(t));
            assert(mid.asked().dom().contains(t));
            assert(mid.asked().contains_key(t));
            assert(self.answered_rightly(mid, id, t));
            assert(self.outcomes().dom().contains(t));
        }
    }

    /// Since `before` a write of these bytes was carried out by the owner of the key.
    pub open spec fn has_written(&self, before: MeshService, key: Seq<u8>, val: Seq<u8>) -> bool {
        let o = shard::shard_of(key, before.n());
        exists|p: int| before.log(o).len() <= p < self.log(o).len() && #[trigger] promises::stands_at(self.log(o), p, key, val)
    }

    /// `v` is what the key had at some time since `before`. Where worker `at` does not own the
    /// key, it is what the owner found when it served the read for that worker.
    pub open spec fn has_read(&self, before: MeshService, at: int, key: Seq<u8>, v: Option<Seq<u8>>) -> bool {
        let o = shard::shard_of(key, before.n());
        exists|p: int|
            before.log(o).len() <= p <= self.log(o).len() && #[trigger] promises::read_at(self.log(o), p, key, v) && (o
                != at ==> lanes::got_at(self.log(o), p, at, key))
    }

    /// All that the logs have more than in `before` is a read of `key` that worker `at` sent to
    /// the owner of the key. A worker that owns the key itself reads without an entry.
    pub open spec fn read_through(&self, before: MeshService, at: int, key: Seq<u8>) -> bool {
        let o = shard::shard_of(key, before.n());
        let m = before.log(o).len() as int;
        &&& forall|j: int| 0 <= j < before.n() && (j != o || o == at) ==> #[trigger] self.log(j) == before.log(j)
        &&& o != at ==> {
            &&& self.log(o).len() == m + 1
            &&& self.log(o).take(m) == before.log(o)
            &&& lanes::got_at(self.log(o), m, at, key)
        }
    }
}

impl MeshService {
    spec fn burden_of(&self) -> spec_fn(int) -> int {
        |i: int|
            self.workers@[i].owner().held() + 5 * (self.workers@[i].pending().len() + self.shared.ingress@[i]@.len())
    }

    /// What is left to do: the requests, the commands and the replies, each weighed so that a
    /// step that moves something makes it less.
    pub closed spec fn burden(&self) -> int {
        self.matrix.load(self.n()) + sums::sum(self.burden_of(), self.n())
    }

    /// Worker `i` cannot take a step.
    pub closed spec fn stuck(&self, i: int) -> bool {
        let w = self.workers@[i];
        let n = self.n();
        &&& forall|j: int| 0 <= j < n ==> (#[trigger] self.matrix.reply(j, i))@.len() == 0
        &&& match w.owner().unsent() {
            Some((d, r)) => self.matrix.reply(i, d)@.len() == lanes::LANE_CAP,
            None => forall|j: int| 0 <= j < n ==> (#[trigger] self.matrix.cmd(j, i))@.len() == 0,
        }
        &&& match w.owner().stalled() {
            Some((d, c)) => self.matrix.cmd(i, d)@.len() >= lanes::LANE_CAP,
            None => w.token_busy() || (w.pending().len() == 0 && self.shared.ingress@[i]@.len() == 0),
        }
    }

    /// An outcome that was there in `before` is there and is the same.
    pub open spec fn keeps_outcomes(&self, before: MeshService) -> bool {
        forall|t: usize| #[trigger]
            before.outcomes().contains_key(t) && before.outcomes()[t] is Some ==> self.outcomes()[t]
                == before.outcomes()[t]
    }

    /// From `self` to `next` worker `id` took a step, with `mid` between its two halves: it
    /// served what waited for it, then took up the requests that were left for it. The other
    /// workers did nothing.
    pub open spec fn stepped(&self, mid: MeshService, next: MeshService, id: int, served: bool, taken: bool) -> bool {
        let n = self.n();
        let w = self.worker(id);
        &&& w.pumped(self.queues(), self.completions(), mid.worker(id), mid.queues(), mid.completions())
        &&& served == (mid.queues().load(n) + mid.worker(id).owner().held() < self.queues().load(n) + w.owner().held())
        &&& mid.left_for(id) == self.left_for(id)
        &&& mid.worker(id).pending() == w.pending()
        &&& mid.worker(id).drained(
            mid.queues(),
            mid.left_for(id),
            mid.completions(),
            next.worker(id),
            next.queues(),
            next.left_for(id),
            next.completions(),
            taken,
        )
        &&& self.queues().step_of(next.queues(), id, n)
        &&& forall|i: int| 0 <= i < n && i != id ==> #[trigger] next.worker(i) == self.worker(i)
        &&& forall|i: int| 0 <= i < n && i != id ==> #[trigger] next.left_for(i) == self.left_for(i)
    }

    /// Lets worker `id` serve what waits for it and take up the requests that were left for it.
    /// Returns whether anything moved.
    #[verifier::rlimit(60)]
    #[verifier::spinoff_prover]
    pub fn step(&mut self, id: usize) -> (moved: bool)
        requires
            old(self).wf(),
            id < old(self).n(),
        ensures
            final(self).wf(),
            final(self).n() == old(self).n(),
            final(self).turn() == old(self).turn(),
            final(self).stopping() == old(self).stopping(),
            final(self).asked() == old(self).asked(),
            final(self).outcomes().dom() == old(self).outcomes().dom(),
            final(self).keeps_outcomes(*old(self)),
            exists|mid: MeshService, served: bool, taken: bool|
                moved == (served || taken) && #[trigger] old(self).stepped(mid, *final(self), id as int, served, taken),
            final(self).extends(*old(self)),
            final(self).burden() <= old(self).burden(),
            moved ==> final(self).burden() < old(self).burden(),
            !moved ==> forall|i: int|
                0 <= i < old(self).n() && (i == id || old(self).stuck(i)) ==> #[trigger] final(self).stuck(i),
    {
        let ghost n = self.n();
        let ghost k = id as int;
        let ghost s0 = *self;
        let served = self.pump_at(id);
        let ghost s1 = *self;
        let taken = self.drain_at(id);
        proof {
            lanes::steps_compose(s0.matrix, s1.matrix, self.matrix, k, n);
            assert(s0.stepped(s1, *self, k, served, taken)) by {
                if !served {
                    s0.matrix.load_changes_at(s1.matrix, k, k, n);
                }
                assert forall|i: int| 0 <= i < n && i != k implies #[trigger] self.worker(i) == s0.worker(i) by {
                    assert(s1.workers@[i] == s0.workers@[i]);
                }
                assert forall|i: int| 0 <= i < n && i != k implies #[trigger] self.left_for(i) == s0.left_for(i) by {
                    assert(self.shared.ingress@[i] == s1.shared.ingress@[i]);
                }
            }
            self.extensions_compose(s1, s0);
            assert forall|t: usize| #[trigger] s0.outcomes().contains_key(t) && s0.outcomes()[t] is Some implies self.outcomes()[t]
                == s0.outcomes()[t] by {
                assert(s0.asked().dom().contains(t));
                assert(s1.asked().contains_key(t));
                assert(s1.answered_rightly(s0, k, t));
                assert(self.answered_rightly(s1, k, t));
            }
            assert(s0.worker_ok(k));
            assert(s1.worker_ok(k));
            assert forall|i: int| 0 <= i < n && i != k implies #[trigger] s0.burden_of()(i) == s1.burden_of()(i) by {
                assert(s1.workers@[i] == s0.workers@[i]);
            }
            sums::sum_changes_by(s0.burden_of(), s1.burden_of(), k, n);
            assert forall|i: int| 0 <= i < n && i != k implies #[trigger] s1.burden_of()(i) == self.burden_of()(i) by {
                assert(self.workers@[i] == s1.workers@[i]);
                assert(self.shared.ingress@[i] == s1.shared.ingress@[i]);
            }
            sums::sum_changes_by(s1.burden_of(), self.burden_of(), k, n);
            if !served && !taken {
                assert forall|i: int, j: int| 0 <= i < n && 0 <= j < n implies #[trigger] self.matrix.cmd(i, j)
                    == s0.matrix.cmd(i, j) by {
                    assert(s1.matrix.cmd(i, j) == s0.matrix.cmd(i, j));
                }
                assert forall|i: int, j: int| 0 <= i < n && 0 <= j < n implies #[trigger] self.matrix.reply(i, j)
                    == s0.matrix.reply(i, j) by {
                    assert(s1.matrix.reply(i, j) == s0.matrix.reply(i, j));
                }
                assert forall|i: int| 0 <= i < n && (i == k || s0.stuck(i)) implies #[trigger] self.stuck(i) by {
                    assert(s0.worker_ok(i));
                    s0.workers@[i].owner().lemma_wf(s0.matrix);
                    s1.workers@[k].owner().lemma_wf(s1.matrix);
                    if i != k {
                        assert(s1.workers@[i] == s0.workers@[i]);
                        assert(self.workers@[i] == s1.workers@[i]);
                        assert(self.shared.ingress@[i] == s1.shared.ingress@[i]);
                        assert forall|j: int| 0 <= j < n implies (#[trigger] self.matrix.reply(j, i))@.len() == 0 by {
                            assert(s0.matrix.reply(j, i)@.len() == 0);
                        }
                        if self.workers@[i].owner().unsent() is None {
                            assert forall|j: int| 0 <= j < n implies (#[trigger] self.matrix.cmd(j, i))@.len() == 0 by {
                                assert(s0.matrix.cmd(j, i)@.len() == 0);
                            }
                        }
                    } else {
                        assert forall|j: int| 0 <= j < n implies (#[trigger] self.matrix.reply(j, k))@.len() == 0 by {
                            assert(s1.matrix.reply(j, k)@.len() == 0);
                        }
                        if self.workers@[k].owner().unsent() is None {
                            assert forall|j: int| 0 <= j < n implies (#[trigger] self.matrix.cmd(j, k))@.len() == 0 by {
                                assert(s1.matrix.cmd(j, k)@.len() == 0);
                            }
                        }
                    }
                }
            }
        }
        served || taken
    }

    /// The workers cannot hold each other up: where none can take a step, no request is under
    /// way, and every request has its outcome.
    proof fn lemma_no_deadlock(&self)
        requires
            self.wf(),
            forall|i: int| 0 <= i < self.n() ==> #[trigger] self.stuck(i),
        ensures
            self.idle(),
    {
        let n = self.n();
        let m = self.matrix;
        assert forall|i: int, j: int| 0 <= i < n && 0 <= j < n implies (#[trigger] m.reply(i, j))@.len() == 0 by {
            assert(self.stuck(j));
        }
        assert forall|i: int| 0 <= i < n implies (#[trigger] self.workers@[i]).owner().unsent() is None by {
            assert(self.worker_ok(i));
            self.workers@[i].owner().lemma_wf(m);
            assert(self.stuck(i));
            if self.workers@[i].owner().unsent() is Some {
                let d = (self.workers@[i].owner().unsent()->0).0;
                assert(m.reply(i, d)@.len() == 0);
            }
        }
        assert forall|i: int, j: int| 0 <= i < n && 0 <= j < n implies (#[trigger] m.cmd(i, j))@.len() == 0 by {
            assert(self.stuck(j));
            assert(self.workers@[j].owner().unsent() is None);
        }
        assert forall|i: int| 0 <= i < n implies #[trigger] self.at_rest(i) by {
            let w = self.workers@[i];
            assert(self.worker_ok(i));
            w.owner().lemma_wf(m);
            assert(self.stuck(i));
            if w.owner().stalled() is Some {
                let d = (w.owner().stalled()->0).0;
                assert(m.cmd(i, d)@.len() == 0);
            }
            self.lemma_in_step(i);
            let work = w.owner().work();
            let taken = lanes::taken_by(m, i);
            assert forall|j: int, p: int| !#[trigger] desk::owed(work, taken, i, n, j, p) by {
                if 0 <= j < n && j != i {
                    let o = self.workers@[j].owner();
                    assert(self.worker_ok(j));
                    assert(self.workers@[j].owner().unsent() is None);
                    m.lemma_wf(n, j, i);
                    m.reply(j, i).fifo();
                    assert(m.reply(j, i)@.len() == 0);
                    assert(m.cmd(i, j)@.len() == 0);
                    lanes::tokens_are_in_flight(w.owner(), o, m);
                }
            }
            assert(w.waiters() =~= Map::<u64, usize>::empty());
        }
    }

    /// Every outcome is right, in whichever order the workers took their steps: of a read the
    /// value that the key had at some time since the request was left, of a write that it was
    /// sent since, and carried out since where the request was left at the owner of the key.
    pub proof fn outcomes_are_right(&self, ticket: usize)
        requires
            self.wf(),
            self.outcomes().contains_key(ticket),
        ensures
            self.asked().contains_key(ticket),
            self.noted(ticket),
            self.truthful(ticket),
    {
        assert(self.asked().dom().contains(ticket));
    }

    /// In a service at rest every request has its outcome.
    pub proof fn rest_is_complete(&self)
        requires
            self.wf(),
            self.idle(),
        ensures
            forall|ticket: usize| #[trigger] self.outcomes().contains_key(ticket) ==> self.outcomes()[ticket] is Some,
    {
        assert forall|ticket: usize| #[trigger] self.outcomes().contains_key(ticket) implies self.outcomes()[ticket] is Some by {
            if desk::open_ticket(self.outcomes(), ticket) {
                let i = choose|i: int|
                    0 <= i < self.n() && (#[trigger] self.workers@[i]).minds(self.shared.ingress@[i]@, ticket);
                assert(self.at_rest(i));
            }
        }
    }

    /// In a service at rest every command that a worker sent was carried out by the owner of
    /// its key, in the order in which it was sent.
    pub proof fn rest_is_carried_out(&self, i: int, j: int)
        requires
            self.wf(),
            self.idle(),
            0 <= i < self.n(),
            0 <= j < self.n(),
        ensures
            lanes::of_source(self.log(j), i) == lanes::routed(self.worker(i).owner().work(), j, self.n()),
    {
        let n = self.n();
        let w = self.workers@[i].owner();
        let o = self.workers@[j].owner();
        assert(self.worker_ok(i));
        assert(self.worker_ok(j));
        w.lemma_wf(self.matrix);
        o.lemma_wf(self.matrix);
        if i != j {
            assert(self.at_rest(i));
            assert(w.row_ok(self.matrix, j));
            assert(o.col_ok(self.matrix, i));
            let ring = self.matrix.cmd(i, j);
            self.matrix.lemma_wf(n, i, j);
            ring.fifo();
            assert(ring@.len() == 0);
            assert(ring.popped() =~= ring.pushed());
            assert(ring.pushed() + w.stalled_to(j) =~= ring.pushed());
        }
    }

    /// Lets the workers take steps in turn until no request is under way. They come to that end
    /// from every state, and every request that was left then has its outcome.
    pub fn drain(&mut self)
        requires
            old(self).wf(),
        ensures
            final(self).wf(),
            final(self).idle(),
            final(self).n() == old(self).n(),
            final(self).turn() == old(self).turn(),
            final(self).stopping() == old(self).stopping(),
            final(self).asked() == old(self).asked(),
            final(self).outcomes().dom() == old(self).outcomes().dom(),
            final(self).keeps_outcomes(*old(self)),
            forall|ticket: usize| #[trigger]
                final(self).outcomes().contains_key(ticket) ==> final(self).outcomes()[ticket] is Some,
            final(self).extends(*old(self)),
    {
        let mut moved = true;
        proof {
            self.lemma_extends(*old(self), 0);
        }
        while moved
            invariant
                self.wf(),
                self.n() == old(self).n(),
                self.turn() == old(self).turn(),
                self.stopping() == old(self).stopping(),
                self.asked() == old(self).asked(),
                self.outcomes().dom() == old(self).outcomes().dom(),
                self.keeps_outcomes(*old(self)),
                self.extends(*old(self)),
                !moved ==> self.idle(),
            decreases self.burden() + (if moved {
                1int
            } else {
                0
            }),
        {
            let ghost start = self.burden();
            moved = false;
            let mut id: usize = 0;
            while id < self.workers.len()
                invariant
                    self.wf(),
                    id <= self.n(),
                    self.n() == old(self).n(),
                    self.n() == self.workers@.len(),
                    self.turn() == old(self).turn(),
                    self.stopping() == old(self).stopping(),
                    self.asked() == old(self).asked(),
                    self.outcomes().dom() == old(self).outcomes().dom(),
                    self.keeps_outcomes(*old(self)),
                    self.extends(*old(self)),
                    self.burden() <= start,
                    moved ==> self.burden() < start,
                    !moved ==> forall|i: int| 0 <= i < id ==> #[trigger] self.stuck(i),
                decreases self.n() - id,
            {
                let ghost before = *self;
                if self.step(id) {
                    moved = true;
                }
                proof {
                    assert forall|t: usize| #[trigger]
                        old(self).outcomes().contains_key(t) && old(self).outcomes()[t] is Some implies self.outcomes()[t]
                        == old(self).outcomes()[t] by {
                        assert(before.outcomes().dom().contains(t));
                        assert(before.outcomes().contains_key(t));
                    }
                    self.extensions_compose(before, *old(self));
                }
                id += 1;
            }
            proof {
                if !moved {
                    self.lemma_no_deadlock();
                }
                self.matrix.load_is_nonnegative(self.n());
                let zero = |i: int| 0int;
                assert forall|i: int| 0 <= i < self.n() implies #[trigger] zero(i) <= self.burden_of()(i) by {}
                sums::sum_is_monotone(zero, self.burden_of(), self.n());
                assert forall|i: int| 0 <= i < self.n() implies 0 <= #[trigger] zero(i) <= 0 by {}
                sums::sum_is_bounded(zero, 0, self.n());
                assert(self.n() * 0 == 0);
            }
        }
        proof {
            self.rest_is_complete();
        }
    }

    /// Stops the service: serves what is under way and ends. What is left of the service is at
    /// rest, and the outcome of every request that was left can be taken from it.
    pub fn shutdown(self) -> (r: Self)
        requires
            self.wf(),
        ensures
            r.wf(),
            r.idle(),
            r.stopping(),
            r.n() == self.n(),
            r.turn() == self.turn(),
            r.asked() == self.asked(),
            r.outcomes().dom() == self.outcomes().dom(),
            r.keeps_outcomes(self),
            forall|ticket: usize| #[trigger] r.outcomes().contains_key(ticket) ==> r.outcomes()[ticket] is Some,
            r.extends(self),
    {
        let mut svc = self;
        svc.stop();
        let ghost told = svc;
        svc.drain();
        proof {
            told.lemma_extends(self, 0);
            svc.extensions_compose(told, self);
        }
        svc
    }
}

/// A client's access to the service.
#[derive(Clone, Copy)]
pub struct ServiceHandle {
    n: usize,
    mask: u64,
}

impl ServiceHandle {
    /// The handle belongs to `svc`.
    pub closed spec fn of(&self, svc: MeshService) -> bool {
        &&& self.n == svc.n()
        &&& self.mask == svc.n() - 1
        &&& 1 <= svc.n() <= pow2::max_pow2()
        &&& pow2::is_pow2(svc.n())
    }

    /// A handle stays good for a service of the same number of shards.
    pub proof fn stays(&self, before: MeshService, after: MeshService)
        requires
            self.of(before),
            after.n() == before.n(),
        ensures
            self.of(after),
    {
    }

    /// The worker that owns `key`.
    fn owner(&self, svc: &MeshService, key: &[u8]) -> (r: usize)
        requires
            self.of(*svc),
        ensures
            r == shard::shard_of(key@, svc.n()),
            r < svc.n(),
    {
        route(key, self.mask)
    }

    /// Stores a value under a key. The request goes straight to the owner. When this returns,
    /// the owner has carried the write out. In a service with no other request under way that is
    /// all that changes.
    pub fn put(&self, svc: &mut MeshService, key: &[u8], val: &[u8])
        requires
            old(svc).wf(),
            self.of(*old(svc)),
        ensures
            final(svc).wf(),
            self.of(*final(svc)),
            final(svc).n() == old(svc).n(),
            final(svc).turn() == old(svc).turn(),
            final(svc).stopping() == old(svc).stopping(),
            final(svc).asked() == old(svc).asked(),
            final(svc).outcomes().dom() == old(svc).outcomes().dom(),
            final(svc).keeps_outcomes(*old(svc)),
            final(svc).extends(*old(svc)),
            final(svc).has_written(*old(svc), key@, val@),
            old(svc).idle() ==> {
                &&& final(svc).idle()
                &&& final(svc).outcomes() == old(svc).outcomes()
                &&& final(svc).contents() == old(svc).contents().insert(key@, val@)
            },
    {
        let owner: usize = self.owner(svc, key);
        svc.serve_put(owner, vstd::slice::slice_to_vec(key), vstd::slice::slice_to_vec(val));
    }

    /// Looks a key up. The request goes straight to the owner. What comes back is what the key
    /// had at some time during the call. In a service with no other request under way that is
    /// what the key has, and nothing changes.
    pub fn get(&self, svc: &mut MeshService, key: &[u8]) -> (r: Option<Vec<u8>>)
        requires
            old(svc).wf(),
            self.of(*old(svc)),
        ensures
            final(svc).wf(),
            self.of(*final(svc)),
            final(svc).n() == old(svc).n(),
            final(svc).turn() == old(svc).turn(),
            final(svc).stopping() == old(svc).stopping(),
            final(svc).asked() == old(svc).asked(),
            final(svc).outcomes().dom() == old(svc).outcomes().dom(),
            final(svc).keeps_outcomes(*old(svc)),
            final(svc).extends(*old(svc)),
            final(svc).has_read(*old(svc), shard::shard_of(key@, old(svc).n()), key@, desk::bytes_of(r)),
            old(svc).idle() ==> {
                &&& final(svc).idle()
                &&& final(svc).read_through(*old(svc), shard::shard_of(key@, old(svc).n()), key@)
                &&& final(svc).outcomes() == old(svc).outcomes()
                &&& final(svc).contents() == old(svc).contents()
                &&& desk::bytes_of(r) == lanes::lookup(old(svc).contents(), key@)
                &&& r is Some <==> old(svc).contents().contains_key(key@)
                &&& r is Some ==> r->0@ == old(svc).contents()[key@]
            },
    {
        let owner: usize = self.owner(svc, key);
        svc.serve_get(owner, owner, vstd::slice::slice_to_vec(key))
    }

    /// Looks a key up through the worker whose turn it is to accept a request. Where that is not
    /// the owner, the request is forwarded, the owner serves it for that worker, and the reply is
    /// handed on. What comes back is what [`ServiceHandle::get`] gives.
    pub fn get_round_robin(&self, svc: &mut MeshService, key: &[u8]) -> (r: Option<Vec<u8>>)
        requires
            old(svc).wf(),
            self.of(*old(svc)),
        ensures
            final(svc).wf(),
            self.of(*final(svc)),
            final(svc).n() == old(svc).n(),
            final(svc).turn() == old(svc).turn().wrapping_add(1),
            final(svc).stopping() == old(svc).stopping(),
            final(svc).asked() == old(svc).asked(),
            final(svc).outcomes().dom() == old(svc).outcomes().dom(),
            final(svc).keeps_outcomes(*old(svc)),
            final(svc).extends(*old(svc)),
            final(svc).has_read(*old(svc), old(svc).turn() as int % old(svc).n(), key@, desk::bytes_of(r)),
            old(svc).idle() ==> {
                &&& final(svc).idle()
                &&& final(svc).read_through(*old(svc), old(svc).turn() as int % old(svc).n(), key@)
                &&& final(svc).outcomes() == old(svc).outcomes()
                &&& final(svc).contents() == old(svc).contents()
                &&& desk::bytes_of(r) == lanes::lookup(old(svc).contents(), key@)
                &&& r is Some <==> old(svc).contents().contains_key(key@)
                &&& r is Some ==> r->0@ == old(svc).contents()[key@]
            },
    {
        let accept: usize = svc.next_accept();
        let ghost mid = *svc;
        let owner: usize = self.owner(svc, key);
        let r = svc.serve_get(accept, owner, vstd::slice::slice_to_vec(key));
        proof {
            mid.same_workers(*old(svc));
            mid.lemma_extends(*old(svc), 0);
            svc.extensions_compose(mid, *old(svc));
            let o = shard::shard_of(key@, mid.n());
            vstd::arithmetic::div_mod::lemma_mod_bound(shard::fnv(key@) as int, mid.n());
            assert forall|j: int| 0 <= j < mid.n() implies #[trigger] mid.log(j) == old(svc).log(j) by {
                assert(mid.worker(j) == old(svc).worker(j));
            }
            assert(mid.log(o) == old(svc).log(o));
            if old(svc).idle() {
                assert forall|j: int| 0 <= j < mid.n() && (j != o || o == accept) implies #[trigger] svc.log(j) == old(
                    svc,
                ).log(j) by {
                    assert(mid.log(j) == old(svc).log(j));
                }
            }
        }
        r
    }
}

/// A read that was left after the outcome of a write was there sees that write or a later one,
/// where the write was left at the owner of the key. It does not matter who left the requests,
/// at which worker the read was left, or in which order the workers took their steps.
pub proof fn acknowledged_writes_are_seen(before: MeshService, after: MeshService, w: usize, r: usize)
    requires
        before.wf(),
        after.wf(),
        after.n() == before.n(),
        forall|j: int| 0 <= j < before.n() ==> (#[trigger] before.log(j)).is_prefix_of(after.log(j)),
        before.outcomes().contains_key(w),
        before.outcomes()[w] is Some,
        before.asked()[w].op is Put,
        before.asked()[w].at == shard::shard_of(before.asked()[w].op->Put_key@, before.n()),
        after.outcomes().contains_key(r),
        after.outcomes()[r] is Some,
        after.asked()[r].op is Get,
        after.asked()[r].op->Get_key@ == before.asked()[w].op->Put_key@,
        forall|j: int| 0 <= j < before.n() ==> (#[trigger] before.log(j)).len() <= after.asked()[r].since[j],
    ensures
        ({
            let key = before.asked()[w].op->Put_key;
            let val = before.asked()[w].op->Put_val;
            let log = after.log(before.asked()[w].at);
            let v = after.outcomes()[r]->0;
            &&& v is Some
            &&& exists|q: int, m: int|
                0 <= q <= m < log.len() && #[trigger] promises::written_at(log, q, key, val) && (
                #[trigger] log[m]).cmd is Put && log[m].cmd->Put_key@ == key@ && log[m].cmd->Put_val@ == v->0
        }),
{
    let n = before.n();
    let key = before.asked()[w].op->Put_key;
    let val = before.asked()[w].op->Put_val;
    let o = before.asked()[w].at;
    before.outcomes_are_right(w);
    after.outcomes_are_right(r);
    let a = before.asked()[w];
    let b = after.asked()[r];
    let rkey = b.op->Get_key;
    let v = after.outcomes()[r]->0;
    let old_log = before.logs()(o);
    let log = after.logs()(o);
    assert(a.op == (ClientOp::Put { key, val }));
    let q = choose|q: int| a.since[o] <= q < old_log.len() && #[trigger] promises::written_at(old_log, q, key, val);
    assert(b.op == (ClientOp::Get { key: rkey }));
    let p = choose|p: int| b.since[o] <= p <= log.len() && #[trigger] promises::read_at(log, p, rkey@, v);
    assert(before.log(o).is_prefix_of(after.log(o)));
    assert(before.log(o).len() <= b.since[o]);
    assert(log[q] == old_log[q]);
    assert(promises::written_at(log, q, key, val));
    promises::reads_see_writes(log, q, p, key, val, v);
    let m = choose|m: int|
        q <= m < p && (#[trigger] log[m]).cmd is Put && log[m].cmd->Put_key@ == key@ && log[m].cmd->Put_val@ == v->0;
    assert(after.log(o)[m] == log[m]);
}

/// A read after a write of the same key finds what was written, at whichever worker it lands,
/// and a write of another key does not change it.
pub proof fn reads_see_writes(before: MeshService, after: MeshService, key: Seq<u8>, val: Seq<u8>, other: Seq<u8>)
    requires
        after.contents() == before.contents().insert(key, val),
    ensures
        lanes::lookup(after.contents(), key) == Some(val),
        other != key ==> lanes::lookup(after.contents(), other) == lanes::lookup(before.contents(), other),
{
}

/// The outcome of a read is what the key had at some place of its owner's log, no earlier than
/// when the request was left: the bytes of the last write before that place, or nothing where no
/// write of the key stands before it. This holds of every key and of every worker at which the
/// request was left.
pub proof fn reads_give_the_last_write(svc: MeshService, t: usize)
    requires
        svc.wf(),
        svc.outcomes().contains_key(t),
        svc.outcomes()[t] is Some,
        svc.asked()[t].op is Get,
    ensures
        ({
            let a = svc.asked()[t];
            let key = a.op->Get_key@;
            let o = shard::fnv(key) as int % svc.n();
            let log = svc.log(o);
            exists|p: int|
                a.since[o] <= p <= log.len() && #[trigger] gives_last_write(log, p, key, svc.outcomes()[t]->0) && (o != a.at
                    ==> p < log.len() && log[p].src == a.at && log[p].cmd is Get && log[p].cmd->Get_key@ == key)
        }),
{
    svc.outcomes_are_right(t);
    let a = svc.asked()[t];
    let key = a.op->Get_key;
    let v = svc.outcomes()[t]->0;
    let o = shard::shard_of(key@, svc.n());
    let log = svc.logs()(o);
    assert(a.op == (ClientOp::Get { key }));
    let p = choose|p: int|
        a.since[o] <= p <= log.len() && #[trigger] promises::read_at(log, p, key@, v) && (o != a.at ==> lanes::got_at(
            log,
            p,
            a.at,
            key@,
        ));
    lemma_last_write(log, p, key@, v);
    assert(gives_last_write(svc.log(o), p, key@, v));
}

/// `v` is the bytes of the last write of `key` among the first `p` entries of the log, or nothing
/// where none of them writes the key.
pub open spec fn gives_last_write(log: Seq<Entry>, p: int, key: Seq<u8>, v: Option<Seq<u8>>) -> bool {
    match v {
        Some(bytes) => exists|q: int|
            0 <= q < p && (#[trigger] log[q]).cmd is Put && log[q].cmd->Put_key@ == key && log[q].cmd->Put_val@ == bytes
                && forall|m: int| q < m < p ==> !((#[trigger] log[m]).cmd is Put && log[m].cmd->Put_key@ == key),
        None => forall|m: int| 0 <= m < p ==> !((#[trigger] log[m]).cmd is Put && log[m].cmd->Put_key@ == key),
    }
}

/// What it means that a read gives the last write.
pub proof fn last_writes_are_of_the_key(log: Seq<Entry>, p: int, key: Seq<u8>, v: Option<Seq<u8>>)
    requires
        gives_last_write(log, p, key, v),
        0 <= p <= log.len(),
    ensures
        v is None ==> forall|m: int| 0 <= m < p ==> !((#[trigger] log[m]).cmd is Put && log[m].cmd->Put_key@ == key),
        v is Some ==> exists|q: int|
            0 <= q < p && (#[trigger] log[q]).cmd is Put && log[q].cmd->Put_key@ == key && log[q].cmd->Put_val@ == v->0
                && forall|m: int| q < m < p ==> !((#[trigger] log[m]).cmd is Put && log[m].cmd->Put_key@ == key),
{
}

proof fn lemma_last_write(log: Seq<Entry>, p: int, key: Seq<u8>, v: Option<Seq<u8>>)
    requires
        0 <= p <= log.len(),
        promises::read_at(log, p, key, v),
    ensures
        gives_last_write(log, p, key, v),
{
    let front = log.take(p);
    lanes::shards_hold_the_last_writes(front, key);
    if v is Some {
        let q = choose|q: int|
            0 <= q < front.len() && (#[trigger] front[q]).cmd is Put && front[q].cmd->Put_key@ == key
                && front[q].cmd->Put_val@ == lanes::applied(front)[key] && forall|m: int|
                q < m < front.len() ==> !((#[trigger] front[m]).cmd is Put && front[m].cmd->Put_key@ == key);
        assert(log[q] == front[q]);
        assert forall|m: int| q < m < p implies !((#[trigger] log[m]).cmd is Put && log[m].cmd->Put_key@ == key) by {
            assert(front[m] == log[m]);
        }
    } else {
        assert forall|m: int| 0 <= m < p implies !((#[trigger] log[m]).cmd is Put && log[m].cmd->Put_key@ == key) by {
            assert(front[m] == log[m]);
        }
    }
}

/// A write whose outcome is there gave no value, was sent to the owner of its key since it was
/// left, and stands in the owner's log since then where it was left at the owner.
pub proof fn writes_are_sent_and_stand(svc: MeshService, t: usize)
    requires
        svc.wf(),
        svc.outcomes().contains_key(t),
        svc.outcomes()[t] is Some,
        svc.asked()[t].op is Put,
    ensures
        ({
            let a = svc.asked()[t];
            let key = a.op->Put_key;
            let val = a.op->Put_val;
            let o = shard::fnv(key@) as int % svc.n();
            &&& svc.outcomes()[t]->0 is None
            &&& exists|q: int|
                a.sent <= q < svc.work(a.at).len() && #[trigger] svc.work(a.at)[q] == (Command::Put { key, val })
            &&& o == a.at ==> exists|p: int|
                a.since[o] <= p < svc.log(o).len() && (#[trigger] svc.log(o)[p]).cmd == (Command::Put { key, val })
        }),
{
    svc.outcomes_are_right(t);
    let a = svc.asked()[t];
    let key = a.op->Put_key;
    let val = a.op->Put_val;
    let o = shard::shard_of(key@, svc.n());
    assert(a.op == (ClientOp::Put { key, val }));
    let q = choose|q: int| a.sent <= q < svc.work(a.at).len() && #[trigger] promises::sent_at(svc.work(a.at), q, key, val);
    assert(svc.work(a.at)[q] == (Command::Put { key, val }));
    if o == a.at {
        let log = svc.logs()(o);
        let p = choose|p: int| a.since[o] <= p < log.len() && #[trigger] promises::written_at(log, p, key, val);
        assert(svc.log(o)[p].cmd == (Command::Put { key, val }));
    }
}

/// In a service at rest every command that a worker sent stands in the log of the shard that its
/// key belongs to, those of one worker in order.
pub proof fn rest_holds_every_command(svc: MeshService, i: int, j: int)
    requires
        svc.wf(),
        svc.idle(),
        0 <= i < svc.n(),
        0 <= j < svc.n(),
    ensures
        svc.log(j).filter(|e: Entry| e.src == i).map_values(|e: Entry| e.cmd) == svc.work(i).filter(
            |c: Command| shard::shard_of(c.about(), svc.n()) == j,
        ),
{
    svc.rest_is_carried_out(i, j);
    lanes::commands_of_a_source(svc.log(j), i);
    lanes::commands_for_a_shard(svc.work(i), j, svc.n());
}

/// What the shards hold together under a key is what the last write of the key in the log of its
/// shard wrote.
pub proof fn contents_are_the_last_writes(svc: MeshService, key: Seq<u8>)
    ensures
        ({
            let log = svc.log(shard::fnv(key) as int % svc.n());
            &&& svc.contents().contains_key(key) <==> exists|p: int|
                0 <= p < log.len() && (#[trigger] log[p]).cmd is Put && log[p].cmd->Put_key@ == key
            &&& svc.contents().contains_key(key) ==> exists|p: int|
                0 <= p < log.len() && (#[trigger] log[p]).cmd is Put && log[p].cmd->Put_key@ == key
                    && log[p].cmd->Put_val@ == svc.contents()[key] && forall|q: int|
                    p < q < log.len() ==> !((#[trigger] log[q]).cmd is Put && log[q].cmd->Put_key@ == key)
        }),
{
    lanes::shards_hold_the_last_writes(svc.log(shard::shard_of(key, svc.n())), key);
}

/// What a client is told of a call of its handle: a write of its bytes stands in the log of the
/// key's shard since the call began; a read gave the last write before some place that the log
/// came to during the call, where the owner served it for the worker that accepted it.
pub proof fn calls_take_effect(
    before: MeshService,
    after: MeshService,
    at: int,
    key: Seq<u8>,
    val: Seq<u8>,
    v: Option<Seq<u8>>,
)
    ensures
        ({
            let o = shard::fnv(key) as int % before.n();
            let log = after.log(o);
            &&& after.has_written(before, key, val) ==> exists|p: int|
                before.log(o).len() <= p < log.len() && (#[trigger] log[p]).cmd is Put && log[p].cmd->Put_key@ == key
                    && log[p].cmd->Put_val@ == val
            &&& after.has_read(before, at, key, v) ==> exists|p: int|
                before.log(o).len() <= p <= log.len() && #[trigger] gives_last_write(log, p, key, v) && (o != at ==> p
                    < log.len() && log[p].src == at && log[p].cmd is Get && log[p].cmd->Get_key@ == key)
        }),
{
    let o = shard::shard_of(key, before.n());
    let log = after.log(o);
    if after.has_written(before, key, val) {
        let p = choose|p: int|
            before.log(o).len() <= p < after.log(o).len() && #[trigger] promises::stands_at(after.log(o), p, key, val);
        assert(log[p].cmd is Put);
    }
    if after.has_read(before, at, key, v) {
        let p = choose|p: int|
            before.log(o).len() <= p <= after.log(o).len() && #[trigger] promises::read_at(after.log(o), p, key, v) && (o
                != at ==> lanes::got_at(after.log(o), p, at, key));
        lemma_last_write(log, p, key, v);
        assert(gives_last_write(log, p, key, v));
    }
}

/// A read through a worker that does not own the key leaves one entry behind, at the owner and
/// under that worker's number; a read at the owner leaves none.
pub proof fn forwarded_reads_leave_an_entry(before: MeshService, after: MeshService, at: int, key: Seq<u8>, j: int)
    requires
        after.read_through(before, at, key),
        0 <= j < before.n(),
    ensures
        ({
            let o = shard::fnv(key) as int % before.n();
            &&& j != o || o == at ==> after.log(j) == before.log(j)
            &&& j == o && o != at ==> {
                &&& after.log(j).len() == before.log(j).len() + 1
                &&& after.log(j).drop_last() == before.log(j)
                &&& after.log(j).last().src == at
                &&& after.log(j).last().cmd is Get
                &&& after.log(j).last().cmd->Get_key@ == key
            }
        }),
{
    let o = shard::shard_of(key, before.n());
    if j == o && o != at {
        assert(after.log(j).drop_last() =~= after.log(j).take(before.log(j).len() as int));
    }
}

/// Logs and work only grow, and outcomes that are there stay as they are.
pub proof fn nothing_is_taken_back(before: MeshService, after: MeshService, j: int, t: usize)
    requires
        after.extends(before),
        after.keeps_outcomes(before),
        0 <= j < before.n(),
    ensures
        before.log(j).len() <= after.log(j).len(),
        after.log(j).take(before.log(j).len() as int) == before.log(j),
        before.outcomes().contains_key(t) && before.outcomes()[t] is Some ==> after.outcomes()[t] == before.outcomes()[t],
{
    assert(before.log(j).is_prefix_of(after.log(j)));
    assert(after.log(j).take(before.log(j).len() as int) =~= before.log(j));
}

/// The bytes of a value are the bytes, and the outcome of a ticket is that of its completion.
pub proof fn outcomes_are_of_completions(svc: MeshService, t: usize, v: Option<Vec<u8>>)
    ensures
        desk::bytes_of(v) is Some <==> v is Some,
        v is Some ==> desk::bytes_of(v)->0 == (v->0)@,
        svc.outcomes().contains_key(t) <==> svc.completions().contains_key(t),
{
}

} // verus!
