//! What the service owes to its clients.
//!
//! A client that leaves a request gets a ticket. Until the outcome is there, the request is at
//! exactly one place of one worker. The outcome of a read is the value that the key had at some
//! time after the request was left, and a write is carried out, or is on its way to the owner of
//! the key, when its outcome is there.

use vstd::prelude::*;
use crate::desk;
use crate::desk::{ClientOp, ClientReq, Completed, Desk};
use crate::lanes;
use crate::lanes::{Command, Entry, Reply};
use crate::shard;

verus! {

/// A request as it was left: what it asks for, the worker where it was left, how long the log of
/// each shard was, and how many commands the worker had sent.
pub struct Asked {
    pub op: ClientOp,
    pub at: int,
    pub since: Seq<nat>,
    pub sent: nat,
}

/// The requests that wait for replies and those that were not taken up have different tickets,
/// and none of them has its outcome.
pub open spec fn tidy(w: Map<u64, usize>, q: Seq<ClientReq>, t: Map<usize, Completed>) -> bool {
    &&& forall|a: int, b: int| 0 <= a < b < q.len() ==> (#[trigger] q[a]).ticket != (#[trigger] q[b]).ticket
    &&& forall|x: u64, y: u64| #[trigger]
        w.contains_key(x) && #[trigger] w.contains_key(y) && w[x] == w[y] ==> x == y
    &&& forall|x: u64, a: int| #[trigger]
        w.contains_key(x) && 0 <= a < q.len() ==> w[x] != (#[trigger] q[a]).ticket
    &&& forall|a: int| 0 <= a < q.len() ==> desk::open_ticket(t, (#[trigger] q[a]).ticket)
    &&& forall|x: u64| #[trigger] w.contains_key(x) ==> desk::open_ticket(t, w[x])
}

/// The requests that were not taken up are those that were left at worker `id`.
pub open spec fn queued(q: Seq<ClientReq>, asked: Map<usize, Asked>, id: int) -> bool {
    forall|a: int|
        0 <= a < q.len() ==> asked.contains_key((#[trigger] q[a]).ticket) && asked[q[a].ticket].at == id
            && asked[q[a].ticket].op == q[a].op
}

/// The keys of the reads that a worker with this work sent to worker `j`, in order.
pub open spec fn sent_keys(work: Seq<Command>, j: int, n: int) -> Seq<Seq<u8>> {
    lanes::get_keys(lanes::routed(work, j, n))
}

/// The request of `ticket` is a read of `key`, which belongs to shard `j`, and was left at worker
/// `id`.
pub open spec fn reads(asked: Map<usize, Asked>, ticket: usize, id: int, key: Seq<u8>, j: int, n: int) -> bool {
    &&& asked.contains_key(ticket)
    &&& asked[ticket].at == id
    &&& asked[ticket].op is Get
    &&& asked[ticket].op->Get_key@ == key
    &&& shard::shard_of(key, n) == j
}

/// A request that waits for a reply is the read that was sent under its token, and it was carried
/// out, if at all, after it was left.
pub open spec fn forwarded(
    work: Seq<Command>,
    w: Map<u64, usize>,
    asked: Map<usize, Asked>,
    logs: spec_fn(int) -> Seq<Entry>,
    taken: spec_fn(int) -> int,
    id: int,
    n: int,
) -> bool {
    forall|j: int, p: int| #[trigger]
        desk::owed(work, taken, id, n, j, p) ==> {
            let ticket = w[desk::sent_tokens(work, j, n)[p]];
            &&& reads(asked, ticket, id, sent_keys(work, j, n)[p], j, n)
            &&& p < lanes::get_places(logs(j), id).len() ==> asked[ticket].since[j] <= lanes::get_places(logs(j), id)[p]
        }
}

/// The other workers carried out no more reads than were sent to them.
pub open spec fn not_ahead(work: Seq<Command>, logs: spec_fn(int) -> Seq<Entry>, id: int, n: int) -> bool {
    forall|j: int|
        0 <= j < n && j != id ==> lanes::get_places(#[trigger] logs(j), id).len() <= desk::sent_tokens(work, j, n).len()
}

/// What is true of a worker's desk and the requests that it has not taken up.
pub open spec fn in_order(
    d: Desk,
    q: Seq<ClientReq>,
    asked: Map<usize, Asked>,
    logs: spec_fn(int) -> Seq<Entry>,
    taken: spec_fn(int) -> int,
    id: int,
    n: int,
) -> bool {
    &&& desk::waits(d.work, d.waiters, taken, id, n)
    &&& tidy(d.waiters, q, d.table)
    &&& queued(q, asked, id)
    &&& forwarded(d.work, d.waiters, asked, logs, taken, id, n)
    &&& not_ahead(d.work, logs, id, n)
}

/// Taking up a request keeps a desk in order, and gives an outcome to no other request.
#[verifier::rlimit(40)]
#[verifier::spinoff_prover]
proof fn lemma_take_up(
    d: Desk,
    q: Seq<ClientReq>,
    asked: Map<usize, Asked>,
    logs: spec_fn(int) -> Seq<Entry>,
    taken: spec_fn(int) -> int,
    id: int,
    n: int,
)
    requires
        in_order(d, q, asked, logs, taken, id, n),
        n > 0,
        q.len() > 0,
        !d.waiters.contains_key(desk::token_of(id as u64, d.next)),
    ensures
        ({
            let d2 = desk::take_up(d, q[0], id, n);
            &&& in_order(d2, q.skip(1), asked, logs, taken, id, n)
            &&& d2.table.dom() == d.table.dom()
            &&& forall|ticket: usize|
                ticket != q[0].ticket && #[trigger] d.table.contains_key(ticket) ==> d2.table[ticket] == d.table[ticket]
        }),
{
    let req = q[0];
    let rest = q.skip(1);
    let d2 = desk::take_up(d, req, id, n);
    let token = desk::token_of(id as u64, d.next);
    assert(d2.table.dom() =~= d.table.dom());
    assert(seq![req].drop_last() =~= Seq::<ClientReq>::empty());
    assert(desk::taken_up(d, seq![req], id, n) == d2) by {
        reveal_with_fuel(desk::taken_up, 2);
    }
    assert forall|p: int| 0 <= p < seq![req].len() implies !#[trigger] desk::busy_at(d, seq![req], p, id, n) by {
        assert(seq![req].take(p) =~= Seq::<ClientReq>::empty());
    }
    desk::taking_up_keeps_waits(d, seq![req], taken, id, n);
    assert forall|a: int| 0 <= a < rest.len() implies #[trigger] rest[a] == q[a + 1] by {}
    assert forall|ticket: usize| ticket != req.ticket && #[trigger] d.table.contains_key(ticket) implies d2.table[ticket]
        == d.table[ticket] by {}
    assert(desk::open_ticket(d.table, req.ticket));
    assert(tidy(d2.waiters, rest, d2.table)) by {
        assert forall|a: int| 0 <= a < rest.len() implies desk::open_ticket(d2.table, (#[trigger] rest[a]).ticket) by {
            assert(rest[a] == q[a + 1]);
            assert(q[0].ticket != q[a + 1].ticket);
        }
        assert forall|x: u64| #[trigger] d2.waiters.contains_key(x) implies desk::open_ticket(d2.table, d2.waiters[x]) by {
            if d.waiters.contains_key(x) {
                assert(d.waiters[x] != q[0].ticket);
            }
        }
        assert forall|x: u64, y: u64| #[trigger]
            d2.waiters.contains_key(x) && #[trigger] d2.waiters.contains_key(y) && d2.waiters[x] == d2.waiters[y] implies x
            == y by {
            if d.waiters.contains_key(x) {
                assert(d.waiters[x] != q[0].ticket);
            }
            if d.waiters.contains_key(y) {
                assert(d.waiters[y] != q[0].ticket);
            }
        }
        assert forall|x: u64, a: int| #[trigger] d2.waiters.contains_key(x) && 0 <= a < rest.len() implies d2.waiters[x]
            != (#[trigger] rest[a]).ticket by {
            assert(rest[a] == q[a + 1]);
            assert(q[0].ticket != q[a + 1].ticket);
        }
    }
    assert(queued(rest, asked, id)) by {
        assert forall|a: int| 0 <= a < rest.len() implies asked.contains_key((#[trigger] rest[a]).ticket)
            && asked[rest[a].ticket].at == id && asked[rest[a].ticket].op == rest[a].op by {
            assert(rest[a] == q[a + 1]);
        }
    }
    assert(asked[q[0].ticket].op == req.op);
    if d2.work.len() > d.work.len() {
        let cmd = d2.work.last();
        assert(d2.work.drop_last() =~= d.work);
        let o = shard::shard_of(cmd.about(), n);
        let r = lanes::routed(d2.work, o, n);
        assert(r.drop_last() =~= lanes::routed(d.work, o, n));
        assert forall|j: int| j != o implies #[trigger] lanes::routed(d2.work, j, n) == lanes::routed(d.work, j, n) by {}
        assert forall|j: int| #[trigger] desk::sent_tokens(d.work, j, n).len() <= desk::sent_tokens(d2.work, j, n).len() by {}
        let m = desk::sent_tokens(d.work, o, n).len() as int;
        lanes::keys_and_tokens(lanes::routed(d.work, o, n));
        assert forall|j: int, p: int| #[trigger] desk::owed(d2.work, taken, id, n, j, p) implies {
            let ticket = d2.waiters[desk::sent_tokens(d2.work, j, n)[p]];
            &&& reads(asked, ticket, id, sent_keys(d2.work, j, n)[p], j, n)
            &&& p < lanes::get_places(logs(j), id).len() ==> asked[ticket].since[j] <= lanes::get_places(logs(j), id)[p]
        } by {
            lanes::keys_and_tokens(lanes::routed(d.work, j, n));
            if cmd is Get && j == o && p == m {
                assert(desk::sent_tokens(d2.work, o, n)[m] == token);
                assert(lanes::get_places(logs(o), id).len() <= m);
            } else {
                assert(desk::owed(d.work, taken, id, n, j, p));
                let x = desk::sent_tokens(d.work, j, n)[p];
                assert(desk::sent_tokens(d2.work, j, n)[p] == x);
                assert(sent_keys(d2.work, j, n)[p] == sent_keys(d.work, j, n)[p]);
                assert(d.waiters.contains_key(x));
                assert(x != token);
            }
        }
    } else {
        assert(d2.work == d.work);
    }
}

/// Request number `p` got the outcome that its ticket has in `t`.
pub open spec fn answered_at(
    d: Desk,
    q: Seq<ClientReq>,
    p: int,
    id: int,
    n: int,
    t: Map<usize, Completed>,
    ticket: usize,
) -> bool {
    let before = desk::taken_up(d, q.take(p), id, n);
    let after = desk::take_up(before, q[p], id, n);
    &&& q[p].ticket == ticket
    &&& after.table[ticket] != before.table[ticket]
    &&& t[ticket] == after.table[ticket]
}

/// Where taking up `k` requests gave an outcome, one of them is the reason.
pub open spec fn answered_by(
    d: Desk,
    q: Seq<ClientReq>,
    k: int,
    id: int,
    n: int,
    t: Map<usize, Completed>,
    ticket: usize,
) -> bool {
    t[ticket] == d.table[ticket] || exists|p: int| 0 <= p < k && #[trigger] answered_at(d, q, p, id, n, t, ticket)
}

/// Taking up requests keeps a desk in order, and gives an outcome to no other request.
pub proof fn taking_up_keeps_order(
    d: Desk,
    q: Seq<ClientReq>,
    k: int,
    asked: Map<usize, Asked>,
    logs: spec_fn(int) -> Seq<Entry>,
    taken: spec_fn(int) -> int,
    id: int,
    n: int,
)
    requires
        in_order(d, q, asked, logs, taken, id, n),
        n > 0,
        0 <= k <= q.len(),
        forall|p: int| 0 <= p < k ==> !#[trigger] desk::busy_at(d, q, p, id, n),
    ensures
        ({
            let d2 = desk::taken_up(d, q.take(k), id, n);
            &&& in_order(d2, q.skip(k), asked, logs, taken, id, n)
            &&& d2.table.dom() == d.table.dom()
            &&& forall|ticket: usize| #[trigger]
                d.table.contains_key(ticket) ==> answered_by(d, q, k, id, n, d2.table, ticket)
        }),
    decreases k,
{
    let d2 = desk::taken_up(d, q.take(k), id, n);
    if k == 0 {
        assert(q.skip(0) =~= q);
        assert(q.take(0) =~= Seq::<ClientReq>::empty());
    } else {
        taking_up_keeps_order(d, q, k - 1, asked, logs, taken, id, n);
        let d1 = desk::taken_up(d, q.take(k - 1), id, n);
        let r = q.skip(k - 1);
        assert(!desk::busy_at(d, q, k - 1, id, n));
        lemma_take_up(d1, r, asked, logs, taken, id, n);
        assert(r[0] == q[k - 1]);
        assert(q.take(k).drop_last() =~= q.take(k - 1));
        assert(q.take(k).last() == q[k - 1]);
        assert(d2 == desk::take_up(d1, q[k - 1], id, n));
        assert(r.skip(1) =~= q.skip(k));
        assert forall|ticket: usize| #[trigger] d.table.contains_key(ticket) implies answered_by(
            d,
            q,
            k,
            id,
            n,
            d2.table,
            ticket,
        ) by {
            assert(d1.table.contains_key(ticket));
            if d2.table[ticket] != d1.table[ticket] {
                assert(answered_at(d, q, k - 1, id, n, d2.table, ticket));
            } else {
                assert(answered_by(d, q, k - 1, id, n, d1.table, ticket));
                if d1.table[ticket] != d.table[ticket] {
                    let p = choose|p: int| 0 <= p < k - 1 && #[trigger] answered_at(d, q, p, id, n, d1.table, ticket);
                    assert(answered_at(d, q, p, id, n, d2.table, ticket));
                }
            }
        }
    }
}

/// Reply number `k` gave the outcome that `ticket` has in `t`.
pub open spec fn replied_at(
    w: Map<u64, usize>,
    replies: Seq<Reply>,
    k: int,
    t: Map<usize, Completed>,
    ticket: usize,
) -> bool {
    &&& w.contains_key(replies[k].token)
    &&& w[replies[k].token] == ticket
    &&& t[ticket] == Some(desk::bytes_of(replies[k].val))
}

/// Where replies changed an outcome, one of them is the reason.
pub open spec fn replied_by(
    w: Map<u64, usize>,
    before: Map<usize, Completed>,
    replies: Seq<Reply>,
    t: Map<usize, Completed>,
    ticket: usize,
) -> bool {
    t[ticket] == before[ticket] || exists|k: int| 0 <= k < replies.len() && #[trigger] replied_at(w, replies, k, t, ticket)
}

/// Replies give outcomes only to the clients that wait for their tokens.
pub proof fn replies_answer(w: Map<u64, usize>, t: Map<usize, Completed>, replies: Seq<Reply>)
    ensures
        forall|ticket: usize| #[trigger]
            t.contains_key(ticket) ==> replied_by(w, t, replies, desk::settled(w, t, replies).1, ticket),
    decreases replies.len(),
{
    if replies.len() > 0 {
        let rest = replies.drop_last();
        let r = replies.last();
        replies_answer(w, t, rest);
        desk::replies_release(w, t, rest);
        desk::replies_keep_tickets(w, t, rest);
        let (w1, t1) = desk::settled(w, t, rest);
        let t2 = desk::settled(w, t, replies).1;
        assert forall|ticket: usize| #[trigger] t.contains_key(ticket) implies replied_by(w, t, replies, t2, ticket) by {
            assert(t1.contains_key(ticket)) by {
                assert(t1.dom().contains(ticket));
            }
            if w1.contains_key(r.token) && w1[r.token] == ticket {
                assert(replied_at(w, replies, replies.len() - 1, t2, ticket));
            } else {
                assert(t2[ticket] == t1[ticket]);
                if t1[ticket] != t[ticket] {
                    assert(replied_by(w, t, rest, t1, ticket));
                    let k = choose|k: int| 0 <= k < rest.len() && #[trigger] replied_at(w, rest, k, t1, ticket);
                    assert(rest[k] == replies[k]);
                    assert(replied_at(w, replies, k, t2, ticket));
                }
            }
        }
    }
}

/// A read of `key` came to `v` when the log had its first `p` entries.
pub open spec fn read_at(log: Seq<Entry>, p: int, key: Seq<u8>, v: Option<Seq<u8>>) -> bool {
    v == lanes::lookup(lanes::applied(log.take(p)), key)
}

/// A write stands in the log, at place `p`.
pub open spec fn written_at(log: Seq<Entry>, p: int, key: Vec<u8>, val: Vec<u8>) -> bool {
    log[p].cmd == (Command::Put { key, val })
}

/// A write of these bytes stands in the log, at place `p`.
pub open spec fn stands_at(log: Seq<Entry>, p: int, key: Seq<u8>, val: Seq<u8>) -> bool {
    log[p].cmd is Put && log[p].cmd->Put_key@ == key && log[p].cmd->Put_val@ == val
}

/// A write was sent as command number `q`.
pub open spec fn sent_at(work: Seq<Command>, q: int, key: Vec<u8>, val: Vec<u8>) -> bool {
    work[q] == (Command::Put { key, val })
}

/// `v` is an outcome that the client may get: of a read the value that the key had at some time
/// after the request was left, and where the worker does not own the key that is the time at which
/// the owner served it for that worker; of a write that it was sent since, and carried out since
/// where the worker owns the key.
pub open spec fn right(a: Asked, v: Option<Seq<u8>>, logs: spec_fn(int) -> Seq<Entry>, work: Seq<Command>, n: int) -> bool {
    match a.op {
        ClientOp::Get { key } => {
            let o = shard::shard_of(key@, n);
            exists|p: int|
                a.since[o] <= p <= logs(o).len() && #[trigger] read_at(logs(o), p, key@, v) && (o != a.at
                    ==> lanes::got_at(logs(o), p, a.at, key@))
        },
        ClientOp::Put { key, val } => {
            let o = shard::shard_of(key@, n);
            &&& v is None
            &&& exists|q: int| a.sent <= q < work.len() && #[trigger] sent_at(work, q, key, val)
            &&& o == a.at ==> exists|p: int|
                a.since[o] <= p < logs(o).len() && #[trigger] written_at(logs(o), p, key, val)
        },
    }
}

/// An outcome stays right when logs and work grow.
pub proof fn right_stays(
    a: Asked,
    v: Option<Seq<u8>>,
    logs: spec_fn(int) -> Seq<Entry>,
    logs2: spec_fn(int) -> Seq<Entry>,
    work: Seq<Command>,
    work2: Seq<Command>,
    n: int,
)
    requires
        right(a, v, logs, work, n),
        n > 0,
        forall|j: int| 0 <= j < n ==> (#[trigger] logs(j)).is_prefix_of(logs2(j)),
        work.is_prefix_of(work2),
    ensures
        right(a, v, logs2, work2, n),
{
    match a.op {
        ClientOp::Get { key } => {
            let o = shard::shard_of(key@, n);
            vstd::arithmetic::div_mod::lemma_mod_bound(shard::fnv(key@) as int, n);
            let p = choose|p: int|
                a.since[o] <= p <= logs(o).len() && #[trigger] read_at(logs(o), p, key@, v) && (o != a.at
                    ==> lanes::got_at(logs(o), p, a.at, key@));
            assert(logs(o).is_prefix_of(logs2(o)));
            assert(logs2(o).take(p) =~= logs(o).take(p));
            assert(read_at(logs2(o), p, key@, v));
        },
        ClientOp::Put { key, val } => {
            let o = shard::shard_of(key@, n);
            vstd::arithmetic::div_mod::lemma_mod_bound(shard::fnv(key@) as int, n);
            let q = choose|q: int| a.sent <= q < work.len() && #[trigger] sent_at(work, q, key, val);
            assert(work2[q] == work[q]);
            assert(sent_at(work2, q, key, val));
            if o == a.at {
                let p = choose|p: int| a.since[o] <= p < logs(o).len() && #[trigger] written_at(logs(o), p, key, val);
                assert(logs(o).is_prefix_of(logs2(o)));
                assert(logs2(o)[p] == logs(o)[p]);
                assert(written_at(logs2(o), p, key, val));
            }
        },
    }
}

/// What a worker has done when it took up some of the requests is part of what it has done when
/// it took up all of them.
proof fn lemma_grows(d: Desk, reqs: Seq<ClientReq>, p: int, id: int, n: int)
    requires
        0 <= p <= reqs.len(),
    ensures
        desk::taken_up(d, reqs.take(p), id, n).log.is_prefix_of(desk::taken_up(d, reqs, id, n).log),
        desk::taken_up(d, reqs.take(p), id, n).work.is_prefix_of(desk::taken_up(d, reqs, id, n).work),
    decreases reqs.len(),
{
    let a = desk::taken_up(d, reqs.take(p), id, n);
    let c = desk::taken_up(d, reqs, id, n);
    if p == reqs.len() {
        assert(reqs.take(p) =~= reqs);
        assert(a.log =~= c.log.take(a.log.len() as int));
        assert(a.work =~= c.work.take(a.work.len() as int));
    } else {
        let rest = reqs.drop_last();
        let b = desk::taken_up(d, rest, id, n);
        lemma_grows(d, rest, p, id, n);
        assert(rest.take(p) =~= reqs.take(p));
        assert(b.log =~= c.log.take(b.log.len() as int));
        assert(b.work =~= c.work.take(b.work.len() as int));
        assert(a.log =~= c.log.take(a.log.len() as int));
        assert(a.work =~= c.work.take(a.work.len() as int));
    }
}

/// The outcomes that a worker gives when it takes up requests are right.
pub proof fn taken_up_is_right(
    d: Desk,
    q: Seq<ClientReq>,
    k: int,
    asked: Map<usize, Asked>,
    logs: spec_fn(int) -> Seq<Entry>,
    id: int,
    n: int,
    ticket: usize,
)
    requires
        0 <= id < n,
        0 <= k <= q.len(),
        tidy(d.waiters, q, d.table),
        queued(q, asked, id),
        d.table.contains_key(ticket),
        answered_by(d, q, k, id, n, desk::taken_up(d, q.take(k), id, n).table, ticket),
        desk::taken_up(d, q.take(k), id, n).table[ticket] != d.table[ticket],
        asked.contains_key(ticket),
        asked[ticket].since[id] <= d.log.len(),
        asked[ticket].at == id ==> asked[ticket].sent <= d.work.len(),
        logs(id) == desk::taken_up(d, q.take(k), id, n).log,
    ensures
        asked[ticket].at == id,
        d.table[ticket] is None,
        desk::taken_up(d, q.take(k), id, n).table[ticket] is Some,
        right(
            asked[ticket],
            desk::taken_up(d, q.take(k), id, n).table[ticket]->0,
            logs,
            desk::taken_up(d, q.take(k), id, n).work,
            n,
        ),
{
    let reqs = q.take(k);
    let last = desk::taken_up(d, reqs, id, n);
    let p = choose|p: int| 0 <= p < k && #[trigger] answered_at(d, q, p, id, n, last.table, ticket);
    let req = q[p];
    assert(asked[req.ticket].op == req.op);
    let a = asked[ticket];
    assert(reqs.take(p) =~= q.take(p));
    assert(reqs.take(p + 1) =~= q.take(p + 1));
    assert(q.take(p + 1).drop_last() =~= q.take(p));
    assert(q.take(p + 1).last() == req);
    let before = desk::taken_up(d, q.take(p), id, n);
    let after = desk::taken_up(d, q.take(p + 1), id, n);
    assert(after == desk::take_up(before, req, id, n));
    lemma_grows(d, reqs, p, id, n);
    lemma_grows(d, reqs, p + 1, id, n);
    desk::taking_up_adds(d, q.take(p), id, n);
    assert(before.table.contains_key(ticket)) by {
        assert(before.table.dom().contains(ticket));
    }
    assert(desk::open_ticket(d.table, q[p].ticket));
    match req.op {
        ClientOp::Get { key } => {
            assert(shard::shard_of(key@, n) == id);
            let m = before.log.len() as int;
            assert(last.log.take(m) =~= before.log);
            assert(read_at(logs(id), m, key@, last.table[ticket]->0));
        },
        ClientOp::Put { key, val } => {
            let m = before.work.len() as int;
            assert(after.work[m] == (Command::Put { key, val }));
            assert(last.work[m] == after.work[m]);
            assert(sent_at(last.work, m, key, val));
            if shard::shard_of(key@, n) == id {
                let i = before.log.len() as int;
                assert(after.log[i].cmd == (Command::Put { key, val }));
                assert(last.log[i] == after.log[i]);
                assert(written_at(logs(id), i, key, val));
            }
        },
    }
}

/// A desk stays in order when the logs of the others grow and their clients get outcomes.
pub proof fn order_stays(
    d: Desk,
    t2: Map<usize, Completed>,
    q: Seq<ClientReq>,
    asked: Map<usize, Asked>,
    logs: spec_fn(int) -> Seq<Entry>,
    logs2: spec_fn(int) -> Seq<Entry>,
    taken: spec_fn(int) -> int,
    taken2: spec_fn(int) -> int,
    id: int,
    n: int,
)
    requires
        in_order(d, q, asked, logs, taken, id, n),
        forall|j: int| 0 <= j < n && j != id ==> #[trigger] taken2(j) == taken(j),
        forall|j: int| 0 <= j < n && j != id ==> (#[trigger] logs(j)).is_prefix_of(logs2(j)),
        forall|ticket: usize, j: int| #[trigger]
            asked.contains_key(ticket) && 0 <= j < n ==> #[trigger] asked[ticket].since[j] <= logs(j).len(),
        not_ahead(d.work, logs2, id, n),
        t2.dom() == d.table.dom(),
        forall|ticket: usize| #[trigger]
            asked.contains_key(ticket) && asked[ticket].at == id && d.table.contains_key(ticket) ==> t2[ticket]
                == d.table[ticket],
    ensures
        in_order(Desk { table: t2, ..d }, q, asked, logs2, taken2, id, n),
{
    let d2 = Desk { table: t2, ..d };
    assert forall|j: int, p: int| #[trigger] desk::owed(d.work, taken2, id, n, j, p) implies desk::owed(
        d.work,
        taken,
        id,
        n,
        j,
        p,
    ) by {
        assert(taken2(j) == taken(j));
    }
    assert forall|j: int| 0 <= j < n && j != id implies taken(j) <= #[trigger] taken2(j) <= desk::sent_tokens(
        d.work,
        j,
        n,
    ).len() by {
        assert(taken2(j) == taken(j));
    }
    assert forall|j: int, p: int| #[trigger] desk::owed(d.work, taken, id, n, j, p) && p < taken2(j) implies false by {
        assert(taken2(j) == taken(j));
    }
    desk::collecting_keeps_waits(d.work, d.waiters, d.waiters, taken, taken2, Seq::empty(), id, n);
    assert forall|x: u64| #[trigger] d.waiters.contains_key(x) implies asked.contains_key(d.waiters[x])
        && asked[d.waiters[x]].at == id by {
        let (j, p) = choose|j: int, p: int| #[trigger]
            desk::owed(d.work, taken, id, n, j, p) && desk::sent_tokens(d.work, j, n)[p] == x;
        assert(desk::owed(d.work, taken, id, n, j, p));
    }
    assert(tidy(d.waiters, q, t2)) by {
        assert forall|a: int| 0 <= a < q.len() implies desk::open_ticket(t2, (#[trigger] q[a]).ticket) by {
            assert(desk::open_ticket(d.table, q[a].ticket));
            assert(asked.contains_key(q[a].ticket));
            assert(t2.dom().contains(q[a].ticket));
        }
        assert forall|x: u64| #[trigger] d.waiters.contains_key(x) implies desk::open_ticket(t2, d.waiters[x]) by {
            assert(desk::open_ticket(d.table, d.waiters[x]));
            assert(asked.contains_key(d.waiters[x]));
            assert(t2.dom().contains(d.waiters[x]));
        }
    }
    assert forall|j: int, p: int| #[trigger] desk::owed(d.work, taken2, id, n, j, p) implies {
        let ticket = d.waiters[desk::sent_tokens(d.work, j, n)[p]];
        &&& reads(asked, ticket, id, sent_keys(d.work, j, n)[p], j, n)
        &&& p < lanes::get_places(logs2(j), id).len() ==> asked[ticket].since[j] <= lanes::get_places(logs2(j), id)[p]
    } by {
        assert(desk::owed(d.work, taken, id, n, j, p));
        let ticket = d.waiters[desk::sent_tokens(d.work, j, n)[p]];
        assert(reads(asked, ticket, id, sent_keys(d.work, j, n)[p], j, n));
        assert(logs(j).is_prefix_of(logs2(j)));
        let more = logs2(j).skip(logs(j).len() as int);
        assert(logs2(j) =~= logs(j) + more);
        assert(asked[ticket].since[j] <= logs(j).len());
        assert(0 <= taken(j)) by {
            assert(desk::waits(d.work, d.waiters, taken, id, n));
        }
        lanes::places_stay(logs(j), more, id);
    }
}

/// A reply to worker `id` answers a read that it sent to worker `j` and that is owed.
pub open spec fn answers_read(
    r: Reply,
    work: Seq<Command>,
    logs: spec_fn(int) -> Seq<Entry>,
    taken: spec_fn(int) -> int,
    id: int,
    n: int,
    j: int,
    p: int,
) -> bool {
    let done = lanes::of_source(logs(j), id);
    &&& desk::owed(work, taken, id, n, j, p)
    &&& desk::sent_tokens(work, j, n)[p] == r.token
    &&& p < lanes::answers(logs(j), id).len()
    &&& lanes::answers(logs(j), id)[p] == lanes::answer(r)
    &&& sent_keys(work, j, n)[p] == lanes::get_keys(done)[p]
}

/// A reply to worker `id` answers a read that is owed.
pub open spec fn is_owed(
    r: Reply,
    work: Seq<Command>,
    logs: spec_fn(int) -> Seq<Entry>,
    taken: spec_fn(int) -> int,
    id: int,
    n: int,
) -> bool {
    exists|j: int, p: int| #[trigger] answers_read(r, work, logs, taken, id, n, j, p)
}

/// Taking replies keeps a desk in order.
pub proof fn collecting_keeps_order(
    d: Desk,
    q: Seq<ClientReq>,
    replies: Seq<Reply>,
    asked: Map<usize, Asked>,
    logs: spec_fn(int) -> Seq<Entry>,
    taken: spec_fn(int) -> int,
    taken2: spec_fn(int) -> int,
    id: int,
    n: int,
)
    requires
        in_order(d, q, asked, logs, taken, id, n),
        forall|j: int| 0 <= j < n && j != id ==> taken(j) <= #[trigger] taken2(j),
        desk::waits(d.work, desk::settled(d.waiters, d.table, replies).0, taken2, id, n),
    ensures
        ({
            let (w, t) = desk::settled(d.waiters, d.table, replies);
            in_order(Desk { waiters: w, table: t, ..d }, q, asked, logs, taken2, id, n)
        }),
{
    let (w, t) = desk::settled(d.waiters, d.table, replies);
    desk::replies_release(d.waiters, d.table, replies);
    desk::replies_keep_tickets(d.waiters, d.table, replies);
    replies_answer(d.waiters, d.table, replies);
    assert forall|ticket: usize| #[trigger] d.table.contains_key(ticket) && t[ticket] != d.table[ticket] implies exists|
        x: u64,
    | #[trigger]
        d.waiters.contains_key(x) && d.waiters[x] == ticket && !w.contains_key(x) by {
        assert(replied_by(d.waiters, d.table, replies, t, ticket));
        let k = choose|k: int|
            0 <= k < replies.len() && #[trigger] replied_at(d.waiters, replies, k, t, ticket);
        let x = replies[k].token;
        assert(desk::answers_token(replies, x));
        assert(d.waiters.contains_key(x));
    }
    assert(tidy(w, q, t)) by {
        assert forall|x: u64| #[trigger] w.contains_key(x) implies d.waiters.contains_key(x) && w[x] == d.waiters[x] by {}
        assert forall|a: int| 0 <= a < q.len() implies desk::open_ticket(t, (#[trigger] q[a]).ticket) by {
            let ticket = q[a].ticket;
            assert(desk::open_ticket(d.table, ticket));
            assert(t.dom().contains(ticket));
            if t[ticket] != d.table[ticket] {
                let x = choose|x: u64| #[trigger]
                    d.waiters.contains_key(x) && d.waiters[x] == ticket && !w.contains_key(x);
                assert(d.waiters[x] != q[a].ticket);
            }
        }
        assert forall|x: u64| #[trigger] w.contains_key(x) implies desk::open_ticket(t, w[x]) by {
            let ticket = w[x];
            assert(d.waiters.contains_key(x));
            assert(desk::open_ticket(d.table, ticket));
            assert(t.dom().contains(ticket));
            if t[ticket] != d.table[ticket] {
                let y = choose|y: u64| #[trigger]
                    d.waiters.contains_key(y) && d.waiters[y] == ticket && !w.contains_key(y);
                assert(x == y);
            }
        }
    }
    assert forall|j: int, p: int| #[trigger] desk::owed(d.work, taken2, id, n, j, p) implies {
        let ticket = w[desk::sent_tokens(d.work, j, n)[p]];
        &&& reads(asked, ticket, id, sent_keys(d.work, j, n)[p], j, n)
        &&& p < lanes::get_places(logs(j), id).len() ==> asked[ticket].since[j] <= lanes::get_places(logs(j), id)[p]
    } by {
        assert(taken(j) <= taken2(j));
        assert(desk::owed(d.work, taken, id, n, j, p));
        assert(w.contains_key(desk::sent_tokens(d.work, j, n)[p]));
    }
}

/// The outcomes that replies give are right.
pub proof fn replies_are_right(
    d: Desk,
    q: Seq<ClientReq>,
    replies: Seq<Reply>,
    asked: Map<usize, Asked>,
    logs: spec_fn(int) -> Seq<Entry>,
    taken: spec_fn(int) -> int,
    id: int,
    n: int,
    ticket: usize,
)
    requires
        in_order(d, q, asked, logs, taken, id, n),
        forall|k: int| 0 <= k < replies.len() ==> is_owed(#[trigger] replies[k], d.work, logs, taken, id, n),
        d.table.contains_key(ticket),
        desk::settled(d.waiters, d.table, replies).1[ticket] != d.table[ticket],
    ensures
        asked.contains_key(ticket),
        asked[ticket].at == id,
        d.table[ticket] is None,
        desk::settled(d.waiters, d.table, replies).1[ticket] is Some,
        right(asked[ticket], desk::settled(d.waiters, d.table, replies).1[ticket]->0, logs, d.work, n),
{
    let t = desk::settled(d.waiters, d.table, replies).1;
    replies_answer(d.waiters, d.table, replies);
    assert(replied_by(d.waiters, d.table, replies, t, ticket));
    let k = choose|k: int| 0 <= k < replies.len() && #[trigger] replied_at(d.waiters, replies, k, t, ticket);
    let r = replies[k];
    assert(is_owed(replies[k], d.work, logs, taken, id, n));
    let (j, p) = choose|j: int, p: int| #[trigger] answers_read(r, d.work, logs, taken, id, n, j, p);
    assert(answers_read(r, d.work, logs, taken, id, n, j, p));
    assert(desk::owed(d.work, taken, id, n, j, p));
    assert(0 <= taken(j));
    lanes::answers_are_of_their_places(logs(j), id);
    let m = lanes::get_places(logs(j), id)[p];
    let key = sent_keys(d.work, j, n)[p];
    assert(reads(asked, ticket, id, key, j, n));
    assert(read_at(logs(j), m, key, t[ticket]->0));
}

/// The order of the requests that were not taken up does not matter.
pub proof fn order_is_free(
    d: Desk,
    q: Seq<ClientReq>,
    asked: Map<usize, Asked>,
    logs: spec_fn(int) -> Seq<Entry>,
    taken: spec_fn(int) -> int,
    id: int,
    n: int,
)
    requires
        in_order(d, q, asked, logs, taken, id, n),
    ensures
        in_order(d, q.reverse(), asked, logs, taken, id, n),
{
    let r = q.reverse();
    assert forall|a: int| 0 <= a < r.len() implies #[trigger] r[a] == q[q.len() - 1 - a] by {}
    assert forall|a: int, b: int| 0 <= a < b < r.len() implies (#[trigger] r[a]).ticket != (#[trigger] r[b]).ticket by {
        assert(q[q.len() - 1 - b].ticket != q[q.len() - 1 - a].ticket);
    }
    assert forall|x: u64, a: int| #[trigger] d.waiters.contains_key(x) && 0 <= a < r.len() implies d.waiters[x] != (
    #[trigger] r[a]).ticket by {
        assert(r[a] == q[q.len() - 1 - a]);
    }
    assert forall|a: int| 0 <= a < r.len() implies desk::open_ticket(d.table, (#[trigger] r[a]).ticket) by {
        assert(r[a] == q[q.len() - 1 - a]);
    }
    assert(queued(r, asked, id)) by {
        assert forall|a: int| 0 <= a < r.len() implies asked.contains_key((#[trigger] r[a]).ticket)
            && asked[r[a].ticket].at == id && asked[r[a].ticket].op == r[a].op by {
            assert(r[a] == q[q.len() - 1 - a]);
        }
    }
}

/// A request that a client leaves comes to those that were not taken up.
pub proof fn order_takes(
    d: Desk,
    q: Seq<ClientReq>,
    req: ClientReq,
    asked: Map<usize, Asked>,
    logs: spec_fn(int) -> Seq<Entry>,
    taken: spec_fn(int) -> int,
    id: int,
    n: int,
)
    requires
        in_order(d, q, asked, logs, taken, id, n),
        desk::open_ticket(d.table, req.ticket),
        asked.contains_key(req.ticket),
        asked[req.ticket].at == id,
        asked[req.ticket].op == req.op,
        forall|a: int| 0 <= a < q.len() ==> (#[trigger] q[a]).ticket != req.ticket,
        forall|x: u64| #[trigger] d.waiters.contains_key(x) ==> d.waiters[x] != req.ticket,
    ensures
        in_order(d, q.push(req), asked, logs, taken, id, n),
{
}

/// A read sees the writes before it: where the log holds a write of the key before the place of
/// the read, the value comes from that write or from a later one.
pub proof fn reads_see_writes(log: Seq<Entry>, q: int, p: int, key: Vec<u8>, val: Vec<u8>, v: Option<Seq<u8>>)
    requires
        0 <= q < p <= log.len(),
        written_at(log, q, key, val),
        read_at(log, p, key@, v),
    ensures
        v is Some,
        exists|m: int|
            q <= m < p && (#[trigger] log[m]).cmd is Put && log[m].cmd->Put_key@ == key@ && log[m].cmd->Put_val@ == v->0,
    decreases p,
{
    let front = log.take(p);
    assert(front.drop_last() =~= log.take(p - 1));
    assert(front.last() == log[p - 1]);
    let last = log[p - 1].cmd;
    if last is Put && last->Put_key@ == key@ {
        assert(log[p - 1].cmd is Put);
    } else {
        assert(q < p - 1);
        assert(read_at(log, p - 1, key@, v));
        reads_see_writes(log, q, p - 1, key, val, v);
    }
}

} // verus!
