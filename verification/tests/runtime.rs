//! Tasks, queues and the mesh.

use std::cell::RefCell;
use std::rc::Rc;
use zerokv::desk::{ClientOp, Ingress, ReqCompletion};
use zerokv::executor::{block_on, AlignedBuf, Context, DirectIoRead, Driven, Executor, Poll, Task, ThreadSignal};
use zerokv::lanes::route;
use zerokv::mesh::{core_for, prepare, run_put_workload, MeshService};
use zerokv::spsc::channel;

#[test]
fn wake_ups_are_not_lost() {
    let mut s = ThreadSignal::new();
    assert!(s.should_poll());
    assert!(!s.should_poll());
    s.wake();
    s.wake();
    assert!(s.should_poll());
    assert!(!s.should_poll());
}

#[test]
fn aligned_buffers_are_whole_pages_of_zeros() {
    let b = AlignedBuf::new(5000);
    assert_eq!(b.as_slice().len(), 8192);
    assert!(b.as_slice().iter().all(|&x| x == 0));
}

#[test]
fn reads_yield_once() {
    let mut r = DirectIoRead::new(vec![7u8; 5000], 10);
    let mut cx = Context::new();
    assert!(matches!(r.poll(&mut cx), Poll::Pending));
    assert!(cx.is_woken());
    let mut cx = Context::new();
    match r.poll(&mut cx) {
        Poll::Ready(buf) => {
            assert_eq!(buf.as_slice().len(), 8192);
            assert_eq!(&buf.as_slice()[..5000], &[7u8; 5000][..]);
            assert!(buf.as_slice()[5000..].iter().all(|&x| x == 0));
        }
        Poll::Pending => panic!("submitted twice"),
    }
}

/// Notes each poll, and yields `yields` times, waking itself or not.
struct Noted {
    name: u32,
    yields: usize,
    wakes: bool,
    polls: Rc<RefCell<Vec<u32>>>,
}

impl Task for Noted {
    type Output = ();

    fn poll(&mut self, cx: &mut Context) -> Poll<()> {
        self.polls.borrow_mut().push(self.name);
        if self.yields == 0 {
            return Poll::Ready(());
        }
        self.yields -= 1;
        if self.wakes {
            cx.wake_by_ref();
        }
        Poll::Pending
    }
}

#[test]
fn tasks_run_in_the_order_in_which_they_become_ready() {
    let polls = Rc::new(RefCell::new(Vec::new()));
    let mut ex = Executor::default();
    for name in 0..3u32 {
        ex.spawn(Noted { name, yields: name as usize, wakes: true, polls: polls.clone() });
    }
    assert_eq!(ex.outstanding(), 3);
    assert!(ex.run());
    assert_eq!(ex.outstanding(), 0);
    assert_eq!(*polls.borrow(), vec![0, 1, 2, 1, 2, 2]);
}

#[test]
fn tasks_that_wait_are_kept_until_they_are_woken() {
    let polls = Rc::new(RefCell::new(Vec::new()));
    let mut ex = Executor::new();
    let a = ex.spawn(Noted { name: 0, yields: 1, wakes: false, polls: polls.clone() });
    let b = ex.spawn(Noted { name: 1, yields: 0, wakes: false, polls: polls.clone() });
    assert!(!ex.run());
    assert_eq!(ex.outstanding(), 1);
    // A task that is done is not polled again.
    ex.wake(b);
    assert!(!ex.run());
    ex.wake(a);
    assert!(ex.run());
    assert_eq!(*polls.borrow(), vec![0, 1, 0]);
}

/// Counts down to its result.
struct Countdown {
    left: u32,
    result: u32,
}

impl Task for Countdown {
    type Output = u32;

    fn poll(&mut self, cx: &mut Context) -> Poll<u32> {
        if self.left == 0 {
            return Poll::Ready(self.result);
        }
        self.left -= 1;
        cx.wake_by_ref();
        Poll::Pending
    }
}

#[test]
fn results_of_tasks_are_kept() {
    let mut ex = Executor::new();
    let slow = ex.spawn(Countdown { left: 9, result: 70 });
    let fast = ex.spawn(Countdown { left: 0, result: 7 });
    assert_eq!(ex.output(slow), None);
    assert!(ex.run());
    assert_eq!(ex.output(slow), Some(&70));
    assert_eq!(ex.output(fast), Some(&7));
    // A task that comes later does not disturb them.
    let late = ex.spawn(Countdown { left: 2, result: 8 });
    ex.wake(fast);
    assert!(ex.run());
    assert_eq!((ex.output(slow), ex.output(fast), ex.output(late)), (Some(&70), Some(&7), Some(&8)));
    assert_eq!(block_on(Countdown { left: 3, result: 5 }).output(), Some(5));
}

#[test]
fn a_task_that_waits_for_others_is_handed_back() {
    let polls = Rc::new(RefCell::new(Vec::new()));
    let mut task = Noted { name: 0, yields: 3, wakes: false, polls: polls.clone() };
    // Each round stands for a wake-up that the thread slept for.
    for left in [2, 1, 0] {
        task = match block_on(task) {
            Driven::Asleep(task) => task,
            Driven::Done(()) => panic!("nobody woke it"),
        };
        assert_eq!(task.yields, left);
    }
    assert!(matches!(block_on(task), Driven::Done(())));
    assert_eq!(polls.borrow().len(), 4);
    assert_eq!(block_on(Noted { name: 0, yields: 5, wakes: true, polls: polls.clone() }).output(), Some(()));
    assert_eq!(polls.borrow().len(), 10);
}

#[test]
fn rings_are_bounded_and_drained() {
    let (mut ring, tx, rx) = channel::<u32>(3);
    for i in 0..4 {
        assert_eq!(tx.push(&mut ring, i), Ok(()));
    }
    assert_eq!(tx.push(&mut ring, 4), Err(4));
    assert_eq!(ring.len(), 4);
    assert_eq!(rx.drain(&mut ring, 3), vec![0, 1, 2]);
    assert_eq!(tx.push(&mut ring, 5), Ok(()));
    assert_eq!(rx.drain(&mut ring, 10), vec![3, 5]);
    assert_eq!(rx.pop(&mut ring), None);
    let (mut small, tx, _rx) = channel::<u8>(0);
    assert_eq!(tx.push(&mut small, 1), Ok(()));
    assert_eq!(tx.push(&mut small, 2), Ok(()));
    assert_eq!(tx.push(&mut small, 3), Err(3));
}

#[test]
fn keys_are_routed_by_hash() {
    assert_eq!(route(b"foobar", 15), 8);
    assert_eq!(route(b"a", 3), 0);
    assert_eq!(route(b"anything", 0), 0);
}

#[test]
fn a_mesh_runs_in_any_order_of_steps() {
    let items = |id: usize, _n: usize| -> Vec<(Vec<u8>, Vec<u8>)> {
        (0..5000u32).map(|i| (vec![id as u8, i as u8, (i >> 8) as u8], i.to_le_bytes().to_vec())).collect()
    };
    let mut mesh = prepare(3, items);
    assert_eq!(mesh.num_shards(), 4);
    assert!(!mesh.is_finished());
    // Worker 0 alone gets as far as the queues have room, and then cannot move.
    while mesh.step(0) {}
    assert!(!mesh.is_finished());
    // The others, last first, some steps at a time.
    while !mesh.is_finished() {
        for id in [3, 2, 2, 1, 0] {
            mesh.step(id);
        }
    }
    assert_eq!(mesh.shutdown(), 20_000);
}

#[test]
fn an_empty_workload_is_finished_at_once() {
    let (mesh, zero) = run_put_workload(0, |_id: usize, _n: usize| -> Vec<(Vec<u8>, Vec<u8>)> { Vec::new() });
    assert_eq!(zero, 0);
    assert_eq!(mesh.num_shards(), 1);
    assert_eq!(mesh.shutdown(), 0);
}

#[test]
fn requests_are_taken_newest_first() {
    let mut g = Ingress::new();
    assert!(g.is_empty());
    g.push(ClientOp::Get { key: b"a".to_vec() }, 1);
    g.push(ClientOp::Put { key: b"b".to_vec(), val: b"v".to_vec() }, 2);
    let reqs = g.drain();
    let tickets: Vec<usize> = reqs.iter().map(|r| r.ticket).collect();
    assert_eq!(tickets, vec![2, 1]);
    assert!(g.is_empty());
}

#[test]
fn completions_keep_the_outcome() {
    let mut c = ReqCompletion::new();
    assert!(!c.is_done());
    c.fulfill(Some(b"v".to_vec()));
    assert!(c.is_done());
    assert_eq!(c.take(), Some(b"v".to_vec()));
}

#[test]
fn a_service_answers_the_same_from_every_worker() {
    let mut svc = MeshService::start(3);
    assert_eq!(svc.num_shards(), 4);
    let h = svc.handle();
    h.put(&mut svc, b"k", b"v1");
    for _ in 0..9 {
        assert_eq!(h.get_round_robin(&mut svc, b"k"), Some(b"v1".to_vec()));
        assert_eq!(h.get_round_robin(&mut svc, b"absent"), None);
    }
    h.put(&mut svc, b"k", b"v2");
    h.put(&mut svc, b"other", b"");
    for _ in 0..4 {
        assert_eq!(h.get_round_robin(&mut svc, b"k"), Some(b"v2".to_vec()));
    }
    assert_eq!(h.get(&mut svc, b"other"), Some(Vec::new()));
    svc.drain();
    svc.shutdown();
}

#[test]
fn workers_of_a_service_take_steps_apart() {
    let mut svc = MeshService::start(2);
    let ticket = svc.submit(0, ClientOp::Put { key: b"a".to_vec(), val: b"1".to_vec() });
    for _ in 0..3 {
        for id in 0..2 {
            svc.step(id);
        }
    }
    assert_eq!(svc.take_outcome(ticket), Some(None));
    assert_eq!(svc.take_outcome(ticket), None);
    // Whichever worker accepts it, the answer is the same.
    for accept in 0..2 {
        let ticket = svc.submit(accept, ClientOp::Get { key: b"a".to_vec() });
        assert_eq!(svc.take_outcome(ticket), None);
        for _ in 0..3 {
            for id in 0..2 {
                svc.step(id);
            }
        }
        assert_eq!(svc.take_outcome(ticket), Some(Some(b"1".to_vec())));
    }
    assert_eq!(svc.next_accept(), 0);
    assert_eq!(svc.next_accept(), 1);
    assert_eq!(svc.next_accept(), 0);
    assert!(!svc.may_stop(false));
    svc.stop();
    for id in 0..2 {
        let moved = svc.step(id);
        assert!(!moved);
        assert!(!svc.may_stop(true));
        assert!(svc.may_stop(moved));
    }
}

#[test]
fn no_worker_stops_while_a_request_is_under_way() {
    let mut svc = MeshService::start(2);
    let h = svc.handle();
    h.put(&mut svc, b"a", b"1");
    svc.stop();
    let owner = route(b"a", 1);
    let other = 1 - owner;
    let ticket = svc.submit(other, ClientOp::Get { key: b"a".to_vec() });
    // The owner has nothing to do yet, but the request is on its way to it.
    assert!(!svc.step(owner));
    assert!(!svc.is_idle());
    assert!(!svc.may_stop(false));
    assert!(svc.step(other));
    assert!(!svc.may_stop(false));
    assert!(svc.step(owner));
    assert!(!svc.may_stop(false));
    assert!(svc.step(other));
    assert!(svc.is_idle());
    assert!(svc.may_stop(false));
    assert_eq!(svc.take_outcome(ticket), Some(Some(b"1".to_vec())));
}

#[test]
fn a_shutdown_answers_what_was_left() {
    let mut svc = MeshService::start(4);
    let mut tickets = Vec::new();
    for i in 0..40u32 {
        let key = format!("key:{i}").into_bytes();
        let owner = route(&key, 3);
        svc.submit(owner, ClientOp::Put { key: key.clone(), val: i.to_le_bytes().to_vec() });
        svc.step(owner);
        tickets.push(svc.submit(i as usize % 4, ClientOp::Get { key }));
    }
    assert!(!svc.is_idle());
    let mut rest = svc.shutdown();
    assert!(rest.is_idle());
    assert!(rest.may_stop(false));
    for (i, ticket) in tickets.into_iter().enumerate() {
        assert_eq!(rest.take_outcome(ticket), Some(Some((i as u32).to_le_bytes().to_vec())));
    }
}

#[test]
fn draining_a_service_answers_every_request() {
    let mut svc = MeshService::start(4);
    let mut puts = Vec::new();
    let mut gets = Vec::new();
    for i in 0..500u32 {
        let key = format!("key:{i}").into_bytes();
        puts.push(svc.submit(i as usize % 4, ClientOp::Put { key, val: i.to_le_bytes().to_vec() }));
    }
    svc.drain();
    for i in 0..500u32 {
        let key = format!("key:{i}").into_bytes();
        gets.push(svc.submit((i as usize + 1) % 4, ClientOp::Get { key }));
    }
    let missing = svc.submit(3, ClientOp::Get { key: b"none".to_vec() });
    svc.drain();
    for ticket in puts {
        assert_eq!(svc.take_outcome(ticket), Some(None));
    }
    for (i, ticket) in gets.into_iter().enumerate() {
        assert_eq!(svc.take_outcome(ticket), Some(Some((i as u32).to_le_bytes().to_vec())));
    }
    assert_eq!(svc.take_outcome(missing), Some(None));
    svc.shutdown();
}

#[test]
fn clients_are_served_while_requests_are_under_way() {
    let mut svc = MeshService::start(4);
    let h = svc.handle();
    let mut tickets = Vec::new();
    for i in 0..100u32 {
        let key = format!("key:{i}").into_bytes();
        tickets.push(svc.submit(i as usize % 4, ClientOp::Put { key: key.clone(), val: b"old".to_vec() }));
        // A write through the handle is in force when the call returns.
        h.put(&mut svc, b"own", &i.to_le_bytes());
        assert_eq!(h.get_round_robin(&mut svc, b"own"), Some(i.to_le_bytes().to_vec()));
        tickets.push(svc.submit((i as usize + 2) % 4, ClientOp::Get { key }));
    }
    svc.drain();
    for (i, ticket) in tickets.into_iter().enumerate() {
        let outcome = svc.take_outcome(ticket).unwrap();
        // The reads did not wait for the writes.
        assert!(outcome.is_none() || i % 2 == 1 && outcome == Some(b"old".to_vec()));
    }
    for i in 0..100u32 {
        assert_eq!(h.get(&mut svc, format!("key:{i}").as_bytes()), Some(b"old".to_vec()));
    }
}

#[test]
fn workers_beyond_the_cores_are_not_pinned() {
    let cores = vec![0, 2, 4];
    assert_eq!(core_for(&cores, 1), Some(2));
    assert_eq!(core_for(&cores, 3), None);
    assert_eq!(core_for(&Vec::new(), 0), None);
}
