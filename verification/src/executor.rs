//! A small runtime for storage tasks.
//!
//! A task is polled; it gives its output, or it yields and is polled again once it was woken. A
//! wake-up is a flag on the task's context while it is polled, and a call from outside at other
//! times. [`block_on`] runs one task; [`Executor`] runs many in the order in which they become
//! ready. Where they have to wait, they hand control back, and whoever runs them puts the thread
//! to sleep. [`DirectIoRead`] is a task: a read into a page-aligned buffer.

use vstd::prelude::*;
use std::collections::VecDeque;
use crate::mmap_log;
use crate::mmap_log::round_to_page;
use crate::region;
use crate::region::Region;
use crate::sums;

verus! {

/// What a poll came to.
pub enum Poll<T> {
    /// The output.
    Ready(T),
    /// The task yields.
    Pending,
}

/// What a task is given when it is polled.
pub struct Context {
    woken: bool,
}

impl Context {
    /// The task was woken.
    pub closed spec fn woken(&self) -> bool {
        self.woken
    }

    /// A context in which the task was not woken.
    pub fn new() -> (r: Self)
        ensures
            !r.woken(),
    {
        Context { woken: false }
    }

    /// Wakes the task.
    pub fn wake_by_ref(&mut self)
        ensures
            final(self).woken(),
    {
        self.woken = true;
    }

    /// Whether the task was woken.
    pub fn is_woken(&self) -> (r: bool)
        ensures
            r == self.woken(),
    {
        self.woken
    }
}

/// A task.
pub trait Task: Sized {
    /// What the task gives.
    type Output;

    /// The task can be polled.
    open spec fn live(&self) -> bool {
        true
    }

    /// A bound on how often the task still wakes itself.
    open spec fn steps(&self) -> nat {
        0
    }

    /// The task never yields without waking itself.
    open spec fn wakes_itself(&self) -> bool {
        false
    }

    /// The task may give `out`.
    open spec fn gives(&self, out: Self::Output) -> bool {
        true
    }

    /// A poll of the task may yield and leave `next`; `woken` says whether the task woke itself.
    open spec fn yields(&self, next: Self, woken: bool) -> bool {
        true
    }

    /// Polls the task.
    fn poll(&mut self, cx: &mut Context) -> (r: Poll<Self::Output>)
        requires
            old(self).live(),
            !old(cx).woken(),
        ensures
            final(self).steps() <= old(self).steps(),
            r is Ready ==> old(self).gives(r->Ready_0),
            r is Pending ==> {
                &&& final(self).live()
                &&& old(self).yields(*final(self), final(cx).woken())
                &&& final(cx).woken() ==> final(self).steps() < old(self).steps()
                &&& old(self).wakes_itself() ==> final(cx).woken() && final(self).wakes_itself()
                &&& forall|out: Self::Output| final(self).gives(out) ==> old(self).gives(out)
            },
    ;
}

/// The flag of a thread that runs a task: whether there is a wake-up that it has not seen.
pub struct ThreadSignal {
    awake: bool,
}

impl ThreadSignal {
    /// There is a wake-up that was not seen.
    pub closed spec fn awake(&self) -> bool {
        self.awake
    }

    /// The first poll needs no wake-up.
    pub fn new() -> (r: Self)
        ensures
            r.awake(),
    {
        ThreadSignal { awake: true }
    }

    /// Notes a wake-up.
    pub fn wake(&mut self)
        ensures
            final(self).awake(),
    {
        self.awake = true;
    }

    /// Whether the thread should poll; where not, it may go to sleep. A wake-up that came since
    /// the last call is seen, so it is not lost.
    pub fn should_poll(&mut self) -> (r: bool)
        ensures
            r == old(self).awake(),
            !final(self).awake(),
    {
        let r = self.awake;
        self.awake = false;
        r
    }
}

/// The states of a task that was polled again and again, and woke itself each time that it
/// yielded.
pub open spec fn polled_on<T: Task>(states: Seq<T>) -> bool {
    &&& states.len() > 0
    &&& forall|k: int| 0 <= k < states.len() - 1 ==> (#[trigger] states[k]).yields(states[k + 1], true)
}

/// What a run of a task on a thread came to.
pub enum Driven<T: Task> {
    /// The task gave its output.
    Done(T::Output),
    /// The task yielded and was not woken. The thread sleeps until it is, and then goes on with
    /// the task.
    Asleep(T),
}

impl<T: Task> Driven<T> {
    /// The output, if the task gave it.
    pub fn output(self) -> (r: Option<T::Output>)
        ensures
            r == (match self {
                Driven::Done(out) => Some(out),
                Driven::Asleep(_) => None,
            }),
    {
        match self {
            Driven::Done(out) => Some(out),
            Driven::Asleep(_) => None,
        }
    }
}

/// What a run of `fut` came to: it was polled until it gave an output, or until it yielded
/// without having woken itself.
pub open spec fn comes_to<T: Task>(fut: T, states: Seq<T>, r: Driven<T>) -> bool {
    &&& polled_on(states)
    &&& states[0] == fut
    &&& match r {
        Driven::Done(out) => states.last().gives(out),
        Driven::Asleep(next) => states.last().yields(next, false),
    }
}

/// Runs a task until it gives its output, or until it has to wait for a wake-up from elsewhere.
/// Then it is handed back as the last poll left it: whoever runs it puts the thread to sleep, and
/// goes on with it once it was woken, so that what it gives in the end is what the task gives.
pub fn block_on<T: Task>(fut: T) -> (r: Driven<T>)
    requires
        fut.live(),
    ensures
        exists|states: Seq<T>| #[trigger] comes_to(fut, states, r),
        fut.wakes_itself() ==> r is Done,
        match r {
            Driven::Done(out) => fut.gives(out),
            Driven::Asleep(next) => {
                &&& next.live()
                &&& next.steps() <= fut.steps()
                &&& forall|out: T::Output| next.gives(out) ==> fut.gives(out)
            },
        },
{
    let mut task = fut;
    let mut signal = ThreadSignal::new();
    let mut awake = signal.should_poll();
    let ghost mut states: Seq<T> = seq![task];
    while awake
        invariant
            !signal.awake(),
            task.live(),
            task.steps() <= fut.steps(),
            polled_on(states),
            states[0] == fut,
            awake ==> states.last() == task,
            !awake ==> states.last().yields(task, false),
            forall|out: T::Output| task.gives(out) ==> fut.gives(out),
            fut.wakes_itself() ==> task.wakes_itself() && awake,
        decreases task.steps(), (if awake {
            1int
        } else {
            0
        }),
    {
        let ghost before = task;
        let mut cx = Context::new();
        match task.poll(&mut cx) {
            Poll::Ready(v) => {
                assert(comes_to(fut, states, Driven::Done(v)));
                return Driven::Done(v);
            },
            Poll::Pending => {
                if cx.is_woken() {
                    signal.wake();
                    proof {
                        let more = states.push(task);
                        assert forall|k: int| 0 <= k < more.len() - 1 implies (#[trigger] more[k]).yields(more[k + 1], true) by {
                            if k < states.len() - 1 {
                                assert(states[k].yields(states[k + 1], true));
                            }
                        }
                        states = more;
                    }
                } else {
                    assert(before.yields(task, false));
                }
            },
        }
        awake = signal.should_poll();
    }
    assert(comes_to(fut, states, Driven::Asleep(task)));
    Driven::Asleep(task)
}

/// How many of the tasks are not done.
pub open spec fn unfinished<F>(tasks: Seq<Option<F>>) -> nat
    decreases tasks.len(),
{
    if tasks.len() == 0 {
        0
    } else {
        unfinished(tasks.drop_last()) + (if tasks.last() is Some {
            1nat
        } else {
            0
        })
    }
}

proof fn lemma_unfinished_update<F>(tasks: Seq<Option<F>>, i: int, v: Option<F>)
    requires
        0 <= i < tasks.len(),
    ensures
        unfinished(tasks.update(i, v)) == unfinished(tasks) - (if tasks[i] is Some {
            1int
        } else {
            0
        }) + (if v is Some {
            1int
        } else {
            0
        }),
    decreases tasks.len(),
{
    let t = tasks.update(i, v);
    if i == tasks.len() - 1 {
        assert(t.drop_last() =~= tasks.drop_last());
    } else {
        assert(t.drop_last() =~= tasks.drop_last().update(i, v));
        lemma_unfinished_update(tasks.drop_last(), i, v);
    }
}

proof fn lemma_unfinished_none<F>(tasks: Seq<Option<F>>)
    requires
        unfinished(tasks) == 0,
    ensures
        forall|i: int| 0 <= i < tasks.len() ==> (#[trigger] tasks[i]) is None,
    decreases tasks.len(),
{
    if tasks.len() > 0 {
        lemma_unfinished_none(tasks.drop_last());
        assert forall|i: int| 0 <= i < tasks.len() implies (#[trigger] tasks[i]) is None by {
            if i < tasks.len() - 1 {
                assert(tasks.drop_last()[i] == tasks[i]);
            }
        }
    }
}

/// What a turn of a task came to.
pub enum Turn<F: Task> {
    /// The task was done before, and was not polled.
    Passed,
    /// The task was polled and gave its output.
    Ended(F::Output),
    /// The task was polled, woke itself and yielded.
    Again(F),
    /// The task was polled and yielded, and waits to be woken.
    Parked(F),
}

/// A turn of task `id`.
pub struct Taken<F: Task> {
    pub id: usize,
    pub turn: Turn<F>,
}

/// The tasks after some turns.
pub open spec fn tasks_after<F: Task>(tasks: Seq<Option<F>>, turns: Seq<Taken<F>>) -> Seq<Option<F>>
    decreases turns.len(),
{
    if turns.len() == 0 {
        tasks
    } else {
        let before = tasks_after(tasks, turns.drop_last());
        let id = turns.last().id as int;
        match turns.last().turn {
            Turn::Passed => before,
            Turn::Ended(_) => before.update(id, None),
            Turn::Again(f) => before.update(id, Some(f)),
            Turn::Parked(f) => before.update(id, Some(f)),
        }
    }
}

/// The outputs after some turns.
pub open spec fn outputs_after<F: Task>(outputs: Seq<Option<F::Output>>, turns: Seq<Taken<F>>) -> Seq<Option<F::Output>>
    decreases turns.len(),
{
    if turns.len() == 0 {
        outputs
    } else {
        let before = outputs_after(outputs, turns.drop_last());
        match turns.last().turn {
            Turn::Ended(out) => before.update(turns.last().id as int, Some(out)),
            _ => before,
        }
    }
}

/// The tasks that wait to be polled after some turns: the first one has had its turn, and goes
/// to the end where it woke itself.
pub open spec fn ready_after<F: Task>(ready: Seq<usize>, turns: Seq<Taken<F>>) -> Seq<usize>
    decreases turns.len(),
{
    if turns.len() == 0 {
        ready
    } else {
        let rest = ready_after(ready, turns.drop_last()).drop_first();
        match turns.last().turn {
            Turn::Again(_) => rest.push(turns.last().id),
            _ => rest,
        }
    }
}

/// The tasks that wait to be woken after some turns.
pub open spec fn parked_after<F: Task>(parked: Set<usize>, turns: Seq<Taken<F>>) -> Set<usize>
    decreases turns.len(),
{
    if turns.len() == 0 {
        parked
    } else {
        let before = parked_after(parked, turns.drop_last());
        match turns.last().turn {
            Turn::Passed => before,
            Turn::Parked(_) => before.insert(turns.last().id),
            _ => before.remove(turns.last().id),
        }
    }
}

/// A turn is what the task does when it is polled. A task that is done is not polled.
pub open spec fn is_turn_of<F: Task>(task: Option<F>, turn: Turn<F>) -> bool {
    match turn {
        Turn::Passed => task is None,
        Turn::Ended(out) => task is Some && task->0.gives(out),
        Turn::Again(f) => task is Some && task->0.yields(f, true),
        Turn::Parked(f) => task is Some && task->0.yields(f, false),
    }
}

/// Turn number `k` is that of the task that waited first, and is what it does when it is polled.
pub open spec fn in_turn<F: Task>(tasks: Seq<Option<F>>, ready: Seq<usize>, turns: Seq<Taken<F>>, k: int) -> bool {
    let front = turns.take(k);
    let waiting = ready_after(ready, front);
    &&& waiting.len() > 0
    &&& turns[k].id == waiting[0]
    &&& is_turn_of(tasks_after(tasks, front)[turns[k].id as int], turns[k].turn)
}

/// Tasks took these turns, one after the other.
pub open spec fn took_turns<F: Task>(tasks: Seq<Option<F>>, ready: Seq<usize>, turns: Seq<Taken<F>>) -> bool {
    forall|k: int| 0 <= k < turns.len() ==> #[trigger] in_turn(tasks, ready, turns, k)
}

proof fn lemma_turn_added<F: Task>(tasks: Seq<Option<F>>, ready: Seq<usize>, turns: Seq<Taken<F>>, t: Taken<F>)
    requires
        took_turns(tasks, ready, turns),
        ready_after(ready, turns).len() > 0,
        t.id == ready_after(ready, turns)[0],
        is_turn_of(tasks_after(tasks, turns)[t.id as int], t.turn),
    ensures
        took_turns(tasks, ready, turns.push(t)),
        turns.push(t).drop_last() == turns,
{
    let more = turns.push(t);
    assert(more.drop_last() =~= turns);
    assert forall|k: int| 0 <= k < more.len() implies #[trigger] in_turn(tasks, ready, more, k) by {
        if k < turns.len() {
            assert(in_turn(tasks, ready, turns, k));
            assert(more.take(k) =~= turns.take(k));
        } else {
            assert(more.take(k) =~= turns);
        }
    }
}

proof fn lemma_waiting<F: Task>(tasks: Seq<Option<F>>, ready: Seq<usize>, turns: Seq<Taken<F>>, k: int)
    requires
        took_turns(tasks, ready, turns),
        0 <= k <= turns.len(),
    ensures
        k <= ready.len() ==> {
            let waiting = ready_after(ready, turns.take(k));
            &&& waiting.len() >= ready.len() - k
            &&& forall|a: int| 0 <= a < ready.len() - k ==> #[trigger] waiting[a] == ready[k + a]
        },
    decreases k,
{
    if k > 0 {
        lemma_waiting(tasks, ready, turns, k - 1);
        assert(turns.take(k).drop_last() =~= turns.take(k - 1));
        assert(turns.take(k).last() == turns[k - 1]);
        assert(in_turn(tasks, ready, turns, k - 1));
    } else {
        assert(turns.take(0).len() == 0);
    }
}

/// The tasks that are ready have their first turns in the order in which they became ready. Where
/// none is ready in the end, each of them had one.
pub proof fn first_turns_are_in_order<F: Task>(tasks: Seq<Option<F>>, ready: Seq<usize>, turns: Seq<Taken<F>>)
    requires
        took_turns(tasks, ready, turns),
        ready_after(ready, turns).len() == 0,
    ensures
        ready.len() <= turns.len(),
        forall|k: int| 0 <= k < ready.len() ==> (#[trigger] turns[k]).id == ready[k],
        ready.len() == 0 ==> turns.len() == 0,
{
    assert(turns.take(turns.len() as int) =~= turns);
    if turns.len() < ready.len() {
        lemma_waiting(tasks, ready, turns, turns.len() as int);
    }
    assert forall|k: int| 0 <= k < ready.len() implies (#[trigger] turns[k]).id == ready[k] by {
        lemma_waiting(tasks, ready, turns, k);
        assert(in_turn(tasks, ready, turns, k));
    }
    if ready.len() == 0 && turns.len() > 0 {
        assert(in_turn(tasks, ready, turns, 0));
        assert(turns.take(0).len() == 0);
    }
}

/// A task that gave its output is not polled again.
pub proof fn done_tasks_are_not_polled<F: Task>(tasks: Seq<Option<F>>, ready: Seq<usize>, turns: Seq<Taken<F>>, j: int, k: int)
    requires
        took_turns(tasks, ready, turns),
        forall|a: int| 0 <= a < ready.len() ==> (#[trigger] ready[a]) < tasks.len(),
        0 <= j < k < turns.len(),
        turns[j].turn is Ended,
        turns[k].id == turns[j].id,
    ensures
        turns[k].turn is Passed,
{
    lemma_stays_done(tasks, ready, turns, j, k);
    assert(in_turn(tasks, ready, turns, k));
}

proof fn lemma_stays_done<F: Task>(tasks: Seq<Option<F>>, ready: Seq<usize>, turns: Seq<Taken<F>>, j: int, k: int)
    requires
        took_turns(tasks, ready, turns),
        forall|a: int| 0 <= a < ready.len() ==> (#[trigger] ready[a]) < tasks.len(),
        0 <= j < k <= turns.len(),
        turns[j].turn is Ended,
    ensures
        tasks_after(tasks, turns.take(k))[turns[j].id as int] is None,
    decreases k,
{
    lemma_in_range(tasks, ready, turns, k);
    lemma_in_range(tasks, ready, turns, k - 1);
    lemma_in_range(tasks, ready, turns, j + 1);
    assert(turns.take(k).drop_last() =~= turns.take(k - 1));
    assert(turns.take(k).last() == turns[k - 1]);
    if j < k - 1 {
        lemma_stays_done(tasks, ready, turns, j, k - 1);
        assert(in_turn(tasks, ready, turns, k - 1));
    }
}

proof fn lemma_in_range<F: Task>(tasks: Seq<Option<F>>, ready: Seq<usize>, turns: Seq<Taken<F>>, k: int)
    requires
        took_turns(tasks, ready, turns),
        forall|a: int| 0 <= a < ready.len() ==> (#[trigger] ready[a]) < tasks.len(),
        0 <= k <= turns.len(),
    ensures
        tasks_after(tasks, turns.take(k)).len() == tasks.len(),
        ({
            let waiting = ready_after(ready, turns.take(k));
            forall|a: int| 0 <= a < waiting.len() ==> (#[trigger] waiting[a]) < tasks.len()
        }),
        k > 0 ==> turns[k - 1].id < tasks.len(),
    decreases k,
{
    if k > 0 {
        lemma_in_range(tasks, ready, turns, k - 1);
        assert(turns.take(k).drop_last() =~= turns.take(k - 1));
        assert(turns.take(k).last() == turns[k - 1]);
        assert(in_turn(tasks, ready, turns, k - 1));
    } else {
        assert(turns.take(0).len() == 0);
    }
}

/// A runtime for many tasks. A task is known by the number under which it was spawned.
pub struct Executor<F: Task> {
    tasks: Vec<Option<F>>,
    outputs: Vec<Option<F::Output>>,
    ready: VecDeque<usize>,
    outstanding: usize,
    parked: Ghost<Set<usize>>,
}

impl<F: Task> Executor<F> {
    /// The tasks by number; `None` for one that is done.
    pub closed spec fn tasks(&self) -> Seq<Option<F>> {
        self.tasks@
    }

    /// The outputs of the tasks that are done, by number.
    pub closed spec fn outputs(&self) -> Seq<Option<F::Output>> {
        self.outputs@
    }

    /// The numbers of the tasks that wait to be polled, in order.
    pub closed spec fn ready(&self) -> Seq<usize> {
        self.ready@
    }

    /// The tasks that yielded and wait to be woken.
    pub closed spec fn parked(&self) -> Set<usize> {
        self.parked@
    }

    /// Every task that is not done can be polled, and waits to be polled or to be woken. Every
    /// task that is done gave its output.
    pub closed spec fn wf(&self) -> bool {
        &&& self.outstanding == unfinished(self.tasks@)
        &&& self.outputs@.len() == self.tasks@.len()
        &&& forall|i: int| 0 <= i < self.tasks@.len() ==> ((#[trigger] self.outputs@[i]) is Some <==> self.tasks@[i] is None)
        &&& self.waiting_ok()
    }

    spec fn waiting_ok(&self) -> bool {
        &&& forall|k: int| 0 <= k < self.ready@.len() ==> (#[trigger] self.ready@[k]) < self.tasks@.len()
        &&& forall|i: usize|
            i < self.tasks@.len() && (#[trigger] self.tasks@[i as int]) is Some ==> {
                &&& self.tasks@[i as int]->0.live()
                &&& self.ready@.contains(i) || self.parked@.contains(i)
            }
    }

    /// What follows from well-formedness outside of this module.
    pub proof fn lemma_wf(&self)
        requires
            self.wf(),
        ensures
            self.outputs().len() == self.tasks().len(),
            forall|i: int| 0 <= i < self.tasks().len() ==> ((#[trigger] self.outputs()[i]) is Some <==> self.tasks()[i] is None),
            forall|k: int| 0 <= k < self.ready().len() ==> (#[trigger] self.ready()[k]) < self.tasks().len(),
    {
    }

    /// A runtime without tasks.
    pub fn new() -> (r: Self)
        ensures
            r.wf(),
            r.tasks() == Seq::<Option<F>>::empty(),
            r.outputs() == Seq::<Option<F::Output>>::empty(),
            r.ready() == Seq::<usize>::empty(),
            r.parked() == Set::<usize>::empty(),
    {
        Executor {
            tasks: Vec::new(),
            outputs: Vec::new(),
            ready: VecDeque::new(),
            outstanding: 0,
            parked: Ghost(Set::empty()),
        }
    }

    /// Schedules a task behind those that are ready, and returns its number. It is not polled
    /// before [`Executor::run`] comes to it.
    pub fn spawn(&mut self, fut: F) -> (id: usize)
        requires
            old(self).wf(),
            fut.live(),
        ensures
            final(self).wf(),
            id == old(self).tasks().len(),
            final(self).tasks() == old(self).tasks().push(Some(fut)),
            final(self).outputs() == old(self).outputs().push(None),
            final(self).ready() == old(self).ready().push(id),
            final(self).parked() == old(self).parked(),
    {
        let id: usize = self.tasks.len();
        self.tasks.push(Some(fut));
        self.outputs.push(None);
        self.ready.push_back(id);
        proof {
            assert(self.tasks@.drop_last() =~= old(self).tasks@);
            lemma_unfinished_len(self.tasks@);
            assert(self.tasks.len() <= usize::MAX);
            let r0 = old(self).ready@;
            assert forall|i: usize| i < self.tasks@.len() && (#[trigger] self.tasks@[i as int]) is Some implies
                self.tasks@[i as int]->0.live() && (self.ready@.contains(i) || self.parked@.contains(i)) by {
                if i == id {
                    assert(self.ready@[r0.len() as int] == i);
                } else {
                    assert(old(self).tasks@[i as int] is Some);
                    if r0.contains(i) {
                        let k = choose|k: int| 0 <= k < r0.len() && r0[k] == i;
                        assert(self.ready@[k] == i);
                    }
                }
            }
        }
        self.outstanding = self.outstanding + 1;
        id
    }

    /// Wakes a task: puts it behind those that are ready. A task that is done is not polled
    /// again.
    pub fn wake(&mut self, id: usize)
        requires
            old(self).wf(),
            id < old(self).tasks().len(),
        ensures
            final(self).wf(),
            final(self).tasks() == old(self).tasks(),
            final(self).outputs() == old(self).outputs(),
            final(self).ready() == old(self).ready().push(id),
            final(self).parked() == old(self).parked().remove(id),
    {
        self.ready.push_back(id);
        proof {
            self.parked@ = self.parked@.remove(id);
            let r0 = old(self).ready@;
            assert forall|i: usize| i < self.tasks@.len() && (#[trigger] self.tasks@[i as int]) is Some implies
                self.tasks@[i as int]->0.live() && (self.ready@.contains(i) || self.parked@.contains(i)) by {
                if i == id {
                    assert(self.ready@[r0.len() as int] == i);
                } else if r0.contains(i) {
                    let k = choose|k: int| 0 <= k < r0.len() && r0[k] == i;
                    assert(self.ready@[k] == i);
                }
            }
        }
    }

    /// The number of tasks that are not done.
    pub fn outstanding(&self) -> (n: usize)
        requires
            self.wf(),
        ensures
            n == unfinished(self.tasks()),
    {
        self.outstanding
    }

    /// The output of a task, where it is done.
    pub fn output(&self, id: usize) -> (r: Option<&F::Output>)
        requires
            self.wf(),
            id < self.tasks().len(),
        ensures
            r is Some <==> self.outputs()[id as int] is Some,
            r is Some ==> *r->0 == self.outputs()[id as int]->0,
    {
        self.outputs[id].as_ref()
    }

    /// Every task that is not done is ready and never yields without waking itself.
    pub open spec fn eager(&self) -> bool {
        forall|i: usize|
            i < self.tasks().len() && (#[trigger] self.tasks()[i as int]) is Some ==> self.ready().contains(i)
                && self.tasks()[i as int]->0.wakes_itself()
    }

    spec fn steps_of(&self) -> spec_fn(int) -> int {
        |i: int|
            match self.tasks@[i] {
                Some(f) => f.steps() as int,
                None => 0,
            }
    }

    /// From `before` to here one task had its turn.
    spec fn took(&self, before: Self, t: Taken<F>) -> bool {
        &&& is_turn_of(before.tasks()[t.id as int], t.turn)
        &&& t.id == before.ready()[0]
        &&& self.tasks() == tasks_after(before.tasks(), seq![t])
        &&& self.outputs() == outputs_after(before.outputs(), seq![t])
        &&& self.ready() == ready_after(before.ready(), seq![t])
        &&& self.parked() == parked_after(before.parked(), seq![t])
    }

    /// Task `i` gave `out`, or may give it.
    spec fn may_give(&self, i: int, out: F::Output) -> bool {
        match self.tasks()[i] {
            Some(f) => f.gives(out),
            None => self.outputs()[i] == Some(out),
        }
    }

    /// What a task may give is what it might give before.
    spec fn faithful(&self, before: Self) -> bool {
        forall|i: int, out: F::Output|
            0 <= i < before.tasks().len() && before.tasks()[i] is Some && #[trigger] self.may_give(i, out)
                ==> before.tasks()[i]->0.gives(out)
    }

    /// Polls the first ready task.
    #[verifier::rlimit(40)]
    fn poll_first(&mut self) -> (turn: Ghost<Taken<F>>)
        requires
            old(self).wf(),
            old(self).ready().len() > 0,
        ensures
            final(self).wf(),
            final(self).tasks().len() == old(self).tasks().len(),
            final(self).took(*old(self), turn@),
            forall|i: int|
                0 <= i < old(self).tasks().len() && i != turn@.id ==> #[trigger] final(self).tasks()[i] == old(self).tasks()[i],
            forall|i: int|
                0 <= i < old(self).tasks().len() && i != turn@.id ==> #[trigger] final(self).outputs()[i] == old(self).outputs()[i],
            turn@.turn is Passed ==> final(self).outputs() == old(self).outputs(),
            match turn@.turn {
                Turn::Again(f) => forall|out: F::Output| #[trigger]
                    f.gives(out) ==> old(self).tasks()[turn@.id as int]->0.gives(out),
                Turn::Parked(f) => forall|out: F::Output| #[trigger]
                    f.gives(out) ==> old(self).tasks()[turn@.id as int]->0.gives(out),
                _ => true,
            },
            old(self).eager() ==> final(self).eager(),
            ({
                let n = old(self).tasks().len() as int;
                let before = sums::sum(old(self).steps_of(), n);
                let after = sums::sum(final(self).steps_of(), n);
                &&& 0 <= after <= before
                &&& final(self).ready().len() >= old(self).ready().len() ==> after < before
            }),
    {
        let ghost n = self.tasks@.len() as int;
        let ghost f0 = self.steps_of();
        let ghost t0 = self.tasks@;
        let ghost o0 = self.outputs@;
        let ghost r0 = self.ready@;
        let id: usize = match self.ready.pop_front() {
            Some(id) => id,
            None => 0,
        };
        proof {
            assert(self.ready@ =~= r0.drop_first());
            assert(r0[0] == id);
        }
        let ghost r1 = self.ready@;
        let mut slot: Option<F> = None;
        std::mem::swap(&mut slot, &mut self.tasks[id]);
        let ghost mut turn: Turn<F> = Turn::Passed;
        match slot {
            Some(fut) => {
                let mut fut = fut;
                let mut cx = Context::new();
                let r = fut.poll(&mut cx);
                let woken = cx.is_woken();
                match r {
                    Poll::Ready(out) => {
                        proof {
                            turn = Turn::Ended(out);
                            self.parked@ = self.parked@.remove(id);
                            lemma_unfinished_update(t0, id as int, None);
                        }
                        self.outputs[id] = Some(out);
                        self.outstanding = self.outstanding - 1;
                        assert(self.tasks@ =~= t0.update(id as int, None));
                        assert(self.outputs@ =~= o0.update(id as int, Some(out)));
                    },
                    Poll::Pending => {
                        proof {
                            turn = if woken {
                                Turn::Again(fut)
                            } else {
                                Turn::Parked(fut)
                            };
                            self.parked@ = if woken {
                                self.parked@.remove(id)
                            } else {
                                self.parked@.insert(id)
                            };
                            lemma_unfinished_update(t0, id as int, Some(fut));
                        }
                        let ghost left = fut;
                        self.tasks[id] = Some(fut);
                        if woken {
                            self.ready.push_back(id);
                        }
                        assert(self.tasks@ =~= t0.update(id as int, Some(left)));
                    },
                }
                proof {
                    assert forall|i: int| 0 <= i < n && i != id implies #[trigger] f0(i) == self.steps_of()(i) by {}
                    sums::sum_changes_by(f0, self.steps_of(), id as int, n);
                }
            },
            None => {
                proof {
                    assert(self.tasks@ =~= t0);
                    sums::sum_of_equals(f0, self.steps_of(), n);
                }
            },
        }
        let ghost t = Taken { id, turn };
        proof {
            assert(seq![t].drop_last() =~= Seq::<Taken<F>>::empty());
            assert(seq![t].last() == t);
            reveal_with_fuel(tasks_after, 2);
            reveal_with_fuel(outputs_after, 2);
            reveal_with_fuel(ready_after, 2);
            reveal_with_fuel(parked_after, 2);
            assert(self.took(*old(self), t));
            assert forall|i: usize| i < self.tasks@.len() && (#[trigger] self.tasks@[i as int]) is Some implies
                self.tasks@[i as int]->0.live() && (self.ready@.contains(i) || self.parked@.contains(i)) by {
                if i == id {
                    if turn is Again {
                        assert(self.ready@[r1.len() as int] == i);
                    }
                } else {
                    assert(t0[i as int] is Some);
                    if r0.contains(i) {
                        let k = choose|k: int| 0 <= k < r0.len() && r0[k] == i;
                        assert(r1[k - 1] == i);
                        assert(self.ready@[k - 1] == i);
                    }
                }
            }
            if old(self).eager() {
                assert forall|i: usize| i < self.tasks().len() && (#[trigger] self.tasks()[i as int]) is Some implies
                    self.ready().contains(i) && self.tasks()[i as int]->0.wakes_itself() by {
                    assert(old(self).tasks()[i as int] is Some);
                    if i == r0[0] {
                        assert(self.ready()[r1.len() as int] == i);
                    } else {
                        let k = choose|k: int| 0 <= k < r0.len() && r0[k] == i;
                        assert(r1[k - 1] == i);
                        assert(self.ready()[k - 1] == i);
                    }
                }
            }
            let zero = |i: int| 0int;
            assert forall|i: int| 0 <= i < n implies #[trigger] zero(i) <= self.steps_of()(i) by {}
            sums::sum_is_monotone(zero, self.steps_of(), n);
            assert forall|i: int| 0 <= i < n implies 0 <= #[trigger] zero(i) <= 0 by {}
            sums::sum_is_bounded(zero, 0, n);
            assert(n * 0 == 0);
        }
        Ghost(t)
    }

    /// From `before` to here the tasks took these turns.
    pub open spec fn ran(&self, before: Self, turns: Seq<Taken<F>>) -> bool {
        &&& took_turns(before.tasks(), before.ready(), turns)
        &&& self.tasks() == tasks_after(before.tasks(), turns)
        &&& self.outputs() == outputs_after(before.outputs(), turns)
        &&& self.ready() == ready_after(before.ready(), turns)
        &&& self.parked() == parked_after(before.parked(), turns)
    }

    /// Polls ready tasks, in order, until none is ready. A task that wakes itself goes behind
    /// the others. Returns whether all tasks are done. Where they are not, the others yielded and
    /// wait to be woken: whoever runs them puts the thread to sleep until one of them is woken or
    /// another one is spawned, and runs them again.
    pub fn run(&mut self) -> (done: bool)
        requires
            old(self).wf(),
        ensures
            final(self).wf(),
            final(self).tasks().len() == old(self).tasks().len(),
            final(self).ready().len() == 0,
            exists|turns: Seq<Taken<F>>| #[trigger] final(self).ran(*old(self), turns),
            forall|i: int|
                0 <= i < old(self).tasks().len() && (#[trigger] old(self).tasks()[i]) is None ==> final(self).tasks()[i] is None
                    && final(self).outputs()[i] == old(self).outputs()[i],
            forall|i: int|
                0 <= i < old(self).tasks().len() && (#[trigger] old(self).tasks()[i]) is Some && final(self).tasks()[i] is None
                    ==> final(self).outputs()[i] is Some && old(self).tasks()[i]->0.gives(final(self).outputs()[i]->0),
            forall|i: usize|
                i < old(self).tasks().len() && (#[trigger] final(self).tasks()[i as int]) is Some ==> final(self).parked().contains(i),
            done <==> forall|i: int|
                0 <= i < old(self).tasks().len() ==> (#[trigger] final(self).tasks()[i]) is None,
            old(self).eager() ==> done,
    {
        let ghost n = self.tasks@.len() as int;
        let ghost mut turns: Seq<Taken<F>> = Seq::empty();
        while self.ready.len() > 0
            invariant
                self.wf(),
                n == self.tasks@.len(),
                n == old(self).tasks@.len(),
                n == old(self).outputs@.len(),
                self.ran(*old(self), turns),
                forall|i: int|
                    0 <= i < n && (#[trigger] old(self).tasks()[i]) is None ==> self.tasks()[i] is None
                        && self.outputs()[i] == old(self).outputs()[i],
                self.faithful(*old(self)),
                old(self).eager() ==> self.eager(),
            decreases sums::sum(self.steps_of(), n), self.ready@.len(),
        {
            let ghost before = *self;
            let Ghost(t) = self.poll_first();
            proof {
                lemma_turn_added(old(self).tasks(), old(self).ready(), turns, t);
                reveal_with_fuel(tasks_after, 2);
                reveal_with_fuel(outputs_after, 2);
                reveal_with_fuel(ready_after, 2);
                reveal_with_fuel(parked_after, 2);
                assert(seq![t].drop_last() =~= Seq::<Taken<F>>::empty());
                assert(turns.push(t).last() == t);
                assert forall|i: int, out: F::Output|
                    0 <= i < n && old(self).tasks()[i] is Some && #[trigger] self.may_give(i, out) implies old(
                    self,
                ).tasks()[i]->0.gives(out) by {
                    assert(before.may_give(i, out));
                }
                turns = turns.push(t);
            }
        }
        proof {
            assert forall|i: int|
                0 <= i < n && (#[trigger] old(self).tasks()[i]) is Some && self.tasks()[i] is None implies self.outputs()[i] is Some
                && old(self).tasks()[i]->0.gives(self.outputs()[i]->0) by {
                assert(self.outputs@[i] is Some);
                assert(self.may_give(i, self.outputs()[i]->0));
            }
            if self.outstanding == 0 {
                lemma_unfinished_none(self.tasks@);
            } else {
                lemma_unfinished_some(self.tasks@);
                if self.eager() {
                    let i = choose|i: int| 0 <= i < self.tasks@.len() && (#[trigger] self.tasks@[i]) is Some;
                    assert(self.tasks.len() <= usize::MAX);
                    assert(self.ready().contains(i as usize));
                }
            }
        }
        self.outstanding == 0
    }
}

proof fn lemma_unfinished_some<F>(tasks: Seq<Option<F>>)
    requires
        unfinished(tasks) > 0,
    ensures
        exists|i: int| 0 <= i < tasks.len() && (#[trigger] tasks[i]) is Some,
    decreases tasks.len(),
{
    if tasks.last() is Some {
        assert(tasks[tasks.len() - 1] is Some);
    } else {
        let rest = tasks.drop_last();
        lemma_unfinished_some(rest);
        let i = choose|i: int| 0 <= i < rest.len() && (#[trigger] rest[i]) is Some;
        assert(tasks[i] is Some);
    }
}

proof fn lemma_unfinished_len<F>(tasks: Seq<Option<F>>)
    ensures
        unfinished(tasks) <= tasks.len(),
    decreases tasks.len(),
{
    if tasks.len() > 0 {
        lemma_unfinished_len(tasks.drop_last());
    }
}

impl<F: Task> Default for Executor<F> {
    fn default() -> (r: Self)
        ensures
            r.wf(),
            r.tasks() == Seq::<Option<F>>::empty(),
            r.outputs() == Seq::<Option<F::Output>>::empty(),
            r.ready() == Seq::<usize>::empty(),
            r.parked() == Set::<usize>::empty(),
    {
        Executor::new()
    }
}

/// A buffer of whole pages that starts at a page.
pub struct AlignedBuf {
    bytes: Region,
}

impl View for AlignedBuf {
    type V = Seq<u8>;

    /// The bytes of the buffer.
    closed spec fn view(&self) -> Seq<u8> {
        self.bytes@
    }
}

impl AlignedBuf {
    /// The memory of the buffer.
    pub closed spec fn region(&self) -> Region {
        self.bytes
    }

    /// The buffer starts at a page.
    pub open spec fn wf(&self) -> bool {
        self.region().wf() && self.region().aligned(mmap_log::PAGE as int)
    }

    /// A buffer of `len` bytes, rounded up to whole pages, all zero.
    pub fn new(len: usize) -> (r: Self)
        requires
            0 < len,
            len + 4095 <= isize::MAX,
        ensures
            r.wf(),
            r@ == Seq::new(mmap_log::page_rounded(len as int) as nat, |i: int| 0u8),
    {
        let n: usize = round_to_page(len);
        AlignedBuf { bytes: Region::new(n, mmap_log::PAGE) }
    }

    /// The bytes.
    pub fn as_slice(&self) -> (r: &[u8])
        requires
            self.wf(),
        ensures
            r@ == self@,
    {
        self.bytes.as_slice()
    }

    /// Copies `src` to the front of the buffer.
    fn fill(&mut self, src: &[u8])
        requires
            old(self).wf(),
            src@.len() <= old(self)@.len(),
        ensures
            final(self).wf(),
            final(self)@ == src@ + old(self)@.skip(src@.len() as int),
    {
        let mut i: usize = 0;
        while i < src.len()
            invariant
                i <= src@.len() <= self.bytes@.len(),
                self.wf(),
                self.bytes@.len() == old(self).bytes@.len(),
                forall|k: int| 0 <= k < i ==> self.bytes@[k] == src@[k],
                forall|k: int| i <= k < self.bytes@.len() ==> self.bytes@[k] == old(self).bytes@[k],
            decreases src@.len() - i,
        {
            self.bytes.set(i, src[i]);
            i += 1;
        }
        assert(self@ =~= src@ + old(self)@.skip(src@.len() as int));
    }
}

/// A read of `source` into a page-aligned buffer. It yields once, as a read that is submitted
/// and then completed does.
pub struct DirectIoRead {
    buf: AlignedBuf,
    source: Vec<u8>,
    submitted: bool,
}

/// `source` at the front of a buffer of zeros of `len` bytes.
pub open spec fn padded(source: Seq<u8>, len: int) -> Seq<u8> {
    source + Seq::new((len - source.len()) as nat, |i: int| 0u8)
}

impl DirectIoRead {
    /// What is read.
    pub closed spec fn source(&self) -> Seq<u8> {
        self.source@
    }

    /// The read was submitted.
    pub closed spec fn submitted(&self) -> bool {
        self.submitted
    }

    /// The length of the buffer.
    pub closed spec fn buf_len(&self) -> int {
        self.buf@.len() as int
    }

    spec fn fits(&self) -> bool {
        &&& self.buf.wf()
        &&& self.source@.len() <= self.buf@.len()
        &&& self.buf@ == Seq::new(self.buf@.len(), |i: int| 0u8)
    }

    /// A read into a buffer of `buf_len` bytes, or of as many as there are to read where those
    /// are more, rounded up to whole pages.
    pub fn new(source: Vec<u8>, buf_len: usize) -> (r: Self)
        requires
            0 < source@.len() || 0 < buf_len,
            source@.len() + 4095 <= isize::MAX,
            buf_len + 4095 <= isize::MAX,
        ensures
            r.live(),
            r.source() == source@,
            !r.submitted(),
            r.buf_len() == mmap_log::page_rounded(if buf_len < source@.len() {
                source@.len() as int
            } else {
                buf_len as int
            }),
    {
        let len: usize = if buf_len < source.len() {
            source.len()
        } else {
            buf_len
        };
        DirectIoRead { buf: AlignedBuf::new(len), source, submitted: false }
    }
}

impl Task for DirectIoRead {
    type Output = AlignedBuf;

    closed spec fn live(&self) -> bool {
        self.fits()
    }

    open spec fn steps(&self) -> nat {
        if self.submitted() {
            0
        } else {
            1
        }
    }

    open spec fn wakes_itself(&self) -> bool {
        true
    }

    open spec fn gives(&self, out: AlignedBuf) -> bool {
        out.wf() && out@ == padded(self.source(), self.buf_len())
    }

    open spec fn yields(&self, next: Self, woken: bool) -> bool {
        &&& !self.submitted()
        &&& next.submitted()
        &&& next.source() == self.source()
        &&& next.buf_len() == self.buf_len()
        &&& woken
    }

    fn poll(&mut self, cx: &mut Context) -> (r: Poll<AlignedBuf>)
        ensures
            r is Pending <==> !old(self).submitted(),
            r is Pending ==> final(self).submitted() && final(self).source() == old(self).source() 
                && final(self).buf_len() == old(self).buf_len(),
    {
        if !self.submitted {
            self.submitted = true;
            cx.wake_by_ref();
            return Poll::Pending;
        }
        let mut out = AlignedBuf::new(mmap_log::PAGE);
        std::mem::swap(&mut out, &mut self.buf);
        out.fill(self.source.as_slice());
        assert(out@ =~= padded(old(self).source@, old(self).buf@.len() as int));
        Poll::Ready(out)
    }
}

proof fn lemma_untouched<F: Task>(tasks: Seq<Option<F>>, outputs: Seq<Option<F::Output>>, parked: Set<usize>, turns: Seq<Taken<F>>, from: int, to: int, i: usize)
    requires
        0 <= from <= to <= turns.len(),
        i < tasks.len(),
        i < outputs.len(),
        forall|k: int| 0 <= k < turns.len() ==> (#[trigger] turns[k]).id < tasks.len() && turns[k].id < outputs.len(),
        forall|k: int| from <= k < to ==> (#[trigger] turns[k]).id != i,
    ensures
        tasks_after(tasks, turns.take(to))[i as int] == tasks_after(tasks, turns.take(from))[i as int],
        outputs_after(outputs, turns.take(to))[i as int] == outputs_after(outputs, turns.take(from))[i as int],
        parked_after(parked, turns.take(to)).contains(i) == parked_after(parked, turns.take(from)).contains(i),
        tasks_after(tasks, turns.take(to)).len() == tasks.len(),
        outputs_after(outputs, turns.take(to)).len() == outputs.len(),
    decreases to,
{
    if to > 0 {
        assert(turns.take(to).drop_last() =~= turns.take(to - 1));
        assert(turns.take(to).last() == turns[to - 1]);
        if from < to {
            lemma_untouched(tasks, outputs, parked, turns, from, to - 1, i);
        } else {
            lemma_untouched(tasks, outputs, parked, turns, to - 1, to - 1, i);
        }
    } else {
        assert(turns.take(0).len() == 0);
    }
}

impl<F: Task> Executor<F> {
    proof fn lemma_ran(&self, before: Self, turns: Seq<Taken<F>>)
        requires
            before.wf(),
            self.ran(before, turns),
        ensures
            forall|k: int|
                0 <= k < turns.len() ==> (#[trigger] turns[k]).id < before.tasks().len() && turns[k].id
                    < before.outputs().len(),
    {
        before.lemma_wf();
        assert forall|k: int| 0 <= k < turns.len() implies (#[trigger] turns[k]).id < before.tasks().len() && turns[k].id
            < before.outputs().len() by {
            lemma_in_range(before.tasks(), before.ready(), turns, k + 1);
        }
    }

    /// The first turn of a task is a poll of the task as it was, unless it was done: then it is
    /// passed over.
    pub proof fn first_turns_poll(&self, before: Self, turns: Seq<Taken<F>>, k: int)
        requires
            before.wf(),
            self.ran(before, turns),
            0 <= k < turns.len(),
            forall|j: int| 0 <= j < k ==> (#[trigger] turns[j]).id != turns[k].id,
        ensures
            turns[k].id < before.tasks().len(),
            before.tasks()[turns[k].id as int] is None <==> turns[k].turn is Passed,
            turns[k].turn is Ended ==> before.tasks()[turns[k].id as int]->0.gives(turns[k].turn->Ended_0),
            turns[k].turn is Again ==> before.tasks()[turns[k].id as int]->0.yields(turns[k].turn->Again_0, true),
            turns[k].turn is Parked ==> before.tasks()[turns[k].id as int]->0.yields(turns[k].turn->Parked_0, false),
    {
        before.lemma_wf();
        self.lemma_ran(before, turns);
        lemma_untouched(before.tasks(), before.outputs(), before.parked(), turns, 0, k, turns[k].id);
        assert(turns.take(0).len() == 0);
        assert(in_turn(before.tasks(), before.ready(), turns, k));
    }

    /// A later turn of a task is a poll of the task as the turn before it left it, unless that one
    /// ended it or passed it over.
    pub proof fn later_turns_poll(&self, before: Self, turns: Seq<Taken<F>>, j: int, k: int)
        requires
            before.wf(),
            self.ran(before, turns),
            0 <= j < k < turns.len(),
            turns[j].id == turns[k].id,
            forall|m: int| j < m < k ==> (#[trigger] turns[m]).id != turns[k].id,
        ensures
            turns[j].turn is Ended || turns[j].turn is Passed <==> turns[k].turn is Passed,
            ({
                let state = match turns[j].turn {
                    Turn::Again(f) => Some(f),
                    Turn::Parked(f) => Some(f),
                    _ => None,
                };
                &&& turns[k].turn is Ended ==> state is Some && state->0.gives(turns[k].turn->Ended_0)
                &&& turns[k].turn is Again ==> state is Some && state->0.yields(turns[k].turn->Again_0, true)
                &&& turns[k].turn is Parked ==> state is Some && state->0.yields(turns[k].turn->Parked_0, false)
            }),
    {
        before.lemma_wf();
        self.lemma_ran(before, turns);
        lemma_untouched(before.tasks(), before.outputs(), before.parked(), turns, j + 1, k, turns[k].id);
        lemma_untouched(before.tasks(), before.outputs(), before.parked(), turns, j, j, turns[k].id);
        assert(turns.take(j + 1).drop_last() =~= turns.take(j));
        assert(turns.take(j + 1).last() == turns[j]);
        assert(in_turn(before.tasks(), before.ready(), turns, j));
        assert(in_turn(before.tasks(), before.ready(), turns, k));
    }

    /// A task is in the end as its last turn left it: gone, with its output kept, where that ended
    /// it, and parked where it yielded without having been woken. A task that had no turn is as it
    /// was.
    pub proof fn last_turns_decide(&self, before: Self, turns: Seq<Taken<F>>, k: int, i: usize)
        requires
            before.wf(),
            self.ran(before, turns),
            i < before.tasks().len(),
            -1 <= k < turns.len(),
            k >= 0 ==> turns[k].id == i,
            forall|m: int| k < m < turns.len() ==> (#[trigger] turns[m]).id != i,
        ensures
            k < 0 ==> self.tasks()[i as int] == before.tasks()[i as int] && self.outputs()[i as int]
                == before.outputs()[i as int] && self.parked().contains(i) == before.parked().contains(i),
            k >= 0 && turns[k].turn is Ended ==> self.tasks()[i as int] is None && self.outputs()[i as int] == Some(
                turns[k].turn->Ended_0,
            ) && !self.parked().contains(i),
            k >= 0 && turns[k].turn is Again ==> self.tasks()[i as int] == Some(turns[k].turn->Again_0),
            k >= 0 && turns[k].turn is Parked ==> self.tasks()[i as int] == Some(turns[k].turn->Parked_0)
                && self.parked().contains(i),
            k >= 0 && turns[k].turn is Passed ==> self.tasks()[i as int] is None,
            self.tasks().len() == before.tasks().len(),
            self.outputs().len() == before.outputs().len(),
    {
        before.lemma_wf();
        self.lemma_ran(before, turns);
        let n = turns.len() as int;
        lemma_untouched(before.tasks(), before.outputs(), before.parked(), turns, k + 1, n, i);
        assert(turns.take(n) =~= turns);
        if k >= 0 {
            lemma_untouched(before.tasks(), before.outputs(), before.parked(), turns, k, k, i);
            assert(turns.take(k + 1).drop_last() =~= turns.take(k));
            assert(turns.take(k + 1).last() == turns[k]);
            assert(in_turn(before.tasks(), before.ready(), turns, k));
        } else {
            assert(turns.take(0).len() == 0);
        }
    }

    /// The tasks have their turns in the order in which they came to wait for one: first those that
    /// were ready, then those that woke themselves, each behind those that waited before it. None
    /// that waits is left out.
    pub proof fn turns_are_first_come_first_served(&self, before: Self, turns: Seq<Taken<F>>)
        requires
            before.wf(),
            self.ran(before, turns),
        ensures
            before.ready() + turns.filter(|t: Taken<F>| t.turn is Again).map_values(|t: Taken<F>| t.id)
                == turns.map_values(|t: Taken<F>| t.id) + self.ready(),
    {
        lemma_queue(before.tasks(), before.ready(), turns, turns.len() as int);
        assert(turns.take(turns.len() as int) =~= turns);
    }
}

proof fn lemma_queue<F: Task>(tasks: Seq<Option<F>>, ready: Seq<usize>, turns: Seq<Taken<F>>, k: int)
    requires
        took_turns(tasks, ready, turns),
        0 <= k <= turns.len(),
    ensures
        ready + turns.take(k).filter(|t: Taken<F>| t.turn is Again).map_values(|t: Taken<F>| t.id) == turns.take(
            k,
        ).map_values(|t: Taken<F>| t.id) + ready_after(ready, turns.take(k)),
    decreases k,
{
    let again = |t: Taken<F>| t.turn is Again;
    let id = |t: Taken<F>| t.id;
    reveal(Seq::filter);
    if k == 0 {
        assert(turns.take(0) =~= Seq::<Taken<F>>::empty());
        assert(ready + turns.take(0).filter(again).map_values(id) =~= turns.take(0).map_values(id) + ready_after(
            ready,
            turns.take(0),
        ));
    } else {
        lemma_queue(tasks, ready, turns, k - 1);
        let front = turns.take(k - 1);
        let more = turns.take(k);
        assert(more.drop_last() =~= front);
        assert(more.last() == turns[k - 1]);
        assert(in_turn(tasks, ready, turns, k - 1));
        let waiting = ready_after(ready, front);
        let woken = front.filter(again).map_values(id);
        assert(more.map_values(id) =~= front.map_values(id).push(turns[k - 1].id));
        assert(front.map_values(id) + waiting =~= front.map_values(id).push(waiting[0]) + waiting.drop_first());
        if again(turns[k - 1]) {
            assert(more.filter(again) == front.filter(again).push(turns[k - 1]));
            assert(more.filter(again).map_values(id) =~= woken.push(turns[k - 1].id));
            assert(ready + more.filter(again).map_values(id) =~= (ready + woken).push(turns[k - 1].id));
        } else {
            assert(more.filter(again) == front.filter(again));
        }
        assert(ready + more.filter(again).map_values(id) =~= more.map_values(id) + ready_after(ready, more));
    }
}

/// A run of one task is a row of polls, each of which but the last yielded and was woken; the last
/// gave the output, or yielded without having been woken and left the task that is handed back.
pub proof fn blocking_polls_to_the_end<T: Task>(fut: T, states: Seq<T>, r: Driven<T>, k: int)
    requires
        comes_to(fut, states, r),
    ensures
        states.len() > 0,
        states[0] == fut,
        0 <= k < states.len() - 1 ==> states[k].yields(states[k + 1], true),
        r is Done ==> states[states.len() - 1].gives(r->Done_0),
        r is Asleep ==> states[states.len() - 1].yields(r->Asleep_0, false),
{
}

/// A read puts the source at the front of its buffer and leaves zeros behind it, however long the
/// source is.
pub proof fn buffers_hold_what_was_read(source: Seq<u8>, len: int, i: int)
    requires
        source.len() <= len,
        0 <= i < len,
    ensures
        padded(source, len).len() == len,
        i < source.len() ==> padded(source, len)[i] == source[i],
        i >= source.len() ==> padded(source, len)[i] == 0,
{
}

/// A read that was not submitted yields once, woken, and the next poll gives the buffer.
pub proof fn reads_yield_once_and_give(r: DirectIoRead, next: DirectIoRead, woken: bool, out: AlignedBuf)
    ensures
        r.yields(next, woken) ==> !r.submitted() && next.submitted() && next.source() == r.source() && next.buf_len()
            == r.buf_len() && woken,
        r.gives(out) ==> out.wf() && out@ == padded(r.source(), r.buf_len()),
        r.wakes_itself(),
{
}

/// The tasks that are not done are counted one by one.
pub proof fn unfinished_tasks_are_counted<F>(tasks: Seq<Option<F>>, task: Option<F>)
    ensures
        unfinished(Seq::<Option<F>>::empty()) == 0,
        task is Some ==> unfinished(tasks.push(task)) == unfinished(tasks) + 1,
        task is None ==> unfinished(tasks.push(task)) == unfinished(tasks),
{
    assert(tasks.push(task).drop_last() =~= tasks);
}

impl<F: Task> Executor<F> {
    /// Tasks that all wait for a turn and wake themselves are all run to their ends: this is what
    /// [`Executor::run`] promises of an executor that is eager.
    pub proof fn ready_tasks_that_wake_themselves_are_eager(&self)
        ensures
            self.eager() <==> forall|i: usize|
                i < self.tasks().len() && (#[trigger] self.tasks()[i as int]) is Some ==> self.ready().contains(i)
                    && self.tasks()[i as int]->0.wakes_itself(),
    {
    }
}

/// A buffer starts at a page, so that a device can take it as it lies.
pub proof fn read_buffers_start_at_pages(buf: AlignedBuf)
    requires
        buf.wf(),
        buf@.len() + 4095 <= isize::MAX,
    ensures
        buf.region().addr() % 4096 == 0,
        buf.region()@ == buf@,
{
    region::aligned_bytes_start_at_multiples(buf.region(), 4096);
}

} // verus!
