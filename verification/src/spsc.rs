//! A bounded queue between one producer and one consumer.
//!
//! The queue is a ring of slots with two cursors: the producer advances the tail, the consumer
//! the head. The number of slots is a power of two, so that a cursor's slot is a mask away, and
//! the cursors run on past the end of their range and wrap. Each end of the queue is a token
//! that cannot be copied.

use vstd::prelude::*;
use core::marker::PhantomData;
use crate::pow2;

verus! {

/// The slots and the cursors.
pub struct Ring<T> {
    buf: Vec<Option<T>>,
    mask: usize,
    tail: usize,
    head: usize,
    pushed: Ghost<Seq<T>>,
    popped: Ghost<Seq<T>>,
}

/// The right to put items in. There is one for each queue.
pub struct Producer<T> {
    item: PhantomData<T>,
}

/// The right to take items out. There is one for each queue.
pub struct Consumer<T> {
    item: PhantomData<T>,
}

/// The slot that lies `i` slots after slot `at` in a ring of `n`.
spec fn slot_after(at: int, i: int, n: int) -> int {
    if at + i < n {
        at + i
    } else {
        at + i - n
    }
}

impl<T> View for Ring<T> {
    type V = Seq<T>;

    /// What is queued, the oldest first.
    closed spec fn view(&self) -> Seq<T> {
        Seq::new(self.count(), |i: int| self.buf@[self.slot(i)]->0)
    }
}

impl<T> Ring<T> {
    spec fn count(&self) -> nat {
        self.tail.wrapping_sub(self.head) as nat
    }

    spec fn slot(&self, i: int) -> int {
        slot_after(self.head as int % self.buf@.len() as int, i, self.buf@.len() as int)
    }

    /// The number of slots.
    pub closed spec fn capacity(&self) -> nat {
        self.buf@.len()
    }

    /// Everything that was ever put in, the oldest first.
    pub closed spec fn pushed(&self) -> Seq<T> {
        self.pushed@
    }

    /// Everything that was ever taken out, the oldest first.
    pub closed spec fn popped(&self) -> Seq<T> {
        self.popped@
    }

    /// The slots from head to tail are full and the others are empty.
    pub closed spec fn wf(&self) -> bool {
        &&& pow2::is_pow2(self.buf@.len() as int)
        &&& 2 <= self.buf@.len() <= pow2::max_pow2()
        &&& self.mask == self.buf@.len() - 1
        &&& self.count() <= self.buf@.len()
        &&& self.tail as int % self.buf@.len() as int == self.slot(self.count() as int)
        &&& forall|i: int|
            0 <= i < self.buf@.len() ==> (#[trigger] self.buf@[self.slot(i)] is Some <==> i < self.count())
        &&& self.popped@ + self@ == self.pushed@
    }

    /// First in, first out, with nothing lost and nothing twice: what was taken out, followed
    /// by what is queued, is what was put in.
    pub proof fn fifo(&self)
        requires
            self.wf(),
        ensures
            self.popped() + self@ == self.pushed(),
            self@.len() <= self.capacity(),
            pow2::is_pow2(self.capacity() as int),
    {
    }

    fn index(&self, cursor: usize) -> (i: usize)
        requires
            self.wf(),
        ensures
            i == cursor as int % self.buf@.len() as int,
            i < self.buf@.len(),
    {
        proof {
            assert(self.buf.len() <= usize::MAX);
            pow2::mask_is_remainder(cursor as u64, self.buf@.len() as u64);
        }
        ((cursor as u64) & (self.mask as u64)) as usize
    }

    /// The number of items that are queued.
    pub fn len(&self) -> (n: usize)
        requires
            self.wf(),
        ensures
            n == self@.len(),
    {
        self.tail.wrapping_sub(self.head)
    }
}

/// Makes a queue with `capacity` slots, rounded up to a power of two and to at least two.
pub fn channel<T>(capacity: usize) -> (r: (Ring<T>, Producer<T>, Consumer<T>))
    requires
        capacity <= pow2::max_pow2(),
    ensures
        r.0.wf(),
        pow2::is_next_pow2(r.0.capacity() as int, if capacity < 2 {
            2
        } else {
            capacity as int
        }),
        r.0@ == Seq::<T>::empty(),
        r.0.pushed() == Seq::<T>::empty(),
        r.0.popped() == Seq::<T>::empty(),
{
    let wanted: usize = if capacity < 2 {
        2
    } else {
        capacity
    };
    let n: usize = pow2::next_pow2(wanted);
    let mut buf: Vec<Option<T>> = Vec::with_capacity(n);
    while buf.len() < n
        invariant
            buf@.len() <= n,
            forall|i: int| 0 <= i < buf@.len() ==> (#[trigger] buf@[i]) is None,
        decreases n - buf@.len(),
    {
        buf.push(None);
    }
    let ring = Ring {
        buf,
        mask: n - 1,
        tail: 0,
        head: 0,
        pushed: Ghost(Seq::empty()),
        popped: Ghost(Seq::empty()),
    };
    proof {
        vstd::arithmetic::div_mod::lemma_small_mod(0, n as nat);
        assert(ring@ =~= Seq::<T>::empty());
    }
    (ring, Producer { item: PhantomData }, Consumer { item: PhantomData })
}

impl<T> Producer<T> {
    /// Puts `value` in, or hands it back where the queue is full.
    pub fn push(&self, ring: &mut Ring<T>, value: T) -> (r: Result<(), T>)
        requires
            old(ring).wf(),
        ensures
            final(ring).wf(),
            final(ring).capacity() == old(ring).capacity(),
            final(ring).popped() == old(ring).popped(),
            r is Ok <==> old(ring)@.len() < old(ring).capacity(),
            r is Ok ==> final(ring)@ == old(ring)@.push(value) && final(ring).pushed() == old(ring).pushed().push(value),
            r is Err ==> r->Err_0 == value && *final(ring) == *old(ring),
    {
        if ring.tail.wrapping_sub(ring.head) == ring.buf.len() {
            return Err(value);
        }
        let at: usize = ring.index(ring.tail);
        proof {
            pow2::wrapping_keeps_remainders(ring.tail, ring.buf.len());
        }
        ring.buf[at] = Some(value);
        ring.tail = ring.tail.wrapping_add(1);
        proof {
            ring.pushed@ = ring.pushed@.push(value);
            let n = ring.buf@.len() as int;
            let c = old(ring).count() as int;
            assert(ring.count() == c + 1);
            assert forall|i: int| 0 <= i < n && i != c implies #[trigger] ring.buf@[ring.slot(i)] == old(ring).buf@[old(
                ring,
            ).slot(i)] by {
                assert(ring.slot(i) == old(ring).slot(i));
                assert(old(ring).slot(i) != old(ring).slot(c));
            }
            assert(ring.slot(c) == at);
            assert forall|i: int| 0 <= i < n implies (#[trigger] ring.buf@[ring.slot(i)] is Some <==> i < ring.count()) by {
                if i != c {
                    assert(old(ring).buf@[old(ring).slot(i)] is Some <==> i < c);
                }
            }
            assert(ring@ =~= old(ring)@.push(value));
            assert(ring.popped@ + ring@ =~= ring.pushed@);
        }
        Ok(())
    }
}

impl<T> Consumer<T> {
    /// Takes the oldest item out; `None` where there is none.
    pub fn pop(&self, ring: &mut Ring<T>) -> (r: Option<T>)
        requires
            old(ring).wf(),
        ensures
            final(ring).wf(),
            final(ring).capacity() == old(ring).capacity(),
            final(ring).pushed() == old(ring).pushed(),
            r is None <==> old(ring)@.len() == 0,
            r is None ==> *final(ring) == *old(ring),
            r is Some ==> r->0 == old(ring)@[0] && final(ring)@ == old(ring)@.drop_first() && final(ring).popped()
                == old(ring).popped().push(r->0),
    {
        if ring.head == ring.tail {
            return None;
        }
        let at: usize = ring.index(ring.head);
        proof {
            pow2::wrapping_keeps_remainders(ring.head, ring.buf.len());
            assert(ring.slot(0) == at);
            assert(ring.buf@[ring.slot(0)] is Some);
        }
        let mut taken: Option<T> = None;
        std::mem::swap(&mut ring.buf[at], &mut taken);
        ring.head = ring.head.wrapping_add(1);
        proof {
            ring.popped@ = ring.popped@.push(taken->0);
            let n = ring.buf@.len() as int;
            let c = old(ring).count() as int;
            assert(ring.count() == c - 1);
            assert forall|i: int| 0 <= i < n - 1 implies #[trigger] ring.buf@[ring.slot(i)] == old(ring).buf@[old(
                ring,
            ).slot(i + 1)] by {
                assert(ring.slot(i) == old(ring).slot(i + 1));
                assert(old(ring).slot(i + 1) != at);
            }
            assert(ring.slot(n - 1) == at);
            assert forall|i: int| 0 <= i < n implies (#[trigger] ring.buf@[ring.slot(i)] is Some <==> i < ring.count()) by {
                if i < n - 1 {
                    assert(old(ring).buf@[old(ring).slot(i + 1)] is Some <==> i + 1 < c);
                }
            }
            assert(ring@ =~= old(ring)@.drop_first());
            assert(ring.popped@ + ring@ =~= old(ring).popped@ + old(ring)@);
        }
        taken
    }

    /// Takes out up to `max` items, the oldest first.
    pub fn drain(&self, ring: &mut Ring<T>, max: usize) -> (r: Vec<T>)
        requires
            old(ring).wf(),
        ensures
            final(ring).wf(),
            final(ring).capacity() == old(ring).capacity(),
            final(ring).pushed() == old(ring).pushed(),
            final(ring).popped() == old(ring).popped() + r@,
            r@.len() == (if max < old(ring)@.len() {
                max as int
            } else {
                old(ring)@.len() as int
            }),
            r@ == old(ring)@.take(r@.len() as int),
            final(ring)@ == old(ring)@.skip(r@.len() as int),
    {
        let mut r: Vec<T> = Vec::new();
        let mut done = false;
        assert(ring@ =~= ring@.skip(0));
        assert(ring.popped() =~= ring.popped() + r@);
        while r.len() < max && !done
            invariant
                ring.wf(),
                ring.capacity() == old(ring).capacity(),
                ring.pushed() == old(ring).pushed(),
                ring.popped() == old(ring).popped() + r@,
                r@.len() <= max,
                r@.len() <= old(ring)@.len(),
                r@ == old(ring)@.take(r@.len() as int),
                ring@ == old(ring)@.skip(r@.len() as int),
                done ==> ring@.len() == 0,
            decreases max - r@.len() + (if done {
                0int
            } else {
                1
            }),
        {
            match self.pop(ring) {
                Some(v) => {
                    let ghost before = r@;
                    r.push(v);
                    proof {
                        assert(ring.popped() =~= old(ring).popped() + r@);
                        assert(r@ =~= old(ring)@.take(r@.len() as int));
                        assert(ring@ =~= old(ring)@.skip(r@.len() as int));
                    }
                },
                None => {
                    done = true;
                },
            }
        }
        r
    }
}

} // verus!
