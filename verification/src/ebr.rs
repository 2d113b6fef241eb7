//! Epoch-based reclamation: deferred frees without a garbage collector.
//!
//! A reader *pins* itself before it touches shared cells: it publishes the global
//! epoch into its participant slot and holds a [`Guard`]. A cell that has been
//! unlinked is *retired*: it goes into a bag, tagged with the epoch of that moment.
//! The epoch advances only when every pinned participant has published the current
//! one, and a retired cell is handed back for freeing only when the epoch has moved
//! two steps past its tag. So no cell is freed while a guard that could have seen it
//! is held.
//!
//! A [`Domain`] is generic in what it defers: `T` names the thing to free, and
//! collection hands the named things back to the owner of the storage.

use vstd::prelude::*;
use vstd::multiset::Multiset;
use std::marker::PhantomData;
use std::rc::Rc;

verus! {

/// Participant slots of a domain: the most threads that can ever take part.
pub const N_SLOTS: usize = 4096;

/// Bags of retired garbage; an item goes into the bag of its epoch modulo this.
pub const N_BAGS: usize = 3;

/// A slot that no thread has claimed.
pub const FREE: u64 = 0xffff_ffff_ffff_ffff;

/// A claimed slot whose thread is not pinned. Epochs stay below this value.
pub const UNPINNED: u64 = 0x4000_0000_0000_0000;

/// One collection is attempted in this many unpins of a thread.
pub const COLLECT_INTERVAL: u32 = 128;

/// Something retired, with the epoch at which that happened.
pub struct Retired<T> {
    pub item: T,
    pub epoch: u64,
}

/// What a participant slot says of its thread.
pub enum SlotState {
    /// Claimed by no thread.
    Free,
    /// Claimed, not pinned.
    Idle,
    /// Pinned since `epoch`, with `depth` guards outstanding.
    Pinned { epoch: nat, depth: nat },
}

/// The state of a domain: epoch, slots and bags.
#[verifier::reject_recursive_types(T)]
pub struct DomainView<T> {
    pub epoch: nat,
    pub slots: Seq<SlotState>,
    pub bags: Seq<Seq<Retired<T>>>,
}

/// Whether garbage retired at `epoch` may be freed when the epoch is `now`.
pub open spec fn is_eligible(epoch: int, now: int) -> bool {
    epoch + 2 <= now
}

/// The part of a bag that stays at epoch `now`.
pub open spec fn bag_kept<T>(bag: Seq<Retired<T>>, now: int) -> Seq<Retired<T>> {
    bag.filter(|r: Retired<T>| !is_eligible(r.epoch as int, now))
}

/// The part of a bag that is freed at epoch `now`, last retired first.
pub open spec fn bag_freed<T>(bag: Seq<Retired<T>>, now: int) -> Seq<Retired<T>> {
    bag.filter(|r: Retired<T>| is_eligible(r.epoch as int, now)).reverse()
}

impl<T> DomainView<T> {
    /// Slot `i` is pinned.
    pub open spec fn pinned(self, i: int) -> bool {
        0 <= i < self.slots.len() && self.slots[i] is Pinned
    }

    /// The epoch that slot `i` has published.
    pub open spec fn pin_epoch(self, i: int) -> nat {
        self.slots[i]->epoch
    }

    /// The guards outstanding on slot `i`.
    pub open spec fn depth(self, i: int) -> nat {
        if self.pinned(i) {
            self.slots[i]->depth
        } else {
            0
        }
    }

    /// Slot `i` belongs to some thread.
    pub open spec fn claimed(self, i: int) -> bool {
        0 <= i < self.slots.len() && !(self.slots[i] is Free)
    }

    /// Every pinned slot has published the current epoch or the one before it, and
    /// no garbage is tagged with an epoch still to come.
    pub open spec fn wf(self) -> bool {
        &&& self.slots.len() == N_SLOTS
        &&& self.bags.len() == N_BAGS
        &&& self.epoch < UNPINNED
        &&& forall|i: int|
            #[trigger] self.pinned(i) ==> self.pin_epoch(i) <= self.epoch <= self.pin_epoch(i) + 1
                && self.depth(i) > 0
        &&& forall|b: int, j: int|
            0 <= b < N_BAGS && 0 <= j < self.bags[b].len() ==> (#[trigger] self.bags[b][j]).epoch
                <= self.epoch && self.bags[b][j].epoch % 3 == b
    }

    /// Everything retired and not yet freed.
    pub open spec fn records(self) -> Multiset<Retired<T>> {
        self.bags[0].to_multiset().add(self.bags[1].to_multiset()).add(self.bags[2].to_multiset())
    }

    /// Slot `i` claimed by a thread.
    pub open spec fn claim(self, i: int) -> Self {
        DomainView { slots: self.slots.update(i, SlotState::Idle), ..self }
    }

    /// One more guard on slot `i`. The first one publishes the current epoch.
    pub open spec fn pin(self, i: int) -> Self {
        DomainView {
            slots: self.slots.update(
                i,
                match self.slots[i] {
                    SlotState::Pinned { epoch, depth } => SlotState::Pinned { epoch, depth: depth + 1 },
                    _ => SlotState::Pinned { epoch: self.epoch, depth: 1 },
                },
            ),
            ..self
        }
    }

    /// One guard less on slot `i`. With the last one the slot is unpinned.
    pub open spec fn unpin(self, i: int) -> Self {
        DomainView {
            slots: self.slots.update(
                i,
                if self.depth(i) == 1 {
                    SlotState::Idle
                } else {
                    SlotState::Pinned { epoch: self.pin_epoch(i), depth: (self.depth(i) - 1) as nat }
                },
            ),
            ..self
        }
    }

    /// `item` retired at the current epoch.
    pub open spec fn retire(self, item: T) -> Self {
        let b = (self.epoch % 3) as int;
        DomainView {
            bags: self.bags.update(b, self.bags[b].push(Retired { item, epoch: self.epoch as u64 })),
            ..self
        }
    }

    /// Every pinned slot has published the current epoch.
    pub open spec fn all_current(self) -> bool {
        forall|i: int| #[trigger] self.pinned(i) ==> self.pin_epoch(i) == self.epoch
    }

    /// The epoch after a collection attempt. It stops short of the value that marks
    /// an unpinned slot.
    pub open spec fn next_epoch(self) -> nat {
        if self.all_current() && self.epoch + 1 < UNPINNED {
            self.epoch + 1
        } else {
            self.epoch
        }
    }

    /// The state after a collection attempt.
    pub open spec fn collect(self) -> Self {
        let now = self.next_epoch();
        DomainView {
            epoch: now,
            bags: Seq::new(N_BAGS as nat, |b: int| bag_kept(self.bags[b], now as int)),
            ..self
        }
    }

    /// What a collection attempt frees, in order.
    pub open spec fn collected(self) -> Seq<Retired<T>> {
        let now = self.next_epoch() as int;
        bag_freed(self.bags[0], now) + bag_freed(self.bags[1], now) + bag_freed(self.bags[2], now)
    }

    /// One guard less on slot `i`, given up by a thread whose count of unpins is `tick` by now.
    /// One unpin in [`COLLECT_INTERVAL`] is followed by a collection attempt.
    pub open spec fn release(self, i: int, tick: u32) -> Self {
        if tick % COLLECT_INTERVAL == 0 {
            self.unpin(i).collect()
        } else {
            self.unpin(i)
        }
    }

    /// What is freed when slot `i` is released at `tick`, in order.
    pub open spec fn released(self, i: int, tick: u32) -> Seq<Retired<T>> {
        if tick % COLLECT_INTERVAL == 0 {
            self.unpin(i).collected()
        } else {
            Seq::empty()
        }
    }

    /// Slot `i` keeps `r` from being freed: it is pinned, and since no later than the
    /// epoch at which `r` was retired.
    pub open spec fn protects(self, i: int, r: Retired<T>) -> bool {
        self.pinned(i) && self.pin_epoch(i) <= r.epoch
    }
}

/// The count of unpins after one more.
pub open spec fn next_tick(tick: u32) -> u32 {
    if tick == u32::MAX {
        0
    } else {
        (tick + 1) as u32
    }
}

/// A thread's registration with a domain: the slot it has claimed, once it has one,
/// and how often it has unpinned.
pub struct LocalSlot {
    slot: Option<usize>,
    tick: u32,
}

impl LocalSlot {
    /// The slot claimed, if any.
    pub closed spec fn slot(&self) -> Option<usize> {
        self.slot
    }

    /// Unpins so far, modulo the width of the counter.
    pub closed spec fn tick(&self) -> u32 {
        self.tick
    }

    /// A thread that has not registered yet.
    pub fn new() -> (r: Self)
        ensures
            r.slot() is None,
            r.tick() == 0,
    {
        LocalSlot { slot: None, tick: 0 }
    }

    /// The slot named, if any, is claimed in `domain`.
    pub open spec fn registered<T>(&self, domain: DomainView<T>) -> bool {
        self.slot() is Some ==> domain.claimed(self.slot()->0 as int)
    }
}

/// Proof of a pin. While it is outstanding nothing its holder could have seen is freed.
///
/// A guard stays on the thread that pinned: it is not `Send`.
pub struct Guard {
    idx: usize,
    thread: PhantomData<Rc<()>>,
}

impl Guard {
    /// The pinned slot.
    pub closed spec fn slot(&self) -> int {
        self.idx as int
    }
}

/// The reclamation domain.
pub struct Domain<T> {
    epoch: u64,
    slots: Vec<u64>,
    depth: Vec<usize>,
    bags: Vec<Vec<Retired<T>>>,
    hwm: usize,
}

spec fn slot_state(v: u64, depth: usize) -> SlotState {
    if v == FREE {
        SlotState::Free
    } else if v == UNPINNED {
        SlotState::Idle
    } else {
        SlotState::Pinned { epoch: v as nat, depth: depth as nat }
    }
}

impl<T> View for Domain<T> {
    type V = DomainView<T>;

    closed spec fn view(&self) -> DomainView<T> {
        DomainView {
            epoch: self.epoch as nat,
            slots: Seq::new(self.slots@.len(), |i: int| slot_state(self.slots@[i], self.depth@[i])),
            bags: Seq::new(self.bags@.len(), |b: int| self.bags@[b]@),
        }
    }
}

impl<T> Domain<T> {
    /// The state is well formed, and the claimed slots all lie below the high-water mark.
    pub closed spec fn wf(&self) -> bool {
        &&& self@.wf()
        &&& self.depth@.len() == self.slots@.len()
        &&& self.hwm < N_SLOTS
        &&& forall|i: int| #[trigger] self@.claimed(i) ==> i <= self.hwm
    }

    /// A well-formed domain has a well-formed state.
    pub proof fn lemma_wf(&self)
        requires
            self.wf(),
        ensures
            self@.wf(),
    {
    }

    /// A domain at epoch zero: no thread registered, nothing retired.
    pub fn new() -> (r: Self)
        ensures
            r.wf(),
            r@.epoch == 0,
            r@.slots.len() == 4096,
            r@.bags.len() == 3,
            forall|i: int| 0 <= i < N_SLOTS ==> #[trigger] r@.slots[i] is Free,
            forall|b: int| 0 <= b < N_BAGS ==> #[trigger] r@.bags[b] == Seq::<Retired<T>>::empty(),
    {
        let mut bags: Vec<Vec<Retired<T>>> = Vec::new();
        bags.push(Vec::new());
        bags.push(Vec::new());
        bags.push(Vec::new());
        Domain {
            epoch: 0,
            slots: vec![FREE; N_SLOTS],
            depth: vec![0; N_SLOTS],
            bags,
            hwm: 0,
        }
    }

    /// Claims a slot for the thread behind `local`, or returns the one it has. A fresh
    /// claim takes the lowest slot that is free.
    pub fn local_slot(&mut self, local: &mut LocalSlot) -> (idx: usize)
        requires
            old(self).wf(),
            old(local).registered(old(self)@),
            old(local).slot() is Some || exists|i: int|
                0 <= i < N_SLOTS && #[trigger] old(self)@.slots[i] is Free,
        ensures
            final(self).wf(),
            final(local).slot() == Some(idx),
            final(local).tick() == old(local).tick(),
            idx < N_SLOTS,
            match old(local).slot() {
                Some(i) => idx == i && final(self)@ == old(self)@,
                None => {
                    &&& old(self)@.slots[idx as int] is Free
                    &&& forall|i: int| 0 <= i < idx ==> !(#[trigger] old(self)@.slots[i] is Free)
                    &&& final(self)@ == old(self)@.claim(idx as int)
                },
            },
    {
        if let Some(i) = local.slot {
            return i;
        }
        let mut i: usize = 0;
        while self.slots[i] != FREE
            invariant
                *self == *old(self),
                self.wf(),
                i < N_SLOTS,
                exists|k: int| i <= k < N_SLOTS && #[trigger] self@.slots[k] is Free,
                forall|k: int| 0 <= k < i ==> !(#[trigger] self@.slots[k] is Free),
            decreases N_SLOTS - i,
        {
            assert(!(self@.slots[i as int] is Free));
            i += 1;
        }
        assert(self@.slots[i as int] is Free);
        self.slots[i] = UNPINNED;
        local.slot = Some(i);
        if self.hwm < i {
            self.hwm = i;
        }
        proof {
            assert(self@.slots =~= old(self)@.claim(i as int).slots);
            assert(self@.bags =~= old(self)@.bags);
            assert forall|k: int| #[trigger] self@.pinned(k) implies old(self)@.pinned(k)
                && self@.slots[k] == old(self)@.slots[k] by {}
            assert forall|k: int| #[trigger] self@.claimed(k) implies k <= self.hwm by {
                if k != i {
                    assert(old(self)@.claimed(k));
                }
            }
        }
        i
    }

    /// Pins the thread behind `local`, registering it first where it is new. Its slot
    /// publishes the current epoch, unless a guard of the same thread is outstanding:
    /// then the epoch published for that one stays.
    pub fn pin(&mut self, local: &mut LocalSlot) -> (guard: Guard)
        requires
            old(self).wf(),
            old(local).registered(old(self)@),
            old(local).slot() is Some || exists|i: int|
                0 <= i < N_SLOTS && #[trigger] old(self)@.slots[i] is Free,
            old(local).slot() is Some ==> old(self)@.depth(old(local).slot()->0 as int) < usize::MAX,
        ensures
            final(self).wf(),
            final(local).slot() is Some,
            guard.slot() == final(local).slot()->0,
            final(local).tick() == old(local).tick(),
            0 <= guard.slot() < N_SLOTS,
            final(self)@.pinned(guard.slot()),
            match old(local).slot() {
                Some(i) => guard.slot() == i && final(self)@ == old(self)@.pin(i as int),
                None => {
                    &&& old(self)@.slots[guard.slot()] is Free
                    &&& forall|i: int| 0 <= i < guard.slot() ==> !(#[trigger] old(self)@.slots[i] is Free)
                    &&& final(self)@ == old(self)@.claim(guard.slot()).pin(guard.slot())
                },
            },
    {
        let idx = self.local_slot(local);
        let ghost mid = *self;
        if self.depth[idx] == 0 || self.slots[idx] == UNPINNED {
            self.slots[idx] = self.epoch;
            self.depth[idx] = 1;
        } else {
            let d: usize = self.depth[idx];
            assert(mid@.pinned(idx as int));
            self.depth[idx] = d + 1;
        }
        proof {
            let i = idx as int;
            assert(mid@.pinned(i) || mid@.slots[i] is Idle);
            assert(self@.slots =~= mid@.pin(i).slots);
            assert(self@.bags =~= mid@.bags);
            assert(self@ == mid@.pin(i));
            assert forall|k: int| #[trigger] self@.pinned(k) implies self@.pin_epoch(k) <= self@.epoch
                <= self@.pin_epoch(k) + 1 && self@.depth(k) > 0 by {
                if k != i {
                    assert(mid@.pinned(k));
                    assert(self@.slots[k] == mid@.slots[k]);
                }
            }
            assert forall|k: int| #[trigger] self@.claimed(k) implies k <= self.hwm by {
                assert(mid@.claimed(k));
            }
        }
        Guard { idx, thread: PhantomData }
    }

    /// Defers freeing `item`: it goes into the bag of the current epoch.
    pub fn retire(&mut self, item: T)
        requires
            old(self).wf(),
        ensures
            final(self).wf(),
            final(self)@ == old(self)@.retire(item),
            final(self)@.records() == old(self)@.records().insert(
                Retired { item, epoch: old(self)@.epoch as u64 },
            ),
    {
        let b: usize = (self.epoch % 3) as usize;
        self.bags[b].push(Retired { item, epoch: self.epoch });
        proof {
            assert(self@.slots =~= old(self)@.slots);
            assert(self@.bags =~= old(self)@.retire(item).bags);
            assert forall|k: int| #[trigger] self@.pinned(k) implies old(self)@.pinned(k) by {}
            assert forall|k: int| #[trigger] self@.claimed(k) implies k <= self.hwm by {
                assert(old(self)@.claimed(k));
            }
            old(self)@.retire_adds(item);
        }
    }

    /// Frees what a bag holds that is old enough at epoch `cur`, last retired first; the
    /// rest stays, in its order.
    fn reclaim_bag(bag: &mut Vec<Retired<T>>, cur: u64) -> (freed: Vec<Retired<T>>)
        requires
            cur < UNPINNED,
        ensures
            freed@ == bag_freed(old(bag)@, cur as int),
            final(bag)@ == bag_kept(old(bag)@, cur as int),
    {
        let ghost bag0 = bag@;
        let ghost young = |r: Retired<T>| !is_eligible(r.epoch as int, cur as int);
        let ghost aged = |r: Retired<T>| is_eligible(r.epoch as int, cur as int);
        let mut freed: Vec<Retired<T>> = Vec::new();
        let mut keep: Vec<Retired<T>> = Vec::new();
        proof {
            reveal(Seq::filter);
            assert(bag0.take(bag0.len() as int) =~= bag0);
            assert(bag0.skip(bag0.len() as int).filter(aged).reverse() =~= freed@);
            assert(bag0.skip(bag0.len() as int).filter(young).reverse() =~= keep@);
        }
        while bag.len() > 0
            invariant
                cur < UNPINNED,
                bag@.len() <= bag0.len(),
                bag@ == bag0.take(bag@.len() as int),
                young == (|r: Retired<T>| !is_eligible(r.epoch as int, cur as int)),
                aged == (|r: Retired<T>| is_eligible(r.epoch as int, cur as int)),
                freed@ == bag0.skip(bag@.len() as int).filter(aged).reverse(),
                keep@ == bag0.skip(bag@.len() as int).filter(young).reverse(),
            decreases bag@.len(),
        {
            let n: usize = bag.len();
            let ghost f0 = freed@;
            let ghost k0 = keep@;
            let r = bag.pop().unwrap();
            proof {
                let rest = bag0.skip(n as int);
                assert(bag0.skip(n - 1) =~= seq![r] + rest);
                rest.lemma_filter_prepend(r, aged);
                rest.lemma_filter_prepend(r, young);
                assert(bag@ =~= bag0.take(n - 1));
            }
            if r.epoch.saturating_add(2) <= cur {
                freed.push(r);
            } else {
                keep.push(r);
            }
            proof {
                assert(freed@ =~= bag0.skip(n - 1).filter(aged).reverse());
                assert(keep@ =~= bag0.skip(n - 1).filter(young).reverse());
            }
        }
        let ghost kept = bag0.filter(young);
        proof {
            assert(bag0.skip(0) =~= bag0);
            assert(bag@ =~= kept.take(0));
            assert(keep@ =~= kept.skip(0).reverse());
        }
        while keep.len() > 0
            invariant
                keep@.len() + bag@.len() == kept.len(),
                bag@ == kept.take(bag@.len() as int),
                keep@ == kept.skip(bag@.len() as int).reverse(),
            decreases keep@.len(),
        {
            let ghost n = bag@.len() as int;
            let r = keep.pop().unwrap();
            assert(r == kept.skip(n)[0]);
            bag.push(r);
            assert(bag@ =~= kept.take(n + 1));
            assert(keep@ =~= kept.skip(n + 1).reverse());
        }
        assert(bag@ =~= kept);
        freed
    }

    /// Tries to advance the epoch, which succeeds when every pinned slot has published the
    /// current one, and takes out everything retired two or more epochs ago.
    ///
    /// What a pinned slot protects stays.
    pub fn try_collect(&mut self) -> (freed: Vec<Retired<T>>)
        requires
            old(self).wf(),
        ensures
            final(self).wf(),
            final(self)@ == old(self)@.collect(),
            freed@ == old(self)@.collected(),
            old(self)@.records() == final(self)@.records().add(freed@.to_multiset()),
            forall|j: int| 0 <= j < freed@.len() ==> is_eligible((#[trigger] freed@[j]).epoch as int, final(self)@.epoch as int),
            forall|i: int, r: Retired<T>| #[trigger] old(self)@.protects(i, r) ==> !freed@.contains(r),
    {
        let g: u64 = self.epoch;
        let mut can_advance = true;
        let mut i: usize = 0;
        while i <= self.hwm && can_advance
            invariant
                *self == *old(self),
                self.wf(),
                g == self.epoch,
                i <= self.hwm + 1,
                can_advance ==> forall|k: int| 0 <= k < i && #[trigger] self@.pinned(k) ==> self@.pin_epoch(k) == g,
                !can_advance ==> !self@.all_current(),
            decreases self.hwm + 1 - i,
        {
            let v: u64 = self.slots[i];
            let pinned = v != FREE && v != UNPINNED;
            assert(pinned == self@.pinned(i as int));
            if pinned && v != g {
                can_advance = false;
            }
            i += 1;
        }
        proof {
            if can_advance {
                assert forall|k: int| #[trigger] self@.pinned(k) implies self@.pin_epoch(k) == self@.epoch by {
                    assert(self@.claimed(k));
                }
            }
        }
        if can_advance && g + 1 < UNPINNED {
            self.epoch = g + 1;
        }
        let cur: u64 = self.epoch;
        let mut freed = Self::reclaim_bag(&mut self.bags[0], cur);
        let mut freed1 = Self::reclaim_bag(&mut self.bags[1], cur);
        let mut freed2 = Self::reclaim_bag(&mut self.bags[2], cur);
        freed.append(&mut freed1);
        freed.append(&mut freed2);
        proof {
            let v0 = old(self)@;
            assert(self@.epoch == v0.next_epoch());
            assert(self@.slots =~= v0.slots);
            assert(self@.bags =~= v0.collect().bags);
            assert(freed@ =~= v0.collected());
            v0.collection_laws();
            assert forall|k: int| #[trigger] self@.pinned(k) implies v0.pinned(k) && self@.pin_epoch(k)
                == v0.pin_epoch(k) && self@.depth(k) == v0.depth(k) by {}
            assert forall|k: int| #[trigger] self@.claimed(k) implies k <= self.hwm by {
                assert(v0.claimed(k));
            }
        }
        freed
    }
}

impl<T> DomainView<T> {
    /// Retiring adds one record and changes no other.
    pub proof fn retire_adds(self, item: T)
        requires
            self.wf(),
        ensures
            self.retire(item).records() == self.records().insert(Retired { item, epoch: self.epoch as u64 }),
    {
        broadcast use vstd::seq_lib::group_to_multiset_ensures;
        assert(self.retire(item).records() =~= self.records().insert(Retired { item, epoch: self.epoch as u64 }));
    }
}

/// A bag splits into what is freed and what is kept.
proof fn lemma_bag_split<T>(bag: Seq<Retired<T>>, now: int)
    ensures
        bag.to_multiset() == bag_kept(bag, now).to_multiset().add(bag_freed(bag, now).to_multiset()),
        forall|j: int| 0 <= j < bag_freed(bag, now).len() ==> is_eligible((#[trigger] bag_freed(bag, now)[j]).epoch as int, now),
        forall|j: int| 0 <= j < bag_kept(bag, now).len() ==> bag.contains(#[trigger] bag_kept(bag, now)[j]),
    decreases bag.len(),
{
    let young = |r: Retired<T>| !is_eligible(r.epoch as int, now);
    let aged = |r: Retired<T>| is_eligible(r.epoch as int, now);
    broadcast use {Seq::lemma_filter_pred, Seq::lemma_filter_contains_rev};
    bag.filter(aged).lemma_reverse_to_multiset();
    assert forall|j: int| 0 <= j < bag_kept(bag, now).len() implies bag.contains(#[trigger] bag_kept(bag, now)[j]) by {
        bag.lemma_filter_contains_rev(young, bag.filter(young)[j]);
    }
    lemma_filter_split(bag, aged, young);
}

proof fn lemma_filter_split<A>(s: Seq<A>, p: spec_fn(A) -> bool, q: spec_fn(A) -> bool)
    requires
        forall|a: A| #[trigger] q(a) == !p(a),
    ensures
        s.to_multiset() == s.filter(q).to_multiset().add(s.filter(p).to_multiset()),
    decreases s.len(),
{
    broadcast use vstd::seq_lib::group_to_multiset_ensures;
    reveal(Seq::filter);
    if s.len() > 0 {
        lemma_filter_split(s.drop_last(), p, q);
        assert(s =~= s.drop_last().push(s.last()));
        assert(q(s.last()) == !p(s.last()));
    }
    assert(s.to_multiset() =~= s.filter(q).to_multiset().add(s.filter(p).to_multiset()));
}

impl<T> DomainView<T> {
    /// What a collection attempt does: it keeps the state well formed, loses no record, frees only
    /// what was retired two epochs ago or earlier, and nothing that a pinned slot protects.
    pub proof fn collection_laws(self)
        requires
            self.wf(),
        ensures
            self.collect().wf(),
            self.records() == self.collect().records().add(self.collected().to_multiset()),
            forall|j: int| 0 <= j < self.collected().len() ==> is_eligible((#[trigger] self.collected()[j]).epoch as int, self.next_epoch() as int),
            forall|i: int, r: Retired<T>| #[trigger] self.protects(i, r) ==> !self.collected().contains(r),
    {
        let v = self;
        let now = v.next_epoch() as int;
        let w = v.collect();
        lemma_bag_split(v.bags[0], now);
        lemma_bag_split(v.bags[1], now);
        lemma_bag_split(v.bags[2], now);
        let f0 = bag_freed(v.bags[0], now);
        let f1 = bag_freed(v.bags[1], now);
        let f2 = bag_freed(v.bags[2], now);
        vstd::seq_lib::lemma_multiset_commutative(f0, f1);
        vstd::seq_lib::lemma_multiset_commutative(f0 + f1, f2);
        assert(v.records() =~= w.records().add(v.collected().to_multiset()));
        assert forall|j: int| 0 <= j < v.collected().len() implies is_eligible((#[trigger] v.collected()[j]).epoch as int, now) by {
            if j < f0.len() {
                assert(v.collected()[j] == f0[j]);
            } else if j < f0.len() + f1.len() {
                assert(v.collected()[j] == f1[j - f0.len()]);
            } else {
                assert(v.collected()[j] == f2[j - f0.len() - f1.len()]);
            }
        }
        assert forall|i: int| #[trigger] w.pinned(i) implies w.pin_epoch(i) <= w.epoch <= w.pin_epoch(i) + 1
            && w.depth(i) > 0 by {
            assert(v.pinned(i));
        }
        assert forall|b: int, j: int| 0 <= b < N_BAGS && 0 <= j < w.bags[b].len() implies (#[trigger] w.bags[b][j]).epoch
            <= w.epoch && w.bags[b][j].epoch % 3 == b by {
            assert(v.bags[b].contains(bag_kept(v.bags[b], now)[j]));
        }
        assert forall|i: int, r: Retired<T>| #[trigger] v.protects(i, r) implies !v.collected().contains(r) by {
            assert(v.pinned(i));
        }
    }
}

impl<T> DomainView<T> {
    /// The first pin of a slot publishes the current epoch; a further one only counts. Nothing
    /// else changes.
    pub proof fn pins_publish_the_epoch(self, i: int)
        requires
            self.wf(),
            0 <= i < self.slots.len(),
        ensures
            self.pin(i).pinned(i),
            !self.pinned(i) ==> self.pin(i).pin_epoch(i) == self.epoch && self.pin(i).depth(i) == 1,
            self.pinned(i) ==> self.pin(i).pin_epoch(i) == self.pin_epoch(i) && self.pin(i).depth(i) == self.depth(i) + 1,
            self.pin(i).epoch == self.epoch,
            self.pin(i).bags == self.bags,
            self.pin(i).records() == self.records(),
            self.pin(i).slots.len() == self.slots.len(),
            forall|k: int| 0 <= k < self.slots.len() && k != i ==> #[trigger] self.pin(i).slots[k] == self.slots[k],
            self.pin(i).wf(),
    {
        let v = self.pin(i);
        assert forall|k: int| #[trigger] v.pinned(k) implies v.pin_epoch(k) <= v.epoch <= v.pin_epoch(k) + 1 && v.depth(k) > 0 by {
            if k != i {
                assert(self.pinned(k));
            } else if self.pinned(i) {
                assert(self.depth(i) > 0);
            }
        }
    }

    /// A slot stays pinned, at the epoch that it published, until its last guard is given up.
    pub proof fn guards_are_counted(self, i: int)
        requires
            self.wf(),
            self.pinned(i),
        ensures
            self.depth(i) > 1 ==> self.unpin(i).pinned(i) && self.unpin(i).pin_epoch(i) == self.pin_epoch(i)
                && self.unpin(i).depth(i) == self.depth(i) - 1,
            self.depth(i) == 1 ==> !self.unpin(i).pinned(i) && self.unpin(i).claimed(i),
            self.unpin(i).epoch == self.epoch,
            self.unpin(i).bags == self.bags,
            self.unpin(i).records() == self.records(),
            self.unpin(i).slots.len() == self.slots.len(),
            forall|k: int| 0 <= k < self.slots.len() && k != i ==> #[trigger] self.unpin(i).slots[k] == self.slots[k],
            self.unpin(i).wf(),
    {
        let v = self.unpin(i);
        assert(self.depth(i) > 0);
        assert forall|k: int| #[trigger] v.pinned(k) implies v.pin_epoch(k) <= v.epoch <= v.pin_epoch(k) + 1 && v.depth(k) > 0 by {
            assert(self.pinned(k));
        }
    }

    /// A collection raises the epoch by one where no slot is pinned at an older one. It hands back
    /// all that was retired at least two epochs before the epoch that is reached, and nothing else.
    pub proof fn collections_make_progress(self)
        requires
            self.wf(),
        ensures
            (forall|i: int| #[trigger] self.pinned(i) ==> self.pin_epoch(i) == self.epoch) && self.epoch + 1
                < 0x4000_0000_0000_0000 ==> self.collect().epoch == self.epoch + 1,
            (exists|i: int| #[trigger] self.pinned(i) && self.pin_epoch(i) != self.epoch) ==> self.collect().epoch == self.epoch,
            self.collect().slots == self.slots,
            forall|r: Retired<T>| #[trigger]
                self.collect().records().count(r) == (if r.epoch + 2 <= self.collect().epoch {
                    0
                } else {
                    self.records().count(r)
                }),
            forall|r: Retired<T>| #[trigger]
                self.collected().to_multiset().count(r) == (if r.epoch + 2 <= self.collect().epoch {
                    self.records().count(r)
                } else {
                    0
                }),
    {
        self.collection_laws();
        let now = self.collect().epoch as int;
        lemma_kept_counts(self.bags[0], now);
        lemma_kept_counts(self.bags[1], now);
        lemma_kept_counts(self.bags[2], now);
        assert forall|r: Retired<T>| #[trigger]
            self.collect().records().count(r) == (if r.epoch + 2 <= now {
                0
            } else {
                self.records().count(r)
            }) by {
            assert(self.collect().bags[0] == bag_kept(self.bags[0], now));
            assert(self.collect().bags[1] == bag_kept(self.bags[1], now));
            assert(self.collect().bags[2] == bag_kept(self.bags[2], now));
        }
        assert forall|r: Retired<T>| #[trigger]
            self.collected().to_multiset().count(r) == (if r.epoch + 2 <= now {
                self.records().count(r)
            } else {
                0
            }) by {
            assert(self.records().count(r) == self.collect().records().add(self.collected().to_multiset()).count(r));
            assert(self.collect().records().count(r) == (if r.epoch + 2 <= now {
                0
            } else {
                self.records().count(r)
            }));
        }
    }

    /// What a pinned participant may have seen is not handed back: whatever was retired since it
    /// published its epoch stays on record.
    pub proof fn pinned_participants_keep_what_they_saw(self, i: int, r: Retired<T>)
        requires
            self.wf(),
            self.pinned(i),
            self.pin_epoch(i) <= r.epoch,
        ensures
            self.collect().records().count(r) == self.records().count(r),
            self.collected().to_multiset().count(r) == 0,
            !self.collected().contains(r),
    {
        broadcast use vstd::seq_lib::group_to_multiset_ensures;

        self.collections_make_progress();
        assert(self.collect().epoch <= self.pin_epoch(i) + 1) by {
            if self.pin_epoch(i) != self.epoch {
                assert(exists|k: int| #[trigger] self.pinned(k) && self.pin_epoch(k) != self.epoch);
            }
        }
        assert(self.collect().records().count(r) == self.records().count(r));
    }

    /// One unpin of a thread in 128 collects, and the others do not: what that does is said by
    /// [`DomainView::collections_make_progress`].
    pub proof fn unpins_collect_in_turn(self, i: int, tick: u32)
        requires
            self.wf(),
            self.pinned(i),
        ensures
            tick % 128 != 0 ==> self.release(i, tick) == self.unpin(i) && self.released(i, tick).len() == 0,
            tick % 128 == 0 ==> {
                let after = self.release(i, tick);
                &&& after.slots == self.unpin(i).slots
                &&& (forall|k: int| #[trigger] self.unpin(i).pinned(k) ==> self.unpin(i).pin_epoch(k) == self.epoch)
                    && self.epoch + 1 < 0x4000_0000_0000_0000 ==> after.epoch == self.epoch + 1
                &&& forall|r: Retired<T>| #[trigger]
                    after.records().count(r) == (if r.epoch + 2 <= after.epoch {
                        0
                    } else {
                        self.records().count(r)
                    })
                &&& forall|r: Retired<T>| #[trigger]
                    self.released(i, tick).to_multiset().count(r) == (if r.epoch + 2 <= after.epoch {
                        self.records().count(r)
                    } else {
                        0
                    })
            },
    {
        self.guards_are_counted(i);
        self.unpin(i).collections_make_progress();
    }
}

/// What a bag keeps is what is not old enough, as often as it was there.
proof fn lemma_kept_counts<T>(bag: Seq<Retired<T>>, now: int)
    ensures
        forall|r: Retired<T>| #[trigger]
            bag_kept(bag, now).to_multiset().count(r) == (if r.epoch + 2 <= now {
                0
            } else {
                bag.to_multiset().count(r)
            }),
    decreases bag.len(),
{
    broadcast use vstd::seq_lib::group_to_multiset_ensures;

    reveal(Seq::filter);
    if bag.len() > 0 {
        lemma_kept_counts(bag.drop_last(), now);
        assert(bag =~= bag.drop_last().push(bag.last()));
        let young = |r: Retired<T>| !is_eligible(r.epoch as int, now);
        assert(bag_kept(bag, now) == (if young(bag.last()) {
            bag.drop_last().filter(young).push(bag.last())
        } else {
            bag.drop_last().filter(young)
        }));
        assert forall|r: Retired<T>| #[trigger]
            bag_kept(bag, now).to_multiset().count(r) == (if r.epoch + 2 <= now {
                0
            } else {
                bag.to_multiset().count(r)
            }) by {
            assert(bag_kept(bag.drop_last(), now).to_multiset().count(r) == (if r.epoch + 2 <= now {
                0
            } else {
                bag.drop_last().to_multiset().count(r)
            }));
        }
    }
}

/// The count of unpins goes up by one each time and starts over at the end of its range.
pub proof fn ticks_count_unpins(tick: u32)
    ensures
        next_tick(tick) == (tick + 1) % 0x1_0000_0000,
        next_tick(tick) % 128 == (tick % 128 + 1) % 128,
{
}

/// A domain and the count of unpins of a thread after the thread pinned slot `i` and gave the pin
/// up again, `n` times.
pub open spec fn pinned_and_unpinned<T>(d: DomainView<T>, i: int, tick: u32, n: nat) -> (DomainView<T>, u32)
    decreases n,
{
    if n == 0 {
        (d, tick)
    } else {
        let (before, t) = pinned_and_unpinned(d, i, tick, (n - 1) as nat);
        (before.pin(i).release(i, next_tick(t)), next_tick(t))
    }
}

/// What the thread is handed back meanwhile.
pub open spec fn handed_back<T>(d: DomainView<T>, i: int, tick: u32, n: nat) -> Multiset<Retired<T>>
    decreases n,
{
    if n == 0 {
        Multiset::empty()
    } else {
        let (before, t) = pinned_and_unpinned(d, i, tick, (n - 1) as nat);
        handed_back(d, i, tick, (n - 1) as nat).add(before.pin(i).released(i, next_tick(t)).to_multiset())
    }
}

proof fn lemma_rounds<T>(d: DomainView<T>, i: int, tick: u32, n: nat)
    requires
        d.wf(),
        d.claimed(i),
        forall|k: int| !#[trigger] d.pinned(k),
        d.epoch + n + 1 < 0x4000_0000_0000_0000,
    ensures
        ({
            let (v, t) = pinned_and_unpinned(d, i, tick, n);
            let turns = (tick as int % 128 + n as int) / 128;
            &&& v.wf()
            &&& v.claimed(i)
            &&& forall|k: int| !#[trigger] v.pinned(k)
            &&& t as int % 128 == (tick as int % 128 + n as int) % 128
            &&& v.epoch == d.epoch + turns
            &&& forall|r: Retired<T>| #[trigger] v.records().count(r) <= d.records().count(r)
            &&& turns > 0 ==> forall|r: Retired<T>| r.epoch + 2 <= v.epoch ==> #[trigger] v.records().count(r) == 0
            &&& d.records() == v.records().add(handed_back(d, i, tick, n))
        }),
    decreases n,
{
    if n == 0 {
        assert(d.records() =~= d.records().add(Multiset::empty()));
    } else {
        let m = (n - 1) as nat;
        lemma_rounds(d, i, tick, m);
        let (u, t) = pinned_and_unpinned(d, i, tick, m);
        let t2 = next_tick(t);
        ticks_count_unpins(t);
        u.pins_publish_the_epoch(i);
        let p = u.pin(i);
        p.guards_are_counted(i);
        p.unpins_collect_in_turn(i, t2);
        p.unpin(i).collection_laws();
        let v = p.release(i, t2);
        assert forall|k: int| !#[trigger] p.unpin(i).pinned(k) by {
            if k != i && 0 <= k < u.slots.len() {
                assert(p.slots[k] == u.slots[k]);
                assert(p.unpin(i).slots[k] == p.slots[k]);
                assert(!u.pinned(k));
            }
        }
        assert forall|k: int| !#[trigger] v.pinned(k) by {
            assert(!p.unpin(i).pinned(k));
        }
        assert(p.unpin(i).claimed(i));
        assert(p.released(i, t2).len() == 0 ==> p.released(i, t2).to_multiset() =~= Multiset::empty()) by {
            broadcast use vstd::seq_lib::group_to_multiset_ensures;

            if p.released(i, t2).len() == 0 {
                assert(p.released(i, t2) =~= Seq::empty());
            }
        }
        assert(u.records() =~= v.records().add(p.released(i, t2).to_multiset()));
        assert(d.records() =~= v.records().add(handed_back(d, i, tick, n)));
        let a = tick as int % 128 + m as int;
        assert(t2 % 128 == 0 <==> (a + 1) % 128 == 0);
        if t2 % 128 == 0 {
            assert((a + 1) / 128 == a / 128 + 1);
            assert(v.epoch == u.epoch + 1);
        } else {
            assert((a + 1) / 128 == a / 128);
            assert(v == p.unpin(i));
        }
    }
}

/// Garbage is reclaimed as guards are given up: where no other participant is pinned, a thread
/// that pins and unpins 256 times is handed back all that was retired before.
pub proof fn garbage_is_handed_back<T>(d: DomainView<T>, i: int, tick: u32, n: nat)
    requires
        d.wf(),
        d.claimed(i),
        forall|k: int| !#[trigger] d.pinned(k),
        n >= 256,
        d.epoch + n + 1 < 0x4000_0000_0000_0000,
    ensures
        pinned_and_unpinned(d, i, tick, n).0.records() == Multiset::<Retired<T>>::empty(),
        handed_back(d, i, tick, n) == d.records(),
{
    lemma_rounds(d, i, tick, n);
    let v = pinned_and_unpinned(d, i, tick, n).0;
    assert((tick as int % 128 + n as int) / 128 >= 2);
    assert forall|r: Retired<T>| #[trigger] v.records().count(r) == 0 by {
        if d.records().count(r) > 0 {
            lemma_tags(d, r);
        }
        assert(v.records().count(r) <= d.records().count(r));
    }
    assert(v.records() =~= Multiset::empty());
    assert(handed_back(d, i, tick, n) =~= d.records());
}

/// Nothing on record is tagged with an epoch still to come.
proof fn lemma_tags<T>(d: DomainView<T>, r: Retired<T>)
    requires
        d.wf(),
        d.records().count(r) > 0,
    ensures
        r.epoch <= d.epoch,
{
    broadcast use vstd::seq_lib::group_to_multiset_ensures;

    let b: int = if d.bags[0].to_multiset().count(r) > 0 {
        0
    } else if d.bags[1].to_multiset().count(r) > 0 {
        1
    } else {
        2
    };
    assert(d.bags[b].contains(r));
    let j = choose|j: int| 0 <= j < d.bags[b].len() && d.bags[b][j] == r;
    assert(d.bags[b][j].epoch <= d.epoch);
}

impl Guard {
    /// Defers freeing `item` through the guard's domain.
    pub fn retire<T>(&self, domain: &mut Domain<T>, item: T)
        requires
            old(domain).wf(),
        ensures
            final(domain).wf(),
            final(domain)@ == old(domain)@.retire(item),
            final(domain)@.records() == old(domain)@.records().insert(
                Retired { item, epoch: old(domain)@.epoch as u64 },
            ),
    {
        domain.retire(item);
    }

    /// Gives the guard up. One unpin of a thread in [`COLLECT_INTERVAL`] tries to collect;
    /// what that frees is returned.
    pub fn unpin<T>(self, domain: &mut Domain<T>, local: &mut LocalSlot) -> (freed: Vec<Retired<T>>)
        requires
            old(domain).wf(),
            old(domain)@.pinned(self.slot()),
        ensures
            final(domain).wf(),
            final(local).slot() == old(local).slot(),
            final(local).tick() == next_tick(old(local).tick()),
            final(local).tick() == (old(local).tick() + 1) % 0x1_0000_0000,
            final(domain)@ == old(domain)@.release(self.slot(), final(local).tick()),
            freed@ == old(domain)@.released(self.slot(), final(local).tick()),
            old(domain)@.records() == final(domain)@.records().add(freed@.to_multiset()),
            forall|i: int, r: Retired<T>| #[trigger] final(domain)@.protects(i, r) ==> !freed@.contains(r),
    {
        let d: usize = domain.depth[self.idx];
        proof {
            assert(domain@.depth(self.slot()) == d);
        }
        if d == 1 {
            domain.slots[self.idx] = UNPINNED;
        }
        domain.depth[self.idx] = d - 1;
        let ghost idle = old(domain)@.unpin(self.slot());
        proof {
            assert(domain@.slots =~= idle.slots);
            assert(domain@.bags =~= idle.bags);
            assert(domain@ == idle);
            assert(idle.records() == old(domain)@.records());
            assert forall|k: int| #[trigger] domain@.pinned(k) implies old(domain)@.pinned(k)
                && domain@.pin_epoch(k) == old(domain)@.pin_epoch(k) && domain@.depth(k) > 0 by {
                assert(old(domain)@.pinned(self.slot()));
                assert(old(domain)@.depth(self.slot()) > 0);
                if k != self.slot() {
                    assert(domain@.slots[k] == old(domain)@.slots[k]);
                    assert(old(domain)@.pinned(k));
                }
            }
            assert forall|k: int| #[trigger] domain@.claimed(k) implies k <= domain.hwm by {
                assert(old(domain)@.claimed(k));
            }
            assert(domain.wf());
        }
        let n: u32 = local.tick.wrapping_add(1);
        local.tick = n;
        if n % COLLECT_INTERVAL == 0 {
            domain.try_collect()
        } else {
            let freed: Vec<Retired<T>> = Vec::new();
            proof {
                broadcast use vstd::seq_lib::group_to_multiset_ensures;
                assert(freed@ =~= Seq::<Retired<T>>::empty());
                assert(freed@.to_multiset() =~= Multiset::empty());
                assert(domain@.records().add(freed@.to_multiset()) =~= domain@.records());
            }
            freed
        }
    }
}

/// Pins the thread behind `local` on `domain`.
pub fn pin<T>(domain: &mut Domain<T>, local: &mut LocalSlot) -> (guard: Guard)
    requires
        old(domain).wf(),
        old(local).registered(old(domain)@),
        old(local).slot() is Some || exists|i: int|
            0 <= i < N_SLOTS && #[trigger] old(domain)@.slots[i] is Free,
        old(local).slot() is Some ==> old(domain)@.depth(old(local).slot()->0 as int) < usize::MAX,
    ensures
        final(domain).wf(),
        final(local).slot() is Some,
        guard.slot() == final(local).slot()->0,
        final(local).tick() == old(local).tick(),
        0 <= guard.slot() < N_SLOTS,
        final(domain)@.pinned(guard.slot()),
        match old(local).slot() {
            Some(i) => guard.slot() == i && final(domain)@ == old(domain)@.pin(i as int),
            None => {
                &&& old(domain)@.slots[guard.slot()] is Free
                &&& forall|i: int| 0 <= i < guard.slot() ==> !(#[trigger] old(domain)@.slots[i] is Free)
                &&& final(domain)@ == old(domain)@.claim(guard.slot()).pin(guard.slot())
            },
        },
{
    domain.pin(local)
}

} // verus!
