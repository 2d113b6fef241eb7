//! The sharded index: independent skiplists, with keys routed to them by hash.
//!
//! Writers of different shards do not meet on the same links, so partitioning by the hash
//! of the key divides their collisions by the number of shards. That number is a power of
//! two, which makes routing a mask.

use vstd::prelude::*;
use vstd::multiset::Multiset;
use crate::ebr::{Domain, DomainView, Guard, LocalSlot, Retired};
use crate::ebr;
use crate::pow2;
use crate::skiplist;
use crate::skiplist::{Garbage, SkipList, ValueRef};

verus! {

/// The hash of the empty string.
pub const FNV_OFFSET: u64 = 0xcbf2_9ce4_8422_2325;

/// The multiplier of the hash.
pub const FNV_PRIME: u64 = 0x0000_0100_0000_01B3;

/// FNV-1a: each byte is mixed in by exclusive or, then the hash is multiplied.
pub open spec fn fnv(bytes: Seq<u8>) -> u64
    decreases bytes.len(),
{
    if bytes.len() == 0 {
        FNV_OFFSET
    } else {
        (fnv(bytes.drop_last()) ^ (bytes.last() as u64)).wrapping_mul(FNV_PRIME)
    }
}

/// The FNV-1a hash of `bytes`.
pub fn fnv1a(bytes: &[u8]) -> (h: u64)
    ensures
        h == fnv(bytes@),
{
    let mut h: u64 = FNV_OFFSET;
    let mut i: usize = 0;
    while i < bytes.len()
        invariant
            i <= bytes@.len(),
            h == fnv(bytes@.take(i as int)),
        decreases bytes@.len() - i,
    {
        proof {
            assert(bytes@.take(i + 1).drop_last() =~= bytes@.take(i as int));
        }
        h = h ^ (bytes[i] as u64);
        h = h.wrapping_mul(FNV_PRIME);
        i += 1;
    }
    assert(bytes@.take(i as int) =~= bytes@);
    h
}

/// The shard, of `n`, that owns `key`.
pub open spec fn shard_of(key: Seq<u8>, n: int) -> int {
    fnv(key) as int % n
}

/// The hash starts from a fixed value, and each byte, however many there are, is mixed in by
/// exclusive or before the hash is multiplied.
pub proof fn every_byte_is_hashed(bytes: Seq<u8>, b: u8)
    ensures
        fnv(Seq::<u8>::empty()) == 0xcbf2_9ce4_8422_2325,
        fnv(bytes.push(b)) == (fnv(bytes) ^ (b as u64)).wrapping_mul(0x0000_0100_0000_01B3),
{
    assert(bytes.push(b).drop_last() =~= bytes);
}

/// A key goes to a shard that there is, by the remainder of its hash, whatever the number of
/// shards: the hash less the number of the shard is a multiple of it.
pub proof fn routing_is_by_remainder(key: Seq<u8>, n: int)
    requires
        n > 0,
    ensures
        0 <= shard_of(key, n) < n,
        (fnv(key) - shard_of(key, n)) % n == 0,
{
    lemma_shard_range(key, n);
    vstd::arithmetic::div_mod::lemma_fundamental_div_mod(fnv(key) as int, n);
    vstd::arithmetic::div_mod::lemma_mod_multiples_basic(fnv(key) as int / n, n);
    assert((fnv(key) as int / n) * n == n * (fnv(key) as int / n)) by (nonlinear_arith);
}

/// Where the number of shards is a power of two, a key is routed by the low bits of its hash.
pub proof fn routing_is_by_mask(key: Seq<u8>, n: u64)
    requires
        n > 0,
        pow2::is_pow2(n as int),
    ensures
        shard_of(key, n as int) == fnv(key) & ((n - 1) as u64),
        0 <= shard_of(key, n as int) < n,
{
    pow2::mask_is_remainder(fnv(key), n);
    lemma_shard_range(key, n as int);
}

/// The entries of all shards together, in a sequence of shards.
spec fn merged(shards: Seq<SkipList>) -> Map<Seq<u8>, Seq<u8>> {
    Map::new(
        |k: Seq<u8>| shards[shard_of(k, shards.len() as int)]@.contains_key(k),
        |k: Seq<u8>| shards[shard_of(k, shards.len() as int)]@[k],
    )
}

/// The number of entries in the first `n` shards.
spec fn total_len(shards: Seq<SkipList>, n: int) -> nat
    decreases n,
{
    if n <= 0 {
        0
    } else {
        total_len(shards, n - 1) + shards[n - 1]@.len()
    }
}

/// The partitioned ordered index.
pub struct ShardedIndex {
    shards: Vec<SkipList>,
    mask: u64,
    domain: Domain<Garbage>,
    local: LocalSlot,
}

impl View for ShardedIndex {
    type V = Map<Seq<u8>, Seq<u8>>;

    closed spec fn view(&self) -> Map<Seq<u8>, Seq<u8>> {
        merged(self.shards@)
    }
}

impl ShardedIndex {
    /// The shards.
    pub closed spec fn shards(&self) -> Seq<SkipList> {
        self.shards@
    }

    /// The state of the reclamation domain that the shards share.
    pub closed spec fn domain(&self) -> DomainView<Garbage> {
        self.domain@
    }

    /// The participant slot that the index pins for the time of its own operations.
    pub closed spec fn own_slot(&self) -> int {
        self.local.slot()->0 as int
    }

    /// How often the index has given its own pin up, modulo the width of the counter.
    pub closed spec fn tick(&self) -> u32 {
        self.local.tick()
    }

    /// The shard that `key` routes to.
    pub open spec fn home(&self, key: Seq<u8>) -> SkipList {
        self.shards()[shard_of(key, self.shards().len() as int)]
    }

    /// One operation on `old` left this domain: the index pinned its own slot, retired
    /// `garbage`, if there was any, and gave the pin up. One operation in
    /// [`ebr::COLLECT_INTERVAL`] tries to collect when it does so.
    pub open spec fn stepped(&self, old: &Self, garbage: Option<Garbage>) -> bool {
        let own = old.own_slot();
        let pinned = old.domain().pin(own);
        let done = match garbage {
            Some(g) => pinned.retire(g),
            None => pinned,
        };
        &&& self.tick() == ebr::next_tick(old.tick())
        &&& self.domain() == done.release(own, self.tick())
    }

    /// Each shard is well formed and holds only keys that route to it, and its garbage is
    /// what the domain has on record for it.
    spec fn shards_ok(&self, records: Multiset<Retired<Garbage>>) -> bool {
        forall|i: int| 0 <= i < self.shards@.len() ==> #[trigger] self.shard_ok(i, records)
    }

    spec fn shard_ok(&self, i: int, records: Multiset<Retired<Garbage>>) -> bool {
        &&& self.shards@[i].wf()
        &&& self.shards@[i].id() == i
        &&& self.shards@[i].tracks(records)
        &&& forall|k: Seq<u8>| #[trigger]
            self.shards@[i]@.contains_key(k) ==> shard_of(k, self.shards@.len() as int) == i
    }

    /// Every record names a shard.
    spec fn records_ok(&self, records: Multiset<Retired<Garbage>>) -> bool {
        forall|r: Retired<Garbage>| #[trigger]
            records.contains(r) ==> skiplist::garbage_list(r.item) < self.shards@.len()
    }

    /// The routing mask and the index's registration with the domain are in order.
    spec fn frame_ok(&self) -> bool {
        &&& self.shards@.len() == self.mask + 1
        &&& pow2::is_pow2(self.shards@.len() as int)
        &&& self.domain.wf()
        &&& self.local.slot() is Some
        &&& self.local.registered(self.domain@)
    }

    /// The index is well formed.
    pub closed spec fn wf(&self) -> bool {
        &&& self.frame_ok()
        &&& !self.domain@.pinned(self.own_slot())
        &&& self.shards_ok(self.domain@.records())
        &&& self.records_ok(self.domain@.records())
    }

    /// The cell `c` of shard `s` is kept alive by the pin of `slot`.
    pub open spec fn protected(&self, slot: int, s: int, c: usize) -> bool {
        0 <= s < self.shards().len() && self.shards()[s].cell_protected(self.domain(), slot, c)
    }

    /// What was protected by a slot other than the index's own still is, with the contents it
    /// had, and the slots of other participants are as they were.
    pub open spec fn spares(&self, old: &Self) -> bool {
        &&& self.own_slot() == old.own_slot()
        &&& self.shards().len() == old.shards().len()
        &&& forall|slot: int|
            0 <= slot < ebr::N_SLOTS && slot != old.own_slot() ==> #[trigger] self.domain().slots[slot]
                == old.domain().slots[slot]
        &&& forall|slot: int, s: int, c: usize| #[trigger]
            old.protected(slot, s, c) ==> self.protected(slot, s, c) && self.shards()[s].cells()[c]
                == old.shards()[s].cells()[c]
    }

    /// `num_shards`, rounded up to a power of two, empty shards. The towers of each are as high
    /// as its part of `capacity_hint` entries calls for.
    pub fn new(num_shards: usize, capacity_hint: usize) -> (r: Self)
        requires
            num_shards <= pow2::max_pow2(),
        ensures
            r.wf(),
            r@ == Map::<Seq<u8>, Seq<u8>>::empty(),
            pow2::is_next_pow2(r.shards().len() as int, if num_shards < 1 { 1 } else { num_shards as int }),
            forall|i: int|
                0 <= i < r.shards().len() ==> (#[trigger] r.shards()[i]).max_level() + 1 == skiplist::adapted_height(
                    capacity_hint as nat / r.shards().len(),
                ),
            forall|slot: int|
                0 <= slot < ebr::N_SLOTS && slot != r.own_slot() ==> #[trigger] r.domain().slots[slot] is Free,
            r.own_slot() == 0,
            r.tick() == 0,
    {
        let k: usize = pow2::next_pow2(if num_shards < 1 { 1 } else { num_shards });
        let share: usize = capacity_hint / k;
        let per_shard: usize = if share < 2 { 2 } else { share };
        let mut domain: Domain<Garbage> = Domain::new();
        let ghost d0 = domain@;
        proof {
            domain.lemma_wf();
            assert(domain@.slots[0] is Free);
            lemma_no_records(domain@);
        }
        let mut local = LocalSlot::new();
        let slot = domain.local_slot(&mut local);
        proof {
            assert(slot == 0);
            assert(domain@ == d0.claim(0));
            assert(domain@.records() == Multiset::<Retired<Garbage>>::empty());
            assert forall|i: int| 0 < i < ebr::N_SLOTS implies #[trigger] domain@.slots[i] is Free by {
                assert(d0.slots[i] is Free);
            }
        }
        let mut shards: Vec<SkipList> = Vec::new();
        let mut i: usize = 0;
        while i < k
            invariant
                i <= k,
                shards@.len() == i,
                domain@.records() == Multiset::<Retired<Garbage>>::empty(),
                forall|j: int|
                    0 <= j < i ==> {
                        &&& (#[trigger] shards@[j]).wf()
                        &&& shards@[j].id() == j
                        &&& shards@[j].tracks(domain@.records())
                        &&& shards@[j]@ == Map::<Seq<u8>, Seq<u8>>::empty()
                        &&& shards@[j].max_level() + 1 == skiplist::adapted_height(per_shard as nat)
                    },
            decreases k - i,
        {
            shards.push(SkipList::with_capacity_hint(per_shard, i));
            i += 1;
        }
        let r = ShardedIndex { shards, mask: (k as u64) - 1, domain, local };
        proof {
            assert(r@ =~= Map::<Seq<u8>, Seq<u8>>::empty()) by {
                assert forall|key: Seq<u8>| !r@.contains_key(key) by {
                    assert(0 <= shard_of(key, k as int) < k) by (nonlinear_arith)
                        requires
                            shard_of(key, k as int) == fnv(key) as int % k as int,
                            k > 0,
                    ;
                    assert(r.shards@[shard_of(key, k as int)]@ == Map::<Seq<u8>, Seq<u8>>::empty());
                }
            }
            assert forall|j: int| 0 <= j < k implies #[trigger] r.shard_ok(j, r.domain@.records()) by {
                assert(r.shards@[j].wf());
            }
        }
        r
    }
}

/// A domain with empty bags has nothing on record.
proof fn lemma_no_records<T>(d: DomainView<T>)
    requires
        forall|b: int| 0 <= b < ebr::N_BAGS ==> #[trigger] d.bags[b] == Seq::<Retired<T>>::empty(),
    ensures
        d.records() == Multiset::<Retired<T>>::empty(),
{
    broadcast use vstd::seq_lib::group_to_multiset_ensures;
    let e = Seq::<Retired<T>>::empty();
    assert(e.to_multiset() =~= Multiset::empty());
    assert(d.bags[0] == e && d.bags[1] == e && d.bags[2] == e);
    assert(d.records() =~= Multiset::empty());
}

/// A shard index is in range.
proof fn lemma_shard_range(key: Seq<u8>, n: int)
    requires
        n > 0,
    ensures
        0 <= shard_of(key, n) < n,
{
    assert(0 <= fnv(key) as int % n < n) by (nonlinear_arith)
        requires
            n > 0,
    ;
}

/// Shards with the same entries make the same index.
proof fn lemma_merged_same(a: Seq<SkipList>, b: Seq<SkipList>)
    requires
        a.len() == b.len(),
        a.len() > 0,
        forall|i: int| 0 <= i < a.len() ==> (#[trigger] a[i])@ == b[i]@,
    ensures
        merged(a) == merged(b),
{
    assert forall|k: Seq<u8>| a[shard_of(k, a.len() as int)]@ == b[shard_of(k, a.len() as int)]@ by {
        lemma_shard_range(k, a.len() as int);
    }
    assert(merged(a) =~= merged(b));
}

/// A change of one key in the shard that owns it is the same change to the index.
proof fn lemma_merged_update(a: Seq<SkipList>, b: Seq<SkipList>, key: Seq<u8>)
    requires
        a.len() == b.len(),
        a.len() > 0,
        forall|i: int| 0 <= i < a.len() && i != shard_of(key, a.len() as int) ==> (#[trigger] a[i])@ == b[i]@,
    ensures
        forall|val: Seq<u8>|
            #![trigger a[shard_of(key, a.len() as int)]@.insert(key, val)]
            b[shard_of(key, a.len() as int)]@ == a[shard_of(key, a.len() as int)]@.insert(key, val) ==> merged(b)
                == merged(a).insert(key, val),
        b[shard_of(key, a.len() as int)]@ == a[shard_of(key, a.len() as int)]@.remove(key) ==> merged(b) == merged(
            a,
        ).remove(key),
{
    let n = a.len() as int;
    lemma_shard_range(key, n);
    assert forall|k: Seq<u8>| shard_of(k, n) != shard_of(key, n) implies a[shard_of(k, n)]@ == b[shard_of(k, n)]@ by {
        lemma_shard_range(k, n);
    }
    assert forall|val: Seq<u8>|
        #![trigger a[shard_of(key, n)]@.insert(key, val)]
        b[shard_of(key, n)]@ == a[shard_of(key, n)]@.insert(key, val) implies merged(b) == merged(a).insert(key, val) by {
        assert(merged(b) =~= merged(a).insert(key, val));
    }
    if b[shard_of(key, n)]@ == a[shard_of(key, n)]@.remove(key) {
        assert(merged(b) =~= merged(a).remove(key));
    }
}

impl ShardedIndex {
    /// The shard that owns `key`.
    fn shard(&self, key: &[u8]) -> (i: usize)
        requires
            self.frame_ok(),
        ensures
            i == shard_of(key@, self.shards@.len() as int),
            i < self.shards@.len(),
    {
        let h: u64 = fnv1a(key);
        proof {
            let n: u64 = self.shards.len() as u64;
            assert(n == self.shards@.len());
            pow2::mask_is_remainder(h, n);
            lemma_shard_range(key@, self.shards@.len() as int);
        }
        (h & self.mask) as usize
    }

    /// Frees what a collection has handed back.
    fn reclaim(&mut self, freed: Vec<Retired<Garbage>>)
        requires
            old(self).frame_ok(),
            old(self).shards_ok(old(self).domain@.records().add(freed@.to_multiset())),
            old(self).records_ok(old(self).domain@.records().add(freed@.to_multiset())),
        ensures
            final(self).frame_ok(),
            final(self).domain == old(self).domain,
            final(self).local == old(self).local,
            final(self).mask == old(self).mask,
            final(self).shards@.len() == old(self).shards@.len(),
            final(self).shards_ok(final(self).domain@.records()),
            final(self).records_ok(final(self).domain@.records()),
            final(self)@ == old(self)@,
            forall|s: int, c: usize|
                0 <= s < old(self).shards@.len() && #[trigger] old(self).shards@[s].cells().contains_key(c) && (forall|
                    r: Retired<Garbage>,
                | #[trigger]
                    freed@.contains(r) ==> !old(self).shards@[s].frees(r.item, c)) ==> {
                    &&& final(self).shards@[s].cells().contains_key(c)
                    &&& final(self).shards@[s].cells()[c] == old(self).shards@[s].cells()[c]
                },
            forall|s: int, g: Garbage, c: usize|
                0 <= s < old(self).shards@.len() && #[trigger] final(self).shards@[s].frees(g, c) ==> old(self).shards@[s].frees(
                    g,
                    c,
                ),
            forall|s: int|
                0 <= s < old(self).shards@.len() ==> (#[trigger] final(self).shards@[s]).max_level() == old(
                    self,
                ).shards@[s].max_level(),
    {
        let ghost s0 = self.shards@;
        let ghost all = freed@;
        let ghost records = self.domain@.records();
        let mut freed = freed;
        while freed.len() > 0
            invariant
                self.frame_ok(),
                self.domain == old(self).domain,
                self.local == old(self).local,
                self.mask == old(self).mask,
                self.shards@.len() == s0.len(),
                s0 == old(self).shards@,
                records == self.domain@.records(),
                freed@.len() <= all.len(),
                freed@ == all.take(freed@.len() as int),
                self.shards_ok(records.add(freed@.to_multiset())),
                self.records_ok(records.add(freed@.to_multiset())),
                forall|s: int| 0 <= s < s0.len() ==> (#[trigger] self.shards@[s])@ == s0[s]@ && self.shards@[s].max_level()
                    == s0[s].max_level(),
                forall|s: int, c: usize|
                    0 <= s < s0.len() && #[trigger] s0[s].cells().contains_key(c) && (forall|r: Retired<Garbage>| #[trigger]
                        all.contains(r) ==> !s0[s].frees(r.item, c)) ==> {
                        &&& self.shards@[s].cells().contains_key(c)
                        &&& self.shards@[s].cells()[c] == s0[s].cells()[c]
                    },
                forall|s: int, g: Garbage, c: usize|
                    0 <= s < s0.len() && #[trigger] self.shards@[s].frees(g, c) ==> s0[s].frees(g, c),
            decreases freed@.len(),
        {
            let ghost before = freed@;
            let ghost prev = *self;
            let ghost r0 = records.add(freed@.to_multiset());
            let a = freed.pop().unwrap();
            let ghost r1 = records.add(freed@.to_multiset());
            proof {
                broadcast use vstd::seq_lib::group_to_multiset_ensures;
                assert(before =~= freed@.push(a));
                assert(before.to_multiset() =~= freed@.to_multiset().insert(a));
                assert(r0.contains(a));
                assert(r1 =~= r0.remove(a));
                assert(freed@ =~= all.take(freed@.len() as int));
                assert(all[freed@.len() as int] == a);
                assert(all.contains(a));
                assert(self.shard_ok(skiplist::garbage_list(a.item) as int, r0));
                assert(a == Retired { item: a.item, epoch: a.epoch });
            }
            let list: usize = match a.item {
                Garbage::Node { list, .. } => list,
                Garbage::Value { list, .. } => list,
            };
            self.shards[list].reclaim(a.item);
            proof {
                let i = list as int;
                assert(r0.contains(Retired { item: a.item, epoch: a.epoch }));
                assert(self.shards@[i].tracks(r1));
                assert forall|j: int| 0 <= j < s0.len() implies #[trigger] self.shard_ok(j, r1) by {
                    assert(prev.shard_ok(j, r0));
                    if j != i {
                        assert(self.shards@[j] == prev.shards@[j]);
                        assert forall|b: Retired<Garbage>| skiplist::garbage_list(b.item) == j implies #[trigger] r1.count(b)
                            == r0.count(b) by {}
                        skiplist::tracks_own_records(&self.shards@[j], r0, r1);
                    }
                }
                assert forall|r: Retired<Garbage>| #[trigger] r1.contains(r) implies skiplist::garbage_list(r.item)
                    < self.shards@.len() by {
                    assert(r0.contains(r));
                }
                assert forall|s: int, g: Garbage, c: usize| 0 <= s < s0.len() && #[trigger] self.shards@[s].frees(g, c) implies s0[s].frees(
                    g,
                    c,
                ) by {
                    assert(prev.shards@[s].frees(g, c));
                }
                assert forall|s: int, c: usize|
                    0 <= s < s0.len() && #[trigger] s0[s].cells().contains_key(c) && (forall|r: Retired<Garbage>| #[trigger]
                        all.contains(r) ==> !s0[s].frees(r.item, c)) implies {
                    &&& self.shards@[s].cells().contains_key(c)
                    &&& self.shards@[s].cells()[c] == s0[s].cells()[c]
                } by {
                    assert(prev.shards@[s].cells().contains_key(c));
                    if s == i {
                        assert(!prev.shards@[s].frees(a.item, c));
                    }
                }
            }
        }
        proof {
            broadcast use vstd::seq_lib::group_to_multiset_ensures;
            assert(freed@.to_multiset() =~= Multiset::empty());
            assert(records.add(freed@.to_multiset()) =~= records);
            lemma_merged_same(s0, self.shards@);
        }
    }
}

impl ShardedIndex {
    /// What the pins that remain protect survives the end of a guard.
    proof fn lemma_released(prev: &Self, mid: &Self, after: &Self, g: int, freed: Seq<Retired<Garbage>>)
        requires
            prev.domain.wf(),
            prev.domain@.pinned(g),
            mid.shards == prev.shards,
            ({
                let idle = prev.domain@.unpin(g);
                ||| mid.domain@ == idle && freed == Seq::<Retired<Garbage>>::empty()
                ||| mid.domain@ == idle.collect() && freed == idle.collected()
            }),
            after.domain == mid.domain,
            after.shards@.len() == mid.shards@.len(),
            forall|s: int, c: usize|
                0 <= s < mid.shards@.len() && #[trigger] mid.shards@[s].cells().contains_key(c) && (forall|
                    r: Retired<Garbage>,
                | #[trigger]
                    freed.contains(r) ==> !mid.shards@[s].frees(r.item, c)) ==> {
                    &&& after.shards@[s].cells().contains_key(c)
                    &&& after.shards@[s].cells()[c] == mid.shards@[s].cells()[c]
                },
            forall|s: int, x: Garbage, c: usize|
                0 <= s < mid.shards@.len() && #[trigger] after.shards@[s].frees(x, c) ==> mid.shards@[s].frees(x, c),
        ensures
            forall|slot: int, s: int, c: usize|
                (slot != g || prev.domain@.depth(slot) > 1) && #[trigger] prev.protected(slot, s, c) ==> after.protected(
                    slot,
                    s,
                    c,
                ) && after.shards@[s].cells()[c] == prev.shards@[s].cells()[c],
    {
        let d0 = prev.domain@;
        let idle = d0.unpin(g);
        prev.domain.lemma_wf();
        lemma_idle_wf(d0, g);
        assert forall|slot: int, s: int, c: usize|
            (slot != g || d0.depth(slot) > 1) && #[trigger] prev.protected(slot, s, c) implies after.protected(
            slot,
            s,
            c,
        ) && after.shards@[s].cells()[c] == prev.shards@[s].cells()[c] by {
            let list = prev.shards@[s];
            list.protection_outlives_other_guards(d0, slot, c, g);
            assert(list.cell_protected(idle, slot, c));
            list.collection_spares_protected(idle, slot, c);
            assert(list.cell_protected(mid.domain@, slot, c));
            assert(mid.shards@[s].cells().contains_key(c));
            assert forall|r: Retired<Garbage>| #[trigger] freed.contains(r) implies !mid.shards@[s].frees(r.item, c) by {}
            assert(after.shards@[s].cells().contains_key(c));
            assert forall|r: Retired<Garbage>| #[trigger] after.domain@.records().contains(r) && after.shards@[s].frees(r.item, c) implies
                after.domain@.pin_epoch(slot) <= r.epoch by {
                assert(mid.shards@[s].frees(r.item, c));
            }
        }
    }

    /// What an unpin leaves is ready for its garbage to be freed.
    proof fn lemma_handed_back(&self, mid: &Self, g: int, freed: Seq<Retired<Garbage>>)
        requires
            self.frame_ok(),
            self.shards_ok(self.domain@.records()),
            self.records_ok(self.domain@.records()),
            self.domain@.pinned(g),
            mid.shards == self.shards,
            mid.mask == self.mask,
            mid.local.slot() == self.local.slot(),
            mid.domain.wf(),
            mid.domain@.slots == self.domain@.unpin(g).slots,
            self.domain@.records() == mid.domain@.records().add(freed.to_multiset()),
        ensures
            mid.frame_ok(),
            mid.shards_ok(mid.domain@.records().add(freed.to_multiset())),
            mid.records_ok(mid.domain@.records().add(freed.to_multiset())),
    {
        let d0 = self.domain@;
        assert forall|i: int| 0 <= i < mid.shards@.len() implies #[trigger] mid.shard_ok(i, d0.records()) by {
            assert(self.shard_ok(i, d0.records()));
        }
        assert(d0.claimed(self.local.slot()->0 as int));
        assert(mid.domain@.claimed(mid.local.slot()->0 as int));
    }

    /// Looks `key` up and borrows its value. The guard is that of the caller.
    pub fn get(&self, key: &[u8], guard: &Guard) -> (r: Option<&[u8]>)
        requires
            self.wf(),
        ensures
            r is Some <==> self@.contains_key(key@),
            r is Some ==> r->0@ == self@[key@],
    {
        let i = self.shard(key);
        proof {
            assert(self.shard_ok(i as int, self.domain@.records()));
        }
        self.shards[i].get(key, guard)
    }
}

/// Giving a guard up keeps a domain's state well formed.
proof fn lemma_idle_wf<T>(d: DomainView<T>, g: int)
    requires
        d.wf(),
        d.pinned(g),
    ensures
        d.unpin(g).wf(),
{
    let v = d.unpin(g);
    assert forall|i: int| #[trigger] v.pinned(i) implies v.pin_epoch(i) <= v.epoch <= v.pin_epoch(i) + 1 && v.depth(i) > 0 by {
        assert(d.pinned(i));
    }
}

impl ShardedIndex {
    /// Pins the index's own slot for the time of one operation.
    fn enter(&mut self) -> (guard: Guard)
        requires
            old(self).wf(),
        ensures
            final(self).frame_ok(),
            final(self).shards == old(self).shards,
            final(self).mask == old(self).mask,
            final(self).own_slot() == old(self).own_slot(),
            final(self).tick() == old(self).tick(),
            guard.slot() == final(self).own_slot(),
            0 <= guard.slot() < ebr::N_SLOTS,
            final(self).domain@ == old(self).domain@.pin(guard.slot()),
            final(self).domain@.pinned(guard.slot()),
            final(self).domain@.depth(guard.slot()) == 1,
            final(self).shards_ok(final(self).domain@.records()),
            final(self).records_ok(final(self).domain@.records()),
            forall|slot: int, s: int, c: usize| #[trigger]
                old(self).protected(slot, s, c) ==> slot != guard.slot() && final(self).protected(slot, s, c),
    {
        let ghost prev = *self;
        let ghost d0 = self.domain@;
        proof {
            self.domain.lemma_wf();
        }
        let guard = self.domain.pin(&mut self.local);
        proof {
            let own = guard.slot();
            assert(self.domain@.records() == d0.records());
            assert forall|i: int| 0 <= i < self.shards@.len() implies #[trigger] self.shard_ok(i, self.domain@.records()) by {
                assert(prev.shard_ok(i, d0.records()));
            }
            assert forall|slot: int, s: int, c: usize| #[trigger] prev.protected(slot, s, c) implies slot != own
                && self.protected(slot, s, c) by {
                prev.shards@[s].protection_outlives_other_guards(d0, slot, c, own);
                assert(d0.pinned(slot));
            }
        }
        guard
    }

    /// Ends an operation: gives the index's own guard up.
    fn leave(&mut self, guard: Guard)
        requires
            old(self).frame_ok(),
            old(self).shards_ok(old(self).domain@.records()),
            old(self).records_ok(old(self).domain@.records()),
            guard.slot() == old(self).own_slot(),
            old(self).domain@.pinned(guard.slot()),
            old(self).domain@.depth(guard.slot()) == 1,
        ensures
            final(self).wf(),
            final(self)@ == old(self)@,
            final(self).own_slot() == old(self).own_slot(),
            final(self).shards@.len() == old(self).shards@.len(),
            final(self).tick() == ebr::next_tick(old(self).tick()),
            final(self).domain@ == old(self).domain@.release(guard.slot(), final(self).tick()),
            final(self).domain@.slots == old(self).domain@.unpin(guard.slot()).slots,
            forall|slot: int, s: int, c: usize|
                slot != guard.slot() && #[trigger] old(self).protected(slot, s, c) ==> final(self).protected(slot, s, c)
                    && final(self).shards@[s].cells()[c] == old(self).shards@[s].cells()[c],
    {
        let ghost prev = *self;
        let ghost d0 = self.domain@;
        let ghost g = guard.slot();
        proof {
            self.domain.lemma_wf();
        }
        let freed = guard.unpin(&mut self.domain, &mut self.local);
        let ghost mid = *self;
        let ghost freed_all = freed@;
        proof {
            prev.lemma_handed_back(&mid, g, freed_all);
        }
        self.reclaim(freed);
        proof {
            Self::lemma_released(&prev, &mid, self, g, freed_all);
        }
    }
}

impl ShardedIndex {
    /// A domain to which at most one record was added, by a retirement or not at all, has the
    /// counts that it had but for that record.
    proof fn lemma_retired(&self, after: &Self)
        requires
            self.domain@.wf(),
        ensures
            forall|g: Garbage|
                after.domain@ == #[trigger] self.domain@.retire(g) ==> after.domain@.slots == self.domain@.slots && forall|
                    r: Retired<Garbage>,
                |
                    after.domain@.records().count(r) != #[trigger] self.domain@.records().count(r) ==> r.item == g,
    {
        assert forall|g: Garbage| after.domain@ == #[trigger] self.domain@.retire(g) implies after.domain@.slots
            == self.domain@.slots && forall|r: Retired<Garbage>|
            after.domain@.records().count(r) != #[trigger] self.domain@.records().count(r) ==> r.item == g by {
            self.domain@.retire_adds(g);
        }
    }

    /// An operation between `enter` and `leave` that spares what others protect does so as a
    /// whole.
    proof fn lemma_spared(&self, entered: &Self, done: &Self, left: &Self, own: int)
        requires
            own == self.own_slot(),
            0 <= own < ebr::N_SLOTS,
            self.domain@.wf(),
            entered.shards == self.shards,
            entered.domain@ == self.domain@.pin(own),
            done.shards@.len() == entered.shards@.len(),
            done.domain@.slots == entered.domain@.slots,
            left.own_slot() == own,
            left.shards@.len() == done.shards@.len(),
            left.domain@.slots == done.domain@.unpin(own).slots,
            forall|slot: int, s: int, c: usize| #[trigger]
                self.protected(slot, s, c) ==> slot != own && entered.protected(slot, s, c),
            forall|slot: int, s: int, c: usize| #[trigger]
                entered.protected(slot, s, c) ==> done.protected(slot, s, c) && done.shards@[s].cells()[c]
                    == entered.shards@[s].cells()[c],
            forall|slot: int, s: int, c: usize|
                slot != own && #[trigger] done.protected(slot, s, c) ==> left.protected(slot, s, c)
                    && left.shards@[s].cells()[c] == done.shards@[s].cells()[c],
        ensures
            left.spares(self),
    {
        assert forall|slot: int, s: int, c: usize| #[trigger] self.protected(slot, s, c) implies left.protected(slot, s, c)
            && left.shards()[s].cells()[c] == self.shards()[s].cells()[c] by {
            assert(entered.protected(slot, s, c));
            assert(done.protected(slot, s, c));
        }
    }

    /// After a change to one shard under the index's own guard, everything that spans the
    /// shards is in order, provided that the change was one that the shard itself keeps.
    proof fn lemma_shard_changed(&self, after: &Self, i: int)
        requires
            self.frame_ok(),
            self.shards_ok(self.domain@.records()),
            self.records_ok(self.domain@.records()),
            0 <= i < self.shards@.len(),
            after.mask == self.mask,
            after.local == self.local,
            after.shards@ == self.shards@.update(i, after.shards@[i]),
            after.shards@[i].wf(),
            after.shards@[i].keeps(&self.shards@[i]),
            after.shards@[i].tracks(after.domain@.records()),
            forall|k: Seq<u8>| #[trigger]
                after.shards@[i]@.contains_key(k) ==> shard_of(k, self.shards@.len() as int) == i,
            after.domain.wf(),
            after.domain@.slots == self.domain@.slots,
            forall|r: Retired<Garbage>|
                after.domain@.records().count(r) != #[trigger] self.domain@.records().count(r)
                    ==> skiplist::garbage_list(r.item) == i,
            forall|slot: int, c: usize| #[trigger]
                self.shards@[i].cell_protected(self.domain@, slot, c) ==> after.shards@[i].cell_protected(
                    after.domain@,
                    slot,
                    c,
                ),
        ensures
            after.frame_ok(),
            after.shards_ok(after.domain@.records()),
            after.records_ok(after.domain@.records()),
            forall|slot: int, s: int, c: usize| #[trigger]
                self.protected(slot, s, c) ==> after.protected(slot, s, c) && after.shards@[s].cells()[c]
                    == self.shards@[s].cells()[c],
    {
        let d0 = self.domain@;
        let d1 = after.domain@;
        assert forall|j: int| 0 <= j < after.shards@.len() implies #[trigger] after.shard_ok(j, d1.records()) by {
            assert(self.shard_ok(j, d0.records()));
            if j != i {
                assert(after.shards@[j] == self.shards@[j]);
                assert forall|r: Retired<Garbage>| skiplist::garbage_list(r.item) == j implies #[trigger] d1.records().count(r)
                    == d0.records().count(r) by {
                    assert(d0.records().count(r) == d0.records().count(r));
                }
                skiplist::tracks_own_records(&self.shards@[j], d0.records(), d1.records());
            }
        }
        assert(self.shard_ok(i, d0.records()));
        assert forall|r: Retired<Garbage>| #[trigger] d1.records().contains(r) implies skiplist::garbage_list(r.item)
            < after.shards@.len() by {
            if skiplist::garbage_list(r.item) != i {
                assert(d1.records().count(r) == d0.records().count(r));
                assert(d0.records().contains(r));
            }
        }
        assert(d0.claimed(self.local.slot()->0 as int));
        assert(d1.claimed(after.local.slot()->0 as int));
        assert forall|slot: int, s: int, c: usize| #[trigger] self.protected(slot, s, c) implies after.protected(slot, s, c)
            && after.shards@[s].cells()[c] == self.shards@[s].cells()[c] by {
            if s != i {
                assert(after.shards@[s] == self.shards@[s]);
                assert(self.shard_ok(s, d0.records()));
                assert(d0.pinned(slot));
                assert forall|r: Retired<Garbage>| #[trigger] d1.records().contains(r) && self.shards@[s].frees(r.item, c) implies
                    d1.pin_epoch(slot) <= r.epoch by {
                    assert(d1.records().count(r) == d0.records().count(r));
                    assert(d0.records().contains(r));
                }
            } else {
                assert(self.shards@[i].cell_protected(d0, slot, c));
                assert(self.shards@[i].cells().contains_key(c));
            }
        }
    }

    /// Inserts or updates `key`. Returns whether the key is new.
    pub fn insert(&mut self, key: &[u8], val: &[u8]) -> (created: bool)
        requires
            old(self).wf(),
        ensures
            final(self).wf(),
            created == !old(self)@.contains_key(key@),
            final(self)@ == old(self)@.insert(key@, val@),
            final(self).spares(old(self)),
            final(self).stepped(
                old(self),
                if created {
                    None
                } else {
                    let home = old(self).home(key@);
                    Some(Garbage::Value { list: home.id(), cell: home.cell_of(key@) })
                },
            ),
    {
        let ghost s0 = *self;
        let guard = self.enter();
        let ghost s1 = *self;
        let i = self.shard(key);
        proof {
            assert(s1.shard_ok(i as int, s1.domain@.records()));
        }
        let created = self.shards[i].insert(key, val, &guard, &mut self.domain);
        let ghost s2 = *self;
        proof {
            s1.domain.lemma_wf();
            s1.lemma_retired(&s2);
            s1.lemma_shard_changed(&s2, i as int);
            lemma_merged_update(s1.shards@, s2.shards@, key@);
            assert(s2@ == s0@.insert(key@, val@));
        }
        self.leave(guard);
        proof {
            s0.domain.lemma_wf();
            s0.lemma_spared(&s1, &s2, self, s0.own_slot());
        }
        created
    }

    /// Removes `key`. Returns whether the index held it.
    pub fn remove(&mut self, key: &[u8]) -> (removed: bool)
        requires
            old(self).wf(),
        ensures
            final(self).wf(),
            removed == old(self)@.contains_key(key@),
            final(self)@ == old(self)@.remove(key@),
            final(self).spares(old(self)),
            final(self).stepped(
                old(self),
                if removed {
                    let home = old(self).home(key@);
                    Some(Garbage::Node { list: home.id(), node: home.node_of(key@) })
                } else {
                    None
                },
            ),
    {
        let ghost s0 = *self;
        let guard = self.enter();
        let ghost s1 = *self;
        let i = self.shard(key);
        proof {
            assert(s1.shard_ok(i as int, s1.domain@.records()));
        }
        let removed = self.shards[i].remove(key, &guard, &mut self.domain);
        let ghost s2 = *self;
        proof {
            s1.domain.lemma_wf();
            s1.lemma_retired(&s2);
            s1.lemma_shard_changed(&s2, i as int);
            lemma_merged_update(s1.shards@, s2.shards@, key@);
            assert(s2@ == s0@.remove(key@));
        }
        self.leave(guard);
        proof {
            s0.domain.lemma_wf();
            s0.lemma_spared(&s1, &s2, self, s0.own_slot());
        }
        removed
    }

    /// Looks `key` up and copies its value out.
    pub fn get_owned(&mut self, key: &[u8]) -> (r: Option<Vec<u8>>)
        requires
            old(self).wf(),
        ensures
            final(self).wf(),
            final(self)@ == old(self)@,
            r is Some <==> old(self)@.contains_key(key@),
            r is Some ==> r->0@ == old(self)@[key@],
            final(self).spares(old(self)),
            final(self).stepped(old(self), None),
    {
        let ghost s0 = *self;
        let guard = self.enter();
        let ghost s1 = *self;
        let i = self.shard(key);
        proof {
            assert(s1.shard_ok(i as int, s1.domain@.records()));
        }
        let r = match self.shards[i].get(key, &guard) {
            Some(bytes) => Some(vstd::slice::slice_to_vec(bytes)),
            None => None,
        };
        self.leave(guard);
        proof {
            s0.domain.lemma_wf();
            s0.lemma_spared(&s1, &s1, self, s0.own_slot());
        }
        r
    }
}

/// The entries of the first `n` shards are as many as the keys that route there.
proof fn lemma_total_len(shards: Seq<SkipList>, n: int)
    requires
        0 <= n <= shards.len(),
        shards.len() > 0,
        forall|i: int| 0 <= i < shards.len() ==> (#[trigger] shards[i])@.dom().finite(),
        forall|i: int, k: Seq<u8>|
            0 <= i < shards.len() && #[trigger] shards[i]@.contains_key(k) ==> shard_of(k, shards.len() as int) == i,
    ensures
        ({
            let keys = merged(shards).dom().filter(|k: Seq<u8>| shard_of(k, shards.len() as int) < n);
            &&& keys.finite()
            &&& keys.len() == total_len(shards, n)
        }),
    decreases n,
{
    let len = shards.len() as int;
    let keys = merged(shards).dom().filter(|k: Seq<u8>| shard_of(k, len) < n);
    if n == 0 {
        assert forall|k: Seq<u8>| !keys.contains(k) by {
            lemma_shard_range(k, len);
        }
        assert(keys =~= Set::empty());
    } else {
        lemma_total_len(shards, n - 1);
        let below = merged(shards).dom().filter(|k: Seq<u8>| shard_of(k, len) < n - 1);
        let here = shards[n - 1]@.dom();
        assert forall|k: Seq<u8>| #[trigger] keys.contains(k) <==> below.contains(k) || here.contains(k) by {
            if here.contains(k) {
                assert(shards[n - 1]@.contains_key(k));
            }
        }
        assert(keys =~= below + here);
        assert(below.disjoint(here)) by {
            assert forall|k: Seq<u8>| here.contains(k) implies !below.contains(k) by {
                assert(shards[n - 1]@.contains_key(k));
            }
        }
        vstd::set_lib::lemma_set_disjoint_lens(below, here);
    }
}

impl ShardedIndex {
    /// The participant behind `local` can pin the index.
    pub open spec fn may_pin(&self, local: &LocalSlot) -> bool {
        match local.slot() {
            Some(i) => {
                &&& i != self.own_slot()
                &&& self.domain().claimed(i as int)
                &&& self.domain().depth(i as int) < usize::MAX
            },
            None => exists|i: int| 0 <= i < ebr::N_SLOTS && #[trigger] self.domain().slots[i] is Free,
        }
    }

    /// Pins the participant behind `local`. Until the guard is given up with
    /// [`ShardedIndex::unpin`], what is found under it is not freed.
    pub fn pin(&mut self, local: &mut LocalSlot) -> (guard: Guard)
        requires
            old(self).wf(),
            old(self).may_pin(old(local)),
        ensures
            final(self).wf(),
            final(self)@ == old(self)@,
            final(self).shards() == old(self).shards(),
            final(self).own_slot() == old(self).own_slot(),
            final(self).tick() == old(self).tick(),
            final(local).tick() == old(local).tick(),
            final(local).slot() is Some,
            final(local).slot()->0 == guard.slot(),
            guard.slot() != old(self).own_slot(),
            match old(local).slot() {
                Some(i) => guard.slot() == i && final(self).domain() == old(self).domain().pin(i as int),
                None => old(self).domain().slots[guard.slot()] is Free && final(self).domain() == old(
                    self,
                ).domain().claim(guard.slot()).pin(guard.slot()),
            },
            final(self).domain().pinned(guard.slot()),
            forall|slot: int, s: int, c: usize| #[trigger]
                old(self).protected(slot, s, c) ==> final(self).protected(slot, s, c),
    {
        let ghost s0 = *self;
        let ghost d0 = self.domain@;
        proof {
            self.domain.lemma_wf();
        }
        let guard = self.domain.pin(local);
        proof {
            let g = guard.slot();
            let d1 = if old(local).slot() is Some { d0 } else { d0.claim(g) };
            assert(d0.claimed(s0.own_slot()));
            assert(self.domain@ == d1.pin(g));
            assert(self.domain@.records() == d0.records());
            assert(self.domain@.claimed(self.own_slot()));
            assert forall|i: int| 0 <= i < self.shards@.len() implies #[trigger] self.shard_ok(i, self.domain@.records()) by {
                assert(s0.shard_ok(i, d0.records()));
            }
            assert forall|slot: int, s: int, c: usize| #[trigger] s0.protected(slot, s, c) implies self.protected(slot, s, c) by {
                let list = s0.shards@[s];
                list.protection_outlives_other_guards(d0, slot, c, g);
                list.protection_outlives_other_guards(d1, slot, c, g);
            }
            assert(self.domain@.slots[self.own_slot()] == d0.slots[self.own_slot()]);
        }
        guard
    }

    /// Gives a guard up, and frees garbage that has grown old enough.
    pub fn unpin(&mut self, guard: Guard, local: &mut LocalSlot)
        requires
            old(self).wf(),
            old(self).domain().pinned(guard.slot()),
        ensures
            final(self).wf(),
            final(self)@ == old(self)@,
            final(self).own_slot() == old(self).own_slot(),
            final(self).shards().len() == old(self).shards().len(),
            final(self).tick() == old(self).tick(),
            final(local).slot() == old(local).slot(),
            final(local).tick() == ebr::next_tick(old(local).tick()),
            final(self).domain() == old(self).domain().release(guard.slot(), final(local).tick()),
            forall|slot: int, s: int, c: usize|
                (slot != guard.slot() || old(self).domain().depth(slot) > 1) && #[trigger] old(self).protected(slot, s, c)
                    ==> final(self).protected(slot, s, c) && final(self).shards()[s].cells()[c] == old(
                    self,
                ).shards()[s].cells()[c],
    {
        let ghost prev = *self;
        let ghost g = guard.slot();
        proof {
            self.domain.lemma_wf();
        }
        let freed = guard.unpin(&mut self.domain, local);
        let ghost mid = *self;
        let ghost freed_all = freed@;
        proof {
            prev.lemma_handed_back(&mid, g, freed_all);
        }
        self.reclaim(freed);
        proof {
            Self::lemma_released(&prev, &mid, self, g, freed_all);
            assert(self.domain@.slots[self.own_slot()] == prev.domain@.slots[self.own_slot()]);
        }
    }

    /// What was unlinked and not freed yet is on the domain's record, and nothing else is. So a
    /// collection that takes a record off frees the memory that it names.
    pub proof fn dead_memory_is_on_record(&self, s: int)
        requires
            self.wf(),
            0 <= s < self.shards().len(),
        ensures
            self.shards()[s].tracks(self.domain().records()),
    {
        assert(self.shard_ok(s, self.domain@.records()));
    }

    /// Every operation counts, and one in 128 collects: where no participant is pinned at an older
    /// epoch, that raises the epoch, and no record of what was retired two epochs before is left.
    /// What an operation retires comes on record, and what others have pinned stays pinned.
    pub proof fn operations_collect_in_turn(&self, before: &Self, garbage: Option<Garbage>, r: Retired<Garbage>)
        requires
            before.wf(),
            self.stepped(before, garbage),
        ensures
            self.tick() == (before.tick() + 1) % 0x1_0000_0000,
            ({
                let old_count = before.domain().records().count(r) + (if garbage is Some && r == (Retired {
                    item: garbage->0,
                    epoch: before.domain().epoch as u64,
                }) {
                    1int
                } else {
                    0
                });
                let quiet = forall|k: int| #[trigger]
                    before.domain().pinned(k) ==> before.domain().pin_epoch(k) == before.domain().epoch;
                let now = self.domain().epoch;
                &&& self.tick() % 128 != 0 ==> now == before.domain().epoch && self.domain().records().count(r) == old_count
                &&& self.tick() % 128 == 0 && quiet && now < 0x3fff_ffff_ffff_ffff ==> now == before.domain().epoch + 1
                &&& self.tick() % 128 == 0 ==> self.domain().records().count(r) == (if r.epoch + 2 <= now {
                    0
                } else {
                    old_count
                })
            }),
    {
        let own = before.own_slot();
        let d = before.domain();
        before.domain.lemma_wf();
        assert(d.claimed(own));
        ebr::ticks_count_unpins(before.tick());
        d.pins_publish_the_epoch(own);
        let pinned = d.pin(own);
        let done = match garbage {
            Some(g) => pinned.retire(g),
            None => pinned,
        };
        if garbage is Some {
            pinned.retire_adds(garbage->0);
            assert(done.wf()) by {
                let g = garbage->0;
                let b = (pinned.epoch % 3) as int;
                assert forall|i: int| #[trigger] done.pinned(i) implies done.pin_epoch(i) <= done.epoch <= done.pin_epoch(i) + 1
                    && done.depth(i) > 0 by {
                    assert(pinned.pinned(i));
                }
                assert forall|c: int, j: int| 0 <= c < ebr::N_BAGS && 0 <= j < done.bags[c].len() implies (
                #[trigger] done.bags[c][j]).epoch <= done.epoch && done.bags[c][j].epoch % 3 == c by {
                    if c != b || j < pinned.bags[c].len() {
                        assert(done.bags[c][j] == pinned.bags[c][j]);
                    }
                }
            }
        }
        assert(done.pinned(own));
        done.guards_are_counted(own);
        done.unpins_collect_in_turn(own, self.tick());
        let idle = done.unpin(own);
        assert forall|k: int| #[trigger] idle.pinned(k) implies d.pinned(k) && idle.pin_epoch(k) == d.pin_epoch(k) by {
            assert(k != own);
            assert(idle.slots[k] == done.slots[k]);
            assert(pinned.slots[k] == d.slots[k]);
        }
    }

    /// Looks `key` up under a guard. The reference can be read for as long as the guard is
    /// held, whatever happens to the key meanwhile.
    pub fn get_ref(&self, key: &[u8], guard: &Guard) -> (r: Option<ShardRef>)
        requires
            self.wf(),
            self.domain().pinned(guard.slot()),
        ensures
            r is Some <==> self@.contains_key(key@),
            r is Some ==> {
                &&& self.protected(guard.slot(), r->0.shard(), r->0.cell())
                &&& self.shards()[r->0.shard()].cells()[r->0.cell()] == self@[key@]
            },
    {
        let i = self.shard(key);
        proof {
            assert(self.shard_ok(i as int, self.domain@.records()));
            self.domain.lemma_wf();
            if self.shards@[i as int]@.contains_key(key@) {
                self.shards@[i as int].lookup_is_protected(self.domain@, guard.slot(), key@);
            }
        }
        match self.shards[i].get_ref(key, guard) {
            Some(value) => Some(ShardRef { shard: i, value }),
            None => None,
        }
    }

    /// Reads what a reference found under `guard`, which is still held, refers to.
    pub fn read(&self, r: &ShardRef, guard: &Guard) -> (bytes: &[u8])
        requires
            self.wf(),
            self.protected(guard.slot(), r.shard(), r.cell()),
        ensures
            bytes@ == self.shards()[r.shard()].cells()[r.cell()],
    {
        proof {
            assert(self.shard_ok(r.shard(), self.domain@.records()));
        }
        let _ = guard;
        self.shards[r.shard].read(&r.value)
    }

    /// The number of entries.
    pub fn len(&self) -> (n: usize)
        requires
            self.wf(),
            self@.len() <= usize::MAX,
        ensures
            n == self@.len(),
            self@.dom().finite(),
    {
        let ghost shards = self.shards@;
        proof {
            assert forall|i: int| 0 <= i < shards.len() implies (#[trigger] shards[i])@.dom().finite() by {
                assert(self.shard_ok(i, self.domain@.records()));
                shards[i].wf_is_finite();
            }
            assert forall|i: int, k: Seq<u8>| 0 <= i < shards.len() && #[trigger] shards[i]@.contains_key(k) implies shard_of(
                k,
                shards.len() as int,
            ) == i by {
                assert(self.shard_ok(i, self.domain@.records()));
            }
            lemma_total_len(shards, shards.len() as int);
            let all = merged(shards).dom().filter(|k: Seq<u8>| shard_of(k, shards.len() as int) < shards.len());
            assert forall|k: Seq<u8>| #[trigger] merged(shards).dom().contains(k) implies all.contains(k) by {
                lemma_shard_range(k, shards.len() as int);
            }
            assert(all =~= self@.dom());
            assert(total_len(shards, shards.len() as int) == self@.len());
        }
        let mut n: usize = 0;
        let mut i: usize = 0;
        while i < self.shards.len()
            invariant
                i <= self.shards@.len(),
                shards == self.shards@,
                self.shards_ok(self.domain@.records()),
                n == total_len(shards, i as int),
                total_len(shards, shards.len() as int) <= usize::MAX,
            decreases self.shards@.len() - i,
        {
            proof {
                assert(self.shard_ok(i as int, self.domain@.records()));
                lemma_total_grows(shards, i + 1, shards.len() as int);
            }
            n = n + self.shards[i].len();
            i += 1;
        }
        n
    }

    /// Whether there is no entry.
    pub fn is_empty(&self) -> (r: bool)
        requires
            self.wf(),
        ensures
            r == (self@ == Map::<Seq<u8>, Seq<u8>>::empty()),
    {
        let mut i: usize = 0;
        while i < self.shards.len()
            invariant
                i <= self.shards@.len(),
                self.wf(),
                forall|j: int| 0 <= j < i ==> (#[trigger] self.shards@[j])@ == Map::<Seq<u8>, Seq<u8>>::empty(),
            decreases self.shards@.len() - i,
        {
            assert(self.shard_ok(i as int, self.domain@.records()));
            if !self.shards[i].is_empty() {
                proof {
                    let m = self.shards@[i as int]@;
                    if forall|k: Seq<u8>| !m.contains_key(k) {
                        assert(m =~= Map::empty());
                    }
                    let k = choose|k: Seq<u8>| m.contains_key(k);
                    assert(self@.contains_key(k));
                }
                return false;
            }
            i += 1;
        }
        proof {
            assert forall|k: Seq<u8>| !self@.contains_key(k) by {
                lemma_shard_range(k, self.shards@.len() as int);
            }
            assert(self@ =~= Map::empty());
        }
        true
    }

    /// The number of shards.
    pub fn num_shards(&self) -> (n: usize)
        ensures
            n == self.shards().len(),
    {
        self.shards.len()
    }
}

proof fn lemma_total_grows(shards: Seq<SkipList>, a: int, b: int)
    requires
        0 <= a <= b,
    ensures
        total_len(shards, a) <= total_len(shards, b),
    decreases b,
{
    if a < b {
        lemma_total_grows(shards, a, b - 1);
    }
}

/// A reference to a value: its shard, and its cell there.
#[derive(Clone, Copy)]
pub struct ShardRef {
    shard: usize,
    value: ValueRef,
}

impl ShardRef {
    /// The shard.
    pub closed spec fn shard(&self) -> int {
        self.shard as int
    }

    /// The cell.
    pub closed spec fn cell(&self) -> usize {
        self.value.cell()
    }
}

} // verus!
