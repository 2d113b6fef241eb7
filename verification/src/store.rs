//! The store: the sharded index, with an optional write-ahead log in front of it.
//!
//! A write goes to the log first, where there is one, as a frame of the key's length, the key
//! and the value. Then it goes to the index, which serves all reads.

use vstd::prelude::*;
use crate::le;
use crate::mmap_log;
use crate::mmap_log::{LogView, MappedLog};
use crate::pow2;
use crate::shard::ShardedIndex;

verus! {

/// The frame of a write: four bytes for the key's length, then key and value.
pub open spec fn frame(key: Seq<u8>, value: Seq<u8>) -> Seq<u8> {
    le::le(key.len(), 4) + key + value
}

/// The key that a frame holds.
pub open spec fn frame_key(f: Seq<u8>) -> Seq<u8> {
    f.subrange(4, 4 + le::le_value(f.take(4)) as int)
}

/// The value that a frame holds.
pub open spec fn frame_value(f: Seq<u8>) -> Seq<u8> {
    f.skip(4 + le::le_value(f.take(4)) as int)
}

/// A frame gives back the key and the value that it was made of, as long as the key's length
/// fits its four bytes.
pub proof fn frame_round_trip(key: Seq<u8>, value: Seq<u8>)
    requires
        key.len() < 0x1_0000_0000,
    ensures
        frame_key(frame(key, value)) == key,
        frame_value(frame(key, value)) == value,
{
    le::le_ranges();
    le::le_round_trip(key.len(), 4);
    let f = frame(key, value);
    assert(f.take(4) =~= le::le(key.len(), 4));
    assert(frame_key(f) =~= key);
    assert(frame_value(f) =~= value);
}

/// Builds the frame of a write.
pub fn make_frame(key: &[u8], value: &[u8]) -> (f: Vec<u8>)
    ensures
        f@ == frame(key@, value@),
{
    let mut f: Vec<u8> = le::to_le(key.len() as u128, 4);
    f.extend_from_slice(key);
    f.extend_from_slice(value);
    assert(f@ =~= frame(key@, value@));
    f
}

/// What a store holds: its entries, and its log if it has one.
#[verifier::ext_equal]
pub struct StoreView {
    pub entries: Map<Seq<u8>, Seq<u8>>,
    pub wal: Option<LogView>,
}

impl StoreView {
    /// There is room for a write in the log, or no log.
    pub open spec fn takes(self, key: Seq<u8>, value: Seq<u8>) -> bool {
        self.wal matches Some(log) ==> log.has_room(frame(key, value).len())
    }

    /// The store after a write: a frame more in the log, if there is one, and the value in the
    /// index. A write for which the log has no room is not applied.
    pub open spec fn put(self, key: Seq<u8>, value: Seq<u8>) -> StoreView {
        if self.takes(key, value) {
            StoreView {
                entries: self.entries.insert(key, value),
                wal: match self.wal {
                    Some(log) => Some(log.append(frame(key, value))),
                    None => None,
                },
            }
        } else {
            self
        }
    }

    /// The store after a removal, which is not logged.
    pub open spec fn delete(self, key: Seq<u8>) -> StoreView {
        StoreView { entries: self.entries.remove(key), ..self }
    }

    /// What a read of `key` gives.
    pub open spec fn get(self, key: Seq<u8>) -> Option<Seq<u8>> {
        if self.entries.contains_key(key) {
            Some(self.entries[key])
        } else {
            None
        }
    }
}

/// A read gives back what the last write of its key that the store took wrote, nothing after a
/// removal, and is not affected by writes and removals of other keys.
pub proof fn reads_see_writes(s: StoreView, key: Seq<u8>, value: Seq<u8>, other: Seq<u8>)
    ensures
        s.takes(key, value) ==> s.put(key, value).get(key) == Some(value),
        !s.takes(key, value) ==> s.put(key, value).get(key) == s.get(key),
        s.delete(key).get(key) is None,
        other != key ==> s.put(key, value).get(other) == s.get(other) && s.delete(key).get(other) == s.get(other),
{
}

/// A durable store that took a write has it in its log, as its last record. What is not in the
/// log is not in the index either: a write that the log did not take changes nothing.
pub proof fn writes_are_logged(s: StoreView, key: Seq<u8>, value: Seq<u8>)
    requires
        s.wal is Some,
        s.put(key, value) != s,
        key.len() < 0x1_0000_0000,
    ensures
        ({
            let log = s.put(key, value).wal->0;
            &&& log.records.len() == s.wal->0.records.len() + 1
            &&& frame_key(log.records.last()) == key
            &&& frame_value(log.records.last()) == value
        }),
{
    frame_round_trip(key, value);
}

/// A frame is the length of the key, the key, and the value, one after the other.
pub proof fn frames_are_length_key_value(key: Seq<u8>, value: Seq<u8>, i: int)
    requires
        0 <= i < 4,
    ensures
        frame(key, value).len() == 4 + key.len() + value.len(),
        frame(key, value)[i] == (key.len() as int / vstd::arithmetic::power::pow(256, i as nat)) % 256,
        frame(key, value).subrange(4, 4 + key.len() as int) == key,
        frame(key, value).skip(4 + key.len() as int) == value,
{
    le::digits_are_by_place(key.len(), 4, i);
    let f = frame(key, value);
    assert(f.subrange(4, 4 + key.len() as int) =~= key);
    assert(f.skip(4 + key.len() as int) =~= value);
}

/// A store takes a write unless its log, if it has one, has too few bytes left for the frame. A
/// write that it takes is what a read of the key gives from then on, is behind all that the log
/// held, and changes nothing else; a write that it does not take changes nothing.
pub proof fn writes_that_fit_are_taken(s: StoreView, key: Seq<u8>, value: Seq<u8>, other: Seq<u8>)
    ensures
        ({
            let fits = s.wal is None || s.wal->0.contents.len() + 4 + key.len() + value.len() <= s.wal->0.capacity;
            let t = s.put(key, value);
            &&& s.takes(key, value) <==> fits
            &&& fits ==> t.entries.contains_key(key) && t.entries[key] == value && t.get(key) == Some(value)
            &&& other != key ==> (t.entries.contains_key(other) <==> s.entries.contains_key(other))
            &&& other != key && s.entries.contains_key(other) ==> t.entries[other] == s.entries[other]
            &&& !fits ==> t == s
            &&& t.wal is Some <==> s.wal is Some
            &&& fits && s.wal is Some ==> {
                let n = s.wal->0.contents.len() as int;
                &&& t.wal->0.contents.take(n) == s.wal->0.contents
                &&& t.wal->0.contents.len() == n + 4 + key.len() + value.len()
                &&& t.wal->0.contents.subrange(n + 4, n + 4 + key.len()) == key
                &&& t.wal->0.contents.skip(n + 4 + key.len()) == value
                &&& t.wal->0.capacity == s.wal->0.capacity
            }
        }),
{
    frames_are_length_key_value(key, value, 0);
    if s.wal is Some {
        let n = s.wal->0.contents.len() as int;
        let f = frame(key, value);
        mmap_log::room_is_what_is_left(s.wal->0, f);
        let c = s.wal->0.append(f).contents;
        assert(c =~= s.wal->0.contents + f);
        assert(c.subrange(n + 4, n + 4 + key.len()) =~= f.subrange(4, 4 + key.len() as int));
        assert(c.skip(n + 4 + key.len()) =~= f.skip(4 + key.len() as int));
    }
}

/// What a read gives is what the entries say, and nothing for a key without an entry.
pub proof fn reads_are_of_entries(s: StoreView, key: Seq<u8>)
    ensures
        s.get(key) is Some <==> s.entries.contains_key(key),
        s.get(key) is Some ==> s.get(key)->0 == s.entries[key],
        !s.delete(key).entries.contains_key(key),
        s.delete(key).wal == s.wal,
{
}

/// The key-value store.
pub struct KvStore {
    index: ShardedIndex,
    wal: Option<MappedLog>,
}

impl View for KvStore {
    type V = StoreView;

    closed spec fn view(&self) -> StoreView {
        StoreView {
            entries: self.index@,
            wal: match self.wal {
                Some(log) => Some(log@),
                None => None,
            },
        }
    }
}

impl KvStore {
    /// Index and log are well formed.
    pub closed spec fn wf(&self) -> bool {
        self.index.wf() && (self.wal matches Some(log) ==> log.wf())
    }

    /// The number of shards of the index.
    pub closed spec fn shard_count(&self) -> nat {
        self.index.shards().len()
    }

    /// An empty store without a log.
    pub fn in_memory(num_shards: usize, capacity_hint: usize) -> (r: Self)
        requires
            num_shards <= pow2::max_pow2(),
        ensures
            r.wf(),
            r@ == (StoreView { entries: Map::empty(), wal: None }),
            pow2::is_next_pow2(r.shard_count() as int, if num_shards < 1 { 1 } else { num_shards as int }),
    {
        KvStore { index: ShardedIndex::new(num_shards, capacity_hint), wal: None }
    }

    /// An empty store with a log of `wal_bytes`, over a log file that holds `existing`.
    pub fn durable(existing: &[u8], num_shards: usize, capacity_hint: usize, wal_bytes: usize) -> (r: Self)
        requires
            num_shards <= pow2::max_pow2(),
            mmap_log::page_rounded(wal_bytes as int) <= isize::MAX,
        ensures
            r.wf(),
            r@.entries == Map::<Seq<u8>, Seq<u8>>::empty(),
            r@.wal == Some(
                (LogView {
                    capacity: mmap_log::page_rounded(wal_bytes as int) as nat,
                    contents: mmap_log::loaded(existing@, mmap_log::page_rounded(wal_bytes as int) as nat),
                    records: Seq::empty(),
                }),
            ),
            pow2::is_next_pow2(r.shard_count() as int, if num_shards < 1 { 1 } else { num_shards as int }),
    {
        let log = MappedLog::open(existing, wal_bytes);
        KvStore { index: ShardedIndex::new(num_shards, capacity_hint), wal: Some(log) }
    }

    /// Inserts or updates `key`, in the log first. Where the log has no room, nothing changes.
    /// Returns whether the key is new and the store took it.
    pub fn put(&mut self, key: &[u8], value: &[u8]) -> (created: bool)
        requires
            old(self).wf(),
        ensures
            final(self).wf(),
            final(self)@ == old(self)@.put(key@, value@),
            created == (old(self)@.takes(key@, value@) && old(self)@.get(key@) is None),
            ({
                let v = old(self)@;
                let fits = v.wal is None || v.wal->0.contents.len() + 4 + key@.len() + value@.len() <= v.wal->0.capacity;
                &&& fits ==> final(self)@.entries == v.entries.insert(key@, value@) && created == !v.entries.contains_key(key@)
                &&& !fits ==> final(self)@ == v && !created
                &&& fits && v.wal is Some ==> final(self)@.wal is Some && final(self)@.wal->0.contents
                    == v.wal->0.contents + frame(key@, value@)
            }),
            final(self).shard_count() == old(self).shard_count(),
    {
        proof {
            writes_that_fit_are_taken(self@, key@, value@, key@);
            frames_are_length_key_value(key@, value@, 0);
        }
        if let Some(log) = &mut self.wal {
            let f = make_frame(key, value);
            if log.append(f.as_slice()).is_none() {
                return false;
            }
        }
        self.index.insert(key, value)
    }

    /// Reads `key`.
    pub fn get(&mut self, key: &[u8]) -> (r: Option<Vec<u8>>)
        requires
            old(self).wf(),
        ensures
            final(self).wf(),
            final(self)@ == old(self)@,
            r is Some <==> old(self)@.get(key@) is Some,
            r is Some ==> r->0@ == old(self)@.get(key@)->0,
            r is Some <==> old(self)@.entries.contains_key(key@),
            r is Some ==> r->0@ == old(self)@.entries[key@],
            final(self).shard_count() == old(self).shard_count(),
    {
        self.index.get_owned(key)
    }

    /// Removes `key`. Returns whether the store held it.
    pub fn delete(&mut self, key: &[u8]) -> (removed: bool)
        requires
            old(self).wf(),
        ensures
            final(self).wf(),
            final(self)@ == old(self)@.delete(key@),
            removed == (old(self)@.get(key@) is Some),
            removed == old(self)@.entries.contains_key(key@),
            final(self)@.entries == old(self)@.entries.remove(key@),
            final(self)@.wal == old(self)@.wal,
            final(self).shard_count() == old(self).shard_count(),
    {
        self.index.remove(key)
    }

    /// The number of entries.
    pub fn len(&self) -> (n: usize)
        requires
            self.wf(),
            self@.entries.len() <= usize::MAX,
        ensures
            n == self@.entries.len(),
    {
        self.index.len()
    }

    /// Whether the store has no entry.
    pub fn is_empty(&self) -> (r: bool)
        requires
            self.wf(),
        ensures
            r == (self@.entries == Map::<Seq<u8>, Seq<u8>>::empty()),
    {
        self.index.is_empty()
    }

    /// The bytes that the log file is to hold from its start, if there is a log.
    pub fn flush(&self) -> (bytes: Option<&[u8]>)
        requires
            self.wf(),
        ensures
            bytes is Some <==> self@.wal is Some,
            bytes is Some ==> bytes->0@ == self@.wal->0.contents,
    {
        match &self.wal {
            Some(log) => Some(log.flush()),
            None => None,
        }
    }
}

} // verus!
