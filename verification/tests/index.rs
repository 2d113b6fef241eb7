//! The index and what it is made of: orders, hashes, towers, shards and reclamation.

use zerokv::backoff::{random_geometric_level, Backoff, Xorshift64};
use zerokv::ebr::{pin, Domain, LocalSlot};
use zerokv::order::{bytes_eq, bytes_lt};
use zerokv::ordmap::OrdMap;
use zerokv::pow2::next_pow2;
use zerokv::shard::fnv1a;
use zerokv::skiplist::{Garbage, Link, SkipList};
use zerokv::slab::Slab;
use zerokv::{KvStore, ShardedIndex};

#[test]
fn byte_strings_are_ordered_like_words() {
    assert!(bytes_lt(b"", b"a"));
    assert!(bytes_lt(b"ab", b"b"));
    assert!(bytes_lt(b"ab", b"abc"));
    assert!(!bytes_lt(b"abc", b"ab"));
    assert!(!bytes_lt(b"ab", b"ab"));
    assert!(bytes_eq(b"ab", b"ab"));
    assert!(!bytes_eq(b"ab", b"abc"));
}

#[test]
fn powers_of_two_are_rounded_up_to() {
    assert_eq!(next_pow2(0), 1);
    assert_eq!(next_pow2(1), 1);
    assert_eq!(next_pow2(3), 4);
    assert_eq!(next_pow2(4096), 4096);
    assert_eq!(next_pow2(4097), 8192);
}

#[test]
fn hash_is_fnv1a() {
    assert_eq!(fnv1a(b""), 0xcbf2_9ce4_8422_2325);
    assert_eq!(fnv1a(b"a"), 0xaf63_dc4c_8601_ec8c);
    assert_eq!(fnv1a(b"foobar"), 0x8594_4171_f739_67e8);
}

#[test]
fn ordered_map_keeps_the_last_value() {
    let mut m = OrdMap::new();
    for k in [b"m", b"a", b"z", b"k"] {
        m.insert(k.to_vec(), k.to_vec());
    }
    m.insert(b"a".to_vec(), b"second".to_vec());
    assert_eq!(m.get(b"a"), Some(&b"second".to_vec()));
    assert_eq!(m.get(b"z"), Some(&b"z".to_vec()));
    assert_eq!(m.get(b"b"), None);
    assert_eq!(m.get(b"zz"), None);
}

#[test]
fn slab_reuses_cells() {
    let mut s = Slab::new();
    let a = s.insert("a");
    let b = s.insert("b");
    assert_ne!(a, b);
    assert_eq!(s.remove(a), "a");
    assert!(!s.contains(a));
    let c = s.insert("c");
    assert_eq!(c, a);
    assert_eq!(*s.get(b), "b");
    *s.get_mut(b) = "bb";
    assert_eq!(*s.get(b), "bb");
}

#[test]
fn links_carry_a_mark() {
    let mut l = Link::null();
    l.store(5, false);
    assert_eq!(l.get(), (5, false));
    assert!(!l.cas(6, 7, false, false));
    assert!(l.cas(5, 7, false, false));
    assert!(l.attempt_mark(7, true));
    assert_eq!(l.get(), (7, true));
    assert_eq!(l.reference(), 7);
    assert!(!l.cas(7, 8, false, false));
}

#[test]
fn generator_steps() {
    let mut g = Xorshift64::new(0);
    assert_eq!(g.next(), 0x47e4_ce4b_896c_dd1d);
    let mut state = 1u64;
    // The word ends in the bits 01, so the tower has one level.
    assert_eq!(random_geometric_level(&mut state, 16), 1);
    assert_eq!(state, 0x0200_0001);
}

#[test]
fn levels_thin_out_by_four() {
    let mut state = 0x9E37_79B9_7F4A_7C15u64;
    let mut counts = [0usize; 17];
    for _ in 0..40_000 {
        let level = random_geometric_level(&mut state, 16);
        assert!(level >= 1 && level <= 16);
        counts[level] += 1;
    }
    assert!(counts[1] > 29_000 && counts[1] < 31_000);
    assert!(counts[2] > 7_000 && counts[2] < 8_000);
    assert_eq!(random_geometric_level(&mut state, 1), 1);
}

#[test]
fn backoff_completes_after_its_steps() {
    let mut b = Backoff::with_seed(0x7fff_0000);
    for step in 0..11 {
        assert!(!b.is_completed());
        assert_eq!(b.snooze(), step > 6);
    }
    assert!(b.is_completed());
    for mut c in [Backoff::new(), Backoff::default()] {
        for step in 0..12 {
            assert_eq!(c.spin(), step <= 6);
        }
        assert!(c.is_completed());
    }
}

#[test]
fn retired_things_outlive_guards() {
    let mut d: Domain<u32> = Domain::new();
    let mut reader = LocalSlot::new();
    let guard = pin(&mut d, &mut reader);
    guard.retire(&mut d, 7);
    for _ in 0..10 {
        assert!(d.try_collect().iter().all(|r| r.item != 7));
    }
    let freed = guard.unpin(&mut d, &mut reader);
    assert!(freed.is_empty());
    let mut seen = Vec::new();
    for _ in 0..4 {
        for r in d.try_collect() {
            seen.push(r.item);
        }
    }
    assert_eq!(seen, vec![7]);
}

#[test]
fn nested_guards_hold_until_the_last() {
    let mut d: Domain<u32> = Domain::new();
    let mut reader = LocalSlot::new();
    let outer = pin(&mut d, &mut reader);
    let inner = pin(&mut d, &mut reader);
    outer.retire(&mut d, 3);
    inner.unpin(&mut d, &mut reader);
    for _ in 0..10 {
        assert!(d.try_collect().is_empty());
    }
    outer.unpin(&mut d, &mut reader);
    let freed: usize = (0..4).map(|_| d.try_collect().len()).sum();
    assert_eq!(freed, 1);
}

#[test]
fn skiplist_inserts_updates_and_removes() {
    let mut d: Domain<Garbage> = Domain::new();
    let mut local = LocalSlot::new();
    let mut list = SkipList::with_capacity_hint(1000, 0);
    assert!(list.is_empty());
    let g = pin(&mut d, &mut local);
    for i in (0..200u32).rev() {
        assert!(list.insert(&i.to_be_bytes(), b"x", &g, &mut d));
    }
    assert!(!list.insert(&7u32.to_be_bytes(), b"y", &g, &mut d));
    assert_eq!(list.len(), 200);
    assert_eq!(list.get(&7u32.to_be_bytes(), &g), Some(&b"y"[..]));
    assert_eq!(list.get(&8u32.to_be_bytes(), &g), Some(&b"x"[..]));
    assert_eq!(list.get(b"absent", &g), None);
    // A key longer than what a node holds inline.
    let long = [9u8; 64];
    assert!(list.insert(&long, b"long", &g, &mut d));
    assert_eq!(list.get(&long, &g), Some(&b"long"[..]));
    assert!(list.remove(&7u32.to_be_bytes(), &g, &mut d));
    assert!(!list.remove(&7u32.to_be_bytes(), &g, &mut d));
    assert_eq!(list.get(&7u32.to_be_bytes(), &g), None);
    assert_eq!(list.len(), 200);
}

#[test]
fn what_a_guard_found_can_be_read_until_it_is_given_up() {
    let mut idx = ShardedIndex::new(4, 16);
    idx.insert(b"k", b"old");
    let mut local = LocalSlot::new();
    let guard = idx.pin(&mut local);
    let found = idx.get_ref(b"k", &guard).expect("present");
    idx.insert(b"k", b"new");
    idx.remove(b"k");
    // Enough traffic to collect everything that may be collected.
    for i in 0..1000u32 {
        idx.insert(&i.to_le_bytes(), b"v");
        idx.remove(&i.to_le_bytes());
    }
    assert_eq!(idx.read(&found, &guard), b"old");
    assert_eq!(idx.get(b"k", &guard), None);
    idx.unpin(guard, &mut local);
    assert!(idx.is_empty());
}

#[test]
fn shards_are_rounded_and_counted() {
    let mut idx = ShardedIndex::new(5, 100);
    assert_eq!(idx.num_shards(), 8);
    assert_eq!(ShardedIndex::new(0, 0).num_shards(), 1);
    for i in 0..100u32 {
        idx.insert(&i.to_le_bytes(), &[]);
    }
    assert_eq!(idx.len(), 100);
    assert_eq!(idx.get_owned(&3u32.to_le_bytes()), Some(Vec::new()));
}

#[test]
fn store_without_a_log() {
    let mut s = KvStore::in_memory(8, 1024);
    assert!(s.is_empty());
    assert!(s.put(b"user:1", b"alice"));
    assert!(s.put(b"user:2", b"bob"));
    assert!(!s.put(b"user:1", b"alice-v2"));
    assert_eq!(s.get(b"user:1"), Some(b"alice-v2".to_vec()));
    assert!(s.delete(b"user:2"));
    assert!(!s.delete(b"user:2"));
    assert_eq!(s.get(b"user:2"), None);
    assert_eq!(s.len(), 1);
    assert_eq!(s.flush(), None);
}
