//! An ordered map from byte strings to byte strings, for one owner at a time.
//!
//! The entries lie in one vector in the order of their keys, so that a lookup is a binary
//! search.

use vstd::prelude::*;
use crate::order;
use crate::order::{bytes_eq, bytes_lt};

verus! {

/// The map.
pub struct OrdMap {
    entries: Vec<(Vec<u8>, Vec<u8>)>,
}

spec fn key_at(entries: Seq<(Vec<u8>, Vec<u8>)>, i: int) -> Seq<u8> {
    entries[i].0@
}

spec fn holds(entries: Seq<(Vec<u8>, Vec<u8>)>, k: Seq<u8>) -> bool {
    exists|i: int| 0 <= i < entries.len() && #[trigger] key_at(entries, i) == k
}

spec fn place(entries: Seq<(Vec<u8>, Vec<u8>)>, k: Seq<u8>) -> int {
    choose|i: int| 0 <= i < entries.len() && #[trigger] key_at(entries, i) == k
}

impl View for OrdMap {
    type V = Map<Seq<u8>, Seq<u8>>;

    closed spec fn view(&self) -> Map<Seq<u8>, Seq<u8>> {
        Map::new(
            |k: Seq<u8>| holds(self.entries@, k),
            |k: Seq<u8>| self.entries@[place(self.entries@, k)].1@,
        )
    }
}

impl OrdMap {
    /// The keys are in strictly ascending order.
    pub closed spec fn wf(&self) -> bool {
        forall|i: int, j: int|
            0 <= i < j < self.entries@.len() ==> order::lex_lt(
                #[trigger] key_at(self.entries@, i),
                #[trigger] key_at(self.entries@, j),
            )
    }

    proof fn lemma_place(&self, i: int)
        requires
            self.wf(),
            0 <= i < self.entries@.len(),
        ensures
            place(self.entries@, key_at(self.entries@, i)) == i,
            self@.contains_key(key_at(self.entries@, i)),
            self@[key_at(self.entries@, i)] == self.entries@[i].1@,
    {
        let k = key_at(self.entries@, i);
        let p = place(self.entries@, k);
        assert(holds(self.entries@, k));
        order::lex_irreflexive(k);
    }

    /// An empty map.
    pub fn new() -> (r: Self)
        ensures
            r.wf(),
            r@ == Map::<Seq<u8>, Seq<u8>>::empty(),
    {
        let r = OrdMap { entries: Vec::new() };
        assert(r@ =~= Map::<Seq<u8>, Seq<u8>>::empty());
        r
    }

    /// The number of entries whose key is smaller than `key`.
    fn rank(&self, key: &[u8]) -> (r: usize)
        requires
            self.wf(),
        ensures
            r <= self.entries@.len(),
            forall|i: int| 0 <= i < r ==> order::lex_lt(#[trigger] key_at(self.entries@, i), key@),
            forall|i: int| r <= i < self.entries@.len() ==> !order::lex_lt(#[trigger] key_at(self.entries@, i), key@),
    {
        let mut lo: usize = 0;
        let mut hi: usize = self.entries.len();
        while lo < hi
            invariant
                self.wf(),
                lo <= hi <= self.entries@.len(),
                forall|i: int| 0 <= i < lo ==> order::lex_lt(#[trigger] key_at(self.entries@, i), key@),
                forall|i: int|
                    hi <= i < self.entries@.len() ==> !order::lex_lt(#[trigger] key_at(self.entries@, i), key@),
            decreases hi - lo,
        {
            let mid: usize = lo + (hi - lo) / 2;
            let ghost m = key_at(self.entries@, mid as int);
            if bytes_lt(self.entries[mid].0.as_slice(), key) {
                proof {
                    assert forall|i: int| 0 <= i < mid + 1 implies order::lex_lt(
                        #[trigger] key_at(self.entries@, i),
                        key@,
                    ) by {
                        if i < mid {
                            order::lex_transitive(key_at(self.entries@, i), m, key@);
                        }
                    }
                }
                lo = mid + 1;
            } else {
                proof {
                    assert forall|i: int| mid <= i < self.entries@.len() implies !order::lex_lt(
                        #[trigger] key_at(self.entries@, i),
                        key@,
                    ) by {
                        if mid < i && order::lex_lt(key_at(self.entries@, i), key@) {
                            order::lex_transitive(m, key_at(self.entries@, i), key@);
                        }
                    }
                }
                hi = mid;
            }
        }
        lo
    }

    /// Sets the value of `key`.
    pub fn insert(&mut self, key: Vec<u8>, val: Vec<u8>)
        requires
            old(self).wf(),
        ensures
            final(self).wf(),
            final(self)@ == old(self)@.insert(key@, val@),
    {
        let at: usize = self.rank(key.as_slice());
        let ghost before = self.entries@;
        if at < self.entries.len() && bytes_eq(self.entries[at].0.as_slice(), key.as_slice()) {
            self.entries[at] = (key, val);
            proof {
                assert forall|i: int| 0 <= i < before.len() implies #[trigger] key_at(self.entries@, i) == key_at(
                    before,
                    i,
                ) by {}
                self.lemma_inserted(*old(self), key@, val@, at as int);
            }
        } else {
            self.entries.insert(at, (key, val));
            proof {
                let after = self.entries@;
                assert forall|i: int, j: int| 0 <= i < j < after.len() implies order::lex_lt(
                    #[trigger] key_at(after, i),
                    #[trigger] key_at(after, j),
                ) by {
                    let a = if i < at {
                        i
                    } else {
                        i - 1
                    };
                    let b = if j < at {
                        j
                    } else {
                        j - 1
                    };
                    if i == at {
                        assert(key_at(after, j) == key_at(before, b));
                        order::lex_total(key@, key_at(before, b));
                        if b == at {
                            assert(key_at(before, b) != key@);
                        } else {
                            assert(order::lex_lt(key_at(before, at as int), key_at(before, b)));
                            if key_at(before, b) == key@ {
                                assert(!order::lex_lt(key_at(before, at as int), key@));
                            }
                        }
                    } else if j == at {
                        assert(key_at(after, i) == key_at(before, i));
                    } else {
                        assert(key_at(after, i) == key_at(before, a));
                        assert(key_at(after, j) == key_at(before, b));
                    }
                }
                assert(forall|i: int| 0 <= i < at ==> #[trigger] key_at(after, i) == key_at(before, i));
                assert(forall|i: int| at < i < after.len() ==> #[trigger] key_at(after, i) == key_at(before, i - 1));
                self.lemma_inserted(*old(self), key@, val@, at as int);
            }
        }
    }

    proof fn lemma_inserted(&self, before: OrdMap, key: Seq<u8>, val: Seq<u8>, at: int)
        requires
            self.wf(),
            before.wf(),
            0 <= at < self.entries@.len(),
            self.entries@[at].0@ == key,
            self.entries@[at].1@ == val,
            self.entries@.len() == before.entries@.len() && key_at(before.entries@, at) == key
                || self.entries@.len() == before.entries@.len() + 1,
            forall|i: int| 0 <= i < at ==> #[trigger] self.entries@[i] == before.entries@[i],
            forall|i: int|
                at < i < self.entries@.len() ==> #[trigger] self.entries@[i] == before.entries@[i
                    + before.entries@.len() - self.entries@.len()],
        ensures
            self@ == before@.insert(key, val),
    {
        let d = self.entries@.len() - before.entries@.len();
        let want = before@.insert(key, val);
        assert(key_at(self.entries@, at) == key);
        self.lemma_place(at);
        assert forall|k: Seq<u8>| self@.contains_key(k) <==> want.contains_key(k) by {
            if self@.contains_key(k) && k != key {
                let i = place(self.entries@, k);
                let j = if i < at {
                    i
                } else {
                    i - d
                };
                assert(key_at(self.entries@, i) == k);
                assert(key_at(before.entries@, j) == k);
            }
            if before@.contains_key(k) && k != key {
                let j = place(before.entries@, k);
                assert(key_at(before.entries@, j) == k);
                let i = if j < at {
                    j
                } else {
                    j + d
                };
                assert(before.entries@[j] == self.entries@[i]);
                assert(key_at(self.entries@, i) == k);
            }
        }
        assert forall|k: Seq<u8>| #[trigger] self@.contains_key(k) implies self@[k] == want[k] by {
            if k != key {
                let i = place(self.entries@, k);
                assert(key_at(self.entries@, i) == k);
                let j = if i < at {
                    i
                } else {
                    i - d
                };
                assert(key_at(before.entries@, j) == k);
                before.lemma_place(j);
            }
        }
        assert(self@ =~= want);
    }

    /// The value of `key`.
    pub fn get(&self, key: &[u8]) -> (r: Option<&Vec<u8>>)
        requires
            self.wf(),
        ensures
            r is Some <==> self@.contains_key(key@),
            r is Some ==> r->0@ == self@[key@],
    {
        let at: usize = self.rank(key);
        if at < self.entries.len() && bytes_eq(self.entries[at].0.as_slice(), key) {
            proof {
                assert(key_at(self.entries@, at as int) == key@);
                self.lemma_place(at as int);
            }
            return Some(&self.entries[at].1);
        }
        proof {
            if self@.contains_key(key@) {
                let i = place(self.entries@, key@);
                assert(key_at(self.entries@, i) == key@);
                order::lex_irreflexive(key@);
                if at < i {
                    assert(order::lex_lt(key_at(self.entries@, at as int), key_at(self.entries@, i)));
                }
            }
        }
        None
    }
}

} // verus!
