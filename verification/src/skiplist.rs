//! The ordered index: a skiplist with marked links.
//!
//! A node's forward links form its *tower*. The bottom level chains all nodes in key
//! order; each level above chains a random part of the one below. The low bit of a link
//! marks its node as logically deleted, so that one compare-and-swap changes the
//! reference and the mark together. A node that has been unlinked is retired to the
//! reclamation domain and freed only when no guard can still lead to it.

use vstd::prelude::*;
use vstd::multiset::Multiset;
use vstd::arithmetic::power;
use crate::backoff;
use crate::backoff::random_geometric_level;
use crate::ebr::{Domain, DomainView, Guard, Retired};
use crate::order::{bytes_eq, bytes_lt};
use crate::slab::Slab;
use crate::towers;
use crate::towers::{Bound, NodeView};

verus! {

/// The most levels a tower can have.
pub const MAX_HEIGHT: usize = 16;

/// Keys up to this many bytes are stored inside the node.
pub const INLINE_CAP: usize = 22;

/// A key, stored inline where it is short.
pub enum KeyRepr {
    /// The first `len` bytes of `buf`.
    Inline { len: u8, buf: [u8; 22] },
    /// A key longer than the inline capacity.
    Boxed(Vec<u8>),
}

impl View for KeyRepr {
    type V = Seq<u8>;

    open spec fn view(&self) -> Seq<u8> {
        match self {
            KeyRepr::Inline { len, buf } => buf@.take(*len as int),
            KeyRepr::Boxed(b) => b@,
        }
    }
}

impl KeyRepr {
    /// The representation is inline exactly for keys that fit.
    pub open spec fn wf(&self) -> bool {
        match self {
            KeyRepr::Inline { len, .. } => *len <= INLINE_CAP,
            KeyRepr::Boxed(b) => b@.len() > INLINE_CAP,
        }
    }

    /// Stores a copy of `key`.
    pub fn new(key: &[u8]) -> (r: Self)
        ensures
            r.wf(),
            r@ == key@,
            r is Inline <==> key@.len() <= INLINE_CAP,
            r is Inline <==> key@.len() <= 22,
    {
        if key.len() <= INLINE_CAP {
            let mut buf: [u8; 22] = [0u8; 22];
            let mut i: usize = 0;
            while i < key.len()
                invariant
                    i <= key@.len() <= INLINE_CAP,
                    forall|j: int| 0 <= j < i ==> buf@[j] == key@[j],
                decreases key@.len() - i,
            {
                buf[i] = key[i];
                i += 1;
            }
            let r = KeyRepr::Inline { len: key.len() as u8, buf };
            assert(r@ =~= key@);
            r
        } else {
            KeyRepr::Boxed(vstd::slice::slice_to_vec(key))
        }
    }

    /// The key's bytes.
    pub fn as_bytes(&self) -> (r: &[u8])
        requires
            self.wf(),
        ensures
            r@ == self@,
    {
        match self {
            KeyRepr::Inline { len, buf } => vstd::slice::slice_subrange(
                vstd::array::array_as_slice(buf),
                0,
                *len as usize,
            ),
            KeyRepr::Boxed(b) => b.as_slice(),
        }
    }
}

/// A key or one of the sentinels, so that a search needs no special case for them.
pub enum BoundKey {
    NegInf,
    Fin(KeyRepr),
    PosInf,
}

impl View for BoundKey {
    type V = Bound;

    open spec fn view(&self) -> Bound {
        match self {
            BoundKey::NegInf => Bound::NegInf,
            BoundKey::Fin(k) => Bound::Fin(k@),
            BoundKey::PosInf => Bound::PosInf,
        }
    }
}

impl BoundKey {
    /// The key, where there is one, is well represented.
    pub open spec fn wf(&self) -> bool {
        self matches BoundKey::Fin(k) ==> k.wf()
    }
}

/// A value. An update displaces the whole record.
pub struct ValueRecord {
    pub bytes: Vec<u8>,
}

/// A forward link: the reference and the deletion mark in one word, the mark in the low bit.
#[derive(Clone, Copy)]
pub struct Link {
    word: u128,
}

impl Link {
    /// Where the link leads.
    pub closed spec fn to(&self) -> usize {
        (self.word >> 1) as usize
    }

    /// The deletion mark.
    pub closed spec fn mark(&self) -> bool {
        self.word & 1 == 1
    }

    /// The word is a packed reference and mark.
    pub closed spec fn wf(&self) -> bool {
        self.word >> 1 <= usize::MAX
    }

    /// Reference and mark.
    pub open spec fn pair(&self) -> (usize, bool) {
        (self.to(), self.mark())
    }

    /// The word for a reference and a mark.
    fn pack(to: usize, mark: bool) -> (w: u128)
        ensures
            w >> 1 == to,
            w & 1 == (if mark { 1u128 } else { 0u128 }),
    {
        let t: u128 = to as u128;
        let b: u128 = if mark { 1 } else { 0 };
        let w: u128 = (t << 1) | b;
        assert(t <= 0xffff_ffff_ffff_ffff && b <= 1 ==> ((t << 1) | b) >> 1 == t && ((t << 1) | b) & 1 == b)
            by (bit_vector);
        w
    }

    /// The reference in a word.
    fn ptr_of(w: u128) -> (to: usize)
        requires
            w >> 1 <= usize::MAX,
        ensures
            to == w >> 1,
    {
        (w >> 1) as usize
    }

    /// The mark in a word.
    fn mark_of(w: u128) -> (mark: bool)
        ensures
            mark == (w & 1 == 1),
    {
        w & 1 == 1
    }

    /// An unmarked link that has not been pointed anywhere yet. It reads as the first cell until
    /// it is stored to.
    pub fn null() -> (r: Self)
        ensures
            r.wf(),
            r.pair() == (0usize, false),
    {
        assert(0u128 >> 1 == 0 && 0u128 & 1 == 0) by (bit_vector);
        Link { word: 0 }
    }

    /// Reference and mark.
    pub fn get(&self) -> (r: (usize, bool))
        requires
            self.wf(),
        ensures
            r == self.pair(),
    {
        (Self::ptr_of(self.word), Self::mark_of(self.word))
    }

    /// The reference alone.
    pub fn reference(&self) -> (r: usize)
        requires
            self.wf(),
        ensures
            r == self.to(),
    {
        Self::ptr_of(self.word)
    }

    /// Overwrites reference and mark.
    pub fn store(&mut self, to: usize, mark: bool)
        ensures
            final(self).wf(),
            final(self).pair() == (to, mark),
    {
        self.word = Self::pack(to, mark);
    }

    /// Replaces reference and mark together, provided that they are what is expected.
    pub fn cas(&mut self, exp_to: usize, new_to: usize, exp_mark: bool, new_mark: bool) -> (ok: bool)
        requires
            old(self).wf(),
        ensures
            final(self).wf(),
            ok == (old(self).pair() == (exp_to, exp_mark)),
            final(self).pair() == (if ok { (new_to, new_mark) } else { old(self).pair() }),
    {
        let expected: u128 = Self::pack(exp_to, exp_mark);
        let w: u128 = self.word;
        assert(w == expected <==> (w >> 1 == expected >> 1 && w & 1 == expected & 1)) by (bit_vector);
        assert(w & 1 == 0 || w & 1 == 1) by (bit_vector);
        if self.word == expected {
            self.word = Self::pack(new_to, new_mark);
            true
        } else {
            false
        }
    }

    /// Sets the mark, provided that the link is unmarked and leads where expected.
    pub fn attempt_mark(&mut self, exp_to: usize, mark: bool) -> (ok: bool)
        requires
            old(self).wf(),
        ensures
            final(self).wf(),
            ok == (old(self).pair() == (exp_to, false)),
            final(self).pair() == (if ok { (exp_to, mark) } else { old(self).pair() }),
    {
        self.cas(exp_to, exp_to, false, mark)
    }
}

/// A node: key, value cell, and the tower of links.
pub struct Node {
    key: BoundKey,
    value: Option<usize>,
    links: Vec<Link>,
}

impl View for Node {
    type V = NodeView;

    closed spec fn view(&self) -> NodeView {
        NodeView {
            key: self.key@,
            value: self.value,
            links: Seq::new(self.links@.len(), |l: int| self.links@[l].pair()),
        }
    }
}

impl Node {
    /// The key is well represented, and so is every link.
    pub closed spec fn wf(&self) -> bool {
        &&& self.key.wf()
        &&& self.links@.len() >= 1
        &&& forall|l: int| 0 <= l < self.links@.len() ==> (#[trigger] self.links@[l]).wf()
    }

    /// A node with an unlinked tower of `top_level + 1` links.
    pub fn new(key: BoundKey, value: Option<usize>, top_level: usize) -> (r: Self)
        requires
            key.wf(),
            top_level < MAX_HEIGHT,
        ensures
            r.wf(),
            r@.key == key@,
            r@.value == value,
            r@.links.len() == top_level + 1,
            forall|l: int| 0 <= l <= top_level ==> !(#[trigger] r@.links[l]).1,
    {
        let mut links: Vec<Link> = Vec::new();
        let mut i: usize = 0;
        while i < top_level + 1
            invariant
                top_level < MAX_HEIGHT,
                i <= top_level + 1,
                links@.len() == i,
                forall|l: int| 0 <= l < i ==> (#[trigger] links@[l]).wf() && !links@[l].mark(),
            decreases top_level + 1 - i,
        {
            links.push(Link::null());
            i += 1;
        }
        Node { key, value, links }
    }

    /// The highest level of the tower.
    fn top_level(&self) -> (r: usize)
        requires
            self.wf(),
        ensures
            r == self@.links.len() - 1,
    {
        self.links.len() - 1
    }

    /// Reference and mark of the link at `level`.
    fn link(&self, level: usize) -> (r: (usize, bool))
        requires
            self.wf(),
            level < self@.links.len(),
        ensures
            r == self@.links[level as int],
    {
        self.links[level].get()
    }

    /// Overwrites the link at `level`.
    fn store(&mut self, level: usize, to: usize, mark: bool)
        requires
            old(self).wf(),
            level < old(self)@.links.len(),
        ensures
            final(self).wf(),
            final(self)@ == (NodeView {
                links: old(self)@.links.update(level as int, (to, mark)),
                ..old(self)@
            }),
    {
        self.links[level].store(to, mark);
        assert(self@.links =~= old(self)@.links.update(level as int, (to, mark)));
    }

    /// Compare-and-swap on the link at `level`.
    fn cas(&mut self, level: usize, exp_to: usize, new_to: usize, exp_mark: bool, new_mark: bool) -> (ok:
        bool)
        requires
            old(self).wf(),
            level < old(self)@.links.len(),
        ensures
            final(self).wf(),
            ok == (old(self)@.links[level as int] == (exp_to, exp_mark)),
            final(self)@ == (if ok {
                NodeView {
                    links: old(self)@.links.update(level as int, (new_to, new_mark)),
                    ..old(self)@
                }
            } else {
                old(self)@
            }),
    {
        let ok = self.links[level].cas(exp_to, new_to, exp_mark, new_mark);
        if ok {
            assert(self@.links =~= old(self)@.links.update(level as int, (new_to, new_mark)));
        } else {
            assert(self@.links =~= old(self)@.links);
        }
        ok
    }

    /// Puts another value cell into the node and returns the one displaced.
    fn swap_value(&mut self, value: usize) -> (displaced: Option<usize>)
        requires
            old(self).wf(),
        ensures
            final(self).wf(),
            displaced == old(self)@.value,
            final(self)@ == (NodeView { value: Some(value), ..old(self)@ }),
    {
        let displaced = self.value;
        self.value = Some(value);
        assert(self@.links =~= old(self)@.links);
        displaced
    }
}

/// Something retired by a skiplist: a node, which takes its value with it, or a displaced value.
#[derive(Clone, Copy, PartialEq, Eq, Structural)]
pub enum Garbage {
    Node { list: usize, node: usize },
    Value { list: usize, cell: usize },
}

/// Where a search ended: per level, the nodes between which the key has its place, and whether
/// the key is there.
struct Place {
    found: bool,
    preds: Vec<usize>,
    succs: Vec<usize>,
}

/// The ordered map.
pub struct SkipList {
    id: usize,
    nodes: Slab<Node>,
    values: Slab<ValueRecord>,
    head: usize,
    tail: usize,
    max_level: usize,
    len: usize,
    rng: u64,
    /// Per level, the nodes from head to tail.
    paths: Ghost<Seq<Seq<usize>>>,
    /// What the list maps each key to.
    entries: Ghost<Map<Seq<u8>, Seq<u8>>>,
    /// Nodes unlinked and retired, not yet freed.
    dead_nodes: Ghost<Set<usize>>,
    /// Value cells displaced and retired, not yet freed.
    dead_cells: Ghost<Set<usize>>,
}

impl SkipList {
    /// The nodes.
    spec fn heap(&self) -> Map<usize, NodeView> {
        Map::new(|x: usize| self.nodes.view().contains_key(x), |x: usize| self.nodes.view()[x]@)
    }

    /// The storage is well formed and every level is an ordered path. A path may hold nodes
    /// that are marked; a node that is alive at a level is on every level below.
    spec fn shape(&self) -> bool {
        &&& self.nodes.wf()
        &&& self.values.wf()
        &&& forall|x: usize| #[trigger] self.nodes.view().contains_key(x) ==> self.nodes.view()[x].wf()
        &&& self.max_level < MAX_HEIGHT
        &&& self.paths@.len() == self.max_level + 1
        &&& self.heap().contains_key(self.head)
        &&& self.heap().contains_key(self.tail)
        &&& self.heap()[self.head].key is NegInf
        &&& self.heap()[self.tail].key is PosInf
        &&& !towers::is_dead(self.heap(), self.head)
        &&& !towers::is_dead(self.heap(), self.tail)
        &&& forall|l: int| 0 <= l <= self.max_level ==> #[trigger] self.level_ok(l)
    }

    /// Level `l` is an ordered path; its links are marked where the node is dead, and its
    /// nodes that are alive are on the level below.
    spec fn level_ok(&self, l: int) -> bool {
        &&& towers::path_ok(self.heap(), self.paths@[l], l, self.head, self.tail)
        &&& forall|x: usize| #[trigger]
            self.paths@[l].contains(x) ==> self.heap()[x].links[l].1 == towers::is_dead(self.heap(), x)
        &&& l > 0 ==> forall|x: usize| #[trigger]
            self.paths@[l].contains(x) && !towers::is_dead(self.heap(), x) ==> self.paths@[l - 1].contains(x)
    }

    /// Everything but the links and the paths is as in `other`.
    spec fn same_but_links(&self, other: &Self) -> bool {
        &&& self.id == other.id
        &&& self.values == other.values
        &&& self.head == other.head
        &&& self.tail == other.tail
        &&& self.max_level == other.max_level
        &&& self.len == other.len
        &&& self.rng == other.rng
        &&& self.entries == other.entries
        &&& self.dead_nodes == other.dead_nodes
        &&& self.dead_cells == other.dead_cells
    }

    /// Whether a node's key comes before `target`.
    fn key_lt(node_key: &BoundKey, target: &[u8]) -> (r: bool)
        requires
            node_key.wf(),
        ensures
            r == towers::bound_lt(node_key@, Bound::Fin(target@)),
    {
        match node_key {
            BoundKey::NegInf => true,
            BoundKey::PosInf => false,
            BoundKey::Fin(k) => bytes_lt(k.as_bytes(), target),
        }
    }

    /// Whether a node's key is `target`.
    fn key_eq(node_key: &BoundKey, target: &[u8]) -> (r: bool)
        requires
            node_key.wf(),
        ensures
            r == (node_key@ == Bound::Fin(target@)),
    {
        match node_key {
            BoundKey::Fin(k) => bytes_eq(k.as_bytes(), target),
            _ => false,
        }
    }

    /// Compare-and-swap on the link of node `x` at `level`.
    fn cas_link(&mut self, x: usize, level: usize, exp_to: usize, new_to: usize, exp_mark: bool, new_mark: bool)
        requires
            old(self).nodes.wf(),
            old(self).heap().contains_key(x),
            old(self).nodes.view()[x].wf(),
            level < old(self).heap()[x].links.len(),
            old(self).heap()[x].links[level as int] == (exp_to, exp_mark),
        ensures
            final(self).nodes.wf(),
            final(self).heap() == towers::set_link(old(self).heap(), x, level as int, new_to, new_mark),
            final(self).same_but_links(old(self)),
            final(self).paths == old(self).paths,
            forall|y: usize| #[trigger]
                final(self).nodes.view().contains_key(y) ==> old(self).nodes.view().contains_key(y) && (y == x
                    || final(self).nodes.view()[y] == old(self).nodes.view()[y]),
            final(self).nodes.view()[x].wf(),
    {
        let ok = self.nodes.get_mut(x).cas(level, exp_to, new_to, exp_mark, new_mark);
        assert(ok);
        assert(self.heap() =~= towers::set_link(old(self).heap(), x, level as int, new_to, new_mark));
    }

    /// Finds the place of `key` on every level. Nodes that it passes and finds marked are
    /// unlinked on the way.
    fn find(&mut self, key: &[u8]) -> (place: Place)
        requires
            old(self).shape(),
        ensures
            final(self).shape(),
            final(self).same_but_links(old(self)),
            towers::same_nodes(old(self).heap(), final(self).heap()),
            forall|l: int|
                0 <= l <= final(self).max_level ==> #[trigger] towers::pruned(
                    final(self).heap(),
                    old(self).paths@[l],
                    final(self).paths@[l],
                ),
            place.preds@.len() == final(self).max_level + 1,
            place.succs@.len() == final(self).max_level + 1,
            forall|l: int|
                0 <= l <= final(self).max_level ==> #[trigger] towers::brackets(
                    final(self).heap(),
                    final(self).paths@[l],
                    place.preds@[l],
                    place.succs@[l],
                    key@,
                ),
            place.found == (final(self).heap()[place.succs@[0]].key == Bound::Fin(key@)),
    {
        let ghost m0 = self.heap();
        let ghost paths0 = self.paths@;
        let n: usize = self.max_level + 1;
        let mut preds: Vec<usize> = vec![0usize; n];
        let mut succs: Vec<usize> = vec![0usize; n];
        let mut pred: usize = self.head;
        let mut level: usize = n;
        proof {
            assert(self.level_ok(self.max_level as int));
            assert(self.paths@[self.max_level as int][0] == self.head);
            assert forall|l: int| 0 <= l <= self.max_level implies #[trigger] towers::pruned(m0, paths0[l], self.paths@[l]) by {}
        }
        while level > 0
            invariant
                self.shape(),
                self.same_but_links(old(self)),
                towers::same_nodes(m0, self.heap()),
                m0 == old(self).heap(),
                paths0 == old(self).paths@,
                n == self.max_level + 1,
                level <= n,
                preds@.len() == n,
                succs@.len() == n,
                self.heap().contains_key(pred),
                !towers::is_dead(self.heap(), pred),
                towers::bound_lt(self.heap()[pred].key, Bound::Fin(key@)),
                level > 0 ==> self.paths@[level - 1].contains(pred),
                forall|l: int|
                    0 <= l < n ==> #[trigger] towers::pruned(self.heap(), paths0[l], self.paths@[l]),
                forall|l: int|
                    level <= l < n ==> #[trigger] towers::brackets(
                        self.heap(),
                        self.paths@[l],
                        preds@[l],
                        succs@[l],
                        key@,
                    ),
            decreases level,
        {
            level = level - 1;
            let ghost lv = level as int;
            assert(self.level_ok(lv));
            let ghost mut p = choose|i: int| 0 <= i < self.paths@[lv].len() && self.paths@[lv][i] == pred;
            proof {
                // The tail's key is above every key, so `pred` is not the last node.
                if p == self.paths@[lv].len() - 1 {
                    assert(pred == self.tail);
                }
            }
            let mut curr: usize = self.nodes.get(pred).link(level).0;
            let mut done = false;
            assert(curr == self.paths@[lv][p + 1]);
            while !done
                invariant
                    self.shape(),
                    self.same_but_links(old(self)),
                    towers::same_nodes(m0, self.heap()),
                    n == self.max_level + 1,
                    level < n,
                    lv == level,
                    preds@.len() == n,
                    succs@.len() == n,
                    0 <= p < self.paths@[lv].len() - 1,
                    self.paths@[lv][p] == pred,
                    self.paths@[lv][p + 1] == curr,
                    !towers::is_dead(self.heap(), pred),
                    towers::bound_lt(self.heap()[pred].key, Bound::Fin(key@)),
                    done ==> !towers::is_dead(self.heap(), curr) && !towers::bound_lt(
                        self.heap()[curr].key,
                        Bound::Fin(key@),
                    ),
                    forall|l: int|
                        0 <= l < n ==> #[trigger] towers::pruned(self.heap(), paths0[l], self.paths@[l]),
                    forall|l: int|
                        level < l < n ==> #[trigger] towers::brackets(
                            self.heap(),
                            self.paths@[l],
                            preds@[l],
                            succs@[l],
                            key@,
                        ),
                decreases self.paths@[lv].len() - p, !done as int,
            {
                assert(self.level_ok(lv));
                let (succ, marked) = self.nodes.get(curr).link(level);
                assert(self.paths@[lv].contains(curr));
                if marked {
                    let ghost before = *self;
                    proof {
                        if p + 1 == self.paths@[lv].len() - 1 {
                            assert(curr == self.tail);
                        }
                        assert(succ == self.paths@[lv][p + 2]);
                        assert(self.heap()[pred].links[lv].0 == curr);
                        assert(self.paths@[lv].contains(pred));
                    }
                    self.cas_link(pred, level, curr, succ, false, false);
                    proof {
                        self.paths@ = self.paths@.update(lv, self.paths@[lv].remove(p + 1));
                        before.lemma_spliced(self, lv, p);
                        assert forall|l: int| 0 <= l < n implies #[trigger] towers::pruned(self.heap(), paths0[l], self.paths@[l]) by {
                            assert(towers::pruned(before.heap(), paths0[l], before.paths@[l]));
                        }
                        assert forall|l: int| level < l < n implies #[trigger] towers::brackets(
                            self.heap(),
                            self.paths@[l],
                            preds@[l],
                            succs@[l],
                            key@,
                        ) by {
                            assert(towers::brackets(before.heap(), before.paths@[l], preds@[l], succs@[l], key@));
                        }
                    }
                    curr = succ;
                } else if Self::key_lt(&self.nodes.get(curr).key, key) {
                    proof {
                        if p + 1 == self.paths@[lv].len() - 1 {
                            assert(curr == self.tail);
                        }
                        p = p + 1;
                    }
                    pred = curr;
                    curr = succ;
                } else {
                    done = true;
                }
            }
            preds[level] = pred;
            succs[level] = curr;
            proof {
                assert(self.level_ok(lv));
                assert(self.paths@[lv].contains(pred));
                assert(towers::brackets(self.heap(), self.paths@[lv], pred, curr, key@));
                assert forall|l: int| level <= l < n implies #[trigger] towers::brackets(
                    self.heap(),
                    self.paths@[l],
                    preds@[l],
                    succs@[l],
                    key@,
                ) by {}
            }
        }
        assert(towers::brackets(self.heap(), self.paths@[0], preds@[0], succs@[0], key@));
        assert(self.level_ok(0));
        let found = Self::key_eq(&self.nodes.get(succs[0]).key, key);
        Place { found, preds, succs }
    }

    /// Unlinking the marked node behind position `p` of level `lv` keeps the shape.
    proof fn lemma_spliced(&self, after: &Self, lv: int, p: int)
        requires
            self.shape(),
            0 <= lv <= self.max_level,
            0 <= p,
            p + 2 < self.paths@[lv].len(),
            towers::is_dead(self.heap(), self.paths@[lv][p + 1]),
            !towers::is_dead(self.heap(), self.paths@[lv][p]),
            after.same_but_links(self),
            after.nodes.wf(),
            forall|x: usize| #[trigger] after.nodes.view().contains_key(x) ==> after.nodes.view()[x].wf(),
            after.heap() == towers::set_link(
                self.heap(),
                self.paths@[lv][p],
                lv,
                self.paths@[lv][p + 2],
                false,
            ),
            after.paths@ == self.paths@.update(lv, self.paths@[lv].remove(p + 1)),
        ensures
            after.shape(),
            towers::same_nodes(self.heap(), after.heap()),
            after.paths@[lv].len() == self.paths@[lv].len() - 1,
            after.paths@[lv][p] == self.paths@[lv][p],
            after.paths@[lv][p + 1] == self.paths@[lv][p + 2],
            forall|x: usize| #[trigger] after.paths@[lv].contains(x) <==> self.paths@[lv].contains(x) && x
                != self.paths@[lv][p + 1],
    {
        let m = self.heap();
        let m1 = after.heap();
        let path = self.paths@[lv];
        let pred = path[p];
        assert(self.level_ok(lv));
        assert(path.contains(pred));
        towers::lemma_splice(m, path, lv, self.head, self.tail, p, false);
        assert(m1.dom() =~= m.dom());
        assert forall|x: usize| #[trigger] m1.contains_key(x) implies m1[x].key == m[x].key && m1[x].value == m[x].value
            && m1[x].links.len() == m[x].links.len() && (forall|l: int|
            0 <= l < m[x].links.len() ==> (#[trigger] m1[x].links[l]).1 == m[x].links[l].1) by {}
        assert forall|x: usize| m.contains_key(x) implies towers::is_dead(m1, x) == towers::is_dead(m, x) by {
            assert(m[x].links.len() >= 1);
        }
        assert forall|l: int| 0 <= l <= after.max_level implies #[trigger] after.level_ok(l) by {
            assert(self.level_ok(l));
            if l != lv {
                towers::lemma_path_frame(m, m1, self.paths@[l], l, self.head, self.tail);
            }
            assert forall|x: usize| #[trigger] after.paths@[l].contains(x) implies m1[x].links[l].1
                == towers::is_dead(m1, x) by {
                assert(self.paths@[l].contains(x));
            }
            if l > 0 {
                assert(self.level_ok(l - 1));
                assert forall|x: usize| #[trigger] after.paths@[l].contains(x) && !towers::is_dead(m1, x) implies
                    after.paths@[l - 1].contains(x) by {
                    assert(self.paths@[l].contains(x));
                    assert(self.paths@[l - 1].contains(x));
                }
            }
        }
    }
}

impl View for SkipList {
    type V = Map<Seq<u8>, Seq<u8>>;

    closed spec fn view(&self) -> Map<Seq<u8>, Seq<u8>> {
        self.entries@
    }
}

/// Node `node` of list `list`, retired at epoch `e`.
pub open spec fn node_record(list: usize, node: usize, e: u64) -> Retired<Garbage> {
    Retired { item: Garbage::Node { list, node }, epoch: e }
}

/// Value cell `cell` of list `list`, retired at epoch `e`.
pub open spec fn cell_record(list: usize, cell: usize, e: u64) -> Retired<Garbage> {
    Retired { item: Garbage::Value { list, cell }, epoch: e }
}

/// The list that retired `g`.
pub open spec fn garbage_list(g: Garbage) -> usize {
    match g {
        Garbage::Node { list, .. } => list,
        Garbage::Value { list, .. } => list,
    }
}

impl SkipList {
    /// The number by which the list's garbage is told from that of other lists.
    pub closed spec fn id(&self) -> usize {
        self.id
    }

    /// The highest level in use.
    pub closed spec fn max_level(&self) -> usize {
        self.max_level
    }

    /// The state of the level generator.
    pub closed spec fn rng(&self) -> u64 {
        self.rng
    }

    /// The value cells that are allocated, with their contents.
    pub closed spec fn cells(&self) -> Map<usize, Seq<u8>> {
        Map::new(
            |c: usize| self.values.view().contains_key(c),
            |c: usize| self.values.view()[c].bytes@,
        )
    }

    /// The nodes unlinked and not yet freed.
    pub closed spec fn dead_nodes(&self) -> Set<usize> {
        self.dead_nodes@
    }

    /// The value cells displaced and not yet freed.
    pub closed spec fn dead_cells(&self) -> Set<usize> {
        self.dead_cells@
    }

    /// The value cell of node `n`.
    pub closed spec fn node_cell(&self, n: usize) -> usize {
        self.heap()[n].value->0
    }

    /// `x` is not one of the two sentinels.
    spec fn inner(&self, x: usize) -> bool {
        x != self.head && x != self.tail
    }

    /// No node on a level is marked, and every tower is linked at its full height.
    spec fn settled(&self) -> bool {
        &&& forall|l: int, x: usize|
            0 <= l <= self.max_level ==> (#[trigger] self.paths@[l].contains(x) <==> self.paths@[0].contains(x)
                && l < self.heap()[x].links.len())
        &&& forall|x: usize| #[trigger]
            self.paths@[0].contains(x) ==> !towers::is_dead(self.heap(), x) && (self.inner(x)
                ==> self.heap()[x].links.len() <= self.max_level + 1)
    }

    /// Every node is linked or retired, and owns a value cell of its own; every cell belongs
    /// to a node or is retired.
    spec fn owned(&self) -> bool {
        let m = self.heap();
        let p0 = self.paths@[0];
        let v = self.cells();
        &&& forall|x: usize| #[trigger] m.contains_key(x) <==> p0.contains(x) || self.dead_nodes@.contains(x)
        &&& forall|x: usize| #[trigger] self.dead_nodes@.contains(x) ==> !p0.contains(x)
        &&& forall|x: usize| #[trigger]
            m.contains_key(x) && self.inner(x) ==> m[x].value is Some && v.contains_key(m[x].value->0)
                && !self.dead_cells@.contains(m[x].value->0)
        &&& forall|x: usize, y: usize| #[trigger]
            m.contains_key(x) && #[trigger] m.contains_key(y) && self.inner(x) && self.inner(y) && x != y
                ==> m[x].value != m[y].value
        &&& forall|c: usize| #[trigger] self.dead_cells@.contains(c) ==> v.contains_key(c)
        &&& forall|c: usize| #[trigger]
            v.contains_key(c) ==> self.dead_cells@.contains(c) || exists|x: usize| #[trigger]
                m.contains_key(x) && self.inner(x) && m[x].value == Some(c)
    }

    /// The nodes linked at the bottom are the entries of the map.
    spec fn mapped(&self) -> bool {
        let m = self.heap();
        let p0 = self.paths@[0];
        let v = self.cells();
        &&& forall|x: usize| #[trigger]
            p0.contains(x) && self.inner(x) ==> m[x].key is Fin && self.entries@.contains_key(m[x].key->0)
                && self.entries@[m[x].key->0] == v[m[x].value->0]
        &&& forall|k: Seq<u8>| #[trigger]
            self.entries@.contains_key(k) ==> exists|x: usize| #[trigger]
                p0.contains(x) && m[x].key == Bound::Fin(k)
        &&& self.entries@.dom().finite()
        &&& self.len == self.entries@.dom().len()
        &&& self.len == p0.len() - 2
    }

    /// The list is well formed.
    pub closed spec fn wf(&self) -> bool {
        self.shape() && self.settled() && self.owned() && self.mapped()
    }

    /// The records of `r` that come from this list are exactly its dead nodes and cells, each
    /// once.
    pub open spec fn tracks(&self, r: Multiset<Retired<Garbage>>) -> bool {
        &&& forall|a: Retired<Garbage>| #[trigger]
            r.contains(a) && garbage_list(a.item) == self.id() ==> r.count(a) == 1 && (match a.item {
                Garbage::Node { node, .. } => self.dead_nodes().contains(node),
                Garbage::Value { cell, .. } => self.dead_cells().contains(cell),
            })
        &&& forall|a: Retired<Garbage>, b: Retired<Garbage>| #[trigger]
            r.contains(a) && #[trigger] r.contains(b) && garbage_list(a.item) == self.id() && a.item == b.item
                ==> a == b
        &&& forall|n: usize| #[trigger]
            self.dead_nodes().contains(n) ==> exists|e: u64|
                r.contains(#[trigger] node_record(self.id(), n, e))
        &&& forall|c: usize| #[trigger]
            self.dead_cells().contains(c) ==> exists|e: u64|
                r.contains(#[trigger] cell_record(self.id(), c, e))
    }

    /// Freeing `g` frees the value cell `c`.
    pub open spec fn frees(&self, g: Garbage, c: usize) -> bool {
        match g {
            Garbage::Node { list, node } => list == self.id() && self.dead_nodes().contains(node)
                && self.node_cell(node) == c,
            Garbage::Value { list, cell } => list == self.id() && cell == c,
        }
    }

    /// The pin of `slot` keeps the value cell `c` alive: nothing that frees the cell was
    /// retired before the pin.
    pub open spec fn cell_protected(&self, d: DomainView<Garbage>, slot: int, c: usize) -> bool {
        &&& d.pinned(slot)
        &&& self.cells().contains_key(c)
        &&& forall|r: Retired<Garbage>| #[trigger]
            d.records().contains(r) && self.frees(r.item, c) ==> d.pin_epoch(slot) <= r.epoch
    }

    /// The node at the place of a key, in a well-formed list, holds the key or nothing does.
    proof fn lemma_found(&self, pred: usize, succ: usize, key: Seq<u8>)
        requires
            self.shape(),
            self.mapped(),
            towers::brackets(self.heap(), self.paths@[0], pred, succ, key),
        ensures
            self.paths@[0].contains(succ),
            succ != self.head,
            self.entries@.contains_key(key) <==> self.heap()[succ].key == Bound::Fin(key),
            self.heap()[succ].key == Bound::Fin(key) ==> self.inner(succ),
    {
        assert(self.level_ok(0));
        let p0 = self.paths@[0];
        let i = choose|i: int| 0 <= i < p0.len() - 1 && #[trigger] p0[i] == pred && p0[i + 1] == succ;
        assert(p0[i + 1] == succ);
        if self.entries@.contains_key(key) {
            let x = choose|x: usize| #[trigger] p0.contains(x) && self.heap()[x].key == Bound::Fin(key);
            towers::lemma_bracketed(self.heap(), p0, 0, self.head, self.tail, pred, succ, key, x);
        }
        if self.heap()[succ].key == Bound::Fin(key) {
            assert(p0.contains(succ));
            assert(self.inner(succ));
            assert(self.heap()[succ].key->0 == key);
        }
    }

    /// A new, empty list whose towers reach up to `max_level`.
    fn with_max_level(max_level: usize, id: usize) -> (r: Self)
        requires
            max_level < MAX_HEIGHT,
        ensures
            r.wf(),
            r.id() == id,
            r.max_level() == max_level,
            r.rng() == LEVEL_SEED,
            r.rng() == 0xba08_1331_fae9_74c6,
            r@ == Map::<Seq<u8>, Seq<u8>>::empty(),
            r.cells() == Map::<usize, Seq<u8>>::empty(),
            r.dead_nodes() == Set::<usize>::empty(),
            r.dead_cells() == Set::<usize>::empty(),
    {
        let mut nodes: Slab<Node> = Slab::new();
        let tail_node = Node::new(BoundKey::PosInf, None, MAX_HEIGHT - 1);
        let ghost tail_view = tail_node@;
        let tail = nodes.insert(tail_node);
        let mut head_node = Node::new(BoundKey::NegInf, None, MAX_HEIGHT - 1);
        let mut level: usize = 0;
        while level < MAX_HEIGHT
            invariant
                level <= MAX_HEIGHT,
                head_node.wf(),
                head_node@.links.len() == MAX_HEIGHT,
                head_node@.key is NegInf,
                forall|l: int| 0 <= l < MAX_HEIGHT ==> !(#[trigger] head_node@.links[l]).1,
                forall|l: int| 0 <= l < level ==> (#[trigger] head_node@.links[l]).0 == tail,
            decreases MAX_HEIGHT - level,
        {
            head_node.store(level, tail, false);
            level += 1;
        }
        let ghost head_view = head_node@;
        let head = nodes.insert(head_node);
        let r = SkipList {
            id,
            nodes,
            values: Slab::new(),
            head,
            tail,
            max_level,
            len: 0,
            rng: LEVEL_SEED,
            paths: Ghost(Seq::new((max_level + 1) as nat, |l: int| seq![head, tail])),
            entries: Ghost(Map::empty()),
            dead_nodes: Ghost(Set::empty()),
            dead_cells: Ghost(Set::empty()),
        };
        proof {
            let m = r.heap();
            assert(m[head] == head_view && m[tail] == tail_view);
            assert(seq![head, tail].contains(head)) by { assert(seq![head, tail][0] == head); }
            assert(seq![head, tail].contains(tail)) by { assert(seq![head, tail][1] == tail); }
            assert forall|l: int| 0 <= l <= max_level implies #[trigger] r.level_ok(l) by {
                assert(m[r.paths@[l][0]].links[l].0 == tail);
            }
            assert(r.cells() =~= Map::<usize, Seq<u8>>::empty());
        }
        r
    }
}

/// Sequences without repetition that hold the same elements are equally long.
proof fn lemma_same_elements(a: Seq<usize>, b: Seq<usize>)
    requires
        a.no_duplicates(),
        b.no_duplicates(),
        forall|x: usize| #[trigger] a.contains(x) <==> b.contains(x),
    ensures
        a.len() == b.len(),
{
    a.unique_seq_to_set();
    b.unique_seq_to_set();
    assert(a.to_set() =~= b.to_set());
}

impl SkipList {
    /// The node that holds key `k`.
    pub closed spec fn node_of(&self, k: Seq<u8>) -> usize {
        choose|x: usize| #[trigger] self.paths@[0].contains(x) && self.heap()[x].key == Bound::Fin(k)
    }

    /// The value cell of key `k`.
    pub open spec fn cell_of(&self, k: Seq<u8>) -> usize {
        self.node_cell(self.node_of(k))
    }

    /// The number of levels on which the node of key `k` is linked.
    pub closed spec fn tower_height(&self, k: Seq<u8>) -> nat {
        self.heap()[self.node_of(k)].links.len()
    }

    /// Whatever `old` had allocated is still there, unchanged.
    pub open spec fn keeps(&self, old: &Self) -> bool {
        &&& self.id() == old.id()
        &&& self.max_level() == old.max_level()
        &&& forall|c: usize| #[trigger]
            old.cells().contains_key(c) ==> self.cells().contains_key(c) && self.cells()[c] == old.cells()[c]
        &&& forall|n: usize| #[trigger]
            old.dead_nodes().contains(n) ==> self.dead_nodes().contains(n) && self.node_cell(n) == old.node_cell(n)
    }

    /// The only node with key `k` on the bottom level is `node_of(k)`.
    proof fn lemma_node_of(&self, k: Seq<u8>, x: usize)
        requires
            self.shape(),
            self.paths@[0].contains(x),
            self.heap()[x].key == Bound::Fin(k),
        ensures
            x == self.node_of(k),
    {
        assert(self.level_ok(0));
        let y = self.node_of(k);
        assert(self.paths@[0].contains(y) && self.heap()[y].key == Bound::Fin(k));
        towers::lemma_key_unique(self.heap(), self.paths@[0], 0, self.head, self.tail, x, y);
    }

    /// A search in a well-formed list changes nothing.
    proof fn lemma_find_settled(&self, old: &Self)
        requires
            old.wf(),
            self.shape(),
            self.same_but_links(old),
            towers::same_nodes(old.heap(), self.heap()),
            forall|l: int|
                0 <= l <= self.max_level ==> #[trigger] towers::pruned(self.heap(), old.paths@[l], self.paths@[l]),
        ensures
            self.wf(),
            forall|l: int, x: usize|
                0 <= l <= self.max_level ==> (#[trigger] self.paths@[l].contains(x) <==> old.paths@[l].contains(x)),
            self.cells() == old.cells(),
            forall|k: Seq<u8>| old.entries@.contains_key(k) ==> #[trigger] self.node_of(k) == old.node_of(k),
            forall|n: usize| #[trigger] old.heap().contains_key(n) ==> self.node_cell(n) == old.node_cell(n),
    {
        let m0 = old.heap();
        let m = self.heap();
        assert forall|x: usize| #[trigger] m.contains_key(x) implies towers::is_dead(m, x) == towers::is_dead(m0, x) by {
            assert(m0[x].links.len() >= 1);
        }
        assert forall|l: int, x: usize| 0 <= l <= self.max_level implies (#[trigger] self.paths@[l].contains(x)
            <==> old.paths@[l].contains(x)) by {
            assert(towers::pruned(m, old.paths@[l], self.paths@[l]));
            if old.paths@[l].contains(x) {
                assert(old.level_ok(0));
                assert(old.paths@[0].contains(x));
                assert(m0.contains_key(x));
            }
        }
        assert(old.level_ok(0));
        assert(self.level_ok(0));
        assert forall|x: usize| #[trigger] self.paths@[0].contains(x) implies m.contains_key(x) && !towers::is_dead(m, x)
            && (self.inner(x) ==> m[x].links.len() <= self.max_level + 1) by {
            assert(old.paths@[0].contains(x));
            assert(m0.contains_key(x));
        }
        assert forall|l: int, x: usize| 0 <= l <= self.max_level implies (#[trigger] self.paths@[l].contains(x)
            <==> self.paths@[0].contains(x) && l < m[x].links.len()) by {
            assert(self.paths@[l].contains(x) <==> old.paths@[l].contains(x));
            assert(self.paths@[0].contains(x) <==> old.paths@[0].contains(x));
            if self.paths@[0].contains(x) {
                assert(m.contains_key(x));
            }
        }
        assert(self.cells() =~= old.cells());
        towers::lemma_path_distinct(m0, old.paths@[0], 0, old.head, old.tail);
        towers::lemma_path_distinct(m, self.paths@[0], 0, self.head, self.tail);
        lemma_same_elements(self.paths@[0], old.paths@[0]);
        assert(self.owned());
        assert forall|k: Seq<u8>| #[trigger] self.entries@.contains_key(k) implies exists|x: usize| #[trigger]
            self.paths@[0].contains(x) && m[x].key == Bound::Fin(k) by {
            let x = choose|x: usize| #[trigger] old.paths@[0].contains(x) && m0[x].key == Bound::Fin(k);
            assert(self.paths@[0].contains(x));
            assert(m.contains_key(x));
        }
        assert(self.mapped());
        assert forall|k: Seq<u8>| old.entries@.contains_key(k) implies #[trigger] self.node_of(k) == old.node_of(k) by {
            let x = choose|x: usize| #[trigger] old.paths@[0].contains(x) && m0[x].key == Bound::Fin(k);
            old.lemma_node_of(k, x);
            assert(self.paths@[0].contains(x));
            assert(m.contains_key(x));
            self.lemma_node_of(k, x);
        }
    }

    /// Linking a new node into every level of its tower, given its place on each.
    fn link_node(&mut self, x: usize, top_level: usize, place: &Place)
        requires
            old(self).shape(),
            old(self).heap().contains_key(x),
            top_level <= old(self).max_level,
            old(self).heap()[x].links.len() == top_level + 1,
            !towers::is_dead(old(self).heap(), x),
            forall|l: int| 0 <= l <= old(self).max_level ==> !(#[trigger] old(self).paths@[l].contains(x)),
            forall|l: int| 0 <= l <= top_level ==> #[trigger] old(self).heap()[x].links[l] == (place.succs@[l], false),
            old(self).heap()[x].key is Fin,
            place.preds@.len() == old(self).max_level + 1,
            place.succs@.len() == old(self).max_level + 1,
            forall|l: int|
                0 <= l <= old(self).max_level ==> #[trigger] towers::brackets(
                    old(self).heap(),
                    old(self).paths@[l],
                    place.preds@[l],
                    place.succs@[l],
                    old(self).heap()[x].key->0,
                ),
            forall|l: int|
                0 <= l <= old(self).max_level ==> (#[trigger] old(self).heap()[place.succs@[l]]).key
                    != old(self).heap()[x].key,
        ensures
            final(self).shape(),
            final(self).same_but_links(old(self)),
            towers::same_nodes(old(self).heap(), final(self).heap()),
            forall|l: int, y: usize|
                0 <= l <= final(self).max_level ==> (#[trigger] final(self).paths@[l].contains(y)
                    <==> old(self).paths@[l].contains(y) || (y == x && l <= top_level)),
    {
        let ghost s1 = *self;
        let ghost m1 = self.heap();
        let ghost key = m1[x].key->0;
        let mut level: usize = 0;
        proof {
            assert forall|l: int| 0 <= l <= s1.max_level implies #[trigger] towers::path_ok(m1, s1.paths@[l], l, s1.head, s1.tail) by {
                assert(s1.level_ok(l));
            }
        }
        while level <= top_level
            invariant
                s1.shape(),
                m1 == s1.heap(),
                key == m1[x].key->0,
                m1[x].key is Fin,
                m1.contains_key(x),
                top_level <= s1.max_level,
                s1.max_level < MAX_HEIGHT,
                level <= top_level + 1,
                self.same_but_links(&s1),
                self.nodes.wf(),
                forall|y: usize| #[trigger] self.nodes.view().contains_key(y) ==> self.nodes.view()[y].wf(),
                towers::same_nodes(m1, self.heap()),
                self.heap()[x] == m1[x],
                m1[x].links.len() == top_level + 1,
                self.paths@.len() == s1.max_level + 1,
                place.preds@.len() == s1.max_level + 1,
                place.succs@.len() == s1.max_level + 1,
                forall|l: int| 0 <= l <= top_level ==> #[trigger] m1[x].links[l] == (place.succs@[l], false),
                forall|l: int| 0 <= l <= s1.max_level ==> !(#[trigger] s1.paths@[l].contains(x)),
                forall|l: int|
                    0 <= l <= s1.max_level ==> #[trigger] towers::brackets(
                        m1,
                        s1.paths@[l],
                        place.preds@[l],
                        place.succs@[l],
                        key,
                    ),
                forall|l: int| 0 <= l <= s1.max_level ==> (#[trigger] m1[place.succs@[l]]).key != m1[x].key,
                forall|l: int|
                    0 <= l <= s1.max_level ==> #[trigger] towers::path_ok(
                        self.heap(),
                        self.paths@[l],
                        l,
                        s1.head,
                        s1.tail,
                    ),
                forall|l: int| level <= l <= s1.max_level ==> #[trigger] self.paths@[l] == s1.paths@[l],
                forall|l: int, y: usize|
                    0 <= l < level ==> (#[trigger] self.paths@[l].contains(y) <==> s1.paths@[l].contains(y) || y == x),
            decreases top_level + 1 - level,
        {
            let ghost lv = level as int;
            let ghost before = *self;
            let ghost m = self.heap();
            let pred: usize = place.preds[level];
            let succ: usize = place.succs[level];
            let ghost p = choose|i: int|
                0 <= i < s1.paths@[lv].len() - 1 && #[trigger] s1.paths@[lv][i] == pred && s1.paths@[lv][i + 1] == succ;
            proof {
                assert(towers::brackets(m1, s1.paths@[lv], place.preds@[lv], place.succs@[lv], key));
                assert(self.paths@[lv] == s1.paths@[lv]);
                assert(towers::path_ok(m, self.paths@[lv], lv, s1.head, s1.tail));
                assert(m.contains_key(self.paths@[lv][p]));
                assert(m[self.paths@[lv][p]].links[lv].0 == succ);
                assert(s1.level_ok(lv));
                assert(s1.paths@[lv].contains(pred));
                assert(m1[pred].links[lv].1 == false);
                assert(m[pred].links[lv] == (succ, false));
                assert(m.contains_key(self.paths@[lv][p + 1]));
                assert(m1[place.succs@[lv]].key != m1[x].key);
                towers::bound_order(m[succ].key, m[x].key, m[succ].key);
                towers::lemma_link_in(m, self.paths@[lv], lv, s1.head, s1.tail, p, x, false);
            }
            self.cas_link(pred, level, succ, x, false, false);
            proof {
                let q = before.paths@[lv].insert(p + 1, x);
                self.paths@ = self.paths@.update(lv, q);
                assert(pred != x) by {
                    assert(!s1.paths@[lv].contains(x));
                }
                assert(self.heap().dom() =~= m1.dom());
                assert forall|l: int| 0 <= l <= s1.max_level implies #[trigger] towers::path_ok(
                    self.heap(),
                    self.paths@[l],
                    l,
                    s1.head,
                    s1.tail,
                ) by {
                    assert(towers::path_ok(m, before.paths@[l], l, s1.head, s1.tail));
                    if l != lv {
                        towers::lemma_path_frame(m, self.heap(), before.paths@[l], l, s1.head, s1.tail);
                    }
                }
                assert forall|l: int, y: usize| 0 <= l < lv + 1 implies (#[trigger] self.paths@[l].contains(y)
                    <==> s1.paths@[l].contains(y) || y == x) by {
                    if l < lv {
                        assert(before.paths@[l].contains(y) <==> s1.paths@[l].contains(y) || y == x);
                    }
                }
            }
            level += 1;
        }
        proof {
            let m = self.heap();
            assert forall|y: usize| m1.contains_key(y) implies towers::is_dead(m, y) == towers::is_dead(m1, y) by {
                assert(m.contains_key(y));
                assert(m1[y].links.len() >= 1);
            }
            assert forall|l: int| 0 <= l <= s1.max_level implies #[trigger] self.level_ok(l) by {
                assert(s1.level_ok(l));
                assert(towers::path_ok(m, self.paths@[l], l, s1.head, s1.tail));
                assert forall|y: usize| #[trigger] self.paths@[l].contains(y) implies m[y].links[l].1
                    == towers::is_dead(m, y) by {
                    if y == x {
                        assert(m1[x].links[l] == (place.succs@[l], false));
                    } else {
                        assert(s1.paths@[l].contains(y));
                        assert(m.contains_key(y));
                    }
                }
                if l > 0 {
                    assert(s1.level_ok(l - 1));
                    assert forall|y: usize| #[trigger] self.paths@[l].contains(y) && !towers::is_dead(m, y) implies
                        self.paths@[l - 1].contains(y) by {
                        if y != x {
                            assert(s1.paths@[l].contains(y));
                            assert(s1.paths@[l - 1].contains(y));
                        }
                    }
                }
            }
            assert(m1[x].links[0] == (place.succs@[0], false));
        }
    }
}

/// Retiring at the current epoch takes nothing from what a pin protects.
proof fn lemma_protection_kept(old: &SkipList, new: &SkipList, d0: DomainView<Garbage>, d1: DomainView<Garbage>)
    requires
        d0.wf(),
        new.keeps(old),
        old.tracks(d0.records()),
        d1.slots == d0.slots,
        forall|r: Retired<Garbage>| #[trigger]
            d1.records().contains(r) ==> d0.records().contains(r) || r.epoch == d0.epoch,
    ensures
        forall|slot: int, c: usize| #[trigger] old.cell_protected(d0, slot, c) ==> new.cell_protected(d1, slot, c),
{
    assert forall|slot: int, c: usize| #[trigger] old.cell_protected(d0, slot, c) implies new.cell_protected(d1, slot, c) by {
        assert(d0.pinned(slot));
        assert forall|r: Retired<Garbage>| #[trigger] d1.records().contains(r) && new.frees(r.item, c) implies d1.pin_epoch(slot) <= r.epoch by {
            if r.epoch != d0.epoch {
                assert(d0.records().contains(r));
            }
        }
    }
}

/// What a list tracks depends on nothing but its number and its dead nodes and cells.
proof fn lemma_tracks_same(old: &SkipList, new: &SkipList, r: Multiset<Retired<Garbage>>)
    requires
        old.tracks(r),
        new.id() == old.id(),
        new.dead_nodes() == old.dead_nodes(),
        new.dead_cells() == old.dead_cells(),
    ensures
        new.tracks(r),
{
    assert forall|n: usize| #[trigger] new.dead_nodes().contains(n) implies exists|e: u64|
        r.contains(#[trigger] node_record(new.id(), n, e)) by {
        assert(old.dead_nodes().contains(n));
    }
    assert forall|c: usize| #[trigger] new.dead_cells().contains(c) implies exists|e: u64|
        r.contains(#[trigger] cell_record(new.id(), c, e)) by {
        assert(old.dead_cells().contains(c));
    }
}

/// What a list tracks depends only on the records of its own garbage.
pub proof fn tracks_own_records(list: &SkipList, r1: Multiset<Retired<Garbage>>, r2: Multiset<Retired<Garbage>>)
    requires
        list.tracks(r1),
        forall|a: Retired<Garbage>| garbage_list(a.item) == list.id() ==> #[trigger] r2.count(a) == r1.count(a),
    ensures
        list.tracks(r2),
{
    assert forall|a: Retired<Garbage>| garbage_list(a.item) == list.id() implies (#[trigger] r2.contains(a) <==> r1.contains(a)) by {
        assert(r2.count(a) == r1.count(a));
    }
    assert forall|a: Retired<Garbage>| #[trigger] r2.contains(a) && garbage_list(a.item) == list.id() implies r2.count(a) == 1 && (match a.item {
        Garbage::Node { node, .. } => list.dead_nodes().contains(node),
        Garbage::Value { cell, .. } => list.dead_cells().contains(cell),
    }) by {
        assert(r1.contains(a));
    }
    assert forall|a: Retired<Garbage>, b: Retired<Garbage>| #[trigger] r2.contains(a) && #[trigger] r2.contains(b)
        && garbage_list(a.item) == list.id() && a.item == b.item implies a == b by {
        assert(r1.contains(a) && r1.contains(b));
    }
    assert forall|n: usize| #[trigger] list.dead_nodes().contains(n) implies exists|e: u64|
        r2.contains(#[trigger] node_record(list.id(), n, e)) by {
        let e = choose|e: u64| r1.contains(#[trigger] node_record(list.id(), n, e));
        assert(r2.contains(node_record(list.id(), n, e)));
    }
    assert forall|c: usize| #[trigger] list.dead_cells().contains(c) implies exists|e: u64|
        r2.contains(#[trigger] cell_record(list.id(), c, e)) by {
        let e = choose|e: u64| r1.contains(#[trigger] cell_record(list.id(), c, e));
        assert(r2.contains(cell_record(list.id(), c, e)));
    }
}

/// A record more in a multiset that `list` tracks, for something that just died.
proof fn lemma_tracks_insert(old: &SkipList, new: &SkipList, r: Multiset<Retired<Garbage>>, a: Retired<Garbage>)
    requires
        old.tracks(r),
        new.id() == old.id(),
        garbage_list(a.item) == old.id(),
        match a.item {
            Garbage::Node { node, .. } => !old.dead_nodes().contains(node) && new.dead_nodes() == old.dead_nodes().insert(node)
                && new.dead_cells() == old.dead_cells(),
            Garbage::Value { cell, .. } => !old.dead_cells().contains(cell) && new.dead_cells() == old.dead_cells().insert(cell)
                && new.dead_nodes() == old.dead_nodes(),
        },
    ensures
        new.tracks(r.insert(a)),
{
    let r1 = r.insert(a);
    assert(!r.contains(a));
    assert forall|b: Retired<Garbage>| #[trigger] r1.contains(b) implies b == a || r.contains(b) by {}
    assert(r1.contains(a));
    assert forall|n: usize| #[trigger] new.dead_nodes().contains(n) implies exists|e: u64|
        r1.contains(#[trigger] node_record(new.id(), n, e)) by {
        if old.dead_nodes().contains(n) {
            let e = choose|e: u64| r.contains(#[trigger] node_record(old.id(), n, e));
            assert(r1.contains(node_record(new.id(), n, e)));
        } else {
            assert(a == node_record(new.id(), n, a.epoch));
        }
    }
    assert forall|c: usize| #[trigger] new.dead_cells().contains(c) implies exists|e: u64|
        r1.contains(#[trigger] cell_record(new.id(), c, e)) by {
        if old.dead_cells().contains(c) {
            let e = choose|e: u64| r.contains(#[trigger] cell_record(old.id(), c, e));
            assert(r1.contains(cell_record(new.id(), c, e)));
        } else {
            assert(a == cell_record(new.id(), c, a.epoch));
        }
    }
}

impl SkipList {
    /// Stores `val` under the key of the linked node `x`; the value displaced is retired.
    fn overwrite(&mut self, x: usize, val: &[u8], guard: &Guard, domain: &mut Domain<Garbage>)
        requires
            old(self).wf(),
            old(domain).wf(),
            old(self).tracks(old(domain)@.records()),
            old(self).paths@[0].contains(x),
            old(self).inner(x),
        ensures
            final(self).wf(),
            final(domain).wf(),
            final(self).keeps(old(self)),
            final(self).rng() == old(self).rng(),
            final(self)@ == old(self)@.insert(old(self).heap()[x].key->0, val@),
            final(domain)@ == old(domain)@.retire(
                Garbage::Value { list: old(self).id(), cell: old(self).node_cell(x) },
            ),
            final(self).dead_nodes() == old(self).dead_nodes(),
            final(self).dead_cells() == old(self).dead_cells().insert(old(self).node_cell(x)),
            final(self).tracks(final(domain)@.records()),
            forall|slot: int, c: usize| #[trigger]
                old(self).cell_protected(old(domain)@, slot, c) ==> final(self).cell_protected(final(domain)@, slot, c),
    {
        let ghost m0 = self.heap();
        let ghost v0 = self.cells();
        let ghost k = m0[x].key->0;
        let ghost displaced_cell = self.node_cell(x);
        proof {
            assert(self.level_ok(0));
            assert(m0.contains_key(x));
        }
        let cell = self.values.insert(ValueRecord { bytes: vstd::slice::slice_to_vec(val) });
        let displaced = self.nodes.get_mut(x).swap_value(cell);
        proof {
            self.entries@ = self.entries@.insert(k, val@);
            self.dead_cells@ = self.dead_cells@.insert(displaced_cell);
            let m = self.heap();
            let v = self.cells();
            assert(m =~= m0.insert(x, NodeView { value: Some(cell), ..m0[x] }));
            assert(v =~= v0.insert(cell, val@));
            assert forall|y: usize| m0.contains_key(y) implies towers::is_dead(m, y) == towers::is_dead(m0, y) by {}
            assert forall|l: int| 0 <= l <= self.max_level implies #[trigger] self.level_ok(l) by {
                assert(old(self).level_ok(l));
                towers::lemma_path_frame(m0, m, self.paths@[l], l, self.head, self.tail);
                assert forall|y: usize| #[trigger] self.paths@[l].contains(y) implies m[y].links[l].1
                    == towers::is_dead(m, y) by {
                    assert(m0.contains_key(y));
                }
                if l > 0 {
                    assert forall|y: usize| #[trigger] self.paths@[l].contains(y) && !towers::is_dead(m, y) implies
                        self.paths@[l - 1].contains(y) by {
                        assert(m0.contains_key(y));
                    }
                }
            }
            assert(self.shape());
            assert(self.settled()) by {
                assert forall|l: int, y: usize| 0 <= l <= self.max_level implies (#[trigger] self.paths@[l].contains(y)
                    <==> self.paths@[0].contains(y) && l < m[y].links.len()) by {
                    assert(old(self).paths@[l].contains(y) <==> old(self).paths@[0].contains(y) && l < m0[y].links.len());
                }
                assert forall|y: usize| #[trigger] self.paths@[0].contains(y) implies !towers::is_dead(m, y) && (self.inner(y)
                    ==> m[y].links.len() <= self.max_level + 1) by {
                    assert(m0.contains_key(y));
                    assert(old(self).paths@[0].contains(y));
                }
            }
            assert(m0[x].value == Some(displaced_cell));
            assert(self.owned()) by {
                assert forall|c: usize| #[trigger] v.contains_key(c) implies self.dead_cells@.contains(c)
                    || exists|y: usize| #[trigger] m.contains_key(y) && self.inner(y) && m[y].value == Some(c) by {
                    if c == cell {
                        assert(m.contains_key(x) && self.inner(x) && m[x].value == Some(c));
                    } else if !old(self).dead_cells@.contains(c) {
                        let y = choose|y: usize| #[trigger] m0.contains_key(y) && old(self).inner(y) && m0[y].value == Some(c);
                        assert(m.contains_key(y));
                    }
                }
                assert forall|y: usize| #[trigger] m.contains_key(y) && self.inner(y) implies m[y].value is Some
                    && v.contains_key(m[y].value->0) && !self.dead_cells@.contains(m[y].value->0) by {
                    assert(m0.contains_key(y));
                    assert(m0.contains_key(x));
                }
                assert forall|y: usize, z: usize| #[trigger] m.contains_key(y) && #[trigger] m.contains_key(z)
                    && self.inner(y) && self.inner(z) && y != z implies m[y].value != m[z].value by {
                    assert(m0.contains_key(y) && m0.contains_key(z));
                }
                assert forall|y: usize| #[trigger] m.contains_key(y) <==> self.paths@[0].contains(y) || self.dead_nodes@.contains(y) by {
                    assert(m0.contains_key(y) <==> self.paths@[0].contains(y) || self.dead_nodes@.contains(y));
                }
            }
            assert(self.mapped()) by {
                assert(old(self).paths@[0].contains(x));
                assert(self.entries@.dom() =~= old(self).entries@.dom());
                assert forall|y: usize| #[trigger] self.paths@[0].contains(y) && self.inner(y) implies m[y].key is Fin
                    && self.entries@.contains_key(m[y].key->0) && self.entries@[m[y].key->0] == v[m[y].value->0] by {
                    assert(old(self).paths@[0].contains(y));
                    assert(m0.contains_key(y));
                    if y != x {
                        if m0[y].key == m0[x].key {
                            towers::lemma_key_unique(m0, self.paths@[0], 0, self.head, self.tail, x, y);
                        }
                    }
                }
                assert forall|j: Seq<u8>| #[trigger] self.entries@.contains_key(j) implies exists|y: usize| #[trigger]
                    self.paths@[0].contains(y) && m[y].key == Bound::Fin(j) by {
                    assert(old(self).entries@.contains_key(j));
                    let y = choose|y: usize| #[trigger] old(self).paths@[0].contains(y) && m0[y].key == Bound::Fin(j);
                    assert(self.paths@[0].contains(y));
                }
            }
            assert forall|n: usize| #[trigger] old(self).dead_nodes().contains(n) implies self.node_cell(n)
                == old(self).node_cell(n) by {
                assert(n != x);
            }
        }
        if let Some(c) = displaced {
            guard.retire(domain, Garbage::Value { list: self.id, cell: c });
        }
        proof {
            let a = cell_record(self.id(), displaced_cell, old(domain)@.epoch as u64);
            lemma_tracks_insert(old(self), self, old(domain)@.records(), a);
            old(domain).lemma_wf();
            assert forall|r: Retired<Garbage>| #[trigger] domain@.records().contains(r) implies
                old(domain)@.records().contains(r) || r.epoch == old(domain)@.epoch by {}
            lemma_protection_kept(old(self), self, old(domain)@, domain@);
        }
    }

    /// Adds a node for a key that is not there yet, with a tower up to `top_level`.
    fn add(&mut self, key: &[u8], val: &[u8], top_level: usize, place: &Place)
        requires
            old(self).wf(),
            top_level <= old(self).max_level,
            !old(self)@.contains_key(key@),
            place.preds@.len() == old(self).max_level + 1,
            place.succs@.len() == old(self).max_level + 1,
            forall|l: int|
                0 <= l <= old(self).max_level ==> #[trigger] towers::brackets(
                    old(self).heap(),
                    old(self).paths@[l],
                    place.preds@[l],
                    place.succs@[l],
                    key@,
                ),
        ensures
            final(self).wf(),
            final(self).keeps(old(self)),
            final(self).rng() == old(self).rng(),
            final(self)@ == old(self)@.insert(key@, val@),
            final(self).tower_height(key@) == top_level + 1,
            final(self).dead_nodes() == old(self).dead_nodes(),
            final(self).dead_cells() == old(self).dead_cells(),
    {
        let ghost m0 = self.heap();
        let ghost v0 = self.cells();
        let ghost s0 = *self;
        let cell = self.values.insert(ValueRecord { bytes: vstd::slice::slice_to_vec(val) });
        let mut node = Node::new(BoundKey::Fin(KeyRepr::new(key)), Some(cell), top_level);
        let mut level: usize = 0;
        while level <= top_level
            invariant
                level <= top_level + 1,
                top_level < MAX_HEIGHT,
                node.wf(),
                node@.links.len() == top_level + 1,
                node@.key == Bound::Fin(key@),
                node@.value == Some(cell),
                place.succs@.len() > top_level,
                forall|l: int| 0 <= l <= top_level ==> !(#[trigger] node@.links[l]).1,
                forall|l: int| 0 <= l < level ==> (#[trigger] node@.links[l]).0 == place.succs@[l],
            decreases top_level + 1 - level,
        {
            node.store(level, place.succs[level], false);
            level += 1;
        }
        let ghost nv = node@;
        let x = self.nodes.insert(node);
        let ghost m1 = self.heap();
        proof {
            assert(m1 =~= m0.insert(x, nv));
            assert(!m0.contains_key(x));
            assert(self.cells() =~= v0.insert(cell, val@));
            assert forall|l: int| 0 <= l <= s0.max_level implies #[trigger] self.level_ok(l) by {
                assert(s0.level_ok(l));
                towers::lemma_path_frame(m0, m1, s0.paths@[l], l, s0.head, s0.tail);
                assert forall|y: usize| #[trigger] s0.paths@[l].contains(y) implies m1[y].links[l].1
                    == towers::is_dead(m1, y) && m0.contains_key(y) by {
                    assert(m0.contains_key(y));
                }
            }
            assert forall|l: int| 0 <= l <= s0.max_level implies !(#[trigger] s0.paths@[l].contains(x)) by {
                assert(s0.level_ok(l));
            }
            assert forall|l: int| 0 <= l <= s0.max_level implies #[trigger] towers::brackets(
                m1,
                s0.paths@[l],
                place.preds@[l],
                place.succs@[l],
                key@,
            ) && m1[place.succs@[l]].key != m1[x].key by {
                assert(towers::brackets(m0, s0.paths@[l], place.preds@[l], place.succs@[l], key@));
                assert(s0.level_ok(l));
                let i = choose|i: int|
                    0 <= i < s0.paths@[l].len() - 1 && #[trigger] s0.paths@[l][i] == place.preds@[l] && s0.paths@[l][i + 1]
                        == place.succs@[l];
                assert(m0.contains_key(s0.paths@[l][i]));
                assert(m0.contains_key(s0.paths@[l][i + 1]));
                assert(s0.paths@[l].contains(place.succs@[l]));
                assert(s0.paths@[0].contains(place.succs@[l]));
                if m0[place.succs@[l]].key == Bound::Fin(key@) {
                    assert(s0.inner(place.succs@[l]));
                    assert(false);
                }
            }
            assert forall|l: int| 0 <= l <= s0.max_level implies (#[trigger] m1[place.succs@[l]]).key != m1[x].key by {
                assert(towers::brackets(m1, s0.paths@[l], place.preds@[l], place.succs@[l], key@));
            }
            assert(self.shape());
        }
        let ghost s1 = *self;
        self.link_node(x, top_level, place);
        let ghost s2 = *self;
        let ghost m = self.heap();
        proof {
            assert(s0.level_ok(0));
            towers::lemma_path_distinct(m0, s0.paths@[0], 0, s0.head, s0.tail);
            s0.nodes.lemma_count(s0.paths@[0]);
        }
        self.len = self.len + 1;
        proof {
            self.entries@ = self.entries@.insert(key@, val@);
            let p0 = self.paths@[0];
            assert(m == self.heap());
            assert(self.cells() =~= v0.insert(cell, val@));
            assert forall|y: usize| m1.contains_key(y) implies towers::is_dead(m, y) == towers::is_dead(m1, y) by {
                assert(m.contains_key(y));
                assert(m1[y].links.len() >= 1);
            }
            assert forall|l: int| 0 <= l <= self.max_level implies #[trigger] self.level_ok(l) by {
                assert(s2.level_ok(l));
            }
            assert(m.contains_key(x));
            assert(m0.contains_key(s0.head) && m0.contains_key(s0.tail));
            assert(self.inner(x));
            assert forall|y: usize| s0.paths@[0].contains(y) implies m0.contains_key(y) by {}
            assert(self.settled()) by {
                assert forall|l: int, y: usize| 0 <= l <= self.max_level implies (#[trigger] self.paths@[l].contains(y)
                    <==> self.paths@[0].contains(y) && l < m[y].links.len()) by {
                    assert(s0.paths@[l].contains(y) <==> s0.paths@[0].contains(y) && l < m0[y].links.len());
                    assert(self.paths@[0].contains(y) <==> s1.paths@[0].contains(y) || y == x);
                    if self.paths@[0].contains(y) {
                        assert(m.contains_key(y));
                    }
                }
                assert forall|y: usize| #[trigger] self.paths@[0].contains(y) implies !towers::is_dead(m, y) && (self.inner(y)
                    ==> m[y].links.len() <= self.max_level + 1) by {
                    assert(s1.paths@[0].contains(y) || y == x);
                    assert(m.contains_key(y));
                    if y != x {
                        assert(s0.paths@[0].contains(y));
                    }
                }
            }
            assert(self.owned()) by {
                assert forall|y: usize| #[trigger] m.contains_key(y) <==> p0.contains(y) || self.dead_nodes@.contains(y) by {
                    assert(m0.contains_key(y) <==> s0.paths@[0].contains(y) || s0.dead_nodes@.contains(y));
                    assert(p0.contains(y) <==> s1.paths@[0].contains(y) || y == x);
                }
                assert forall|y: usize| #[trigger] self.dead_nodes@.contains(y) implies !p0.contains(y) by {
                    assert(m0.contains_key(y));
                    assert(p0.contains(y) <==> s1.paths@[0].contains(y) || y == x);
                }
                assert forall|y: usize| #[trigger] m.contains_key(y) && self.inner(y) implies m[y].value is Some
                    && self.cells().contains_key(m[y].value->0) && !self.dead_cells@.contains(m[y].value->0) by {
                    assert(m1.contains_key(y));
                    if y != x {
                        assert(m0.contains_key(y));
                    }
                }
                assert forall|y: usize, z: usize| #[trigger] m.contains_key(y) && #[trigger] m.contains_key(z)
                    && self.inner(y) && self.inner(z) && y != z implies m[y].value != m[z].value by {
                    assert(y == x || m0.contains_key(y));
                    assert(z == x || m0.contains_key(z));
                }
                assert forall|c: usize| #[trigger] self.cells().contains_key(c) implies self.dead_cells@.contains(c)
                    || exists|y: usize| #[trigger] m.contains_key(y) && self.inner(y) && m[y].value == Some(c) by {
                    if c == cell {
                        assert(m.contains_key(x) && self.inner(x) && m[x].value == Some(c));
                    } else if !s0.dead_cells@.contains(c) {
                        assert(v0.contains_key(c));
                        let y = choose|y: usize| #[trigger] m0.contains_key(y) && s0.inner(y) && m0[y].value == Some(c);
                        assert(m.contains_key(y));
                    }
                }
            }
            assert(self.mapped()) by {
                assert forall|y: usize| #[trigger] p0.contains(y) && self.inner(y) implies m[y].key is Fin
                    && self.entries@.contains_key(m[y].key->0) && self.entries@[m[y].key->0]
                    == self.cells()[m[y].value->0] by {
                    assert(s1.paths@[0].contains(y) || y == x);
                    assert(m.contains_key(y));
                    if y != x {
                        assert(s0.paths@[0].contains(y));
                        assert(m0.contains_key(y));
                    }
                }
                assert forall|j: Seq<u8>| #[trigger] self.entries@.contains_key(j) implies exists|y: usize| #[trigger]
                    p0.contains(y) && m[y].key == Bound::Fin(j) by {
                    if j == key@ {
                        assert(p0.contains(x));
                        assert(m.contains_key(x));
                    } else {
                        assert(s0.entries@.contains_key(j));
                        let y = choose|y: usize| #[trigger] s0.paths@[0].contains(y) && m0[y].key == Bound::Fin(j);
                        assert(p0.contains(y));
                        assert(m.contains_key(y));
                    }
                }
                assert(self.entries@.dom() =~= s0.entries@.dom().insert(key@));
                assert(self.level_ok(0));
                towers::lemma_path_distinct(m, p0, 0, self.head, self.tail);
                let grown = s0.paths@[0].push(x);
                assert(grown.no_duplicates());
                assert forall|y: usize| #[trigger] grown.contains(y) <==> p0.contains(y) by {
                    assert(p0.contains(y) <==> s1.paths@[0].contains(y) || y == x);
                    if s0.paths@[0].contains(y) {
                        let j = choose|j: int| 0 <= j < s0.paths@[0].len() && s0.paths@[0][j] == y;
                        assert(grown[j] == y);
                    }
                    assert(grown[grown.len() - 1] == x);
                }
                lemma_same_elements(grown, p0);
            }
            assert forall|n: usize| #[trigger] s0.dead_nodes().contains(n) implies self.node_cell(n) == s0.node_cell(n) by {
                assert(m0.contains_key(n));
                assert(m.contains_key(n));
            }
            assert(p0.contains(x));
            self.lemma_node_of(key@, x);
        }
    }

    /// Inserts or updates `key` through a node with a tower up to `top_level`, if one is
    /// created. Returns whether it was. A value that is displaced is retired.
    fn insert_at(&mut self, key: &[u8], val: &[u8], top_level: usize, guard: &Guard, domain: &mut Domain<Garbage>) -> (created: bool)
        requires
            old(self).wf(),
            old(domain).wf(),
            old(self).tracks(old(domain)@.records()),
            top_level <= old(self).max_level(),
        ensures
            final(self).wf(),
            final(domain).wf(),
            final(self).keeps(old(self)),
            final(self).rng() == old(self).rng(),
            created == !old(self)@.contains_key(key@),
            final(self)@ == old(self)@.insert(key@, val@),
            created ==> final(self).tower_height(key@) == top_level + 1,
            final(domain)@ == (if created {
                old(domain)@
            } else {
                old(domain)@.retire(Garbage::Value { list: old(self).id(), cell: old(self).cell_of(key@) })
            }),
            final(self).dead_nodes() == old(self).dead_nodes(),
            final(self).dead_cells() == (if created {
                old(self).dead_cells()
            } else {
                old(self).dead_cells().insert(old(self).cell_of(key@))
            }),
            final(self).tracks(final(domain)@.records()),
            forall|slot: int, c: usize| #[trigger]
                old(self).cell_protected(old(domain)@, slot, c) ==> final(self).cell_protected(final(domain)@, slot, c),
    {
        let place = self.find(key);
        proof {
            self.lemma_find_settled(old(self));
            assert(towers::brackets(self.heap(), self.paths@[0], place.preds@[0], place.succs@[0], key@));
            self.lemma_found(place.preds@[0], place.succs@[0], key@);
            assert forall|n: usize| #[trigger] old(self).dead_nodes().contains(n) implies self.node_cell(n)
                == old(self).node_cell(n) by {
                assert(old(self).heap().contains_key(n));
            }
            assert(self.keeps(old(self)));
            assert(self.dead_nodes() == old(self).dead_nodes() && self.dead_cells() == old(self).dead_cells());
            lemma_tracks_same(old(self), self, old(domain)@.records());
            old(domain).lemma_wf();
            lemma_protection_kept(old(self), self, old(domain)@, old(domain)@);
        }
        if place.found {
            let x: usize = place.succs[0];
            proof {
                self.lemma_node_of(key@, x);
                assert(self.node_of(key@) == old(self).node_of(key@));
                assert(self.level_ok(0));
                assert(self.heap().contains_key(x));
                assert(old(self).heap().contains_key(x));
            }
            self.overwrite(x, val, guard, domain);
            false
        } else {
            let ghost mid = *self;
            self.add(key, val, top_level, &place);
            proof {
                lemma_protection_kept(&mid, self, old(domain)@, old(domain)@);
            }
            true
        }
    }
}

impl SkipList {
    /// The first node that is alive and whose key is not below `key`. Passes over marked
    /// nodes without touching them.
    fn descend(&self, key: &[u8]) -> (x: usize)
        requires
            self.shape(),
        ensures
            self.paths@[0].contains(x),
            self.heap().contains_key(x),
            !towers::is_dead(self.heap(), x),
            !towers::bound_lt(self.heap()[x].key, Bound::Fin(key@)),
            forall|y: usize| #[trigger]
                self.paths@[0].contains(y) && !towers::is_dead(self.heap(), y) && self.heap()[y].key == Bound::Fin(key@)
                    ==> y == x,
    {
        let ghost m = self.heap();
        let mut pred: usize = self.head;
        let mut curr: usize = self.tail;
        let mut level: usize = self.max_level + 1;
        let ghost mut p: int = 0;
        let ghost mut c: int = 0;
        proof {
            assert(self.level_ok(self.max_level as int));
            assert(self.paths@[self.max_level as int][0] == self.head);
        }
        while level > 0
            invariant
                self.shape(),
                m == self.heap(),
                level <= self.max_level + 1,
                m.contains_key(pred),
                !towers::is_dead(m, pred),
                towers::bound_lt(m[pred].key, Bound::Fin(key@)),
                level > 0 ==> self.paths@[level - 1].contains(pred),
                level == 0 ==> {
                    &&& 0 <= p < c < self.paths@[0].len()
                    &&& self.paths@[0][p] == pred
                    &&& self.paths@[0][c] == curr
                    &&& !towers::is_dead(m, curr)
                    &&& !towers::bound_lt(m[curr].key, Bound::Fin(key@))
                    &&& forall|i: int| p < i < c ==> towers::is_dead(m, #[trigger] self.paths@[0][i])
                },
            decreases level,
        {
            level = level - 1;
            let ghost lv = level as int;
            let ghost path = self.paths@[lv];
            assert(self.level_ok(lv));
            proof {
                p = choose|i: int| 0 <= i < path.len() && path[i] == pred;
                c = p + 1;
                if p == path.len() - 1 {
                    assert(pred == self.tail);
                }
            }
            curr = self.nodes.get(pred).link(level).0;
            let mut done = false;
            assert(curr == path[p + 1]);
            while !done
                invariant
                    self.shape(),
                    m == self.heap(),
                    lv == level,
                    level <= self.max_level,
                    path == self.paths@[lv],
                    0 <= p < c < path.len(),
                    path[p] == pred,
                    path[c] == curr,
                    !towers::is_dead(m, pred),
                    towers::bound_lt(m[pred].key, Bound::Fin(key@)),
                    forall|i: int| p < i < c ==> towers::is_dead(m, #[trigger] path[i]),
                    done ==> !towers::is_dead(m, curr) && !towers::bound_lt(m[curr].key, Bound::Fin(key@)),
                decreases path.len() - c, !done as int,
            {
                assert(self.level_ok(lv));
                assert(path.contains(curr));
                let (succ, marked) = self.nodes.get(curr).link(level);
                proof {
                    if c == path.len() - 1 {
                        assert(curr == self.tail);
                    } else {
                        assert(m[path[c]].links[lv].0 == path[c + 1]);
                    }
                }
                if marked {
                    curr = succ;
                    proof {
                        c = c + 1;
                    }
                } else if Self::key_lt(&self.nodes.get(curr).key, key) {
                    pred = curr;
                    curr = succ;
                    proof {
                        p = c;
                        c = c + 1;
                    }
                } else {
                    done = true;
                }
            }
            proof {
                assert(self.level_ok(lv));
                assert(path.contains(pred));
            }
        }
        proof {
            let p0 = self.paths@[0];
            assert(self.level_ok(0));
            assert(p0.contains(curr));
            assert forall|y: usize| #[trigger] p0.contains(y) && !towers::is_dead(m, y) && m[y].key == Bound::Fin(key@) implies y
                == curr by {
                let j = choose|j: int| 0 <= j < p0.len() && p0[j] == y;
                towers::bound_order(m[pred].key, m[y].key, m[pred].key);
                if j < p {
                    assert(towers::bound_lt(m[p0[j]].key, m[p0[p]].key));
                } else if j > c {
                    assert(towers::bound_lt(m[p0[c]].key, m[p0[j]].key));
                }
            }
        }
        curr
    }

    /// The value cell of `key`, if the list holds the key.
    fn find_cell(&self, key: &[u8]) -> (r: Option<usize>)
        requires
            self.wf(),
        ensures
            r is Some <==> self@.contains_key(key@),
            r is Some ==> {
                &&& r->0 == self.cell_of(key@)
                &&& self.cells().contains_key(r->0)
                &&& self.cells()[r->0] == self@[key@]
            },
    {
        let x = self.descend(key);
        let node = self.nodes.get(x);
        proof {
            assert(self.level_ok(0));
            if self.entries@.contains_key(key@) {
                let y = choose|y: usize| #[trigger] self.paths@[0].contains(y) && self.heap()[y].key == Bound::Fin(key@);
                assert(!towers::is_dead(self.heap(), y));
                assert(y == x);
            }
        }
        if Self::key_eq(&node.key, key) {
            proof {
                self.lemma_node_of(key@, x);
                assert(self.inner(x));
                assert(self.heap().contains_key(x));
            }
            node.value
        } else {
            None
        }
    }

    /// Point lookup: the value of `key`, borrowed from its cell.
    pub fn get(&self, key: &[u8], guard: &Guard) -> (r: Option<&[u8]>)
        requires
            self.wf(),
        ensures
            r is Some <==> self@.contains_key(key@),
            r is Some ==> r->0@ == self@[key@] && r->0@ == self.cells()[self.cell_of(key@)],
    {
        let _ = guard;
        match self.find_cell(key) {
            Some(c) => Some(self.values.get(c).bytes.as_slice()),
            None => None,
        }
    }

    /// Point lookup that does not borrow the list: a reference to the value's cell. It can be
    /// read for as long as the guard is held, also after the key is updated or removed.
    pub fn get_ref(&self, key: &[u8], guard: &Guard) -> (r: Option<ValueRef>)
        requires
            self.wf(),
        ensures
            r is Some <==> self@.contains_key(key@),
            r is Some ==> {
                &&& r->0.cell() == self.cell_of(key@)
                &&& self.cells().contains_key(r->0.cell())
                &&& self.cells()[r->0.cell()] == self@[key@]
            },
    {
        let _ = guard;
        match self.find_cell(key) {
            Some(cell) => Some(ValueRef { cell }),
            None => None,
        }
    }

    /// Reads the cell behind a reference.
    pub fn read(&self, r: &ValueRef) -> (bytes: &[u8])
        requires
            self.wf(),
            self.cells().contains_key(r.cell()),
        ensures
            bytes@ == self.cells()[r.cell()],
    {
        self.values.get(r.cell).bytes.as_slice()
    }

    /// A list has finitely many entries.
    pub proof fn wf_is_finite(&self)
        requires
            self.wf(),
        ensures
            self@.dom().finite(),
    {
    }

    /// The number of entries.
    pub fn len(&self) -> (n: usize)
        requires
            self.wf(),
        ensures
            n == self@.len(),
            self@.dom().finite(),
    {
        self.len
    }

    /// Whether there is no entry.
    pub fn is_empty(&self) -> (r: bool)
        requires
            self.wf(),
        ensures
            r == (self@ == Map::<Seq<u8>, Seq<u8>>::empty()),
    {
        proof {
            if self.entries@.dom().len() == 0 {
                assert(self.entries@.dom() =~= Set::empty());
                assert(self.entries@ =~= Map::empty());
            }
        }
        self.len() == 0
    }

    /// A random top level for a new node, from zero to the highest level in use.
    fn random_level(&mut self) -> (top: usize)
        requires
            old(self).wf(),
        ensures
            final(self).wf(),
            final(self).keeps(old(self)),
            final(self)@ == old(self)@,
            final(self).dead_nodes() == old(self).dead_nodes(),
            final(self).dead_cells() == old(self).dead_cells(),
            final(self).rng() == backoff::xorshift(old(self).rng()),
            top + 1 == backoff::geometric_level(backoff::scrambled(final(self).rng()), (old(self).max_level() + 1) as nat),
            top <= old(self).max_level(),
            forall|k: Seq<u8>| #[trigger] final(self).cell_of(k) == old(self).cell_of(k),
            forall|g: Garbage, c: usize| #[trigger] final(self).frees(g, c) == old(self).frees(g, c),
            final(self).cells() == old(self).cells(),
    {
        let n: usize = self.max_level + 1;
        let level: usize = random_geometric_level(&mut self.rng, n);
        proof {
            assert(self.heap() =~= old(self).heap());
            assert(self.cells() =~= old(self).cells());
            assert forall|l: int| 0 <= l <= self.max_level implies #[trigger] self.level_ok(l) by {
                assert(old(self).level_ok(l));
            }
            assert forall|x: usize| self.inner(x) == old(self).inner(x) by {}
            assert(self.owned());
            assert(self.mapped());
        }
        level - 1
    }

    /// Inserts or updates `key`. Returns whether the key is new. The value that an update
    /// displaces is retired, so a reference to it stays readable under its guard.
    ///
    /// A new node's tower has the height drawn from the generator.
    pub fn insert(&mut self, key: &[u8], val: &[u8], guard: &Guard, domain: &mut Domain<Garbage>) -> (created: bool)
        requires
            old(self).wf(),
            old(domain).wf(),
            old(self).tracks(old(domain)@.records()),
        ensures
            final(self).wf(),
            final(domain).wf(),
            final(self).keeps(old(self)),
            final(self).rng() == backoff::xorshift(old(self).rng()),
            created == !old(self)@.contains_key(key@),
            final(self)@ == old(self)@.insert(key@, val@),
            created ==> final(self).tower_height(key@) == backoff::geometric_level(
                backoff::scrambled(final(self).rng()),
                (old(self).max_level() + 1) as nat,
            ),
            final(domain)@ == (if created {
                old(domain)@
            } else {
                old(domain)@.retire(Garbage::Value { list: old(self).id(), cell: old(self).cell_of(key@) })
            }),
            final(self).dead_nodes() == old(self).dead_nodes(),
            final(self).dead_cells() == (if created {
                old(self).dead_cells()
            } else {
                old(self).dead_cells().insert(old(self).cell_of(key@))
            }),
            final(self).tracks(final(domain)@.records()),
            forall|slot: int, c: usize| #[trigger]
                old(self).cell_protected(old(domain)@, slot, c) ==> final(self).cell_protected(final(domain)@, slot, c),
    {
        let top_level: usize = self.random_level();
        proof {
            lemma_tracks_same(old(self), self, old(domain)@.records());
            assert forall|slot: int, c: usize| #[trigger] old(self).cell_protected(old(domain)@, slot, c) implies
                self.cell_protected(old(domain)@, slot, c) by {
                assert forall|r: Retired<Garbage>| #[trigger] old(domain)@.records().contains(r) && self.frees(r.item, c) implies
                    old(domain)@.pin_epoch(slot) <= r.epoch by {
                    assert(old(self).frees(r.item, c));
                }
            }
            assert(self.cell_of(key@) == old(self).cell_of(key@));
        }
        self.insert_at(key, val, top_level, guard, domain)
    }

    /// A list whose towers are as high as `expected_items` entries call for: the logarithm of
    /// that number to base four, rounded up, from one to [`MAX_HEIGHT`] levels.
    pub fn with_capacity_hint(expected_items: usize, id: usize) -> (r: Self)
        ensures
            r.wf(),
            r.id() == id,
            r.max_level() + 1 == adapted_height(expected_items as nat),
            r.rng() == LEVEL_SEED,
            r.rng() == 0xba08_1331_fae9_74c6,
            r@ == Map::<Seq<u8>, Seq<u8>>::empty(),
            r.cells() == Map::<usize, Seq<u8>>::empty(),
            r.dead_nodes() == Set::<usize>::empty(),
            r.dead_cells() == Set::<usize>::empty(),
    {
        let n: usize = if expected_items < 2 { 2 } else { expected_items };
        let mut level: usize = 1;
        let mut reach: u64 = 4;
        proof {
            assert(power::pow(4, 1) == 4) by { reveal_with_fuel(power::pow, 3); }
        }
        while level < MAX_HEIGHT && reach < n as u64
            invariant
                1 <= level <= MAX_HEIGHT,
                reach == power::pow(4, level as nat),
                reach <= 0x1_0000_0000,
                level < MAX_HEIGHT ==> reach <= 0x4000_0000,
                level == 1 || power::pow(4, (level - 1) as nat) < n,
            decreases MAX_HEIGHT - level,
        {
            level += 1;
            proof {
                assert(power::pow(4, level as nat) == 4 * power::pow(4, (level - 1) as nat)) by {
                    reveal(power::pow);
                }
                lemma_pow4_small(level as nat);
            }
            reach = reach * 4;
        }
        proof {
            lemma_adapted(expected_items as nat, level as nat);
        }
        Self::with_max_level(level - 1, id)
    }
}

proof fn lemma_pow4_small(k: nat)
    requires
        k <= 16,
    ensures
        k <= 15 ==> power::pow(4, k) <= 0x4000_0000,
        power::pow(4, k) <= 0x1_0000_0000,
{
    assert(power::pow(4, 15) == 0x4000_0000 && power::pow(4, 16) == 0x1_0000_0000) by {
        reveal_with_fuel(power::pow, 18);
    }
    power::lemma_pow_increases(4, k, 16);
    if k <= 15 {
        power::lemma_pow_increases(4, k, 15);
    }
}

proof fn lemma_adapted(n: nat, level: nat)
    requires
        1 <= level <= MAX_HEIGHT,
        ({
            let m = if n < 2 { 2 } else { n };
            &&& level == 1 || power::pow(4, (level - 1) as nat) < m
            &&& level == MAX_HEIGHT || m <= power::pow(4, level)
        }),
    ensures
        adapted_height(n) == level,
{
    let m: nat = if n < 2 { 2 } else { n };
    log4_ceil_is_least(m, level);
    log4_ceil_is_least(m, (level - 1) as nat);
}

/// A reference to a value cell of a skiplist.
#[derive(Clone, Copy)]
pub struct ValueRef {
    cell: usize,
}

impl ValueRef {
    /// The cell.
    pub closed spec fn cell(&self) -> usize {
        self.cell
    }
}

/// The logarithm of `n` to base four, rounded up.
pub open spec fn log4_ceil(n: nat) -> nat
    decreases n,
{
    if n <= 1 {
        0
    } else {
        1 + log4_ceil((n + 3) / 4)
    }
}

/// The rounded-up logarithm is the smallest exponent whose power of four reaches `n`.
pub proof fn log4_ceil_is_least(n: nat, k: nat)
    requires
        n >= 1,
    ensures
        log4_ceil(n) <= k <==> n <= power::pow(4, k),
    decreases n,
{
    reveal(power::pow);
    if n == 1 {
        power::lemma_pow_positive(4, k);
    } else if k > 0 {
        log4_ceil_is_least((n + 3) / 4, (k - 1) as nat);
        let p = power::pow(4, (k - 1) as nat);
        assert(power::pow(4, k) == 4 * p);
    }
}

/// The number of levels that a list for `n` entries uses.
pub open spec fn adapted_height(n: nat) -> nat {
    let h = log4_ceil(if n < 2 { 2 } else { n });
    if h < 1 {
        1
    } else if h > MAX_HEIGHT {
        MAX_HEIGHT as nat
    } else {
        h
    }
}

impl SkipList {
    /// Marks every link of the tower of `x`: the levels above the bottom first, from the top
    /// down, then the bottom, which decides the removal.
    fn mark_tower(&mut self, x: usize)
        requires
            old(self).wf(),
            old(self).paths@[0].contains(x),
            old(self).inner(x),
        ensures
            final(self).shape(),
            final(self).same_but_links(old(self)),
            final(self).paths == old(self).paths,
            final(self).heap().dom() == old(self).heap().dom(),
            forall|y: usize| y != x ==> #[trigger] final(self).heap()[y] == old(self).heap()[y],
            final(self).heap()[x].key == old(self).heap()[x].key,
            final(self).heap()[x].value == old(self).heap()[x].value,
            final(self).heap()[x].links.len() == old(self).heap()[x].links.len(),
            towers::is_dead(final(self).heap(), x),
    {
        let ghost s0 = *self;
        let ghost m0 = self.heap();
        proof {
            assert(s0.level_ok(0));
            assert(m0.contains_key(x));
        }
        let mut level: usize = self.nodes.get(x).top_level();
        let ghost top = level as int;
        proof {
            assert forall|l: int| 0 <= l <= top implies !(#[trigger] m0[x].links[l]).1 by {
                s0.lemma_unmarked(x, l);
            }
        }
        while level > 0
            invariant
                self.same_but_links(&s0),
                self.paths == s0.paths,
                self.nodes.wf(),
                forall|y: usize| #[trigger] self.nodes.view().contains_key(y) ==> self.nodes.view()[y].wf(),
                level <= top,
                self.heap().dom() == m0.dom(),
                m0.contains_key(x),
                top == m0[x].links.len() - 1,
                forall|y: usize| y != x ==> #[trigger] self.heap()[y] == m0[y],
                self.heap()[x].key == m0[x].key,
                self.heap()[x].value == m0[x].value,
                self.heap()[x].links.len() == top + 1,
                forall|l: int| 0 <= l <= top ==> !(#[trigger] m0[x].links[l]).1,
                forall|l: int|
                    0 <= l <= top ==> #[trigger] self.heap()[x].links[l] == (m0[x].links[l].0, l > level),
            decreases level,
        {
            assert(self.heap().contains_key(x));
            let (succ, marked) = self.nodes.get(x).link(level);
            assert(self.heap()[x].links[level as int] == (succ, marked));
            self.cas_link(x, level, succ, succ, false, true);
            level = level - 1;
        }
        assert(self.heap().contains_key(x));
        let (succ, marked) = self.nodes.get(x).link(0);
        assert(self.heap()[x].links[0] == (succ, marked));
        self.cas_link(x, 0, succ, succ, false, true);
        proof {
            let m = self.heap();
            assert(m.dom() =~= m0.dom());
            assert forall|l: int| 0 <= l <= self.max_level implies #[trigger] self.level_ok(l) by {
                assert(s0.level_ok(l));
                towers::lemma_path_frame(m0, m, s0.paths@[l], l, s0.head, s0.tail);
            }
            assert(m[self.head] == m0[self.head] && m[self.tail] == m0[self.tail]);
        }
    }

    /// No link of a linked node is marked in a well-formed list.
    proof fn lemma_unmarked(&self, x: usize, l: int)
        requires
            self.wf(),
            self.paths@[0].contains(x),
            self.inner(x),
            0 <= l < self.heap()[x].links.len(),
        ensures
            !self.heap()[x].links[l].1,
    {
        assert(self.level_ok(l));
        assert(self.paths@[l].contains(x));
    }
}

impl SkipList {
    /// After the tower of `x` has been marked and a search for its key has run, `x` is on no
    /// level, and everything else is where it was.
    proof fn lemma_unlinked(before: &Self, marked: &Self, after: &Self, x: usize, place: &Place)
        requires
            before.wf(),
            before.paths@[0].contains(x),
            before.inner(x),
            marked.same_but_links(before),
            marked.paths == before.paths,
            marked.heap().dom() == before.heap().dom(),
            forall|y: usize| y != x ==> #[trigger] marked.heap()[y] == before.heap()[y],
            marked.heap()[x].key == before.heap()[x].key,
            marked.heap()[x].value == before.heap()[x].value,
            marked.heap()[x].links.len() == before.heap()[x].links.len(),
            towers::is_dead(marked.heap(), x),
            after.shape(),
            after.same_but_links(marked),
            towers::same_nodes(marked.heap(), after.heap()),
            forall|l: int|
                0 <= l <= after.max_level ==> #[trigger] towers::pruned(after.heap(), marked.paths@[l], after.paths@[l]),
            before.heap()[x].key is Fin,
            forall|l: int|
                0 <= l <= after.max_level ==> #[trigger] towers::brackets(
                    after.heap(),
                    after.paths@[l],
                    place.preds@[l],
                    place.succs@[l],
                    before.heap()[x].key->0,
                ),
        ensures
            after.heap().dom() == before.heap().dom(),
            forall|y: usize| #[trigger]
                after.heap().contains_key(y) ==> {
                    &&& after.heap()[y].key == before.heap()[y].key
                    &&& after.heap()[y].value == before.heap()[y].value
                    &&& after.heap()[y].links.len() == before.heap()[y].links.len()
                    &&& y != x ==> towers::is_dead(after.heap(), y) == towers::is_dead(before.heap(), y)
                },
            forall|l: int, y: usize|
                0 <= l <= after.max_level ==> (#[trigger] after.paths@[l].contains(y) <==> before.paths@[l].contains(y)
                    && y != x),
            after.settled(),
    {
        let m0 = before.heap();
        let m1 = marked.heap();
        let m = after.heap();
        let k = m0[x].key->0;
        assert(before.level_ok(0));
        assert forall|y: usize| #[trigger] m.contains_key(y) implies towers::is_dead(m, y) == towers::is_dead(m1, y) && m[y].key
            == m0[y].key && m[y].value == m0[y].value && m[y].links.len() == m0[y].links.len() by {
            assert(m1.contains_key(y));
            assert(m0.contains_key(y));
            assert(m0[y].links.len() >= 1);
        }
        assert forall|l: int, y: usize| 0 <= l <= after.max_level implies (#[trigger] after.paths@[l].contains(y)
            <==> before.paths@[l].contains(y) && y != x) by {
            assert(before.level_ok(l));
            assert(after.level_ok(l));
            assert(towers::pruned(m, marked.paths@[l], after.paths@[l]));
            assert(towers::brackets(m, after.paths@[l], place.preds@[l], place.succs@[l], k));
            if after.paths@[l].contains(y) && y == x {
                assert(m.contains_key(x));
                towers::lemma_bracketed(
                    m,
                    after.paths@[l],
                    l,
                    after.head,
                    after.tail,
                    place.preds@[l],
                    place.succs@[l],
                    k,
                    x,
                );
                assert(false);
            }
            if before.paths@[l].contains(y) && y != x {
                assert(before.paths@[0].contains(y));
                assert(m0.contains_key(y));
                assert(m.contains_key(y));
                assert(m1[y] == m0[y]);
                assert(!towers::is_dead(m0, y));
            }
        }
        assert forall|l: int, y: usize| 0 <= l <= after.max_level implies (#[trigger] after.paths@[l].contains(y)
            <==> after.paths@[0].contains(y) && l < m[y].links.len()) by {
            assert(after.paths@[0].contains(y) <==> before.paths@[0].contains(y) && y != x);
            if before.paths@[0].contains(y) {
                assert(m.contains_key(y));
            }
        }
        assert forall|y: usize| #[trigger] after.paths@[0].contains(y) implies !towers::is_dead(m, y) && (after.inner(y)
            ==> m[y].links.len() <= after.max_level + 1) by {
            assert(before.paths@[0].contains(y) && y != x);
            assert(m.contains_key(y));
            assert(m1[y] == m0[y]);
        }
    }

    /// Dropping the unlinked node `x` from the entries leaves the list well formed.
    #[verifier::rlimit(30)]
    proof fn lemma_removed(s0: &Self, s2: &Self, after: &Self, x: usize, key: Seq<u8>)
        requires
            s0.wf(),
            s0.paths@[0].contains(x),
            s0.inner(x),
            s0.heap()[x].key == Bound::Fin(key),
            s2.shape(),
            s2.same_but_links(s0),
            s2.heap().dom() == s0.heap().dom(),
            forall|y: usize| #[trigger]
                s2.heap().contains_key(y) ==> {
                    &&& s2.heap()[y].key == s0.heap()[y].key
                    &&& s2.heap()[y].value == s0.heap()[y].value
                    &&& s2.heap()[y].links.len() == s0.heap()[y].links.len()
                    &&& y != x ==> towers::is_dead(s2.heap(), y) == towers::is_dead(s0.heap(), y)
                },
            forall|l: int, y: usize|
                0 <= l <= s2.max_level ==> (#[trigger] s2.paths@[l].contains(y) <==> s0.paths@[l].contains(y) && y != x),
            s2.settled(),
            after.nodes == s2.nodes,
            after.values == s2.values,
            after.id == s2.id,
            after.head == s2.head,
            after.tail == s2.tail,
            after.max_level == s2.max_level,
            after.rng == s2.rng,
            after.paths == s2.paths,
            after.dead_cells == s2.dead_cells,
            after.len == s2.len - 1,
            after.entries@ == s2.entries@.remove(key),
            after.dead_nodes@ == s2.dead_nodes@.insert(x),
        ensures
            after.wf(),
            after.cells() == s0.cells(),
    {
        let m0 = s0.heap();
        assert(s0.level_ok(0));
        assert(s0.entries@.contains_key(key));
        let m = after.heap();
        let p0 = after.paths@[0];
        assert(m == s2.heap());
        assert(after.cells() =~= s0.cells());
        assert forall|l: int| 0 <= l <= after.max_level implies #[trigger] after.level_ok(l) by {
            assert(s2.level_ok(l));
        }
        assert(after.shape());
        assert(after.settled()) by {
            assert forall|y: usize| after.inner(y) == s2.inner(y) by {}
            assert forall|l: int, y: usize| 0 <= l <= after.max_level implies (#[trigger] after.paths@[l].contains(y)
                <==> after.paths@[0].contains(y) && l < m[y].links.len()) by {
                assert(s2.paths@[l].contains(y) <==> s2.paths@[0].contains(y) && l < m[y].links.len());
            }
            assert forall|y: usize| #[trigger] after.paths@[0].contains(y) implies !towers::is_dead(m, y) && (after.inner(y)
                ==> m[y].links.len() <= after.max_level + 1) by {
                assert(s2.paths@[0].contains(y));
            }
        }
        assert(after.owned()) by {
            assert forall|y: usize| #[trigger] m.contains_key(y) <==> p0.contains(y) || after.dead_nodes@.contains(y) by {
                assert(m0.contains_key(y) <==> s0.paths@[0].contains(y) || s0.dead_nodes@.contains(y));
                assert(s2.paths@[0].contains(y) <==> s0.paths@[0].contains(y) && y != x);
            }
            assert forall|y: usize| #[trigger] after.dead_nodes@.contains(y) implies !p0.contains(y) by {
                assert(s2.paths@[0].contains(y) <==> s0.paths@[0].contains(y) && y != x);
            }
            assert forall|y: usize| #[trigger] m.contains_key(y) && after.inner(y) implies m[y].value is Some
                && after.cells().contains_key(m[y].value->0) && !after.dead_cells@.contains(m[y].value->0) by {
                assert(m0.contains_key(y));
            }
            assert forall|y: usize, z: usize| #[trigger] m.contains_key(y) && #[trigger] m.contains_key(z)
                && after.inner(y) && after.inner(z) && y != z implies m[y].value != m[z].value by {
                assert(m0.contains_key(y) && m0.contains_key(z));
            }
            assert forall|c: usize| #[trigger] after.cells().contains_key(c) implies after.dead_cells@.contains(c)
                || exists|y: usize| #[trigger] m.contains_key(y) && after.inner(y) && m[y].value == Some(c) by {
                if !s0.dead_cells@.contains(c) {
                    let y = choose|y: usize| #[trigger] m0.contains_key(y) && s0.inner(y) && m0[y].value == Some(c);
                    assert(m.contains_key(y));
                }
            }
        }
        assert(after.mapped()) by {
            assert forall|y: usize| #[trigger] p0.contains(y) && after.inner(y) implies m[y].key is Fin
                && after.entries@.contains_key(m[y].key->0) && after.entries@[m[y].key->0]
                == after.cells()[m[y].value->0] by {
                assert(s2.paths@[0].contains(y) <==> s0.paths@[0].contains(y) && y != x);
                assert(m.contains_key(y));
                assert(m0.contains_key(y));
                if m0[y].key == m0[x].key {
                    towers::lemma_key_unique(m0, s0.paths@[0], 0, s0.head, s0.tail, x, y);
                }
            }
            assert forall|j: Seq<u8>| #[trigger] after.entries@.contains_key(j) implies exists|y: usize| #[trigger]
                p0.contains(y) && m[y].key == Bound::Fin(j) by {
                assert(s0.entries@.contains_key(j));
                let y = choose|y: usize| #[trigger] s0.paths@[0].contains(y) && m0[y].key == Bound::Fin(j);
                assert(s2.paths@[0].contains(y));
                assert(m.contains_key(y));
            }
            assert(after.entries@.dom() =~= s0.entries@.dom().remove(key));
            assert(after.level_ok(0));
            towers::lemma_path_distinct(m, p0, 0, after.head, after.tail);
            towers::lemma_path_distinct(m0, s0.paths@[0], 0, s0.head, s0.tail);
            let grown = p0.push(x);
            assert(!p0.contains(x)) by {
                assert(s2.paths@[0].contains(x) <==> s0.paths@[0].contains(x) && x != x);
            }
            assert(grown.no_duplicates());
            assert forall|y: usize| #[trigger] grown.contains(y) <==> s0.paths@[0].contains(y) by {
                assert(s2.paths@[0].contains(y) <==> s0.paths@[0].contains(y) && y != x);
                if p0.contains(y) {
                    let j = choose|j: int| 0 <= j < p0.len() && p0[j] == y;
                    assert(grown[j] == y);
                }
                assert(grown[grown.len() - 1] == x);
            }
            lemma_same_elements(grown, s0.paths@[0]);
        }
    }

    /// Removes `key`. Returns whether the list held it. The node is unlinked and retired, so a
    /// reference to its value stays readable under its guard.
    #[verifier::rlimit(60)]
    #[verifier::spinoff_prover]
    pub fn remove(&mut self, key: &[u8], guard: &Guard, domain: &mut Domain<Garbage>) -> (removed: bool)
        requires
            old(self).wf(),
            old(domain).wf(),
            old(self).tracks(old(domain)@.records()),
        ensures
            final(self).wf(),
            final(domain).wf(),
            final(self).keeps(old(self)),
            final(self).rng() == old(self).rng(),
            removed == old(self)@.contains_key(key@),
            final(self)@ == old(self)@.remove(key@),
            final(domain)@ == (if removed {
                old(domain)@.retire(Garbage::Node { list: old(self).id(), node: old(self).node_of(key@) })
            } else {
                old(domain)@
            }),
            final(self).dead_nodes() == (if removed {
                old(self).dead_nodes().insert(old(self).node_of(key@))
            } else {
                old(self).dead_nodes()
            }),
            final(self).dead_cells() == old(self).dead_cells(),
            removed ==> final(self).node_cell(old(self).node_of(key@)) == old(self).cell_of(key@),
            final(self).cells() == old(self).cells(),
            final(self).tracks(final(domain)@.records()),
            forall|slot: int, c: usize| #[trigger]
                old(self).cell_protected(old(domain)@, slot, c) ==> final(self).cell_protected(final(domain)@, slot, c),
    {
        let place = self.find(key);
        let ghost s0 = *self;
        proof {
            s0.lemma_find_settled(old(self));
            assert(towers::brackets(self.heap(), self.paths@[0], place.preds@[0], place.succs@[0], key@));
            s0.lemma_found(place.preds@[0], place.succs@[0], key@);
            assert forall|n: usize| #[trigger] old(self).dead_nodes().contains(n) implies s0.node_cell(n)
                == old(self).node_cell(n) by {
                assert(old(self).heap().contains_key(n));
            }
            assert(s0.keeps(old(self)));
            lemma_tracks_same(old(self), &s0, old(domain)@.records());
            old(domain).lemma_wf();
            lemma_protection_kept(old(self), &s0, old(domain)@, old(domain)@);
        }
        if !place.found {
            proof {
                assert(self.entries@.remove(key@) =~= self.entries@);
            }
            return false;
        }
        let x: usize = place.succs[0];
        let ghost m0 = self.heap();
        proof {
            s0.lemma_node_of(key@, x);
            assert(s0.node_of(key@) == old(self).node_of(key@));
            assert(s0.level_ok(0));
            assert(m0.contains_key(x));
            assert(old(self).heap().contains_key(x));
        }
        self.mark_tower(x);
        let ghost s1 = *self;
        let place2 = self.find(key);
        let ghost s2 = *self;
        proof {
            Self::lemma_unlinked(&s0, &s1, &s2, x, &place2);
            assert(s0.entries@.contains_key(key@));
            assert(s0.entries@.dom().contains(key@));
            if s0.len == 0 {
                assert(s0.entries@.dom() =~= Set::empty());
            }
        }
        self.len = self.len - 1;
        proof {
            self.entries@ = self.entries@.remove(key@);
            self.dead_nodes@ = self.dead_nodes@.insert(x);
            assert(self.heap() == s2.heap());
            Self::lemma_removed(&s0, &s2, self, x, key@);
            let m = self.heap();
            assert forall|n: usize| #[trigger] old(self).dead_nodes().contains(n) implies self.node_cell(n)
                == old(self).node_cell(n) by {
                assert(old(self).heap().contains_key(n));
                assert(m.contains_key(n));
            }
            assert(m.contains_key(x));
            assert(self.keeps(old(self)));
        }
        guard.retire(domain, Garbage::Node { list: self.id, node: x });
        proof {
            let a = node_record(self.id(), x, old(domain)@.epoch as u64);
            assert(!s0.dead_nodes().contains(x));
            lemma_tracks_insert(old(self), self, old(domain)@.records(), a);
            assert forall|r: Retired<Garbage>| #[trigger] domain@.records().contains(r) implies
                old(domain)@.records().contains(r) || r.epoch == old(domain)@.epoch by {}
            lemma_protection_kept(old(self), self, old(domain)@, domain@);
        }
        true
    }
}

/// A record less in a multiset that `old` tracks, for something that was freed.
proof fn lemma_tracks_remove(old: &SkipList, new: &SkipList, r: Multiset<Retired<Garbage>>, a: Retired<Garbage>)
    requires
        old.tracks(r),
        r.contains(a),
        new.id() == old.id(),
        garbage_list(a.item) == old.id(),
        match a.item {
            Garbage::Node { node, .. } => new.dead_nodes() == old.dead_nodes().remove(node) && new.dead_cells()
                == old.dead_cells(),
            Garbage::Value { cell, .. } => new.dead_cells() == old.dead_cells().remove(cell) && new.dead_nodes()
                == old.dead_nodes(),
        },
    ensures
        new.tracks(r.remove(a)),
{
    let r1 = r.remove(a);
    assert forall|b: Retired<Garbage>| #[trigger] r1.contains(b) implies r.contains(b) && r1.count(b) <= r.count(b) by {}
    assert(!r1.contains(a));
    assert forall|b: Retired<Garbage>| #[trigger] r1.contains(b) && garbage_list(b.item) == new.id() implies r1.count(b) == 1
        && (match b.item {
        Garbage::Node { node, .. } => new.dead_nodes().contains(node),
        Garbage::Value { cell, .. } => new.dead_cells().contains(cell),
    }) by {
        assert(r.contains(b));
        if b.item == a.item {
            assert(b == a);
        }
    }
    assert forall|n: usize| #[trigger] new.dead_nodes().contains(n) implies exists|e: u64|
        r1.contains(#[trigger] node_record(new.id(), n, e)) by {
        assert(old.dead_nodes().contains(n));
        let e = choose|e: u64| r.contains(#[trigger] node_record(old.id(), n, e));
        assert(node_record(new.id(), n, e) != a);
        assert(r1.contains(node_record(new.id(), n, e)));
    }
    assert forall|c: usize| #[trigger] new.dead_cells().contains(c) implies exists|e: u64|
        r1.contains(#[trigger] cell_record(new.id(), c, e)) by {
        assert(old.dead_cells().contains(c));
        let e = choose|e: u64| r.contains(#[trigger] cell_record(old.id(), c, e));
        assert(cell_record(new.id(), c, e) != a);
        assert(r1.contains(cell_record(new.id(), c, e)));
    }
}

impl SkipList {
    /// `a` is garbage of this list, not freed yet.
    pub open spec fn is_garbage(&self, a: Garbage) -> bool {
        match a {
            Garbage::Node { list, node } => list == self.id() && self.dead_nodes().contains(node),
            Garbage::Value { list, cell } => list == self.id() && self.dead_cells().contains(cell),
        }
    }

    /// Frees a retired node, with its value, or a displaced value. The entries are as before;
    /// of the value cells exactly the one that belongs to `a` goes.
    pub fn reclaim(&mut self, a: Garbage)
        requires
            old(self).wf(),
            old(self).is_garbage(a),
        ensures
            final(self).wf(),
            final(self)@ == old(self)@,
            final(self).id() == old(self).id(),
            final(self).max_level() == old(self).max_level(),
            final(self).rng() == old(self).rng(),
            forall|c: usize|
                final(self).cells().contains_key(c) <==> #[trigger] old(self).cells().contains_key(c) && !old(self).frees(
                    a,
                    c,
                ),
            forall|c: usize| #[trigger] final(self).cells().contains_key(c) ==> final(self).cells()[c] == old(self).cells()[c],
            forall|g: Garbage, c: usize| #[trigger] final(self).frees(g, c) ==> old(self).frees(g, c),
            match a {
                Garbage::Node { node, .. } => final(self).dead_nodes() == old(self).dead_nodes().remove(node)
                    && final(self).dead_cells() == old(self).dead_cells(),
                Garbage::Value { cell, .. } => final(self).dead_cells() == old(self).dead_cells().remove(cell)
                    && final(self).dead_nodes() == old(self).dead_nodes(),
            },
            forall|k: Seq<u8>| final(self)@.contains_key(k) ==> #[trigger] final(self).cell_of(k) == old(self).cell_of(k),
            forall|r: Multiset<Retired<Garbage>>, e: u64| #[trigger]
                r.contains(Retired { item: a, epoch: e }) && old(self).tracks(r) ==> final(self).tracks(
                    r.remove(Retired { item: a, epoch: e }),
                ),
    {
        let ghost s0 = *self;
        let ghost m0 = self.heap();
        let ghost v0 = self.cells();
        match a {
            Garbage::Node { node, .. } => {
                proof {
                    assert(s0.level_ok(0));
                    assert(s0.paths@[0].contains(s0.head)) by { assert(s0.paths@[0][0] == s0.head); }
                    assert(s0.paths@[0].contains(s0.tail)) by {
                        assert(s0.paths@[0][s0.paths@[0].len() - 1] == s0.tail);
                    }
                    assert(s0.inner(node));
                    assert(m0.contains_key(node));
                }
                let n = self.nodes.remove(node);
                let ghost cell = m0[node].value->0;
                if let Some(c) = n.value {
                    self.values.remove(c);
                }
                proof {
                    self.dead_nodes@ = self.dead_nodes@.remove(node);
                    assert(self.heap() =~= m0.remove(node));
                    assert(self.cells() =~= v0.remove(cell));
                    self.lemma_freed_node(&s0, node);
                }
            },
            Garbage::Value { cell, .. } => {
                self.values.remove(cell);
                proof {
                    self.dead_cells@ = self.dead_cells@.remove(cell);
                    assert(self.heap() =~= m0);
                    assert(self.cells() =~= v0.remove(cell));
                    self.lemma_freed_cell(&s0, cell);
                }
            },
        }
        proof {
            assert forall|r: Multiset<Retired<Garbage>>, e: u64| #[trigger]
                r.contains(Retired { item: a, epoch: e }) && s0.tracks(r) implies self.tracks(
                r.remove(Retired { item: a, epoch: e }),
            ) by {
                lemma_tracks_remove(&s0, self, r, Retired { item: a, epoch: e });
            }
        }
    }

    proof fn lemma_freed_node(&self, s0: &Self, node: usize)
        requires
            s0.wf(),
            s0.dead_nodes@.contains(node),
            s0.inner(node),
            self.nodes.wf(),
            self.nodes.view() == s0.nodes.view().remove(node),
            self.values.wf(),
            self.heap() == s0.heap().remove(node),
            self.cells() == s0.cells().remove(s0.heap()[node].value->0),
            self.id == s0.id,
            self.head == s0.head,
            self.tail == s0.tail,
            self.max_level == s0.max_level,
            self.len == s0.len,
            self.paths == s0.paths,
            self.entries == s0.entries,
            self.dead_cells == s0.dead_cells,
            self.dead_nodes@ == s0.dead_nodes@.remove(node),
        ensures
            self.wf(),
            forall|k: Seq<u8>| self@.contains_key(k) ==> #[trigger] self.cell_of(k) == s0.cell_of(k),
            forall|g: Garbage, c: usize| #[trigger] self.frees(g, c) ==> s0.frees(g, c),
            forall|c: usize|
                self.cells().contains_key(c) <==> #[trigger] s0.cells().contains_key(c) && !s0.frees(
                    Garbage::Node { list: s0.id, node },
                    c,
                ),
    {
        let m0 = s0.heap();
        let m = self.heap();
        let cell = m0[node].value->0;
        assert(s0.level_ok(0));
        assert(m0.contains_key(node));
        assert(!s0.paths@[0].contains(node));
        assert forall|l: int| 0 <= l <= self.max_level implies #[trigger] self.level_ok(l) by {
            assert(s0.level_ok(l));
            assert(!s0.paths@[l].contains(node));
            assert forall|i: int| 0 <= i < s0.paths@[l].len() implies #[trigger] s0.paths@[l][i] != node by {
                assert(s0.paths@[l].contains(s0.paths@[l][i]));
            }
            towers::lemma_path_frame(m0, m, s0.paths@[l], l, s0.head, s0.tail);
            assert forall|x: usize| #[trigger] self.paths@[l].contains(x) implies m[x] == m0[x] by {}
        }
        assert(s0.paths@[0].contains(s0.head)) by { assert(s0.paths@[0][0] == s0.head); }
        assert(s0.paths@[0].contains(s0.tail)) by { assert(s0.paths@[0][s0.paths@[0].len() - 1] == s0.tail); }
        assert(self.shape());
        assert forall|x: usize| self.inner(x) == s0.inner(x) by {}
        assert(self.settled()) by {
            assert forall|l: int, y: usize| 0 <= l <= self.max_level implies (#[trigger] self.paths@[l].contains(y)
                <==> self.paths@[0].contains(y) && l < m[y].links.len()) by {
                assert(s0.paths@[l].contains(y) <==> s0.paths@[0].contains(y) && l < m0[y].links.len());
            }
            assert forall|y: usize| #[trigger] self.paths@[0].contains(y) implies !towers::is_dead(m, y) && (self.inner(y)
                ==> m[y].links.len() <= self.max_level + 1) by {
                assert(s0.paths@[0].contains(y));
            }
        }
        assert(self.owned()) by {
            assert forall|y: usize| #[trigger] m.contains_key(y) <==> self.paths@[0].contains(y) || self.dead_nodes@.contains(y) by {
                assert(m0.contains_key(y) <==> s0.paths@[0].contains(y) || s0.dead_nodes@.contains(y));
            }
            assert forall|y: usize| #[trigger] m.contains_key(y) && self.inner(y) implies m[y].value is Some
                && self.cells().contains_key(m[y].value->0) && !self.dead_cells@.contains(m[y].value->0) by {
                assert(m0.contains_key(y));
            }
            assert forall|y: usize, z: usize| #[trigger] m.contains_key(y) && #[trigger] m.contains_key(z)
                && self.inner(y) && self.inner(z) && y != z implies m[y].value != m[z].value by {
                assert(m0.contains_key(y) && m0.contains_key(z));
            }
            assert forall|c: usize| #[trigger] self.cells().contains_key(c) implies self.dead_cells@.contains(c)
                || exists|y: usize| #[trigger] m.contains_key(y) && self.inner(y) && m[y].value == Some(c) by {
                if !s0.dead_cells@.contains(c) {
                    assert(s0.cells().contains_key(c));
                    let y = choose|y: usize| #[trigger] m0.contains_key(y) && s0.inner(y) && m0[y].value == Some(c);
                    assert(m.contains_key(y));
                }
            }
        }
        assert(self.mapped()) by {
            assert forall|y: usize| #[trigger] self.paths@[0].contains(y) && self.inner(y) implies m[y].key is Fin
                && self.entries@.contains_key(m[y].key->0) && self.entries@[m[y].key->0]
                == self.cells()[m[y].value->0] by {
                assert(s0.paths@[0].contains(y));
                assert(m0.contains_key(y));
            }
            assert forall|j: Seq<u8>| #[trigger] self.entries@.contains_key(j) implies exists|y: usize| #[trigger]
                self.paths@[0].contains(y) && m[y].key == Bound::Fin(j) by {
                let y = choose|y: usize| #[trigger] s0.paths@[0].contains(y) && m0[y].key == Bound::Fin(j);
                assert(self.paths@[0].contains(y));
            }
        }
        assert forall|k: Seq<u8>| self@.contains_key(k) implies #[trigger] self.cell_of(k) == s0.cell_of(k) by {
            let y = choose|y: usize| #[trigger] s0.paths@[0].contains(y) && m0[y].key == Bound::Fin(k);
            s0.lemma_node_of(k, y);
            self.lemma_node_of(k, y);
        }
    }

    proof fn lemma_freed_cell(&self, s0: &Self, cell: usize)
        requires
            s0.wf(),
            s0.dead_cells@.contains(cell),
            self.nodes == s0.nodes,
            self.values.wf(),
            self.heap() == s0.heap(),
            self.cells() == s0.cells().remove(cell),
            self.id == s0.id,
            self.head == s0.head,
            self.tail == s0.tail,
            self.max_level == s0.max_level,
            self.len == s0.len,
            self.paths == s0.paths,
            self.entries == s0.entries,
            self.dead_nodes == s0.dead_nodes,
            self.dead_cells@ == s0.dead_cells@.remove(cell),
        ensures
            self.wf(),
            forall|k: Seq<u8>| self@.contains_key(k) ==> #[trigger] self.cell_of(k) == s0.cell_of(k),
            forall|g: Garbage, c: usize| #[trigger] self.frees(g, c) ==> s0.frees(g, c),
    {
        let m = self.heap();
        assert(s0.level_ok(0));
        assert forall|l: int| 0 <= l <= self.max_level implies #[trigger] self.level_ok(l) by {
            assert(s0.level_ok(l));
        }
        assert forall|x: usize| self.inner(x) == s0.inner(x) by {}
        assert(self.settled()) by {
            assert forall|l: int, y: usize| 0 <= l <= self.max_level implies (#[trigger] self.paths@[l].contains(y)
                <==> self.paths@[0].contains(y) && l < m[y].links.len()) by {
                assert(s0.paths@[l].contains(y) <==> s0.paths@[0].contains(y) && l < m[y].links.len());
            }
        }
        assert(self.owned()) by {
            assert forall|c: usize| #[trigger] self.cells().contains_key(c) implies self.dead_cells@.contains(c)
                || exists|y: usize| #[trigger] m.contains_key(y) && self.inner(y) && m[y].value == Some(c) by {
                assert(s0.cells().contains_key(c));
                if !s0.dead_cells@.contains(c) {
                    let y = choose|y: usize| #[trigger] m.contains_key(y) && s0.inner(y) && m[y].value == Some(c);
                    assert(self.inner(y));
                }
            }
        }
        assert(self.mapped()) by {
            assert forall|y: usize| #[trigger] self.paths@[0].contains(y) && self.inner(y) implies m[y].key is Fin
                && self.entries@.contains_key(m[y].key->0) && self.entries@[m[y].key->0]
                == self.cells()[m[y].value->0] by {
                assert(s0.paths@[0].contains(y));
                assert(m.contains_key(y));
            }
        }
    }

    /// What a lookup finds is protected by the guard under which it is made: until that guard
    /// is given up, nothing frees the value's cell.
    pub proof fn lookup_is_protected(&self, d: DomainView<Garbage>, slot: int, k: Seq<u8>)
        requires
            self.wf(),
            d.wf(),
            self.tracks(d.records()),
            d.pinned(slot),
            self@.contains_key(k),
        ensures
            self.cell_protected(d, slot, self.cell_of(k)),
            self.cells()[self.cell_of(k)] == self@[k],
    {
        let m = self.heap();
        let x = choose|x: usize| #[trigger] self.paths@[0].contains(x) && m[x].key == Bound::Fin(k);
        self.lemma_node_of(k, x);
        assert(self.level_ok(0));
        assert(m.contains_key(x));
        assert(self.inner(x));
        let c = self.cell_of(k);
        assert forall|r: Retired<Garbage>| #[trigger] d.records().contains(r) && self.frees(r.item, c) implies d.pin_epoch(slot)
            <= r.epoch by {
            if let Garbage::Node { list, node } = r.item {
                assert(m.contains_key(node));
                assert(self.paths@[0].contains(self.head)) by { assert(self.paths@[0][0] == self.head); }
                assert(self.paths@[0].contains(self.tail)) by {
                    assert(self.paths@[0][self.paths@[0].len() - 1] == self.tail);
                }
                assert(self.inner(node));
            }
        }
    }

    /// A pin on any slot, and an unpin on any other slot, leave what a slot protects protected.
    pub proof fn protection_outlives_other_guards(&self, d: DomainView<Garbage>, slot: int, c: usize, other: int)
        requires
            self.cell_protected(d, slot, c),
            0 <= other < d.slots.len(),
        ensures
            self.cell_protected(d.pin(other), slot, c),
            other != slot || d.depth(slot) > 1 ==> self.cell_protected(d.unpin(other), slot, c),
            !d.claimed(other) ==> self.cell_protected(d.claim(other), slot, c),
    {
        assert(d.pin(other).records() == d.records());
        assert(d.unpin(other).records() == d.records());
        assert(d.claim(other).records() == d.records());
        assert(d.pinned(slot));
    }

    /// A collection frees nothing that a pinned slot protects.
    pub proof fn collection_spares_protected(&self, d: DomainView<Garbage>, slot: int, c: usize)
        requires
            d.wf(),
            self.cell_protected(d, slot, c),
        ensures
            forall|r: Retired<Garbage>| #[trigger] d.collected().contains(r) ==> !self.frees(r.item, c),
            self.cell_protected(d.collect(), slot, c),
    {
        d.collection_laws();
        assert forall|r: Retired<Garbage>| #[trigger] d.collected().contains(r) implies !self.frees(r.item, c) by {
            d.collected().to_multiset_ensures();
            assert(d.collected().to_multiset().count(r) > 0);
            assert(d.records().contains(r));
            if self.frees(r.item, c) {
                assert(d.protects(slot, r));
            }
        }
        assert(d.pinned(slot));
        assert forall|r: Retired<Garbage>| #[trigger] d.collect().records().contains(r) && self.frees(r.item, c) implies
            d.collect().pin_epoch(slot) <= r.epoch by {
            assert(d.records().contains(r));
        }
    }
}

/// The seed of the level generator.
pub const LEVEL_SEED: u64 = 0xba08_1331_fae9_74c6;

/// A list has as many levels as it takes for the power of four to reach the number of entries, at
/// least one and at most sixteen.
pub proof fn heights_follow_the_size(n: nat, k: nat)
    ensures
        1 <= adapted_height(n) <= 16,
        1 <= k < 16 ==> (adapted_height(n) <= k <==> (if n < 2 {
            2
        } else {
            n as int
        }) <= power::pow(4, k)),
{
    log4_ceil_is_least(if n < 2 {
        2
    } else {
        n
    }, k);
}

} // verus!
