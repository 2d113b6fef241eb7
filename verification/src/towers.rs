//! The shape of a skiplist: towers of links over an ordered chain of nodes.
//!
//! At each level the nodes that are linked form a *path* from the head to the tail,
//! in strictly ascending order of their keys. The definitions here speak of such paths
//! over a heap of nodes, and the lemmas say what linking, unlinking and marking do to
//! them.

use vstd::prelude::*;
use crate::order;

verus! {

/// A key with the two sentinels added: below every key, and above every key.
pub enum Bound {
    NegInf,
    Fin(Seq<u8>),
    PosInf,
}

/// The order on keys and sentinels.
pub open spec fn bound_lt(a: Bound, b: Bound) -> bool {
    match (a, b) {
        (Bound::NegInf, Bound::NegInf) => false,
        (Bound::NegInf, _) => true,
        (_, Bound::NegInf) => false,
        (Bound::PosInf, _) => false,
        (_, Bound::PosInf) => true,
        (Bound::Fin(x), Bound::Fin(y)) => order::lex_lt(x, y),
    }
}

/// The order on keys and sentinels is strict and total.
pub proof fn bound_order(a: Bound, b: Bound, c: Bound)
    ensures
        !bound_lt(a, a),
        bound_lt(a, b) && bound_lt(b, c) ==> bound_lt(a, c),
        bound_lt(a, b) || a == b || bound_lt(b, a),
        !(bound_lt(a, b) && bound_lt(b, a)),
{
    if let Bound::Fin(x) = a {
        order::lex_irreflexive(x);
        if let Bound::Fin(y) = b {
            order::lex_total(x, y);
            if order::lex_lt(x, y) && order::lex_lt(y, x) {
                order::lex_transitive(x, y, x);
            }
            if let Bound::Fin(z) = c {
                if order::lex_lt(x, y) && order::lex_lt(y, z) {
                    order::lex_transitive(x, y, z);
                }
            }
        }
    }
}

/// A node: its key, the cell of its value, and per level a reference and a mark.
pub struct NodeView {
    pub key: Bound,
    pub value: Option<usize>,
    pub links: Seq<(usize, bool)>,
}

/// The heap with the link of node `x` at `level` replaced.
pub open spec fn set_link(m: Map<usize, NodeView>, x: usize, level: int, to: usize, mark: bool) -> Map<
    usize,
    NodeView,
> {
    m.insert(x, NodeView { links: m[x].links.update(level, (to, mark)), ..m[x] })
}

/// `path` is the chain of nodes at `level`: it runs from `head` to `tail` along the links
/// of that level, its keys ascending.
pub open spec fn path_ok(
    m: Map<usize, NodeView>,
    path: Seq<usize>,
    level: int,
    head: usize,
    tail: usize,
) -> bool {
    &&& path.len() >= 2
    &&& path[0] == head
    &&& path[path.len() - 1] == tail
    &&& forall|i: int|
        0 <= i < path.len() ==> m.contains_key(#[trigger] path[i]) && 0 <= level
            < m[path[i]].links.len()
    &&& forall|i: int| 0 <= i < path.len() - 1 ==> (#[trigger] m[path[i]].links[level]).0 == path[i + 1]
    &&& sorted(m, path)
}

/// The keys along `path` ascend strictly.
pub open spec fn sorted(m: Map<usize, NodeView>, path: Seq<usize>) -> bool {
    forall|i: int, j: int|
        0 <= i < j < path.len() ==> bound_lt(#[trigger] m[path[i]].key, #[trigger] m[path[j]].key)
}

/// The node is logically deleted: its bottom link is marked.
pub open spec fn is_dead(m: Map<usize, NodeView>, x: usize) -> bool {
    m[x].links[0].1
}

/// `new` is `old` with nothing but dead nodes taken out.
pub open spec fn pruned(m: Map<usize, NodeView>, old: Seq<usize>, new: Seq<usize>) -> bool {
    &&& forall|x: usize| #[trigger] new.contains(x) ==> old.contains(x)
    &&& forall|x: usize| #[trigger] old.contains(x) && !is_dead(m, x) ==> new.contains(x)
}

/// The nodes are the same but for where their links lead.
pub open spec fn same_nodes(m0: Map<usize, NodeView>, m1: Map<usize, NodeView>) -> bool {
    &&& m0.dom() == m1.dom()
    &&& forall|x: usize| #[trigger]
        m1.contains_key(x) ==> {
            &&& m1[x].key == m0[x].key
            &&& m1[x].value == m0[x].value
            &&& m1[x].links.len() == m0[x].links.len()
            &&& forall|l: int| 0 <= l < m0[x].links.len() ==> (#[trigger] m1[x].links[l]).1 == m0[x].links[l].1
        }
}

/// `pred` and `succ` stand next to each other on `path`, both alive, and the place of
/// `key` is between them or at `succ`.
pub open spec fn brackets(
    m: Map<usize, NodeView>,
    path: Seq<usize>,
    pred: usize,
    succ: usize,
    key: Seq<u8>,
) -> bool {
    &&& exists|i: int| 0 <= i < path.len() - 1 && #[trigger] path[i] == pred && path[i + 1] == succ
    &&& bound_lt(m[pred].key, Bound::Fin(key))
    &&& !bound_lt(m[succ].key, Bound::Fin(key))
    &&& !is_dead(m, pred)
    &&& !is_dead(m, succ)
}

/// A path keeps its properties in any heap that has the same keys and references along it.
pub proof fn lemma_path_frame(
    m0: Map<usize, NodeView>,
    m1: Map<usize, NodeView>,
    path: Seq<usize>,
    level: int,
    head: usize,
    tail: usize,
)
    requires
        path_ok(m0, path, level, head, tail),
        forall|i: int|
            0 <= i < path.len() ==> {
                &&& m1.contains_key(#[trigger] path[i])
                &&& m1[path[i]].key == m0[path[i]].key
                &&& level < m1[path[i]].links.len()
                &&& m1[path[i]].links[level].0 == m0[path[i]].links[level].0
            },
    ensures
        path_ok(m1, path, level, head, tail),
{
    assert forall|i: int| 0 <= i < path.len() - 1 implies (#[trigger] m1[path[i]].links[level]).0
        == path[i + 1] by {
        assert(m0[path[i]].links[level].0 == path[i + 1]);
    }
    assert forall|i: int, j: int| 0 <= i < j < path.len() implies bound_lt(
        #[trigger] m1[path[i]].key,
        #[trigger] m1[path[j]].key,
    ) by {
        assert(bound_lt(m0[path[i]].key, m0[path[j]].key));
    }
}

/// The nodes of a path are pairwise different.
pub proof fn lemma_path_distinct(
    m: Map<usize, NodeView>,
    path: Seq<usize>,
    level: int,
    head: usize,
    tail: usize,
)
    requires
        path_ok(m, path, level, head, tail),
    ensures
        path.no_duplicates(),
{
    assert forall|i: int, j: int| 0 <= i < path.len() && 0 <= j < path.len() && i != j implies path[i]
        != path[j] by {
        bound_order(m[path[i]].key, m[path[j]].key, m[path[i]].key);
        if i < j {
            assert(bound_lt(m[path[i]].key, m[path[j]].key));
        } else {
            assert(bound_lt(m[path[j]].key, m[path[i]].key));
        }
    }
}

/// Two nodes of a path with equal keys are one node.
pub proof fn lemma_key_unique(
    m: Map<usize, NodeView>,
    path: Seq<usize>,
    level: int,
    head: usize,
    tail: usize,
    x: usize,
    y: usize,
)
    requires
        path_ok(m, path, level, head, tail),
        path.contains(x),
        path.contains(y),
        m[x].key == m[y].key,
    ensures
        x == y,
{
    let i = choose|i: int| 0 <= i < path.len() && path[i] == x;
    let j = choose|j: int| 0 <= j < path.len() && path[j] == y;
    bound_order(m[x].key, m[y].key, m[x].key);
    if i < j {
        assert(bound_lt(m[path[i]].key, m[path[j]].key));
    } else if j < i {
        assert(bound_lt(m[path[j]].key, m[path[i]].key));
    }
}

/// The only node of a path that can hold the key sought is the one at its place.
pub proof fn lemma_bracketed(
    m: Map<usize, NodeView>,
    path: Seq<usize>,
    level: int,
    head: usize,
    tail: usize,
    pred: usize,
    succ: usize,
    key: Seq<u8>,
    x: usize,
)
    requires
        path_ok(m, path, level, head, tail),
        brackets(m, path, pred, succ, key),
        path.contains(x),
        m[x].key == Bound::Fin(key),
    ensures
        x == succ,
{
    let i = choose|i: int| 0 <= i < path.len() - 1 && #[trigger] path[i] == pred && path[i + 1] == succ;
    let j = choose|j: int| 0 <= j < path.len() && path[j] == x;
    bound_order(m[pred].key, m[x].key, m[pred].key);
    if j <= i {
        if j < i {
            assert(bound_lt(m[path[j]].key, m[path[i]].key));
        }
        assert(false);
    }
    if j > i + 1 {
        assert(bound_lt(m[path[i + 1]].key, m[path[j]].key));
    }
}

/// Unlinking the node after `path[p]`: the link of `path[p]` skips it.
pub proof fn lemma_splice(
    m: Map<usize, NodeView>,
    path: Seq<usize>,
    level: int,
    head: usize,
    tail: usize,
    p: int,
    mark: bool,
)
    requires
        path_ok(m, path, level, head, tail),
        0 <= p,
        p + 2 < path.len(),
    ensures
        path_ok(set_link(m, path[p], level, path[p + 2], mark), path.remove(p + 1), level, head, tail),
        forall|x: usize| #[trigger]
            path.remove(p + 1).contains(x) <==> path.contains(x) && x != path[p + 1],
{
    let m1 = set_link(m, path[p], level, path[p + 2], mark);
    let q = path.remove(p + 1);
    lemma_path_distinct(m, path, level, head, tail);
    assert forall|i: int| 0 <= i < q.len() implies m1.contains_key(#[trigger] q[i]) && 0 <= level
        < m1[q[i]].links.len() && m1[q[i]].key == m[q[i]].key by {
        assert(q[i] == path[if i <= p { i } else { i + 1 }]);
    }
    assert forall|i: int| 0 <= i < q.len() - 1 implies (#[trigger] m1[q[i]].links[level]).0 == q[i + 1] by {
        let k = if i <= p { i } else { i + 1 };
        assert(q[i] == path[k]);
        assert(m[path[k]].links[level].0 == path[k + 1]);
        if i != p {
            assert(path[k] != path[p]);
        }
    }
    assert forall|i: int, j: int| 0 <= i < j < q.len() implies bound_lt(
        #[trigger] m1[q[i]].key,
        #[trigger] m1[q[j]].key,
    ) by {
        let k = if i <= p { i } else { i + 1 };
        let l = if j <= p { j } else { j + 1 };
        assert(bound_lt(m[path[k]].key, m[path[l]].key));
    }
    assert forall|x: usize| #[trigger] q.contains(x) <==> path.contains(x) && x != path[p + 1] by {
        if q.contains(x) {
            let i = choose|i: int| 0 <= i < q.len() && q[i] == x;
            assert(path[if i <= p { i } else { i + 1 }] == x);
        }
        if path.contains(x) && x != path[p + 1] {
            let k = choose|k: int| 0 <= k < path.len() && path[k] == x;
            assert(q[if k <= p { k } else { k - 1 }] == x);
        }
    }
}

/// Linking the node `n` in behind `path[p]`.
pub proof fn lemma_link_in(
    m: Map<usize, NodeView>,
    path: Seq<usize>,
    level: int,
    head: usize,
    tail: usize,
    p: int,
    n: usize,
    mark: bool,
)
    requires
        path_ok(m, path, level, head, tail),
        0 <= p < path.len() - 1,
        m.contains_key(n),
        !path.contains(n),
        0 <= level < m[n].links.len(),
        m[n].links[level].0 == path[p + 1],
        bound_lt(m[path[p]].key, m[n].key),
        bound_lt(m[n].key, m[path[p + 1]].key),
    ensures
        path_ok(set_link(m, path[p], level, n, mark), path.insert(p + 1, n), level, head, tail),
        forall|x: usize| #[trigger] path.insert(p + 1, n).contains(x) <==> path.contains(x) || x == n,
{
    let m1 = set_link(m, path[p], level, n, mark);
    let q = path.insert(p + 1, n);
    lemma_path_distinct(m, path, level, head, tail);
    assert(path.contains(path[p]));
    assert forall|i: int| 0 <= i < q.len() implies m1.contains_key(#[trigger] q[i]) && 0 <= level
        < m1[q[i]].links.len() && m1[q[i]].key == m[q[i]].key by {
        if i != p + 1 {
            assert(q[i] == path[if i <= p { i } else { i - 1 }]);
        }
    }
    assert forall|i: int| 0 <= i < q.len() - 1 implies (#[trigger] m1[q[i]].links[level]).0 == q[i + 1] by {
        if i != p + 1 {
            let k = if i <= p { i } else { i - 1 };
            assert(q[i] == path[k]);
            assert(m[path[k]].links[level].0 == path[k + 1]);
            if i != p {
                assert(path[k] != path[p]);
            }
        }
    }
    assert forall|i: int, j: int| 0 <= i < j < q.len() implies bound_lt(
        #[trigger] m1[q[i]].key,
        #[trigger] m1[q[j]].key,
    ) by {
        let k = if i <= p { i } else { i - 1 };
        let l = if j <= p { j } else { j - 1 };
        if i == p + 1 {
            bound_order(m[n].key, m[path[p + 1]].key, m[path[l]].key);
            if l > p + 1 {
                assert(bound_lt(m[path[p + 1]].key, m[path[l]].key));
            }
        } else if j == p + 1 {
            bound_order(m[path[k]].key, m[path[p]].key, m[n].key);
            if k < p {
                assert(bound_lt(m[path[k]].key, m[path[p]].key));
            }
        } else {
            assert(bound_lt(m[path[k]].key, m[path[l]].key));
        }
    }
    assert forall|x: usize| #[trigger] q.contains(x) <==> path.contains(x) || x == n by {
        if q.contains(x) {
            let i = choose|i: int| 0 <= i < q.len() && q[i] == x;
            if i != p + 1 {
                assert(path[if i <= p { i } else { i - 1 }] == x);
            }
        }
        if path.contains(x) {
            let k = choose|k: int| 0 <= k < path.len() && path[k] == x;
            assert(q[if k <= p { k } else { k + 1 }] == x);
        }
        assert(q[p + 1] == n);
    }
}

} // verus!
