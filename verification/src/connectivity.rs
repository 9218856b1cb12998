//! Paths, connectivity and trees over edge lists.
//!
//! An edge list is a sequence of pairs of nodes. Two nodes are connected
//! when a path of edges leads from one to the other; an edge list is a forest
//! when none of its edges joins two nodes that the edges before it already
//! connect.
use vstd::prelude::*;

verus! {

/// Whether the edge list joins `u` and `v`, in either direction.
pub open spec fn has_edge(es: Seq<(int, int)>, u: int, v: int) -> bool {
    es.contains((u, v)) || es.contains((v, u))
}

/// The pair of `a` and `b` with the smaller one first.
pub open spec fn ordered_pair(a: int, b: int) -> (int, int) {
    if a <= b {
        (a, b)
    } else {
        (b, a)
    }
}

/// Whether an edge joins the `i`-th node of `p` to the next one.
pub open spec fn step(es: Seq<(int, int)>, p: Seq<int>, i: int) -> bool {
    has_edge(es, p[i], p[i + 1])
}

/// Whether `p` is a walk along edges of `es`.
pub open spec fn is_path(es: Seq<(int, int)>, p: Seq<int>) -> bool {
    p.len() > 0 && forall|i: int| 0 <= i < p.len() - 1 ==> #[trigger] step(es, p, i)
}

/// Whether `p` is a walk along edges of `es` from `u` to `v`.
pub open spec fn joins(es: Seq<(int, int)>, p: Seq<int>, u: int, v: int) -> bool {
    is_path(es, p) && p[0] == u && p[p.len() - 1] == v
}

/// Whether some walk along edges of `es` leads from `u` to `v`.
pub open spec fn connected(es: Seq<(int, int)>, u: int, v: int) -> bool {
    exists|p: Seq<int>| joins(es, p, u, v)
}

/// Whether every edge of `es` has both ends among the nodes `0..n`.
pub open spec fn in_range(n: nat, es: Seq<(int, int)>) -> bool {
    forall|i: int|
        0 <= i < es.len() ==> 0 <= (#[trigger] es[i]).0 < n && 0 <= es[i].1 < n
}

/// Whether `es` connects every two of the nodes `0..n`.
pub open spec fn all_connected(n: nat, es: Seq<(int, int)>) -> bool {
    forall|u: int, v: int| 0 <= u < n && 0 <= v < n ==> connected(es, u, v)
}

/// Whether `es` is free of cycles: no edge joins two nodes that the edges
/// before it connect.
pub open spec fn is_forest(es: Seq<(int, int)>) -> bool {
    forall|i: int| 0 <= i < es.len() ==> !connected(es.take(i), (#[trigger] es[i]).0, es[i].1)
}

/// Whether every edge of `sub` is an edge of `es`, in the same direction.
pub open spec fn edges_within(sub: Seq<(int, int)>, es: Seq<(int, int)>) -> bool {
    forall|i: int| 0 <= i < sub.len() ==> es.contains(#[trigger] sub[i])
}

/// Whether `tree` is a spanning tree of the graph with nodes `0..n` and
/// edges `es`: `n - 1` edges of the graph that connect all nodes without a
/// cycle.
pub open spec fn is_spanning_tree(n: nat, es: Seq<(int, int)>, tree: Seq<(int, int)>) -> bool {
    &&& tree.len() + 1 == n
    &&& in_range(n, tree)
    &&& edges_within(tree, es)
    &&& all_connected(n, tree)
    &&& is_forest(tree)
}

/// A prefix of an edge list in range is in range.
pub proof fn lemma_in_range_drop_last(n: nat, es: Seq<(int, int)>)
    requires
        in_range(n, es),
        es.len() > 0,
    ensures
        in_range(n, es.drop_last()),
        0 <= es.last().0 < n,
        0 <= es.last().1 < n,
{
}

/// The beginning of a forest is a forest.
pub proof fn lemma_forest_prefix(es: Seq<(int, int)>, c: int)
    requires
        is_forest(es),
        0 <= c <= es.len(),
    ensures
        is_forest(es.take(c)),
{
    let begin = es.take(c);
    assert forall|i: int| 0 <= i < begin.len() implies !connected(
        begin.take(i),
        (#[trigger] begin[i]).0,
        begin[i].1,
    ) by {
        assert(begin.take(i) == es.take(i));
    }
}

/// Every node is connected to itself.
pub proof fn lemma_connected_refl(es: Seq<(int, int)>, u: int)
    ensures
        connected(es, u, u),
{
    assert(joins(es, seq![u], u, u));
}

/// The two ends of an edge are connected.
pub proof fn lemma_connected_edge(es: Seq<(int, int)>, u: int, v: int)
    requires
        has_edge(es, u, v),
    ensures
        connected(es, u, v),
{
    assert(joins(es, seq![u, v], u, v));
}

/// Connectivity is symmetric.
pub proof fn lemma_connected_sym(es: Seq<(int, int)>, u: int, v: int)
    requires
        connected(es, u, v),
    ensures
        connected(es, v, u),
{
    let p = choose|p: Seq<int>| joins(es, p, u, v);
    let r = Seq::new(p.len(), |i: int| p[p.len() - 1 - i]);
    assert forall|i: int| 0 <= i < r.len() - 1 implies #[trigger] step(es, r, i) by {
        assert(step(es, p, p.len() - 2 - i));
    }
    assert(joins(es, r, v, u));
}

/// Connectivity is transitive.
pub proof fn lemma_connected_trans(es: Seq<(int, int)>, u: int, v: int, w: int)
    requires
        connected(es, u, v),
        connected(es, v, w),
    ensures
        connected(es, u, w),
{
    let p = choose|p: Seq<int>| joins(es, p, u, v);
    let q = choose|q: Seq<int>| joins(es, q, v, w);
    let r = p + q.subrange(1, q.len() as int);
    assert forall|i: int| 0 <= i < r.len() - 1 implies #[trigger] step(es, r, i) by {
        if i < p.len() - 1 {
            assert(step(es, p, i));
        } else {
            assert(step(es, q, i - (p.len() - 1)));
        }
    }
    assert(joins(es, r, u, w));
}

/// More edges connect no less.
pub proof fn lemma_connected_mono(es: Seq<(int, int)>, more: Seq<(int, int)>, u: int, v: int)
    requires
        connected(es, u, v),
        forall|a: int, b: int| has_edge(es, a, b) ==> has_edge(more, a, b),
    ensures
        connected(more, u, v),
{
    let p = choose|p: Seq<int>| joins(es, p, u, v);
    assert forall|i: int| 0 <= i < p.len() - 1 implies #[trigger] step(more, p, i) by {
        assert(step(es, p, i));
    }
    assert(joins(more, p, u, v));
}

/// What edges of `es` connect, `es` connects.
pub proof fn lemma_edges_within_connected(
    sub: Seq<(int, int)>,
    es: Seq<(int, int)>,
    u: int,
    v: int,
)
    requires
        edges_within(sub, es),
        connected(sub, u, v),
    ensures
        connected(es, u, v),
{
    assert forall|a: int, b: int| has_edge(sub, a, b) implies has_edge(es, a, b) by {
        let e = if sub.contains((a, b)) {
            (a, b)
        } else {
            (b, a)
        };
        let i = choose|i: int| 0 <= i < sub.len() && sub[i] == e;
        assert(es.contains(sub[i]));
    }
    lemma_connected_mono(sub, es, u, v);
}

/// What one more edge connects: what was connected before, and what the
/// new edge bridges.
pub open spec fn bridged(es: Seq<(int, int)>, e: (int, int), u: int, v: int) -> bool {
    ||| connected(es, u, v)
    ||| (connected(es, u, e.0) && connected(es, e.1, v))
    ||| (connected(es, u, e.1) && connected(es, e.0, v))
}

/// An edge of `es.push(e)` is an edge of `es` or is `e`.
pub proof fn lemma_has_edge_push(es: Seq<(int, int)>, e: (int, int), a: int, b: int)
    ensures
        has_edge(es.push(e), a, b) <==> (has_edge(es, a, b) || e == (a, b) || e == (b, a)),
{
    let more = es.push(e);
    assert(more[es.len() as int] == e);
    assert forall|x: (int, int)| more.contains(x) <==> (es.contains(x) || x == e) by {
        if es.contains(x) {
            let i = choose|i: int| 0 <= i < es.len() && es[i] == x;
            assert(more[i] == x);
        }
    }
}

/// What a walk over `es.push(e)` connects, `es` connects with the help of
/// `e` at most once.
proof fn lemma_path_push(es: Seq<(int, int)>, e: (int, int), p: Seq<int>)
    requires
        is_path(es.push(e), p),
    ensures
        bridged(es, e, p[0], p[p.len() - 1]),
    decreases p.len(),
{
    let u = p[0];
    if p.len() == 1 {
        lemma_connected_refl(es, u);
    } else {
        let q = p.drop_last();
        assert forall|i: int| 0 <= i < q.len() - 1 implies #[trigger] step(es.push(e), q, i) by {
            assert(step(es.push(e), p, i));
        }
        lemma_path_push(es, e, q);
        let m = q[q.len() - 1];
        let v = p[p.len() - 1];
        assert(step(es.push(e), p, p.len() - 2));
        lemma_has_edge_push(es, e, m, v);
        lemma_connected_refl(es, v);
        if has_edge(es, m, v) {
            lemma_connected_edge(es, m, v);
            if connected(es, u, m) {
                lemma_connected_trans(es, u, m, v);
            } else if connected(es, u, e.0) && connected(es, e.1, m) {
                lemma_connected_trans(es, e.1, m, v);
            } else {
                lemma_connected_trans(es, e.0, m, v);
            }
        }
    }
}

/// Connectivity after one more edge.
pub proof fn lemma_connected_push(es: Seq<(int, int)>, e: (int, int), u: int, v: int)
    ensures
        connected(es.push(e), u, v) <==> bridged(es, e, u, v),
{
    let more = es.push(e);
    if connected(more, u, v) {
        let p = choose|p: Seq<int>| joins(more, p, u, v);
        lemma_path_push(es, e, p);
    }
    if bridged(es, e, u, v) {
        assert forall|a: int, b: int| has_edge(es, a, b) implies has_edge(more, a, b) by {
            lemma_has_edge_push(es, e, a, b);
        }
        lemma_has_edge_push(es, e, e.0, e.1);
        lemma_connected_edge(more, e.0, e.1);
        lemma_connected_sym(more, e.0, e.1);
        if connected(es, u, v) {
            lemma_connected_mono(es, more, u, v);
        } else if connected(es, u, e.0) && connected(es, e.1, v) {
            lemma_connected_mono(es, more, u, e.0);
            lemma_connected_mono(es, more, e.1, v);
            lemma_connected_trans(more, u, e.0, e.1);
            lemma_connected_trans(more, u, e.1, v);
        } else {
            lemma_connected_mono(es, more, u, e.1);
            lemma_connected_mono(es, more, e.0, v);
            lemma_connected_trans(more, u, e.1, e.0);
            lemma_connected_trans(more, u, e.0, v);
        }
    }
}

} // verus!
