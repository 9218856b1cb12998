//! What holds of every spanning tree that a sampler writes into a buffer.
use vstd::prelude::*;

use crate::buffers::{adjacency, lemma_adjacency_len, SpanningTreeBuffer};
use crate::components::lemma_connected_is_forest;
use crate::connectivity::{
    all_connected, connected, edges_within, is_forest, lemma_connected_edge,
    lemma_connected_refl, lemma_forest_prefix, has_edge, in_range, is_spanning_tree, joins, lemma_connected_mono,
    lemma_edges_within_connected, lemma_has_edge_push, lemma_in_range_drop_last, step,
};
use crate::graph::Graph;

verus! {

/// The number of entries in all the lists of `rows`.
pub open spec fn entry_count(rows: Seq<Seq<int>>) -> nat
    decreases rows.len(),
{
    if rows.len() == 0 {
        0
    } else {
        entry_count(rows.drop_last()) + rows.last().len()
    }
}

/// The adjacency list of a node holds exactly the nodes that an edge joins
/// it to.
pub proof fn lemma_adjacency_contains(n: nat, es: Seq<(int, int)>, u: int, v: int)
    requires
        in_range(n, es),
        0 <= u < n,
    ensures
        adjacency(n, es)[u].contains(v) <==> has_edge(es, u, v),
    decreases es.len(),
{
    if es.len() > 0 {
        let prev = es.drop_last();
        let e = es.last();
        lemma_in_range_drop_last(n, es);
        lemma_adjacency_contains(n, prev, u, v);
        lemma_adjacency_len(n, prev);
        assert(es == prev.push(e));
        lemma_has_edge_push(prev, e, u, v);
        let rows = adjacency(n, prev);
        if u == e.0 && u == e.1 {
            lemma_push_contains(rows[u], u, v);
            lemma_push_contains(rows[u].push(u), u, v);
        } else if u == e.0 {
            lemma_push_contains(rows[u], e.1, v);
        } else if u == e.1 {
            lemma_push_contains(rows[u], e.0, v);
        }
    }
}

/// A list with one more entry holds what it held, and the entry.
proof fn lemma_push_contains(s: Seq<int>, x: int, v: int)
    ensures
        s.push(x).contains(v) <==> (s.contains(v) || v == x),
{
    let longer = s.push(x);
    if s.contains(v) {
        let i = choose|i: int| 0 <= i < s.len() && s[i] == v;
        assert(longer[i] == v);
    }
    assert(longer[s.len() as int] == x);
}

/// One more entry in one list is one more entry in all.
proof fn lemma_entry_count_push(rows: Seq<Seq<int>>, i: int, x: int)
    requires
        0 <= i < rows.len(),
    ensures
        entry_count(rows.update(i, rows[i].push(x))) == entry_count(rows) + 1,
    decreases rows.len(),
{
    let changed = rows.update(i, rows[i].push(x));
    if i == rows.len() - 1 {
        assert(changed.drop_last() == rows.drop_last());
    } else {
        lemma_entry_count_push(rows.drop_last(), i, x);
        assert(changed.drop_last() == rows.drop_last().update(i, rows[i].push(x)));
    }
}

/// Empty lists have no entries.
proof fn lemma_entry_count_empty(n: nat)
    ensures
        entry_count(Seq::new(n, |u: int| Seq::<int>::empty())) == 0,
    decreases n,
{
    if n > 0 {
        lemma_entry_count_empty((n - 1) as nat);
        assert(Seq::new(n, |u: int| Seq::<int>::empty()).drop_last() == Seq::new(
            (n - 1) as nat,
            |u: int| Seq::<int>::empty(),
        ));
    }
}

/// Every edge makes two entries in the adjacency lists.
pub proof fn lemma_entry_count(n: nat, es: Seq<(int, int)>)
    requires
        in_range(n, es),
    ensures
        entry_count(adjacency(n, es)) == 2 * es.len(),
    decreases es.len(),
{
    if es.len() == 0 {
        lemma_entry_count_empty(n);
    } else {
        let prev = es.drop_last();
        let e = es.last();
        lemma_in_range_drop_last(n, es);
        lemma_entry_count(n, prev);
        lemma_adjacency_len(n, prev);
        let rows = adjacency(n, prev);
        let mid = rows.update(e.0, rows[e.0].push(e.1));
        lemma_entry_count_push(rows, e.0, e.1);
        lemma_entry_count_push(mid, e.1, e.0);
    }
}

/// Being a spanning tree does not depend on the order in which the edges
/// are listed, nor on the direction in which an edge is written: as many
/// edges of the graph that join all the nodes that `tree` joins are a
/// spanning tree too.
pub proof fn lemma_spanning_tree_relisted(
    n: nat,
    es: Seq<(int, int)>,
    tree: Seq<(int, int)>,
    other: Seq<(int, int)>,
)
    requires
        is_spanning_tree(n, es, tree),
        other.len() == tree.len(),
        in_range(n, other),
        edges_within(other, es),
        forall|a: int, b: int| has_edge(tree, a, b) ==> has_edge(other, a, b),
    ensures
        is_spanning_tree(n, es, other),
{
    assert forall|u: int, v: int| 0 <= u < n && 0 <= v < n implies connected(other, u, v) by {
        lemma_connected_mono(tree, other, u, v);
    }
    lemma_connected_is_forest(n, other);
}

/// Only a connected graph has a spanning tree.
pub proof fn lemma_spanning_tree_connects(n: nat, es: Seq<(int, int)>, tree: Seq<(int, int)>)
    requires
        is_spanning_tree(n, es, tree),
    ensures
        all_connected(n, es),
{
    assert forall|u: int, v: int| 0 <= u < n && 0 <= v < n implies connected(es, u, v) by {
        lemma_edges_within_connected(tree, es, u, v);
    }
}

/// A spanning tree in a buffer is symmetric: `v` is listed at `u` exactly
/// when `u` is listed at `v`.
pub proof fn lemma_tree_symmetric(buf: SpanningTreeBuffer, graph: &Graph, u: int, v: int)
    requires
        buf.is_spanning_tree_of(graph),
        0 <= u < graph.node_count(),
        0 <= v < graph.node_count(),
    ensures
        buf@[u].contains(v) <==> buf@[v].contains(u),
{
    let n = graph.node_count();
    let tree = choose|tree: Seq<(int, int)>|
        is_spanning_tree(n, graph.edge_seq(), tree) && buf@ == adjacency(n, tree);
    lemma_adjacency_contains(n, tree, u, v);
    lemma_adjacency_contains(n, tree, v, u);
}

/// A spanning tree in a buffer is made of edges of the graph.
pub proof fn lemma_tree_within_graph(buf: SpanningTreeBuffer, graph: &Graph, u: int, v: int)
    requires
        buf.is_spanning_tree_of(graph),
        0 <= u < graph.node_count(),
        buf@[u].contains(v),
    ensures
        graph.adjacent(u, v),
{
    let n = graph.node_count();
    let tree = choose|tree: Seq<(int, int)>|
        is_spanning_tree(n, graph.edge_seq(), tree) && buf@ == adjacency(n, tree);
    lemma_adjacency_contains(n, tree, u, v);
}

/// The adjacency lists of a forest hold no node twice.
pub proof fn lemma_adjacency_lists_once(n: nat, es: Seq<(int, int)>, u: int)
    requires
        in_range(n, es),
        is_forest(es),
        0 <= u < n,
    ensures
        adjacency(n, es)[u].no_duplicates(),
    decreases es.len(),
{
    if es.len() > 0 {
        let prev = es.drop_last();
        let e = es.last();
        lemma_in_range_drop_last(n, es);
        lemma_forest_prefix(es, es.len() - 1);
        assert(es.take(es.len() - 1) == prev);
        lemma_adjacency_lists_once(n, prev, u);
        lemma_adjacency_len(n, prev);
        let rows = adjacency(n, prev);
        lemma_adjacency_contains(n, prev, u, e.0);
        lemma_adjacency_contains(n, prev, u, e.1);
        lemma_connected_refl(prev, e.0);
        if has_edge(prev, e.0, e.1) {
            lemma_connected_edge(prev, e.0, e.1);
        }
        assert(es[es.len() - 1] == e);
        assert(!connected(prev, e.0, e.1));
        if u == e.0 {
            lemma_push_once(rows[u], e.1);
        } else if u == e.1 {
            lemma_push_once(rows[u], e.0);
        }
    }
}

/// A list without repeats stays so with one more entry that it did not
/// hold.
proof fn lemma_push_once(s: Seq<int>, x: int)
    requires
        s.no_duplicates(),
        !s.contains(x),
    ensures
        s.push(x).no_duplicates(),
{
    let longer = s.push(x);
    assert forall|i: int, j: int| 0 <= i < longer.len() && 0 <= j < longer.len() && i
        != j implies longer[i] != longer[j] by {
        if i < s.len() {
            assert(s[i] == longer[i]);
        }
        if j < s.len() {
            assert(s[j] == longer[j]);
        }
    }
}

/// A spanning tree in a buffer lists no node twice at any node.
pub proof fn lemma_tree_lists_once(buf: SpanningTreeBuffer, graph: &Graph, u: int)
    requires
        buf.is_spanning_tree_of(graph),
        0 <= u < graph.node_count(),
    ensures
        buf@[u].no_duplicates(),
{
    let n = graph.node_count();
    let tree = choose|tree: Seq<(int, int)>|
        is_spanning_tree(n, graph.edge_seq(), tree) && buf@ == adjacency(n, tree);
    lemma_adjacency_lists_once(n, tree, u);
}

/// A spanning tree in a buffer has `n - 1` edges, each listed at both of
/// its ends; on one node it is empty.
pub proof fn lemma_tree_size(buf: SpanningTreeBuffer, graph: &Graph)
    requires
        buf.is_spanning_tree_of(graph),
    ensures
        graph.node_count() >= 1,
        buf@.len() == graph.node_count(),
        entry_count(buf@) == 2 * (graph.node_count() - 1),
{
    let n = graph.node_count();
    let tree = choose|tree: Seq<(int, int)>|
        is_spanning_tree(n, graph.edge_seq(), tree) && buf@ == adjacency(n, tree);
    lemma_entry_count(n, tree);
    lemma_adjacency_len(n, tree);
}

/// A spanning tree of a graph with two or more nodes touches every node.
pub proof fn lemma_tree_touches(buf: SpanningTreeBuffer, graph: &Graph, u: int)
    requires
        buf.is_spanning_tree_of(graph),
        graph.node_count() >= 2,
        0 <= u < graph.node_count(),
    ensures
        buf@[u].len() > 0,
{
    let n = graph.node_count();
    let tree = choose|tree: Seq<(int, int)>|
        is_spanning_tree(n, graph.edge_seq(), tree) && buf@ == adjacency(n, tree);
    let v = if u == 0 {
        1int
    } else {
        0int
    };
    assert(connected(tree, u, v));
    let p = choose|p: Seq<int>| joins(tree, p, u, v);
    assert(step(tree, p, 0));
    lemma_adjacency_contains(n, tree, u, p[1]);
}

} // verus!
