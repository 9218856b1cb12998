//! The tree of Kruskal's algorithm is the lightest spanning tree.
//!
//! A choice of edges marks positions in the list of all edges in ascending
//! order of weight. Among the first `k` edges, for every `k`, no forest
//! holds more edges than Kruskal's algorithm keeps; so whatever a spanning
//! tree gains by leaving out an edge that the algorithm keeps, it pays for
//! with an edge no lighter.
use vstd::prelude::*;
use vstd::relations::sorted_by;

use crate::components::{
    lemma_count_merges, lemma_forest_merges, lemma_forest_size, lemma_labels_canonical,
    lemma_merges_monotone,
};
use crate::connectivity::{
    connected, has_edge, in_range, is_forest, is_spanning_tree, lemma_connected_mono,
    lemma_forest_prefix,
};
use crate::graph::Graph;
use crate::rmst::{
    by_weight, ends, kruskal_tree, lemma_ascending_edges, lemma_by_weight_total,
    lemma_kruskal_choice, lemma_kruskal_connects, lemma_kruskal_forest, minimum_tree, weighted,
    WeightedEdge,
};
use crate::tree_laws::lemma_spanning_tree_connects;

verus! {

/// The edges of `es` at those of the first `k` positions that `sel` marks.
pub open spec fn picked(es: Seq<(int, int)>, sel: Seq<bool>, k: int) -> Seq<(int, int)>
    decreases k,
{
    if k <= 0 {
        Seq::empty()
    } else if sel[k - 1] {
        picked(es, sel, k - 1).push(es[k - 1])
    } else {
        picked(es, sel, k - 1)
    }
}

/// The sum of the weights at those of the first `k` positions that `sel`
/// marks.
pub open spec fn picked_weight(order: Seq<WeightedEdge>, sel: Seq<bool>, k: int) -> int
    decreases k,
{
    if k <= 0 {
        0
    } else if sel[k - 1] {
        picked_weight(order, sel, k - 1) + order[k - 1].0
    } else {
        picked_weight(order, sel, k - 1)
    }
}

/// The positions of the edges that Kruskal's algorithm keeps: those whose
/// ends the edges before them do not connect.
pub open spec fn kruskal_choice(es: Seq<(int, int)>) -> Seq<bool> {
    Seq::new(es.len(), |i: int| !connected(es.take(i), es[i].0, es[i].1))
}

/// What Kruskal's algorithm keeps of the first `k` edges is what its
/// choice marks among them.
pub proof fn lemma_kruskal_picks(es: Seq<(int, int)>, k: int)
    requires
        0 <= k <= es.len(),
    ensures
        kruskal_tree(es.take(k)) == picked(es, kruskal_choice(es), k),
    decreases k,
{
    if k > 0 {
        lemma_kruskal_picks(es, k - 1);
        lemma_kruskal_choice(es, k - 1);
    }
}

/// The edges marked among the first `k` are edges of the first `k`, and
/// begin the edges marked among more.
proof fn lemma_picked_prefix(n: nat, es: Seq<(int, int)>, sel: Seq<bool>, j: int, k: int)
    requires
        in_range(n, es),
        0 <= j <= k <= es.len(),
    ensures
        picked(es, sel, j).len() <= picked(es, sel, k).len() <= k,
        picked(es, sel, k).take(picked(es, sel, j).len() as int) == picked(es, sel, j),
        in_range(n, picked(es, sel, k)),
        forall|a: int, b: int|
            has_edge(picked(es, sel, k), a, b) ==> has_edge(es.take(k), a, b),
    decreases k,
{
    if k > 0 {
        let shorter = picked(es, sel, k - 1);
        let longer = picked(es, sel, k);
        if j < k {
            lemma_picked_prefix(n, es, sel, j, k - 1);
            assert(longer.take(picked(es, sel, j).len() as int) == shorter.take(
                picked(es, sel, j).len() as int,
            ));
        } else {
            lemma_picked_prefix(n, es, sel, k - 1, k - 1);
        }
        assert forall|a: int, b: int| has_edge(longer, a, b) implies has_edge(es.take(k), a, b) by {
            let e = if longer.contains((a, b)) {
                (a, b)
            } else {
                (b, a)
            };
            let i = choose|i: int| 0 <= i < longer.len() && longer[i] == e;
            if i < shorter.len() {
                assert(has_edge(shorter, a, b));
            } else {
                assert(es.take(k)[k - 1] == e);
            }
        }
    }
}

/// Among the first `k` edges, a forest holds no more edges than Kruskal's
/// algorithm keeps.
pub proof fn lemma_kruskal_keeps_most(n: nat, es: Seq<(int, int)>, sel: Seq<bool>, k: int)
    requires
        in_range(n, es),
        is_forest(picked(es, sel, es.len() as int)),
        0 <= k <= es.len(),
    ensures
        picked(es, sel, k).len() <= picked(es, kruskal_choice(es), k).len(),
{
    let some = picked(es, sel, k);
    let all = es.take(k);
    let kept = kruskal_tree(all);
    lemma_kruskal_picks(es, k);
    lemma_picked_prefix(n, es, sel, k, es.len() as int);
    lemma_picked_prefix(n, es, sel, k, k);
    lemma_forest_prefix(picked(es, sel, es.len() as int), some.len() as int);
    lemma_kruskal_forest(n, all);
    lemma_forest_merges(n, some);
    lemma_forest_merges(n, kept);
    lemma_merges_monotone(n, some, all);
    let both = some + all;
    assert forall|a: int, b: int| has_edge(both, a, b) <==> has_edge(all, a, b) by {
        if has_edge(all, a, b) {
            let e = if all.contains((a, b)) {
                (a, b)
            } else {
                (b, a)
            };
            let i = choose|i: int| 0 <= i < all.len() && all[i] == e;
            assert(both[some.len() + i] == e);
        }
    }
    assert forall|u: int, v: int| 0 <= u < n && 0 <= v < n implies (connected(both, u, v)
        <==> connected(kept, u, v)) by {
        lemma_kruskal_connects(all, u, v);
        if connected(both, u, v) {
            lemma_connected_mono(both, all, u, v);
        }
        if connected(all, u, v) {
            lemma_connected_mono(all, both, u, v);
        }
    }
    lemma_labels_canonical(n, both, kept);
    lemma_count_merges(n, both);
    lemma_count_merges(n, kept);
}

/// The weight at position `k`, or the last weight beyond the end.
spec fn price(order: Seq<WeightedEdge>, k: int) -> int {
    if k < order.len() {
        order[k].0 as int
    } else if order.len() > 0 {
        order[order.len() - 1].0 as int
    } else {
        0
    }
}

/// A choice that has marked fewer of the first `k` edges than another
/// makes up for it with edges from position `k` on, which weigh no less.
proof fn lemma_weight_up_to(
    order: Seq<WeightedEdge>,
    es: Seq<(int, int)>,
    early: Seq<bool>,
    late: Seq<bool>,
    k: int,
)
    requires
        sorted_by(order, by_weight()),
        es.len() == order.len(),
        0 <= k <= order.len(),
        forall|j: int|
            0 <= j <= k ==> (#[trigger] picked(es, late, j)).len() <= picked(es, early, j).len(),
    ensures
        picked_weight(order, early, k) <= picked_weight(order, late, k) + (picked(
            es,
            early,
            k,
        ).len() - picked(es, late, k).len()) * price(order, k),
    decreases k,
{
    if k > 0 {
        lemma_weight_up_to(order, es, early, late, k - 1);
        let before = picked(es, early, k - 1).len() - picked(es, late, k - 1).len();
        let after = picked(es, early, k).len() - picked(es, late, k).len();
        let w = price(order, k - 1);
        let next = price(order, k);
        assert(w <= next) by {
            if k < order.len() {
                assert(by_weight()(order[k - 1], order[k]));
            }
        }
        assert(after * w <= after * next) by (nonlinear_arith)
            requires
                0 <= after,
                w <= next,
        {}
        let gain: int = if early[k - 1] {
            1
        } else {
            0
        };
        let loss: int = if late[k - 1] {
            1
        } else {
            0
        };
        assert(after * w == before * w + gain * w - loss * w) by (nonlinear_arith)
            requires
                after == before + gain - loss,
        {}
    }
}

/// No spanning tree is lighter than the minimum tree: mark any of the
/// edges of `graph`, listed in ascending order of weight; if the marked
/// edges are a spanning tree, their weights sum to no less than the weights
/// of the edges that Kruskal's algorithm keeps, which are the minimum tree.
pub proof fn lemma_minimum_tree_is_lightest(graph: &Graph, weights: Seq<u32>, sel: Seq<bool>)
    requires
        graph.wf(),
        weights.len() == graph.edges@.len(),
        is_spanning_tree(
            graph.node_count(),
            graph.edge_seq(),
            picked(
                ends(weighted(weights, graph.edges@).sort_by(by_weight())),
                sel,
                graph.edges@.len() as int,
            ),
        ),
    ensures
        ({
            let order = weighted(weights, graph.edges@).sort_by(by_weight());
            let choice = kruskal_choice(ends(order));
            let m = graph.edges@.len() as int;
            &&& minimum_tree(graph, weights) == picked(ends(order), choice, m)
            &&& picked_weight(order, choice, m) <= picked_weight(order, sel, m)
        }),
{
    let n = graph.node_count();
    let m = graph.edges@.len() as int;
    let listed = weighted(weights, graph.edges@);
    let order = listed.sort_by(by_weight());
    let es = ends(order);
    let choice = kruskal_choice(es);
    let other = picked(es, sel, m);
    lemma_by_weight_total();
    listed.lemma_sort_by_ensures(by_weight());
    lemma_ascending_edges(graph, weights);
    assert(es.take(m) == es);
    lemma_kruskal_picks(es, m);
    assert forall|j: int| 0 <= j <= m implies (#[trigger] picked(es, sel, j)).len() <= picked(
        es,
        choice,
        j,
    ).len() by {
        lemma_kruskal_keeps_most(n, es, sel, j);
    }
    lemma_weight_up_to(order, es, choice, sel, m);
    let kept = kruskal_tree(es);
    lemma_kruskal_forest(n, es);
    lemma_spanning_tree_connects(n, graph.edge_seq(), other);
    assert forall|u: int, v: int| 0 <= u < n && 0 <= v < n implies connected(kept, u, v) by {
        lemma_connected_mono(graph.edge_seq(), es, u, v);
        lemma_kruskal_connects(es, u, v);
    }
    lemma_forest_size(n, kept);
    let spare = picked(es, choice, m).len() - other.len();
    assert(spare * price(order, m) == 0) by (nonlinear_arith)
        requires
            spare == 0,
    {}
}

} // verus!
