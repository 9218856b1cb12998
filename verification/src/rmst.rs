//! Spanning tree sampling via random edge weights: the minimum spanning
//! tree under independent uniform weights, found by Kruskal's algorithm.
use rand::rngs::SmallRng;
use vstd::prelude::*;
use vstd::relations::{sorted_by, total_ordering};
use vstd::seq_lib::lemma_sorted_unique;

use crate::buffers::{adjacency, SpanningTreeBuffer};
use crate::components::{lemma_forest_size, lemma_forest_spans};
use crate::connectivity::{
    all_connected, connected, edges_within, has_edge, in_range, is_forest, is_spanning_tree,
    joins, lemma_connected_mono, lemma_connected_push, lemma_connected_refl,
    lemma_connected_sym, lemma_connected_trans, lemma_edges_within_connected,
    lemma_in_range_drop_last, step,
};
use crate::error::SampleError;
use crate::graph::{Edge, Graph};
use crate::random::fill_words;
use crate::sampler::SpanningTreeSampler;
use crate::union_find::{class_roots, UnionFind};

verus! {

/// An edge with its weight in front: `(weight, src, dst)`.
pub type WeightedEdge = (u32, usize, usize);

/// The edges, each with the weight at its position.
pub open spec fn weighted(weights: Seq<u32>, edges: Seq<Edge>) -> Seq<WeightedEdge> {
    Seq::new(edges.len(), |i: int| (weights[i], edges[i].0, edges[i].1))
}

/// The order of weighted edges: by weight, then by `src`, then by `dst`.
pub open spec fn lighter_or_equal(a: WeightedEdge, b: WeightedEdge) -> bool {
    a.0 < b.0 || (a.0 == b.0 && (a.1 < b.1 || (a.1 == b.1 && a.2 <= b.2)))
}

/// `lighter_or_equal` as a relation.
pub open spec fn by_weight() -> spec_fn(WeightedEdge, WeightedEdge) -> bool {
    |a: WeightedEdge, b: WeightedEdge| lighter_or_equal(a, b)
}

/// The ends of the weighted edges, in the same order.
pub open spec fn ends(order: Seq<WeightedEdge>) -> Seq<(int, int)> {
    Seq::new(order.len(), |i: int| (order[i].1 as int, order[i].2 as int))
}

/// The edges that Kruskal's algorithm keeps of `es`: every edge whose ends
/// the edges kept before it do not connect.
pub open spec fn kruskal_tree(es: Seq<(int, int)>) -> Seq<(int, int)>
    decreases es.len(),
{
    if es.len() == 0 {
        Seq::empty()
    } else {
        let kept = kruskal_tree(es.drop_last());
        if connected(kept, es.last().0, es.last().1) {
            kept
        } else {
            kept.push(es.last())
        }
    }
}

/// The minimum spanning tree of `graph` under `weights`, where it has one:
/// what Kruskal's algorithm keeps of the edges in ascending order.
pub open spec fn minimum_tree(graph: &Graph, weights: Seq<u32>) -> Seq<(int, int)> {
    kruskal_tree(ends(weighted(weights, graph.edges@).sort_by(by_weight())))
}

/// Kruskal's choice, edge by edge: an edge is left out exactly when the
/// edges before it already connect its ends. Taken in ascending order of
/// weight, the edges left out are those that close a cycle with edges no
/// heavier than themselves.
pub proof fn lemma_kruskal_choice(es: Seq<(int, int)>, i: int)
    requires
        0 <= i < es.len(),
    ensures
        kruskal_tree(es.take(i + 1)) == if connected(es.take(i), es[i].0, es[i].1) {
            kruskal_tree(es.take(i))
        } else {
            kruskal_tree(es.take(i)).push(es[i])
        },
{
    assert(es.take(i + 1).drop_last() == es.take(i));
    lemma_kruskal_connects(es.take(i), es[i].0, es[i].1);
}

/// What Kruskal's algorithm keeps is a forest made of edges of `es`.
pub proof fn lemma_kruskal_forest(n: nat, es: Seq<(int, int)>)
    requires
        in_range(n, es),
    ensures
        is_forest(kruskal_tree(es)),
        in_range(n, kruskal_tree(es)),
        edges_within(kruskal_tree(es), es),
    decreases es.len(),
{
    if es.len() > 0 {
        let prev = es.drop_last();
        let e = es.last();
        lemma_in_range_drop_last(n, es);
        lemma_kruskal_forest(n, prev);
        let kept = kruskal_tree(prev);
        let tree = kruskal_tree(es);
        if !connected(kept, e.0, e.1) {
            assert forall|i: int| 0 <= i < tree.len() implies !connected(
                tree.take(i),
                (#[trigger] tree[i]).0,
                tree[i].1,
            ) by {
                if i < kept.len() {
                    assert(tree.take(i) == kept.take(i));
                } else {
                    assert(tree.take(i) == kept);
                }
            }
        }
    }
}

/// What Kruskal's algorithm keeps connects the same nodes as all the
/// edges.
pub proof fn lemma_kruskal_connects(es: Seq<(int, int)>, u: int, v: int)
    ensures
        connected(kruskal_tree(es), u, v) <==> connected(es, u, v),
    decreases es.len(),
{
    if es.len() == 0 {
        assert(kruskal_tree(es) == es);
    } else {
        let prev = es.drop_last();
        let e = es.last();
        let kept = kruskal_tree(prev);
        assert(es == prev.push(e));
        lemma_kruskal_connects(prev, u, v);
        lemma_kruskal_connects(prev, u, e.0);
        lemma_kruskal_connects(prev, u, e.1);
        lemma_kruskal_connects(prev, e.0, v);
        lemma_kruskal_connects(prev, e.1, v);
        lemma_kruskal_connects(prev, e.0, e.1);
        lemma_connected_push(prev, e, u, v);
        if connected(kept, e.0, e.1) {
            if connected(kept, u, e.0) && connected(kept, e.1, v) {
                lemma_connected_trans(kept, u, e.0, e.1);
                lemma_connected_trans(kept, u, e.1, v);
            }
            if connected(kept, u, e.1) && connected(kept, e.0, v) {
                lemma_connected_sym(kept, e.0, e.1);
                lemma_connected_trans(kept, u, e.1, e.0);
                lemma_connected_trans(kept, u, e.0, v);
            }
        } else {
            lemma_connected_push(kept, e, u, v);
        }
    }
}

/// Once the kept edges connect all nodes, Kruskal's algorithm keeps no
/// further edge.
pub proof fn lemma_kruskal_complete(n: nat, es: Seq<(int, int)>, k: int)
    requires
        in_range(n, es),
        0 <= k <= es.len(),
        all_connected(n, kruskal_tree(es.take(k))),
    ensures
        kruskal_tree(es) == kruskal_tree(es.take(k)),
    decreases es.len() - k,
{
    if k == es.len() {
        assert(es.take(k) == es);
    } else {
        let prev = es.drop_last();
        lemma_in_range_drop_last(n, es);
        assert(prev.take(k) == es.take(k));
        lemma_kruskal_complete(n, prev, k);
    }
}

/// The lexicographic order of weighted edges is total.
pub proof fn lemma_by_weight_total()
    ensures
        total_ordering(by_weight()),
{
    let r = by_weight();
    assert(vstd::relations::reflexive(r)) by {
        assert forall|x: WeightedEdge| #[trigger] r(x, x) by {}
    }
    assert(vstd::relations::antisymmetric(r)) by {
        assert forall|x: WeightedEdge, y: WeightedEdge| #[trigger]
            r(x, y) && #[trigger] r(y, x) implies x == y by {}
    }
    assert(vstd::relations::transitive(r)) by {
        assert forall|x: WeightedEdge, y: WeightedEdge, z: WeightedEdge| #[trigger]
            r(x, y) && #[trigger] r(y, z) implies r(x, z) by {}
    }
    assert(vstd::relations::strongly_connected(r)) by {
        assert forall|x: WeightedEdge, y: WeightedEdge| #[trigger] r(x, y) || #[trigger] r(y, x) by {}
    }
}

/// The edges in ascending order of weight are the edges of the graph, each
/// once.
pub proof fn lemma_ascending_edges(graph: &Graph, weights: Seq<u32>)
    requires
        graph.wf(),
        weights.len() == graph.edges@.len(),
    ensures
        ({
            let es = ends(weighted(weights, graph.edges@).sort_by(by_weight()));
            &&& es.len() == graph.edges@.len()
            &&& in_range(graph.node_count(), es)
            &&& edges_within(es, graph.edge_seq())
            &&& forall|a: int, b: int| has_edge(graph.edge_seq(), a, b) ==> has_edge(es, a, b)
        }),
{
    let n = graph.node_count();
    let listed = weighted(weights, graph.edges@);
    let order = listed.sort_by(by_weight());
    let es = ends(order);
    lemma_by_weight_total();
    listed.lemma_sort_by_ensures(by_weight());
    listed.to_multiset_ensures();
    order.to_multiset_ensures();
    assert forall|j: int| 0 <= j < es.len() implies 0 <= (#[trigger] es[j]).0 < n && 0
        <= es[j].1 < n && graph.edge_seq().contains(es[j]) by {
        assert(order.contains(order[j]));
        let i = choose|i: int| 0 <= i < listed.len() && listed[i] == order[j];
        assert(graph.edge_seq()[i] == es[j]);
    }
    assert forall|a: int, b: int| has_edge(graph.edge_seq(), a, b) implies has_edge(es, a, b) by {
        let e = if graph.edge_seq().contains((a, b)) {
            (a, b)
        } else {
            (b, a)
        };
        let i = choose|i: int| 0 <= i < graph.edge_seq().len() && graph.edge_seq()[i] == e;
        let x = listed[i];
        assert(listed.contains(x));
        assert(order.to_multiset().count(x) > 0);
        let j = choose|j: int| 0 <= j < order.len() && order[j] == x;
        assert(es[j] == e);
    }
}

/// Whether the partition `roots` puts `u` and `v` into one class exactly
/// when the edges `tree` connect them.
pub open spec fn agrees(roots: Seq<int>, tree: Seq<(int, int)>, u: int, v: int) -> bool {
    (roots[u] == roots[v]) == connected(tree, u, v)
}

/// Calls `sort` on the slice of `v`: afterwards `v` holds the same weighted
/// edges as before, in ascending order.
#[verifier::external_body]
fn sort_ascending(v: &mut Vec<WeightedEdge>)
    ensures
        final(v)@.to_multiset() == old(v)@.to_multiset(),
        sorted_by(final(v)@, by_weight()),
{
    v.sort();
}

/// Runs Kruskal's algorithm over the edges of `order`, in their order:
/// every edge whose ends are not yet connected is added to `buf`. Returns
/// the number of edges added. The scan stops when `n - 1` edges are added,
/// since no further edge can join two components then.
pub fn kruskal(order: &Vec<WeightedEdge>, buf: &mut SpanningTreeBuffer) -> (count: usize)
    requires
        0 < old(buf)@.len() <= u32::MAX,
        old(buf)@ == adjacency(old(buf)@.len(), Seq::empty()),
        in_range(old(buf)@.len(), ends(order@)),
    ensures
        final(buf)@.len() == old(buf)@.len(),
        final(buf)@ == adjacency(old(buf)@.len(), kruskal_tree(ends(order@))),
        count == kruskal_tree(ends(order@)).len(),
{
    let n: usize = buf.st.len();
    let m: usize = order.len();
    let ghost es = ends(order@);
    let ghost mut tree: Seq<(int, int)> = Seq::empty();
    let mut uf = UnionFind::singletons(n);
    let mut unions: usize = 0;
    let mut k: usize = 0;
    proof {
        assert forall|u: int, v: int| 0 <= u < n && 0 <= v < n implies #[trigger] agrees(
            class_roots(uf),
            tree,
            u,
            v,
        ) by {
            lemma_connected_refl(tree, u);
            if connected(tree, u, v) && u != v {
                let p = choose|p: Seq<int>| joins(tree, p, u, v);
                assert(step(tree, p, 0));
            }
        }
    }
    while k < m && unions + 1 < n
        invariant
            n == buf@.len(),
            0 < n <= u32::MAX,
            m == order@.len(),
            es == ends(order@),
            in_range(n as nat, es),
            k <= m,
            unions == tree.len(),
            unions < n,
            tree == kruskal_tree(es.take(k as int)),
            buf@ == adjacency(n as nat, tree),
            class_roots(uf).len() == n,
            forall|u: int, v: int|
                0 <= u < n && 0 <= v < n ==> #[trigger] agrees(class_roots(uf), tree, u, v),
        decreases m - k,
    {
        let src: usize = order[k].1;
        let dst: usize = order[k].2;
        let ghost e = (src as int, dst as int);
        let ghost roots = class_roots(uf);
        proof {
            assert(es[k as int] == e);
            assert(es.take(k + 1).drop_last() == es.take(k as int));
            assert(agrees(roots, tree, e.0, e.1));
        }
        if !uf.unioned(src, dst) {
            uf.union(src, dst);
            buf.add_edge(src, dst);
            unions += 1;
            proof {
                let grown = tree.push(e);
                let merged = class_roots(uf);
                assert(grown.drop_last() == tree);
                assert forall|u: int, v: int| 0 <= u < n && 0 <= v < n implies #[trigger] agrees(
                    merged,
                    grown,
                    u,
                    v,
                ) by {
                    lemma_connected_push(tree, e, u, v);
                    assert(agrees(roots, tree, u, v));
                    assert(agrees(roots, tree, u, e.0));
                    assert(agrees(roots, tree, u, e.1));
                    assert(agrees(roots, tree, e.0, v));
                    assert(agrees(roots, tree, e.1, v));
                }
                tree = grown;
                lemma_kruskal_forest(n as nat, es.take(k + 1));
                lemma_forest_size(n as nat, tree);
            }
        }
        k += 1;
    }
    proof {
        if k < m {
            lemma_kruskal_forest(n as nat, es.take(k as int));
            lemma_forest_spans(n as nat, tree);
            lemma_kruskal_complete(n as nat, es, k as int);
        } else {
            assert(es.take(k as int) == es);
        }
    }
    unions
}

/// Whether `graph` is connected: whether Kruskal's algorithm, run over the
/// edges of the graph, finds the `n - 1` edges of a spanning tree.
pub fn is_connected_graph(graph: &Graph) -> (connected: bool)
    requires
        graph.edges_in_range(),
        0 < graph.node_count() <= u32::MAX,
    ensures
        connected == graph.is_connected(),
{
    let n: usize = graph.neighbors.len();
    let m: usize = graph.edges.len();
    let mut order: Vec<WeightedEdge> = Vec::with_capacity(m);
    let mut i: usize = 0;
    while i < m
        invariant
            i <= m,
            m == graph.edges@.len(),
            order@.len() == i,
            forall|j: int|
                0 <= j < i ==> (#[trigger] order@[j]).1 == graph.edges@[j].0 && order@[j].2
                    == graph.edges@[j].1,
        decreases m - i,
    {
        let edge: Edge = graph.edges[i];
        order.push((0, edge.0, edge.1));
        i += 1;
    }
    let ghost es = graph.edge_seq();
    assert(ends(order@) =~= es);
    let mut scratch = SpanningTreeBuffer::new(n);
    let count: usize = kruskal(&order, &mut scratch);
    proof {
        let tree = kruskal_tree(es);
        lemma_kruskal_forest(n as nat, es);
        lemma_forest_size(n as nat, tree);
        if all_connected(n as nat, tree) {
            assert forall|u: int, v: int| 0 <= u < n && 0 <= v < n implies connected(es, u, v) by {
                lemma_kruskal_connects(es, u, v);
            }
        }
        if graph.is_connected() {
            assert forall|u: int, v: int| 0 <= u < n && 0 <= v < n implies connected(tree, u, v) by {
                lemma_kruskal_connects(es, u, v);
            }
        }
    }
    count + 1 == n
}

/// Given `weights`, one for every edge of `graph`, finds the minimum
/// spanning tree of `graph` by Kruskal's algorithm and writes it into `buf`:
/// the edges are taken in ascending order of weight, equal weights in the
/// order of the edges, and every edge that joins two components is kept. A
/// graph that is not connected has no spanning tree; `buf` is then left
/// without edges.
pub fn minimum_spanning_tree(
    graph: &Graph,
    buf: &mut SpanningTreeBuffer,
    weights: &Vec<u32>,
) -> (r: Result<(), SampleError>)
    requires
        graph.wf(),
        old(buf)@.len() == graph.node_count(),
        weights@.len() == graph.edges@.len(),
    ensures
        final(buf)@.len() == graph.node_count(),
        r is Ok <==> 0 < graph.node_count() <= u32::MAX && graph.is_connected(),
        r is Ok ==> final(buf)@ == adjacency(graph.node_count(), minimum_tree(graph, weights@))
            && is_spanning_tree(
            graph.node_count(),
            graph.edge_seq(),
            minimum_tree(graph, weights@),
        ),
        r is Err ==> final(buf)@ == adjacency(graph.node_count(), Seq::empty()),
        r == Err::<(), SampleError>(SampleError::NoNodes) <==> graph.node_count() == 0,
        r == Err::<(), SampleError>(SampleError::TooManyNodes) <==> graph.node_count()
            > u32::MAX,
        r is Err ==> r == Err::<(), SampleError>(SampleError::NoNodes) || r == Err::<
            (),
            SampleError,
        >(SampleError::TooManyNodes) || r == Err::<(), SampleError>(SampleError::Disconnected),
{
    buf.clear();
    let n: usize = graph.neighbors.len();
    if n == 0 {
        return Err(SampleError::NoNodes);
    }
    if n as u64 > 0xffff_ffffu64 {
        return Err(SampleError::TooManyNodes);
    }
    let m: usize = graph.edges.len();
    let mut order: Vec<WeightedEdge> = Vec::with_capacity(m);
    let mut i: usize = 0;
    while i < m
        invariant
            i <= m,
            m == graph.edges@.len(),
            m == weights@.len(),
            order@ == weighted(weights@, graph.edges@).take(i as int),
        decreases m - i,
    {
        let edge: Edge = graph.edges[i];
        order.push((weights[i], edge.0, edge.1));
        i += 1;
    }
    let ghost listed = weighted(weights@, graph.edges@);
    assert(order@ == listed);
    sort_ascending(&mut order);
    let ghost es = ends(order@);
    proof {
        lemma_by_weight_total();
        listed.lemma_sort_by_ensures(by_weight());
        lemma_sorted_unique(order@, listed.sort_by(by_weight()), by_weight());
        lemma_ascending_edges(graph, weights@);
    }
    let count: usize = kruskal(&order, buf);
    let ghost tree = kruskal_tree(es);
    proof {
        lemma_kruskal_forest(n as nat, es);
        lemma_forest_size(n as nat, tree);
        if all_connected(n as nat, tree) {
            assert forall|u: int, v: int| 0 <= u < n && 0 <= v < n implies connected(
                graph.edge_seq(),
                u,
                v,
            ) by {
                lemma_kruskal_connects(es, u, v);
                lemma_edges_within_connected(es, graph.edge_seq(), u, v);
            }
        }
        if graph.is_connected() {
            assert forall|u: int, v: int| 0 <= u < n && 0 <= v < n implies connected(tree, u, v) by {
                lemma_connected_mono(graph.edge_seq(), es, u, v);
                lemma_kruskal_connects(es, u, v);
            }
        }
    }
    if count + 1 == n {
        Ok(())
    } else {
        buf.clear();
        Err(SampleError::Disconnected)
    }
}

/// Samples random spanning trees by drawing random edge weights and finding
/// the minimum spanning tree.
pub struct RMSTSampler {
    /// Buffer for edge weights.
    weights: Vec<u32>,
}

impl RMSTSampler {
    /// Creates a sampler for graphs of about `n` nodes.
    pub fn new(n: usize) -> (sampler: RMSTSampler)
        ensures
            sampler.wf(),
    {
        let room: usize = if n <= usize::MAX / 8 {
            8 * n
        } else {
            n
        };
        RMSTSampler { weights: Vec::with_capacity(room) }
    }
}

impl SpanningTreeSampler for RMSTSampler {
    /// Between calls the weight buffer is empty.
    closed spec fn wf(&self) -> bool {
        self.weights@.len() == 0
    }

    /// Draws a random spanning tree of `graph` by drawing a random weight
    /// for every edge and finding the minimum spanning tree, and writes it
    /// into `buf`. Sampling succeeds exactly on the connected graphs, and
    /// the tree is the minimum tree under the weights that were drawn.
    fn random_spanning_tree(
        &mut self,
        graph: &Graph,
        buf: &mut SpanningTreeBuffer,
        rng: &mut SmallRng,
    ) -> (r: Result<(), SampleError>)
        ensures
            r is Ok <==> 0 < graph.node_count() <= u32::MAX && graph.is_connected(),
            r is Ok ==> exists|drawn: Seq<u32>|
                drawn.len() == graph.edges@.len() && final(buf)@ == adjacency(
                    graph.node_count(),
                    #[trigger] minimum_tree(graph, drawn),
                ),
            r is Err ==> r == Err::<(), SampleError>(SampleError::NoNodes) || r == Err::<
                (),
                SampleError,
            >(SampleError::TooManyNodes) || r == Err::<(), SampleError>(
                SampleError::Disconnected,
            ),
    {
        proof {
            if graph.node_count() == 1 {
                lemma_connected_refl(graph.edge_seq(), 0);
            }
        }
        let m: usize = graph.edges.len();
        let mut i: usize = 0;
        while i < m
            invariant
                i <= m,
                self.weights@.len() == i,
            decreases m - i,
        {
            self.weights.push(0);
            i += 1;
        }
        fill_words(rng, &mut self.weights);
        let ghost drawn = self.weights@;
        let r = minimum_spanning_tree(graph, buf, &self.weights);
        self.weights.clear();
        proof {
            if r is Ok {
                assert(buf@ == adjacency(graph.node_count(), minimum_tree(graph, drawn)));
            }
        }
        r
    }
}

} // verus!
