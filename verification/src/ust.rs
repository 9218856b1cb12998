//! Spanning tree sampling from the uniform distribution, by Wilson's
//! algorithm: loop-erased random walks from every node to the tree grown so
//! far.
use rand::rngs::SmallRng;
use vstd::prelude::*;

use crate::buffers::{adjacency, RandomRangeBuffer, SpanningTreeBuffer};
use crate::components::lemma_connected_is_forest;
use crate::connectivity::{
    connected, edges_within, has_edge, in_range, is_spanning_tree, lemma_connected_edge,
    lemma_connected_mono, lemma_connected_refl, lemma_connected_sym, lemma_connected_trans,
    lemma_has_edge_push, ordered_pair,
};
use crate::error::SampleError;
use crate::graph::{Edge, Graph};
use crate::random::below;
use crate::rmst::is_connected_graph;
use crate::sampler::SpanningTreeSampler;
use crate::tree_laws::lemma_spanning_tree_connects;

verus! {

/// The tree edges that the parent pointers of the nodes below `k` give:
/// for each such node with a parent, in ascending order of the nodes, the
/// pair of the node and its parent with the smaller one first.
pub open spec fn parent_links(next: Seq<i64>, k: int) -> Seq<(int, int)>
    decreases k,
{
    if k <= 0 {
        Seq::empty()
    } else if next[k - 1] < 0 {
        parent_links(next, k - 1)
    } else {
        parent_links(next, k - 1).push(ordered_pair(k - 1, next[k - 1] as int))
    }
}

/// Whether `edges` lists, in order, the positions in the edge list of
/// `graph` at which the pairs `links` stand.
spec fn realizes(graph: &Graph, edges: Seq<usize>, links: Seq<(int, int)>) -> bool {
    &&& edges.len() == links.len()
    &&& forall|j: int|
        0 <= j < edges.len() ==> (#[trigger] edges[j]) < graph.edges@.len()
            && graph.edge_seq()[edges[j] as int] == links[j]
}

/// The membership flags `in_tree` with the nodes of `chain` added.
spec fn absorbed(in_tree: Seq<bool>, chain: Seq<int>) -> Seq<bool> {
    Seq::new(in_tree.len(), |c: int| in_tree[c] || chain.contains(c))
}

/// Whether `chain` is a loop-free walk along the parent pointers from
/// `start` to `end`, all of whose nodes before the last are outside the
/// tree.
spec fn is_chain(
    in_tree: Seq<bool>,
    next: Seq<i64>,
    chain: Seq<int>,
    start: int,
    end: int,
) -> bool {
    &&& chain.len() >= 1
    &&& chain[0] == start
    &&& chain[chain.len() - 1] == end
    &&& forall|j: int| 0 <= j < chain.len() ==> 0 <= #[trigger] chain[j] < in_tree.len()
    &&& forall|j: int|
        0 <= j < chain.len() - 1 ==> !in_tree[#[trigger] chain[j]] && next[chain[j]] == chain[j
            + 1]
    &&& forall|j: int, k: int|
        0 <= j < k < chain.len() ==> #[trigger] chain[j] != #[trigger] chain[k]
}

/// Whether every node of `chain` is adjacent to the one after it.
spec fn chain_linked(graph: &Graph, chain: Seq<int>) -> bool {
    forall|j: int| 0 <= j < chain.len() - 1 ==> graph.adjacent(#[trigger] chain[j], chain[j + 1])
}

/// Whether the nodes marked in `in_tree` form a tree around `root`: every
/// one of them but the root points to an adjacent node, and the edges
/// `tree`, each from a marked node to the node it points to, connect all of
/// them to the root.
spec fn grown(
    graph: &Graph,
    root: int,
    in_tree: Seq<bool>,
    next: Seq<i64>,
    tree: Seq<(int, int)>,
) -> bool {
    let n = graph.node_count();
    &&& in_tree.len() == n
    &&& next.len() == n
    &&& 0 <= root < n
    &&& in_tree[root]
    &&& next[root] == -1
    &&& forall|c: int|
        0 <= c < n && c != root && #[trigger] in_tree[c] ==> 0 <= next[c] < n && graph.adjacent(
            c,
            next[c] as int,
        )
    &&& forall|j: int|
        0 <= j < tree.len() ==> {
            let e = #[trigger] tree[j];
            0 <= e.0 < n && e.0 != root && in_tree[e.0] && e.1 == next[e.0]
        }
    &&& forall|c: int| 0 <= c < n && #[trigger] in_tree[c] ==> connected(tree, c, root)
}

/// Parent pointers that change only outside the tree leave the tree as it
/// is.
proof fn lemma_grown_frame(
    graph: &Graph,
    root: int,
    in_tree: Seq<bool>,
    before: Seq<i64>,
    after: Seq<i64>,
    tree: Seq<(int, int)>,
)
    requires
        grown(graph, root, in_tree, before, tree),
        after.len() == before.len(),
        forall|c: int| 0 <= c < in_tree.len() && #[trigger] in_tree[c] ==> after[c] == before[c],
    ensures
        grown(graph, root, in_tree, after, tree),
{
}

/// One step of the loop-erased walk: when the walk moves from its last
/// node `u` to `v`, the chain is cut back to `v` if it holds `v` already,
/// and extended by `v` otherwise.
proof fn lemma_chain_step(
    graph: &Graph,
    in_tree: Seq<bool>,
    next: Seq<i64>,
    chain: Seq<int>,
    start: int,
    u: int,
    v: int,
) -> (walked: Seq<int>)
    requires
        is_chain(in_tree, next, chain, start, u),
        chain_linked(graph, chain),
        next.len() == in_tree.len(),
        in_tree.len() <= i64::MAX,
        !in_tree[u],
        0 <= v < in_tree.len(),
        v != u,
        graph.adjacent(u, v),
    ensures
        is_chain(in_tree, next.update(u, v as i64), walked, start, v),
        chain_linked(graph, walked),
{
    if chain.contains(v) {
        let k = choose|k: int| 0 <= k < chain.len() && chain[k] == v;
        chain.take(k + 1)
    } else {
        chain.push(v)
    }
}

/// Every node of a chain that ends in the tree is connected to the root,
/// once the links of the chain are among the edges.
proof fn lemma_chain_connected(es: Seq<(int, int)>, chain: Seq<int>, root: int, j: int)
    requires
        0 <= j < chain.len(),
        forall|i: int| 0 <= i < chain.len() - 1 ==> has_edge(es, #[trigger] chain[i], chain[i + 1]),
        connected(es, chain[chain.len() - 1], root),
    ensures
        connected(es, chain[j], root),
    decreases chain.len() - j,
{
    if j < chain.len() - 1 {
        lemma_chain_connected(es, chain, root, j + 1);
        lemma_connected_edge(es, chain[j], chain[j + 1]);
        lemma_connected_trans(es, chain[j], chain[j + 1], root);
    }
}

/// Absorbing a chain that ends in the tree grows the tree by the links of
/// the chain.
proof fn lemma_grow(
    graph: &Graph,
    root: int,
    in_tree: Seq<bool>,
    next: Seq<i64>,
    tree: Seq<(int, int)>,
    chain: Seq<int>,
) -> (bigger: Seq<(int, int)>)
    requires
        graph.wf(),
        grown(graph, root, in_tree, next, tree),
        is_chain(in_tree, next, chain, chain[0], chain[chain.len() - 1]),
        in_tree[chain[chain.len() - 1]],
        chain_linked(graph, chain),
    ensures
        grown(graph, root, absorbed(in_tree, chain), next, bigger),
{
    let n = graph.node_count();
    let last = chain.len() - 1;
    let marked = absorbed(in_tree, chain);
    let bigger = tree + Seq::new(last as nat, |j: int| (chain[j], chain[j + 1]));
    assert forall|a: int, b: int| has_edge(tree, a, b) implies has_edge(bigger, a, b) by {
        let e = if tree.contains((a, b)) {
            (a, b)
        } else {
            (b, a)
        };
        let i = choose|i: int| 0 <= i < tree.len() && tree[i] == e;
        assert(bigger[i] == e);
    }
    assert forall|i: int| 0 <= i < chain.len() - 1 implies has_edge(
        bigger,
        #[trigger] chain[i],
        chain[i + 1],
    ) by {
        assert(bigger[tree.len() + i] == (chain[i], chain[i + 1]));
    }
    assert(connected(bigger, chain[last], root)) by {
        lemma_connected_mono(tree, bigger, chain[last], root);
    }
    assert forall|j: int| 0 <= j < bigger.len() implies {
        let e = #[trigger] bigger[j];
        0 <= e.0 < n && e.0 != root && marked[e.0] && e.1 == next[e.0]
    } by {}
    assert forall|c: int| 0 <= c < n && #[trigger] marked[c] implies connected(bigger, c, root) by {
        if in_tree[c] {
            lemma_connected_mono(tree, bigger, c, root);
        } else {
            let i = choose|i: int| 0 <= i < chain.len() && chain[i] == c;
            lemma_chain_connected(bigger, chain, root, i);
        }
    }
    bigger
}

/// The links of the parent pointers of the nodes below `k`: one for every
/// node but the root, each an edge of the graph.
proof fn lemma_parent_links(graph: &Graph, root: int, next: Seq<i64>, k: int)
    requires
        graph.wf(),
        next.len() == graph.node_count(),
        0 <= root < graph.node_count(),
        next[root] == -1,
        forall|c: int|
            0 <= c < graph.node_count() && c != root ==> 0 <= #[trigger] next[c]
                < graph.node_count() && graph.adjacent(c, next[c] as int),
        0 <= k <= graph.node_count(),
    ensures
        parent_links(next, k).len() == k - if root < k {
            1int
        } else {
            0int
        },
        in_range(graph.node_count(), parent_links(next, k)),
        edges_within(parent_links(next, k), graph.edge_seq()),
        forall|c: int|
            0 <= c < k && c != root ==> has_edge(parent_links(next, k), c, #[trigger] next[c] as int),
    decreases k,
{
    if k > 0 {
        lemma_parent_links(graph, root, next, k - 1);
        let shorter = parent_links(next, k - 1);
        let links = parent_links(next, k);
        let c = k - 1;
        if c != root {
            let e = ordered_pair(c, next[c] as int);
            graph.lemma_adjacent(c, next[c] as int);
            assert forall|d: int| 0 <= d < k && d != root implies has_edge(
                links,
                d,
                #[trigger] next[d] as int,
            ) by {
                lemma_has_edge_push(shorter, e, d, next[d] as int);
            }
        }
    }
}

/// Once every node is in the tree, the links of the parent pointers are a
/// spanning tree of the graph.
proof fn lemma_links_span(
    graph: &Graph,
    root: int,
    in_tree: Seq<bool>,
    next: Seq<i64>,
    tree: Seq<(int, int)>,
)
    requires
        graph.wf(),
        grown(graph, root, in_tree, next, tree),
        forall|c: int| 0 <= c < in_tree.len() ==> in_tree[c],
    ensures
        is_spanning_tree(
            graph.node_count(),
            graph.edge_seq(),
            parent_links(next, graph.node_count() as int),
        ),
{
    let n = graph.node_count();
    let links = parent_links(next, n as int);
    assert forall|c: int| 0 <= c < n && c != root implies 0 <= #[trigger] next[c] < n
        && graph.adjacent(c, next[c] as int) by {
        assert(in_tree[c]);
    }
    lemma_parent_links(graph, root, next, n as int);
    assert forall|u: int, v: int| 0 <= u < n && 0 <= v < n implies connected(links, u, v) by {
        assert(in_tree[u] && in_tree[v]);
        lemma_connected_mono(tree, links, u, root);
        lemma_connected_mono(tree, links, v, root);
        lemma_connected_sym(links, v, root);
        lemma_connected_trans(links, u, root, v);
    }
    lemma_connected_is_forest(n, links);
}

/// A reusable buffer for Wilson's algorithm.
pub struct USTBuffer {
    /// For each node, whether it belongs to the tree grown so far.
    pub in_tree: Vec<bool>,
    /// For each node, the node that the walk left it for, or -1.
    pub next: Vec<i64>,
    /// The positions in the graph's edge list of the edges of the tree.
    pub edges: Vec<usize>,
}

impl USTBuffer {
    /// Whether the buffer is in its initial state for `n` nodes: no node in
    /// the tree, no parent pointers, no edges.
    pub open spec fn is_reset(&self, n: nat) -> bool {
        &&& self.in_tree@ == Seq::new(n, |i: int| false)
        &&& self.next@ == Seq::new(n, |i: int| -1i64)
        &&& self.edges@ == Seq::<usize>::empty()
    }

    /// Creates a buffer for a graph of `n` nodes. For no nodes the buffer
    /// is empty.
    pub fn new(n: usize) -> (buf: USTBuffer)
        ensures
            buf.is_reset(n as nat),
    {
        let mut in_tree: Vec<bool> = Vec::with_capacity(n);
        let mut next: Vec<i64> = Vec::with_capacity(n);
        let mut i: usize = 0;
        while i < n
            invariant
                i <= n,
                in_tree@ == Seq::new(i as nat, |i: int| false),
                next@ == Seq::new(i as nat, |i: int| -1i64),
            decreases n - i,
        {
            in_tree.push(false);
            next.push(-1);
            i += 1;
        }
        let edges: Vec<usize> = Vec::with_capacity(
            if n > 0 {
                n - 1
            } else {
                0
            },
        );
        USTBuffer { in_tree, next, edges }
    }

    /// Resets the buffer. The number of nodes stays.
    pub fn clear(&mut self)
        ensures
            final(self).in_tree@ == Seq::new(old(self).in_tree@.len(), |i: int| false),
            final(self).next@ == Seq::new(old(self).next@.len(), |i: int| -1i64),
            final(self).edges@ == Seq::<usize>::empty(),
    {
        let n: usize = self.in_tree.len();
        let mut i: usize = 0;
        while i < n
            invariant
                i <= n,
                self.in_tree@.len() == n,
                self.next@ == old(self).next@,
                forall|c: int| 0 <= c < i ==> !self.in_tree@[c],
            decreases n - i,
        {
            self.in_tree[i] = false;
            i += 1;
        }
        let m: usize = self.next.len();
        let mut j: usize = 0;
        while j < m
            invariant
                j <= m,
                self.next@.len() == m,
                self.in_tree@.len() == n,
                forall|c: int| 0 <= c < n ==> !self.in_tree@[c],
                forall|c: int| 0 <= c < j ==> self.next@[c] == -1,
            decreases m - j,
        {
            self.next[j] = -1;
            j += 1;
        }
        self.edges.clear();
    }

    /// Moves the walk from node `u` to its neighbor number `pick`, and
    /// records that neighbor as the parent of `u`.
    pub fn advance(&mut self, graph: &Graph, u: usize, pick: usize) -> (v: usize)
        requires
            graph.wf(),
            graph.node_count() <= i64::MAX,
            u < graph.node_count(),
            old(self).next@.len() == graph.node_count(),
            pick < graph.neighbors@[u as int]@.len(),
        ensures
            v == graph.neighbors@[u as int]@[pick as int],
            v < graph.node_count(),
            final(self).next@ == old(self).next@.update(u as int, v as i64),
            final(self).in_tree@ == old(self).in_tree@,
            final(self).edges@ == old(self).edges@,
    {
        let v: usize = graph.neighbors[u][pick];
        proof {
            graph.lemma_adjacent(u as int, v as int);
        }
        self.next[u] = v as i64;
        v
    }

    /// Looks up, for every node with a parent, the edge between the two.
    fn collect_edges(&mut self, graph: &Graph)
        requires
            graph.wf(),
            old(self).next@.len() == graph.node_count(),
            old(self).edges@.len() == 0,
            forall|c: int|
                0 <= c < graph.node_count() && (#[trigger] old(self).next@[c]) >= 0
                    ==> graph.adjacent(c, old(self).next@[c] as int),
        ensures
            final(self).next@ == old(self).next@,
            final(self).in_tree@ == old(self).in_tree@,
            realizes(
                graph,
                final(self).edges@,
                parent_links(final(self).next@, graph.node_count() as int),
            ),
    {
        let n: usize = self.next.len();
        let mut curr: usize = 0;
        while curr < n
            invariant
                graph.wf(),
                n == graph.node_count(),
                curr <= n,
                self.next@.len() == n,
                self.next@ == old(self).next@,
                self.in_tree@ == old(self).in_tree@,
                forall|c: int|
                    0 <= c < n && (#[trigger] self.next@[c]) >= 0 ==> graph.adjacent(
                        c,
                        self.next@[c] as int,
                    ),
                realizes(graph, self.edges@, parent_links(self.next@, curr as int)),
            decreases n - curr,
        {
            let prev: i64 = self.next[curr];
            if prev >= 0 {
                proof {
                    graph.lemma_adjacent(curr as int, prev as int);
                }
                let p: usize = prev as usize;
                let a: usize = if curr < p {
                    curr
                } else {
                    p
                };
                let b: usize = if curr < p {
                    p
                } else {
                    curr
                };
                match graph.find_edge(a, b) {
                    Some(idx) => {
                        self.edges.push(idx);
                    },
                    None => {
                        // A node and its parent are adjacent: the edge is there.
                        assert(false);
                    },
                }
            }
            curr += 1;
        }
    }

    /// Writes the edges found by `collect_edges` into `buf`.
    fn write_tree(
        &self,
        graph: &Graph,
        buf: &mut SpanningTreeBuffer,
        Ghost(links): Ghost<Seq<(int, int)>>,
    )
        requires
            graph.wf(),
            realizes(graph, self.edges@, links),
            old(buf)@.len() == graph.node_count(),
            old(buf)@ == adjacency(graph.node_count(), Seq::empty()),
        ensures
            final(buf)@.len() == graph.node_count(),
            final(buf)@ == adjacency(graph.node_count(), links),
    {
        let ghost n = graph.node_count();
        let count: usize = self.edges.len();
        let mut j: usize = 0;
        while j < count
            invariant
                graph.wf(),
                n == graph.node_count(),
                count == self.edges@.len(),
                realizes(graph, self.edges@, links),
                j <= count,
                buf@.len() == n,
                buf@ == adjacency(n, links.take(j as int)),
            decreases count - j,
        {
            let idx: usize = self.edges[j];
            let edge: Edge = graph.edges[idx];
            buf.add_edge(edge.0, edge.1);
            proof {
                let longer = links.take(j + 1);
                assert(longer.drop_last() == links.take(j as int));
            }
            j += 1;
        }
        assert(links.take(count as int) == links);
    }

    /// Marks the nodes of the walk from `start` to the tree as members of
    /// the tree.
    fn absorb(&mut self, start: usize, Ghost(chain): Ghost<Seq<int>>)
        requires
            old(self).next@.len() == old(self).in_tree@.len(),
            is_chain(
                old(self).in_tree@,
                old(self).next@,
                chain,
                start as int,
                chain[chain.len() - 1],
            ),
            old(self).in_tree@[chain[chain.len() - 1]],
        ensures
            final(self).next@ == old(self).next@,
            final(self).edges@ == old(self).edges@,
            final(self).in_tree@ == absorbed(old(self).in_tree@, chain),
    {
        let ghost before = self.in_tree@;
        let ghost pointers = self.next@;
        let ghost end = chain[chain.len() - 1];
        let ghost mut j: int = 0;
        let n: usize = self.in_tree.len();
        let mut u: usize = start;
        while !self.in_tree[u]
            invariant
                n == before.len(),
                0 <= j < chain.len(),
                u == chain[j],
                self.next@ == pointers,
                self.edges@ == old(self).edges@,
                self.in_tree@.len() == before.len(),
                pointers.len() == before.len(),
                is_chain(before, pointers, chain, start as int, end),
                before[end],
                end == chain[chain.len() - 1],
                forall|c: int|
                    0 <= c < before.len() ==> self.in_tree@[c] == (before[c] || chain.take(
                        j,
                    ).contains(c)),
            decreases chain.len() - j,
        {
            self.in_tree[u] = true;
            u = self.next[u] as usize;
            proof {
                let longer = chain.take(j + 1);
                assert forall|c: int| 0 <= c < before.len() implies self.in_tree@[c] == (before[c]
                    || longer.contains(c)) by {
                    if c == chain[j] {
                        assert(longer[j] == c);
                    }
                }
                j = j + 1;
            }
        }
        proof {
            let shorter = chain.take(j);
            assert forall|c: int| 0 <= c < before.len() implies self.in_tree@[c] == (before[c]
                || chain.contains(c)) by {
                if chain.contains(c) {
                    let i = choose|i: int| 0 <= i < chain.len() && chain[i] == c;
                    if i < j {
                        assert(shorter[i] == c);
                    }
                }
            }
        }
    }
}

/// Whether `next` holds the parent pointers of a tree around `root`: the
/// root has none, and every other node points to a node adjacent to it.
pub open spec fn is_rooted(graph: &Graph, next: Seq<i64>, root: int) -> bool {
    &&& next.len() == graph.node_count()
    &&& 0 <= root < graph.node_count()
    &&& next[root] == -1
    &&& forall|c: int|
        0 <= c < graph.node_count() && c != root ==> 0 <= #[trigger] next[c]
            < graph.node_count() && graph.adjacent(c, next[c] as int)
}

/// The number of steps after which the walks of one call test whether the
/// graph is connected: 64 for every node and every edge.
pub open spec fn probe_point(graph: &Graph) -> int {
    let steps = 64 * (graph.node_count() + graph.edges@.len());
    if steps <= u64::MAX {
        steps as int
    } else {
        u64::MAX as int
    }
}

/// Whether every neighbor of `u` is in the tree, so that one step from `u`
/// ends the walk whatever is drawn.
pub open spec fn leads_into(graph: &Graph, in_tree: Seq<bool>, u: int) -> bool {
    forall|j: int|
        0 <= j < graph.neighbors@[u]@.len() ==> in_tree[#[trigger] graph.neighbors@[u]@[j] as int]
}

/// Computes `probe_point`.
fn probe_steps(graph: &Graph) -> (steps: u64)
    ensures
        steps == probe_point(graph),
{
    let nodes: u128 = graph.neighbors.len() as u128;
    let edges: u128 = graph.edges.len() as u128;
    let total: u128 = 64 * (nodes + edges);
    if total <= 0xffff_ffff_ffff_ffffu128 {
        total as u64
    } else {
        u64::MAX
    }
}

/// What the walk at node `u` does next, after `steps` steps of `limit`: it
/// gives up at the limit, fails at a node without neighbors, which no
/// spanning tree can reach, and at a node with more than 256 neighbors,
/// among which the reservoir of random bytes cannot choose; else it draws
/// one of the neighbors of `u`, and the result is their number.
pub fn next_choice(graph: &Graph, u: usize, steps: u64, limit: u64) -> (r: Result<
    u16,
    SampleError,
>)
    requires
        u < graph.node_count(),
    ensures
        r == (if steps >= limit {
            Err::<u16, SampleError>(SampleError::StepLimit)
        } else if graph.neighbors@[u as int]@.len() == 0 {
            Err::<u16, SampleError>(SampleError::Disconnected)
        } else if graph.neighbors@[u as int]@.len() > 256 {
            Err::<u16, SampleError>(SampleError::DegreeLimit)
        } else {
            Ok::<u16, SampleError>(graph.neighbors@[u as int]@.len() as u16)
        }),
{
    if steps >= limit {
        return Err(SampleError::StepLimit);
    }
    let degree: usize = graph.neighbors[u].len();
    if degree == 0 {
        Err(SampleError::Disconnected)
    } else if degree > 256 {
        Err(SampleError::DegreeLimit)
    } else {
        Ok(degree as u16)
    }
}

/// Samples random spanning trees from the uniform distribution.
///
/// The random walks of one call take at most `step_limit` steps in all;
/// a call that would need more gives up. On a connected graph a walk reaches
/// the tree with probability one, but no number of steps bounds it. On a
/// graph that is not connected a walk may never reach the tree: when the
/// walks of one call have taken `probe_point` steps, the graph is tested
/// once, and the call fails if it is not connected.
pub struct USTSampler {
    /// A buffer for Wilson's algorithm.
    ust_buf: USTBuffer,
    /// A reservoir of random bytes, for choosing among neighbors.
    range_buf: RandomRangeBuffer,
    /// The number of steps that the walks of one call may take.
    step_limit: u64,
    /// The number of steps that the walks of the last call took.
    steps: u64,
}

impl USTSampler {
    /// The number of steps that the walks of one call may take.
    pub closed spec fn limit(&self) -> u64 {
        self.step_limit
    }

    /// The number of steps that the walks of the last call took.
    pub closed spec fn steps(&self) -> u64 {
        self.steps
    }

    /// For every node, the node that the last walk left it for, or -1: after
    /// a successful call, its parent in the tree.
    pub closed spec fn parents(&self) -> Seq<i64> {
        self.ust_buf.next@
    }

    /// The tree of the last successful call: the links between every node
    /// and its parent, in ascending order of the nodes.
    pub open spec fn tree(&self) -> Seq<(int, int)> {
        parent_links(self.parents(), self.parents().len() as int)
    }

    /// Whether the sampler is as `new` makes it for `n` nodes: its working
    /// buffer reset, and no step taken.
    pub closed spec fn is_reset(&self, n: nat) -> bool {
        self.ust_buf.is_reset(n) && self.steps == 0
    }

    /// Creates a sampler for graphs of about `n` nodes, with no limit on
    /// the steps of a walk short of `u64::MAX`. The reservoir of random
    /// bytes is filled from `rng`.
    pub fn new(n: usize, rng: &mut SmallRng) -> (sampler: USTSampler)
        ensures
            sampler.wf(),
            sampler.is_reset(n as nat),
            sampler.limit() == u64::MAX,
            sampler.steps() == 0,
            sampler.parents() == Seq::new(n as nat, |i: int| -1i64),
    {
        USTSampler {
            ust_buf: USTBuffer::new(n),
            range_buf: RandomRangeBuffer::new(rng),
            step_limit: u64::MAX,
            steps: 0,
        }
    }

    /// The number of steps that the walks of one call may take.
    pub fn step_limit(&self) -> (limit: u64)
        ensures
            limit == self.limit(),
    {
        self.step_limit
    }

    /// The number of steps that the walks of the last call took.
    pub fn steps_taken(&self) -> (steps: u64)
        ensures
            steps == self.steps(),
    {
        self.steps
    }

    /// Sets the number of steps that the walks of one call may take.
    pub fn set_step_limit(&mut self, limit: u64)
        requires
            old(self).wf(),
        ensures
            final(self).wf(),
            final(self).limit() == limit,
            final(self).steps() == old(self).steps(),
            final(self).parents() == old(self).parents(),
            forall|n: nat| old(self).is_reset(n) ==> final(self).is_reset(n),
    {
        self.step_limit = limit;
    }

    /// Walks at random from `start` until the walk meets the tree, erasing
    /// the loops of the walk as they close. Returns whether the graph has
    /// been tested for being connected, and the walk that is left.
    fn random_walk(
        &mut self,
        graph: &Graph,
        rng: &mut SmallRng,
        start: usize,
        tested: bool,
        Ghost(root): Ghost<int>,
    ) -> (r: Result<(bool, Ghost<Seq<int>>), SampleError>)
        requires
            graph.wf(),
            0 < graph.node_count() <= u32::MAX,
            old(self).range_buf.wf(),
            old(self).ust_buf.in_tree@.len() == graph.node_count(),
            old(self).ust_buf.next@.len() == graph.node_count(),
            start < graph.node_count(),
            0 <= root < graph.node_count(),
            old(self).ust_buf.in_tree@[root],
            old(self).steps <= old(self).step_limit,
            tested ==> graph.is_connected(),
            !tested ==> old(self).steps <= probe_point(graph),
        ensures
            final(self).range_buf.wf(),
            final(self).step_limit == old(self).step_limit,
            final(self).ust_buf.in_tree@ == old(self).ust_buf.in_tree@,
            final(self).ust_buf.edges@ == old(self).ust_buf.edges@,
            final(self).ust_buf.next@.len() == old(self).ust_buf.next@.len(),
            forall|c: int|
                0 <= c < graph.node_count() && #[trigger] old(self).ust_buf.in_tree@[c]
                    ==> final(self).ust_buf.next@[c] == old(self).ust_buf.next@[c],
            old(self).steps <= final(self).steps <= old(self).step_limit,
            old(self).ust_buf.in_tree@[start as int] ==> r is Ok && final(self).steps == old(
                self,
            ).steps,
            !old(self).ust_buf.in_tree@[start as int] && leads_into(
                graph,
                old(self).ust_buf.in_tree@,
                start as int,
            ) && graph.is_connected() && graph.neighbors@[start as int]@.len() <= 256 && old(
                self,
            ).steps < old(self).step_limit ==> r is Ok && final(self).steps == old(self).steps
                + 1,
            match r {
                Ok((now, chain)) => {
                    &&& is_chain(
                        final(self).ust_buf.in_tree@,
                        final(self).ust_buf.next@,
                        chain@,
                        start as int,
                        chain@[chain@.len() - 1],
                    )
                    &&& final(self).ust_buf.in_tree@[chain@[chain@.len() - 1]]
                    &&& chain_linked(graph, chain@)
                    &&& now ==> graph.is_connected()
                    &&& !now ==> final(self).steps <= probe_point(graph)
                },
                Err(e) => {
                    &&& e == SampleError::Disconnected || e == SampleError::DegreeLimit || e
                        == SampleError::StepLimit
                    &&& e == SampleError::Disconnected ==> !graph.is_connected()
                    &&& e == SampleError::DegreeLimit ==> exists|u: int|
                        0 <= u < graph.node_count() && (#[trigger] graph.neighbors@[u])@.len()
                            > 256
                    &&& e == SampleError::StepLimit ==> final(self).steps == old(self).step_limit
                        && (graph.is_connected() || old(self).step_limit <= probe_point(graph))
                },
            },
    {
        let ghost n = graph.node_count();
        let ghost mut chain: Seq<int> = seq![start as int];
        let ghost easy = leads_into(graph, self.ust_buf.in_tree@, start as int)
            && graph.is_connected() && graph.neighbors@[start as int]@.len() <= 256 && self.steps
            < self.step_limit;
        let probe: u64 = probe_steps(graph);
        let mut now: bool = tested;
        let mut u: usize = start;
        while !self.ust_buf.in_tree[u]
            invariant
                graph.wf(),
                n == graph.node_count(),
                0 < n <= u32::MAX,
                probe == probe_point(graph),
                0 <= root < n,
                self.range_buf.wf(),
                self.step_limit == old(self).step_limit,
                self.ust_buf.in_tree@ == old(self).ust_buf.in_tree@,
                self.ust_buf.in_tree@[root],
                self.ust_buf.edges@ == old(self).ust_buf.edges@,
                self.ust_buf.in_tree@.len() == n,
                self.ust_buf.next@.len() == n,
                old(self).ust_buf.next@.len() == n,
                forall|c: int|
                    0 <= c < n && #[trigger] old(self).ust_buf.in_tree@[c]
                        ==> self.ust_buf.next@[c] == old(self).ust_buf.next@[c],
                old(self).steps <= self.steps <= self.step_limit,
                now ==> graph.is_connected(),
                !now ==> self.steps <= probe,
                easy == (leads_into(graph, self.ust_buf.in_tree@, start as int)
                    && graph.is_connected() && graph.neighbors@[start as int]@.len() <= 256
                    && old(self).steps < old(self).step_limit),
                self.steps == old(self).steps ==> u == start,
                self.steps > old(self).steps ==> !self.ust_buf.in_tree@[start as int],
                self.steps > old(self).steps && easy ==> self.ust_buf.in_tree@[u as int]
                    && self.steps == old(self).steps + 1,
                u < n,
                is_chain(self.ust_buf.in_tree@, self.ust_buf.next@, chain, start as int, u as int),
                chain_linked(graph, chain),
            decreases self.step_limit - self.steps,
        {
            let degree: u16 = match next_choice(graph, u, self.steps, self.step_limit) {
                Ok(degree) => degree,
                Err(e) => {
                    proof {
                        if graph.neighbors@[u as int]@.len() == 0 {
                            graph.lemma_isolated(u as int, root);
                        }
                    }
                    return Err(e);
                },
            };
            if !now && self.steps >= probe {
                if !is_connected_graph(graph) {
                    return Err(SampleError::Disconnected);
                }
                now = true;
            }
            self.steps += 1;
            let pick: usize = self.range_buf.range(rng, degree) as usize;
            let ghost pointers = self.ust_buf.next@;
            let v: usize = self.ust_buf.advance(graph, u, pick);
            proof {
                graph.lemma_adjacent(u as int, v as int);
                chain = lemma_chain_step(
                    graph,
                    self.ust_buf.in_tree@,
                    pointers,
                    chain,
                    start as int,
                    u as int,
                    v as int,
                );
            }
            u = v;
        }
        Ok((now, Ghost(chain)))
    }
}

impl SpanningTreeSampler for USTSampler {
    /// The reservoir of random bytes is in order.
    closed spec fn wf(&self) -> bool {
        self.range_buf.wf()
    }

    /// Draws a random spanning tree of `graph` from the uniform
    /// distribution, by Wilson's algorithm, and writes it into `buf`.
    ///
    /// A root is chosen at random. Then, from every node in turn that is
    /// not yet in the tree, a random walk runs until it meets the tree; the
    /// loops of the walk are erased, and what is left joins the tree. The
    /// edges of the tree are written in ascending order of the nodes that
    /// they lead from.
    ///
    /// Sampling fails when a walk comes to a node without neighbors, which
    /// no spanning tree can reach, or to one with more than 256 neighbors,
    /// among which the reservoir of random bytes cannot choose; when the
    /// walks have taken `probe_point` steps and the graph proves not to be
    /// connected; and when the walks would take more steps than the sampler
    /// allows. On two nodes joined by an edge the one step of the walk is
    /// forced, and sampling succeeds.
    fn random_spanning_tree(
        &mut self,
        graph: &Graph,
        buf: &mut SpanningTreeBuffer,
        rng: &mut SmallRng,
    ) -> (r: Result<(), SampleError>)
        ensures
            final(self).limit() == old(self).limit(),
            final(self).steps() <= old(self).limit(),
            r is Ok ==> is_spanning_tree(
                graph.node_count(),
                graph.edge_seq(),
                final(self).tree(),
            ) && final(buf)@ == adjacency(graph.node_count(), final(self).tree()),
            r is Ok ==> exists|root: int| is_rooted(graph, final(self).parents(), root),
            r == Err::<(), SampleError>(SampleError::DegreeLimit) ==> exists|u: int|
                0 <= u < graph.node_count() && (#[trigger] graph.neighbors@[u])@.len() > 256,
            r == Err::<(), SampleError>(SampleError::StepLimit) ==> final(self).steps() == old(
                self,
            ).limit() && (graph.is_connected() || old(self).limit() <= probe_point(graph)),
            graph.node_count() == 2 && graph.is_connected() && old(self).limit() >= 1
                && graph.neighbors@[0]@.len() <= 256 && graph.neighbors@[1]@.len() <= 256
                ==> r is Ok,
    {
        buf.clear();
        self.steps = 0;
        let n: usize = graph.neighbors.len();
        if n == 0 {
            return Err(SampleError::NoNodes);
        }
        if n as u64 > 0xffff_ffffu64 {
            return Err(SampleError::TooManyNodes);
        }
        if self.ust_buf.in_tree.len() == n && self.ust_buf.next.len() == n {
            self.ust_buf.clear();
        } else {
            self.ust_buf = USTBuffer::new(n);
        }
        let root: usize = below(rng, n);
        self.ust_buf.in_tree[root] = true;
        let ghost mut tree: Seq<(int, int)> = Seq::empty();
        let ghost forced = n == 2 && graph.is_connected() && self.step_limit >= 1
            && graph.neighbors@[0]@.len() <= 256 && graph.neighbors@[1]@.len() <= 256;
        proof {
            lemma_connected_refl(tree, root as int);
        }
        let mut tested: bool = false;
        let mut i: usize = 0;
        while i < n
            invariant
                graph.wf(),
                n == graph.node_count(),
                0 < n <= u32::MAX,
                i <= n,
                root < n,
                self.range_buf.wf(),
                self.step_limit == old(self).step_limit,
                self.steps <= self.step_limit,
                tested ==> graph.is_connected(),
                !tested ==> self.steps <= probe_point(graph),
                forced == (n == 2 && graph.is_connected() && self.step_limit >= 1
                    && graph.neighbors@[0]@.len() <= 256 && graph.neighbors@[1]@.len() <= 256),
                forced ==> self.steps == 0 || forall|c: int|
                    0 <= c < n ==> self.ust_buf.in_tree@[c],
                self.ust_buf.edges@.len() == 0,
                buf@.len() == n,
                buf@ == adjacency(n as nat, Seq::empty()),
                grown(graph, root as int, self.ust_buf.in_tree@, self.ust_buf.next@, tree),
                forall|c: int| 0 <= c < i ==> self.ust_buf.in_tree@[c],
            decreases n - i,
        {
            let ghost marked = self.ust_buf.in_tree@;
            let ghost pointers = self.ust_buf.next@;
            proof {
                if forced && !marked[i as int] {
                    assert forall|j: int| 0 <= j < graph.neighbors@[i as int]@.len() implies marked[
                    #[trigger] graph.neighbors@[i as int]@[j] as int] by {
                        graph.lemma_adjacent(i as int, graph.neighbors@[i as int]@[j] as int);
                    }
                }
            }
            match self.random_walk(graph, rng, i, tested, Ghost(root as int)) {
                Err(e) => {
                    return Err(e);
                },
                Ok((now, chain)) => {
                    tested = now;
                    proof {
                        lemma_grown_frame(
                            graph,
                            root as int,
                            marked,
                            pointers,
                            self.ust_buf.next@,
                            tree,
                        );
                    }
                    self.ust_buf.absorb(i, chain);
                    proof {
                        tree = lemma_grow(
                            graph,
                            root as int,
                            marked,
                            self.ust_buf.next@,
                            tree,
                            chain@,
                        );
                        assert(chain@.contains(chain@[0]));
                    }
                },
            }
            i += 1;
        }
        proof {
            assert forall|c: int|
                0 <= c < n && (#[trigger] self.ust_buf.next@[c]) >= 0 implies graph.adjacent(
                c,
                self.ust_buf.next@[c] as int,
            ) by {
                assert(self.ust_buf.in_tree@[c]);
            }
        }
        self.ust_buf.collect_edges(graph);
        let ghost links = parent_links(self.ust_buf.next@, n as int);
        self.ust_buf.write_tree(graph, buf, Ghost(links));
        proof {
            lemma_links_span(
                graph,
                root as int,
                self.ust_buf.in_tree@,
                self.ust_buf.next@,
                tree,
            );
            lemma_spanning_tree_connects(n as nat, graph.edge_seq(), links);
            assert(is_rooted(graph, self.parents(), root as int)) by {
                assert forall|c: int| 0 <= c < n && c != root implies 0
                    <= #[trigger] self.ust_buf.next@[c] < n && graph.adjacent(
                    c,
                    self.ust_buf.next@[c] as int,
                ) by {
                    assert(self.ust_buf.in_tree@[c]);
                }
            }
        }
        Ok(())
    }
}

} // verus!
