//! The graph that the samplers read: a sorted edge list with per-node
//! offsets, and per-node neighbor lists.
use vstd::prelude::*;

use crate::buffers::{adjacency, SpanningTreeBuffer};
use crate::connectivity::{all_connected, connected, has_edge, joins, ordered_pair, step};
use crate::tree_laws::lemma_adjacency_contains;

verus! {

/// An undirected edge `(src, dst)`, stored with `src < dst`.
#[derive(Clone, Copy, Debug, PartialEq, Eq, Structural)]
pub struct Edge(pub usize, pub usize);

/// An undirected graph on the nodes `0..n`, where `n` is the number of
/// neighbor lists.
pub struct Graph {
    /// For each node, the nodes adjacent to it.
    pub neighbors: Vec<Vec<usize>>,
    /// Every edge once, as `(src, dst)` with `src < dst`, in ascending order
    /// by `src` and then by `dst`.
    pub edges: Vec<Edge>,
    /// For each node `u`, the number of edges whose `src` is below `u`: the
    /// position in `edges` where the edges with `src == u` begin.
    pub edges_start: Vec<usize>,
}

/// Strict lexicographic order on edges.
pub open spec fn edge_before(a: Edge, b: Edge) -> bool {
    a.0 < b.0 || (a.0 == b.0 && a.1 < b.1)
}

/// Whether `edges` can be the edge list of a graph on `n` nodes: every
/// edge joins two distinct nodes below `n`, smaller one first, and the list
/// is strictly ascending.
pub open spec fn is_edge_list(n: nat, edges: Seq<Edge>) -> bool {
    &&& forall|i: int| 0 <= i < edges.len() ==> (#[trigger] edges[i]).0 < edges[i].1 < n
    &&& forall|i: int, j: int|
        0 <= i < j < edges.len() ==> edge_before(#[trigger] edges[i], #[trigger] edges[j])
}

impl Graph {
    /// The number of nodes.
    pub open spec fn node_count(&self) -> nat {
        self.neighbors@.len()
    }

    /// The edge list as pairs of integers.
    pub open spec fn edge_seq(&self) -> Seq<(int, int)> {
        Seq::new(self.edges@.len(), |i: int| (self.edges@[i].0 as int, self.edges@[i].1 as int))
    }

    /// Whether `u` and `v` are joined by an edge.
    pub open spec fn adjacent(&self, u: int, v: int) -> bool {
        has_edge(self.edge_seq(), u, v)
    }

    /// Every edge joins two distinct nodes of the graph, smaller one first.
    pub open spec fn edges_in_range(&self) -> bool {
        forall|i: int|
            0 <= i < self.edges@.len() ==> (#[trigger] self.edges@[i]).0 < self.edges@[i].1
                < self.neighbors@.len()
    }

    /// The edge list is strictly ascending, hence free of duplicates.
    pub open spec fn edges_sorted(&self) -> bool {
        forall|i: int, j: int|
            0 <= i < j < self.edges@.len() ==> edge_before(
                #[trigger] self.edges@[i],
                #[trigger] self.edges@[j],
            )
    }

    /// `edges_start[u]` splits the edge list into the edges with `src < u`
    /// and the rest.
    pub open spec fn offsets_consistent(&self) -> bool {
        &&& self.edges_start@.len() == self.neighbors@.len()
        &&& forall|u: int|
            0 <= u < self.edges_start@.len() ==> (#[trigger] self.edges_start@[u])
                <= self.edges@.len()
        &&& forall|u: int, i: int|
            0 <= u < self.edges_start@.len() && 0 <= i < self.edges@.len() ==> ((
            #[trigger] self.edges@[i]).0 < u <==> i < #[trigger] self.edges_start@[u])
    }

    /// The neighbor lists hold exactly the adjacent nodes.
    pub open spec fn neighbors_consistent(&self) -> bool {
        &&& forall|u: int, j: int|
            0 <= u < self.neighbors@.len() && 0 <= j < self.neighbors@[u]@.len() ==> self.adjacent(
                u,
                #[trigger] self.neighbors@[u]@[j] as int,
            )
        &&& forall|i: int|
            0 <= i < self.edges@.len() ==> {
                let e = #[trigger] self.edges@[i];
                &&& self.neighbors@[e.0 as int]@.contains(e.1)
                &&& self.neighbors@[e.1 as int]@.contains(e.0)
            }
    }

    /// The invariant of the edge list and its offsets.
    pub open spec fn edges_wf(&self) -> bool {
        &&& self.edges_in_range()
        &&& self.edges_sorted()
        &&& self.offsets_consistent()
    }

    /// The invariant that the samplers rely on.
    pub open spec fn wf(&self) -> bool {
        &&& self.edges_wf()
        &&& self.neighbors_consistent()
    }

    /// Whether a path of edges leads from every node to every other.
    pub open spec fn is_connected(&self) -> bool {
        all_connected(self.node_count(), self.edge_seq())
    }

    /// Adjacent nodes are two distinct nodes of the graph, and the edge list
    /// holds them as a pair with the smaller one first.
    pub proof fn lemma_adjacent(&self, u: int, v: int)
        requires
            self.edges_in_range(),
            self.adjacent(u, v),
        ensures
            0 <= u < self.node_count(),
            0 <= v < self.node_count(),
            u != v,
            self.edge_seq().contains(ordered_pair(u, v)),
    {
    }

    /// A node without neighbors is connected to no other node.
    pub proof fn lemma_isolated(&self, u: int, v: int)
        requires
            self.wf(),
            0 <= u < self.node_count(),
            self.neighbors@[u]@.len() == 0,
            u != v,
        ensures
            !connected(self.edge_seq(), u, v),
    {
        let es = self.edge_seq();
        if connected(es, u, v) {
            let p = choose|p: Seq<int>| joins(es, p, u, v);
            assert(step(es, p, 0));
        }
    }

    /// The position of the edge `(a, b)` in the edge list, if the graph has
    /// that edge.
    pub fn find_edge(&self, a: usize, b: usize) -> (r: Option<usize>)
        requires
            self.edges_wf(),
            a < self.node_count(),
        ensures
            match r {
                Some(i) => i < self.edges@.len() && self.edges@[i as int] == Edge(a, b),
                None => forall|i: int| 0 <= i < self.edges@.len() ==> self.edges@[i] != Edge(a, b),
            },
    {
        let start: usize = self.edges_start[a];
        let mut idx: usize = start;
        while idx < self.edges.len() && self.edges[idx].0 == a
            invariant
                self.edges_wf(),
                a < self.node_count(),
                start == self.edges_start@[a as int],
                start <= idx <= self.edges@.len(),
                forall|i: int| start <= i < idx ==> self.edges@[i] != Edge(a, b),
            decreases self.edges@.len() - idx,
        {
            if self.edges[idx].1 == b {
                return Some(idx);
            }
            idx += 1;
        }
        None
    }

    /// Whether `u` and `v` are joined by an edge.
    pub fn is_adjacent(&self, u: usize, v: usize) -> (b: bool)
        requires
            self.edges_wf(),
        ensures
            b == self.adjacent(u as int, v as int),
    {
        let n: usize = self.neighbors.len();
        if u == v || u >= n || v >= n {
            proof {
                if self.adjacent(u as int, v as int) {
                    self.lemma_adjacent(u as int, v as int);
                }
            }
            return false;
        }
        let a: usize = if u < v {
            u
        } else {
            v
        };
        let b: usize = if u < v {
            v
        } else {
            u
        };
        match self.find_edge(a, b) {
            Some(i) => {
                assert(self.edge_seq()[i as int] == (a as int, b as int));
                true
            },
            None => {
                proof {
                    if self.adjacent(u as int, v as int) {
                        self.lemma_adjacent(u as int, v as int);
                    }
                }
                false
            },
        }
    }

    /// Whether every edge joins two distinct nodes of the graph, smaller one
    /// first.
    fn check_edges_in_range(&self) -> (ok: bool)
        ensures
            ok == self.edges_in_range(),
    {
        let n: usize = self.neighbors.len();
        let m: usize = self.edges.len();
        let mut i: usize = 0;
        while i < m
            invariant
                n == self.neighbors@.len(),
                m == self.edges@.len(),
                i <= m,
                forall|k: int| 0 <= k < i ==> (#[trigger] self.edges@[k]).0 < self.edges@[k].1 < n,
            decreases m - i,
        {
            let edge: Edge = self.edges[i];
            if !(edge.0 < edge.1 && edge.1 < n) {
                return false;
            }
            i += 1;
        }
        true
    }

    /// Whether the edge list is strictly ascending.
    fn check_edges_sorted(&self) -> (ok: bool)
        ensures
            ok == self.edges_sorted(),
    {
        let m: usize = self.edges.len();
        if m == 0 {
            return true;
        }
        let mut i: usize = 1;
        while i < m
            invariant
                m == self.edges@.len(),
                1 <= i <= m,
                forall|a: int, b: int|
                    0 <= a < b < i ==> edge_before(
                        #[trigger] self.edges@[a],
                        #[trigger] self.edges@[b],
                    ),
            decreases m - i,
        {
            let before: Edge = self.edges[i - 1];
            let after: Edge = self.edges[i];
            if !(before.0 < after.0 || (before.0 == after.0 && before.1 < after.1)) {
                return false;
            }
            i += 1;
        }
        true
    }

    /// Whether the offsets split the edge list as they should.
    fn check_offsets(&self) -> (ok: bool)
        requires
            self.edges_sorted(),
        ensures
            ok == self.offsets_consistent(),
    {
        let n: usize = self.neighbors.len();
        let m: usize = self.edges.len();
        if self.edges_start.len() != n {
            return false;
        }
        let mut u: usize = 0;
        while u < n
            invariant
                self.edges_sorted(),
                n == self.neighbors@.len(),
                n == self.edges_start@.len(),
                m == self.edges@.len(),
                u <= n,
                forall|w: int| 0 <= w < u ==> (#[trigger] self.edges_start@[w]) <= m,
                forall|w: int, i: int|
                    0 <= w < u && 0 <= i < m ==> ((#[trigger] self.edges@[i]).0 < w <==> i
                        < #[trigger] self.edges_start@[w]),
            decreases n - u,
        {
            let s: usize = self.edges_start[u];
            if s > m {
                return false;
            }
            if s > 0 && self.edges[s - 1].0 >= u {
                return false;
            }
            if s < m && self.edges[s].0 < u {
                return false;
            }
            u += 1;
        }
        true
    }

    /// Whether the neighbor lists hold adjacent nodes only.
    fn check_neighbors_adjacent(&self) -> (ok: bool)
        requires
            self.edges_wf(),
        ensures
            ok == (forall|u: int, j: int|
                0 <= u < self.neighbors@.len() && 0 <= j < self.neighbors@[u]@.len()
                    ==> self.adjacent(u, #[trigger] self.neighbors@[u]@[j] as int)),
    {
        let n: usize = self.neighbors.len();
        let mut u: usize = 0;
        while u < n
            invariant
                self.edges_wf(),
                n == self.neighbors@.len(),
                u <= n,
                forall|w: int, j: int|
                    0 <= w < u && 0 <= j < self.neighbors@[w]@.len() ==> self.adjacent(
                        w,
                        #[trigger] self.neighbors@[w]@[j] as int,
                    ),
            decreases n - u,
        {
            let degree: usize = self.neighbors[u].len();
            let mut j: usize = 0;
            while j < degree
                invariant
                    self.edges_wf(),
                    n == self.neighbors@.len(),
                    u < n,
                    degree == self.neighbors@[u as int]@.len(),
                    j <= degree,
                    forall|k: int|
                        0 <= k < j ==> self.adjacent(
                            u as int,
                            #[trigger] self.neighbors@[u as int]@[k] as int,
                        ),
                decreases degree - j,
            {
                if !self.is_adjacent(u, self.neighbors[u][j]) {
                    return false;
                }
                j += 1;
            }
            u += 1;
        }
        true
    }

    /// Whether every edge is listed among the neighbors of both its ends.
    fn check_edges_listed(&self) -> (ok: bool)
        requires
            self.edges_in_range(),
        ensures
            ok == (forall|i: int|
                0 <= i < self.edges@.len() ==> {
                    let e = #[trigger] self.edges@[i];
                    &&& self.neighbors@[e.0 as int]@.contains(e.1)
                    &&& self.neighbors@[e.1 as int]@.contains(e.0)
                }),
    {
        let m: usize = self.edges.len();
        let mut i: usize = 0;
        while i < m
            invariant
                self.edges_in_range(),
                m == self.edges@.len(),
                i <= m,
                forall|k: int|
                    0 <= k < i ==> {
                        let e = #[trigger] self.edges@[k];
                        &&& self.neighbors@[e.0 as int]@.contains(e.1)
                        &&& self.neighbors@[e.1 as int]@.contains(e.0)
                    },
            decreases m - i,
        {
            let edge: Edge = self.edges[i];
            if !list_contains(&self.neighbors[edge.0], edge.1) {
                return false;
            }
            if !list_contains(&self.neighbors[edge.1], edge.0) {
                return false;
            }
            i += 1;
        }
        true
    }

    /// The neighbor lists as sequences of integers.
    pub open spec fn neighbor_lists(&self) -> Seq<Seq<int>> {
        Seq::new(
            self.neighbors@.len(),
            |u: int| Seq::new(self.neighbors@[u]@.len(), |j: int| self.neighbors@[u]@[j] as int),
        )
    }

    /// Builds the graph on the nodes `0..n` with the given edges, if they
    /// make an edge list. The neighbors of a node are listed in the order of
    /// the edges that join them to it.
    pub fn from_edges(n: usize, edges: Vec<Edge>) -> (r: Option<Graph>)
        ensures
            r is Some <==> is_edge_list(n as nat, edges@),
            r matches Some(g) ==> {
                &&& g.wf()
                &&& g.node_count() == n
                &&& g.edges@ == edges@
                &&& g.neighbor_lists() == adjacency(n as nat, g.edge_seq())
            },
    {
        let ghost listed = edges@;
        let blank = SpanningTreeBuffer::new(n);
        let draft = Graph { neighbors: blank.st, edges, edges_start: Vec::new() };
        if !(draft.check_edges_in_range() && draft.check_edges_sorted()) {
            return None;
        }
        let m: usize = draft.edges.len();
        let mut starts: Vec<usize> = Vec::with_capacity(n);
        let mut i: usize = 0;
        let mut u: usize = 0;
        while u < n
            invariant
                draft.edges_sorted(),
                m == draft.edges@.len(),
                u <= n,
                i <= m,
                starts@.len() == u,
                forall|k: int| 0 <= k < i ==> (#[trigger] draft.edges@[k]).0 < u,
                forall|w: int| 0 <= w < u ==> (#[trigger] starts@[w]) <= m,
                forall|w: int, k: int|
                    0 <= w < u && 0 <= k < m ==> ((#[trigger] draft.edges@[k]).0 < w <==> k
                        < #[trigger] starts@[w]),
            decreases n - u,
        {
            while i < m && draft.edges[i].0 < u
                invariant
                    m == draft.edges@.len(),
                    i <= m,
                    forall|k: int| 0 <= k < i ==> (#[trigger] draft.edges@[k]).0 < u,
                decreases m - i,
            {
                i += 1;
            }
            starts.push(i);
            u += 1;
        }
        let Graph { neighbors, edges, edges_start: _ } = draft;
        let mut lists = SpanningTreeBuffer { st: neighbors };
        let ghost es = Seq::new(listed.len(), |i: int| (listed[i].0 as int, listed[i].1 as int));
        let mut j: usize = 0;
        while j < m
            invariant
                m == edges@.len(),
                edges@ == listed,
                is_edge_list(n as nat, listed),
                es == Seq::new(listed.len(), |i: int| (listed[i].0 as int, listed[i].1 as int)),
                j <= m,
                lists@.len() == n,
                lists@ == adjacency(n as nat, es.take(j as int)),
            decreases m - j,
        {
            let edge: Edge = edges[j];
            lists.add_edge(edge.0, edge.1);
            proof {
                let longer = es.take(j + 1);
                assert(longer.drop_last() == es.take(j as int));
            }
            j += 1;
        }
        assert(es.take(m as int) == es);
        let graph = Graph { neighbors: lists.st, edges, edges_start: starts };
        proof {
            assert forall|u: int, j: int|
                0 <= u < graph.neighbors@.len() && 0 <= j < graph.neighbors@[u]@.len()
                    implies graph.adjacent(u, #[trigger] graph.neighbors@[u]@[j] as int) by {
                let v = graph.neighbors@[u]@[j] as int;
                assert(lists@[u][j] == v);
                lemma_adjacency_contains(n as nat, es, u, v);
            }
            assert forall|i: int| 0 <= i < graph.edges@.len() implies {
                let e = #[trigger] graph.edges@[i];
                &&& graph.neighbors@[e.0 as int]@.contains(e.1)
                &&& graph.neighbors@[e.1 as int]@.contains(e.0)
            } by {
                let e = graph.edges@[i];
                let a = e.0 as int;
                let b = e.1 as int;
                assert(es[i] == (a, b));
                lemma_adjacency_contains(n as nat, es, a, b);
                lemma_adjacency_contains(n as nat, es, b, a);
            }
        }
        Some(graph)
    }

    /// Whether the graph meets its invariant.
    pub fn is_well_formed(&self) -> (ok: bool)
        ensures
            ok == self.wf(),
    {
        self.check_edges_in_range() && self.check_edges_sorted() && self.check_offsets()
            && self.check_neighbors_adjacent() && self.check_edges_listed()
    }
}

/// Whether `list` holds `v`.
fn list_contains(list: &Vec<usize>, v: usize) -> (found: bool)
    ensures
        found == list@.contains(v),
{
    let mut j: usize = 0;
    while j < list.len()
        invariant
            j <= list@.len(),
            forall|k: int| 0 <= k < j ==> list@[k] != v,
        decreases list@.len() - j,
    {
        if list[j] == v {
            return true;
        }
        j += 1;
    }
    false
}

} // verus!
