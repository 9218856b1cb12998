//! Counting connected components.
//!
//! Every node gets a label, the least node of its component; adding an
//! edge renames the larger of two labels to the smaller. Counting the
//! labels shows that a graph on `n` nodes with `n - 1` edges is connected
//! exactly when it is a forest.
use vstd::prelude::*;

use crate::connectivity::{
    all_connected, connected, in_range, is_forest, joins, lemma_connected_push,
    lemma_connected_refl, lemma_in_range_drop_last, step,
};

verus! {

/// The labels `l` with every `from` replaced by `to`.
pub open spec fn relabel(l: Seq<int>, from: int, to: int) -> Seq<int> {
    Seq::new(
        l.len(),
        |i: int|
            if l[i] == from {
                to
            } else {
                l[i]
            },
    )
}

/// The component labels of the nodes `0..n` under the edges `es`.
pub open spec fn labels(n: nat, es: Seq<(int, int)>) -> Seq<int>
    decreases es.len(),
{
    if es.len() == 0 {
        Seq::new(n, |i: int| i)
    } else {
        let l = labels(n, es.drop_last());
        let a = l[es.last().0];
        let b = l[es.last().1];
        if a <= b {
            relabel(l, b, a)
        } else {
            relabel(l, a, b)
        }
    }
}

/// Labels are nodes, no node lies below its label, and the label of a
/// label is itself.
pub open spec fn rooted(n: nat, l: Seq<int>) -> bool {
    &&& l.len() == n
    &&& forall|u: int| 0 <= u < n ==> 0 <= #[trigger] l[u] <= u && l[l[u]] == l[u]
}

/// The number of nodes below `k` that are their own label.
pub open spec fn count_roots(l: Seq<int>, k: nat) -> nat
    decreases k,
{
    if k == 0 {
        0
    } else {
        count_roots(l, (k - 1) as nat) + if l[k - 1] == k - 1 {
            1nat
        } else {
            0nat
        }
    }
}

/// The number of edges that join two components of the edges before them.
pub open spec fn merges(n: nat, es: Seq<(int, int)>) -> nat
    decreases es.len(),
{
    if es.len() == 0 {
        0
    } else {
        let l = labels(n, es.drop_last());
        merges(n, es.drop_last()) + if l[es.last().0] != l[es.last().1] {
            1nat
        } else {
            0nat
        }
    }
}

/// The labels of an edge list are nodes, each its own label.
pub proof fn lemma_labels_rooted(n: nat, es: Seq<(int, int)>)
    requires
        in_range(n, es),
    ensures
        rooted(n, labels(n, es)),
    decreases es.len(),
{
    if es.len() > 0 {
        let prev = es.drop_last();
        lemma_in_range_drop_last(n, es);
        lemma_labels_rooted(n, prev);
    }
}

/// Two nodes have the same label exactly when the edges connect them.
pub proof fn lemma_labels_connected(n: nat, es: Seq<(int, int)>, u: int, v: int)
    requires
        in_range(n, es),
        0 <= u < n,
        0 <= v < n,
    ensures
        labels(n, es)[u] == labels(n, es)[v] <==> connected(es, u, v),
    decreases es.len(),
{
    if es.len() == 0 {
        lemma_connected_refl(es, u);
        if connected(es, u, v) && u != v {
            let p = choose|p: Seq<int>| joins(es, p, u, v);
            assert(step(es, p, 0));
        }
    } else {
        let prev = es.drop_last();
        let e = es.last();
        assert(es == prev.push(e));
        lemma_in_range_drop_last(n, es);
        lemma_labels_rooted(n, prev);
        lemma_labels_connected(n, prev, u, v);
        lemma_labels_connected(n, prev, u, e.0);
        lemma_labels_connected(n, prev, u, e.1);
        lemma_labels_connected(n, prev, e.0, v);
        lemma_labels_connected(n, prev, e.1, v);
        lemma_connected_push(prev, e, u, v);
    }
}

/// Replacing one representative by another leaves one representative
/// fewer.
proof fn lemma_count_relabel(n: nat, l: Seq<int>, from: int, to: int, k: nat)
    requires
        rooted(n, l),
        0 <= from < n,
        0 <= to < n,
        l[from] == from,
        l[to] == to,
        from != to,
        k <= n,
    ensures
        count_roots(relabel(l, from, to), k) + (if from < k {
            1nat
        } else {
            0nat
        }) == count_roots(l, k),
    decreases k,
{
    if k > 0 {
        lemma_count_relabel(n, l, from, to, (k - 1) as nat);
    }
}

/// Every merging edge removes one representative.
pub proof fn lemma_count_merges(n: nat, es: Seq<(int, int)>)
    requires
        in_range(n, es),
    ensures
        count_roots(labels(n, es), n) + merges(n, es) == n,
        merges(n, es) <= es.len(),
    decreases es.len(),
{
    if es.len() == 0 {
        lemma_count_identity(n, n);
    } else {
        let prev = es.drop_last();
        let e = es.last();
        lemma_in_range_drop_last(n, es);
        lemma_count_merges(n, prev);
        lemma_labels_rooted(n, prev);
        let l = labels(n, prev);
        if l[e.0] < l[e.1] {
            lemma_count_relabel(n, l, l[e.1], l[e.0], n);
        } else if l[e.1] < l[e.0] {
            lemma_count_relabel(n, l, l[e.0], l[e.1], n);
        } else {
            assert(relabel(l, l[e.1], l[e.0]) =~= l);
        }
    }
}

/// Without edges every node is a representative.
proof fn lemma_count_identity(n: nat, k: nat)
    requires
        k <= n,
    ensures
        count_roots(Seq::new(n, |i: int| i), k) == k,
    decreases k,
{
    if k > 0 {
        lemma_count_identity(n, (k - 1) as nat);
    }
}

/// More nodes hold no fewer representatives.
proof fn lemma_count_monotone(l: Seq<int>, j: nat, k: nat)
    requires
        j <= k,
    ensures
        count_roots(l, j) <= count_roots(l, k),
    decreases k,
{
    if j < k {
        lemma_count_monotone(l, j, (k - 1) as nat);
    }
}

/// Two distinct representatives count as two.
proof fn lemma_count_two(n: nat, l: Seq<int>, r: int, s: int)
    requires
        l.len() == n,
        0 <= r < s < n,
        l[r] == r,
        l[s] == s,
    ensures
        count_roots(l, n) >= 2,
{
    lemma_count_monotone(l, 0, r as nat);
    lemma_count_monotone(l, (r + 1) as nat, s as nat);
    lemma_count_monotone(l, (s + 1) as nat, n);
}

/// With one label for all nodes, one node is its own label.
proof fn lemma_count_single(n: nat, l: Seq<int>, r: int, k: nat)
    requires
        l.len() == n,
        0 <= r < n,
        k <= n,
        forall|u: int| 0 <= u < n ==> l[u] == r,
    ensures
        count_roots(l, k) == if r < k {
            1nat
        } else {
            0nat
        },
    decreases k,
{
    if k > 0 {
        lemma_count_single(n, l, r, (k - 1) as nat);
    }
}

/// The edges connect all nodes exactly when one representative is left.
pub proof fn lemma_single_component(n: nat, es: Seq<(int, int)>)
    requires
        in_range(n, es),
        n > 0,
    ensures
        all_connected(n, es) <==> count_roots(labels(n, es), n) == 1,
{
    let l = labels(n, es);
    lemma_labels_rooted(n, es);
    if all_connected(n, es) {
        let r = l[0];
        assert forall|u: int| 0 <= u < n implies l[u] == r by {
            lemma_labels_connected(n, es, u, 0);
        }
        lemma_count_single(n, l, r, n);
    }
    if count_roots(l, n) == 1 {
        assert forall|u: int, v: int| 0 <= u < n && 0 <= v < n implies connected(es, u, v) by {
            lemma_labels_connected(n, es, u, v);
            if l[u] < l[v] {
                lemma_count_two(n, l, l[u], l[v]);
            } else if l[v] < l[u] {
                lemma_count_two(n, l, l[v], l[u]);
            }
        }
    }
}

/// In a forest every edge merges two components, and only in a forest.
pub proof fn lemma_forest_merges(n: nat, es: Seq<(int, int)>)
    requires
        in_range(n, es),
    ensures
        is_forest(es) <==> merges(n, es) == es.len(),
    decreases es.len(),
{
    if es.len() > 0 {
        let prev = es.drop_last();
        let e = es.last();
        lemma_in_range_drop_last(n, es);
        lemma_forest_merges(n, prev);
        lemma_count_merges(n, prev);
        lemma_labels_connected(n, prev, e.0, e.1);
        if is_forest(es) {
            assert forall|i: int| 0 <= i < prev.len() implies !connected(
                prev.take(i),
                (#[trigger] prev[i]).0,
                prev[i].1,
            ) by {
                assert(prev.take(i) == es.take(i));
            }
        }
        if merges(n, es) == es.len() {
            assert forall|i: int| 0 <= i < es.len() implies !connected(
                es.take(i),
                (#[trigger] es[i]).0,
                es[i].1,
            ) by {
                if i < prev.len() {
                    assert(prev.take(i) == es.take(i));
                    assert(prev[i] == es[i]);
                }
            }
        }
    }
}

/// A connected graph on `n` nodes with `n - 1` edges has no cycle.
pub proof fn lemma_connected_is_forest(n: nat, es: Seq<(int, int)>)
    requires
        in_range(n, es),
        es.len() + 1 == n,
        all_connected(n, es),
    ensures
        is_forest(es),
{
    lemma_single_component(n, es);
    lemma_count_merges(n, es);
    lemma_forest_merges(n, es);
}

/// A forest on `n` nodes with `n - 1` edges connects all nodes.
pub proof fn lemma_forest_spans(n: nat, es: Seq<(int, int)>)
    requires
        in_range(n, es),
        es.len() + 1 == n,
        is_forest(es),
    ensures
        all_connected(n, es),
{
    lemma_forest_merges(n, es);
    lemma_count_merges(n, es);
    lemma_single_component(n, es);
}

/// A forest on `n > 0` nodes has at most `n - 1` edges, and has that many
/// exactly when it connects all nodes.
pub proof fn lemma_forest_size(n: nat, es: Seq<(int, int)>)
    requires
        in_range(n, es),
        n > 0,
        is_forest(es),
    ensures
        es.len() + 1 <= n,
        all_connected(n, es) <==> es.len() + 1 == n,
{
    lemma_forest_merges(n, es);
    lemma_count_merges(n, es);
    lemma_single_component(n, es);
    lemma_labels_rooted(n, es);
    let l = labels(n, es);
    let r = l[0];
    lemma_count_monotone(l, 0, r as nat);
    lemma_count_monotone(l, (r + 1) as nat, n);
}

/// The labels depend on what the edges connect, not on the edges
/// themselves: two edge lists that connect the same nodes label them alike.
pub proof fn lemma_labels_canonical(n: nat, es: Seq<(int, int)>, other: Seq<(int, int)>)
    requires
        in_range(n, es),
        in_range(n, other),
        forall|u: int, v: int|
            0 <= u < n && 0 <= v < n ==> (connected(es, u, v) <==> connected(other, u, v)),
    ensures
        labels(n, es) == labels(n, other),
{
    let l = labels(n, es);
    let k = labels(n, other);
    lemma_labels_rooted(n, es);
    lemma_labels_rooted(n, other);
    assert forall|u: int| 0 <= u < n implies l[u] == k[u] by {
        lemma_labels_connected(n, es, u, l[u]);
        lemma_labels_connected(n, other, u, l[u]);
        lemma_labels_connected(n, other, u, k[u]);
        lemma_labels_connected(n, es, u, k[u]);
    }
}

/// More edges merge no fewer components.
pub proof fn lemma_merges_monotone(n: nat, es: Seq<(int, int)>, more: Seq<(int, int)>)
    ensures
        merges(n, es) <= merges(n, es + more),
    decreases more.len(),
{
    if more.len() > 0 {
        lemma_merges_monotone(n, es, more.drop_last());
        assert((es + more).drop_last() == es + more.drop_last());
    }
}

} // verus!
