use spanning_tree::buffers::SpanningTreeBuffer;
use spanning_tree::error::SampleError;
use spanning_tree::graph::{Edge, Graph};
use spanning_tree::rmst::{is_connected_graph, kruskal, minimum_spanning_tree, RMSTSampler};
use spanning_tree::sampler::SpanningTreeSampler;

use rand::rngs::SmallRng;
use rand::Rng;
use rand::SeedableRng;

fn make(n: usize, pairs: &[(usize, usize)]) -> Graph {
    let mut sorted: Vec<(usize, usize)> = pairs.to_vec();
    sorted.sort();
    let edges: Vec<Edge> = sorted.into_iter().map(|(a, b)| Edge(a, b)).collect();
    let g = Graph::from_edges(n, edges).unwrap();
    assert!(g.is_well_formed());
    g
}

fn lattice(width: usize, height: usize) -> Graph {
    let mut pairs = Vec::new();
    for y in 0..height {
        for x in 0..width {
            let u = y * width + x;
            if x + 1 < width {
                pairs.push((u, u + 1));
            }
            if y + 1 < height {
                pairs.push((u, u + width));
            }
        }
    }
    make(width * height, &pairs)
}

fn find(parent: &mut Vec<usize>, mut u: usize) -> usize {
    while parent[u] != u {
        parent[u] = parent[parent[u]];
        u = parent[u];
    }
    u
}

fn edges_of(buf: &SpanningTreeBuffer) -> Vec<(usize, usize)> {
    let mut edges = Vec::new();
    for (u, row) in buf.st.iter().enumerate() {
        for &v in row {
            if u < v {
                edges.push((u, v));
            }
        }
    }
    edges.sort();
    edges
}

fn assert_is_spanning_tree(g: &Graph, buf: &SpanningTreeBuffer) {
    let n = g.neighbors.len();
    assert_eq!(buf.st.len(), n);
    let entries: usize = buf.st.iter().map(|row| row.len()).sum();
    assert_eq!(entries, 2 * (n - 1));
    for (u, row) in buf.st.iter().enumerate() {
        if n > 1 {
            assert!(!row.is_empty());
        }
        for &v in row {
            assert!(g.is_adjacent(u, v));
            assert_eq!(buf.st[v].iter().filter(|&&w| w == u).count(), 1);
        }
    }
    let mut parent: Vec<usize> = (0..n).collect();
    for (u, v) in edges_of(buf) {
        let a = find(&mut parent, u);
        let b = find(&mut parent, v);
        assert_ne!(a, b);
        parent[a] = b;
    }
    let top = find(&mut parent, 0);
    for u in 0..n {
        assert_eq!(find(&mut parent, u), top);
    }
}

fn assert_empty(buf: &SpanningTreeBuffer, n: usize) {
    assert_eq!(buf.st.len(), n);
    assert!(buf.st.iter().all(|row| row.is_empty()));
}

#[test]
fn minimum_spanning_tree_takes_the_light_edges_of_a_triangle() {
    let g = make(3, &[(0, 1), (0, 2), (1, 2)]);
    let mut buf = SpanningTreeBuffer::new(3);
    assert_eq!(minimum_spanning_tree(&g, &mut buf, &vec![5, 1, 3]), Ok(()));
    assert_eq!(buf.st, vec![vec![2], vec![2], vec![0, 1]]);
    assert_eq!(minimum_spanning_tree(&g, &mut buf, &vec![1, 9, 4]), Ok(()));
    assert_eq!(buf.st, vec![vec![1], vec![0, 2], vec![1]]);
}

#[test]
fn minimum_spanning_tree_breaks_ties_by_edge_order() {
    let g = make(3, &[(0, 1), (0, 2), (1, 2)]);
    let mut buf = SpanningTreeBuffer::new(3);
    assert_eq!(minimum_spanning_tree(&g, &mut buf, &vec![7, 7, 7]), Ok(()));
    assert_eq!(buf.st, vec![vec![1, 2], vec![0], vec![0]]);
    assert_eq!(minimum_spanning_tree(&g, &mut buf, &vec![7, 2, 2]), Ok(()));
    assert_eq!(buf.st, vec![vec![2], vec![2], vec![0, 1]]);
}

#[test]
fn minimum_spanning_tree_has_the_least_weight() {
    let g = make(
        5,
        &[(0, 1), (0, 2), (0, 3), (1, 2), (1, 4), (2, 3), (2, 4), (3, 4)],
    );
    let weights: Vec<u32> = vec![10, 6, 5, 15, 11, 4, 8, 2];
    let mut buf = SpanningTreeBuffer::new(5);
    assert_eq!(minimum_spanning_tree(&g, &mut buf, &weights), Ok(()));
    assert_is_spanning_tree(&g, &buf);
    assert_eq!(edges_of(&buf), vec![(0, 1), (0, 3), (2, 3), (3, 4)]);
    assert_eq!(buf.st, vec![vec![3, 1], vec![0], vec![3], vec![4, 2, 0], vec![3]]);
}

#[test]
fn minimum_spanning_tree_is_no_heavier_than_any_spanning_tree() {
    let mut pairs = Vec::new();
    for u in 0..5 {
        for v in (u + 1)..5 {
            pairs.push((u, v));
        }
    }
    let g = make(5, &pairs);
    let mut rng = SmallRng::seed_from_u64(29);
    let mut buf = SpanningTreeBuffer::new(5);
    for round in 0..40 {
        let bound: u32 = if round % 2 == 0 { 4 } else { 1000 };
        let weights: Vec<u32> = (0..10).map(|_| rng.gen_range(0..bound)).collect();
        assert_eq!(minimum_spanning_tree(&g, &mut buf, &weights), Ok(()));
        assert_is_spanning_tree(&g, &buf);
        let found: u64 = edges_of(&buf)
            .iter()
            .map(|&(a, b)| weights[g.find_edge(a, b).unwrap()] as u64)
            .sum();
        let mut least = u64::MAX;
        for subset in 0u32..(1 << 10) {
            if subset.count_ones() != 4 {
                continue;
            }
            let mut parent: Vec<usize> = (0..5).collect();
            let mut total: u64 = 0;
            let mut acyclic = true;
            for (i, edge) in g.edges.iter().enumerate() {
                if subset & (1 << i) != 0 {
                    let a = find(&mut parent, edge.0);
                    let b = find(&mut parent, edge.1);
                    if a == b {
                        acyclic = false;
                    }
                    parent[a] = b;
                    total += weights[i] as u64;
                }
            }
            if acyclic && total < least {
                least = total;
            }
        }
        assert_eq!(found, least);
    }
}

#[test]
fn minimum_spanning_tree_fails_on_two_components() {
    let g = make(4, &[(0, 1), (2, 3)]);
    let mut buf = SpanningTreeBuffer::new(4);
    assert_eq!(
        minimum_spanning_tree(&g, &mut buf, &vec![3, 4]),
        Err(SampleError::Disconnected)
    );
    assert_empty(&buf, 4);
}

#[test]
fn minimum_spanning_tree_fails_without_nodes() {
    let g = make(0, &[]);
    let mut buf = SpanningTreeBuffer::new(0);
    assert_eq!(
        minimum_spanning_tree(&g, &mut buf, &Vec::new()),
        Err(SampleError::NoNodes)
    );
}

#[test]
fn minimum_spanning_tree_of_one_node_is_empty() {
    let g = make(1, &[]);
    let mut buf = SpanningTreeBuffer::new(1);
    assert_eq!(minimum_spanning_tree(&g, &mut buf, &Vec::new()), Ok(()));
    assert_eq!(buf.st, vec![Vec::<usize>::new()]);
}

#[test]
fn is_connected_graph_tells_one_component_from_more() {
    assert!(is_connected_graph(&make(1, &[])));
    assert!(is_connected_graph(&make(2, &[(0, 1)])));
    assert!(is_connected_graph(&make(4, &[(0, 3), (1, 3), (2, 3)])));
    assert!(is_connected_graph(&lattice(5, 4)));
    assert!(!is_connected_graph(&make(2, &[])));
    assert!(!is_connected_graph(&make(4, &[(0, 1), (2, 3)])));
    assert!(!is_connected_graph(&make(4, &[(0, 1), (0, 2), (1, 2)])));
    assert!(!is_connected_graph(&make(5, &[(0, 1), (1, 2), (3, 4)])));
}

#[test]
fn kruskal_skips_edges_that_close_a_cycle() {
    let order: Vec<(u32, usize, usize)> =
        vec![(0, 0, 1), (0, 1, 2), (0, 0, 2), (0, 2, 3), (0, 1, 3), (0, 3, 4)];
    let mut buf = SpanningTreeBuffer::new(5);
    assert_eq!(kruskal(&order, &mut buf), 4);
    assert_eq!(
        buf.st,
        vec![vec![1], vec![0, 2], vec![1, 3], vec![2, 4], vec![3]]
    );
}

#[test]
fn kruskal_keeps_the_given_order() {
    let order: Vec<(u32, usize, usize)> = vec![(9, 1, 2), (1, 0, 2), (5, 0, 1)];
    let mut buf = SpanningTreeBuffer::new(3);
    assert_eq!(kruskal(&order, &mut buf), 2);
    assert_eq!(buf.st, vec![vec![2], vec![2], vec![1, 0]]);
}

#[test]
fn kruskal_leaves_a_forest_where_edges_are_missing() {
    let order: Vec<(u32, usize, usize)> = vec![(0, 0, 1), (0, 2, 3), (0, 0, 1)];
    let mut buf = SpanningTreeBuffer::new(5);
    assert_eq!(kruskal(&order, &mut buf), 2);
    assert_eq!(buf.st, vec![vec![1], vec![0], vec![3], vec![2], vec![]]);
    let mut single = SpanningTreeBuffer::new(1);
    assert_eq!(kruskal(&Vec::new(), &mut single), 0);
    assert_eq!(single.st, vec![Vec::<usize>::new()]);
}

#[test]
fn random_weight_sampler_yields_spanning_trees_of_a_grid() {
    let g = lattice(6, 5);
    let mut rng = SmallRng::seed_from_u64(21);
    let mut sampler = RMSTSampler::new(30);
    let mut buf = SpanningTreeBuffer::new(30);
    for _ in 0..200 {
        assert_eq!(sampler.random_spanning_tree(&g, &mut buf, &mut rng), Ok(()));
        assert_is_spanning_tree(&g, &buf);
    }
}

#[test]
fn random_weight_sampler_yields_a_path_whole() {
    let g = make(3, &[(0, 1), (1, 2)]);
    let mut rng = SmallRng::seed_from_u64(22);
    let mut sampler = RMSTSampler::new(3);
    let mut buf = SpanningTreeBuffer::new(3);
    let mut left_first = 0;
    for _ in 0..4000 {
        assert_eq!(sampler.random_spanning_tree(&g, &mut buf, &mut rng), Ok(()));
        assert_eq!(edges_of(&buf), vec![(0, 1), (1, 2)]);
        if buf.st[1] == vec![0, 2] {
            left_first += 1;
        } else {
            assert_eq!(buf.st[1], vec![2, 0]);
        }
    }
    assert!(left_first > 1800 && left_first < 2200);
}

#[test]
fn random_weight_sampler_drops_each_edge_of_a_triangle_equally() {
    let g = make(3, &[(0, 1), (0, 2), (1, 2)]);
    let mut rng = SmallRng::seed_from_u64(23);
    let mut sampler = RMSTSampler::new(3);
    let mut buf = SpanningTreeBuffer::new(3);
    let mut dropped = vec![0usize; 3];
    for _ in 0..6000 {
        assert_eq!(sampler.random_spanning_tree(&g, &mut buf, &mut rng), Ok(()));
        let kept = edges_of(&buf);
        assert_eq!(kept.len(), 2);
        for (i, edge) in [(0, 1), (0, 2), (1, 2)].iter().enumerate() {
            if !kept.contains(edge) {
                dropped[i] += 1;
            }
        }
    }
    assert_eq!(dropped.iter().sum::<usize>(), 6000);
    assert!(dropped.iter().all(|&d| d > 1800 && d < 2200));
}

#[test]
fn random_weight_sampler_yields_the_empty_tree_on_one_node() {
    let g = make(1, &[]);
    let mut rng = SmallRng::seed_from_u64(24);
    let mut sampler = RMSTSampler::new(1);
    let mut buf = SpanningTreeBuffer::new(1);
    assert_eq!(sampler.random_spanning_tree(&g, &mut buf, &mut rng), Ok(()));
    assert_eq!(buf.st, vec![Vec::<usize>::new()]);
}

#[test]
fn random_weight_sampler_repeats_itself_on_the_same_seed() {
    let g = lattice(5, 5);
    let mut first = Vec::new();
    for run in 0..2 {
        let mut rng = SmallRng::seed_from_u64(25);
        let mut sampler = RMSTSampler::new(25);
        let mut buf = SpanningTreeBuffer::new(25);
        let mut trees = Vec::new();
        for _ in 0..20 {
            assert_eq!(sampler.random_spanning_tree(&g, &mut buf, &mut rng), Ok(()));
            trees.push(buf.st.clone());
        }
        if run == 0 {
            first = trees;
        } else {
            assert_eq!(first, trees);
        }
    }
}

#[test]
fn random_weight_sampler_varies_with_the_seed() {
    let g = lattice(5, 5);
    let mut trees = Vec::new();
    for seed in 0..4u64 {
        let mut rng = SmallRng::seed_from_u64(seed);
        let mut sampler = RMSTSampler::new(25);
        let mut buf = SpanningTreeBuffer::new(25);
        assert_eq!(sampler.random_spanning_tree(&g, &mut buf, &mut rng), Ok(()));
        trees.push(buf.st.clone());
    }
    assert!(trees.iter().any(|tree| *tree != trees[0]));
}

#[test]
fn random_weight_sampler_fails_on_two_components() {
    let g = make(5, &[(0, 1), (1, 2), (3, 4)]);
    let mut rng = SmallRng::seed_from_u64(26);
    let mut sampler = RMSTSampler::new(5);
    let mut buf = SpanningTreeBuffer::new(5);
    for _ in 0..20 {
        assert_eq!(
            sampler.random_spanning_tree(&g, &mut buf, &mut rng),
            Err(SampleError::Disconnected)
        );
        assert_empty(&buf, 5);
    }
}

#[test]
fn random_weight_sampler_fails_without_nodes() {
    let g = make(0, &[]);
    let mut rng = SmallRng::seed_from_u64(27);
    let mut sampler = RMSTSampler::new(0);
    let mut buf = SpanningTreeBuffer::new(0);
    assert_eq!(
        sampler.random_spanning_tree(&g, &mut buf, &mut rng),
        Err(SampleError::NoNodes)
    );
}

#[test]
fn random_weight_sampler_overwrites_the_buffer() {
    let g = lattice(4, 4);
    let mut rng = SmallRng::seed_from_u64(28);
    let mut sampler = RMSTSampler::new(16);
    let mut buf = SpanningTreeBuffer::new(16);
    assert_eq!(sampler.random_spanning_tree(&g, &mut buf, &mut rng), Ok(()));
    assert_eq!(sampler.random_spanning_tree(&g, &mut buf, &mut rng), Ok(()));
    assert_is_spanning_tree(&g, &buf);
    let mut fresh = SpanningTreeBuffer::new(16);
    let mut again = SmallRng::seed_from_u64(28);
    let mut twin = RMSTSampler::new(16);
    assert_eq!(twin.random_spanning_tree(&g, &mut fresh, &mut again), Ok(()));
    assert_eq!(twin.random_spanning_tree(&g, &mut fresh, &mut again), Ok(()));
    assert_eq!(fresh.st, buf.st);
}
