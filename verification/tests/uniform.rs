use spanning_tree::buffers::SpanningTreeBuffer;
use spanning_tree::error::SampleError;
use spanning_tree::graph::{Edge, Graph};
use spanning_tree::sampler::SpanningTreeSampler;
use spanning_tree::ust::{next_choice, USTSampler};

use rand::rngs::SmallRng;
use rand::SeedableRng;

fn build(n: usize, pairs: &[(usize, usize)]) -> Graph {
    let mut sorted: Vec<(usize, usize)> = pairs.to_vec();
    sorted.sort();
    let edges: Vec<Edge> = sorted.into_iter().map(|(a, b)| Edge(a, b)).collect();
    let g = Graph::from_edges(n, edges).unwrap();
    assert!(g.is_well_formed());
    g
}

fn grid(width: usize, height: usize) -> Graph {
    let mut pairs = Vec::new();
    for y in 0..height {
        for x in 0..width {
            let u = y * width + x;
            if x + 1 < width {
                pairs.push((u, u + 1));
            }
            if y + 1 < height {
                pairs.push((u, u + width));
            }
        }
    }
    build(width * height, &pairs)
}

fn star(leaves: usize) -> Graph {
    let pairs: Vec<(usize, usize)> = (1..=leaves).map(|leaf| (0, leaf)).collect();
    build(leaves + 1, &pairs)
}

fn root_of(parent: &mut Vec<usize>, mut u: usize) -> usize {
    while parent[u] != u {
        parent[u] = parent[parent[u]];
        u = parent[u];
    }
    u
}

fn tree_edges(buf: &SpanningTreeBuffer) -> Vec<(usize, usize)> {
    let mut edges = Vec::new();
    for (u, row) in buf.st.iter().enumerate() {
        for &v in row {
            if u < v {
                edges.push((u, v));
            }
        }
    }
    edges.sort();
    edges
}

fn assert_spanning_tree(g: &Graph, buf: &SpanningTreeBuffer) {
    let n = g.neighbors.len();
    assert_eq!(buf.st.len(), n);
    let entries: usize = buf.st.iter().map(|row| row.len()).sum();
    assert_eq!(entries, 2 * (n - 1));
    for (u, row) in buf.st.iter().enumerate() {
        if n > 1 {
            assert!(!row.is_empty());
        }
        for &v in row {
            assert!(g.is_adjacent(u, v));
            assert_eq!(buf.st[v].iter().filter(|&&w| w == u).count(), 1);
            assert_eq!(row.iter().filter(|&&w| w == v).count(), 1);
        }
    }
    let edges = tree_edges(buf);
    assert_eq!(edges.len(), n - 1);
    let mut parent: Vec<usize> = (0..n).collect();
    for (u, v) in edges {
        let a = root_of(&mut parent, u);
        let b = root_of(&mut parent, v);
        assert_ne!(a, b);
        parent[a] = b;
    }
    let top = root_of(&mut parent, 0);
    for u in 0..n {
        assert_eq!(root_of(&mut parent, u), top);
    }
}

fn assert_no_edges(buf: &SpanningTreeBuffer, n: usize) {
    assert_eq!(buf.st.len(), n);
    assert!(buf.st.iter().all(|row| row.is_empty()));
}

fn tally(g: &Graph, trials: usize, seed: u64) -> Vec<(Vec<(usize, usize)>, usize)> {
    let n = g.neighbors.len();
    let mut rng = SmallRng::seed_from_u64(seed);
    let mut sampler = USTSampler::new(n, &mut rng);
    let mut buf = SpanningTreeBuffer::new(n);
    let mut counts: Vec<(Vec<(usize, usize)>, usize)> = Vec::new();
    for _ in 0..trials {
        assert_eq!(sampler.random_spanning_tree(g, &mut buf, &mut rng), Ok(()));
        let tree = tree_edges(&buf);
        match counts.iter_mut().find(|(seen, _)| *seen == tree) {
            Some(entry) => entry.1 += 1,
            None => counts.push((tree, 1)),
        }
    }
    counts
}

#[test]
fn uniform_sampler_yields_spanning_trees_of_a_grid() {
    let g = grid(6, 5);
    let mut rng = SmallRng::seed_from_u64(1);
    let mut sampler = USTSampler::new(30, &mut rng);
    let mut buf = SpanningTreeBuffer::new(30);
    for _ in 0..200 {
        assert_eq!(sampler.random_spanning_tree(&g, &mut buf, &mut rng), Ok(()));
        assert_spanning_tree(&g, &buf);
    }
}

#[test]
fn uniform_sampler_yields_spanning_trees_of_dense_graphs() {
    let mut pairs = Vec::new();
    for u in 0..12 {
        for v in (u + 1)..12 {
            pairs.push((u, v));
        }
    }
    let g = build(12, &pairs);
    let mut rng = SmallRng::seed_from_u64(2);
    let mut sampler = USTSampler::new(12, &mut rng);
    let mut buf = SpanningTreeBuffer::new(12);
    for _ in 0..200 {
        assert_eq!(sampler.random_spanning_tree(&g, &mut buf, &mut rng), Ok(()));
        assert_spanning_tree(&g, &buf);
    }
}

#[test]
fn uniform_sampler_lists_edges_in_node_order() {
    let g = build(3, &[(0, 1), (1, 2)]);
    let mut rng = SmallRng::seed_from_u64(3);
    let mut sampler = USTSampler::new(3, &mut rng);
    let mut buf = SpanningTreeBuffer::new(3);
    for _ in 0..50 {
        assert_eq!(sampler.random_spanning_tree(&g, &mut buf, &mut rng), Ok(()));
        assert_spanning_tree(&g, &buf);
        assert_eq!(tree_edges(&buf), vec![(0, 1), (1, 2)]);
        assert_eq!(buf.st, vec![vec![1], vec![0, 2], vec![1]]);
    }
}

#[test]
fn uniform_sampler_is_uniform_on_a_cycle_of_four() {
    let g = build(4, &[(0, 1), (1, 2), (2, 3), (0, 3)]);
    let counts = tally(&g, 8000, 4);
    assert_eq!(counts.len(), 4);
    for (_, count) in counts {
        assert!(count > 1800 && count < 2200);
    }
}

#[test]
fn uniform_sampler_is_uniform_on_the_complete_graph_of_four() {
    let g = build(4, &[(0, 1), (0, 2), (0, 3), (1, 2), (1, 3), (2, 3)]);
    let counts = tally(&g, 16000, 5);
    assert_eq!(counts.len(), 16);
    for (_, count) in counts {
        assert!(count > 850 && count < 1150);
    }
}

#[test]
fn uniform_sampler_yields_the_empty_tree_on_one_node() {
    let g = build(1, &[]);
    let mut rng = SmallRng::seed_from_u64(6);
    let mut sampler = USTSampler::new(1, &mut rng);
    let mut buf = SpanningTreeBuffer::new(1);
    assert_eq!(sampler.random_spanning_tree(&g, &mut buf, &mut rng), Ok(()));
    assert_eq!(buf.st, vec![Vec::<usize>::new()]);
}

#[test]
fn uniform_sampler_repeats_itself_on_the_same_seed() {
    let g = grid(5, 5);
    let mut first = Vec::new();
    for run in 0..2 {
        let mut rng = SmallRng::seed_from_u64(7);
        let mut sampler = USTSampler::new(25, &mut rng);
        let mut buf = SpanningTreeBuffer::new(25);
        let mut trees = Vec::new();
        for _ in 0..20 {
            assert_eq!(sampler.random_spanning_tree(&g, &mut buf, &mut rng), Ok(()));
            trees.push(buf.st.clone());
        }
        if run == 0 {
            first = trees;
        } else {
            assert_eq!(first, trees);
        }
    }
}

#[test]
fn uniform_sampler_fails_on_an_isolated_node() {
    let g = build(3, &[(0, 1)]);
    let mut rng = SmallRng::seed_from_u64(8);
    let mut sampler = USTSampler::new(3, &mut rng);
    let mut buf = SpanningTreeBuffer::new(3);
    let mut at_once = 0;
    for _ in 0..50 {
        assert_eq!(
            sampler.random_spanning_tree(&g, &mut buf, &mut rng),
            Err(SampleError::Disconnected)
        );
        assert!(sampler.steps_taken() <= 64 * (3 + 1));
        if sampler.steps_taken() < 64 * (3 + 1) {
            at_once += 1;
        }
        assert_no_edges(&buf, 3);
    }
    assert!(at_once > 0);
}

#[test]
fn uniform_sampler_fails_on_two_components() {
    let g = build(4, &[(0, 1), (2, 3)]);
    let mut rng = SmallRng::seed_from_u64(9);
    let mut sampler = USTSampler::new(4, &mut rng);
    assert_eq!(sampler.step_limit(), u64::MAX);
    let mut buf = SpanningTreeBuffer::new(4);
    for _ in 0..20 {
        assert_eq!(
            sampler.random_spanning_tree(&g, &mut buf, &mut rng),
            Err(SampleError::Disconnected)
        );
        assert_eq!(sampler.steps_taken(), 64 * (4 + 2));
        assert_no_edges(&buf, 4);
    }
}

#[test]
fn uniform_sampler_gives_up_on_two_components_at_a_low_limit() {
    let g = build(4, &[(0, 1), (2, 3)]);
    let mut rng = SmallRng::seed_from_u64(9);
    let mut sampler = USTSampler::new(4, &mut rng);
    sampler.set_step_limit(100);
    let mut buf = SpanningTreeBuffer::new(4);
    for _ in 0..5 {
        assert_eq!(
            sampler.random_spanning_tree(&g, &mut buf, &mut rng),
            Err(SampleError::StepLimit)
        );
        assert_eq!(sampler.steps_taken(), 100);
        assert_no_edges(&buf, 4);
    }
}

#[test]
fn uniform_sampler_goes_on_after_the_test_of_a_connected_graph() {
    let pairs: Vec<(usize, usize)> = (0..39).map(|u| (u, u + 1)).collect();
    let g = build(40, &pairs);
    let mut rng = SmallRng::seed_from_u64(18);
    let mut sampler = USTSampler::new(40, &mut rng);
    let mut buf = SpanningTreeBuffer::new(40);
    let mut long_runs = 0;
    for _ in 0..200 {
        assert_eq!(sampler.random_spanning_tree(&g, &mut buf, &mut rng), Ok(()));
        assert_spanning_tree(&g, &buf);
        assert!(sampler.steps_taken() >= 39);
        if sampler.steps_taken() > 64 * (40 + 39) {
            long_runs += 1;
        }
    }
    assert!(long_runs > 0);
}

#[test]
fn uniform_sampler_succeeds_on_two_joined_nodes() {
    let g = build(2, &[(0, 1)]);
    let mut rng = SmallRng::seed_from_u64(19);
    let mut sampler = USTSampler::new(2, &mut rng);
    assert_eq!(sampler.steps_taken(), 0);
    sampler.set_step_limit(1);
    let mut buf = SpanningTreeBuffer::new(2);
    for _ in 0..50 {
        assert_eq!(sampler.random_spanning_tree(&g, &mut buf, &mut rng), Ok(()));
        assert_eq!(buf.st, vec![vec![1], vec![0]]);
        assert_eq!(sampler.steps_taken(), 1);
    }
    sampler.set_step_limit(0);
    assert_eq!(
        sampler.random_spanning_tree(&g, &mut buf, &mut rng),
        Err(SampleError::StepLimit)
    );
    assert_eq!(sampler.steps_taken(), 0);
    assert_no_edges(&buf, 2);
}

#[test]
fn next_choice_gives_the_number_of_neighbors() {
    let g = build(4, &[(0, 1), (0, 2), (1, 2)]);
    assert_eq!(next_choice(&g, 0, 0, 1), Ok(2));
    assert_eq!(next_choice(&g, 1, 5, 6), Ok(2));
    assert_eq!(next_choice(&g, 2, 0, u64::MAX), Ok(2));
    assert_eq!(next_choice(&star(256), 0, 7, 8), Ok(256));
    assert_eq!(next_choice(&star(256), 9, 7, 8), Ok(1));
}

#[test]
fn next_choice_fails_at_the_limit_first() {
    let g = build(4, &[(0, 1), (0, 2), (1, 2)]);
    assert_eq!(next_choice(&g, 0, 0, 0), Err(SampleError::StepLimit));
    assert_eq!(next_choice(&g, 0, 6, 6), Err(SampleError::StepLimit));
    assert_eq!(next_choice(&g, 0, 7, 6), Err(SampleError::StepLimit));
    assert_eq!(next_choice(&g, 3, 6, 6), Err(SampleError::StepLimit));
    assert_eq!(next_choice(&star(257), 0, 1, 1), Err(SampleError::StepLimit));
}

#[test]
fn next_choice_fails_without_neighbors_and_with_too_many() {
    let g = build(4, &[(0, 1), (0, 2), (1, 2)]);
    assert_eq!(next_choice(&g, 3, 0, 1), Err(SampleError::Disconnected));
    assert_eq!(next_choice(&star(257), 0, 0, 1), Err(SampleError::DegreeLimit));
    assert_eq!(next_choice(&star(257), 1, 0, 1), Ok(1));
}

#[test]
fn uniform_sampler_fails_without_nodes() {
    let g = build(0, &[]);
    let mut rng = SmallRng::seed_from_u64(10);
    let mut sampler = USTSampler::new(0, &mut rng);
    let mut buf = SpanningTreeBuffer::new(0);
    assert_eq!(
        sampler.random_spanning_tree(&g, &mut buf, &mut rng),
        Err(SampleError::NoNodes)
    );
}

#[test]
fn uniform_sampler_stops_at_the_step_limit() {
    let g = grid(4, 4);
    let mut rng = SmallRng::seed_from_u64(13);
    let mut sampler = USTSampler::new(16, &mut rng);
    assert_eq!(sampler.step_limit(), u64::MAX);
    sampler.set_step_limit(0);
    assert_eq!(sampler.step_limit(), 0);
    let mut buf = SpanningTreeBuffer::new(16);
    assert_eq!(
        sampler.random_spanning_tree(&g, &mut buf, &mut rng),
        Err(SampleError::StepLimit)
    );
    assert_eq!(sampler.steps_taken(), 0);
    assert_no_edges(&buf, 16);
    sampler.set_step_limit(14);
    assert_eq!(
        sampler.random_spanning_tree(&g, &mut buf, &mut rng),
        Err(SampleError::StepLimit)
    );
    assert_eq!(sampler.steps_taken(), 14);
    sampler.set_step_limit(u64::MAX);
    assert_eq!(sampler.random_spanning_tree(&g, &mut buf, &mut rng), Ok(()));
    assert!(sampler.steps_taken() >= 15);
    assert_spanning_tree(&g, &buf);
}

#[test]
fn uniform_sampler_chooses_among_256_neighbors() {
    let g = star(256);
    let mut rng = SmallRng::seed_from_u64(14);
    let mut sampler = USTSampler::new(257, &mut rng);
    let mut buf = SpanningTreeBuffer::new(257);
    for _ in 0..20 {
        assert_eq!(sampler.random_spanning_tree(&g, &mut buf, &mut rng), Ok(()));
        assert_spanning_tree(&g, &buf);
    }
}

#[test]
fn uniform_sampler_refuses_to_choose_among_257_neighbors() {
    let g = star(257);
    let mut rng = SmallRng::seed_from_u64(15);
    let mut sampler = USTSampler::new(258, &mut rng);
    let mut buf = SpanningTreeBuffer::new(258);
    let mut refused = 0;
    for _ in 0..50 {
        match sampler.random_spanning_tree(&g, &mut buf, &mut rng) {
            Ok(()) => assert_spanning_tree(&g, &buf),
            Err(e) => {
                assert_eq!(e, SampleError::DegreeLimit);
                assert_no_edges(&buf, 258);
                refused += 1;
            }
        }
    }
    assert!(refused > 0);
}

#[test]
fn uniform_sampler_overwrites_the_buffer() {
    let g = grid(4, 4);
    let mut rng = SmallRng::seed_from_u64(16);
    let mut sampler = USTSampler::new(16, &mut rng);
    let mut buf = SpanningTreeBuffer::new(16);
    assert_eq!(sampler.random_spanning_tree(&g, &mut buf, &mut rng), Ok(()));
    let first = buf.st.clone();
    assert_eq!(sampler.random_spanning_tree(&g, &mut buf, &mut rng), Ok(()));
    assert_spanning_tree(&g, &buf);
    let mut fresh = SpanningTreeBuffer::new(16);
    let mut again = SmallRng::seed_from_u64(16);
    let mut twin = USTSampler::new(16, &mut again);
    assert_eq!(twin.random_spanning_tree(&g, &mut fresh, &mut again), Ok(()));
    assert_eq!(fresh.st, first);
    assert_eq!(twin.random_spanning_tree(&g, &mut fresh, &mut again), Ok(()));
    assert_eq!(fresh.st, buf.st);
}

#[test]
fn uniform_sampler_adapts_to_the_size_of_the_graph() {
    let small = grid(2, 2);
    let large = grid(5, 4);
    let mut rng = SmallRng::seed_from_u64(17);
    let mut sampler = USTSampler::new(4, &mut rng);
    let mut small_buf = SpanningTreeBuffer::new(4);
    let mut large_buf = SpanningTreeBuffer::new(20);
    assert_eq!(sampler.random_spanning_tree(&large, &mut large_buf, &mut rng), Ok(()));
    assert_spanning_tree(&large, &large_buf);
    assert_eq!(sampler.random_spanning_tree(&small, &mut small_buf, &mut rng), Ok(()));
    assert_spanning_tree(&small, &small_buf);
}
