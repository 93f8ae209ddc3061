use locality_graph::config::{normalize_locality, Config, Probability};
use locality_graph::generator::{build_graph, generate_graph, link_pair};
use locality_graph::stats::{collect, Stats};
use locality_graph::window::{forward_window, wrap_window};
use rand::rngs::StdRng;
use rand::SeedableRng;

fn always() -> Probability {
    Probability::new(1, 1).unwrap()
}

fn never() -> Probability {
    Probability::new(0, 1).unwrap()
}

fn half() -> Probability {
    Probability::new(1, 2).unwrap()
}

fn mean_and_deviation(stats: &Stats) -> (f64, f64) {
    let c = stats.edge_count as f64;
    let mean = stats.distance_sum as f64 / c;
    (mean, (stats.square_sum as f64 / c - mean * mean).sqrt())
}

fn is_candidate(n: usize, loc: usize, wrap: bool, i: usize, j: usize) -> bool {
    i < j && j < n && (j <= i + loc || (wrap && j + loc >= n + i))
}

fn assert_simple(graph: &Vec<Vec<usize>>) {
    for (i, list) in graph.iter().enumerate() {
        for (k, &e) in list.iter().enumerate() {
            assert!(e < graph.len());
            assert_ne!(e, i);
            assert!(!list[k + 1..].contains(&e));
        }
    }
}

#[test]
fn line_of_four_nodes() {
    let mut rng = StdRng::seed_from_u64(1);
    let graph = generate_graph(4, always(), 1, false, false, &mut rng);
    assert_eq!(graph, vec![vec![1], vec![0, 2], vec![1, 3], vec![2]]);
    let stats = collect(&graph, false);
    assert_eq!(
        stats,
        Stats {
            edge_count: 3,
            max_distance: 1,
            median_distance: 1,
            distance_sum: 3,
            square_sum: 3,
        }
    );
}

#[test]
fn line_of_four_nodes_wrapped() {
    let mut rng = StdRng::seed_from_u64(1);
    let graph = generate_graph(4, always(), 1, false, true, &mut rng);
    assert_eq!(graph, vec![vec![1, 3], vec![0, 2], vec![1, 3], vec![0, 2]]);
    let stats = collect(&graph, false);
    assert_eq!(stats.edge_count, 4);
    assert_eq!(stats.max_distance, 3);
    assert_eq!(stats.median_distance, 1);
    assert_eq!(stats.distance_sum, 6);
    assert_eq!(stats.square_sum, 12);
    let (mean, deviation) = mean_and_deviation(&stats);
    assert!((mean - 1.5).abs() < 1e-12);
    assert!((deviation - 0.75f64.sqrt()).abs() < 1e-12);
}

#[test]
fn zero_connectedness_gives_no_edges() {
    for &directed in &[false, true] {
        for &wrap in &[false, true] {
            for loc in 1..=7 {
                let mut rng = StdRng::seed_from_u64(loc as u64);
                let graph = generate_graph(7, never(), loc, directed, wrap, &mut rng);
                assert_eq!(graph.len(), 7);
                assert!(graph.iter().all(|l| l.is_empty()));
                let stats = collect(&graph, directed);
                assert_eq!(
                    stats,
                    Stats {
                        edge_count: 0,
                        max_distance: 0,
                        median_distance: 0,
                        distance_sum: 0,
                        square_sum: 0,
                    }
                );
            }
        }
    }
}

#[test]
fn full_connectedness_joins_every_candidate() {
    for &directed in &[false, true] {
        for &wrap in &[false, true] {
            for loc in 1..=9 {
                let mut rng = StdRng::seed_from_u64(3);
                let graph = generate_graph(9, always(), loc, directed, wrap, &mut rng);
                assert_simple(&graph);
                for i in 0..9 {
                    for j in 0..9 {
                        let expected = is_candidate(9, loc, wrap, i, j)
                            || is_candidate(9, loc, wrap, j, i);
                        assert_eq!(graph[i].contains(&j), expected);
                    }
                }
            }
        }
    }
}

#[test]
fn full_locality_is_unrestricted() {
    let mut rng = StdRng::seed_from_u64(5);
    let graph = generate_graph(6, always(), 6, false, false, &mut rng);
    for i in 0..6 {
        assert_eq!(graph[i].len(), 5);
    }
}

#[test]
fn overlapping_windows_sample_each_pair_once() {
    let mut rng = StdRng::seed_from_u64(9);
    let graph = generate_graph(5, always(), 3, true, true, &mut rng);
    assert_simple(&graph);
    assert!(graph.iter().all(|l| l.len() == 4));
    assert_eq!(collect(&graph, true).edge_count, 20);
}

#[test]
fn undirected_graph_is_symmetric() {
    let mut rng = StdRng::seed_from_u64(11);
    let graph = generate_graph(40, half(), 6, false, true, &mut rng);
    assert_eq!(graph.len(), 40);
    assert_simple(&graph);
    for i in 0..40 {
        for &j in &graph[i] {
            assert!(graph[j].contains(&i));
            assert!(is_candidate(40, 6, true, i.min(j), i.max(j)));
        }
    }
}

#[test]
fn directed_directions_are_independent() {
    let mut rng = StdRng::seed_from_u64(13);
    let n = 200;
    let graph = generate_graph(n, half(), n, true, false, &mut rng);
    let (mut both, mut one, mut none) = (0usize, 0usize, 0usize);
    for i in 0..n {
        for j in (i + 1)..n {
            match (graph[i].contains(&j), graph[j].contains(&i)) {
                (true, true) => both += 1,
                (false, false) => none += 1,
                _ => one += 1,
            }
        }
    }
    let pairs = (n * (n - 1) / 2) as f64;
    assert!(((both as f64) / pairs - 0.25).abs() < 0.03);
    assert!(((one as f64) / pairs - 0.5).abs() < 0.03);
    assert!(((none as f64) / pairs - 0.25).abs() < 0.03);
}

#[test]
fn link_pair_directed_uses_backward_hit() {
    let mut graph = vec![vec![], vec![], vec![]];
    link_pair(&mut graph, 0, 2, true, false, true);
    assert_eq!(graph, vec![vec![], vec![], vec![0]]);
    link_pair(&mut graph, 1, 2, true, true, false);
    assert_eq!(graph, vec![vec![], vec![2], vec![0]]);
}

#[test]
fn link_pair_undirected_mirrors_forward_hit() {
    let mut graph = vec![vec![], vec![], vec![]];
    link_pair(&mut graph, 0, 2, false, true, false);
    assert_eq!(graph, vec![vec![2], vec![], vec![0]]);
    link_pair(&mut graph, 0, 1, false, false, true);
    assert_eq!(graph, vec![vec![2], vec![], vec![0]]);
}

#[test]
fn probability_bounds() {
    assert_eq!(Probability::new(3, 2), None);
    assert_eq!(Probability::new(0, 0), None);
    assert_eq!(
        Probability::new(2, 5),
        Some(Probability { numerator: 2, denominator: 5 })
    );
}

#[test]
fn locality_normalisation() {
    assert_eq!(normalize_locality(10, 0), 10);
    assert_eq!(normalize_locality(10, 12), 10);
    assert_eq!(normalize_locality(10, 10), 10);
    assert_eq!(normalize_locality(10, 3), 3);
    let c = Config::new(8, half(), 0, true, false);
    assert_eq!(c.locality, 8);
    assert_eq!(c.node_count, 8);
}

#[test]
fn window_bounds() {
    assert_eq!(forward_window(10, 3, 2), (3, 6));
    assert_eq!(forward_window(10, 3, 8), (9, 10));
    assert_eq!(wrap_window(10, 3, true, 1), (8, 10));
    assert_eq!(wrap_window(10, 3, true, 0), (7, 10));
    assert_eq!(wrap_window(10, 3, true, 3), (10, 10));
    assert_eq!(wrap_window(10, 3, false, 1), (10, 10));
    assert_eq!(wrap_window(5, 3, true, 0), (4, 5));
}

#[test]
fn stats_of_empty_graph() {
    let graph: Vec<Vec<usize>> = vec![];
    let stats = collect(&graph, false);
    assert_eq!(stats.edge_count, 0);
    assert_eq!(stats.median_distance, 0);
}

#[test]
fn stats_directed_count_every_entry() {
    let graph = vec![vec![2], vec![0], vec![]];
    let stats = collect(&graph, true);
    assert_eq!(
        stats,
        Stats {
            edge_count: 2,
            max_distance: 2,
            median_distance: 2,
            distance_sum: 3,
            square_sum: 5,
        }
    );
    let undirected = collect(&graph, false);
    assert_eq!(undirected.edge_count, 1);
    assert_eq!(undirected.max_distance, 2);
}

#[test]
fn stats_median_and_exact_mean() {
    let graph = vec![vec![3, 1, 4], vec![0], vec![], vec![0], vec![0]];
    let stats = collect(&graph, false);
    assert_eq!(stats.edge_count, 3);
    assert_eq!(stats.max_distance, 4);
    assert_eq!(stats.median_distance, 3);
    assert_eq!(stats.distance_sum, 8);
    assert_eq!(stats.square_sum, 9 + 1 + 16);
    let (mean, deviation) = mean_and_deviation(&stats);
    assert!((mean - 8.0 / 3.0).abs() < 1e-12);
    assert!((deviation - (26.0f64 / 3.0 - 64.0 / 9.0).sqrt()).abs() < 1e-12);
}

#[test]
fn build_undirected_from_draws() {
    let graph = build_graph(4, 1, false, false, &vec![true, false, true]);
    assert_eq!(graph, vec![vec![1], vec![0], vec![3], vec![2]]);
}

#[test]
fn build_directed_takes_two_draws_per_pair() {
    let hits = vec![true, false, false, true, true, true];
    let graph = build_graph(4, 1, true, false, &hits);
    assert_eq!(graph, vec![vec![1], vec![], vec![1, 3], vec![2]]);
}

#[test]
fn build_wrapped_draws_follow_traversal_order() {
    let graph = build_graph(4, 1, false, true, &vec![false, true, true, false]);
    assert_eq!(graph, vec![vec![3], vec![2], vec![1], vec![0]]);
}

#[test]
fn same_seed_gives_same_graph() {
    let mut a = StdRng::seed_from_u64(21);
    let mut b = StdRng::seed_from_u64(21);
    let g = generate_graph(30, half(), 5, true, true, &mut a);
    let h = generate_graph(30, half(), 5, true, true, &mut b);
    assert_eq!(g, h);
    for list in &g {
        assert!(list.windows(2).all(|w| w[0] < w[1]));
    }
}
