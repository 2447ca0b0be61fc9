use graph_analytics::graph::Graph;
use graph_analytics::influence::{get_best_starting_nodes, simulate_influnce_spread};

fn path3() -> Graph {
    let mut g = Graph::new();
    let edges: Vec<(usize, usize)> = vec![(1, 2), (2, 3)];
    assert!(g.ingest(&edges).is_ok());
    g
}

#[test]
fn zero_probability_never_spreads() {
    let g = path3();
    let seeds: Vec<usize> = vec![1];
    let h = simulate_influnce_spread(&g, &seeds, 7, 0, 1);
    assert_eq!(h.len(), 8);
    for entry in &h {
        assert_eq!(entry, &vec![1]);
    }
}

#[test]
fn certain_probability_fills_component_by_hops() {
    let g = path3();
    let seeds: Vec<usize> = vec![1];
    let h = simulate_influnce_spread(&g, &seeds, 3, 1, 1);
    assert_eq!(h.len(), 4);
    assert_eq!(h[0], vec![1]);
    assert_eq!(h[1], vec![1]);
    assert_eq!(h[2], vec![1, 2]);
    // the full component is reached within its diameter in rounds
    assert_eq!(h[3], vec![1, 2, 3]);
}

#[test]
fn history_is_monotone_nondecreasing() {
    let g = path3();
    let seeds: Vec<usize> = vec![2];
    let h = simulate_influnce_spread(&g, &seeds, 5, 1, 2);
    assert_eq!(h.len(), 6);
    for k in 0..h.len() - 1 {
        for v in &h[k] {
            assert!(h[k + 1].contains(v));
        }
    }
}

#[test]
fn absent_seed_stays_alone() {
    let g = path3();
    let seeds: Vec<usize> = vec![42];
    let h = simulate_influnce_spread(&g, &seeds, 4, 1, 1);
    for entry in &h {
        assert_eq!(entry, &vec![42]);
    }
}

#[test]
fn seed_list_is_deduplicated_and_sorted() {
    let g = path3();
    let seeds: Vec<usize> = vec![3, 1, 3];
    let h = simulate_influnce_spread(&g, &seeds, 0, 1, 2);
    assert_eq!(h.len(), 1);
    assert_eq!(h[0], vec![1, 3]);
}

#[test]
fn best_starting_nodes_star() {
    let mut g = Graph::new();
    let edges: Vec<(usize, usize)> = vec![(0, 1), (0, 2), (0, 3)];
    assert!(g.ingest(&edges).is_ok());
    // the hub blocks all leaves, so the greedy independent set stops at it
    assert_eq!(get_best_starting_nodes(&g, 2), vec![0]);
}

#[test]
fn best_starting_nodes_path() {
    let g = path3();
    assert_eq!(get_best_starting_nodes(&g, 3), vec![2]);
}

#[test]
fn best_starting_nodes_ties_break_to_smaller_id() {
    let mut g = Graph::new();
    let edges: Vec<(usize, usize)> = vec![(1, 2), (2, 3), (3, 1)];
    assert!(g.ingest(&edges).is_ok());
    // all degrees equal: the smallest id is taken, its neighbors are blocked
    assert_eq!(get_best_starting_nodes(&g, 5), vec![1]);
}

#[test]
fn best_starting_nodes_respects_count() {
    let mut g = Graph::new();
    let edges: Vec<(usize, usize)> = vec![(1, 2), (8, 9), (5, 6)];
    assert!(g.ingest(&edges).is_ok());
    let picks = get_best_starting_nodes(&g, 2);
    assert_eq!(picks.len(), 2);
}

#[test]
fn best_starting_nodes_orders_by_degree_then_id() {
    let mut g = Graph::new();
    // hub of degree 3 plus a separate edge of degree-1 endpoints
    let edges: Vec<(usize, usize)> = vec![(0, 1), (0, 2), (0, 3), (8, 9)];
    assert!(g.ingest(&edges).is_ok());
    // the hub first, then the smaller id of the separate pair; its partner
    // is blocked, the leaves are blocked by the hub
    assert_eq!(get_best_starting_nodes(&g, 5), vec![0, 8]);
}
