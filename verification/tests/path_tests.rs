use graph_analytics::graph::Graph;
use graph_analytics::path::{dijkstra, shortest_path, shortest_path_with_cost};

fn weighted_triangle() -> Graph {
    let mut g = Graph::new();
    assert!(g.add_edge(1, 2, 5));
    assert!(g.add_edge(2, 3, 2));
    assert!(g.add_edge(1, 3, 10));
    g
}

#[test]
fn cheaper_two_hop_beats_direct_edge() {
    let g = weighted_triangle();
    assert_eq!(shortest_path(&g, 1, 3), Some(7));
    let (p, c) = shortest_path_with_cost(&g, 1, 3).unwrap();
    assert_eq!(p, vec![1, 2, 3]);
    assert_eq!(c, 7);
}

#[test]
fn self_path_costs_zero() {
    let g = weighted_triangle();
    assert_eq!(shortest_path(&g, 2, 2), Some(0));
    assert_eq!(dijkstra(&g, 2, 2), Some(vec![2]));
}

#[test]
fn absent_endpoints_yield_no_path() {
    let g = weighted_triangle();
    assert_eq!(shortest_path(&g, 1, 99), None);
    assert_eq!(shortest_path(&g, 99, 1), None);
    assert_eq!(shortest_path(&g, 99, 99), None);
}

#[test]
fn unreachable_target_yields_no_path() {
    let mut g = Graph::new();
    let edges: Vec<(usize, usize)> = vec![(1, 2), (8, 9)];
    assert!(g.ingest(&edges).is_ok());
    assert_eq!(shortest_path(&g, 1, 9), None);
    assert_eq!(dijkstra(&g, 1, 9), None);
}

#[test]
fn equal_cost_tie_breaks_to_smaller_node_id() {
    let mut g = Graph::new();
    assert!(g.add_edge(1, 2, 1));
    assert!(g.add_edge(1, 3, 1));
    assert!(g.add_edge(2, 4, 1));
    assert!(g.add_edge(3, 4, 1));
    let (p, c) = shortest_path_with_cost(&g, 1, 4).unwrap();
    assert_eq!(c, 2);
    assert_eq!(p, vec![1, 2, 4]);
}

#[test]
fn unit_weight_chain_costs_its_length() {
    let mut g = Graph::new();
    let edges: Vec<(usize, usize)> = vec![(0, 1), (1, 2), (2, 3), (3, 4)];
    assert!(g.ingest(&edges).is_ok());
    assert_eq!(shortest_path(&g, 0, 4), Some(4));
    assert_eq!(dijkstra(&g, 0, 4), Some(vec![0, 1, 2, 3, 4]));
}
