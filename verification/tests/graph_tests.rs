use graph_analytics::graph::{get_edge_count, get_node_count, induced_subgraph, AnalyticsError, Graph};

#[test]
fn ingest_builds_symmetric_unit_graph() {
    let mut g = Graph::new();
    let edges: Vec<(usize, usize)> = vec![(1, 2), (2, 3)];
    assert!(g.ingest(&edges).is_ok());
    assert_eq!(get_node_count(&g), 3);
    assert_eq!(get_edge_count(&g), 2);
    assert_eq!(g.lookup_weight(1, 2), Some(1));
    assert_eq!(g.lookup_weight(2, 1), Some(1));
    assert_eq!(g.lookup_weight(1, 3), None);
}

#[test]
fn ingest_skips_self_loops() {
    let mut g = Graph::new();
    let edges: Vec<(usize, usize)> = vec![(5, 5)];
    assert!(g.ingest(&edges).is_ok());
    assert_eq!(get_node_count(&g), 0);
    assert_eq!(get_edge_count(&g), 0);
}

#[test]
fn ingest_duplicate_pair_kept_once() {
    let mut g = Graph::new();
    let edges: Vec<(usize, usize)> = vec![(1, 2), (2, 1), (1, 2)];
    assert!(g.ingest(&edges).is_ok());
    assert_eq!(get_edge_count(&g), 1);
    assert_eq!(g.lookup_weight(1, 2), Some(1));
}

#[test]
fn first_write_wins_on_weights() {
    let mut g = Graph::new();
    assert!(g.add_edge(1, 2, 5));
    assert!(g.add_edge(1, 2, 7));
    assert_eq!(g.lookup_weight(1, 2), Some(5));
    assert_eq!(g.lookup_weight(2, 1), Some(5));
}

#[test]
fn empty_graph_counts() {
    let g = Graph::new();
    assert_eq!(get_node_count(&g), 0);
    assert_eq!(get_edge_count(&g), 0);
}

#[test]
fn triangle_edge_count_is_half_degree_sum() {
    let mut g = Graph::new();
    let edges: Vec<(usize, usize)> = vec![(1, 2), (2, 3), (3, 1)];
    assert!(g.ingest(&edges).is_ok());
    // every node has degree 2, so the degree sum is 6 and the edge count 3
    assert_eq!(get_edge_count(&g), 3);
    assert_eq!(get_node_count(&g), 3);
}

#[test]
fn error_values_are_distinct() {
    assert_ne!(AnalyticsError::InvalidArgument, AnalyticsError::Overflow);
    assert_ne!(AnalyticsError::CapacityExceeded, AnalyticsError::Overflow);
}

#[test]
fn induced_subgraph_keeps_only_inner_edges() {
    let mut g = Graph::new();
    let edges: Vec<(usize, usize)> = vec![(1, 2), (2, 3), (3, 4)];
    assert!(g.ingest(&edges).is_ok());
    let picked: Vec<usize> = vec![1, 2, 4];
    let sub = induced_subgraph(&g, &picked);
    // only the edge {1, 2} has both endpoints in the set, once per direction
    assert_eq!(sub.len(), 2);
    assert!(sub.contains(&(1, 2, 1)));
    assert!(sub.contains(&(2, 1, 1)));
}
