use graph_analytics::community::louvain_community_detection;
use graph_analytics::graph::Graph;

#[test]
fn triangle_collapses_into_one_community() {
    let mut g = Graph::new();
    let edges: Vec<(usize, usize)> = vec![(1, 2), (2, 3), (3, 1)];
    assert!(g.ingest(&edges).is_ok());
    let pairs = louvain_community_detection(&g).unwrap();
    assert_eq!(pairs.len(), 3);
    assert_eq!(pairs[0].0, 1);
    assert_eq!(pairs[1].0, 2);
    assert_eq!(pairs[2].0, 3);
    assert_eq!(pairs[0].1, pairs[1].1);
    assert_eq!(pairs[1].1, pairs[2].1);
}

#[test]
fn disconnected_pairs_stay_apart() {
    let mut g = Graph::new();
    let edges: Vec<(usize, usize)> = vec![(1, 2), (8, 9)];
    assert!(g.ingest(&edges).is_ok());
    let pairs = louvain_community_detection(&g).unwrap();
    assert_eq!(pairs.len(), 4);
    assert_eq!(pairs[0].1, pairs[1].1);
    assert_eq!(pairs[2].1, pairs[3].1);
    assert_ne!(pairs[0].1, pairs[2].1);
}

#[test]
fn empty_graph_has_no_communities() {
    let g = Graph::new();
    let pairs = louvain_community_detection(&g).unwrap();
    assert_eq!(pairs.len(), 0);
}

#[test]
fn two_cliques_with_bridge_split_in_two() {
    let mut g = Graph::new();
    let edges: Vec<(usize, usize)> = vec![
        (1, 2),
        (2, 3),
        (3, 1),
        (4, 5),
        (5, 6),
        (6, 4),
        (3, 4),
    ];
    assert!(g.ingest(&edges).is_ok());
    let pairs = louvain_community_detection(&g).unwrap();
    assert_eq!(pairs.len(), 6);
    // each triangle ends up in a single community
    assert_eq!(pairs[0].1, pairs[1].1);
    assert_eq!(pairs[1].1, pairs[2].1);
    assert_eq!(pairs[3].1, pairs[4].1);
    assert_eq!(pairs[4].1, pairs[5].1);
    assert_ne!(pairs[0].1, pairs[3].1);
}

#[test]
fn extreme_weights_report_overflow() {
    let mut g = Graph::new();
    // weighted degrees at the machine maximum push the exact k_i * k_j
    // product past the 128-bit signed range
    assert!(g.add_edge(1, 2, usize::MAX));
    assert!(g.add_edge(3, 4, usize::MAX));
    assert!(louvain_community_detection(&g).is_err());
}
