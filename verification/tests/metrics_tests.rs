use graph_analytics::graph::{AnalyticsError, Graph};
use graph_analytics::metrics::{
    count_common, get_all_cl_coef, get_avg_cl_coef, get_avg_cm_nb, get_avg_dg, get_cl_coef,
    get_cl_coef_dis, get_cl_ds, get_cl_ef, get_cl_ef_dis, get_dg_dis, get_max_cm_ng, get_max_dg,
};
use graph_analytics::ratio::Ratio;

fn triangle() -> Graph {
    let mut g = Graph::new();
    let edges: Vec<(usize, usize)> = vec![(1, 2), (2, 3), (3, 1)];
    assert!(g.ingest(&edges).is_ok());
    g
}

fn path3() -> Graph {
    let mut g = Graph::new();
    let edges: Vec<(usize, usize)> = vec![(1, 2), (2, 3)];
    assert!(g.ingest(&edges).is_ok());
    g
}

#[test]
fn triangle_degrees_and_average() {
    let g = triangle();
    assert_eq!(get_max_dg(&g), 2);
    let avg = get_avg_dg(&g);
    // exactly 6 / 3
    assert_eq!(avg.num, 6);
    assert_eq!(avg.den, 3);
}

#[test]
fn max_degree_dominates_average() {
    let g = path3();
    let avg = get_avg_dg(&g);
    let mx = get_max_dg(&g) as u128;
    // max >= sum/n as exact cross-multiplied inequality
    assert!(mx * avg.den >= avg.num);
}

#[test]
fn degree_distribution_sorted_ascending() {
    let g = path3();
    // degrees: node 1 -> 1, node 2 -> 2, node 3 -> 1
    assert_eq!(get_dg_dis(&g), vec![(1, 2), (2, 1)]);
}

#[test]
fn triangle_clustering_coefficient_is_one() {
    let g = triangle();
    for node in [1usize, 2, 3] {
        let c = get_cl_coef(&g, node);
        assert_eq!(c.num, c.den);
        assert!(c.num > 0);
    }
}

#[test]
fn low_degree_coefficient_is_zero() {
    let g = path3();
    // the middle node has two non-adjacent neighbors; the ends have degree 1
    let mid = get_cl_coef(&g, 2);
    assert_eq!(mid.num, 0);
    assert_eq!(get_cl_coef(&g, 1), Ratio { num: 0, den: 1 });
    // an absent node also yields zero
    assert_eq!(get_cl_coef(&g, 99), Ratio { num: 0, den: 1 });
}

#[test]
fn coefficient_always_within_unit_interval() {
    let mut g = Graph::new();
    let edges: Vec<(usize, usize)> = vec![(1, 2), (2, 3), (3, 1), (3, 4), (4, 5)];
    assert!(g.ingest(&edges).is_ok());
    for c in get_all_cl_coef(&g) {
        assert!(c.num <= c.den);
        assert!(c.den >= 1);
    }
}

#[test]
fn triangle_average_coefficient_is_one() {
    let g = triangle();
    let q = get_avg_cl_coef(&g).unwrap();
    assert_eq!(q.num, q.den);
    assert!(q.num > 0);
}

#[test]
fn empty_graph_average_coefficient_is_zero() {
    let g = Graph::new();
    assert_eq!(get_avg_cl_coef(&g).unwrap(), Ratio { num: 0, den: 1 });
}

#[test]
fn triangle_clustering_effect() {
    let g = triangle();
    // each node contributes 2 triangle-adjacency hits; the mean is 6/3
    let q = get_cl_ef(&g).unwrap();
    assert_eq!(q.num, 6);
    assert_eq!(q.den, 3);
}

#[test]
fn triangle_clustering_effect_distribution() {
    let g = triangle();
    assert_eq!(get_cl_ds(&g).unwrap(), vec![(2, 3)]);
}

#[test]
fn common_neighbors_counts() {
    let g = triangle();
    // a node shares both of its neighbors with itself
    assert_eq!(count_common(&g, 1, 1), 2);
    // two distinct triangle corners share exactly the third corner
    assert_eq!(count_common(&g, 1, 2), 1);
    assert_eq!(get_max_cm_ng(&g), 2);
    let avg = get_avg_cm_nb(&g);
    // 3 self pairs contribute 2 each, 6 ordered distinct pairs 1 each
    assert_eq!(avg.num, 12);
    assert_eq!(avg.den, 9);
}

#[test]
fn common_neighbors_empty_graph() {
    let g = Graph::new();
    assert_eq!(get_max_cm_ng(&g), 0);
    assert_eq!(get_avg_cm_nb(&g), Ratio { num: 0, den: 1 });
}

#[test]
fn coefficient_distribution_rejects_zero_bins() {
    let g = triangle();
    assert_eq!(get_cl_coef_dis(&g, 0), Err(AnalyticsError::InvalidArgument));
}

#[test]
fn coefficient_distribution_degenerate_range() {
    let g = triangle();
    // all three coefficients are equal, so everything lands in bucket 0
    assert_eq!(get_cl_coef_dis(&g, 4).unwrap(), vec![(0, 3)]);
}

#[test]
fn coefficient_distribution_two_buckets() {
    let mut g = Graph::new();
    // triangle 1-2-3 plus pendant 4: coefficients 1, 1, between, 0
    let edges: Vec<(usize, usize)> = vec![(1, 2), (2, 3), (3, 1), (3, 4)];
    assert!(g.ingest(&edges).is_ok());
    let h = get_cl_coef_dis(&g, 2).unwrap();
    // node 4 and node 3 (1/3) fall in the low bucket, nodes 1 and 2 in the top
    assert_eq!(h, vec![(0, 2), (1, 2)]);
}

#[test]
fn per_degree_coefficient_averages() {
    let g = triangle();
    let v = get_cl_ef_dis(&g).unwrap();
    assert_eq!(v.len(), 1);
    assert_eq!(v[0].0, 2);
    // three degree-2 nodes, each with coefficient 2/2: sum 6 over 3*2*1
    assert_eq!(v[0].1, Ratio { num: 6, den: 6 });
}

#[test]
fn per_degree_low_degrees_average_zero() {
    let g = path3();
    let v = get_cl_ef_dis(&g).unwrap();
    assert_eq!(v.len(), 2);
    assert_eq!(v[0].0, 1);
    assert_eq!(v[0].1, Ratio { num: 0, den: 1 });
    assert_eq!(v[1].0, 2);
    assert_eq!(v[1].1.num, 0);
}
