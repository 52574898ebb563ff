use topology_bench::{
    bfs_distances, generate, local_clustering_coefficient, neighbors, path_metrics, Fraction,
    PathLength, Topology,
};

/// The average path length as the floating-point quotient that the
/// benchmark reports.
fn average(p: Option<PathLength>) -> Option<f64> {
    p.map(|p| {
        if p.pair_count > 0 {
            p.total_distance as f64 / p.pair_count as f64
        } else {
            0.0
        }
    })
}

fn value(f: Fraction) -> f64 {
    f.numerator as f64 / f.denominator as f64
}

fn to_edges(w: &[Vec<f64>]) -> Vec<Vec<bool>> {
    w.iter().map(|row| row.iter().map(|&x| x > 0.0).collect()).collect()
}

#[test]
fn test_star_diameter() {
    let adj = generate(&Topology::Star, 5);
    let (diam, _) = path_metrics(&adj);
    assert_eq!(diam, Some(2));
}

#[test]
fn test_chain_diameter() {
    let adj = generate(&Topology::Chain, 5);
    let (diam, _) = path_metrics(&adj);
    assert_eq!(diam, Some(4));
}

#[test]
fn test_ring_diameter() {
    let adj = generate(&Topology::Ring, 6);
    let (diam, _) = path_metrics(&adj);
    assert_eq!(diam, Some(3));
}

#[test]
fn test_mesh_diameter() {
    let adj = generate(&Topology::Mesh, 5);
    let (diam, _) = path_metrics(&adj);
    assert_eq!(diam, Some(1));
}

#[test]
fn test_avg_path_length_mesh() {
    let adj = generate(&Topology::Mesh, 4);
    let (_, avg) = path_metrics(&adj);
    assert_eq!(average(avg), Some(1.0));
}

#[test]
fn test_local_clustering_triangle() {
    // Triangle: 3 nodes all connected
    let adj = generate(&Topology::Mesh, 3);
    let cc = value(local_clustering_coefficient(&adj, 0));
    assert!((cc - 1.0).abs() < 1e-10);
}

#[test]
fn test_disconnected_graph() {
    // Two separate nodes with no edges — disconnected
    let adj = to_edges(&[vec![0.0, 0.0], vec![0.0, 0.0]]);
    let (diam, avg) = path_metrics(&adj);
    assert_eq!(diam, None);
    assert_eq!(average(avg), None);
}

#[test]
fn test_single_node_metrics() {
    let adj = generate(&Topology::Star, 1);
    let (diam, avg) = path_metrics(&adj);
    assert_eq!(diam, Some(0));
    assert_eq!(average(avg), Some(0.0));
}

#[test]
fn bfs_on_a_chain_counts_hops() {
    let adj = generate(&Topology::Chain, 5);
    assert_eq!(
        bfs_distances(&adj, 2),
        vec![Some(2), Some(1), Some(0), Some(1), Some(2)]
    );
}

#[test]
fn bfs_marks_unreachable_nodes() {
    // 0 -> 1 only (directed), 2 isolated
    let adj = vec![
        vec![false, true, false],
        vec![false, false, false],
        vec![false, false, false],
    ];
    assert_eq!(bfs_distances(&adj, 0), vec![Some(0), Some(1), None]);
    assert_eq!(bfs_distances(&adj, 1), vec![None, Some(0), None]);
}

#[test]
fn bfs_takes_shortest_walks() {
    // ring of 6: distances from 0 are 0 1 2 3 2 1
    let adj = generate(&Topology::Ring, 6);
    assert_eq!(
        bfs_distances(&adj, 0),
        vec![Some(0), Some(1), Some(2), Some(3), Some(2), Some(1)]
    );
}

#[test]
fn path_metrics_totals() {
    // chain of 4: distances 1,2,3,1,1,2 each way -> total 2 * 10 = 20 over 12 pairs
    let adj = generate(&Topology::Chain, 4);
    let (diam, avg) = path_metrics(&adj);
    assert_eq!(diam, Some(3));
    assert_eq!(avg, Some(PathLength { total_distance: 20, pair_count: 12 }));
    let (d0, a0) = path_metrics(&[]);
    assert_eq!(d0, Some(0));
    assert_eq!(a0, Some(PathLength { total_distance: 0, pair_count: 0 }));
}

#[test]
fn path_metrics_one_way_edge_is_disconnected() {
    let adj = vec![vec![false, true], vec![false, false]];
    assert_eq!(path_metrics(&adj), (None, None));
}

#[test]
fn neighbors_in_increasing_order() {
    let adj = generate(&Topology::Star, 5);
    assert_eq!(neighbors(&adj, 0), vec![1, 2, 3, 4]);
    assert_eq!(neighbors(&adj, 3), vec![0]);
    let ring = generate(&Topology::Ring, 5);
    assert_eq!(neighbors(&ring, 0), vec![1, 4]);
}

#[test]
fn local_clustering_fractions() {
    let star = generate(&Topology::Star, 5);
    assert_eq!(
        local_clustering_coefficient(&star, 0),
        Fraction { numerator: 0, denominator: 12 }
    );
    assert_eq!(
        local_clustering_coefficient(&star, 1),
        Fraction { numerator: 0, denominator: 1 }
    );
    let mesh = generate(&Topology::Mesh, 5);
    assert_eq!(
        local_clustering_coefficient(&mesh, 2),
        Fraction { numerator: 12, denominator: 12 }
    );
    // a triangle 0-1-2 with a pendant 3 on node 0: neighbours of 0 are 1, 2, 3
    let adj = vec![
        vec![false, true, true, true],
        vec![true, false, true, false],
        vec![true, true, false, false],
        vec![true, false, false, false],
    ];
    assert_eq!(
        local_clustering_coefficient(&adj, 0),
        Fraction { numerator: 2, denominator: 6 }
    );
}

#[test]
fn ring_star_mesh_clustering() {
    for n in 4..9 {
        let ring = generate(&Topology::Ring, n);
        let star = generate(&Topology::Star, n);
        let mesh = generate(&Topology::Mesh, n);
        for v in 0..n {
            assert_eq!(local_clustering_coefficient(&ring, v).numerator, 0);
            assert_eq!(local_clustering_coefficient(&star, v).numerator, 0);
            let c = local_clustering_coefficient(&mesh, v);
            assert_eq!(c.numerator, c.denominator);
            assert_eq!(c.denominator, (n - 1) * (n - 2));
        }
    }
    // in a ring of three nodes the two neighbours are linked
    let triangle = generate(&Topology::Ring, 3);
    assert_eq!(value(local_clustering_coefficient(&triangle, 0)), 1.0);
}

#[test]
fn longer_rows_are_read_up_to_n() {
    // rows longer than the number of nodes: the extra entries are not read
    let adj = vec![
        vec![false, true, true, true],
        vec![true, false, false, true],
    ];
    assert_eq!(bfs_distances(&adj, 0), vec![Some(0), Some(1)]);
    assert_eq!(path_metrics(&adj).0, Some(1));
    assert_eq!(neighbors(&adj, 1), vec![0]);
    assert_eq!(
        local_clustering_coefficient(&adj, 0),
        Fraction { numerator: 0, denominator: 1 }
    );
}
