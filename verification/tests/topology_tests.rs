use topology_bench::random::draw_passes;
use topology_bench::small_world_from_draws;
use topology_bench::{count_edges, generate, parse_topology, random_graph_from_draws, Topology};

/// The probability threshold of `p`: `ceil(p * 2^53)`, clamped to `0..=2^53`.
fn threshold(p: f64) -> u64 {
    if !(p > 0.0) {
        0
    } else if p >= 1.0 {
        1u64 << 53
    } else {
        (p * 9007199254740992.0).ceil() as u64
    }
}

fn edge_count(adj: &[Vec<bool>]) -> usize {
    let n = adj.len();
    let mut count = 0;
    for i in 0..n {
        for j in i + 1..n {
            if adj[i][j] {
                count += 1;
            }
        }
    }
    count
}

/// The checks of `validate` on a matrix of edges: square, empty diagonal,
/// symmetric (no entry can be negative).
fn is_valid(adj: &[Vec<bool>]) -> bool {
    let n = adj.len();
    for (i, row) in adj.iter().enumerate() {
        if row.len() != n || row[i] {
            return false;
        }
        for (j, &val) in row.iter().enumerate() {
            if val != adj[j][i] {
                return false;
            }
        }
    }
    true
}

/// The weights of a matrix of edges: 1.0 for an edge, 0.0 otherwise.
fn to_weights(adj: &[Vec<bool>]) -> Vec<Vec<f64>> {
    adj.iter()
        .map(|row| row.iter().map(|&e| if e { 1.0 } else { 0.0 }).collect())
        .collect()
}

fn to_edges(w: &[Vec<f64>]) -> Vec<Vec<bool>> {
    w.iter().map(|row| row.iter().map(|&x| x > 0.0).collect()).collect()
}

#[test]
fn test_star_edges() {
    let adj = generate(&Topology::Star, 5);
    assert_eq!(edge_count(&adj), 4);
    assert!(is_valid(&adj));
}

#[test]
fn test_chain_edges() {
    let adj = generate(&Topology::Chain, 5);
    assert_eq!(edge_count(&adj), 4);
    assert!(is_valid(&adj));
}

#[test]
fn test_ring_edges() {
    let adj = generate(&Topology::Ring, 5);
    assert_eq!(edge_count(&adj), 5);
    assert!(is_valid(&adj));
}

#[test]
fn test_ring_edges_even() {
    let adj = generate(&Topology::Ring, 6);
    assert_eq!(edge_count(&adj), 6);
}

#[test]
fn test_mesh_edges() {
    let adj = generate(&Topology::Mesh, 4);
    assert_eq!(edge_count(&adj), 6); // C(4,2) = 6
    assert!(is_valid(&adj));
}

#[test]
fn test_mesh_complete() {
    let n = 10;
    let adj = generate(&Topology::Mesh, n);
    assert_eq!(edge_count(&adj), n * (n - 1) / 2);
}

#[test]
fn test_random_expected_density() {
    // With p=1.0, random should be a complete graph
    let adj = generate(&Topology::Random(threshold(1.0)), 5);
    assert_eq!(edge_count(&adj), 10);
}

#[test]
fn test_random_zero_density() {
    let adj = generate(&Topology::Random(threshold(0.0)), 5);
    assert_eq!(edge_count(&adj), 0);
}

#[test]
fn test_custom_topology() {
    let custom = vec![
        vec![0.0, 1.0, 0.0],
        vec![1.0, 0.0, 1.0],
        vec![0.0, 1.0, 0.0],
    ];
    let adj = generate(&Topology::Custom(to_edges(&custom)), 3);
    assert_eq!(to_weights(&adj), custom);
}

#[test]
fn test_single_node() {
    for topo in &[
        Topology::Star,
        Topology::Chain,
        Topology::Ring,
        Topology::Mesh,
    ] {
        let adj = generate(topo, 1);
        assert_eq!(to_weights(&adj), vec![vec![0.0]]);
    }
}

#[test]
fn test_two_nodes_star() {
    let adj = generate(&Topology::Star, 2);
    assert_eq!(edge_count(&adj), 1);
    assert_eq!(to_weights(&adj)[0][1], 1.0);
}

#[test]
fn count_edges_matches_upper_triangle() {
    for topo in &[Topology::Star, Topology::Chain, Topology::Ring, Topology::Mesh] {
        for n in 0..12 {
            let adj = generate(topo, n);
            assert_eq!(count_edges(&adj), edge_count(&adj));
        }
    }
}

#[test]
fn star_chain_ring_mesh_edge_counts() {
    for n in 1..15usize {
        assert_eq!(count_edges(&generate(&Topology::Star, n)), n - 1);
        assert_eq!(count_edges(&generate(&Topology::Chain, n)), n - 1);
        assert_eq!(count_edges(&generate(&Topology::Mesh, n)), n * (n - 1) / 2);
        if n >= 3 {
            assert_eq!(count_edges(&generate(&Topology::Ring, n)), n);
        }
    }
    assert_eq!(count_edges(&generate(&Topology::Ring, 2)), 1);
}

#[test]
fn ring_links_neighbours_around_the_ring() {
    let adj = generate(&Topology::Ring, 6);
    assert!(adj[0][1] && adj[0][5] && adj[5][0] && adj[2][3]);
    assert!(!adj[0][2] && !adj[0][3] && !adj[0][0]);
}

#[test]
fn small_world_without_rewiring_is_the_ring_lattice() {
    let adj = generate(&Topology::SmallWorld(0), 10);
    for i in 0..10usize {
        for j in 0..10usize {
            let forward = (j + 10 - i) % 10;
            let backward = (i + 10 - j) % 10;
            let expected = (1..=2).contains(&forward) || (1..=2).contains(&backward);
            assert_eq!(adj[i][j], expected, "cell ({i}, {j})");
        }
    }
    assert_eq!(count_edges(&adj), 20);
}

#[test]
fn small_world_lattice_of_few_nodes() {
    assert_eq!(count_edges(&generate(&Topology::SmallWorld(0), 2)), 1);
    assert_eq!(count_edges(&generate(&Topology::SmallWorld(0), 3)), 3);
    assert_eq!(count_edges(&generate(&Topology::SmallWorld(0), 4)), 6);
    assert_eq!(to_weights(&generate(&Topology::SmallWorld(0), 1)), vec![vec![0.0]]);
}

#[test]
fn small_world_rewiring_keeps_the_edge_count() {
    for _ in 0..20 {
        for p in [0.3, 1.0] {
            let adj = generate(&Topology::SmallWorld(threshold(p)), 10);
            assert_eq!(adj.len(), 10);
            assert!(is_valid(&adj));
            assert_eq!(count_edges(&adj), 20);
        }
    }
}

#[test]
fn random_graph_is_undirected() {
    for _ in 0..20 {
        let adj = generate(&Topology::Random(threshold(0.5)), 8);
        assert!(is_valid(&adj));
    }
}

#[test]
fn random_graph_follows_its_draws() {
    // pairs of 3 nodes row by row: (0, 1), (0, 2), (1, 2)
    let t = 5u64;
    let draws = [5 * 2048, 4 * 2048 + 2047, 0];
    let adj = random_graph_from_draws(3, t, &draws);
    assert_eq!(
        adj,
        vec![
            vec![false, false, true],
            vec![false, false, true],
            vec![true, true, false],
        ]
    );
    let none = random_graph_from_draws(3, 0, &draws);
    assert_eq!(count_edges(&none), 0);
    let all = random_graph_from_draws(3, 1 << 53, &[u64::MAX, u64::MAX, u64::MAX]);
    assert_eq!(count_edges(&all), 3);
}

#[test]
fn threshold_draws_agree_with_unit_floats() {
    for &p in &[0.0, 0.1, 0.3, 0.5, 0.999, 1.0] {
        let t = threshold(p);
        for &draw in &[0u64, 1 << 11, 123456789012345, 1 << 63, u64::MAX, 0x4cccccccccccd000] {
            let x = (draw >> 11) as f64 / 9007199254740992.0;
            assert_eq!(draw_passes(draw, t), x < p, "p = {p}, draw = {draw}");
        }
    }
}

#[test]
fn parse_topology_names() {
    assert!(matches!(parse_topology("star", 1, 2), Some(Topology::Star)));
    assert!(matches!(parse_topology("STAR", 1, 2), Some(Topology::Star)));
    assert!(matches!(parse_topology("Chain", 1, 2), Some(Topology::Chain)));
    assert!(matches!(parse_topology("ring", 1, 2), Some(Topology::Ring)));
    assert!(matches!(parse_topology("MeSh", 1, 2), Some(Topology::Mesh)));
    assert!(matches!(parse_topology("smallworld", 1, 2), Some(Topology::SmallWorld(1))));
    assert!(matches!(parse_topology("Small_World", 1, 2), Some(Topology::SmallWorld(1))));
    assert!(matches!(parse_topology("random", 1, 2), Some(Topology::Random(2))));
    assert!(parse_topology("small world", 1, 2).is_none());
    assert!(parse_topology("stars", 1, 2).is_none());
    assert!(parse_topology("", 1, 2).is_none());
    assert!(parse_topology("stär", 1, 2).is_none());
}

#[test]
fn count_edges_reads_each_row_to_its_end() {
    // ragged rows: row i holds at least i + 1 entries
    let adj = vec![vec![false, true, true, true], vec![true, false], vec![true, true, false, true]];
    assert_eq!(count_edges(&adj), 4);
}

#[test]
fn small_world_keeps_the_edges_of_node_zero() {
    // the edges of row 0 move only to other edges of node 0, and later rows
    // never remove an edge of node 0
    for _ in 0..50 {
        let adj = generate(&Topology::SmallWorld(threshold(0.7)), 12);
        assert!(adj[0].iter().filter(|&&e| e).count() >= 4);
    }
}

#[test]
fn small_world_follows_its_draws() {
    // six nodes: the lattice links each node to the two next ones either way
    let lattice = generate(&Topology::SmallWorld(0), 6);
    // no coin passes threshold 0: the lattice comes back, one coin per edge
    assert_eq!(small_world_from_draws(6, 0, &[0; 12], &[]), Some(lattice.clone()));
    assert_eq!(small_world_from_draws(6, 0, &[0; 11], &[]), None);
    assert_eq!(small_world_from_draws(6, 0, &[0; 13], &[]), None);
    // threshold 1: only a coin below 2048 passes; the first edge (0, 1)
    // moves to (0, 3), which row 0 then meets as an edge too
    let mut coins = [u64::MAX; 13];
    coins[0] = 0;
    let moved = small_world_from_draws(6, 1, &coins, &[3]).unwrap();
    let mut expected = lattice.clone();
    expected[0][1] = false;
    expected[1][0] = false;
    expected[0][3] = true;
    expected[3][0] = true;
    assert_eq!(moved, expected);
    assert_eq!(count_edges(&moved), 12);
    // a pick left over, a pick that is not a node, a coin missing
    assert_eq!(small_world_from_draws(6, 1, &coins, &[3, 3]), None);
    assert_eq!(small_world_from_draws(6, 1, &coins, &[6]), None);
    assert_eq!(small_world_from_draws(6, 1, &coins[..12], &[3]), None);
    // blocked picks (the node itself, then a neighbour) are skipped
    let tried = small_world_from_draws(6, 1, &coins, &[0, 2, 3]).unwrap();
    assert_eq!(tried, expected);
    // when every pick is blocked the edge is put back: one pick and n more
    let mut all_fail = [u64::MAX; 12];
    all_fail[0] = 0;
    let back = small_world_from_draws(6, 1, &all_fail, &[0; 7]).unwrap();
    assert_eq!(back, lattice);
}
