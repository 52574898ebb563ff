//! Laws of the generated shapes: their edge counts, their clustering, and
//! that they are simple undirected graphs.
use crate::graph::{
    cells_fit, count_right, count_upper, edge, edge_count, has_edges, is_undirected,
    lemma_count_right_one,
};
use crate::metrics::{
    lemma_clustering_one, lemma_clustering_zero, lemma_neighbors_below, local_clustering,
    neighbor_list,
};
use crate::topology::{
    chain, generated, lattice, lemma_pair_total, mesh, pairs_before, ring, star, Topology,
};
use vstd::prelude::*;

verus! {

proof fn lemma_count_right_mesh(i: int, end: int)
    requires
        i + 1 <= end,
    ensures
        count_right(mesh(), i, end) == end - i - 1,
    decreases end - i,
{
    if end > i + 1 {
        lemma_count_right_mesh(i, end - 1);
    }
}

proof fn lemma_count_upper_mesh(n: int, rows: int)
    requires
        0 <= rows <= n,
    ensures
        count_upper(mesh(), n, rows) == pairs_before(n, rows),
    decreases rows,
{
    if rows > 0 {
        lemma_count_upper_mesh(n, rows - 1);
        lemma_count_right_mesh(rows - 1, n);
    }
}

/// The complete graph on `n` nodes has `n (n - 1) / 2` edges.
pub proof fn lemma_mesh_edge_count(n: int)
    requires
        n >= 0,
    ensures
        edge_count(mesh(), n) == n * (n - 1) / 2,
{
    lemma_count_upper_mesh(n, n);
    lemma_pair_total(n);
}

proof fn lemma_count_right_none(f: spec_fn(int, int) -> bool, i: int, end: int)
    requires
        forall|j: int| i < j < end ==> !#[trigger] f(i, j),
    ensures
        count_right(f, i, end) == 0,
    decreases end - i,
{
    if end > i + 1 {
        lemma_count_right_none(f, i, end - 1);
    }
}

proof fn lemma_count_right_all(f: spec_fn(int, int) -> bool, i: int, end: int)
    requires
        i + 1 <= end,
        forall|j: int| i < j < end ==> #[trigger] f(i, j),
    ensures
        count_right(f, i, end) == end - i - 1,
    decreases end - i,
{
    if end > i + 1 {
        lemma_count_right_all(f, i, end - 1);
    }
}

/// The count of a row whose only cells in `(i, end)` are `j1` and possibly `j2`.
proof fn lemma_count_right_at(f: spec_fn(int, int) -> bool, i: int, end: int, j1: int, j2: int)
    requires
        i < j1 < end,
        forall|j: int| i < j < end && j != j1 && j != j2 ==> !#[trigger] f(i, j),
        f(i, j1),
    ensures
        count_right(f, i, end) == if i < j2 < end && j2 != j1 && f(i, j2) { 2int } else { 1int },
    decreases end - i,
{
    if end - 1 == j1 {
        if i < j2 < end - 1 && f(i, j2) {
            lemma_count_right_at(f, i, end - 1, j2, j2);
        } else {
            lemma_count_right_none(f, i, end - 1);
        }
    } else if end - 1 == j2 && f(i, j2) {
        lemma_count_right_at(f, i, end - 1, j1, j1);
    } else {
        lemma_count_right_at(f, i, end - 1, j1, j2);
    }
}

proof fn lemma_count_upper_star(n: int, rows: int)
    requires
        1 <= rows <= n,
    ensures
        count_upper(star(), n, rows) == n - 1,
    decreases rows,
{
    if rows == 1 {
        assert(count_upper(star(), n, 0) == 0);
        lemma_count_right_all(star(), 0, n);
    } else {
        lemma_count_upper_star(n, rows - 1);
        lemma_count_right_none(star(), rows - 1, n);
    }
}

/// The star on `n >= 1` nodes has `n - 1` edges.
pub proof fn lemma_star_edge_count(n: int)
    requires
        n >= 1,
    ensures
        edge_count(star(), n) == n - 1,
{
    lemma_count_upper_star(n, n);
}

proof fn lemma_count_upper_chain(n: int, rows: int)
    requires
        0 <= rows <= n,
        rows < n,
    ensures
        count_upper(chain(), n, rows) == rows,
    decreases rows,
{
    if rows > 0 {
        lemma_count_upper_chain(n, rows - 1);
        lemma_count_right_at(chain(), rows - 1, n, rows, rows);
    }
}

/// The chain on `n >= 1` nodes has `n - 1` edges.
pub proof fn lemma_chain_edge_count(n: int)
    requires
        n >= 1,
    ensures
        edge_count(chain(), n) == n - 1,
{
    lemma_count_upper_chain(n, n - 1);
    lemma_count_right_none(chain(), n - 1, n);
}

proof fn lemma_count_upper_ring(n: int, rows: int)
    requires
        3 <= n,
        1 <= rows <= n - 1,
    ensures
        count_upper(ring(n), n, rows) == rows + 1,
    decreases rows,
{
    if rows == 1 {
        assert(count_upper(ring(n), n, 0) == 0);
        assert(ring(n)(0, n - 1));
        lemma_count_right_at(ring(n), 0, n, 1, n - 1);
    } else {
        lemma_count_upper_ring(n, rows - 1);
        lemma_count_right_at(ring(n), rows - 1, n, rows, rows);
    }
}

/// The ring on `n >= 3` nodes has `n` edges.
pub proof fn lemma_ring_edge_count(n: int)
    requires
        n >= 3,
    ensures
        edge_count(ring(n), n) == n,
{
    lemma_count_upper_ring(n, n - 1);
    lemma_count_right_none(ring(n), n - 1, n);
}

/// Every topology but a custom one is generated as a simple undirected graph
/// on `n` nodes: a symmetric `n × n` matrix with no edge from a node to
/// itself.
pub proof fn lemma_generated_is_undirected(topology: Topology, n: int, adj: Seq<Vec<bool>>)
    requires
        !(topology is Custom),
        generated(topology, n, adj),
    ensures
        adj.len() == n,
        is_undirected(adj),
{
    match topology {
        Topology::Star => {
            assert forall|i: int, j: int| 0 <= i < n && 0 <= j < n implies #[trigger] edge(adj, i, j) == edge(adj, j, i) by {
                assert(edge(adj, i, j) == star()(i, j));
                assert(edge(adj, j, i) == star()(j, i));
            }
            assert forall|i: int| 0 <= i < n implies !#[trigger] edge(adj, i, i) by {
                assert(edge(adj, i, i) == star()(i, i));
            }
        },
        Topology::Chain => {
            assert forall|i: int, j: int| 0 <= i < n && 0 <= j < n implies #[trigger] edge(adj, i, j) == edge(adj, j, i) by {
                assert(edge(adj, i, j) == chain()(i, j));
                assert(edge(adj, j, i) == chain()(j, i));
            }
            assert forall|i: int| 0 <= i < n implies !#[trigger] edge(adj, i, i) by {
                assert(edge(adj, i, i) == chain()(i, i));
            }
        },
        Topology::Ring => {
            assert forall|i: int, j: int| 0 <= i < n && 0 <= j < n implies #[trigger] edge(adj, i, j) == edge(adj, j, i) by {
                assert(edge(adj, i, j) == ring(n)(i, j));
                assert(edge(adj, j, i) == ring(n)(j, i));
            }
            assert forall|i: int| 0 <= i < n implies !#[trigger] edge(adj, i, i) by {
                assert(edge(adj, i, i) == ring(n)(i, i));
            }
        },
        Topology::Mesh => {
            assert forall|i: int, j: int| 0 <= i < n && 0 <= j < n implies #[trigger] edge(adj, i, j) == edge(adj, j, i) by {
                assert(edge(adj, i, j) == mesh()(i, j));
                assert(edge(adj, j, i) == mesh()(j, i));
            }
            assert forall|i: int| 0 <= i < n implies !#[trigger] edge(adj, i, i) by {
                assert(edge(adj, i, i) == mesh()(i, i));
            }
        },
        _ => {},
    }
}


/// In a star no node has two linked neighbours: every clustering
/// coefficient is zero.
pub proof fn lemma_star_clustering(adj: Seq<Vec<bool>>, n: int, v: int)
    requires
        has_edges(adj, n, star()),
        n <= usize::MAX,
        0 <= v < n,
    ensures
        local_clustering(adj, v).numerator == 0,
{
    assert forall|a: int, b: int|
        0 <= a < adj.len() && 0 <= b < adj.len() && a != b && edge(adj, v, a) && edge(adj, v, b) implies !#[trigger] edge(adj, a, b) by {
        assert(edge(adj, v, a) == star()(v, a));
        assert(edge(adj, v, b) == star()(v, b));
        assert(edge(adj, a, b) == star()(a, b));
    }
    lemma_clustering_zero(adj, v);
}

/// In a ring of at least four nodes the two neighbours of a node are not
/// linked: every clustering coefficient is zero.
pub proof fn lemma_ring_clustering(adj: Seq<Vec<bool>>, n: int, v: int)
    requires
        has_edges(adj, n, ring(n)),
        4 <= n <= usize::MAX,
        0 <= v < n,
    ensures
        local_clustering(adj, v).numerator == 0,
{
    assert forall|a: int, b: int|
        0 <= a < adj.len() && 0 <= b < adj.len() && a != b && edge(adj, v, a) && edge(adj, v, b) implies !#[trigger] edge(adj, a, b) by {
        assert(edge(adj, v, a) == ring(n)(v, a));
        assert(edge(adj, v, b) == ring(n)(v, b));
        assert(edge(adj, a, b) == ring(n)(a, b));
    }
    lemma_clustering_zero(adj, v);
}

/// In a complete graph of at least three nodes every two neighbours are
/// linked: every clustering coefficient is one.
pub proof fn lemma_mesh_clustering(adj: Seq<Vec<bool>>, n: int, v: int)
    requires
        has_edges(adj, n, mesh()),
        3 <= n,
        cells_fit(n),
        0 <= v < n,
    ensures
        local_clustering(adj, v).numerator == local_clustering(adj, v).denominator,
        local_clustering(adj, v).denominator > 0,
{
    assert forall|a: int, b: int|
        0 <= a < adj.len() && 0 <= b < adj.len() && a != b && edge(adj, v, a) && edge(adj, v, b) implies #[trigger] edge(adj, a, b) by {
        assert(edge(adj, a, b) == mesh()(a, b));
    }
    assert(n <= usize::MAX) by (nonlinear_arith)
        requires cells_fit(n), 3 <= n;
    lemma_neighbors_below(adj, v, n);
    let nb = neighbor_list(adj, v);
    let a = if v == 0 { 1int } else { 0int };
    let b = if v == 2 { 1int } else { 2int };
    assert(edge(adj, v, a) == mesh()(v, a));
    assert(edge(adj, v, b) == mesh()(v, b));
    assert(nb.contains(a as usize));
    assert(nb.contains(b as usize));
    let i = choose|i: int| 0 <= i < nb.len() && nb[i] == a as usize;
    let j = choose|j: int| 0 <= j < nb.len() && nb[j] == b as usize;
    assert(i != j);
    lemma_clustering_one(adj, v);
}


/// `f` with the cell `(r, c)` cleared.
spec fn without(f: spec_fn(int, int) -> bool, r: int, c: int) -> spec_fn(int, int) -> bool {
    |a: int, b: int| if a == r && b == c { false } else { f(a, b) }
}

proof fn lemma_count_upper_lattice(n: int, rows: int)
    requires
        5 <= n,
        2 <= rows <= n - 2,
    ensures
        count_upper(lattice(n), n, rows) == 2 * rows + 3,
    decreases rows,
{
    let f = lattice(n);
    if rows == 2 {
        // row 0 links 1, 2, n - 2 and n - 1
        let g1 = without(f, 0, n - 1);
        let g2 = without(g1, 0, n - 2);
        assert(f(0, 1) && f(0, 2) && f(0, n - 2) && f(0, n - 1));
        lemma_count_right_at(g2, 0, n, 1, 2);
        lemma_count_right_one(g1, g2, 0, n - 2, n);
        lemma_count_right_one(f, g1, 0, n - 1, n);
        // row 1 links 2, 3 and n - 1
        let h = without(f, 1, n - 1);
        assert(f(1, 2) && f(1, 3) && f(1, n - 1));
        lemma_count_right_at(h, 1, n, 2, 3);
        lemma_count_right_one(f, h, 1, n - 1, n);
        assert(count_right(f, 0, n) == 4);
        assert(count_right(f, 1, n) == 3);
        assert(count_upper(f, n, 0) == 0);
        assert(count_upper(f, n, 1) == 4);
    } else {
        lemma_count_upper_lattice(n, rows - 1);
        let i = rows - 1;
        assert(f(i, i + 1) && f(i, i + 2));
        lemma_count_right_at(f, i, n, i + 1, i + 2);
        assert(count_right(f, i, n) == 2);
    }
}

/// The ring lattice of `n >= 5` nodes, and so every small world that is
/// rewired from it, has `2 n` edges.
pub proof fn lemma_lattice_edge_count(n: int)
    requires
        n >= 5,
    ensures
        edge_count(lattice(n), n) == 2 * n,
{
    let f = lattice(n);
    lemma_count_upper_lattice(n, n - 2);
    assert(f(n - 2, n - 1));
    lemma_count_right_at(f, n - 2, n, n - 1, n - 1);
    lemma_count_right_none(f, n - 1, n);
    assert(count_upper(f, n, n - 1) == 2 * n);
    assert(count_upper(f, n, n) == 2 * n);
}

} // verus!
