//! Laws of the path metrics and of the clustering coefficient, stated over
//! shortest distances and over the edges between neighbours.
use crate::graph::{cells_fit, distance, edge, lemma_distance_of_reachable, reachable};
use crate::metrics::{
    all_connected, diameter, distance_max_upto, distance_sum_upto, lemma_neighbors_below,
    lemma_pair_links_bound, local_clustering, neighbor_list, neighbors_below, pair_links,
    row_distance_max, row_distance_sum, row_links, total_distance,
};
use vstd::prelude::*;

verus! {

proof fn lemma_row_max_ge(adj: Seq<Vec<bool>>, s: int, t: int, end: int)
    requires
        0 <= t < end,
        t != s,
    ensures
        distance(adj, s, t) <= row_distance_max(adj, s, end),
    decreases end,
{
    if t < end - 1 {
        lemma_row_max_ge(adj, s, t, end - 1);
    }
}

proof fn lemma_rows_max_ge(adj: Seq<Vec<bool>>, s: int, rows: int)
    requires
        0 <= s < rows,
    ensures
        row_distance_max(adj, s, adj.len() as int) <= distance_max_upto(adj, rows),
    decreases rows,
{
    if s < rows - 1 {
        lemma_rows_max_ge(adj, s, rows - 1);
    }
}

/// The diameter is at least the distance between any two distinct nodes.
pub proof fn lemma_diameter_at_least(adj: Seq<Vec<bool>>, s: int, t: int)
    requires
        0 <= s < adj.len(),
        0 <= t < adj.len(),
        s != t,
    ensures
        distance(adj, s, t) <= diameter(adj),
{
    lemma_row_max_ge(adj, s, t, adj.len() as int);
    lemma_rows_max_ge(adj, s, adj.len() as int);
}

/// The largest distance of a row is 0 or the distance to one of its nodes.
proof fn lemma_row_max_attained(adj: Seq<Vec<bool>>, s: int, end: int) -> (t: int)
    ensures
        row_distance_max(adj, s, end) == 0 || (0 <= t < end && t != s && row_distance_max(adj, s, end)
            == distance(adj, s, t)),
    decreases end,
{
    if end <= 0 {
        0
    } else if end - 1 == s {
        lemma_row_max_attained(adj, s, end - 1)
    } else {
        let u = lemma_row_max_attained(adj, s, end - 1);
        if row_distance_max(adj, s, end - 1) >= distance(adj, s, end - 1) {
            u
        } else {
            end - 1
        }
    }
}

proof fn lemma_rows_max_attained(adj: Seq<Vec<bool>>, rows: int) -> (st: (int, int))
    requires
        rows <= adj.len(),
    ensures
        distance_max_upto(adj, rows) == 0 || (0 <= st.0 < rows && 0 <= st.1 < adj.len() && st.0 != st.1
            && distance_max_upto(adj, rows) == distance(adj, st.0, st.1)),
    decreases rows,
{
    if rows <= 0 {
        (0, 0)
    } else {
        let p = lemma_rows_max_attained(adj, rows - 1);
        let t = lemma_row_max_attained(adj, rows - 1, adj.len() as int);
        if distance_max_upto(adj, rows - 1) >= row_distance_max(adj, rows - 1, adj.len() as int) {
            p
        } else {
            (rows - 1, t)
        }
    }
}

/// In a connected graph of at least two nodes the diameter is the distance
/// of some pair of distinct nodes, and every pair is at most that far apart.
pub proof fn lemma_diameter_is_largest_distance(adj: Seq<Vec<bool>>)
    requires
        adj.len() >= 2,
        all_connected(adj),
    ensures
        exists|s: int, t: int|
            0 <= s < adj.len() && 0 <= t < adj.len() && s != t && #[trigger] distance(adj, s, t) == diameter(adj),
        forall|s: int, t: int|
            0 <= s < adj.len() && 0 <= t < adj.len() && s != t ==> #[trigger] distance(adj, s, t) <= diameter(adj),
{
    assert forall|s: int, t: int|
        0 <= s < adj.len() && 0 <= t < adj.len() && s != t implies #[trigger] distance(adj, s, t) <= diameter(adj) by {
        lemma_diameter_at_least(adj, s, t);
    }
    assert(reachable(adj, 0, 1));
    lemma_distance_of_reachable(adj, 0, 1);
    lemma_diameter_at_least(adj, 0, 1);
    let st = lemma_rows_max_attained(adj, adj.len() as int);
    assert(distance(adj, st.0, st.1) == diameter(adj));
}

proof fn lemma_row_sum_bounds(adj: Seq<Vec<bool>>, s: int, end: int)
    requires
        0 <= s < adj.len(),
        end <= adj.len(),
        all_connected(adj),
    ensures
        row_distance_sum(adj, s, end) >= (if end <= 0 { 0 } else if s < end { end - 1 } else { end }),
        row_distance_sum(adj, s, end) <= diameter(adj) * (if end <= 0 { 0 } else if s < end { end - 1 } else { end }),
    decreases end,
{
    if end > 0 {
        lemma_row_sum_bounds(adj, s, end - 1);
        let t = end - 1;
        let c = if end - 1 <= 0 { 0int } else if s < end - 1 { end - 2 } else { end - 1 };
        let dm = diameter(adj) as int;
        if t != s {
            assert(reachable(adj, s, t));
            lemma_distance_of_reachable(adj, s, t);
            lemma_diameter_at_least(adj, s, t);
            let d = distance(adj, s, t) as int;
            assert(dm * c + d <= dm * (c + 1)) by (nonlinear_arith)
                requires d <= dm;
        }
    }
}

proof fn lemma_sum_bounds(adj: Seq<Vec<bool>>, rows: int)
    requires
        0 <= rows <= adj.len(),
        all_connected(adj),
    ensures
        distance_sum_upto(adj, rows) >= rows * (adj.len() - 1),
        distance_sum_upto(adj, rows) <= diameter(adj) * (rows * (adj.len() - 1)),
    decreases rows,
{
    let n = adj.len() as int;
    let dm = diameter(adj) as int;
    if rows > 0 {
        lemma_sum_bounds(adj, rows - 1);
        lemma_row_sum_bounds(adj, rows - 1, n);
        let p = distance_sum_upto(adj, rows - 1) as int;
        let r = row_distance_sum(adj, rows - 1, n) as int;
        assert(p + r >= rows * (n - 1)) by (nonlinear_arith)
            requires p >= (rows - 1) * (n - 1), r >= n - 1;
        assert(p + r <= dm * (rows * (n - 1))) by (nonlinear_arith)
            requires p <= dm * ((rows - 1) * (n - 1)), r <= dm * (n - 1);
    } else {
        assert(rows * (n - 1) == 0) by (nonlinear_arith)
            requires rows == 0;
        assert(dm * (rows * (n - 1)) == 0) by (nonlinear_arith)
            requires rows == 0;
    }
}

/// In a connected graph every ordered pair of distinct nodes is at least one
/// and at most the diameter apart, so the total distance lies between the
/// number of pairs and the diameter times that number.
pub proof fn lemma_total_distance_bounds(adj: Seq<Vec<bool>>)
    requires
        all_connected(adj),
    ensures
        adj.len() * (adj.len() - 1) <= total_distance(adj),
        total_distance(adj) <= diameter(adj) * (adj.len() * (adj.len() - 1)),
{
    lemma_sum_bounds(adj, adj.len() as int);
}


proof fn lemma_row_sum_with(adj: Seq<Vec<bool>>, s: int, t: int, end: int)
    requires
        0 <= s < adj.len(),
        0 <= t < adj.len(),
        s != t,
        end <= adj.len(),
        all_connected(adj),
    ensures
        row_distance_sum(adj, s, end) >= (if end <= 0 { 0 } else if s < end { end - 1 } else { end })
            + (if t < end { distance(adj, s, t) - 1 } else { 0 }),
    decreases end,
{
    if end > 0 {
        lemma_row_sum_with(adj, s, t, end - 1);
        let u = end - 1;
        if u != s {
            assert(reachable(adj, s, u));
            lemma_distance_of_reachable(adj, s, u);
        }
    }
}

proof fn lemma_sum_with(adj: Seq<Vec<bool>>, s: int, t: int, rows: int)
    requires
        0 <= s < adj.len(),
        0 <= t < adj.len(),
        s != t,
        0 <= rows <= adj.len(),
        all_connected(adj),
    ensures
        distance_sum_upto(adj, rows) >= rows * (adj.len() - 1) + (if s < rows { distance(adj, s, t) - 1 } else { 0 }),
    decreases rows,
{
    let n = adj.len() as int;
    if rows > 0 {
        lemma_sum_with(adj, s, t, rows - 1);
        assert(reachable(adj, s, t));
        lemma_distance_of_reachable(adj, s, t);
        if rows - 1 == s {
            lemma_row_sum_with(adj, s, t, n);
        } else {
            lemma_row_sum_bounds(adj, rows - 1, n);
        }
        assert(rows * (n - 1) == (rows - 1) * (n - 1) + (n - 1)) by (nonlinear_arith);
    } else {
        assert(rows * (n - 1) == 0) by (nonlinear_arith)
            requires rows == 0;
    }
}

/// In a connected graph the total distance counts the distance of every
/// ordered pair of distinct nodes: with each of the other pairs at least one
/// apart, it is at least the distance from `s` to `t` plus the number of the
/// other pairs.
pub proof fn lemma_total_distance_counts_pair(adj: Seq<Vec<bool>>, s: int, t: int)
    requires
        all_connected(adj),
        0 <= s < adj.len(),
        0 <= t < adj.len(),
        s != t,
    ensures
        total_distance(adj) >= distance(adj, s, t) + adj.len() * (adj.len() - 1) - 1,
{
    lemma_sum_with(adj, s, t, adj.len() as int);
}

/// The number of neighbours `a < m` of `v` with an edge from `a` to `x`.
pub open spec fn links_into(adj: Seq<Vec<bool>>, v: int, x: int, m: int) -> nat
    decreases m,
{
    if m <= 0 {
        0
    } else {
        links_into(adj, v, x, m - 1) + if edge(adj, v, m - 1) && edge(adj, m - 1, x) {
            1nat
        } else {
            0nat
        }
    }
}

/// The number of pairs `a < b < end` of neighbours of `v` with an edge from
/// `a` to `b`, counted by their larger node.
pub open spec fn linked_neighbor_pairs(adj: Seq<Vec<bool>>, v: int, end: int) -> nat
    decreases end,
{
    if end <= 0 {
        0
    } else {
        linked_neighbor_pairs(adj, v, end - 1) + if edge(adj, v, end - 1) {
            links_into(adj, v, end - 1, end - 1)
        } else {
            0
        }
    }
}

/// The number of nodes `u < end` with an edge from `v`.
pub open spec fn degree(adj: Seq<Vec<bool>>, v: int, end: int) -> nat
    decreases end,
{
    if end <= 0 {
        0
    } else {
        degree(adj, v, end - 1) + if edge(adj, v, end - 1) {
            1nat
        } else {
            0nat
        }
    }
}

/// The positions `i < rows` of `nb` whose node has an edge to `x`.
spec fn col_links(adj: Seq<Vec<bool>>, nb: Seq<usize>, x: int, rows: int) -> nat
    decreases rows,
{
    if rows <= 0 {
        0
    } else {
        col_links(adj, nb, x, rows - 1) + if edge(adj, nb[rows - 1] as int, x) {
            1nat
        } else {
            0nat
        }
    }
}

proof fn lemma_row_links_push(adj: Seq<Vec<bool>>, nb: Seq<usize>, y: usize, i: int, end: int)
    requires
        0 <= i,
        end <= nb.len(),
    ensures
        row_links(adj, nb.push(y), i, end) == row_links(adj, nb, i, end),
    decreases end - i,
{
    if end > i + 1 {
        lemma_row_links_push(adj, nb, y, i, end - 1);
        assert(nb.push(y)[i] == nb[i]);
        assert(nb.push(y)[end - 1] == nb[end - 1]);
    }
}

proof fn lemma_pair_links_push_rows(adj: Seq<Vec<bool>>, nb: Seq<usize>, y: usize, rows: int)
    requires
        0 <= rows <= nb.len(),
    ensures
        pair_links(adj, nb.push(y), rows) == pair_links(adj, nb, rows) + col_links(adj, nb, y as int, rows),
    decreases rows,
{
    if rows > 0 {
        let q = nb.push(y);
        let i = rows - 1;
        lemma_pair_links_push_rows(adj, nb, y, rows - 1);
        lemma_row_links_push(adj, nb, y, i, nb.len() as int);
        assert(q[i] == nb[i]);
        assert(q[nb.len() as int] == y);
        assert(row_links(adj, q, i, q.len() as int) == row_links(adj, q, i, nb.len() as int) + if edge(adj, q[i] as int, q[nb.len() as int] as int) {
            1nat
        } else {
            0nat
        });
    }
}

proof fn lemma_pair_links_push(adj: Seq<Vec<bool>>, nb: Seq<usize>, y: usize)
    ensures
        pair_links(adj, nb.push(y), (nb.len() + 1) as int) == pair_links(adj, nb, nb.len() as int) + col_links(adj, nb, y as int, nb.len() as int),
{
    lemma_pair_links_push_rows(adj, nb, y, nb.len() as int);
    let q = nb.push(y);
    assert(row_links(adj, q, nb.len() as int, q.len() as int) == 0);
}

proof fn lemma_col_links_push(adj: Seq<Vec<bool>>, nb: Seq<usize>, y: usize, x: int, rows: int)
    requires
        0 <= rows <= nb.len(),
    ensures
        col_links(adj, nb.push(y), x, rows) == col_links(adj, nb, x, rows),
    decreases rows,
{
    if rows > 0 {
        lemma_col_links_push(adj, nb, y, x, rows - 1);
        assert(nb.push(y)[rows - 1] == nb[rows - 1]);
    }
}

proof fn lemma_col_links_neighbors(adj: Seq<Vec<bool>>, v: int, x: int, end: int)
    requires
        0 <= end <= adj.len(),
        adj.len() <= usize::MAX,
    ensures
        col_links(adj, neighbors_below(adj, v, end), x, neighbors_below(adj, v, end).len() as int) == links_into(adj, v, x, end),
    decreases end,
{
    if end > 0 {
        lemma_col_links_neighbors(adj, v, x, end - 1);
        let p = neighbors_below(adj, v, end - 1);
        if edge(adj, v, end - 1) {
            let y = (end - 1) as usize;
            lemma_col_links_push(adj, p, y, x, p.len() as int);
            assert(p.push(y)[p.len() as int] == y);
        }
    }
}

proof fn lemma_pairs_of_neighbors(adj: Seq<Vec<bool>>, v: int, end: int)
    requires
        0 <= end <= adj.len(),
        adj.len() <= usize::MAX,
    ensures
        pair_links(adj, neighbors_below(adj, v, end), neighbors_below(adj, v, end).len() as int) == linked_neighbor_pairs(adj, v, end),
        neighbors_below(adj, v, end).len() == degree(adj, v, end),
    decreases end,
{
    if end > 0 {
        lemma_pairs_of_neighbors(adj, v, end - 1);
        let p = neighbors_below(adj, v, end - 1);
        if edge(adj, v, end - 1) {
            let y = (end - 1) as usize;
            lemma_pair_links_push(adj, p, y);
            lemma_col_links_neighbors(adj, v, end - 1, end - 1);
        }
    }
}

/// The local clustering coefficient of `v` with `k` neighbours is
/// `2 l / (k (k - 1))` where `l` counts the unordered pairs of distinct
/// neighbours of `v` that are linked (by an edge from the smaller to the
/// larger), whatever order they come in; with fewer than two neighbours it
/// is `0 / 1`.
pub proof fn lemma_clustering_counts_linked_pairs(adj: Seq<Vec<bool>>, v: int)
    requires
        cells_fit(adj.len() as int),
        0 <= v < adj.len(),
    ensures
        neighbor_list(adj, v).len() == degree(adj, v, adj.len() as int),
        degree(adj, v, adj.len() as int) >= 2 ==> {
            &&& local_clustering(adj, v).numerator == 2 * linked_neighbor_pairs(adj, v, adj.len() as int)
            &&& local_clustering(adj, v).denominator == degree(adj, v, adj.len() as int) * (degree(adj, v, adj.len() as int) - 1)
        },
        degree(adj, v, adj.len() as int) < 2 ==> local_clustering(adj, v).numerator == 0 && local_clustering(adj, v).denominator == 1,
{
    let n = adj.len() as int;
    assert(n <= usize::MAX) by (nonlinear_arith)
        requires cells_fit(n), n >= 1;
    lemma_pairs_of_neighbors(adj, v, n);
    lemma_neighbors_below(adj, v, n);
    let nb = neighbor_list(adj, v);
    let k = nb.len() as int;
    if k >= 2 {
        lemma_pair_links_bound(adj, nb, k);
        assert(k * (2 * k - k - 1) == k * (k - 1)) by (nonlinear_arith);
        assert(k * (k - 1) <= n * n) by (nonlinear_arith)
            requires 2 <= k <= n;
    }
}

} // verus!
