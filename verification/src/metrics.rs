//! Benchmark metrics of a graph: shortest distances, diameter, average path
//! length and clustering.
use crate::graph::{
    cells_fit, distance, edge, is_shortest, covers_nodes, lemma_closed_holds_walks, lemma_distinct_below,
    lemma_shortest_le, lemma_shortest_unique, lemma_within_last_step, lemma_within_step,
    lemma_within_zero, reachable, within,
};
use std::collections::VecDeque;
use vstd::prelude::*;

verus! {

/// `dist` holds, for every node, its shortest distance from `source`, or
/// `None` where the node cannot be reached.
pub open spec fn is_distance_row(adj: Seq<Vec<bool>>, source: int, dist: Seq<Option<usize>>) -> bool {
    &&& dist.len() == adj.len()
    &&& forall|t: int|
        0 <= t < adj.len() ==> match #[trigger] dist[t] {
            Some(d) => is_shortest(adj, source, t, d as nat),
            None => !reachable(adj, source, t),
        }
}

/// Breadth-first search from `source`: the length of a shortest walk from
/// `source` to each node, `None` for the nodes it cannot reach.
pub fn bfs_distances(adj: &[Vec<bool>], source: usize) -> (dist: Vec<Option<usize>>)
    requires
        covers_nodes(adj@),
        source < adj@.len(),
    ensures
        is_distance_row(adj@, source as int, dist@),
        forall|t: int| 0 <= t < dist@.len() && (#[trigger] dist@[t]) is Some ==> dist@[t]->0 < adj@.len(),
{
    let n = adj.len();
    let ghost s = source as int;
    let mut dist: Vec<Option<usize>> = Vec::new();
    let mut k: usize = 0;
    while k < n
        invariant
            k <= n,
            dist@.len() == k,
            forall|i: int| 0 <= i < k ==> (#[trigger] dist@[i]) is None,
        decreases n - k,
    {
        dist.push(None);
        k = k + 1;
    }
    dist.set(source, Some(0));
    let mut queue: VecDeque<usize> = VecDeque::new();
    queue.push_back(source);
    let ghost mut done: Seq<usize> = Seq::empty();
    let ghost mut level: nat = 0;
    proof {
        lemma_within_zero(adj@, s, s);
        assert forall|v: int| 0 <= v < n && within(adj@, s, v, level) implies (#[trigger] dist@[v]) is Some by {
            lemma_within_zero(adj@, s, v);
        }
        assert(done + queue@ =~= seq![source]);
        assert forall|v: int| 0 <= v < n implies ((#[trigger] dist@[v]) is Some <==> (done + queue@).contains(v as usize)) by {
            if v == source {
                assert((done + queue@)[0] == source);
            }
        }
    }
    loop
        invariant
            n == adj@.len(),
            covers_nodes(adj@),
            s == source,
            source < n,
            dist@.len() == n,
            dist@[source as int] is Some,
            forall|i: int| 0 <= i < (done + queue@).len() ==> #[trigger] (done + queue@)[i] < n,
            (done + queue@).no_duplicates(),
            (done + queue@).len() <= n,
            forall|v: int|
                0 <= v < n ==> ((#[trigger] dist@[v]) is Some <==> (done + queue@).contains(v as usize)),
            forall|v: int|
                0 <= v < n && (#[trigger] dist@[v]) is Some ==> is_shortest(adj@, s, v, dist@[v]->0 as nat),
            forall|i: int| 0 <= i < done.len() ==> dist@[#[trigger] done[i] as int]->0 <= level,
            forall|i: int|
                0 <= i < queue@.len() ==> dist@[#[trigger] queue@[i] as int]->0 == level || dist@[queue@[i] as int]->0 == level + 1,
            forall|i: int, j: int|
                0 <= i < j < queue@.len() ==> dist@[#[trigger] queue@[i] as int]->0 <= dist@[#[trigger] queue@[j] as int]->0,
            forall|i: int, v: int|
                0 <= i < done.len() && 0 <= v < n && edge(adj@, #[trigger] done[i] as int, v) ==> (#[trigger] dist@[v]) is Some,
            forall|v: int| 0 <= v < n && within(adj@, s, v, level) ==> (#[trigger] dist@[v]) is Some,
            forall|i: int|
                0 <= i < (done + queue@).len() ==> dist@[#[trigger] (done + queue@)[i] as int]->0 <= i,
        ensures
            dist@.len() == n,
            dist@[source as int] is Some,
            forall|v: int|
                0 <= v < n && (#[trigger] dist@[v]) is Some ==> is_shortest(adj@, s, v, dist@[v]->0 as nat),
            forall|u: int, v: int|
                0 <= u < n && 0 <= v < n && (#[trigger] dist@[u]) is Some && edge(adj@, u, v) ==> (#[trigger] dist@[v]) is Some,
            forall|v: int| 0 <= v < n && (#[trigger] dist@[v]) is Some ==> dist@[v]->0 < n,
        decreases n - done.len(),
    {
        let ghost order = done + queue@;
        let ghost old_queue = queue@;
        let next = queue.pop_front();
        match next {
            None => {
                proof {
                    assert(order =~= done);
                    assert(order.contains(source as usize));
                    assert forall|u: int, v: int|
                        0 <= u < n && 0 <= v < n && (#[trigger] dist@[u]) is Some && edge(adj@, u, v) implies (#[trigger] dist@[v]) is Some by {
                        let i = choose|i: int| 0 <= i < order.len() && order[i] == u as usize;
                        assert(done[i] == u);
                    }
                    assert forall|v: int| 0 <= v < n && (#[trigger] dist@[v]) is Some implies dist@[v]->0 < n by {
                        let i = choose|i: int| 0 <= i < order.len() && order[i] == v as usize;
                        assert(dist@[order[i] as int]->0 <= i);
                    }
                }
                break;
            },
            Some(u) => {
                proof {
                    assert(old_queue[0] == u);
                    assert(order[done.len() as int] == u);
                    if dist@[u as int]->0 == level + 1 {
                        // every node of the finished levels has been processed
                        assert forall|v: int| 0 <= v < n && within(adj@, s, v, level + 1) implies (#[trigger] dist@[v]) is Some by {
                            let w = lemma_within_last_step(adj@, s, v, level);
                            if !within(adj@, s, v, level) {
                                assert(dist@[w] is Some);
                                lemma_shortest_le(adj@, s, w, dist@[w]->0 as nat, level);
                                let i = choose|i: int| 0 <= i < order.len() && order[i] == w as usize;
                                if i >= done.len() {
                                    let j = i - done.len();
                                    assert(old_queue[j] == w);
                                    if j > 0 {
                                        assert(dist@[old_queue[0] as int]->0 <= dist@[old_queue[j] as int]->0);
                                    }
                                    assert(false);
                                }
                                assert(done[i] == w);
                                assert(edge(adj@, done[i] as int, v));
                            }
                        }
                        level = level + 1;
                    }
                    done = done.push(u);
                    assert(done + queue@ =~= order);
                }
                let d = dist[u].unwrap();
                let mut v: usize = 0;
                while v < n
                    invariant
                        n == adj@.len(),
                        covers_nodes(adj@),
                        s == source,
                        source < n,
                        u < n,
                        v <= n,
                        dist@.len() == n,
                        dist@[source as int] is Some,
                        dist@[u as int] is Some,
                        done.len() >= 1,
                        done.last() == u,
                        d == dist@[u as int]->0,
                        d == level,
                        d <= done.len() - 1,
                        forall|i: int| 0 <= i < (done + queue@).len() ==> #[trigger] (done + queue@)[i] < n,
                        (done + queue@).no_duplicates(),
                        (done + queue@).len() <= n,
                        forall|x: int|
                            0 <= x < n ==> ((#[trigger] dist@[x]) is Some <==> (done + queue@).contains(x as usize)),
                        forall|x: int|
                            0 <= x < n && (#[trigger] dist@[x]) is Some ==> is_shortest(adj@, s, x, dist@[x]->0 as nat),
                        forall|i: int| 0 <= i < done.len() ==> dist@[#[trigger] done[i] as int]->0 <= level,
                        forall|i: int|
                            0 <= i < queue@.len() ==> dist@[#[trigger] queue@[i] as int]->0 == level || dist@[queue@[i] as int]->0 == level + 1,
                        forall|i: int, j: int|
                            0 <= i < j < queue@.len() ==> dist@[#[trigger] queue@[i] as int]->0 <= dist@[#[trigger] queue@[j] as int]->0,
                        forall|i: int, x: int|
                            0 <= i < done.len() - 1 && 0 <= x < n && edge(adj@, #[trigger] done[i] as int, x) ==> (#[trigger] dist@[x]) is Some,
                        forall|x: int| 0 <= x < v && edge(adj@, u as int, x) ==> (#[trigger] dist@[x]) is Some,
                        forall|x: int| 0 <= x < n && within(adj@, s, x, level) ==> (#[trigger] dist@[x]) is Some,
                        forall|i: int|
                            0 <= i < (done + queue@).len() ==> dist@[#[trigger] (done + queue@)[i] as int]->0 <= i,
                    decreases n - v,
                {
                    if adj[u][v] && dist[v].is_none() {
                        let ghost before = done + queue@;
                        let ghost q_before = queue@;
                        proof {
                            assert(!before.contains(v));
                            lemma_distinct_below(before.push(v), n as int);
                            assert(is_shortest(adj@, s, u as int, dist@[u as int]->0 as nat));
                            lemma_within_step(adj@, s, u as int, v as int, level);
                        }
                        let ghost old_dist = dist@;
                        dist.set(v, Some(d + 1));
                        queue.push_back(v);
                        proof {
                            assert(dist@ == old_dist.update(v as int, Some((d + 1) as usize)));
                            assert(done + queue@ =~= before.push(v));
                            assert forall|x: int| 0 <= x < n implies ((#[trigger] dist@[x]) is Some <==> (done + queue@).contains(x as usize)) by {
                                if x == v {
                                    assert((done + queue@)[before.len() as int] == v);
                                } else if before.contains(x as usize) {
                                    let i = choose|i: int| 0 <= i < before.len() && before[i] == x as usize;
                                    assert((done + queue@)[i] == x);
                                }
                            }
                            assert forall|i: int| 0 <= i < done.len() implies dist@[#[trigger] done[i] as int]->0 <= level by {
                                assert(before[i] == done[i]);
                            }
                            assert forall|i: int| 0 <= i < q_before.len() implies #[trigger] queue@[i] == q_before[i] && q_before[i] != v && q_before[i] < n by {
                                assert(before[done.len() + i] == q_before[i]);
                            }
                            assert(queue@[q_before.len() as int] == v);
                            assert forall|i: int| 0 <= i < queue@.len() implies dist@[#[trigger] queue@[i] as int]->0 == level || dist@[queue@[i] as int]->0 == level + 1 by {
                                if i < q_before.len() {
                                    assert(queue@[i] == q_before[i] && q_before[i] != v && q_before[i] < n);
                                    assert(dist@[q_before[i] as int] == old_dist[q_before[i] as int]);
                                }
                            }
                            assert forall|i: int, j: int| 0 <= i < j < queue@.len() implies dist@[#[trigger] queue@[i] as int]->0 <= dist@[#[trigger] queue@[j] as int]->0 by {
                                assert(queue@[i] == q_before[i] && q_before[i] != v && q_before[i] < n);
                                assert(dist@[q_before[i] as int] == old_dist[q_before[i] as int]);
                                if j < q_before.len() {
                                    assert(queue@[j] == q_before[j] && q_before[j] != v && q_before[j] < n);
                                    assert(dist@[q_before[j] as int] == old_dist[q_before[j] as int]);
                                }
                            }
                        }
                    }
                    v = v + 1;
                }
            },
        }
    }
    proof {
        let ghost inside = |x: int| dist@[x] is Some;
        assert forall|t: int| 0 <= t < n && (#[trigger] dist@[t]) is None implies !reachable(adj@, s, t) by {
            if reachable(adj@, s, t) {
                let k = choose|k: nat| #[trigger] within(adj@, s, t, k);
                lemma_closed_holds_walks(adj@, s, inside, t, k);
            }
        }
    }
    dist
}


/// Every node reaches every other node.
pub open spec fn all_connected(adj: Seq<Vec<bool>>) -> bool {
    forall|s: int, t: int|
        0 <= s < adj.len() && 0 <= t < adj.len() && s != t ==> #[trigger] reachable(adj, s, t)
}

/// The larger of two numbers.
pub open spec fn max_nat(a: nat, b: nat) -> nat {
    if a >= b {
        a
    } else {
        b
    }
}

/// The sum of the distances from `s` to the nodes `t < end`, `t != s`.
pub open spec fn row_distance_sum(adj: Seq<Vec<bool>>, s: int, end: int) -> nat
    decreases end,
{
    if end <= 0 {
        0
    } else {
        row_distance_sum(adj, s, end - 1) + if end - 1 == s {
            0
        } else {
            distance(adj, s, end - 1)
        }
    }
}

/// The largest distance from `s` to a node `t < end`, `t != s` (0 if there is none).
pub open spec fn row_distance_max(adj: Seq<Vec<bool>>, s: int, end: int) -> nat
    decreases end,
{
    if end <= 0 {
        0
    } else if end - 1 == s {
        row_distance_max(adj, s, end - 1)
    } else {
        max_nat(row_distance_max(adj, s, end - 1), distance(adj, s, end - 1))
    }
}

/// The sum of the distances between ordered pairs of distinct nodes whose
/// first node is below `rows`.
pub open spec fn distance_sum_upto(adj: Seq<Vec<bool>>, rows: int) -> nat
    decreases rows,
{
    if rows <= 0 {
        0
    } else {
        distance_sum_upto(adj, rows - 1) + row_distance_sum(adj, rows - 1, adj.len() as int)
    }
}

/// The largest distance between distinct nodes whose first node is below `rows`.
pub open spec fn distance_max_upto(adj: Seq<Vec<bool>>, rows: int) -> nat
    decreases rows,
{
    if rows <= 0 {
        0
    } else {
        max_nat(distance_max_upto(adj, rows - 1), row_distance_max(adj, rows - 1, adj.len() as int))
    }
}

/// The diameter: the largest distance between two distinct nodes.
pub open spec fn diameter(adj: Seq<Vec<bool>>) -> nat {
    distance_max_upto(adj, adj.len() as int)
}

/// The sum of the distances over all ordered pairs of distinct nodes.
pub open spec fn total_distance(adj: Seq<Vec<bool>>) -> nat {
    distance_sum_upto(adj, adj.len() as int)
}

/// The average path length as an exact quotient: the sum of the shortest
/// distances over `pair_count` ordered pairs of distinct nodes.
#[derive(Clone, Copy, Debug, PartialEq, Eq, Structural)]
pub struct PathLength {
    pub total_distance: usize,
    pub pair_count: usize,
}

/// The diameter and the average path length of a graph.
///
/// With at most one node both are zero. Otherwise, if some node cannot
/// reach another one, the graph is disconnected and both are `None`.
pub fn path_metrics(adj: &[Vec<bool>]) -> (result: (Option<usize>, Option<PathLength>))
    requires
        covers_nodes(adj@),
        adj@.len() * adj@.len() * adj@.len() <= usize::MAX,
    ensures
        adj@.len() <= 1 ==> result == (Some(0usize), Some(PathLength { total_distance: 0, pair_count: 0 })),
        adj@.len() >= 2 && all_connected(adj@) ==> {
            &&& result.0 matches Some(d) && d == diameter(adj@)
            &&& result.1 matches Some(p) && p.total_distance == total_distance(adj@)
                && p.pair_count == adj@.len() * (adj@.len() - 1)
        },
        adj@.len() >= 2 && !all_connected(adj@) ==> result.0 is None && result.1 is None,
{
    let n = adj.len();
    if n <= 1 {
        return (Some(0), Some(PathLength { total_distance: 0, pair_count: 0 }));
    }
    let mut max_dist: usize = 0;
    let mut total_dist: usize = 0;
    let mut pair_count: usize = 0;
    let mut s: usize = 0;
    while s < n
        invariant
            n == adj@.len(),
            n >= 2,
            covers_nodes(adj@),
            n * n * n <= usize::MAX,
            s <= n,
            max_dist == distance_max_upto(adj@, s as int),
            total_dist == distance_sum_upto(adj@, s as int),
            pair_count == s * (n - 1),
            total_dist <= pair_count * n,
            forall|a: int, b: int| 0 <= a < s && 0 <= b < n && a != b ==> #[trigger] reachable(adj@, a, b),
        decreases n - s,
    {
        let dists = bfs_distances(adj, s);
        let mut t: usize = 0;
        while t < n
            invariant
                n == adj@.len(),
                n >= 2,
                covers_nodes(adj@),
                n * n * n <= usize::MAX,
                s < n,
                t <= n,
                dists@.len() == n,
                forall|x: int|
                    0 <= x < n ==> match #[trigger] dists@[x] {
                        Some(d) => is_shortest(adj@, s as int, x, d as nat) && d < n,
                        None => !reachable(adj@, s as int, x),
                    },
                max_dist == max_nat(distance_max_upto(adj@, s as int), row_distance_max(adj@, s as int, t as int)),
                total_dist == distance_sum_upto(adj@, s as int) + row_distance_sum(adj@, s as int, t as int),
                pair_count == s * (n - 1) + t - (if s < t { 1int } else { 0int }),
                total_dist <= pair_count * n,
                forall|a: int, b: int| 0 <= a < s && 0 <= b < n && a != b ==> #[trigger] reachable(adj@, a, b),
                forall|b: int| 0 <= b < t && b != s ==> #[trigger] reachable(adj@, s as int, b),
            decreases n - t,
        {
            if t != s {
                proof {
                    assert(pair_count + 1 <= n * n) by (nonlinear_arith)
                        requires
                            pair_count == s * (n - 1) + t - (if s < t { 1int } else { 0int }),
                            s < n,
                            t < n,
                            n >= 2;
                    assert((pair_count + 1) * n <= n * n * n) by (nonlinear_arith)
                        requires pair_count + 1 <= n * n;
                    assert(n * n <= n * n * n) by (nonlinear_arith)
                        requires n >= 2;
                }
                pair_count = pair_count + 1;
                match dists[t] {
                    Some(d) => {
                        proof {
                            lemma_shortest_unique(adj@, s as int, t as int, d as nat);
                            assert(pair_count * n == (pair_count - 1) * n + n) by (nonlinear_arith);
                        }
                        if d > max_dist {
                            max_dist = d;
                        }
                        total_dist = total_dist + d;
                    },
                    None => {
                        proof {
                            assert(!reachable(adj@, s as int, t as int));
                        }
                        return (None, None);
                    },
                }
            }
            t = t + 1;
        }
        proof {
            assert((s + 1) * (n - 1) == s * (n - 1) + (n - 1)) by (nonlinear_arith);
        }
        s = s + 1;
    }
    (Some(max_dist), Some(PathLength { total_distance: total_dist, pair_count }))
}


/// The neighbours `u < end` of `v` (nodes with an edge from `v`), in
/// increasing order.
pub open spec fn neighbors_below(adj: Seq<Vec<bool>>, v: int, end: int) -> Seq<usize>
    decreases end,
{
    if end <= 0 {
        seq![]
    } else if edge(adj, v, end - 1) {
        neighbors_below(adj, v, end - 1).push((end - 1) as usize)
    } else {
        neighbors_below(adj, v, end - 1)
    }
}

/// All neighbours of `v`, in increasing order.
pub open spec fn neighbor_list(adj: Seq<Vec<bool>>, v: int) -> Seq<usize> {
    neighbors_below(adj, v, adj.len() as int)
}

/// The nodes of `v`'s row with an edge from `v`, in increasing order.
pub fn neighbors(adj: &[Vec<bool>], v: usize) -> (nb: Vec<usize>)
    requires
        covers_nodes(adj@),
        v < adj@.len(),
    ensures
        nb@ == neighbor_list(adj@, v as int),
        nb@.len() <= adj@.len(),
        forall|i: int| 0 <= i < nb@.len() ==> #[trigger] nb@[i] < adj@.len(),
{
    let n = adj.len();
    let row = &adj[v];
    let mut nb: Vec<usize> = Vec::new();
    let mut u: usize = 0;
    while u < n
        invariant
            n == adj@.len(),
            row@ == adj@[v as int]@,
            row@.len() >= n,
            u <= n,
            nb@ == neighbors_below(adj@, v as int, u as int),
            nb@.len() <= u,
            forall|i: int| 0 <= i < nb@.len() ==> #[trigger] nb@[i] < u,
        decreases n - u,
    {
        if row[u] {
            nb.push(u);
        }
        u = u + 1;
    }
    nb
}

/// The number of `j` with `i < j < end` such that `nb[i]` and `nb[j]` are linked.
pub open spec fn row_links(adj: Seq<Vec<bool>>, nb: Seq<usize>, i: int, end: int) -> nat
    decreases end - i,
{
    if end <= i + 1 {
        0
    } else {
        row_links(adj, nb, i, end - 1) + if edge(adj, nb[i] as int, nb[end - 1] as int) {
            1nat
        } else {
            0nat
        }
    }
}

/// The number of pairs `i < j` of positions of `nb`, with `i < rows`, whose
/// nodes are linked by an edge from `nb[i]` to `nb[j]`.
pub open spec fn pair_links(adj: Seq<Vec<bool>>, nb: Seq<usize>, rows: int) -> nat
    decreases rows,
{
    if rows <= 0 {
        0
    } else {
        pair_links(adj, nb, rows - 1) + row_links(adj, nb, rows - 1, nb.len() as int)
    }
}

/// The number of links among the neighbours of `v`.
pub open spec fn neighbor_links(adj: Seq<Vec<bool>>, v: int) -> nat {
    let nb = neighbor_list(adj, v);
    pair_links(adj, nb, nb.len() as int)
}

/// A non-negative number as the exact quotient `numerator / denominator`.
#[derive(Clone, Copy, Debug, PartialEq, Eq, Structural)]
pub struct Fraction {
    pub numerator: usize,
    pub denominator: usize,
}

/// The local clustering coefficient of `v` as an exact fraction: with `k`
/// neighbours linked by `l` edges, `2 l / (k (k - 1))`, and `0 / 1` when `v`
/// has fewer than two neighbours.
pub open spec fn local_clustering(adj: Seq<Vec<bool>>, v: int) -> Fraction {
    let k = neighbor_list(adj, v).len();
    if k < 2 {
        Fraction { numerator: 0, denominator: 1 }
    } else {
        Fraction {
            numerator: (2 * neighbor_links(adj, v)) as usize,
            denominator: (k * (k - 1)) as usize,
        }
    }
}

proof fn lemma_row_links_bound(adj: Seq<Vec<bool>>, nb: Seq<usize>, i: int, end: int)
    requires
        i + 1 <= end,
    ensures
        row_links(adj, nb, i, end) <= end - i - 1,
    decreases end - i,
{
    if end > i + 1 {
        lemma_row_links_bound(adj, nb, i, end - 1);
    }
}

/// Twice the links of the first `rows` positions are at most the pairs they start.
pub proof fn lemma_pair_links_bound(adj: Seq<Vec<bool>>, nb: Seq<usize>, rows: int)
    requires
        0 <= rows <= nb.len(),
    ensures
        2 * pair_links(adj, nb, rows) <= rows * (2 * nb.len() - rows - 1),
    decreases rows,
{
    if rows > 0 {
        let k = nb.len() as int;
        lemma_pair_links_bound(adj, nb, rows - 1);
        lemma_row_links_bound(adj, nb, rows - 1, k);
        let p = pair_links(adj, nb, rows - 1) as int;
        let r = row_links(adj, nb, rows - 1, k) as int;
        assert(2 * (p + r) <= rows * (2 * k - rows - 1)) by (nonlinear_arith)
            requires
                2 * p <= (rows - 1) * (2 * k - (rows - 1) - 1),
                r <= k - (rows - 1) - 1,
        ;
    }
}

/// The local clustering coefficient of `v`: the share of the pairs of
/// neighbours of `v` that are linked, as an exact fraction.
pub fn local_clustering_coefficient(adj: &[Vec<bool>], v: usize) -> (c: Fraction)
    requires
        covers_nodes(adj@),
        cells_fit(adj@.len() as int),
        v < adj@.len(),
    ensures
        c == local_clustering(adj@, v as int),
{
    let n = adj.len();
    let nb = neighbors(adj, v);
    let k = nb.len();
    if k < 2 {
        return Fraction { numerator: 0, denominator: 1 };
    }
    let ghost nbs = nb@;
    let mut links: usize = 0;
    let mut i: usize = 0;
    while i < k
        invariant
            n == adj@.len(),
            covers_nodes(adj@),
            cells_fit(n as int),
            nb@ == nbs,
            k == nbs.len(),
            2 <= k <= n,
            forall|x: int| 0 <= x < k ==> #[trigger] nbs[x] < n,
            i <= k,
            links == pair_links(adj@, nbs, i as int),
        decreases k - i,
    {
        let row = &adj[nb[i]];
        let mut j: usize = i + 1;
        proof {
            lemma_pair_links_bound(adj@, nbs, i as int);
        }
        while j < k
            invariant
                n == adj@.len(),
                covers_nodes(adj@),
                cells_fit(n as int),
                nb@ == nbs,
                k == nbs.len(),
                2 <= k <= n,
                forall|x: int| 0 <= x < k ==> #[trigger] nbs[x] < n,
                i < k,
                i + 1 <= j <= k,
                row@ == adj@[nbs[i as int] as int]@,
                links == pair_links(adj@, nbs, i as int) + row_links(adj@, nbs, i as int, j as int),
                2 * pair_links(adj@, nbs, i as int) <= i * (2 * k - i - 1),
            decreases k - j,
        {
            if row[nb[j]] {
                proof {
                    lemma_row_links_bound(adj@, nbs, i as int, j as int);
                    let p = pair_links(adj@, nbs, i as int) as int;
                    assert(p + (j - i - 1) + 1 <= n * n) by (nonlinear_arith)
                        requires
                            2 * p <= i * (2 * k - i - 1),
                            i < j < k,
                            k <= n,
                    ;
                }
                links = links + 1;
            }
            j = j + 1;
        }
        i = i + 1;
    }
    proof {
        lemma_pair_links_bound(adj@, nbs, k as int);
        assert(k * (2 * k - k - 1) == k * (k - 1)) by (nonlinear_arith);
        assert(k * (k - 1) <= n * n) by (nonlinear_arith)
            requires k <= n;
    }
    Fraction { numerator: 2 * links, denominator: k * (k - 1) }
}


/// The neighbour list below `end` is strictly increasing and holds exactly
/// the neighbours of `v` below `end`.
pub proof fn lemma_neighbors_below(adj: Seq<Vec<bool>>, v: int, end: int)
    requires
        0 <= end <= adj.len(),
        adj.len() <= usize::MAX,
    ensures
        neighbors_below(adj, v, end).len() <= end,
        forall|i: int|
            0 <= i < neighbors_below(adj, v, end).len() ==> (#[trigger] neighbors_below(adj, v, end)[i]) < end
                && edge(adj, v, neighbors_below(adj, v, end)[i] as int),
        forall|i: int, j: int|
            0 <= i < j < neighbors_below(adj, v, end).len() ==> (#[trigger] neighbors_below(adj, v, end)[i])
                < #[trigger] neighbors_below(adj, v, end)[j],
        forall|u: int|
            0 <= u < end && edge(adj, v, u) ==> #[trigger] neighbors_below(adj, v, end).contains(u as usize),
    decreases end,
{
    if end > 0 {
        lemma_neighbors_below(adj, v, end - 1);
        let p = neighbors_below(adj, v, end - 1);
        if edge(adj, v, end - 1) {
            let q = p.push((end - 1) as usize);
            assert(q[p.len() as int] == end - 1);
            assert forall|u: int| 0 <= u < end && edge(adj, v, u) implies #[trigger] q.contains(u as usize) by {
                if u < end - 1 {
                    assert(neighbors_below(adj, v, end - 1).contains(u as usize));
                    let i = choose|i: int| 0 <= i < p.len() && p[i] == u as usize;
                    assert(q[i] == u);
                }
            }
        }
    }
}

proof fn lemma_row_links_zero(adj: Seq<Vec<bool>>, nb: Seq<usize>, i: int, end: int)
    requires
        forall|j: int| i < j < end ==> !edge(adj, nb[i] as int, #[trigger] nb[j] as int),
    ensures
        row_links(adj, nb, i, end) == 0,
    decreases end - i,
{
    if end > i + 1 {
        lemma_row_links_zero(adj, nb, i, end - 1);
    }
}

proof fn lemma_pair_links_zero(adj: Seq<Vec<bool>>, nb: Seq<usize>, rows: int)
    requires
        forall|i: int, j: int| 0 <= i < j < nb.len() ==> !edge(adj, #[trigger] nb[i] as int, #[trigger] nb[j] as int),
    ensures
        pair_links(adj, nb, rows) == 0,
    decreases rows,
{
    if rows > 0 {
        lemma_pair_links_zero(adj, nb, rows - 1);
        assert forall|j: int| rows - 1 < j < nb.len() implies !edge(adj, nb[rows - 1] as int, #[trigger] nb[j] as int) by {
            assert(!edge(adj, nb[rows - 1] as int, nb[j] as int));
        }
        lemma_row_links_zero(adj, nb, rows - 1, nb.len() as int);
    }
}

/// When no two distinct neighbours of `v` are linked, the clustering
/// coefficient of `v` is zero.
pub proof fn lemma_clustering_zero(adj: Seq<Vec<bool>>, v: int)
    requires
        adj.len() <= usize::MAX,
        forall|a: int, b: int|
            0 <= a < adj.len() && 0 <= b < adj.len() && a != b && edge(adj, v, a) && edge(adj, v, b) ==> !#[trigger] edge(adj, a, b),
    ensures
        local_clustering(adj, v).numerator == 0,
{
    let nb = neighbor_list(adj, v);
    lemma_neighbors_below(adj, v, adj.len() as int);
    assert forall|i: int, j: int| 0 <= i < j < nb.len() implies !edge(adj, #[trigger] nb[i] as int, #[trigger] nb[j] as int) by {
        assert(nb[i] < nb[j]);
        assert(edge(adj, v, nb[i] as int) && edge(adj, v, nb[j] as int));
    }
    lemma_pair_links_zero(adj, nb, nb.len() as int);
}

proof fn lemma_row_links_all(adj: Seq<Vec<bool>>, nb: Seq<usize>, i: int, end: int)
    requires
        i + 1 <= end,
        forall|j: int| i < j < end ==> edge(adj, nb[i] as int, #[trigger] nb[j] as int),
    ensures
        row_links(adj, nb, i, end) == end - i - 1,
    decreases end - i,
{
    if end > i + 1 {
        lemma_row_links_all(adj, nb, i, end - 1);
    }
}

proof fn lemma_pair_links_all(adj: Seq<Vec<bool>>, nb: Seq<usize>, rows: int)
    requires
        0 <= rows <= nb.len(),
        forall|i: int, j: int| 0 <= i < j < nb.len() ==> edge(adj, #[trigger] nb[i] as int, #[trigger] nb[j] as int),
    ensures
        2 * pair_links(adj, nb, rows) == rows * (2 * nb.len() - rows - 1),
    decreases rows,
{
    if rows > 0 {
        let k = nb.len() as int;
        lemma_pair_links_all(adj, nb, rows - 1);
        assert forall|j: int| rows - 1 < j < k implies edge(adj, nb[rows - 1] as int, #[trigger] nb[j] as int) by {
            assert(edge(adj, nb[rows - 1] as int, nb[j] as int));
        }
        lemma_row_links_all(adj, nb, rows - 1, k);
        let p = pair_links(adj, nb, rows - 1) as int;
        assert(2 * (p + (k - (rows - 1) - 1)) == rows * (2 * k - rows - 1)) by (nonlinear_arith)
            requires
                2 * p == (rows - 1) * (2 * k - (rows - 1) - 1),
        ;
    } else {
        assert(rows * (2 * nb.len() - rows - 1) == 0) by (nonlinear_arith)
            requires rows == 0;
    }
}

/// When every two distinct neighbours of `v` are linked and `v` has at
/// least two neighbours, the clustering coefficient of `v` is one.
pub proof fn lemma_clustering_one(adj: Seq<Vec<bool>>, v: int)
    requires
        cells_fit(adj.len() as int),
        forall|a: int, b: int|
            0 <= a < adj.len() && 0 <= b < adj.len() && a != b && edge(adj, v, a) && edge(adj, v, b) ==> #[trigger] edge(adj, a, b),
        neighbor_list(adj, v).len() >= 2,
    ensures
        local_clustering(adj, v).numerator == local_clustering(adj, v).denominator,
        local_clustering(adj, v).denominator > 0,
{
    let nb = neighbor_list(adj, v);
    let k = nb.len() as int;
    assert(adj.len() <= usize::MAX) by (nonlinear_arith)
        requires cells_fit(adj.len() as int);
    lemma_neighbors_below(adj, v, adj.len() as int);
    assert forall|i: int, j: int| 0 <= i < j < nb.len() implies edge(adj, #[trigger] nb[i] as int, #[trigger] nb[j] as int) by {
        assert(nb[i] < nb[j]);
        assert(edge(adj, v, nb[i] as int) && edge(adj, v, nb[j] as int));
    }
    lemma_pair_links_all(adj, nb, k);
    assert(k * (2 * k - k - 1) == k * (k - 1)) by (nonlinear_arith);
    assert(0 < k * (k - 1) <= adj.len() * adj.len()) by (nonlinear_arith)
        requires 2 <= k <= adj.len();
}

} // verus!
