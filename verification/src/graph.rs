//! The mathematical model of an adjacency matrix: edges, walks, shortest
//! distances and edge counts.
use vstd::prelude::*;
use vstd::set_lib::{lemma_int_range, lemma_len_subset, set_int_range};

verus! {

/// Every row of `adj` has one entry per node.
pub open spec fn is_square(adj: Seq<Vec<bool>>) -> bool {
    forall|i: int| 0 <= i < adj.len() ==> #[trigger] adj[i]@.len() == adj.len()
}

/// Every row of `adj` has an entry for each node; rows may be longer, and
/// their further entries are not read.
pub open spec fn covers_nodes(adj: Seq<Vec<bool>>) -> bool {
    forall|i: int| 0 <= i < adj.len() ==> #[trigger] adj[i]@.len() >= adj.len()
}

/// The number of cells of an `n × n` matrix fits in a `usize`.
pub open spec fn cells_fit(n: int) -> bool {
    n * n <= usize::MAX
}

/// There is an edge from `i` to `j`.
pub open spec fn edge(adj: Seq<Vec<bool>>, i: int, j: int) -> bool {
    adj[i]@[j]
}

/// The edge relation of `adj` as a predicate on pairs of nodes.
pub open spec fn edge_fn(adj: Seq<Vec<bool>>) -> spec_fn(int, int) -> bool {
    |i: int, j: int| adj[i]@[j]
}

/// `adj` is an `n × n` matrix whose edges are exactly those that `f` names.
pub open spec fn has_edges(adj: Seq<Vec<bool>>, n: int, f: spec_fn(int, int) -> bool) -> bool {
    &&& adj.len() == n
    &&& is_square(adj)
    &&& forall|i: int, j: int| 0 <= i < n && 0 <= j < n ==> #[trigger] edge(adj, i, j) == f(i, j)
}

/// The edge relation is symmetric on the nodes `0..n`.
pub open spec fn is_symmetric(adj: Seq<Vec<bool>>) -> bool {
    forall|i: int, j: int|
        0 <= i < adj.len() && 0 <= j < adj.len() ==> #[trigger] edge(adj, i, j) == edge(adj, j, i)
}

/// No node has an edge to itself.
pub open spec fn is_loop_free(adj: Seq<Vec<bool>>) -> bool {
    forall|i: int| 0 <= i < adj.len() ==> !#[trigger] edge(adj, i, i)
}

/// A square, symmetric matrix with an empty diagonal: a simple undirected graph.
pub open spec fn is_undirected(adj: Seq<Vec<bool>>) -> bool {
    &&& is_square(adj)
    &&& is_symmetric(adj)
    &&& is_loop_free(adj)
}

/// The number of `j` with `i < j < end` and `f(i, j)`.
pub open spec fn count_right(f: spec_fn(int, int) -> bool, i: int, end: int) -> nat
    decreases end - i,
{
    if end <= i + 1 {
        0
    } else {
        count_right(f, i, end - 1) + if f(i, end - 1) {
            1nat
        } else {
            0nat
        }
    }
}

/// The number of pairs `i < j` with `i < rows`, `j < n` and `f(i, j)`.
pub open spec fn count_upper(f: spec_fn(int, int) -> bool, n: int, rows: int) -> nat
    decreases rows,
{
    if rows <= 0 {
        0
    } else {
        count_upper(f, n, rows - 1) + count_right(f, rows - 1, n)
    }
}

/// The number of pairs `i < j < n` for which `f` holds: for a symmetric
/// relation without loops, the number of undirected edges.
pub open spec fn edge_count(f: spec_fn(int, int) -> bool, n: int) -> nat {
    count_upper(f, n, n)
}

/// Counting only looks at the cells `i < j` below `end`.
pub proof fn lemma_count_right_agree(f: spec_fn(int, int) -> bool, g: spec_fn(int, int) -> bool, i: int, end: int)
    requires
        forall|j: int| i < j < end ==> #[trigger] f(i, j) == g(i, j),
    ensures
        count_right(f, i, end) == count_right(g, i, end),
    decreases end - i,
{
    if end > i + 1 {
        lemma_count_right_agree(f, g, i, end - 1);
    }
}

/// Two relations that agree on the nodes `0..n` have the same edge count.
pub proof fn lemma_edge_count_agree(f: spec_fn(int, int) -> bool, g: spec_fn(int, int) -> bool, n: int)
    requires
        forall|i: int, j: int| 0 <= i < n && 0 <= j < n ==> #[trigger] f(i, j) == g(i, j),
    ensures
        edge_count(f, n) == edge_count(g, n),
{
    lemma_count_upper_agree(f, g, n, n);
}

proof fn lemma_count_upper_agree(f: spec_fn(int, int) -> bool, g: spec_fn(int, int) -> bool, n: int, rows: int)
    requires
        rows <= n,
        forall|i: int, j: int| 0 <= i < n && 0 <= j < n ==> #[trigger] f(i, j) == g(i, j),
    ensures
        count_upper(f, n, rows) == count_upper(g, n, rows),
    decreases rows,
{
    if rows > 0 {
        lemma_count_upper_agree(f, g, n, rows - 1);
        lemma_count_right_agree(f, g, rows - 1, n);
    }
}

/// Changing one cell `(i, c)` of a row changes its count by the difference.
pub proof fn lemma_count_right_one(f: spec_fn(int, int) -> bool, g: spec_fn(int, int) -> bool, i: int, c: int, end: int)
    requires
        i < c < end,
        forall|j: int| i < j < end && j != c ==> #[trigger] f(i, j) == g(i, j),
    ensures
        count_right(g, i, end) + (if f(i, c) { 1int } else { 0int }) == count_right(f, i, end) + (if g(i, c) { 1int } else { 0int }),
    decreases end - i,
{
    if end - 1 == c {
        lemma_count_right_agree(f, g, i, end - 1);
    } else {
        lemma_count_right_one(f, g, i, c, end - 1);
    }
}

proof fn lemma_count_upper_one(f: spec_fn(int, int) -> bool, g: spec_fn(int, int) -> bool, n: int, r: int, c: int, rows: int)
    requires
        0 <= r < c < n,
        rows <= n,
        forall|i: int, j: int| 0 <= i < j < n && !(i == r && j == c) ==> #[trigger] f(i, j) == g(i, j),
    ensures
        count_upper(g, n, rows) + (if rows > r && f(r, c) { 1int } else { 0int }) == count_upper(f, n, rows) + (if rows > r && g(r, c) { 1int } else { 0int }),
    decreases rows,
{
    if rows > 0 {
        lemma_count_upper_one(f, g, n, r, c, rows - 1);
        if rows - 1 == r {
            lemma_count_right_one(f, g, r, c, n);
        } else {
            assert forall|j: int| rows - 1 < j < n implies #[trigger] f(rows - 1, j) == g(rows - 1, j) by {
                assert(f(rows - 1, j) == g(rows - 1, j));
            }
            lemma_count_right_agree(f, g, rows - 1, n);
        }
    }
}

/// Setting both cells of one pair of distinct nodes to `x` changes the edge
/// count by one when the pair's edge appears or disappears, and not at all
/// otherwise.
pub proof fn lemma_edge_count_set_pair(
    f: spec_fn(int, int) -> bool,
    g: spec_fn(int, int) -> bool,
    n: int,
    a: int,
    b: int,
    x: bool,
)
    requires
        0 <= a < n,
        0 <= b < n,
        a != b,
        f(a, b) == f(b, a),
        forall|i: int, j: int|
            0 <= i < n && 0 <= j < n ==> #[trigger] g(i, j) == if (i == a && j == b) || (i == b && j == a) {
                x
            } else {
                f(i, j)
            },
    ensures
        edge_count(g, n) + (if f(a, b) { 1int } else { 0int }) == edge_count(f, n) + (if x { 1int } else { 0int }),
{
    let r = if a < b { a } else { b };
    let c = if a < b { b } else { a };
    assert(g(r, c) == x);
    assert forall|i: int, j: int| 0 <= i < j < n && !(i == r && j == c) implies #[trigger] f(i, j) == g(i, j) by {
        assert(g(i, j) == f(i, j));
    }
    lemma_count_upper_one(f, g, n, r, c, n);
}

/// The number of undirected edges of `adj`: the pairs `i < j` with an edge
/// from `i` to `j`.
pub open spec fn matrix_edge_count(adj: Seq<Vec<bool>>) -> nat {
    edge_count(edge_fn(adj), adj.len() as int)
}

/// A matrix that has exactly the edges of `f` has `f`'s edge count.
pub proof fn lemma_has_edges_count(adj: Seq<Vec<bool>>, n: int, f: spec_fn(int, int) -> bool)
    requires
        has_edges(adj, n, f),
    ensures
        matrix_edge_count(adj) == edge_count(f, n),
{
    assert forall|i: int, j: int| 0 <= i < n && 0 <= j < n implies #[trigger] edge_fn(adj)(i, j) == f(i, j) by {
        assert(edge(adj, i, j) == f(i, j));
    }
    lemma_edge_count_agree(edge_fn(adj), f, n);
}

/// Setting both cells of the pair `a != b` of a square matrix to `x` changes
/// its edge count by one when the pair's edge appears or disappears.
pub proof fn lemma_matrix_edge_count_set_pair(old: Seq<Vec<bool>>, new: Seq<Vec<bool>>, a: int, b: int, x: bool)
    requires
        old.len() == new.len(),
        0 <= a < old.len(),
        0 <= b < old.len(),
        a != b,
        edge(old, a, b) == edge(old, b, a),
        forall|i: int, j: int|
            0 <= i < old.len() && 0 <= j < old.len() ==> #[trigger] edge(new, i, j) == if (i == a && j == b) || (i == b
                && j == a) {
                x
            } else {
                edge(old, i, j)
            },
    ensures
        matrix_edge_count(new) + (if edge(old, a, b) { 1int } else { 0int }) == matrix_edge_count(old) + (if x { 1int } else { 0int }),
{
    let n = old.len() as int;
    assert forall|i: int, j: int| 0 <= i < n && 0 <= j < n implies #[trigger] edge_fn(new)(i, j) == if (i == a && j == b) || (i == b
                && j == a) {
                x
            } else {
                edge_fn(old)(i, j)
            } by {
        assert(edge(new, i, j) == edge_fn(new)(i, j));
    }
    assert(edge_fn(old)(a, b) == edge(old, a, b));
    assert(edge_fn(old)(b, a) == edge(old, b, a));
    lemma_edge_count_set_pair(edge_fn(old), edge_fn(new), n, a, b, x);
}

/// The entries to the right of the diagonal, row by row over the rows below
/// `rows`, each row up to its own length, that hold an edge.
pub open spec fn upper_entries(adj: Seq<Vec<bool>>, rows: int) -> nat
    decreases rows,
{
    if rows <= 0 {
        0
    } else {
        upper_entries(adj, rows - 1) + count_right(edge_fn(adj), rows - 1, adj[rows - 1]@.len() as int)
    }
}

/// The number of entries of the rows below `rows`.
pub open spec fn row_cells(adj: Seq<Vec<bool>>, rows: int) -> nat
    decreases rows,
{
    if rows <= 0 {
        0
    } else {
        row_cells(adj, rows - 1) + adj[rows - 1]@.len()
    }
}

proof fn lemma_row_cells_mono(adj: Seq<Vec<bool>>, rows: int, m: int)
    requires
        rows <= m,
    ensures
        row_cells(adj, rows) <= row_cells(adj, m),
    decreases m - rows,
{
    if rows < m {
        lemma_row_cells_mono(adj, rows, m - 1);
    }
}

/// In a square matrix the upper entries are the undirected edges.
pub proof fn lemma_upper_entries_square(adj: Seq<Vec<bool>>, rows: int)
    requires
        is_square(adj),
        rows <= adj.len(),
    ensures
        upper_entries(adj, rows) == count_upper(edge_fn(adj), adj.len() as int, rows),
    decreases rows,
{
    if rows > 0 {
        lemma_upper_entries_square(adj, rows - 1);
        assert(adj[rows - 1]@.len() == adj.len());
    }
}

/// Count the edges of the upper triangle of `adj`: each entry `adj[i][j]`
/// with `i < j` that holds an edge counts once, each row up to its own
/// length.
pub fn count_edges(adj: &[Vec<bool>]) -> (count: usize)
    requires
        forall|i: int| 0 <= i < adj@.len() ==> #[trigger] adj@[i]@.len() >= i + 1,
        row_cells(adj@, adj@.len() as int) <= usize::MAX,
    ensures
        count == upper_entries(adj@, adj@.len() as int),
        is_square(adj@) ==> count == matrix_edge_count(adj@),
{
    let n = adj.len();
    let ghost f = edge_fn(adj@);
    let mut c: usize = 0;
    let mut i: usize = 0;
    while i < n
        invariant
            n == adj@.len(),
            forall|r: int| 0 <= r < n ==> #[trigger] adj@[r]@.len() >= r + 1,
            row_cells(adj@, n as int) <= usize::MAX,
            f == edge_fn(adj@),
            i <= n,
            c == upper_entries(adj@, i as int),
            c <= row_cells(adj@, i as int),
        decreases n - i,
    {
        let row = &adj[i];
        let len = row.len();
        proof {
            assert(adj@[i as int]@.len() >= i + 1);
            lemma_row_cells_mono(adj@, i as int + 1, n as int);
        }
        let mut j: usize = i + 1;
        while j < len
            invariant
                n == adj@.len(),
                row@ == adj@[i as int]@,
                len == row@.len(),
                f == edge_fn(adj@),
                i < n,
                i + 1 <= j <= len,
                c == upper_entries(adj@, i as int) + count_right(f, i as int, j as int),
                c <= row_cells(adj@, i as int) + (j - i - 1),
                row_cells(adj@, i as int + 1) <= usize::MAX,
            decreases len - j,
        {
            if row[j] {
                c = c + 1;
            }
            j = j + 1;
        }
        i = i + 1;
    }
    proof {
        if is_square(adj@) {
            lemma_upper_entries_square(adj@, n as int);
        }
    }
    c
}

/// `w` is a walk: a non-empty sequence of nodes in which each node has an
/// edge to the next.
pub open spec fn is_walk(adj: Seq<Vec<bool>>, w: Seq<int>) -> bool {
    &&& w.len() >= 1
    &&& forall|i: int| 0 <= i < w.len() ==> 0 <= #[trigger] w[i] < adj.len()
    &&& forall|i: int| 0 <= i < w.len() - 1 ==> #[trigger] edge(adj, w[i], w[i + 1])
}

/// There is a walk of at most `k` edges from `s` to `t`.
pub open spec fn within(adj: Seq<Vec<bool>>, s: int, t: int, k: nat) -> bool {
    exists|w: Seq<int>|
        #[trigger] is_walk(adj, w) && w[0] == s && w.last() == t && w.len() <= k + 1
}

/// `t` can be reached from `s` by following edges.
pub open spec fn reachable(adj: Seq<Vec<bool>>, s: int, t: int) -> bool {
    exists|k: nat| #[trigger] within(adj, s, t, k)
}

/// The shortest walk from `s` to `t` has exactly `d` edges.
pub open spec fn is_shortest(adj: Seq<Vec<bool>>, s: int, t: int, d: nat) -> bool {
    &&& within(adj, s, t, d)
    &&& (d == 0 || !within(adj, s, t, (d - 1) as nat))
}

/// The length of a shortest walk from `s` to `t` (meaningful when `t` is
/// reachable from `s`).
pub open spec fn distance(adj: Seq<Vec<bool>>, s: int, t: int) -> nat {
    choose|d: nat| is_shortest(adj, s, t, d)
}

/// A node is within zero steps of itself, and of nothing else.
pub proof fn lemma_within_zero(adj: Seq<Vec<bool>>, s: int, t: int)
    requires
        0 <= s < adj.len(),
    ensures
        within(adj, s, t, 0) <==> t == s,
{
    let w = seq![s];
    assert(is_walk(adj, w));
    if within(adj, s, t, 0) {
        let v = choose|v: Seq<int>|
            #[trigger] is_walk(adj, v) && v[0] == s && v.last() == t && v.len() <= 1;
        assert(v.last() == v[0]);
    }
}

/// A walk of at most `k` edges is also a walk of at most `m >= k` edges.
pub proof fn lemma_within_mono(adj: Seq<Vec<bool>>, s: int, t: int, k: nat, m: nat)
    requires
        within(adj, s, t, k),
        k <= m,
    ensures
        within(adj, s, t, m),
{
    let w = choose|w: Seq<int>|
        #[trigger] is_walk(adj, w) && w[0] == s && w.last() == t && w.len() <= k + 1;
    assert(is_walk(adj, w));
}

/// A walk to `u` followed by an edge from `u` to `v` is a walk to `v`.
pub proof fn lemma_within_step(adj: Seq<Vec<bool>>, s: int, u: int, v: int, k: nat)
    requires
        within(adj, s, u, k),
        0 <= v < adj.len(),
        edge(adj, u, v),
    ensures
        within(adj, s, v, k + 1),
{
    let w = choose|w: Seq<int>|
        #[trigger] is_walk(adj, w) && w[0] == s && w.last() == u && w.len() <= k + 1;
    let w2 = w.push(v);
    assert forall|i: int| 0 <= i < w2.len() - 1 implies #[trigger] edge(adj, w2[i], w2[i + 1]) by {
        if i < w.len() - 1 {
            assert(edge(adj, w[i], w[i + 1]));
        }
    }
    assert(is_walk(adj, w2));
}

/// A walk of at most `k + 1` edges to `v` either has at most `k` edges or
/// ends with an edge from a node `u` that a walk of at most `k` edges reaches.
pub proof fn lemma_within_last_step(adj: Seq<Vec<bool>>, s: int, v: int, k: nat) -> (u: int)
    requires
        within(adj, s, v, k + 1),
    ensures
        within(adj, s, v, k) || (0 <= u < adj.len() && within(adj, s, u, k) && edge(adj, u, v)),
{
    let w = choose|w: Seq<int>|
        #[trigger] is_walk(adj, w) && w[0] == s && w.last() == v && w.len() <= k + 2;
    if w.len() <= k + 1 {
        assert(is_walk(adj, w));
        0
    } else {
        let p = w.drop_last();
        let u = w[w.len() - 2];
        assert forall|i: int| 0 <= i < p.len() - 1 implies #[trigger] edge(adj, p[i], p[i + 1]) by {
            assert(edge(adj, w[i], w[i + 1]));
        }
        assert(is_walk(adj, p));
        assert(edge(adj, w[w.len() - 2], w[w.len() - 2 + 1]));
        u
    }
}

/// A shortest distance is at most the length of any walk.
pub proof fn lemma_shortest_le(adj: Seq<Vec<bool>>, s: int, t: int, d: nat, k: nat)
    requires
        is_shortest(adj, s, t, d),
        within(adj, s, t, k),
    ensures
        d <= k,
{
    if d > k {
        lemma_within_mono(adj, s, t, k, (d - 1) as nat);
    }
}

/// There is only one shortest distance, and `distance` names it.
pub proof fn lemma_shortest_unique(adj: Seq<Vec<bool>>, s: int, t: int, d: nat)
    requires
        is_shortest(adj, s, t, d),
    ensures
        distance(adj, s, t) == d,
        reachable(adj, s, t),
{
    let e = distance(adj, s, t);
    lemma_shortest_le(adj, s, t, d, e);
    lemma_shortest_le(adj, s, t, e, d);
    assert(within(adj, s, t, d));
}

proof fn lemma_shortest_below(adj: Seq<Vec<bool>>, s: int, t: int, k: nat)
    requires
        within(adj, s, t, k),
    ensures
        exists|d: nat| d <= k && #[trigger] is_shortest(adj, s, t, d),
    decreases k,
{
    if k == 0 || !within(adj, s, t, (k - 1) as nat) {
        assert(is_shortest(adj, s, t, k));
    } else {
        lemma_shortest_below(adj, s, t, (k - 1) as nat);
    }
}

/// A reachable node is at its distance, and a node other than the start is
/// at least one edge away.
pub proof fn lemma_distance_of_reachable(adj: Seq<Vec<bool>>, s: int, t: int)
    requires
        reachable(adj, s, t),
        0 <= s < adj.len(),
    ensures
        is_shortest(adj, s, t, distance(adj, s, t)),
        t != s ==> distance(adj, s, t) >= 1,
{
    let k = choose|k: nat| #[trigger] within(adj, s, t, k);
    lemma_shortest_below(adj, s, t, k);
    let d = choose|d: nat| d <= k && #[trigger] is_shortest(adj, s, t, d);
    lemma_shortest_unique(adj, s, t, d);
    if t != s {
        lemma_within_zero(adj, s, t);
    }
}

/// A set of nodes that holds `s` and is closed under edges holds every node
/// that a walk from `s` reaches.
pub proof fn lemma_closed_holds_walks(
    adj: Seq<Vec<bool>>,
    s: int,
    inside: spec_fn(int) -> bool,
    t: int,
    k: nat,
)
    requires
        inside(s),
        forall|u: int, v: int|
            0 <= u < adj.len() && 0 <= v < adj.len() && #[trigger] inside(u) && edge(adj, u, v)
                ==> #[trigger] inside(v),
        within(adj, s, t, k),
    ensures
        inside(t),
{
    let w = choose|w: Seq<int>|
        #[trigger] is_walk(adj, w) && w[0] == s && w.last() == t && w.len() <= k + 1;
    lemma_walk_inside(adj, inside, w, w.len() - 1);
}

proof fn lemma_walk_inside(adj: Seq<Vec<bool>>, inside: spec_fn(int) -> bool, w: Seq<int>, i: int)
    requires
        is_walk(adj, w),
        inside(w[0]),
        forall|u: int, v: int|
            0 <= u < adj.len() && 0 <= v < adj.len() && #[trigger] inside(u) && edge(adj, u, v)
                ==> #[trigger] inside(v),
        0 <= i < w.len(),
    ensures
        inside(w[i]),
    decreases i,
{
    if i > 0 {
        lemma_walk_inside(adj, inside, w, i - 1);
        assert(edge(adj, w[i - 1], w[i - 1 + 1]));
    }
}

/// A sequence of distinct values below `n` has at most `n` elements.
pub proof fn lemma_distinct_below(s: Seq<usize>, n: int)
    requires
        0 <= n,
        s.no_duplicates(),
        forall|i: int| 0 <= i < s.len() ==> #[trigger] s[i] < n,
    ensures
        s.len() <= n,
{
    let m = s.map_values(|x: usize| x as int);
    assert(m.no_duplicates()) by {
        assert forall|i: int, j: int| 0 <= i < m.len() && 0 <= j < m.len() && i != j implies m[i]
            != m[j] by {
            assert(s[i] != s[j]);
        }
    }
    m.unique_seq_to_set();
    lemma_int_range(0, n);
    assert(m.to_set().subset_of(set_int_range(0, n))) by {
        assert forall|x: int| m.to_set().contains(x) implies set_int_range(0, n).contains(x) by {
            let i = choose|i: int| 0 <= i < m.len() && m[i] == x;
            assert(s[i] < n);
        }
    }
    lemma_len_subset(m.to_set(), set_int_range(0, n));
}

} // verus!
