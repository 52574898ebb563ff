//! Topology generation: adjacency matrices for the supported graph shapes.
use crate::graph::{
    edge, edge_count, has_edges, is_loop_free, is_square, is_symmetric, is_undirected,
    lemma_has_edges_count, lemma_matrix_edge_count_set_pair, matrix_edge_count,
};
use crate::rewiring::{
    extends, lemma_extra_picks_at_least, lemma_extra_picks_stop, lemma_runs_out,
    lemma_visit_row_frame, lemma_visit_row_grows, lemma_visit_rows_frame, lemma_visit_rows_grows,
    replays, small_world_from, visit, visit_row, visit_rows, with_pair,
};
use crate::random::{draw_passes, lemma_passes_full, next_draw, passes, Draws, Source};
use vstd::prelude::*;

verus! {

/// Supported graph topologies.
///
/// The probabilities of the random topologies are given as thresholds: a
/// draw of 53 random bits, read as a number below `2^53`, succeeds when it is
/// below the threshold. A probability `p` is the threshold `ceil(p * 2^53)`,
/// clamped to `0..=2^53`.
#[derive(Debug)]
pub enum Topology {
    /// All nodes connected to a single hub (node 0).
    Star,
    /// Linear chain: node i connected to i+1.
    Chain,
    /// Circular ring: each node connected to its two neighbors.
    Ring,
    /// Full mesh / complete graph: every node connected to every other.
    Mesh,
    /// Watts–Strogatz-style small-world with the given rewiring threshold.
    SmallWorld(u64),
    /// Erdős–Rényi random graph with the given edge threshold.
    Random(u64),
    /// Custom topology from a provided adjacency matrix.
    Custom(Vec<Vec<bool>>),
}

/// The steps from `i` forward around a ring of `n` nodes to `j` (for
/// `i, j < n`).
pub open spec fn forward(n: int, i: int, j: int) -> int {
    if j >= i {
        j - i
    } else {
        j - i + n
    }
}

/// Edges of the star: every node is linked to the hub, node 0.
pub open spec fn star() -> spec_fn(int, int) -> bool {
    |i: int, j: int| (i == 0 && j != 0) || (j == 0 && i != 0)
}

/// Edges of the chain: node `i` is linked to node `i + 1`.
pub open spec fn chain() -> spec_fn(int, int) -> bool {
    |i: int, j: int| j == i + 1 || i == j + 1
}

/// Edges of the ring of `n >= 2` nodes: each node is linked to the next one
/// around the ring.
pub open spec fn ring(n: int) -> spec_fn(int, int) -> bool {
    |i: int, j: int| n >= 2 && (forward(n, i, j) == 1 || forward(n, j, i) == 1)
}

/// Edges of the complete graph.
pub open spec fn mesh() -> spec_fn(int, int) -> bool {
    |i: int, j: int| i != j
}

/// No edges at all.
pub open spec fn empty() -> spec_fn(int, int) -> bool {
    |i: int, j: int| false
}

/// How many neighbours on each side the ring lattice of `n` nodes links:
/// `min(2, n / 2)`.
pub open spec fn lattice_reach(n: int) -> int {
    if n / 2 < 2 {
        n / 2
    } else {
        2
    }
}

/// Edges of the ring lattice of `n >= 2` nodes that the small-world
/// topology starts from: each node is linked to the `lattice_reach(n)` nodes
/// that follow it around the ring.
pub open spec fn lattice(n: int) -> spec_fn(int, int) -> bool {
    |i: int, j: int|
        n >= 2 && ((1 <= forward(n, i, j) <= lattice_reach(n)) || (1 <= forward(n, j, i)
            <= lattice_reach(n)))
}

/// An `n × n` matrix with no edges.
fn zeros(n: usize) -> (adj: Vec<Vec<bool>>)
    ensures
        has_edges(adj@, n as int, empty()),
{
    let mut adj: Vec<Vec<bool>> = Vec::new();
    let mut i: usize = 0;
    while i < n
        invariant
            i <= n,
            adj@.len() == i,
            forall|r: int| 0 <= r < i ==> #[trigger] adj@[r]@.len() == n,
            forall|r: int, c: int| 0 <= r < i && 0 <= c < n ==> !#[trigger] edge(adj@, r, c),
        decreases n - i,
    {
        let mut row: Vec<bool> = Vec::new();
        let mut j: usize = 0;
        while j < n
            invariant
                j <= n,
                row@.len() == j,
                forall|c: int| 0 <= c < j ==> !#[trigger] row@[c],
            decreases n - j,
        {
            row.push(false);
            j = j + 1;
        }
        let ghost before = adj@;
        adj.push(row);
        proof {
            assert forall|r: int, c: int| 0 <= r < i + 1 && 0 <= c < n implies !#[trigger] edge(adj@, r, c) by {
                if r == i {
                    assert(adj@[r]@ == row@);
                } else {
                    assert(adj@[r] == before[r]);
                    assert(!edge(before, r, c));
                }
            }
        }
        i = i + 1;
    }
    adj
}

/// Set the two cells `(i, j)` and `(j, i)` to `w`.
fn set_sym(adj: &mut Vec<Vec<bool>>, i: usize, j: usize, w: bool)
    requires
        is_square(old(adj)@),
        i < old(adj)@.len(),
        j < old(adj)@.len(),
    ensures
        final(adj)@.len() == old(adj)@.len(),
        is_square(final(adj)@),
        is_symmetric(old(adj)@) ==> is_symmetric(final(adj)@),
        is_loop_free(old(adj)@) && i != j ==> is_loop_free(final(adj)@),
        forall|a: int, b: int|
            0 <= a < old(adj)@.len() && 0 <= b < old(adj)@.len() ==> #[trigger] edge(final(adj)@, a, b) == if (a
                == i && b == j) || (a == j && b == i) {
                w
            } else {
                edge(old(adj)@, a, b)
            },
{
    let ghost before = adj@;
    adj[i][j] = w;
    adj[j][i] = w;
    proof {
        let n = before.len() as int;
        assert forall|a: int, b: int| 0 <= a < n && 0 <= b < n implies #[trigger] edge(adj@, a, b) == if (a == i
            && b == j) || (a == j && b == i) {
            w
        } else {
            edge(before, a, b)
        } by {}
        if is_symmetric(before) {
            assert forall|a: int, b: int| 0 <= a < n && 0 <= b < n implies #[trigger] edge(adj@, a, b) == edge(adj@, b, a) by {
                assert(edge(adj@, b, a) == if (b == i && a == j) || (b == j && a == i) {
                    w
                } else {
                    edge(before, b, a)
                });
                assert(edge(before, a, b) == edge(before, b, a));
            }
        }
        if is_loop_free(before) && i != j {
            assert forall|a: int| 0 <= a < n implies !#[trigger] edge(adj@, a, a) by {
                assert(!edge(before, a, a));
            }
        }
    }
}


/// The star on `n` nodes, with node 0 as the hub.
fn generate_star(n: usize) -> (adj: Vec<Vec<bool>>)
    ensures
        has_edges(adj@, n as int, star()),
{
    let mut adj = zeros(n);
    if n > 1 {
        let mut i: usize = 1;
        while i < n
            invariant
                1 <= i <= n,
                adj@.len() == n,
                is_square(adj@),
                forall|a: int, b: int|
                    0 <= a < n && 0 <= b < n ==> #[trigger] edge(adj@, a, b) == ((a == 0 && 1 <= b < i) || (b
                        == 0 && 1 <= a < i)),
            decreases n - i,
        {
            set_sym(&mut adj, 0, i, true);
            i = i + 1;
        }
    }
    adj
}

/// The chain on `n` nodes: node `i` linked to node `i + 1`.
fn generate_chain(n: usize) -> (adj: Vec<Vec<bool>>)
    ensures
        has_edges(adj@, n as int, chain()),
{
    let mut adj = zeros(n);
    if n > 1 {
        let mut i: usize = 0;
        while i < n - 1
            invariant
                n > 1,
                i <= n - 1,
                adj@.len() == n,
                is_square(adj@),
                forall|a: int, b: int|
                    0 <= a < n && 0 <= b < n ==> #[trigger] edge(adj@, a, b) == ((b == a + 1 && a < i) || (a
                        == b + 1 && b < i)),
            decreases n - 1 - i,
        {
            set_sym(&mut adj, i, i + 1, true);
            i = i + 1;
        }
    }
    adj
}

/// The ring on `n` nodes: each node linked to the next one around the ring.
fn generate_ring(n: usize) -> (adj: Vec<Vec<bool>>)
    ensures
        has_edges(adj@, n as int, ring(n as int)),
{
    let mut adj = zeros(n);
    if n > 1 {
        let mut i: usize = 0;
        while i < n
            invariant
                n > 1,
                i <= n,
                adj@.len() == n,
                is_square(adj@),
                forall|a: int, b: int|
                    0 <= a < n && 0 <= b < n ==> #[trigger] edge(adj@, a, b) == ((a < i && forward(
                        n as int,
                        a,
                        b,
                    ) == 1) || (b < i && forward(n as int, b, a) == 1)),
            decreases n - i,
        {
            let j = (i + 1) % n;
            proof {
                assert(j == if i + 1 < n { i + 1 } else { 0 }) by (nonlinear_arith)
                    requires j == (i + 1) % (n as int), i < n, n > 1;
            }
            set_sym(&mut adj, i, j, true);
            i = i + 1;
        }
    }
    adj
}

/// The complete graph on `n` nodes.
fn generate_mesh(n: usize) -> (adj: Vec<Vec<bool>>)
    ensures
        has_edges(adj@, n as int, mesh()),
{
    let mut adj = zeros(n);
    let mut i: usize = 0;
    while i < n
        invariant
            i <= n,
            adj@.len() == n,
            is_square(adj@),
            forall|a: int, b: int|
                0 <= a < n && 0 <= b < n ==> #[trigger] edge(adj@, a, b) == (a != b && (a < i || b < i)),
        decreases n - i,
    {
        let mut j: usize = i + 1;
        while j < n
            invariant
                i < n,
                i + 1 <= j <= n,
                adj@.len() == n,
                is_square(adj@),
                forall|a: int, b: int|
                    0 <= a < n && 0 <= b < n ==> #[trigger] edge(adj@, a, b) == (a != b && (a < i || b < i
                        || (a == i && b < j) || (b == i && a < j))),
            decreases n - j,
        {
            set_sym(&mut adj, i, j, true);
            j = j + 1;
        }
        i = i + 1;
    }
    adj
}


/// The cells `(a, b)` of the ring lattice of `n` nodes with reach `k` that
/// are set once the rows below `i` are done and, in row `i`, the steps below
/// `dk`.
spec fn lattice_partial(n: int, k: int, i: int, dk: int, a: int, b: int) -> bool {
    ||| (a < i && 1 <= forward(n, a, b) <= k)
    ||| (b < i && 1 <= forward(n, b, a) <= k)
    ||| (a == i && 1 <= forward(n, a, b) < dk)
    ||| (b == i && 1 <= forward(n, b, a) < dk)
}

/// The ring lattice of `n` nodes, each linked to the `min(2, n / 2)` nodes
/// that follow it around the ring.
fn ring_lattice(n: usize) -> (adj: Vec<Vec<bool>>)
    requires
        n < usize::MAX,
    ensures
        has_edges(adj@, n as int, lattice(n as int)),
{
    let mut adj = zeros(n);
    if n <= 1 {
        proof {
            assert forall|a: int, b: int| 0 <= a < n && 0 <= b < n implies #[trigger] edge(adj@, a, b) == lattice(n as int)(a, b) by {}
        }
        return adj;
    }
    let k: usize = if n / 2 < 2 { n / 2 } else { 2 };
    let mut i: usize = 0;
    while i < n
        invariant
            1 < n < usize::MAX,
            k == lattice_reach(n as int),
            i <= n,
            adj@.len() == n,
            is_square(adj@),
            forall|a: int, b: int|
                0 <= a < n && 0 <= b < n ==> #[trigger] edge(adj@, a, b) == lattice_partial(n as int, k as int, i as int, 1, a, b),
        decreases n - i,
    {
        let mut dk: usize = 1;
        while dk <= k
            invariant
                1 < n < usize::MAX,
                k == lattice_reach(n as int),
                k <= 2,
                i < n,
                1 <= dk <= k + 1,
                adj@.len() == n,
                is_square(adj@),
                forall|a: int, b: int|
                    0 <= a < n && 0 <= b < n ==> #[trigger] edge(adj@, a, b) == lattice_partial(n as int, k as int, i as int, dk as int, a, b),
            decreases k + 1 - dk,
        {
            let j = (i + dk) % n;
            proof {
                assert(j == if i + dk < n { i + dk } else { i + dk - n }) by (nonlinear_arith)
                    requires j == (i + dk) % (n as int), i < n, 1 <= dk < n;
                assert(forward(n as int, i as int, j as int) == dk);
            }
            set_sym(&mut adj, i, j, true);
            proof {
                assert forall|b: int| 0 <= b < n && forward(n as int, i as int, b) == dk implies b == j by {}
            }
            dk = dk + 1;
        }
        i = i + 1;
    }
    adj
}

/// The picks `picks`, each with the bound `n` it was drawn below.
pub open spec fn with_bound(n: usize, picks: Seq<usize>) -> Seq<(usize, usize)> {
    picks.map_values(|p: usize| (n, p))
}

/// The draws `d` have given, since they were `d0`, the coins `coins` and the
/// picks `picks`: read from the front of the given ones, or, for the live
/// source, added to its record with each pick drawn below `n`.
pub open spec fn tracks(d: Draws, d0: Draws, n: usize, coins: Seq<u64>, picks: Seq<usize>) -> bool {
    if d0 is Live {
        &&& d is Live
        &&& d.live_coins() == d0.live_coins() + coins
        &&& d.live_picks() == d0.live_picks() + with_bound(n, picks)
    } else {
        &&& d is Given
        &&& d.given_coins() == d0.given_coins()
        &&& d.given_picks() == d0.given_picks()
        &&& 0 <= d.coins_read() <= d0.given_coins().len()
        &&& 0 <= d.picks_read() <= d0.given_picks().len()
        &&& coins == d0.given_coins().take(d.coins_read())
        &&& picks == d0.given_picks().take(d.picks_read())
    }
}

/// Rewire the ring lattice `adj` of `n` nodes with the given draws: each
/// edge `(i, j)`, `i < j`, met in row order takes a coin, and when the coin
/// passes `threshold` the edge is removed and `i` is linked to the first
/// picked node that is neither `i` nor linked to `i` (at most `n` picks after
/// the first); when the last pick is still such a node, the edge is put
/// back. Returns `false` when the given draws run out or a given pick is not
/// a node, with the draws read so far.
fn rewire(adj: &mut Vec<Vec<bool>>, n: usize, threshold: u64, draws: &mut Draws) -> (r: (bool, Ghost<Seq<u64>>, Ghost<Seq<usize>>))
    requires
        has_edges(old(adj)@, n as int, lattice(n as int)),
        *old(draws) is Given ==> old(draws).coins_read() == 0 && old(draws).picks_read() == 0,
    ensures
        final(adj)@.len() == n,
        r.0 ==> is_undirected(final(adj)@),
        r.0 ==> matrix_edge_count(final(adj)@) == edge_count(lattice(n as int), n as int),
        r.0 && threshold == 0 ==> has_edges(final(adj)@, n as int, lattice(n as int)),
        r.0 ==> small_world_from(final(adj)@, n as int, threshold, r.1@, r.2@),
        *old(draws) is Live ==> r.0,
        tracks(*final(draws), *old(draws), n, r.1@, r.2@),
        *old(draws) is Given ==> {
            &&& !r.0 ==> !replays(n as int, threshold, old(draws).given_coins(), old(draws).given_picks())
        },
{
    let ghost live = *draws is Live;
    let ghost gc = draws.given_coins();
    let ghost gp = draws.given_picks();
    proof {
        lemma_has_edges_count(adj@, n as int, lattice(n as int));
        assert forall|a: int, b: int| 0 <= a < n && 0 <= b < n implies #[trigger] edge(adj@, a, b) == edge(adj@, b, a) by {
            assert(edge(adj@, a, b) == lattice(n as int)(a, b));
            assert(edge(adj@, b, a) == lattice(n as int)(b, a));
        }
        assert forall|a: int| 0 <= a < n implies !#[trigger] edge(adj@, a, a) by {
            assert(edge(adj@, a, a) == lattice(n as int)(a, a));
        }
    }
    let ghost s0 = (lattice(n as int), 0int, 0int);
    let ghost mut coins: Seq<u64> = Seq::empty();
    let ghost mut picks: Seq<usize> = Seq::empty();
    let ghost mut s = s0;
    proof {
        if !live {
            assert(coins == gc.take(0));
            assert(picks == gp.take(0));
        } else {
            assert(draws.live_coins() =~= old(draws).live_coins() + coins);
            assert(draws.live_picks() =~= old(draws).live_picks() + with_bound(n, picks));
        }
    }
    let mut i: usize = 0;
    while i < n
        invariant
            i <= n,
            adj@.len() == n,
            is_undirected(adj@),
            matrix_edge_count(adj@) == edge_count(lattice(n as int), n as int),
            threshold == 0 ==> has_edges(adj@, n as int, lattice(n as int)),
            s0 == (lattice(n as int), 0int, 0int),
            s == visit_rows(s0, n as int, threshold, i as int, coins, picks),
            s.1 == coins.len(),
            s.2 == picks.len(),
            forall|m: int| 0 <= m < picks.len() ==> #[trigger] picks[m] < n,
            has_edges(adj@, n as int, s.0),
            tracks(*draws, *old(draws), n, coins, picks),
                live == (*old(draws) is Live),
                gc == old(draws).given_coins(),
                gp == old(draws).given_picks(),
        decreases n - i,
    {
        let mut j: usize = i + 1;
        while j < n
            invariant
                i < n,
                i + 1 <= j <= n,
                adj@.len() == n,
                is_undirected(adj@),
                matrix_edge_count(adj@) == edge_count(lattice(n as int), n as int),
                threshold == 0 ==> has_edges(adj@, n as int, lattice(n as int)),
                s0 == (lattice(n as int), 0int, 0int),
                s == visit_row(visit_rows(s0, n as int, threshold, i as int, coins, picks), n as int, threshold, i as int, j as int, coins, picks),
                s.1 == coins.len(),
                s.2 == picks.len(),
                forall|m: int| 0 <= m < picks.len() ==> #[trigger] picks[m] < n,
                has_edges(adj@, n as int, s.0),
                tracks(*draws, *old(draws), n, coins, picks),
                live == (*old(draws) is Live),
                gc == old(draws).given_coins(),
                gp == old(draws).given_picks(),
            decreases n - j,
        {
            let ghost c_old = coins;
            let ghost p_old = picks;
            let ghost s_old = s;
            proof {
                assert(edge(adj@, i as int, j as int) == (s_old.0)(i as int, j as int));
            }
            if adj[i][j] {
                let next = draws.coin();
                let coin = match next {
                    Some(c) => c,
                    None => {
                        proof {
                            assert(!live);
                            assert(c_old =~= gc);
                            lemma_runs_out(n as int, threshold, i as int, j as int, s_old, c_old, p_old, gc, gp);
                        }
                        return (false, Ghost(coins), Ghost(picks));
                    },
                };
                proof {
                    coins = coins.push(coin);
                    assert(coins[s_old.1] == coin);
                    if !live {
                        assert(coins =~= gc.take(draws.coins_read()));
                    } else {
                        assert(draws.live_coins() =~= old(draws).live_coins() + coins);
                    }
                }
                if draw_passes(coin, threshold) {
                    let ghost full = adj@;
                    let ghost g = with_pair(s_old.0, i as int, j as int, false);
                    set_sym(adj, i, j, false);
                    proof {
                        assert(edge(full, i as int, j as int) == edge(full, j as int, i as int));
                        lemma_matrix_edge_count_set_pair(full, adj@, i as int, j as int, false);
                        assert forall|a: int, b: int| 0 <= a < n && 0 <= b < n implies #[trigger] edge(adj@, a, b) == g(a, b) by {
                            assert(edge(full, a, b) == (s_old.0)(a, b));
                        }
                    }
                    let ghost removed = adj@;
                    let ghost p0 = picks.len() as int;
                    let ghost c_now = coins;
                    proof {
                        if !live {
                            assert(extends(c_old, gc)) by {
                                assert forall|m: int| 0 <= m < c_old.len() implies #[trigger] c_old[m] == gc[m] by {
                                    assert(coins[m] == c_old[m]);
                                }
                            }
                            assert(extends(p_old, gp));
                        }
                    }
                    let first = draws.pick(n);
                    let mut target = match first {
                        Some(t) => t,
                        None => {
                            proof {
                                if draws.picks_read() < gp.len() {
                                    assert(gp[draws.picks_read()] >= n);
                                } else {
                                    assert(p_old =~= gp);
                                    lemma_extra_picks_at_least(g, n as int, i as int, gp, p0, 0, 0);
                                    assert(gc[s_old.1] == coin);
                                    lemma_runs_out(n as int, threshold, i as int, j as int, s_old, c_old, p_old, gc, gp);
                                }
                            }
                            return (false, Ghost(coins), Ghost(picks));
                        },
                    };
                    proof {
                        picks = picks.push(target);
                        if !live {
                            assert(picks =~= gp.take(draws.picks_read()));
                        } else {
                            assert(draws.live_picks() =~= old(draws).live_picks() + with_bound(n, picks));
                        }
                    }
                    let mut attempts: usize = 0;
                    while (target == i || adj[i][target]) && attempts < n
                        invariant
                            i < j < n,
                            target < n,
                            attempts <= n,
                            adj@.len() == n,
                            is_square(adj@),
                            adj@ == removed,
                            has_edges(removed, n as int, g),
                            g == with_pair(s_old.0, i as int, j as int, false),
                            p0 == p_old.len(),
                            extends(p_old, picks),
                            picks.len() == p0 + attempts + 1,
                            target == picks[p0 + attempts],
                            forall|m: int| 0 <= m < attempts ==> crate::rewiring::blocked(g, i as int, #[trigger] picks[p0 + m] as int),
                            forall|m: int| 0 <= m < picks.len() ==> #[trigger] picks[m] < n,
                            tracks(*draws, *old(draws), n, coins, picks),
                live == (*old(draws) is Live),
                gc == old(draws).given_coins(),
                gp == old(draws).given_picks(),
                            coins == c_now,
                            coins.len() == s_old.1 + 1,
                            coins[s_old.1] == coin,
                            passes(coin, threshold),
                            s_old.1 == c_old.len(),
                            s_old.2 == p_old.len(),
                            (s_old.0)(i as int, j as int),
                            s0 == (lattice(n as int), 0int, 0int),
                            s_old == visit_row(visit_rows(s0, n as int, threshold, i as int, c_old, p_old), n as int, threshold, i as int, j as int, c_old, p_old),
                            !live ==> extends(c_old, gc),
                            !live ==> extends(p_old, gp),
                        decreases n - attempts,
                    {
                        proof {
                            assert(edge(removed, i as int, target as int) == g(i as int, target as int));
                        }
                        let ghost before = picks;
                        let again = draws.pick(n);
                        target = match again {
                            Some(t) => t,
                            None => {
                                proof {
                                    if draws.picks_read() < gp.len() {
                                        assert(gp[draws.picks_read()] >= n);
                                    } else {
                                        assert(before =~= gp);
                                        assert forall|m: int| 0 <= m < attempts + 1 implies crate::rewiring::blocked(g, i as int, #[trigger] gp[p0 + m] as int) by {
                                            assert(gp[p0 + m] == before[p0 + m]);
                                        }
                                        lemma_extra_picks_at_least(g, n as int, i as int, gp, p0, attempts + 1, 0);
                                        assert(gc[s_old.1] == coin);
                                        assert forall|m: int| 0 <= m < p_old.len() implies #[trigger] p_old[m] == gp[m] by {
                                            assert(p_old[m] == before[m]);
                                        }
                                        lemma_runs_out(n as int, threshold, i as int, j as int, s_old, c_old, p_old, gc, gp);
                                    }
                                }
                                return (false, Ghost(coins), Ghost(picks));
                            },
                        };
                        proof {
                            picks = picks.push(target);
                            if !live {
                                assert(picks =~= gp.take(draws.picks_read()));
                            } else {
                                assert(draws.live_picks() =~= old(draws).live_picks() + with_bound(n, picks));
                            }
                            assert forall|m: int| 0 <= m < attempts + 1 implies crate::rewiring::blocked(g, i as int, #[trigger] picks[p0 + m] as int) by {
                                assert(picks[p0 + m] == before[p0 + m]);
                            }
                            assert forall|m: int| 0 <= m < p_old.len() implies #[trigger] p_old[m] == picks[m] by {
                                assert(before[m] == picks[m]);
                            }
                        }
                        attempts = attempts + 1;
                    }
                    proof {
                        assert(edge(removed, i as int, target as int) == g(i as int, target as int));
                        lemma_extra_picks_stop(g, n as int, i as int, picks, p0, attempts as int, 0);
                    }
                    if target != i && !adj[i][target] {
                        set_sym(adj, i, target, true);
                        proof {
                            assert(edge(removed, i as int, target as int) == edge(removed, target as int, i as int));
                            lemma_matrix_edge_count_set_pair(removed, adj@, i as int, target as int, true);
                        }
                    } else {
                        set_sym(adj, i, j, true);
                        proof {
                            assert(edge(removed, i as int, j as int) == edge(removed, j as int, i as int));
                            lemma_matrix_edge_count_set_pair(removed, adj@, i as int, j as int, true);
                        }
                    }
                    proof {
                        s = visit(s_old, n as int, threshold, i as int, j as int, coins, picks);
                        assert(has_edges(adj@, n as int, s.0)) by {
                            assert forall|a: int, b: int| 0 <= a < n && 0 <= b < n implies #[trigger] edge(adj@, a, b) == (s.0)(a, b) by {
                                assert(edge(removed, a, b) == g(a, b));
                            }
                        }
                    }
                } else {
                    proof {
                        s = visit(s_old, n as int, threshold, i as int, j as int, coins, picks);
                    }
                }
            }
            proof {
                let rows_old = visit_rows(s0, n as int, threshold, i as int, c_old, p_old);
                lemma_visit_rows_grows(s0, n as int, threshold, i as int, c_old, p_old);
                lemma_visit_row_grows(rows_old, n as int, threshold, i as int, j as int, c_old, p_old);
                lemma_visit_rows_frame(s0, n as int, threshold, i as int, c_old, p_old, coins, picks);
                lemma_visit_row_frame(rows_old, n as int, threshold, i as int, j as int, c_old, p_old, coins, picks);
                assert(s == visit(s_old, n as int, threshold, i as int, j as int, coins, picks));
            }
            j = j + 1;
        }
        i = i + 1;
    }
    proof {
        assert(small_world_from(adj@, n as int, threshold, coins, picks));
    }
    (true, Ghost(coins), Ghost(picks))
}

/// A Watts–Strogatz-style small world on `n` nodes: the ring lattice
/// rewired (see `rewire`) with fresh draws of the live source `src`, whose
/// coins pass `threshold` with the wanted probability. The graph is the one
/// that the draws the source gave make, each pick drawn below `n`; the
/// source is handed back with them on its record.
fn generate_small_world(n: usize, threshold: u64, src: Source) -> (r: (Vec<Vec<bool>>, Source))
    requires
        n < usize::MAX,
    ensures
        r.0@.len() == n,
        is_undirected(r.0@),
        matrix_edge_count(r.0@) == edge_count(lattice(n as int), n as int),
        threshold == 0 ==> has_edges(r.0@, n as int, lattice(n as int)),
        exists|coins: Seq<u64>, picks: Seq<usize>|
            #[trigger] small_world_from(r.0@, n as int, threshold, coins, picks)
                && r.1.drawn() == src.drawn() + coins
                && r.1.picked() == src.picked() + with_bound(n, picks),
{
    let mut adj = ring_lattice(n);
    if n <= 1 {
        proof {
            let e1: Seq<u64> = Seq::empty();
            let e2: Seq<usize> = Seq::empty();
            let s0 = (lattice(n as int), 0int, 0int);
            assert(visit_rows(s0, n as int, threshold, 0, e1, e2) == s0);
            if n == 1 {
                assert(visit_row(s0, n as int, threshold, 0, 1, e1, e2) == s0);
                assert(visit_rows(s0, n as int, threshold, 1, e1, e2) == s0);
            }
            lemma_has_edges_count(adj@, n as int, lattice(n as int));
            assert(small_world_from(adj@, n as int, threshold, e1, e2));
            assert(src.drawn() =~= src.drawn() + e1);
            assert(src.picked() =~= src.picked() + with_bound(n, e2));
        }
        return (adj, src);
    }
    let mut draws = Draws::Live(src);
    let r = rewire(&mut adj, n, threshold, &mut draws);
    let out = match draws {
        Draws::Live(s) => s,
        Draws::Given { .. } => unreached(),
    };
    proof {
        assert(small_world_from(adj@, n as int, threshold, r.1@, r.2@));
    }
    (adj, out)
}

/// The small world on `n` nodes that the given draws make: the ring lattice
/// rewired (see `rewire`) reading the coins and the picks in order. `None`
/// when the draws are not exactly those that the rewiring reads: some are
/// missing, some are left over, or a pick is not a node.
pub fn small_world_from_draws(n: usize, threshold: u64, coins: &[u64], picks: &[usize]) -> (r: Option<Vec<Vec<bool>>>)
    requires
        n < usize::MAX,
    ensures
        r is Some <==> replays(n as int, threshold, coins@, picks@),
        r matches Some(adj) ==> small_world_from(adj@, n as int, threshold, coins@, picks@),
{
    let mut adj = ring_lattice(n);
    let mut draws = Draws::Given { coins, picks, next_coin: 0, next_pick: 0 };
    let r = rewire(&mut adj, n, threshold, &mut draws);
    if !r.0 {
        return None;
    }
    let (used_coins, used_picks) = match draws {
        Draws::Given { next_coin, next_pick, .. } => (next_coin, next_pick),
        Draws::Live(_) => (0, 0),
    };
    proof {
        let s0 = (lattice(n as int), 0int, 0int);
        lemma_visit_rows_frame(s0, n as int, threshold, n as int, r.1@, r.2@, coins@, picks@);
        if used_coins == coins.len() && used_picks == picks.len() {
            assert(r.1@ =~= coins@);
            assert(r.2@ =~= picks@);
        }
    }
    if used_coins == coins.len() && used_picks == picks.len() {
        Some(adj)
    } else {
        None
    }
}


/// The number of pairs `a < b < n` whose first node is below `i`.
pub open spec fn pairs_before(n: int, i: int) -> int
    decreases i,
{
    if i <= 0 {
        0
    } else {
        pairs_before(n, i - 1) + (n - i)
    }
}

/// The position of the pair `i < j` when the pairs of `n` nodes are listed
/// row by row: `(0, 1), (0, 2), ..., (0, n - 1), (1, 2), ...`.
pub open spec fn pair_index(n: int, i: int, j: int) -> int {
    pairs_before(n, i) + (j - i - 1)
}

/// The edges that the draws decide: the pair `i < j` is linked when the draw
/// at its position passes `threshold`.
pub open spec fn drawn(n: int, threshold: u64, draws: Seq<u64>) -> spec_fn(int, int) -> bool {
    |i: int, j: int|
        if i < j {
            passes(draws[pair_index(n, i, j)], threshold)
        } else if j < i {
            passes(draws[pair_index(n, j, i)], threshold)
        } else {
            false
        }
}

pub proof fn lemma_pairs_before(n: int, i: int)
    requires
        0 <= i <= n,
    ensures
        2 * pairs_before(n, i) == i * (2 * n - i - 1),
        pairs_before(n, i) >= 0,
    decreases i,
{
    if i > 0 {
        lemma_pairs_before(n, i - 1);
        assert(2 * (pairs_before(n, i - 1) + (n - i)) == i * (2 * n - i - 1)) by (nonlinear_arith)
            requires
                2 * pairs_before(n, i - 1) == (i - 1) * (2 * n - (i - 1) - 1),
        ;
    } else {
        assert(i * (2 * n - i - 1) == 0) by (nonlinear_arith)
            requires i == 0;
    }
}

proof fn lemma_pairs_before_mono(n: int, i: int, m: int)
    requires
        0 <= i <= m <= n,
    ensures
        pairs_before(n, i) <= pairs_before(n, m),
    decreases m - i,
{
    if i < m {
        lemma_pairs_before_mono(n, i, m - 1);
    }
}

/// The number of pairs `a < b` of `n` nodes: `n (n - 1) / 2`.
pub open spec fn pair_total(n: int) -> int {
    n * (n - 1) / 2
}

pub proof fn lemma_pair_total(n: int)
    requires
        n >= 0,
    ensures
        pairs_before(n, n) == pair_total(n),
{
    lemma_pairs_before(n, n);
    assert(n * (2 * n - n - 1) == n * (n - 1)) by (nonlinear_arith);
}

/// The random graph on `n` nodes that the given draws decide: each pair
/// `i < j`, taken row by row, is linked when its draw passes `threshold`.
pub fn random_graph_from_draws(n: usize, threshold: u64, draws: &[u64]) -> (adj: Vec<Vec<bool>>)
    requires
        draws@.len() == pair_total(n as int),
    ensures
        has_edges(adj@, n as int, drawn(n as int, threshold, draws@)),
{
    let ghost f = drawn(n as int, threshold, draws@);
    proof {
        lemma_pair_total(n as int);
    }
    let mut adj = zeros(n);
    let mut cursor: usize = 0;
    let mut i: usize = 0;
    while i < n
        invariant
            i <= n,
            adj@.len() == n,
            is_square(adj@),
            draws@.len() == pairs_before(n as int, n as int),
            f == drawn(n as int, threshold, draws@),
            cursor == pairs_before(n as int, i as int),
            forall|a: int, b: int|
                0 <= a < n && 0 <= b < n ==> #[trigger] edge(adj@, a, b) == ((a < i || b < i) && f(a, b)),
        decreases n - i,
    {
        let mut j: usize = i + 1;
        proof {
            lemma_pairs_before_mono(n as int, i as int + 1, n as int);
        }
        while j < n
            invariant
                i < n,
                i + 1 <= j <= n,
                adj@.len() == n,
                is_square(adj@),
                draws@.len() == pairs_before(n as int, n as int),
                pairs_before(n as int, i as int + 1) <= pairs_before(n as int, n as int),
                f == drawn(n as int, threshold, draws@),
                cursor == pair_index(n as int, i as int, j as int),
                forall|a: int, b: int|
                    0 <= a < n && 0 <= b < n ==> #[trigger] edge(adj@, a, b) == ((a < i || b < i || (a == i && b < j) || (b == i && a < j)) && f(a, b)),
            decreases n - j,
        {
            if draw_passes(draws[cursor], threshold) {
                set_sym(&mut adj, i, j, true);
            }
            cursor = cursor + 1;
            j = j + 1;
        }
        i = i + 1;
    }
    adj
}

/// An Erdős–Rényi random graph on `n` nodes: each pair `i < j`, taken row by
/// row, is linked when a fresh draw of `src` passes `threshold`. The source
/// gives one new draw per pair, and the graph is the one those draws decide.
fn generate_random(n: usize, threshold: u64, src: &mut Source) -> (adj: Vec<Vec<bool>>)
    ensures
        final(src).picked() == old(src).picked(),
        exists|d: Seq<u64>|
            #[trigger] has_edges(adj@, n as int, drawn(n as int, threshold, d))
                && d.len() == pair_total(n as int)
                && final(src).drawn() == old(src).drawn() + d,
        adj@.len() == n,
        is_undirected(adj@),
        threshold == 0 ==> has_edges(adj@, n as int, empty()),
        threshold >= 0x20_0000_0000_0000 ==> has_edges(adj@, n as int, mesh()),
{
    let mut draws: Vec<u64> = Vec::new();
    proof {
        assert(src.drawn() =~= old(src).drawn() + draws@);
    }
    let mut i: usize = 0;
    while i < n
        invariant
            i <= n,
            draws@.len() == pairs_before(n as int, i as int),
            src.drawn() == old(src).drawn() + draws@,
            src.picked() == old(src).picked(),
        decreases n - i,
    {
        let mut j: usize = i + 1;
        while j < n
            invariant
                i < n,
                i + 1 <= j <= n,
                draws@.len() == pair_index(n as int, i as int, j as int),
                src.drawn() == old(src).drawn() + draws@,
                src.picked() == old(src).picked(),
            decreases n - j,
        {
            draws.push(next_draw(src));
            proof {
                assert(src.drawn() =~= old(src).drawn() + draws@);
            }
            j = j + 1;
        }
        i = i + 1;
    }
    proof {
        lemma_pair_total(n as int);
    }
    let adj = random_graph_from_draws(n, threshold, &draws);
    proof {
        let f = drawn(n as int, threshold, draws@);
        if threshold >= 0x20_0000_0000_0000 {
            assert forall|a: int, b: int| 0 <= a < n && 0 <= b < n implies #[trigger] edge(adj@, a, b) == mesh()(a, b) by {
                if a < b {
                    lemma_passes_full(draws@[pair_index(n as int, a, b)], threshold);
                } else if b < a {
                    lemma_passes_full(draws@[pair_index(n as int, b, a)], threshold);
                }
            }
        }
    }
    adj
}


/// `a` and `b` hold the same rows.
pub open spec fn same_rows(a: Seq<Vec<bool>>, b: Seq<Vec<bool>>) -> bool {
    &&& a.len() == b.len()
    &&& forall|i: int| 0 <= i < a.len() ==> #[trigger] a[i]@ == b[i]@
}

/// What `generate` promises of the matrix `adj` it builds for `topology`
/// with `n` nodes.
pub open spec fn generated(topology: Topology, n: int, adj: Seq<Vec<bool>>) -> bool {
    match topology {
        Topology::Star => has_edges(adj, n, star()),
        Topology::Chain => has_edges(adj, n, chain()),
        Topology::Ring => has_edges(adj, n, ring(n)),
        Topology::Mesh => has_edges(adj, n, mesh()),
        Topology::SmallWorld(threshold) => {
            &&& adj.len() == n
            &&& is_undirected(adj)
            &&& matrix_edge_count(adj) == edge_count(lattice(n), n)
            &&& threshold == 0 ==> has_edges(adj, n, lattice(n))
            &&& exists|coins: Seq<u64>, picks: Seq<usize>| #[trigger] small_world_from(adj, n, threshold, coins, picks)
        },
        Topology::Random(threshold) => {
            &&& adj.len() == n
            &&& is_undirected(adj)
            &&& threshold == 0 ==> has_edges(adj, n, empty())
            &&& threshold >= 0x20_0000_0000_0000 ==> has_edges(adj, n, mesh())
            &&& exists|d: Seq<u64>| d.len() == pair_total(n) && #[trigger] has_edges(adj, n, drawn(n, threshold, d))
        },
        Topology::Custom(m) => same_rows(adj, m@),
    }
}

/// Generate the adjacency matrix of `topology` with `n` nodes.
///
/// For every topology but `Custom`, the matrix is `n × n`, symmetric
/// (undirected) and has no edge from a node to itself. A custom matrix must
/// have `n` rows and is returned as it is.
pub fn generate(topology: &Topology, n: usize) -> (adj: Vec<Vec<bool>>)
    requires
        topology matches Topology::Custom(m) ==> m@.len() == n,
        topology is SmallWorld ==> n < usize::MAX,
    ensures
        generated(*topology, n as int, adj@),
{
    match topology {
        Topology::Star => generate_star(n),
        Topology::Chain => generate_chain(n),
        Topology::Ring => generate_ring(n),
        Topology::Mesh => generate_mesh(n),
        Topology::SmallWorld(threshold) => generate_small_world(n, *threshold, Source::new()).0,
        Topology::Random(threshold) => {
            let mut src = Source::new();
            generate_random(n, *threshold, &mut src)
        },
        Topology::Custom(m) => {
            let adj = m.clone();
            proof {
                assert forall|i: int| 0 <= i < adj@.len() implies #[trigger] adj@[i]@ == m@[i]@ by {
                    assert(cloned::<Vec<bool>>(m@[i], adj@[i]));
                    assert(adj@[i]@ =~= m@[i]@);
                }
            }
            adj
        },
    }
}


} // verus!
