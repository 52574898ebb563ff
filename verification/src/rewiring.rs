//! The rewiring of the small-world topology, replayed from its draws.
//!
//! The state of the rewiring is the edge relation together with the number
//! of coin draws and of target picks used so far. Each lattice edge
//! `(i, j)`, `i < j`, met in row order takes one coin; when the coin passes
//! the threshold the edge is removed and targets are picked until one is
//! neither `i` nor linked to `i`, at most `n` picks after the first.
use crate::graph::has_edges;
use crate::random::passes;
use crate::topology::lattice;
use vstd::prelude::*;

verus! {

/// `f` with both cells of the pair `(a, b)` set to `x`.
pub open spec fn with_pair(f: spec_fn(int, int) -> bool, a: int, b: int, x: bool) -> spec_fn(int, int) -> bool {
    |i: int, j: int| if (i == a && j == b) || (i == b && j == a) { x } else { f(i, j) }
}

/// `t` cannot take the moved edge of `i`: it is `i` itself or already linked to `i`.
pub open spec fn blocked(f: spec_fn(int, int) -> bool, i: int, t: int) -> bool {
    t == i || f(i, t)
}

/// How many picks after the first one the search for a target of `i` takes,
/// counting from the `k`-th: picks go on while the target is blocked and
/// fewer than `n` further picks were made. The picks are read from position
/// `first` of `picks`.
pub open spec fn extra_picks(f: spec_fn(int, int) -> bool, n: int, i: int, picks: Seq<usize>, first: int, k: int) -> int
    decreases n - k,
{
    if k < n && blocked(f, i, picks[first + k] as int) {
        extra_picks(f, n, i, picks, first, k + 1)
    } else {
        k
    }
}

/// The edge `(i, j)` moved to `(i, target)` for the first target that is not
/// blocked, or put back when the search ends on a blocked one; with the
/// position of the next unread pick.
pub open spec fn move_edge(f: spec_fn(int, int) -> bool, n: int, i: int, j: int, picks: Seq<usize>, first: int) -> (spec_fn(int, int) -> bool, int) {
    let g = with_pair(f, i, j, false);
    let k = extra_picks(g, n, i, picks, first, 0);
    let t = picks[first + k] as int;
    if !blocked(g, i, t) {
        (with_pair(g, i, t, true), first + k + 1)
    } else {
        (with_pair(g, i, j, true), first + k + 1)
    }
}

/// The state after visiting the pair `(i, j)`: an edge takes the next coin,
/// and is moved when the coin passes `threshold`.
pub open spec fn visit(
    s: (spec_fn(int, int) -> bool, int, int),
    n: int,
    threshold: u64,
    i: int,
    j: int,
    coins: Seq<u64>,
    picks: Seq<usize>,
) -> (spec_fn(int, int) -> bool, int, int) {
    if !(s.0)(i, j) {
        s
    } else if !passes(coins[s.1], threshold) {
        (s.0, s.1 + 1, s.2)
    } else {
        let m = move_edge(s.0, n, i, j, picks, s.2);
        (m.0, s.1 + 1, m.1)
    }
}

/// The state after visiting the pairs `(i, j)` with `i < j < end`, in order.
pub open spec fn visit_row(
    s: (spec_fn(int, int) -> bool, int, int),
    n: int,
    threshold: u64,
    i: int,
    end: int,
    coins: Seq<u64>,
    picks: Seq<usize>,
) -> (spec_fn(int, int) -> bool, int, int)
    decreases end - i,
{
    if end <= i + 1 {
        s
    } else {
        visit(visit_row(s, n, threshold, i, end - 1, coins, picks), n, threshold, i, end - 1, coins, picks)
    }
}

/// The state after visiting every pair `i < j < n` with `i < rows`, row by row.
pub open spec fn visit_rows(
    s: (spec_fn(int, int) -> bool, int, int),
    n: int,
    threshold: u64,
    rows: int,
    coins: Seq<u64>,
    picks: Seq<usize>,
) -> (spec_fn(int, int) -> bool, int, int)
    decreases rows,
{
    if rows <= 0 {
        s
    } else {
        visit_row(visit_rows(s, n, threshold, rows - 1, coins, picks), n, threshold, rows - 1, n, coins, picks)
    }
}

/// `b` starts with `a`.
pub open spec fn extends<A>(a: Seq<A>, b: Seq<A>) -> bool {
    &&& a.len() <= b.len()
    &&& forall|k: int| 0 <= k < a.len() ==> #[trigger] a[k] == b[k]
}

/// A pick search never takes fewer picks than where it starts.
pub proof fn lemma_extra_picks_from(f: spec_fn(int, int) -> bool, n: int, i: int, picks: Seq<usize>, first: int, k: int)
    ensures
        extra_picks(f, n, i, picks, first, k) >= k,
    decreases n - k,
{
    if k < n && blocked(f, i, picks[first + k] as int) {
        lemma_extra_picks_from(f, n, i, picks, first, k + 1);
    }
}

/// A pick search that reads only the common start of two pick sequences
/// ends the same on both.
pub proof fn lemma_extra_picks_frame(
    f: spec_fn(int, int) -> bool,
    n: int,
    i: int,
    p1: Seq<usize>,
    p2: Seq<usize>,
    first: int,
    k: int,
)
    requires
        extends(p1, p2),
        0 <= first,
        0 <= k,
        first + extra_picks(f, n, i, p1, first, k) < p1.len(),
    ensures
        extra_picks(f, n, i, p2, first, k) == extra_picks(f, n, i, p1, first, k),
    decreases n - k,
{
    lemma_extra_picks_from(f, n, i, p1, first, k);
    assert(p1[first + k] == p2[first + k]);
    if k < n && blocked(f, i, p1[first + k] as int) {
        lemma_extra_picks_frame(f, n, i, p1, p2, first, k + 1);
    }
}

/// Visiting a pair uses coins and picks onwards from where the state is.
pub proof fn lemma_visit_grows(
    s: (spec_fn(int, int) -> bool, int, int),
    n: int,
    threshold: u64,
    i: int,
    j: int,
    coins: Seq<u64>,
    picks: Seq<usize>,
)
    ensures
        visit(s, n, threshold, i, j, coins, picks).1 >= s.1,
        visit(s, n, threshold, i, j, coins, picks).2 >= s.2,
{
    if (s.0)(i, j) && passes(coins[s.1], threshold) {
        lemma_extra_picks_from(with_pair(s.0, i, j, false), n, i, picks, s.2, 0);
    }
}

/// Visiting a pair reads only the draws before the positions it ends at.
pub proof fn lemma_visit_frame(
    s: (spec_fn(int, int) -> bool, int, int),
    n: int,
    threshold: u64,
    i: int,
    j: int,
    c1: Seq<u64>,
    p1: Seq<usize>,
    c2: Seq<u64>,
    p2: Seq<usize>,
)
    requires
        extends(c1, c2),
        extends(p1, p2),
        0 <= s.1,
        0 <= s.2,
        visit(s, n, threshold, i, j, c1, p1).1 <= c1.len(),
        visit(s, n, threshold, i, j, c1, p1).2 <= p1.len(),
    ensures
        visit(s, n, threshold, i, j, c2, p2) == visit(s, n, threshold, i, j, c1, p1),
{
    if (s.0)(i, j) {
        assert(c1[s.1] == c2[s.1]);
        if passes(c1[s.1], threshold) {
            let g = with_pair(s.0, i, j, false);
            lemma_extra_picks_from(g, n, i, p1, s.2, 0);
            lemma_extra_picks_frame(g, n, i, p1, p2, s.2, 0);
            let k = extra_picks(g, n, i, p1, s.2, 0);
            assert(p1[s.2 + k] == p2[s.2 + k]);
        }
    }
}

/// Visiting a row uses draws onwards from where the state is.
pub proof fn lemma_visit_row_grows(
    s: (spec_fn(int, int) -> bool, int, int),
    n: int,
    threshold: u64,
    i: int,
    end: int,
    coins: Seq<u64>,
    picks: Seq<usize>,
)
    ensures
        visit_row(s, n, threshold, i, end, coins, picks).1 >= s.1,
        visit_row(s, n, threshold, i, end, coins, picks).2 >= s.2,
    decreases end - i,
{
    if end > i + 1 {
        lemma_visit_row_grows(s, n, threshold, i, end - 1, coins, picks);
        lemma_visit_grows(visit_row(s, n, threshold, i, end - 1, coins, picks), n, threshold, i, end - 1, coins, picks);
    }
}

/// Visiting a row reads only the draws before the positions it ends at.
pub proof fn lemma_visit_row_frame(
    s: (spec_fn(int, int) -> bool, int, int),
    n: int,
    threshold: u64,
    i: int,
    end: int,
    c1: Seq<u64>,
    p1: Seq<usize>,
    c2: Seq<u64>,
    p2: Seq<usize>,
)
    requires
        extends(c1, c2),
        extends(p1, p2),
        0 <= s.1,
        0 <= s.2,
        visit_row(s, n, threshold, i, end, c1, p1).1 <= c1.len(),
        visit_row(s, n, threshold, i, end, c1, p1).2 <= p1.len(),
    ensures
        visit_row(s, n, threshold, i, end, c2, p2) == visit_row(s, n, threshold, i, end, c1, p1),
    decreases end - i,
{
    if end > i + 1 {
        let before = visit_row(s, n, threshold, i, end - 1, c1, p1);
        lemma_visit_grows(before, n, threshold, i, end - 1, c1, p1);
        lemma_visit_row_grows(s, n, threshold, i, end - 1, c1, p1);
        lemma_visit_row_frame(s, n, threshold, i, end - 1, c1, p1, c2, p2);
        lemma_visit_frame(before, n, threshold, i, end - 1, c1, p1, c2, p2);
    }
}

/// Visiting rows uses draws onwards from where the state is.
pub proof fn lemma_visit_rows_grows(
    s: (spec_fn(int, int) -> bool, int, int),
    n: int,
    threshold: u64,
    rows: int,
    coins: Seq<u64>,
    picks: Seq<usize>,
)
    ensures
        visit_rows(s, n, threshold, rows, coins, picks).1 >= s.1,
        visit_rows(s, n, threshold, rows, coins, picks).2 >= s.2,
    decreases rows,
{
    if rows > 0 {
        lemma_visit_rows_grows(s, n, threshold, rows - 1, coins, picks);
        lemma_visit_row_grows(visit_rows(s, n, threshold, rows - 1, coins, picks), n, threshold, rows - 1, n, coins, picks);
    }
}

/// Visiting rows reads only the draws before the positions it ends at.
pub proof fn lemma_visit_rows_frame(
    s: (spec_fn(int, int) -> bool, int, int),
    n: int,
    threshold: u64,
    rows: int,
    c1: Seq<u64>,
    p1: Seq<usize>,
    c2: Seq<u64>,
    p2: Seq<usize>,
)
    requires
        extends(c1, c2),
        extends(p1, p2),
        0 <= s.1,
        0 <= s.2,
        visit_rows(s, n, threshold, rows, c1, p1).1 <= c1.len(),
        visit_rows(s, n, threshold, rows, c1, p1).2 <= p1.len(),
    ensures
        visit_rows(s, n, threshold, rows, c2, p2) == visit_rows(s, n, threshold, rows, c1, p1),
    decreases rows,
{
    if rows > 0 {
        let before = visit_rows(s, n, threshold, rows - 1, c1, p1);
        lemma_visit_row_grows(before, n, threshold, rows - 1, n, c1, p1);
        lemma_visit_rows_grows(s, n, threshold, rows - 1, c1, p1);
        lemma_visit_rows_frame(s, n, threshold, rows - 1, c1, p1, c2, p2);
        lemma_visit_row_frame(before, n, threshold, rows - 1, n, c1, p1, c2, p2);
    }
}


/// The state after the whole rewiring of the ring lattice of `n` nodes.
pub open spec fn rewired(n: int, threshold: u64, coins: Seq<u64>, picks: Seq<usize>) -> (spec_fn(int, int) -> bool, int, int) {
    visit_rows((lattice(n), 0, 0), n, threshold, n, coins, picks)
}

/// `adj` is the small world of `n` nodes that the coin draws `coins` and the
/// target picks `picks` (each below `n`) make, all of them used.
pub open spec fn small_world_from(adj: Seq<Vec<bool>>, n: int, threshold: u64, coins: Seq<u64>, picks: Seq<usize>) -> bool {
    &&& replays(n, threshold, coins, picks)
    &&& has_edges(adj, n, rewired(n, threshold, coins, picks).0)
}

/// The coins and picks are exactly the draws that rewiring the ring
/// lattice of `n` nodes takes: none is missing, none is left over, and every
/// pick is a node.
pub open spec fn replays(n: int, threshold: u64, coins: Seq<u64>, picks: Seq<usize>) -> bool {
    let s = rewired(n, threshold, coins, picks);
    &&& s.1 == coins.len()
    &&& s.2 == picks.len()
    &&& forall|k: int| 0 <= k < picks.len() ==> #[trigger] picks[k] < n
}

/// A search that was blocked for its first `a` picks and stops at pick `a`
/// takes `a` extra picks.
pub proof fn lemma_extra_picks_stop(f: spec_fn(int, int) -> bool, n: int, i: int, picks: Seq<usize>, first: int, a: int, k: int)
    requires
        0 <= k <= a <= n,
        forall|m: int| 0 <= m < a ==> blocked(f, i, #[trigger] picks[first + m] as int),
        a == n || !blocked(f, i, picks[first + a] as int),
    ensures
        extra_picks(f, n, i, picks, first, k) == a,
    decreases a - k,
{
    if k < a {
        assert(blocked(f, i, picks[first + k] as int));
        lemma_extra_picks_stop(f, n, i, picks, first, a, k + 1);
    }
}


/// A search that was blocked for its first `a` picks takes at least `a`
/// extra picks.
pub proof fn lemma_extra_picks_at_least(f: spec_fn(int, int) -> bool, n: int, i: int, picks: Seq<usize>, first: int, a: int, k: int)
    requires
        0 <= k <= a <= n,
        forall|m: int| 0 <= m < a ==> blocked(f, i, #[trigger] picks[first + m] as int),
    ensures
        extra_picks(f, n, i, picks, first, k) >= a,
    decreases a - k,
{
    if k < a {
        assert(blocked(f, i, picks[first + k] as int));
        lemma_extra_picks_at_least(f, n, i, picks, first, a, k + 1);
    } else {
        lemma_extra_picks_from(f, n, i, picks, first, k);
    }
}

/// Visiting more of a row uses at least the draws of visiting less of it.
pub proof fn lemma_visit_row_prefix(
    s: (spec_fn(int, int) -> bool, int, int),
    n: int,
    threshold: u64,
    i: int,
    j: int,
    end: int,
    coins: Seq<u64>,
    picks: Seq<usize>,
)
    requires
        j <= end,
    ensures
        visit_row(s, n, threshold, i, end, coins, picks).1 >= visit_row(s, n, threshold, i, j, coins, picks).1,
        visit_row(s, n, threshold, i, end, coins, picks).2 >= visit_row(s, n, threshold, i, j, coins, picks).2,
    decreases end - j,
{
    if j < end && end > i + 1 {
        lemma_visit_row_prefix(s, n, threshold, i, j, end - 1, coins, picks);
        lemma_visit_grows(visit_row(s, n, threshold, i, end - 1, coins, picks), n, threshold, i, end - 1, coins, picks);
    }
}

/// Visiting more rows uses at least the draws of visiting fewer.
pub proof fn lemma_visit_rows_prefix(
    s: (spec_fn(int, int) -> bool, int, int),
    n: int,
    threshold: u64,
    rows: int,
    m: int,
    coins: Seq<u64>,
    picks: Seq<usize>,
)
    requires
        rows <= m,
    ensures
        visit_rows(s, n, threshold, m, coins, picks).1 >= visit_rows(s, n, threshold, rows, coins, picks).1,
        visit_rows(s, n, threshold, m, coins, picks).2 >= visit_rows(s, n, threshold, rows, coins, picks).2,
    decreases m - rows,
{
    if rows < m && m > 0 {
        lemma_visit_rows_prefix(s, n, threshold, rows, m - 1, coins, picks);
        lemma_visit_row_grows(visit_rows(s, n, threshold, m - 1, coins, picks), n, threshold, m - 1, n, coins, picks);
    }
}

/// The whole rewiring uses at least the draws of visiting the pairs up to
/// and including `(i, j)`.
pub proof fn lemma_rewired_after(n: int, threshold: u64, i: int, j: int, coins: Seq<u64>, picks: Seq<usize>)
    requires
        0 <= i < j < n,
    ensures
        rewired(n, threshold, coins, picks).1 >= visit_row(
            visit_rows((lattice(n), 0, 0), n, threshold, i, coins, picks), n, threshold, i, j + 1, coins, picks).1,
        rewired(n, threshold, coins, picks).2 >= visit_row(
            visit_rows((lattice(n), 0, 0), n, threshold, i, coins, picks), n, threshold, i, j + 1, coins, picks).2,
{
    let s0 = (lattice(n), 0int, 0int);
    lemma_visit_rows_prefix(s0, n, threshold, i + 1, n, coins, picks);
    lemma_visit_row_prefix(visit_rows(s0, n, threshold, i, coins, picks), n, threshold, i, j + 1, n, coins, picks);
}


/// When the pair `(i, j)`, visited with all the draws so far, would read past
/// the given draws, they do not replay the rewiring.
pub proof fn lemma_runs_out(
    n: int,
    threshold: u64,
    i: int,
    j: int,
    s: (spec_fn(int, int) -> bool, int, int),
    c_log: Seq<u64>,
    p_log: Seq<usize>,
    coins: Seq<u64>,
    picks: Seq<usize>,
)
    requires
        0 <= i < j < n,
        extends(c_log, coins),
        extends(p_log, picks),
        s == visit_row(visit_rows((lattice(n), 0, 0), n, threshold, i, c_log, p_log), n, threshold, i, j, c_log, p_log),
        s.1 == c_log.len(),
        s.2 == p_log.len(),
        visit(s, n, threshold, i, j, coins, picks).1 > coins.len() || visit(s, n, threshold, i, j, coins, picks).2 > picks.len(),
    ensures
        !replays(n, threshold, coins, picks),
{
    let s0 = (lattice(n), 0int, 0int);
    let rows = visit_rows(s0, n, threshold, i, c_log, p_log);
    lemma_visit_rows_grows(s0, n, threshold, i, c_log, p_log);
    lemma_visit_row_grows(rows, n, threshold, i, j, c_log, p_log);
    lemma_visit_rows_frame(s0, n, threshold, i, c_log, p_log, coins, picks);
    lemma_visit_row_frame(rows, n, threshold, i, j, c_log, p_log, coins, picks);
    lemma_rewired_after(n, threshold, i, j, coins, picks);
}

} // verus!
