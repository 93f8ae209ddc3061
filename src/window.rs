use vstd::prelude::*;

verus! {

/// One past the last index of the forward window of node `i`.
pub open spec fn forward_end(n: int, loc: int, i: int) -> int {
    if i + loc + 1 < n {
        i + loc + 1
    } else {
        n
    }
}

/// The first index of the wrap window of node `i` (the window runs up to `n`).
pub open spec fn wrap_start(n: int, loc: int, i: int) -> int {
    if i + loc + 1 > n - loc + i {
        i + loc + 1
    } else {
        n - loc + i
    }
}

/// `j` lies in the forward window of `i`: ahead of it by at most `loc`.
pub open spec fn in_forward(n: int, loc: int, i: int, j: int) -> bool {
    i < j && j < forward_end(n, loc, i)
}

/// `j` lies in the wrap window of `i`: near the tail of the index range, and
/// within `loc` steps of `i` when the range is read as a circle.
pub open spec fn in_wrap(n: int, loc: int, wrap: bool, i: int, j: int) -> bool {
    wrap && wrap_start(n, loc, i) <= j && j < n
}

/// The pair `(i, j)` is sampled while node `i` is visited.
pub open spec fn is_candidate(n: int, loc: int, wrap: bool, i: int, j: int) -> bool {
    0 <= i && (in_forward(n, loc, i, j) || in_wrap(n, loc, wrap, i, j))
}

/// The bounds `(start, end)` of the forward window of node `i`.
pub fn forward_window(node_count: usize, locality: usize, i: usize) -> (r: (usize, usize))
    requires
        i < node_count,
    ensures
        r.0 == i + 1,
        r.1 == forward_end(node_count as int, locality as int, i as int),
        r.0 <= r.1 <= node_count,
{
    if locality < node_count - i - 1 {
        (i + 1, i + locality + 1)
    } else {
        (i + 1, node_count)
    }
}

/// The bounds `(start, end)` of the wrap window of node `i`; an empty range
/// when wraparound is off or the window has nothing left in it.
pub fn wrap_window(node_count: usize, locality: usize, wraparound: bool, i: usize) -> (r: (
    usize,
    usize,
))
    requires
        i < node_count,
    ensures
        r.0 <= r.1 == node_count,
        r.0 == if wraparound && wrap_start(node_count as int, locality as int, i as int)
            < node_count {
            wrap_start(node_count as int, locality as int, i as int)
        } else {
            node_count as int
        },
        r.0 >= forward_end(node_count as int, locality as int, i as int),
        forall|j: int|
            r.0 <= j < r.1 <==> in_wrap(node_count as int, locality as int, wraparound, i as int, j),
{
    if !wraparound || locality >= node_count - i - 1 || i >= locality {
        (node_count, node_count)
    } else {
        let near = i + locality + 1;
        let far = node_count - (locality - i);
        if near > far {
            (near, node_count)
        } else {
            (far, node_count)
        }
    }
}

/// The forward and wrap windows of a node are disjoint, and both lie strictly
/// ahead of it: each unordered pair is sampled once, while its lower node is
/// visited, even when the two windows would reach over each other.
pub proof fn lemma_windows_disjoint(n: int, loc: int, wrap: bool, i: int, j: int)
    requires
        0 <= i,
        0 <= loc,
    ensures
        !(in_forward(n, loc, i, j) && in_wrap(n, loc, wrap, i, j)),
        is_candidate(n, loc, wrap, i, j) ==> i < j < n,
        is_candidate(n, loc, wrap, i, j) ==> !is_candidate(n, loc, wrap, j, i),
{
}


/// The number of candidates of node `i`: its forward window, then its wrap window.
pub open spec fn candidate_count(n: int, loc: int, wrap: bool, i: int) -> int {
    (forward_end(n, loc, i) - (i + 1)) + if wrap && wrap_start(n, loc, i) < n {
        n - wrap_start(n, loc, i)
    } else {
        0
    }
}

/// The position of candidate `j` among the candidates of node `i`, in
/// traversal order.
pub open spec fn candidate_position(n: int, loc: int, i: int, j: int) -> int {
    if in_forward(n, loc, i, j) {
        j - i - 1
    } else {
        (forward_end(n, loc, i) - (i + 1)) + (j - wrap_start(n, loc, i))
    }
}

/// The number of candidate pairs of the nodes below `i`.
pub open spec fn pairs_before(n: int, loc: int, wrap: bool, i: int) -> int
    decreases i,
{
    if i <= 0 {
        0
    } else {
        pairs_before(n, loc, wrap, i - 1) + candidate_count(n, loc, wrap, i - 1)
    }
}

/// The draws a number of pairs takes: one each undirected, two each directed.
pub open spec fn draws_for(directed: bool, pairs: int) -> int {
    if directed {
        2 * pairs
    } else {
        pairs
    }
}

/// The index of the draw that decides the candidate pair `(i, j)`, `i < j`
/// (its forward direction when directed; the backward one follows it).
pub open spec fn draw_index(n: int, loc: int, wrap: bool, directed: bool, i: int, j: int) -> int {
    draws_for(directed, pairs_before(n, loc, wrap, i) + candidate_position(n, loc, i, j))
}

/// The number of draws that generating a graph on `n` nodes consumes.
pub open spec fn draw_count(n: int, loc: int, wrap: bool, directed: bool) -> int {
    draws_for(directed, pairs_before(n, loc, wrap, n))
}

/// The number of candidates of node `i`.
pub fn node_candidates(node_count: usize, locality: usize, wraparound: bool, i: usize) -> (r:
    usize)
    requires
        i < node_count,
    ensures
        r == candidate_count(node_count as int, locality as int, wraparound, i as int),
{
    let (lo, hi) = forward_window(node_count, locality, i);
    let (ws, we) = wrap_window(node_count, locality, wraparound, i);
    (hi - lo) + (we - ws)
}

/// The count of candidate pairs only grows along the nodes.
pub proof fn lemma_pairs_before_monotone(n: int, loc: int, wrap: bool, i: int, k: int)
    requires
        0 <= i <= k <= n,
        0 <= loc,
    ensures
        pairs_before(n, loc, wrap, i) <= pairs_before(n, loc, wrap, k),
    decreases k - i,
{
    if i < k {
        lemma_pairs_before_monotone(n, loc, wrap, i, k - 1);
        assert(candidate_count(n, loc, wrap, k - 1) >= 0);
    }
}

/// A candidate's position lies within its node's candidates.
pub proof fn lemma_position_in_range(n: int, loc: int, wrap: bool, i: int, j: int)
    requires
        0 <= loc,
        is_candidate(n, loc, wrap, i, j),
    ensures
        0 <= candidate_position(n, loc, i, j) < candidate_count(n, loc, wrap, i),
{
}


/// The windows reach every pair: without wraparound when the bound reaches
/// from the first node to the last, with it when the forward and wrap windows
/// meet or overlap.
pub open spec fn covers_all_pairs(n: int, loc: int, wrap: bool) -> bool {
    if wrap {
        2 * loc + 1 >= n
    } else {
        loc >= n - 1
    }
}

proof fn lemma_pairs_before_all(n: int, loc: int, wrap: bool, i: int)
    requires
        0 <= i <= n,
        0 <= loc,
        covers_all_pairs(n, loc, wrap),
    ensures
        2 * pairs_before(n, loc, wrap, i) == i * (2 * n - i - 1),
    decreases i,
{
    if i > 0 {
        lemma_pairs_before_all(n, loc, wrap, i - 1);
        assert(candidate_count(n, loc, wrap, i - 1) == n - i);
        let prev = pairs_before(n, loc, wrap, i - 1);
        assert(2 * prev == (i - 1) * (2 * n - (i - 1) - 1));
        assert(pairs_before(n, loc, wrap, i) == prev + (n - i));
        assert(i * (2 * n - i - 1) == (i - 1) * (2 * n - (i - 1) - 1) + 2 * (n - i))
            by (nonlinear_arith);
    } else {
        assert(i * (2 * n - i - 1) == 0) by (nonlinear_arith)
            requires
                i == 0,
        ;
    }
}

/// When the windows reach every pair (in particular with wraparound off and
/// the bound equal to the node count), every pair `i < j` is a candidate, and
/// generation takes one draw per pair undirected and two directed, even where
/// the forward and wrap windows would overlap.
pub proof fn lemma_all_pairs_sampled_once(n: int, loc: int, wrap: bool, directed: bool)
    requires
        0 <= n,
        0 <= loc,
        covers_all_pairs(n, loc, wrap),
    ensures
        forall|i: int, j: int| 0 <= i < j < n ==> #[trigger] is_candidate(n, loc, wrap, i, j),
        2 * draw_count(n, loc, wrap, directed) == draws_for(directed, n * (n - 1)),
{
    lemma_pairs_before_all(n, loc, wrap, n);
    assert(n * (2 * n - n - 1) == n * (n - 1)) by (nonlinear_arith);
}

} // verus!
