use vstd::prelude::*;
use vstd::relations::{sorted_by, total_ordering};
use crate::generator::{adjacency, is_edgeless};

verus! {

/// The index distance `|a - b|` between two nodes.
pub open spec fn distance(a: int, b: int) -> int {
    if a >= b {
        a - b
    } else {
        b - a
    }
}

/// The distances of the edges that node `a`'s list `es` contributes: every
/// entry when directed, only the entries above `a` when undirected (so that
/// each undirected edge is counted once).
pub open spec fn entry_distances(a: int, es: Seq<usize>, directed: bool) -> Seq<usize>
    decreases es.len(),
{
    if es.len() == 0 {
        seq![]
    } else {
        let before = entry_distances(a, es.drop_last(), directed);
        let e = es.last() as int;
        if directed || e > a {
            before.push(distance(a, e) as usize)
        } else {
            before
        }
    }
}

/// The distances of all counted edges, node by node, in list order.
pub open spec fn edge_distances(adj: Seq<Seq<usize>>, directed: bool) -> Seq<usize>
    decreases adj.len(),
{
    if adj.len() == 0 {
        seq![]
    } else {
        edge_distances(adj.drop_last(), directed) + entry_distances(
            adj.len() - 1,
            adj.last(),
            directed,
        )
    }
}

/// The largest element, or `0` for the empty sequence.
pub open spec fn seq_max(d: Seq<usize>) -> usize
    decreases d.len(),
{
    if d.len() == 0 {
        0
    } else {
        let m = seq_max(d.drop_last());
        if d.last() > m {
            d.last()
        } else {
            m
        }
    }
}

/// The sum of the elements.
pub open spec fn seq_sum(d: Seq<usize>) -> int
    decreases d.len(),
{
    if d.len() == 0 {
        0
    } else {
        seq_sum(d.drop_last()) + d.last()
    }
}

/// The ascending order on distances.
pub open spec fn ascending() -> spec_fn(usize, usize) -> bool {
    |x: usize, y: usize| x <= y
}

/// The element at position `len / 2` of the sequence sorted ascending (the
/// lower middle for an even length), or `0` for the empty sequence.
pub open spec fn median_of(d: Seq<usize>) -> usize {
    if d.len() == 0 {
        0
    } else {
        d.sort_by(ascending())[(d.len() / 2) as int]
    }
}

/// The sum of the squares of the elements.
pub open spec fn square_sum(d: Seq<usize>) -> int
    decreases d.len(),
{
    if d.len() == 0 {
        0
    } else {
        square_sum(d.drop_last()) + d.last() * d.last()
    }
}

/// Summary statistics over the index distances of a graph's edges, as exact
/// integers.
///
/// With `c = edge_count > 0`, the mean distance is `distance_sum / c` and the
/// population standard deviation is
/// `sqrt(square_sum / c - (distance_sum / c)^2)`; without edges both are `0`.
#[derive(Clone, Copy, Debug, PartialEq, Eq, Structural)]
pub struct Stats {
    pub edge_count: usize,
    pub max_distance: usize,
    pub median_distance: usize,
    pub distance_sum: u128,
    pub square_sum: u128,
}

impl Stats {
    /// The statistics of the distance sequence `d`.
    pub open spec fn describes(self, d: Seq<usize>) -> bool {
        &&& self.edge_count == d.len()
        &&& self.max_distance == seq_max(d)
        &&& self.median_distance == median_of(d)
        &&& self.distance_sum == seq_sum(d)
        &&& self.square_sum == square_sum(d)
    }
}

/// Relies on slice::sort_unstable: it reorders the elements into ascending order.
#[verifier::external_body]
fn sort_ascending(v: &mut Vec<usize>)
    ensures
        final(v)@.len() == old(v)@.len(),
        final(v)@.to_multiset() == old(v)@.to_multiset(),
        sorted_by(final(v)@, ascending()),
{
    v.sort_unstable();
}


/// The distance between two indices.
fn abs_diff(a: usize, b: usize) -> (r: usize)
    ensures
        r == distance(a as int, b as int),
{
    if a >= b {
        a - b
    } else {
        b - a
    }
}

/// The distances of the counted edges, in the order of `edge_distances`.
fn collect_distances(graph: &Vec<Vec<usize>>, directed: bool) -> (r: Vec<usize>)
    requires
        forall|a: int, k: int|
            0 <= a < graph.len() && 0 <= k < graph[a]@.len() ==> #[trigger] graph[a]@[k]
                < graph.len(),
    ensures
        r@ == edge_distances(adjacency(graph@), directed),
        forall|t: int| 0 <= t < r@.len() ==> #[trigger] r@[t] < graph.len(),
{
    let ghost adj = adjacency(graph@);
    let mut lengths: Vec<usize> = Vec::new();
    let mut a: usize = 0;
    while a < graph.len()
        invariant
            a <= graph.len(),
            adj == adjacency(graph@),
            forall|a: int, k: int|
                0 <= a < graph.len() && 0 <= k < graph[a]@.len() ==> #[trigger] graph[a]@[k]
                    < graph.len(),
            lengths@ == edge_distances(adj.take(a as int), directed),
            forall|t: int| 0 <= t < lengths@.len() ==> #[trigger] lengths@[t] < graph.len(),
        decreases graph.len() - a,
    {
        let es = &graph[a];
        let ghost base = lengths@;
        let mut k: usize = 0;
        while k < es.len()
            invariant
                a < graph.len(),
                k <= es.len(),
                es == &graph[a as int],
                forall|a: int, k: int|
                    0 <= a < graph.len() && 0 <= k < graph[a]@.len() ==> #[trigger] graph[a]@[k]
                        < graph.len(),
                lengths@ == base + entry_distances(a as int, es@.take(k as int), directed),
                forall|t: int| 0 <= t < lengths@.len() ==> #[trigger] lengths@[t] < graph.len(),
            decreases es.len() - k,
        {
            let e = es[k];
            assert(es@.take(k + 1).drop_last() == es@.take(k as int));
            assert(e < graph.len());
            if directed || e > a {
                lengths.push(abs_diff(a, e));
            }
            k = k + 1;
        }
        assert(es@.take(es@.len() as int) == es@);
        assert(adj.take(a + 1).drop_last() == adj.take(a as int));
        assert(adj[a as int] == es@);
        a = a + 1;
    }
    assert(adj.take(graph.len() as int) == adj);
    lengths
}


proof fn lemma_ascending_total()
    ensures
        total_ordering(ascending()),
{
}

/// Computes the edge statistics of a graph: the distances of its edges are
/// read node by node, counting every entry when directed and only entries
/// above their node when undirected.
pub fn collect(graph: &Vec<Vec<usize>>, directed: bool) -> (r: Stats)
    requires
        graph.len() <= u32::MAX,
        forall|a: int, k: int|
            0 <= a < graph.len() && 0 <= k < graph[a]@.len() ==> #[trigger] graph[a]@[k]
                < graph.len(),
    ensures
        r.describes(edge_distances(adjacency(graph@), directed)),
{
    let mut lengths = collect_distances(graph, directed);
    let ghost d = lengths@;
    let count = lengths.len();

    let mut max: usize = 0;
    let mut sum: u128 = 0;
    let mut squares: u128 = 0;
    let mut t: usize = 0;
    while t < count
        invariant
            t <= count,
            count == d.len(),
            lengths@ == d,
            graph.len() <= u32::MAX,
            forall|u: int| 0 <= u < d.len() ==> #[trigger] d[u] < graph.len(),
            max == seq_max(d.take(t as int)),
            sum == seq_sum(d.take(t as int)),
            squares == square_sum(d.take(t as int)),
            sum <= t * 0xFFFF_FFFF,
            squares <= t * 0x1_0000_0000_0000_0000,
        decreases count - t,
    {
        assert(d.take(t + 1).drop_last() == d.take(t as int));
        let x = lengths[t];
        assert((x as int) * (x as int) < 0x1_0000_0000_0000_0000) by (nonlinear_arith)
            requires
                x < 0x1_0000_0000,
        ;
        if x > max {
            max = x;
        }
        sum = sum + x as u128;
        squares = squares + (x as u128) * (x as u128);
        t = t + 1;
    }
    assert(d.take(count as int) == d);

    sort_ascending(&mut lengths);
    let median: usize = if count == 0 {
        0
    } else {
        lengths[count / 2]
    };
    proof {
        if count > 0 {
            lemma_ascending_total();
            d.lemma_sort_by_ensures(ascending());
            vstd::seq_lib::lemma_sorted_unique(lengths@, d.sort_by(ascending()), ascending());
        }
    }

    Stats {
        edge_count: count,
        max_distance: max,
        median_distance: median,
        distance_sum: sum,
        square_sum: squares,
    }
}


proof fn lemma_edgeless_no_distances(adj: Seq<Seq<usize>>, directed: bool)
    requires
        is_edgeless(adj),
    ensures
        edge_distances(adj, directed).len() == 0,
    decreases adj.len(),
{
    if adj.len() > 0 {
        let rest = adj.drop_last();
        assert forall|a: int| 0 <= a < rest.len() implies (#[trigger] rest[a]).len() == 0 by {
            assert(rest[a] == adj[a]);
        }
        lemma_edgeless_no_distances(rest, directed);
        assert(adj.last().len() == 0);
    }
}

/// The statistics of a graph without edges are all zero: no edge, and a
/// maximum, median, distance sum and square sum of `0` (so that the mean and
/// the standard deviation are reported as `0`).
pub proof fn lemma_edgeless_stats(adj: Seq<Seq<usize>>, directed: bool, s: Stats)
    requires
        is_edgeless(adj),
        s.describes(edge_distances(adj, directed)),
    ensures
        s.edge_count == 0,
        s.max_distance == 0,
        s.median_distance == 0,
        s.distance_sum == 0,
        s.square_sum == 0,
{
    lemma_edgeless_no_distances(adj, directed);
}

} // verus!
