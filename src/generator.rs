use vstd::prelude::*;
use crate::config::Probability;
use crate::window::{
    candidate_count, candidate_position, draw_count, draw_index, draws_for, forward_window, in_forward,
    is_candidate, lemma_pairs_before_monotone, lemma_position_in_range, lemma_windows_disjoint,
    node_candidates, pairs_before, wrap_window,
};

verus! {

#[verifier::external_type_specification]
#[verifier::external_body]
pub struct ExStdRng(rand::rngs::StdRng);

/// Relies on rand::Rng::gen_ratio: it draws `true` with probability
/// `numerator / denominator`, never when the numerator is zero and always when
/// it equals the denominator; it panics unless `0 < denominator` and
/// `numerator <= denominator`.
#[verifier::external_body]
fn roll(rng: &mut rand::rngs::StdRng, numerator: u32, denominator: u32) -> (r: bool)
    requires
        0 < denominator,
        numerator <= denominator,
    ensures
        numerator == 0 ==> !r,
        numerator == denominator ==> r,
{
    rand::Rng::gen_ratio(rng, numerator, denominator)
}

/// The adjacency lists of a graph, as sequences of neighbour indices.
pub open spec fn adjacency(g: Seq<Vec<usize>>) -> Seq<Seq<usize>> {
    g.map_values(|v: Vec<usize>| v@)
}

/// Node `a` lists `b` as a neighbour.
pub open spec fn has_edge(adj: Seq<Seq<usize>>, a: int, b: int) -> bool {
    0 <= a < adj.len() && 0 <= b < adj.len() && adj[a].contains(b as usize)
}

/// The smaller of two indices.
pub open spec fn min_of(a: int, b: int) -> int {
    if a < b { a } else { b }
}

/// The larger of two indices.
pub open spec fn max_of(a: int, b: int) -> int {
    if a < b { b } else { a }
}

/// Generation has sampled the unordered pair `{a, b}` once it has finished the
/// nodes below `i` and, at node `i`, the candidates below `j`.
pub open spec fn visited(i: int, j: int, a: int, b: int) -> bool {
    min_of(a, b) < i || (min_of(a, b) == i && max_of(a, b) < j)
}

/// Every edge joins a candidate pair, in either direction.
pub open spec fn edges_are_candidates(adj: Seq<Seq<usize>>, loc: int, wrap: bool) -> bool {
    forall|a: int, b: int|
        #[trigger] has_edge(adj, a, b) ==> is_candidate(
            adj.len() as int,
            loc,
            wrap,
            min_of(a, b),
            max_of(a, b),
        )
}

/// No list holds its own node, nor any neighbour twice.
pub open spec fn is_simple(adj: Seq<Seq<usize>>) -> bool {
    &&& forall|a: int| 0 <= a < adj.len() ==> (#[trigger] adj[a]).no_duplicates()
    &&& forall|a: int| #![trigger has_edge(adj, a, a)] !has_edge(adj, a, a)
    &&& forall|a: int, k: int|
        0 <= a < adj.len() && 0 <= k < adj[a].len() ==> (#[trigger] adj[a][k]) < adj.len()
}

/// Each edge is listed by both of its nodes.
pub open spec fn is_symmetric(adj: Seq<Seq<usize>>) -> bool {
    forall|a: int, b: int| #[trigger] has_edge(adj, a, b) ==> has_edge(adj, b, a)
}

/// Every candidate pair is joined in both directions.
pub open spec fn has_all_candidates(adj: Seq<Seq<usize>>, loc: int, wrap: bool) -> bool {
    forall|a: int, b: int|
        #[trigger] is_candidate(adj.len() as int, loc, wrap, a, b) ==> has_edge(adj, a, b)
            && has_edge(adj, b, a)
}

/// No node has a neighbour.
pub open spec fn is_edgeless(adj: Seq<Seq<usize>>) -> bool {
    forall|a: int| 0 <= a < adj.len() ==> (#[trigger] adj[a]).len() == 0
}

/// Each list holds its neighbours in strictly increasing order.
pub open spec fn is_ascending(adj: Seq<Seq<usize>>) -> bool {
    forall|a: int, k: int, l: int|
        0 <= a < adj.len() && 0 <= k < l < adj[a].len() ==> #[trigger] adj[a][k]
            < #[trigger] adj[a][l]
}

/// Whether the draws `hits` put an edge from `a` to `b`: the draw of the pair
/// decides its forward direction, and, for a directed graph, the draw after it
/// decides the backward one; an undirected pair uses its one draw for both.
pub open spec fn drawn_edge(
    hits: Seq<bool>,
    n: int,
    loc: int,
    wrap: bool,
    directed: bool,
    a: int,
    b: int,
) -> bool {
    if a < b {
        is_candidate(n, loc, wrap, a, b) && hits[draw_index(n, loc, wrap, directed, a, b)]
    } else if b < a {
        is_candidate(n, loc, wrap, b, a) && hits[draw_index(n, loc, wrap, directed, b, a) + if directed {
            1int
        } else {
            0int
        }]
    } else {
        false
    }
}

/// What holds of the lists part way through building, at node `i` with the
/// candidates below `j` sampled.
pub open spec fn partial(
    adj: Seq<Seq<usize>>,
    hits: Seq<bool>,
    n: int,
    loc: int,
    wrap: bool,
    directed: bool,
    i: int,
    j: int,
) -> bool {
    &&& adj.len() == n
    &&& is_simple(adj)
    &&& is_ascending(adj)
    &&& forall|a: int, b: int|
        #![trigger has_edge(adj, a, b)]
        0 <= a < n && 0 <= b < n ==> (has_edge(adj, a, b) <==> visited(i, j, a, b) && drawn_edge(
            hits,
            n,
            loc,
            wrap,
            directed,
            a,
            b,
        ))
}

/// Records the outcome of sampling the pair `(i, j)`: `j` joins `i`'s list
/// when `forward_hit` holds, and `i` joins `j`'s list when `forward_hit` holds
/// (undirected) or when `backward_hit` holds (directed).
pub fn link_pair(
    graph: &mut Vec<Vec<usize>>,
    i: usize,
    j: usize,
    directed: bool,
    forward_hit: bool,
    backward_hit: bool,
)
    requires
        i < old(graph).len(),
        j < old(graph).len(),
        i != j,
    ensures
        final(graph).len() == old(graph).len(),
        forall|a: int|
            0 <= a < old(graph).len() && a != i && a != j ==> (#[trigger] final(graph)[a])@
                == old(graph)[a]@,
        final(graph)[i as int]@ == if forward_hit {
            old(graph)[i as int]@.push(j)
        } else {
            old(graph)[i as int]@
        },
        final(graph)[j as int]@ == if (if directed { backward_hit } else { forward_hit }) {
            old(graph)[j as int]@.push(i)
        } else {
            old(graph)[j as int]@
        },
{
    if forward_hit {
        graph[i].push(j);
    }
    let back = if directed { backward_hit } else { forward_hit };
    if back {
        graph[j].push(i);
    }
}


proof fn lemma_push_no_duplicates(s: Seq<usize>, x: usize)
    requires
        s.no_duplicates(),
        !s.contains(x),
    ensures
        s.push(x).no_duplicates(),
{
    assert forall|k: int, l: int| 0 <= k < l < s.push(x).len() implies s.push(x)[k] != s.push(
        x,
    )[l] by {
        if l == s.len() {
            assert(s.contains(s[k]));
        }
    }
}

/// How the edges change when `link_pair` records the hits `f` (towards `j`)
/// and `bk` (towards `i`).
proof fn lemma_link_edges(
    before: Seq<Seq<usize>>,
    after: Seq<Seq<usize>>,
    i: usize,
    j: usize,
    f: bool,
    bk: bool,
)
    requires
        after.len() == before.len(),
        before.len() <= usize::MAX,
        0 <= i < before.len(),
        0 <= j < before.len(),
        i != j,
        forall|a: int| 0 <= a < before.len() && a != i && a != j ==> after[a] == before[a],
        after[i as int] == if f { before[i as int].push(j) } else { before[i as int] },
        after[j as int] == if bk { before[j as int].push(i) } else { before[j as int] },
    ensures
        forall|a: int, b: int|
            #[trigger] has_edge(after, a, b) <==> has_edge(before, a, b) || (f && a == i && b
                == j) || (bk && a == j && b == i),
{
    assert forall|a: int, b: int|
        #[trigger] has_edge(after, a, b) <==> has_edge(before, a, b) || (f && a == i && b == j)
            || (bk && a == j && b == i) by {
        if 0 <= a < before.len() && 0 <= b {
            if a == i && f {
                vstd::seq_lib::lemma_seq_contains_after_push(before[i as int], j, b as usize);
            }
            if a == j && bk {
                vstd::seq_lib::lemma_seq_contains_after_push(before[j as int], i, b as usize);
            }
        }
    }
}

proof fn lemma_push_ascending(s: Seq<usize>, x: usize)
    requires
        forall|k: int, l: int| 0 <= k < l < s.len() ==> #[trigger] s[k] < #[trigger] s[l],
        forall|k: int| 0 <= k < s.len() ==> #[trigger] s[k] < x,
    ensures
        forall|k: int, l: int|
            0 <= k < l < s.push(x).len() ==> #[trigger] s.push(x)[k] < #[trigger] s.push(x)[l],
{
    assert forall|k: int, l: int| 0 <= k < l < s.push(x).len() implies #[trigger] s.push(x)[k]
        < #[trigger] s.push(x)[l] by {
        if l == s.len() {
            assert(s[k] < x);
        } else {
            assert(s[k] < s[l]);
        }
    }
}

/// Builds node `i`'s candidates `lo .. hi` in ascending order, reading their
/// draws from `hits` at `d` on; returns where the next draw lies.
fn visit_range(
    graph: &mut Vec<Vec<usize>>,
    hits: &Vec<bool>,
    locality: usize,
    directed: bool,
    wraparound: bool,
    i: usize,
    lo: usize,
    hi: usize,
    d: usize,
) -> (next: usize)
    requires
        i < lo <= hi <= old(graph).len(),
        old(graph).len() <= usize::MAX,
        d + draws_for(directed, hi - lo) <= hits@.len(),
        forall|j: int|
            lo <= j < hi ==> #[trigger] is_candidate(
                old(graph).len() as int,
                locality as int,
                wraparound,
                i as int,
                j,
            ) && draw_index(
                old(graph).len() as int,
                locality as int,
                wraparound,
                directed,
                i as int,
                j,
            ) == d + draws_for(directed, j - lo),
        partial(
            adjacency(old(graph)@),
            hits@,
            old(graph).len() as int,
            locality as int,
            wraparound,
            directed,
            i as int,
            lo as int,
        ),
    ensures
        final(graph).len() == old(graph).len(),
        next == d + draws_for(directed, hi - lo),
        partial(
            adjacency(final(graph)@),
            hits@,
            old(graph).len() as int,
            locality as int,
            wraparound,
            directed,
            i as int,
            hi as int,
        ),
{
    let ghost n = graph.len() as int;
    let ghost loc = locality as int;
    let mut j: usize = lo;
    let mut at: usize = d;
    while j < hi
        invariant
            lo <= j <= hi,
            graph.len() == n,
            i < lo,
            hi <= n,
            at == d + draws_for(directed, j - lo),
            d + draws_for(directed, hi - lo) <= hits@.len(),
            forall|j: int|
                lo <= j < hi ==> #[trigger] is_candidate(n, loc, wraparound, i as int, j)
                    && draw_index(n, loc, wraparound, directed, i as int, j) == d + draws_for(
                    directed,
                    j - lo,
                ),
            partial(adjacency(graph@), hits@, n, loc, wraparound, directed, i as int, j as int),
        decreases hi - j,
    {
        let ghost before = adjacency(graph@);
        assert(is_candidate(n, loc, wraparound, i as int, j as int));
        let forward_hit = hits[at];
        let backward_hit = if directed {
            hits[at + 1]
        } else {
            false
        };
        link_pair(graph, i, j, directed, forward_hit, backward_hit);
        let ghost after = adjacency(graph@);
        let ghost bk = if directed { backward_hit } else { forward_hit };
        proof {
            lemma_link_edges(before, after, i, j, forward_hit, bk);
            assert(!has_edge(before, i as int, j as int));
            assert(!has_edge(before, j as int, i as int));
            if forward_hit {
                lemma_push_no_duplicates(before[i as int], j);
                assert forall|k: int| 0 <= k < before[i as int].len() implies #[trigger] before[i as int][k] < j by {
                    let b = before[i as int][k] as int;
                    assert(before[i as int].contains(b as usize));
                    assert(has_edge(before, i as int, b));
                }
                lemma_push_ascending(before[i as int], j);
            }
            if bk {
                lemma_push_no_duplicates(before[j as int], i);
                assert forall|k: int| 0 <= k < before[j as int].len() implies #[trigger] before[j as int][k] < i by {
                    let b = before[j as int][k] as int;
                    assert(before[j as int].contains(b as usize));
                    assert(has_edge(before, j as int, b));
                }
                lemma_push_ascending(before[j as int], i);
            }
            assert forall|a: int| 0 <= a < after.len() implies (#[trigger] after[a]).no_duplicates() by {
                assert(before[a].no_duplicates());
            }
            assert forall|a: int, k: int|
                0 <= a < after.len() && 0 <= k < after[a].len() implies (#[trigger] after[a][k]) < after.len() by {
                if (a == i && forward_hit && k == before[a].len()) || (a == j && bk && k == before[a].len()) {
                } else {
                    assert(after[a][k] == before[a][k]);
                }
            }
            assert forall|a: int, k: int, l: int|
                0 <= a < after.len() && 0 <= k < l < after[a].len() implies #[trigger] after[a][k]
                    < #[trigger] after[a][l] by {
                if a != i && a != j {
                    assert(after[a] == before[a]);
                    assert(before[a][k] < before[a][l]);
                } else if a == i && !forward_hit {
                    assert(before[a][k] < before[a][l]);
                } else if a == j && !bk {
                    assert(before[a][k] < before[a][l]);
                }
            }
            assert(!has_edge(after, i as int, i as int));
            assert(!has_edge(after, j as int, j as int));
            assert(draw_index(n, loc, wraparound, directed, i as int, j as int) == at);
            assert forall|a: int, b: int|
                #![trigger has_edge(after, a, b)]
                0 <= a < n && 0 <= b < n implies (has_edge(after, a, b) <==> visited(
                    i as int,
                    j + 1,
                    a,
                    b,
                ) && drawn_edge(hits@, n, loc, wraparound, directed, a, b)) by {
                assert(has_edge(before, a, b) <==> visited(i as int, j as int, a, b) && drawn_edge(
                    hits@,
                    n,
                    loc,
                    wraparound,
                    directed,
                    a,
                    b,
                ));
            }
        }
        assert(draws_for(directed, j + 1 - lo) <= draws_for(directed, hi - lo));
        assert(hits@.len() == hits.len());
        at = if directed { at + 2 } else { at + 1 };
        j = j + 1;
    }
    at
}

/// Moving past indices that are not candidates of node `i` keeps `partial`.
proof fn lemma_skip_non_candidates(
    adj: Seq<Seq<usize>>,
    hits: Seq<bool>,
    n: int,
    loc: int,
    wrap: bool,
    directed: bool,
    i: int,
    j1: int,
    j2: int,
)
    requires
        0 <= i,
        0 <= loc,
        j1 <= j2,
        partial(adj, hits, n, loc, wrap, directed, i, j1),
        forall|b: int| j1 <= b < j2 && b < n ==> !#[trigger] is_candidate(n, loc, wrap, i, b),
    ensures
        partial(adj, hits, n, loc, wrap, directed, i, j2),
{
    assert forall|a: int, b: int|
        #![trigger has_edge(adj, a, b)]
        0 <= a < n && 0 <= b < n implies (has_edge(adj, a, b) <==> visited(i, j2, a, b)
            && drawn_edge(hits, n, loc, wrap, directed, a, b)) by {
        if min_of(a, b) == i && j1 <= max_of(a, b) < j2 {
            assert(!is_candidate(n, loc, wrap, i, max_of(a, b)));
        }
    }
}

/// Once all of node `i`'s candidates are sampled, building moves to node `i + 1`.
proof fn lemma_next_node(
    adj: Seq<Seq<usize>>,
    hits: Seq<bool>,
    n: int,
    loc: int,
    wrap: bool,
    directed: bool,
    i: int,
)
    requires
        0 <= i,
        partial(adj, hits, n, loc, wrap, directed, i, n),
    ensures
        partial(adj, hits, n, loc, wrap, directed, i + 1, 0),
{
    assert forall|a: int, b: int|
        #![trigger has_edge(adj, a, b)]
        0 <= a < n && 0 <= b < n implies (has_edge(adj, a, b) <==> visited(i + 1, 0, a, b)
            && drawn_edge(hits, n, loc, wrap, directed, a, b)) by {
        assert(visited(i + 1, 0, a, b) == visited(i, n, a, b));
    }
}

/// Builds the graph on `size` nodes that the draws `hits` describe. Node `i`
/// may connect to the nodes within `locality` steps ahead of it and, with
/// `wraparound`, to those near the end of the index range that are within
/// `locality` steps of it around the circle. The candidate pairs are taken in
/// ascending order, each once, at its lower node; each takes the next draw,
/// and for a directed graph the draw after it decides the backward edge.
pub fn build_graph(
    size: usize,
    locality: usize,
    directed: bool,
    wraparound: bool,
    hits: &Vec<bool>,
) -> (graph: Vec<Vec<usize>>)
    requires
        hits@.len() == draw_count(size as int, locality as int, wraparound, directed),
    ensures
        graph.len() == size,
        is_simple(adjacency(graph@)),
        is_ascending(adjacency(graph@)),
        forall|a: int, b: int|
            #![trigger has_edge(adjacency(graph@), a, b)]
            0 <= a < size && 0 <= b < size ==> (has_edge(adjacency(graph@), a, b) <==> drawn_edge(
                hits@,
                size as int,
                locality as int,
                wraparound,
                directed,
                a,
                b,
            )),
{
    let ghost loc = locality as int;
    let ghost n = size as int;
    let mut graph: Vec<Vec<usize>> = Vec::new();
    let mut k: usize = 0;
    while k < size
        invariant
            k <= size,
            graph.len() == k,
            forall|a: int| 0 <= a < k ==> (#[trigger] graph@[a])@.len() == 0,
        decreases size - k,
    {
        graph.push(Vec::new());
        k = k + 1;
    }
    proof {
        let adj = adjacency(graph@);
        assert forall|a: int, b: int| #[trigger] has_edge(adj, a, b) implies false by {
            assert(adj[a].len() == 0);
        }
        assert forall|a: int| 0 <= a < adj.len() implies (#[trigger] adj[a]).no_duplicates() by {
            assert(adj[a].len() == 0);
        }
    }
    let mut d: usize = 0;
    let mut i: usize = 0;
    while i < size
        invariant
            i <= size,
            n == size as int,
            loc == locality as int,
            graph.len() == n,
            hits@.len() == draw_count(n, loc, wraparound, directed),
            d == draws_for(directed, pairs_before(n, loc, wraparound, i as int)),
            partial(adjacency(graph@), hits@, n, loc, wraparound, directed, i as int, 0),
        decreases size - i,
    {
        let ghost pb = pairs_before(n, loc, wraparound, i as int);
        proof {
            lemma_skip_non_candidates(
                adjacency(graph@),
                hits@,
                n,
                loc,
                wraparound,
                directed,
                i as int,
                0,
                i + 1,
            );
            lemma_pairs_before_monotone(n, loc, wraparound, i + 1, n);
            assert(pairs_before(n, loc, wraparound, i + 1) == pb + candidate_count(
                n,
                loc,
                wraparound,
                i as int,
            ));
        }
        let (lo, hi) = forward_window(size, locality, i);
        let (ws, we) = wrap_window(size, locality, wraparound, i);
        proof {
            assert forall|j: int| lo <= j < hi implies #[trigger] is_candidate(
                n,
                loc,
                wraparound,
                i as int,
                j,
            ) && draw_index(n, loc, wraparound, directed, i as int, j) == d + draws_for(
                directed,
                j - lo,
            ) by {
                assert(in_forward(n, loc, i as int, j));
                assert(candidate_position(n, loc, i as int, j) == j - lo);
            }
        }
        let d1 = visit_range(&mut graph, hits, locality, directed, wraparound, i, lo, hi, d);
        proof {
            lemma_skip_non_candidates(
                adjacency(graph@),
                hits@,
                n,
                loc,
                wraparound,
                directed,
                i as int,
                hi as int,
                ws as int,
            );
        }
        let mut d2 = d1;
        if ws < we {
            proof {
                assert forall|j: int| ws <= j < we implies #[trigger] is_candidate(
                    n,
                    loc,
                    wraparound,
                    i as int,
                    j,
                ) && draw_index(n, loc, wraparound, directed, i as int, j) == d1 + draws_for(
                    directed,
                    j - ws,
                ) by {
                    lemma_windows_disjoint(n, loc, wraparound, i as int, j);
                    assert(!in_forward(n, loc, i as int, j));
                    assert(candidate_position(n, loc, i as int, j) == (hi - lo) + (j - ws));
                }
            }
            d2 = visit_range(&mut graph, hits, locality, directed, wraparound, i, ws, we, d1);
        }
        proof {
            lemma_next_node(adjacency(graph@), hits@, n, loc, wraparound, directed, i as int);
        }
        d = d2;
        i = i + 1;
    }
    proof {
        let adj = adjacency(graph@);
        assert forall|a: int, b: int|
            #![trigger has_edge(adj, a, b)]
            0 <= a < n && 0 <= b < n implies (has_edge(adj, a, b) <==> drawn_edge(
                hits@,
                n,
                loc,
                wraparound,
                directed,
                a,
                b,
            )) by {
            assert(visited(n, 0, a, b));
        }
    }
    graph
}


/// The draws of a candidate pair lie within the draws that building consumes.
proof fn lemma_draw_in_range(n: int, loc: int, wrap: bool, directed: bool, i: int, j: int)
    requires
        0 <= loc,
        is_candidate(n, loc, wrap, i, j),
    ensures
        0 <= draw_index(n, loc, wrap, directed, i, j),
        draw_index(n, loc, wrap, directed, i, j) + (if directed { 1int } else { 0int }) < draw_count(
            n,
            loc,
            wrap,
            directed,
        ),
{
    lemma_position_in_range(n, loc, wrap, i, j);
    lemma_pairs_before_monotone(n, loc, wrap, 0, i);
    lemma_pairs_before_monotone(n, loc, wrap, i + 1, n);
    assert(pairs_before(n, loc, wrap, i + 1) == pairs_before(n, loc, wrap, i) + candidate_count(
        n,
        loc,
        wrap,
        i,
    ));
}

/// Generates a random graph on `size` nodes: one draw with probability
/// `connectedness` for each candidate pair (two, forward then backward, when
/// directed), taken in traversal order from `rng`, and the graph that
/// `build_graph` makes of them.
pub fn generate_graph(
    size: usize,
    connectedness: Probability,
    locality: usize,
    directed: bool,
    locality_wrapping: bool,
    rng: &mut rand::rngs::StdRng,
) -> (graph: Vec<Vec<usize>>)
    requires
        connectedness.wf(),
    ensures
        graph.len() == size,
        is_simple(adjacency(graph@)),
        is_ascending(adjacency(graph@)),
        edges_are_candidates(adjacency(graph@), locality as int, locality_wrapping),
        !directed ==> is_symmetric(adjacency(graph@)),
        connectedness.is_never() ==> is_edgeless(adjacency(graph@)),
        connectedness.is_always() ==> has_all_candidates(
            adjacency(graph@),
            locality as int,
            locality_wrapping,
        ),
{
    let ghost n = size as int;
    let ghost loc = locality as int;
    let mut hits: Vec<bool> = Vec::new();
    let mut i: usize = 0;
    while i < size
        invariant
            i <= size,
            n == size as int,
            loc == locality as int,
            connectedness.wf(),
            hits@.len() == draws_for(directed, pairs_before(n, loc, locality_wrapping, i as int)),
            connectedness.is_never() ==> forall|k: int| 0 <= k < hits@.len() ==> !#[trigger] hits@[k],
            connectedness.is_always() ==> forall|k: int| 0 <= k < hits@.len() ==> #[trigger] hits@[k],
        decreases size - i,
    {
        let c = node_candidates(size, locality, locality_wrapping, i);
        let ghost pb = pairs_before(n, loc, locality_wrapping, i as int);
        let mut t: usize = 0;
        while t < c
            invariant
                t <= c,
                connectedness.wf(),
                hits@.len() == draws_for(directed, pb + t),
                connectedness.is_never() ==> forall|k: int| 0 <= k < hits@.len() ==> !#[trigger] hits@[k],
                connectedness.is_always() ==> forall|k: int| 0 <= k < hits@.len() ==> #[trigger] hits@[k],
            decreases c - t,
        {
            let forward_hit = roll(rng, connectedness.numerator, connectedness.denominator);
            hits.push(forward_hit);
            if directed {
                let backward_hit = roll(rng, connectedness.numerator, connectedness.denominator);
                hits.push(backward_hit);
            }
            t = t + 1;
        }
        i = i + 1;
    }
    let graph = build_graph(size, locality, directed, locality_wrapping, &hits);
    proof {
        let adj = adjacency(graph@);
        let h = hits@;
        assert forall|a: int, b: int| #[trigger] has_edge(adj, a, b) implies is_candidate(
            n,
            loc,
            locality_wrapping,
            min_of(a, b),
            max_of(a, b),
        ) by {
            assert(drawn_edge(h, n, loc, locality_wrapping, directed, a, b));
        }
        if !directed {
            assert forall|a: int, b: int| #[trigger] has_edge(adj, a, b) implies has_edge(adj, b, a) by {
                assert(drawn_edge(h, n, loc, locality_wrapping, directed, a, b));
                assert(drawn_edge(h, n, loc, locality_wrapping, directed, b, a));
            }
        }
        if connectedness.is_never() {
            assert forall|a: int| 0 <= a < adj.len() implies (#[trigger] adj[a]).len() == 0 by {
                if adj[a].len() > 0 {
                    let b = adj[a][0] as int;
                    assert(adj[a].contains(b as usize));
                    assert(has_edge(adj, a, b));
                    if a < b {
                        lemma_draw_in_range(n, loc, locality_wrapping, directed, a, b);
                    } else if b < a {
                        lemma_draw_in_range(n, loc, locality_wrapping, directed, b, a);
                    }
                }
            }
        }
        if connectedness.is_always() {
            assert forall|a: int, b: int|
                #[trigger] is_candidate(n, loc, locality_wrapping, a, b) implies has_edge(adj, a, b)
                    && has_edge(adj, b, a) by {
                lemma_windows_disjoint(n, loc, locality_wrapping, a, b);
                lemma_draw_in_range(n, loc, locality_wrapping, directed, a, b);
                assert(drawn_edge(h, n, loc, locality_wrapping, directed, a, b));
                assert(drawn_edge(h, n, loc, locality_wrapping, directed, b, a));
            }
        }
    }
    graph
}


proof fn lemma_pairs_before_unrestricted(n: int, loc1: int, loc2: int, i: int)
    requires
        0 <= i <= n,
        loc1 >= n - 1,
        loc2 >= n - 1,
    ensures
        pairs_before(n, loc1, false, i) == pairs_before(n, loc2, false, i),
    decreases i,
{
    if i > 0 {
        lemma_pairs_before_unrestricted(n, loc1, loc2, i - 1);
    }
}

/// Without wraparound, every locality bound of at least `n - 1` is no
/// restriction: the same draws give the same edges.
pub proof fn lemma_unrestricted_locality_same_graph(
    hits: Seq<bool>,
    n: int,
    loc1: int,
    loc2: int,
    directed: bool,
    a: int,
    b: int,
)
    requires
        0 <= a < n,
        0 <= b < n,
        loc1 >= n - 1,
        loc2 >= n - 1,
    ensures
        drawn_edge(hits, n, loc1, false, directed, a, b) == drawn_edge(
            hits,
            n,
            loc2,
            false,
            directed,
            a,
            b,
        ),
{
    lemma_pairs_before_unrestricted(n, loc1, loc2, min_of(a, b));
}

} // verus!
