//! The metrics engine: degree distribution, average shortest-path length,
//! closeness centrality and the number of connected components.
//!
//! Every quotient is handed out as an exact pair of integers; turning it into
//! a floating-point number is left to the caller.

use crate::date::Date;
use crate::distance::{
    is_distance, is_distance_map, lemma_distance_map_unique, lemma_reaches_from_unattached,
    lemma_reaches_within_more, search,
};
use crate::store::{
    components_below, connected_components, degree, edges_within, graph_edges, graph_nodes,
    lemma_neighbor_list, neighbors, node_count, node_label, reaches, reaches_within, DayGraph,
    MAX_INDEX,
};
use std::collections::HashMap;
use vstd::prelude::*;
use vstd::std_specs::hash::group_hash_axioms;

verus! {

/// The number of nodes below `n` that have degree `d`.
pub open spec fn nodes_of_degree(edges: Seq<(usize, usize)>, n: nat, d: nat) -> nat
    decreases n,
{
    if n == 0 {
        0
    } else {
        nodes_of_degree(edges, (n - 1) as nat, d) + if degree(edges, (n - 1) as usize) == d {
            1nat
        } else {
            0nat
        }
    }
}

/// Whether `m` maps each degree that occurs among the nodes below `n` to the
/// number of nodes that have it, and no other degree.
pub open spec fn is_degree_distribution(
    edges: Seq<(usize, usize)>,
    n: nat,
    m: Map<usize, usize>,
) -> bool {
    forall|d: usize| #![trigger m.contains_key(d)]
        (m.contains_key(d) <==> nodes_of_degree(edges, n, d as nat) > 0) && (m.contains_key(d)
            ==> m[d] == nodes_of_degree(edges, n, d as nat))
}

/// No more than `n` nodes below `n` have degree `d`.
pub proof fn lemma_nodes_of_degree_bound(edges: Seq<(usize, usize)>, n: nat, d: nat)
    ensures
        nodes_of_degree(edges, n, d) <= n,
    decreases n,
{
    if n > 0 {
        lemma_nodes_of_degree_bound(edges, (n - 1) as nat, d);
    }
}

/// For each degree that occurs, the number of nodes that have it. A node
/// without edges counts under degree 0.
pub fn degree_distribution(graph: &DayGraph) -> (counts: HashMap<usize, usize>)
    ensures
        is_degree_distribution(graph_edges(*graph), graph_nodes(*graph).len(), counts@),
{
    broadcast use group_hash_axioms;

    let n = node_count(graph);
    let ghost edges = graph_edges(*graph);
    let mut counts: HashMap<usize, usize> = HashMap::new();
    let mut node: usize = 0;
    while node < n
        invariant
            node <= n,
            n == graph_nodes(*graph).len(),
            edges == graph_edges(*graph),
            is_degree_distribution(edges, node as nat, counts@),
        decreases n - node,
    {
        let around = neighbors(graph, node);
        let deg = around.len();
        let seen = match counts.get(&deg) {
            Some(c) => *c,
            None => 0,
        };
        proof {
            lemma_neighbor_list(edges, node, around@);
            lemma_nodes_of_degree_bound(edges, node as nat, deg as nat);
        }
        counts.insert(deg, seen + 1);
        node += 1;
    }
    counts
}

/// Two degree distributions of the same graph are the same map.
pub proof fn lemma_degree_distribution_unique(
    edges: Seq<(usize, usize)>,
    n: nat,
    first: Map<usize, usize>,
    second: Map<usize, usize>,
)
    requires
        is_degree_distribution(edges, n, first),
        is_degree_distribution(edges, n, second),
    ensures
        first == second,
{
    assert forall|d: usize| first.contains_key(d) <==> second.contains_key(d) by {
        assert(first.contains_key(d) <==> nodes_of_degree(edges, n, d as nat) > 0);
        assert(second.contains_key(d) <==> nodes_of_degree(edges, n, d as nat) > 0);
    }
    assert(first =~= second);
}

/// The sum of the degrees of the nodes below `n`.
pub open spec fn degree_sum(edges: Seq<(usize, usize)>, n: nat) -> nat
    decreases n,
{
    if n == 0 {
        0
    } else {
        degree_sum(edges, (n - 1) as nat) + degree(edges, (n - 1) as usize)
    }
}

/// One more edge between two different nodes adds one to the degree of each
/// of them that lies below `k`.
pub proof fn lemma_degree_sum_push(edges: Seq<(usize, usize)>, e: (usize, usize), k: nat)
    requires
        e.0 != e.1,
        k <= usize::MAX + 1,
    ensures
        degree_sum(edges.push(e), k) == degree_sum(edges, k) + if e.0 < k {
            1nat
        } else {
            0nat
        } + if e.1 < k {
            1nat
        } else {
            0nat
        },
    decreases k,
{
    if k > 0 {
        lemma_degree_sum_push(edges, e, (k - 1) as nat);
        assert(edges.push(e).drop_last() =~= edges);
    }
}

/// In a graph without loops, the degrees add up to twice the number of
/// edges.
pub proof fn lemma_degree_sum(edges: Seq<(usize, usize)>, n: nat)
    requires
        n <= usize::MAX + 1,
        edges_within(edges, n),
        forall|i: int| 0 <= i < edges.len() ==> (#[trigger] edges[i]).0 != edges[i].1,
    ensures
        degree_sum(edges, n) == 2 * edges.len(),
    decreases edges.len(),
{
    if edges.len() == 0 {
        assert(edges =~= Seq::<(usize, usize)>::empty());
        lemma_degree_sum_none(n);
    } else {
        let init = edges.drop_last();
        let e = edges.last();
        assert(edges_within(init, n)) by {
            assert forall|i: int| 0 <= i < init.len() implies (#[trigger] init[i]).0 < n
                && init[i].1 < n by {
                assert(init[i] == edges[i]);
            }
        }
        assert forall|i: int| 0 <= i < init.len() implies (#[trigger] init[i]).0 != init[i].1 by {
            assert(init[i] == edges[i]);
        }
        lemma_degree_sum(init, n);
        assert(edges[edges.len() - 1] == e);
        lemma_degree_sum_push(init, e, n);
        assert(init.push(e) =~= edges);
    }
}

/// Without edges every degree is 0.
pub proof fn lemma_degree_sum_none(n: nat)
    ensures
        degree_sum(Seq::<(usize, usize)>::empty(), n) == 0,
    decreases n,
{
    if n > 0 {
        lemma_degree_sum_none((n - 1) as nat);
    }
}

/// The least number of edges on a walk from `s` to `v`, where there is one.
pub open spec fn distance(edges: Seq<(usize, usize)>, s: usize, v: usize) -> nat {
    choose|d: nat| is_distance(edges, s, v, d)
}

/// The sum of the distances from `s` to the nodes below `n` that it reaches.
pub open spec fn distance_total(edges: Seq<(usize, usize)>, s: usize, n: nat) -> nat
    decreases n,
{
    if n == 0 {
        0
    } else {
        distance_total(edges, s, (n - 1) as nat) + if reaches(edges, s, (n - 1) as usize) {
            distance(edges, s, (n - 1) as usize)
        } else {
            0nat
        }
    }
}

/// The number of nodes below `n` that `s` reaches, itself included.
pub open spec fn reach_count(edges: Seq<(usize, usize)>, s: usize, n: nat) -> nat
    decreases n,
{
    if n == 0 {
        0
    } else {
        reach_count(edges, s, (n - 1) as nat) + if reaches(edges, s, (n - 1) as usize) {
            1nat
        } else {
            0nat
        }
    }
}

/// The sum, over the start nodes below `upto`, of the distances to the nodes
/// below `n` that each reaches.
pub open spec fn all_distance_total(edges: Seq<(usize, usize)>, n: nat, upto: nat) -> nat
    decreases upto,
{
    if upto == 0 {
        0
    } else {
        all_distance_total(edges, n, (upto - 1) as nat) + distance_total(
            edges,
            (upto - 1) as usize,
            n,
        )
    }
}

/// The number of ordered pairs (start, node), start below `upto` and node
/// below `n`, where the start reaches the node.
pub open spec fn all_reach_count(edges: Seq<(usize, usize)>, n: nat, upto: nat) -> nat
    decreases upto,
{
    if upto == 0 {
        0
    } else {
        all_reach_count(edges, n, (upto - 1) as nat) + reach_count(edges, (upto - 1) as usize, n)
    }
}

/// A distance map gives each node that it holds the distance.
pub proof fn lemma_distance_map_gives_distance(
    edges: Seq<(usize, usize)>,
    s: usize,
    m: Map<usize, usize>,
    v: usize,
)
    requires
        is_distance_map(edges, s, m),
        m.contains_key(v),
    ensures
        m[v] == distance(edges, s, v),
{
    let d = distance(edges, s, v);
    assert(is_distance(edges, s, v, m[v] as nat));
    if d < m[v] {
        lemma_reaches_within_more(edges, s, v, d, (m[v] - 1) as nat);
    }
    if m[v] < d {
        lemma_reaches_within_more(edges, s, v, m[v] as nat, (d - 1) as nat);
    }
}

/// The sum of what `m` gives for the listed nodes.
pub open spec fn listed_total(m: Map<usize, usize>, order: Seq<usize>) -> nat
    decreases order.len(),
{
    if order.len() == 0 {
        0
    } else {
        listed_total(m, order.drop_last()) + m[order.last()] as nat
    }
}

/// The sum of what `m` gives for the nodes below `n` that it holds.
pub open spec fn held_total(m: Map<usize, usize>, n: nat) -> nat
    decreases n,
{
    if n == 0 {
        0
    } else {
        held_total(m, (n - 1) as nat) + if m.contains_key((n - 1) as usize) {
            m[(n - 1) as usize] as nat
        } else {
            0nat
        }
    }
}

/// The number of nodes below `n` that `m` holds.
pub open spec fn held_count(m: Map<usize, usize>, n: nat) -> nat
    decreases n,
{
    if n == 0 {
        0
    } else {
        held_count(m, (n - 1) as nat) + if m.contains_key((n - 1) as usize) {
            1nat
        } else {
            0nat
        }
    }
}

/// Taking one node off a list takes what `m` gives for it off the sum.
pub proof fn lemma_listed_total_remove(m: Map<usize, usize>, order: Seq<usize>, i: int)
    requires
        0 <= i < order.len(),
    ensures
        listed_total(m, order) == listed_total(m, order.remove(i)) + m[order[i]],
    decreases order.len(),
{
    if i == order.len() - 1 {
        assert(order.remove(i) =~= order.drop_last());
    } else {
        lemma_listed_total_remove(m, order.drop_last(), i);
        assert(order.remove(i).drop_last() =~= order.drop_last().remove(i));
        assert(order.remove(i).last() == order.last());
    }
}

/// A list that names each node that `m` holds once, all of them below `n`,
/// sums to what the nodes below `n` sum to, and is as long as they are many.
pub proof fn lemma_listed_is_held(m: Map<usize, usize>, order: Seq<usize>, n: nat)
    requires
        n <= usize::MAX,
        order.no_duplicates(),
        forall|i: int| 0 <= i < order.len() ==> #[trigger] order[i] < n && m.contains_key(order[i]),
        forall|v: usize| v < n && m.contains_key(v) ==> #[trigger] order.contains(v),
    ensures
        listed_total(m, order) == held_total(m, n),
        order.len() == held_count(m, n),
    decreases n,
{
    if n == 0 {
        if order.len() > 0 {
            assert(order[0] < n);
        }
    } else {
        let w = (n - 1) as usize;
        if order.contains(w) {
            let i = choose|i: int| 0 <= i < order.len() && order[i] == w;
            let rest = order.remove(i);
            lemma_listed_total_remove(m, order, i);
            assert forall|j: int| 0 <= j < rest.len() implies #[trigger] rest[j] < n - 1
                && m.contains_key(rest[j]) by {
                if j < i {
                    assert(rest[j] == order[j]);
                } else {
                    assert(rest[j] == order[j + 1]);
                }
            }
            assert forall|v: usize| v < n - 1 && m.contains_key(v) implies #[trigger] rest.contains(
                v,
            ) by {
                assert(order.contains(v));
                let j = choose|j: int| 0 <= j < order.len() && order[j] == v;
                if j < i {
                    assert(rest[j] == v);
                } else {
                    assert(rest[j - 1] == v);
                }
            }
            assert(rest.no_duplicates()) by {
                assert forall|j: int, k: int|
                    0 <= j < rest.len() && 0 <= k < rest.len() && j != k implies rest[j]
                    != rest[k] by {
                    let oj = if j < i {
                        j
                    } else {
                        j + 1
                    };
                    let ok = if k < i {
                        k
                    } else {
                        k + 1
                    };
                    assert(rest[j] == order[oj] && rest[k] == order[ok]);
                }
            }
            lemma_listed_is_held(m, rest, (n - 1) as nat);
        } else {
            assert forall|j: int| 0 <= j < order.len() implies #[trigger] order[j] < n - 1
                && m.contains_key(order[j]) by {
                assert(order.contains(order[j]));
            }
            lemma_listed_is_held(m, order, (n - 1) as nat);
        }
    }
}

/// What a distance map holds below `n` are the distances, and as many as
/// nodes are reached.
pub proof fn lemma_held_is_distance(
    edges: Seq<(usize, usize)>,
    s: usize,
    m: Map<usize, usize>,
    n: nat,
)
    requires
        is_distance_map(edges, s, m),
    ensures
        held_total(m, n) == distance_total(edges, s, n),
        held_count(m, n) == reach_count(edges, s, n),
    decreases n,
{
    if n > 0 {
        lemma_held_is_distance(edges, s, m, (n - 1) as nat);
        let w = (n - 1) as usize;
        if m.contains_key(w) {
            lemma_distance_map_gives_distance(edges, s, m, w);
        }
    }
}

/// No more than `n` nodes below `n` are held.
pub proof fn lemma_held_count_bound(m: Map<usize, usize>, n: nat)
    ensures
        held_count(m, n) <= n,
    decreases n,
{
    if n > 0 {
        lemma_held_count_bound(m, (n - 1) as nat);
    }
}

/// From one start node: the sum of its distances to the nodes that it
/// reaches, and how many those are.
fn reach_totals(graph: &DayGraph, start: usize) -> (r: (u64, u64))
    requires
        start < graph_nodes(*graph).len(),
    ensures
        r.0 == distance_total(graph_edges(*graph), start, graph_nodes(*graph).len()),
        r.1 == reach_count(graph_edges(*graph), start, graph_nodes(*graph).len()),
        r.0 <= graph_nodes(*graph).len() * MAX_INDEX,
        1 <= r.1 <= graph_nodes(*graph).len(),
{
    broadcast use group_hash_axioms;

    let n = node_count(graph);
    let ghost edges = graph_edges(*graph);
    let (dist, order) = search(graph, start);
    proof {
        assert forall|i: int| 0 <= i < order@.len() implies #[trigger] order@[i] < n
            && dist@.contains_key(order@[i]) by {
            assert(order@.contains(order@[i]));
        }
        lemma_listed_is_held(dist@, order@, n as nat);
        lemma_held_is_distance(edges, start, dist@, n as nat);
        lemma_held_count_bound(dist@, n as nat);
        assert(reaches_within(edges, start, start, 0));
        assert(order@.contains(start));
        assert(order@.take(order@.len() as int) =~= order@);
    }
    let mut sum: u64 = 0;
    let mut i: usize = 0;
    while i < order.len()
        invariant
            i <= order@.len(),
            order@.len() <= n <= MAX_INDEX,
            start < n,
            forall|j: int|
                0 <= j < order@.len() ==> #[trigger] order@[j] < n && dist@.contains_key(order@[j]),
            forall|w: usize| #[trigger]
                dist@.contains_key(w) && w != start ==> w < n && dist@[w] < n,
            is_distance_map(edges, start, dist@),
            sum == listed_total(dist@, order@.take(i as int)),
            sum <= i * MAX_INDEX,
        decreases order@.len() - i,
    {
        let v = order[i];
        let d = *dist.get(&v).unwrap();
        proof {
            assert(order@.take(i + 1).drop_last() =~= order@.take(i as int));
            assert(order@.take(i + 1).last() == v);
            if v == start && dist@[start] > 0 {
                assert(reaches_within(edges, start, start, (dist@[start] - 1) as nat));
            }
        }
        sum = sum + d as u64;
        i += 1;
    }
    assert(sum <= n * MAX_INDEX) by (nonlinear_arith)
        requires
            sum <= i * MAX_INDEX,
            i <= n,
    ;
    (sum, order.len() as u64)
}

/// The average shortest-path length as an exact quotient: `total` over
/// `pairs`.
#[derive(Clone, Copy, Debug, PartialEq, Eq, Structural)]
pub struct PathAverage {
    /// The sum of the distances over all ordered pairs of nodes of which the
    /// first reaches the second, a node paired with itself included.
    pub total: u128,
    /// The number of those pairs; never 0.
    pub pairs: u64,
}

/// The average shortest-path length over the ordered pairs of nodes of which
/// the first reaches the second. A graph with fewer than two nodes has none.
pub fn avg_shortest_path(graph: &DayGraph) -> (r: Option<PathAverage>)
    ensures
        match r {
            None => graph_nodes(*graph).len() < 2,
            Some(avg) => {
                &&& graph_nodes(*graph).len() >= 2
                &&& avg.total == all_distance_total(
                    graph_edges(*graph),
                    graph_nodes(*graph).len(),
                    graph_nodes(*graph).len(),
                )
                &&& avg.pairs == all_reach_count(
                    graph_edges(*graph),
                    graph_nodes(*graph).len(),
                    graph_nodes(*graph).len(),
                )
                &&& avg.pairs >= graph_nodes(*graph).len()
            },
        },
{
    let n = node_count(graph);
    if n < 2 {
        return None;
    }
    let ghost edges = graph_edges(*graph);
    let mut total: u128 = 0;
    let mut pairs: u64 = 0;
    let mut start: usize = 0;
    while start < n
        invariant
            start <= n,
            n == graph_nodes(*graph).len(),
            n <= MAX_INDEX,
            edges == graph_edges(*graph),
            total == all_distance_total(edges, n as nat, start as nat),
            pairs == all_reach_count(edges, n as nat, start as nat),
            total <= start * 0xffff_fffe_0000_0001,
            start <= pairs <= start * MAX_INDEX,
        decreases n - start,
    {
        let (sum, count) = reach_totals(graph, start);
        assert(sum <= 0xffff_fffe_0000_0001) by (nonlinear_arith)
            requires
                sum <= n * 0xffff_ffff,
                n <= 0xffff_ffff,
        ;
        total = total + sum as u128;
        pairs = pairs + count;
        start += 1;
    }
    Some(PathAverage { total, pairs })
}

/// Without edges, every node is a component of its own.
pub proof fn lemma_components_without_edges(n: nat)
    requires
        n <= usize::MAX + 1,
    ensures
        components_below(Seq::<(usize, usize)>::empty(), n) == n,
    decreases n,
{
    if n > 0 {
        let none = Seq::<(usize, usize)>::empty();
        let v = (n - 1) as usize;
        lemma_components_without_edges((n - 1) as nat);
        assert forall|u: usize| u < v implies !reaches(none, u, v) by {
            if reaches(none, u, v) {
                let k = choose|k: nat| reaches_within(none, u, v, k);
                lemma_reaches_from_unattached(none, u, v, k);
            }
        }
    }
}

/// The number of connected components; a node without edges is one of its
/// own.
pub fn component_count(graph: &DayGraph) -> (r: usize)
    ensures
        r == components_below(graph_edges(*graph), graph_nodes(*graph).len()),
{
    connected_components(graph)
}

/// A closeness score as an exact quotient: `numerator` over `denominator`.
#[derive(Clone, Copy, Debug, PartialEq, Eq, Structural)]
pub struct Score {
    pub numerator: u64,
    /// Never 0.
    pub denominator: u64,
}

impl Score {
    /// Whether this quotient is greater than the other, for denominators
    /// above 0.
    pub open spec fn exceeds(self, other: Score) -> bool {
        self.numerator * other.denominator > other.numerator * self.denominator
    }
}

/// The closeness of the node `v` among `n` nodes: `n - 1` over the sum of its
/// distances to the nodes that it reaches; 0 where that sum is 0.
pub open spec fn closeness(edges: Seq<(usize, usize)>, n: nat, v: usize) -> Score {
    let sum = distance_total(edges, v, n);
    if sum > 0 {
        Score { numerator: (n - 1) as u64, denominator: sum as u64 }
    } else {
        Score { numerator: 0, denominator: 1 }
    }
}

/// Whether the node `a` stands before the node `b` in the ranking: by the
/// greater closeness, and among equals by the smaller index.
pub open spec fn ranks_before(edges: Seq<(usize, usize)>, n: nat, a: usize, b: usize) -> bool {
    closeness(edges, n, a).exceeds(closeness(edges, n, b)) || (!closeness(edges, n, b).exceeds(
        closeness(edges, n, a),
    ) && a < b)
}

/// Whether `order` lists the first `top` nodes of the ranking, or all `n`
/// where there are fewer.
pub open spec fn is_ranking(edges: Seq<(usize, usize)>, n: nat, top: nat, order: Seq<usize>) -> bool {
    &&& order.len() == if top < n {
        top
    } else {
        n
    }
    &&& forall|i: int| 0 <= i < order.len() ==> #[trigger] order[i] < n
    &&& forall|i: int, j: int|
        0 <= i < j < order.len() ==> ranks_before(edges, n, #[trigger] order[i], #[trigger] order[j])
    &&& forall|i: int, v: usize|
        0 <= i < order.len() && v < n && !order.contains(v) ==> #[trigger] ranks_before(
            edges,
            n,
            order[i],
            v,
        )
}

/// The first `top` nodes of the ranking.
pub open spec fn ranking(edges: Seq<(usize, usize)>, n: nat, top: nat) -> Seq<usize> {
    choose|order: Seq<usize>| is_ranking(edges, n, top, order)
}

/// Two rankings agree on their first `k` places.
pub proof fn lemma_ranking_agrees(
    edges: Seq<(usize, usize)>,
    n: nat,
    top: nat,
    first: Seq<usize>,
    second: Seq<usize>,
    k: int,
)
    requires
        is_ranking(edges, n, top, first),
        is_ranking(edges, n, top, second),
        0 <= k <= first.len(),
    ensures
        forall|i: int| 0 <= i < k ==> first[i] == second[i],
    decreases k,
{
    if k > 0 {
        lemma_ranking_agrees(edges, n, top, first, second, k - 1);
        let i = k - 1;
        let a = first[i];
        let b = second[i];
        if a != b {
            if second.contains(a) {
                let j = choose|j: int| 0 <= j < second.len() && second[j] == a;
                if j < i {
                    assert(ranks_before(edges, n, first[j], first[i]));
                }
                assert(ranks_before(edges, n, second[i], second[j]));
            }
            assert(ranks_before(edges, n, b, a));
            if first.contains(b) {
                let j = choose|j: int| 0 <= j < first.len() && first[j] == b;
                if j < i {
                    assert(ranks_before(edges, n, second[j], second[i]));
                }
                assert(ranks_before(edges, n, first[i], first[j]));
            }
            assert(ranks_before(edges, n, a, b));
        }
    }
}

/// There is one ranking: whatever lists the first `top` nodes is `ranking`.
pub proof fn lemma_ranking_unique(
    edges: Seq<(usize, usize)>,
    n: nat,
    top: nat,
    order: Seq<usize>,
)
    requires
        is_ranking(edges, n, top, order),
    ensures
        order == ranking(edges, n, top),
{
    let other = ranking(edges, n, top);
    lemma_ranking_agrees(edges, n, top, order, other, order.len() as int);
    assert(order =~= other);
}

/// Whether a node whose distances sum to `sa` is closer than one whose
/// distances sum to `sb`.
pub open spec fn sum_exceeds(sa: nat, sb: nat) -> bool {
    sa > 0 && (sb == 0 || sa < sb)
}

/// Whether (sum, node) stands before another in the ranking.
pub open spec fn key_before(sa: nat, a: usize, sb: nat, b: usize) -> bool {
    sum_exceeds(sa, sb) || (!sum_exceeds(sb, sa) && a < b)
}

/// A node is at distance 0 from itself.
pub proof fn lemma_distance_to_self(edges: Seq<(usize, usize)>, s: usize)
    ensures
        reaches(edges, s, s),
        distance(edges, s, s) == 0,
{
    assert(reaches_within(edges, s, s, 0));
    assert(is_distance(edges, s, s, 0));
    let d = distance(edges, s, s);
    if d > 0 {
        assert(reaches_within(edges, s, s, (d - 1) as nat));
    }
}

/// Closeness orders the nodes as their distance sums do: a smaller sum above
/// 0 is closer, and a sum of 0 is the farthest.
pub proof fn lemma_closeness_order(edges: Seq<(usize, usize)>, n: nat, a: usize, b: usize)
    requires
        n <= MAX_INDEX,
        a < n,
        b < n,
        distance_total(edges, a, n) <= u64::MAX,
        distance_total(edges, b, n) <= u64::MAX,
    ensures
        closeness(edges, n, a).exceeds(closeness(edges, n, b)) == sum_exceeds(
            distance_total(edges, a, n),
            distance_total(edges, b, n),
        ),
{
    let sa = distance_total(edges, a, n);
    let sb = distance_total(edges, b, n);
    let ca = closeness(edges, n, a);
    let cb = closeness(edges, n, b);
    let r = (n - 1) as int;
    if n == 1 {
        lemma_distance_to_self(edges, 0);
        assert(distance_total(edges, 0, 0) == 0);
        assert(sa == 0 && sb == 0);
    } else if sa > 0 && sb > 0 {
        assert(ca.numerator == r && cb.numerator == r);
        assert(ca.denominator == sa && cb.denominator == sb);
        assert((r * sb > r * sa) == (sa < sb)) by (nonlinear_arith)
            requires
                r > 0,
        ;
    } else if sa > 0 {
        assert(ca.numerator == r && ca.denominator == sa);
        assert(cb.numerator == 0 && cb.denominator == 1);
        assert(0 * sa == 0);
        assert(r * 1 == r);
    } else if sb > 0 {
        assert(cb.numerator == r && cb.denominator == sb);
        assert(ca.numerator == 0 && ca.denominator == 1);
        assert(0 * sb == 0);
        assert(r * 1 == r);
    }
}

/// A node of degree 0 is an end of no edge.
pub proof fn lemma_degree_none(edges: Seq<(usize, usize)>, v: usize)
    requires
        degree(edges, v) == 0,
    ensures
        forall|i: int| 0 <= i < edges.len() ==> (#[trigger] edges[i]).0 != v && edges[i].1 != v,
    decreases edges.len(),
{
    if edges.len() > 0 {
        let init = edges.drop_last();
        lemma_degree_none(init, v);
        assert forall|i: int| 0 <= i < edges.len() implies (#[trigger] edges[i]).0 != v
            && edges[i].1 != v by {
            if i < init.len() {
                assert(init[i] == edges[i]);
            }
        }
    }
}

/// A node that is an end of no edge is at distance 0 from all that it
/// reaches.
pub proof fn lemma_distance_total_alone(edges: Seq<(usize, usize)>, v: usize, n: nat)
    requires
        forall|i: int| 0 <= i < edges.len() ==> (#[trigger] edges[i]).0 != v && edges[i].1 != v,
    ensures
        distance_total(edges, v, n) == 0,
    decreases n,
{
    if n > 0 {
        lemma_distance_total_alone(edges, v, (n - 1) as nat);
        let w = (n - 1) as usize;
        if reaches(edges, v, w) {
            let k = choose|k: nat| reaches_within(edges, v, w, k);
            lemma_reaches_from_unattached(edges, v, w, k);
            lemma_distance_to_self(edges, v);
        }
    }
}

/// A node without edges has closeness 0, whatever the rest of the graph.
pub proof fn lemma_isolated_closeness(edges: Seq<(usize, usize)>, n: nat, v: usize)
    requires
        degree(edges, v) == 0,
    ensures
        closeness(edges, n, v).numerator == 0,
        closeness(edges, n, v).denominator == 1,
{
    lemma_degree_none(edges, v);
    lemma_distance_total_alone(edges, v, n);
}

/// Asking twice gives the same answers. The degree distribution, the
/// distances from a node and the closeness ranking of a graph are each fixed
/// by the graph: two results that fit the description are equal. (The
/// average path length, the scores and the number of components are stated
/// as functions of the graph outright.)
pub proof fn lemma_metrics_repeat(
    edges: Seq<(usize, usize)>,
    n: nat,
    start: usize,
    top: nat,
    degrees: (Map<usize, usize>, Map<usize, usize>),
    distances: (Map<usize, usize>, Map<usize, usize>),
    rankings: (Seq<usize>, Seq<usize>),
)
    requires
        is_degree_distribution(edges, n, degrees.0),
        is_degree_distribution(edges, n, degrees.1),
        is_distance_map(edges, start, distances.0),
        is_distance_map(edges, start, distances.1),
        is_ranking(edges, n, top, rankings.0),
        is_ranking(edges, n, top, rankings.1),
    ensures
        degrees.0 == degrees.1,
        distances.0 == distances.1,
        rankings.0 == rankings.1,
{
    lemma_degree_distribution_unique(edges, n, degrees.0, degrees.1);
    lemma_distance_map_unique(edges, start, distances.0, distances.1);
    lemma_ranking_unique(edges, n, top, rankings.0);
    lemma_ranking_unique(edges, n, top, rankings.1);
}

/// The sum of every node's distances.
fn distance_sums(graph: &DayGraph) -> (sums: Vec<u64>)
    ensures
        sums@.len() == graph_nodes(*graph).len(),
        forall|v: int|
            0 <= v < sums@.len() ==> #[trigger] sums@[v] == distance_total(
                graph_edges(*graph),
                v as usize,
                graph_nodes(*graph).len(),
            ),
{
    let n = node_count(graph);
    let mut sums: Vec<u64> = Vec::new();
    let mut v: usize = 0;
    while v < n
        invariant
            v <= n,
            n == graph_nodes(*graph).len(),
            sums@.len() == v,
            forall|u: int|
                0 <= u < v ==> #[trigger] sums@[u] == distance_total(
                    graph_edges(*graph),
                    u as usize,
                    n as nat,
                ),
        decreases n - v,
    {
        let (sum, _) = reach_totals(graph, v);
        sums.push(sum);
        v += 1;
    }
    sums
}

/// Whether `order` lists the nodes below `upto`, each once, by `key_before`.
pub open spec fn is_sorted_by_sum(sums: Seq<u64>, order: Seq<usize>, upto: nat) -> bool {
    &&& order.len() == upto
    &&& forall|i: int| 0 <= i < order.len() ==> #[trigger] order[i] < upto
    &&& forall|u: usize| u < upto ==> #[trigger] order.contains(u)
    &&& forall|i: int, j: int|
        0 <= i < j < order.len() ==> key_before(
            sums[#[trigger] order[i] as int] as nat,
            order[i],
            sums[#[trigger] order[j] as int] as nat,
            order[j],
        )
}

/// Sorts the nodes by their distance sums: smaller sums above 0 first, then
/// the sums of 0, and equal sums by index.
fn sort_by_sum(sums: &Vec<u64>) -> (order: Vec<usize>)
    ensures
        is_sorted_by_sum(sums@, order@, sums@.len()),
{
    let n = sums.len();
    let mut order: Vec<usize> = Vec::new();
    let mut v: usize = 0;
    while v < n
        invariant
            v <= n,
            n == sums@.len(),
            is_sorted_by_sum(sums@, order@, v as nat),
        decreases n - v,
    {
        let own = sums[v];
        let mut p: usize = order.len();
        while p > 0 && own > 0 && (sums[order[p - 1]] == 0 || own < sums[order[p - 1]])
            invariant
                p <= order@.len(),
                v < n,
                n == sums@.len(),
                own == sums@[v as int],
                is_sorted_by_sum(sums@, order@, v as nat),
                forall|j: int|
                    p <= j < order@.len() ==> sum_exceeds(
                        own as nat,
                        sums@[#[trigger] order@[j] as int] as nat,
                    ),
            decreases p,
        {
            p -= 1;
        }
        let ghost before = order@;
        order.insert(p, v);
        proof {
            let after = order@;
            assert forall|i: int| 0 <= i < after.len() implies #[trigger] after[i] < v + 1 by {
                if i < p {
                    assert(after[i] == before[i]);
                } else if i > p {
                    assert(after[i] == before[i - 1]);
                }
            }
            assert forall|u: usize| u < v + 1 implies #[trigger] after.contains(u) by {
                if u < v {
                    assert(before.contains(u));
                    let i = choose|i: int| 0 <= i < before.len() && before[i] == u;
                    if i < p {
                        assert(after[i] == u);
                    } else {
                        assert(after[i + 1] == u);
                    }
                } else {
                    assert(after[p as int] == u);
                }
            }
            assert forall|i: int, j: int| 0 <= i < j < after.len() implies key_before(
                sums@[#[trigger] after[i] as int] as nat,
                after[i],
                sums@[#[trigger] after[j] as int] as nat,
                after[j],
            ) by {
                let bi = if i < p {
                    i
                } else {
                    i - 1
                };
                let bj = if j < p {
                    j
                } else {
                    j - 1
                };
                if i != p {
                    assert(after[i] == before[bi]);
                }
                if j != p {
                    assert(after[j] == before[bj]);
                }
                if j == p {
                    if i < p - 1 {
                        assert(key_before(
                            sums@[before[i] as int] as nat,
                            before[i],
                            sums@[before[p - 1] as int] as nat,
                            before[p - 1],
                        ));
                    }
                }
            }
        }
        v += 1;
    }
    order
}

/// The nodes of a list of scored nodes.
pub open spec fn scored_nodes(scored: Seq<(usize, Score)>) -> Seq<usize> {
    Seq::new(scored.len(), |i: int| scored[i].0)
}

/// The `top` nodes of greatest closeness, greatest first and equal scores by
/// node index, each with its score. Where the graph has fewer than `top`
/// nodes, all of them.
pub fn closeness_ranking(graph: &DayGraph, top: usize) -> (r: Vec<(usize, Score)>)
    ensures
        is_ranking(
            graph_edges(*graph),
            graph_nodes(*graph).len(),
            top as nat,
            scored_nodes(r@),
        ),
        scored_nodes(r@) == ranking(graph_edges(*graph), graph_nodes(*graph).len(), top as nat),
        forall|i: int|
            0 <= i < r@.len() ==> (#[trigger] r@[i]).1 == closeness(
                graph_edges(*graph),
                graph_nodes(*graph).len(),
                r@[i].0,
            ),
{
    let n = node_count(graph);
    let ghost edges = graph_edges(*graph);
    let sums = distance_sums(graph);
    let mut order = sort_by_sum(&sums);
    let ghost full = order@;
    if top < n {
        order.truncate(top);
    }
    let mut r: Vec<(usize, Score)> = Vec::new();
    let mut i: usize = 0;
    while i < order.len()
        invariant
            i <= order@.len(),
            n == sums@.len(),
            n <= MAX_INDEX,
            edges == graph_edges(*graph),
            n == graph_nodes(*graph).len(),
            forall|j: int| 0 <= j < order@.len() ==> #[trigger] order@[j] < n,
            forall|v: int|
                0 <= v < sums@.len() ==> #[trigger] sums@[v] == distance_total(
                    edges,
                    v as usize,
                    n as nat,
                ),
            r@.len() == i,
            forall|j: int|
                0 <= j < i ==> (#[trigger] r@[j]).0 == order@[j] && r@[j].1 == closeness(
                    edges,
                    n as nat,
                    order@[j],
                ),
        decreases order@.len() - i,
    {
        let v = order[i];
        let sum = sums[v];
        let score = if sum > 0 {
            Score { numerator: (n - 1) as u64, denominator: sum }
        } else {
            Score { numerator: 0, denominator: 1 }
        };
        r.push((v, score));
        i += 1;
    }
    proof {
        let picked = scored_nodes(r@);
        assert(picked =~= order@);
        assert forall|a: usize, b: usize| a < n && b < n implies (#[trigger] ranks_before(
            edges,
            n as nat,
            a,
            b,
        ) == key_before(sums@[a as int] as nat, a, sums@[b as int] as nat, b)) by {
            assert(sums@[a as int] == distance_total(edges, a, n as nat));
            assert(sums@[b as int] == distance_total(edges, b, n as nat));
            lemma_closeness_order(edges, n as nat, a, b);
            lemma_closeness_order(edges, n as nat, b, a);
        }
        assert forall|j: int, k: int| 0 <= j < k < picked.len() implies ranks_before(
            edges,
            n as nat,
            #[trigger] picked[j],
            #[trigger] picked[k],
        ) by {
            assert(picked[j] == full[j] && picked[k] == full[k]);
        }
        assert forall|j: int, v: usize|
            0 <= j < picked.len() && v < n && !picked.contains(v) implies #[trigger] ranks_before(
            edges,
            n as nat,
            picked[j],
            v,
        ) by {
            assert(full.contains(v));
            let k = choose|k: int| 0 <= k < full.len() && full[k] == v;
            if k < picked.len() {
                assert(picked[k] == v);
            }
            assert(picked[j] == full[j]);
        }
        lemma_ranking_unique(edges, n as nat, top as nat, picked);
    }
    r
}

/// The `top` nodes of greatest closeness, greatest first and equal scores in
/// the order of the nodes, each as its label, the date written as text, with
/// its score. Where the graph has fewer than `top` nodes, all of them.
pub fn closeness_centrality(graph: &DayGraph, top: usize) -> (r: Vec<((String, String), Score)>)
    ensures
        is_ranking(
            graph_edges(*graph),
            graph_nodes(*graph).len(),
            top as nat,
            ranking(graph_edges(*graph), graph_nodes(*graph).len(), top as nat),
        ),
        r@.len() == ranking(graph_edges(*graph), graph_nodes(*graph).len(), top as nat).len(),
        forall|i: int|
            0 <= i < r@.len() ==> is_scored_label(
                #[trigger] r@[i],
                graph_nodes(*graph),
                graph_edges(*graph),
                ranking(graph_edges(*graph), graph_nodes(*graph).len(), top as nat)[i],
            ),
{
    let ranked = closeness_ranking(graph, top);
    let ghost order = scored_nodes(ranked@);
    let mut r: Vec<((String, String), Score)> = Vec::new();
    let mut i: usize = 0;
    while i < ranked.len()
        invariant
            i <= ranked@.len(),
            order == scored_nodes(ranked@),
            is_ranking(graph_edges(*graph), graph_nodes(*graph).len(), top as nat, order),
            forall|j: int|
                0 <= j < ranked@.len() ==> (#[trigger] ranked@[j]).1 == closeness(
                    graph_edges(*graph),
                    graph_nodes(*graph).len(),
                    ranked@[j].0,
                ),
            r@.len() == i,
            forall|j: int|
                0 <= j < i ==> is_scored_label(
                    #[trigger] r@[j],
                    graph_nodes(*graph),
                    graph_edges(*graph),
                    order[j],
                ),
        decreases ranked@.len() - i,
    {
        let v = ranked[i].0;
        let score = ranked[i].1;
        assert(order[i as int] == v);
        let label = node_label(graph, v);
        r.push(((label.0.to_string(), label.1.clone()), score));
        i += 1;
    }
    r
}

/// Whether `entry` is the label of the node `v`, its date written as text,
/// with the closeness of `v`.
pub open spec fn is_scored_label(
    entry: ((String, String), Score),
    nodes: Seq<(Date, Seq<char>)>,
    edges: Seq<(usize, usize)>,
    v: usize,
) -> bool {
    &&& entry.0.0@ == nodes[v as int].0.text()
    &&& entry.0.1@ == nodes[v as int].1
    &&& entry.1 == closeness(edges, nodes.len(), v)
}

} // verus!
