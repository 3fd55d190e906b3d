//! The distance engine: breadth-first search from one node.

use crate::store::{
    adjacent, edges_within, graph_edges, graph_nodes, joins, lemma_adjacent_symmetric,
    lemma_neighbor_list, neighbors, node_count, reaches, reaches_within, DayGraph,
};
use std::collections::HashMap;
use std::collections::VecDeque;
use vstd::prelude::*;
use vstd::std_specs::hash::group_hash_axioms;

verus! {

/// Whether `d` is the least number of edges on a walk from `s` to `v`.
pub open spec fn is_distance(edges: Seq<(usize, usize)>, s: usize, v: usize, d: nat) -> bool {
    reaches_within(edges, s, v, d) && (d > 0 ==> !reaches_within(edges, s, v, (d - 1) as nat))
}

/// Whether `m` maps exactly the nodes that `s` reaches, each to its distance
/// from `s`.
pub open spec fn is_distance_map(edges: Seq<(usize, usize)>, s: usize, m: Map<usize, usize>) -> bool {
    &&& forall|v: usize| #[trigger] m.contains_key(v) <==> reaches(edges, s, v)
    &&& forall|v: usize| #[trigger] m.contains_key(v) ==> is_distance(edges, s, v, m[v] as nat)
}

/// The number of nodes below `n` that `m` does not map.
pub open spec fn unmapped(m: Map<usize, usize>, n: nat) -> nat
    decreases n,
{
    if n == 0 {
        0
    } else {
        unmapped(m, (n - 1) as nat) + if m.contains_key((n - 1) as usize) {
            0nat
        } else {
            1nat
        }
    }
}

/// A walk that fits in `k` edges fits in any larger number.
pub proof fn lemma_reaches_within_more(
    edges: Seq<(usize, usize)>,
    s: usize,
    v: usize,
    k: nat,
    more: nat,
)
    requires
        reaches_within(edges, s, v, k),
        k <= more,
    ensures
        reaches_within(edges, s, v, more),
    decreases k,
{
    if v != s {
        let u = choose|u: usize|
            reaches_within(edges, s, u, (k - 1) as nat) && #[trigger] adjacent(edges, u, v);
        lemma_reaches_within_more(edges, s, u, (k - 1) as nat, (more - 1) as nat);
    }
}

/// A walk goes on over one more edge.
pub proof fn lemma_reaches_within_step(
    edges: Seq<(usize, usize)>,
    s: usize,
    u: usize,
    v: usize,
    k: nat,
)
    requires
        reaches_within(edges, s, u, k),
        adjacent(edges, u, v),
    ensures
        reaches_within(edges, s, v, k + 1),
{
    assert(reaches_within(edges, s, u, ((k + 1) - 1) as nat));
}

/// A node at which no edge ends reaches only itself.
pub proof fn lemma_reaches_from_unattached(edges: Seq<(usize, usize)>, s: usize, v: usize, k: nat)
    requires
        forall|i: int| 0 <= i < edges.len() ==> (#[trigger] edges[i]).0 != s && edges[i].1 != s,
        reaches_within(edges, s, v, k),
    ensures
        v == s,
    decreases k,
{
    if v != s {
        let u = choose|u: usize|
            reaches_within(edges, s, u, (k - 1) as nat) && #[trigger] adjacent(edges, u, v);
        lemma_reaches_from_unattached(edges, s, u, (k - 1) as nat);
        let i = choose|i: int| 0 <= i < edges.len() && joins(#[trigger] edges[i], u, v);
        assert(edges[i].0 == s || edges[i].1 == s);
    }
}

/// Whether `m` holds `s` at 0, holds every neighbor of a node it holds, and
/// gives neighbors values that differ by at most one.
pub open spec fn is_settled(edges: Seq<(usize, usize)>, s: usize, m: Map<usize, usize>) -> bool {
    &&& m.contains_key(s) && m[s] == 0
    &&& forall|u: usize, w: usize|
        m.contains_key(u) && #[trigger] adjacent(edges, u, w) ==> m.contains_key(w) && m[w] <= m[u]
            + 1
}

/// A settled map holds every node within `k` edges of `s`, at a value of at
/// most `k`.
pub proof fn lemma_settled_covers(
    edges: Seq<(usize, usize)>,
    s: usize,
    m: Map<usize, usize>,
    v: usize,
    k: nat,
)
    requires
        is_settled(edges, s, m),
        reaches_within(edges, s, v, k),
    ensures
        m.contains_key(v),
        m[v] <= k,
    decreases k,
{
    if v != s {
        let u = choose|u: usize|
            reaches_within(edges, s, u, (k - 1) as nat) && #[trigger] adjacent(edges, u, v);
        lemma_settled_covers(edges, s, m, u, (k - 1) as nat);
    }
}

/// A settled map whose values are lengths of walks is the distance map.
pub proof fn lemma_settled_is_distance_map(
    edges: Seq<(usize, usize)>,
    s: usize,
    m: Map<usize, usize>,
)
    requires
        is_settled(edges, s, m),
        forall|v: usize| #[trigger] m.contains_key(v) ==> reaches_within(edges, s, v, m[v] as nat),
    ensures
        is_distance_map(edges, s, m),
{
    assert forall|v: usize| #[trigger] m.contains_key(v) <==> reaches(edges, s, v) by {
        if reaches(edges, s, v) {
            let k = choose|k: nat| reaches_within(edges, s, v, k);
            lemma_settled_covers(edges, s, m, v, k);
        }
    }
    assert forall|v: usize| #[trigger] m.contains_key(v) implies is_distance(
        edges,
        s,
        v,
        m[v] as nat,
    ) by {
        if m[v] > 0 && reaches_within(edges, s, v, (m[v] - 1) as nat) {
            lemma_settled_covers(edges, s, m, v, (m[v] - 1) as nat);
        }
    }
}

/// Two distance maps from the same node over the same edges are the same map.
pub proof fn lemma_distance_map_unique(
    edges: Seq<(usize, usize)>,
    s: usize,
    m1: Map<usize, usize>,
    m2: Map<usize, usize>,
)
    requires
        is_distance_map(edges, s, m1),
        is_distance_map(edges, s, m2),
    ensures
        m1 == m2,
{
    assert forall|v: usize| m1.contains_key(v) implies m1[v] == m2[v] by {
        assert(m2.contains_key(v));
        if m1[v] < m2[v] {
            lemma_reaches_within_more(edges, s, v, m1[v] as nat, (m2[v] - 1) as nat);
        }
        if m2[v] < m1[v] {
            lemma_reaches_within_more(edges, s, v, m2[v] as nat, (m1[v] - 1) as nat);
        }
    }
    assert(m1 =~= m2);
}

/// At most `n` nodes below `n` are unmapped.
pub proof fn lemma_unmapped_bound(m: Map<usize, usize>, n: nat)
    ensures
        unmapped(m, n) <= n,
    decreases n,
{
    if n > 0 {
        lemma_unmapped_bound(m, (n - 1) as nat);
    }
}

/// Mapping one more node below `n` leaves one node fewer unmapped.
pub proof fn lemma_unmapped_insert(m: Map<usize, usize>, n: nat, v: usize, d: usize)
    requires
        n <= usize::MAX,
        !m.contains_key(v),
    ensures
        v < n ==> unmapped(m.insert(v, d), n) + 1 == unmapped(m, n),
        v >= n ==> unmapped(m.insert(v, d), n) == unmapped(m, n),
    decreases n,
{
    if n > 0 {
        lemma_unmapped_insert(m, (n - 1) as nat, v, d);
    }
}

/// The least number of edges from `start` to every node that it reaches;
/// nodes that it does not reach are left out. A `start` that is no node of
/// the graph reaches itself alone.
pub fn bfs_distances(graph: &DayGraph, start: usize) -> (dist: HashMap<usize, usize>)
    ensures
        is_distance_map(graph_edges(*graph), start, dist@),
        forall|v: usize| #[trigger]
            dist@.contains_key(v) && v != start ==> v < graph_nodes(*graph).len() && dist@[v]
                < graph_nodes(*graph).len(),
{
    search(graph, start).0
}

/// Breadth-first search from `start`: the distance map, and the nodes it
/// holds in the order in which the search came to them.
pub(crate) fn search(graph: &DayGraph, start: usize) -> (r: (HashMap<usize, usize>, Vec<usize>))
    ensures
        is_distance_map(graph_edges(*graph), start, r.0@),
        forall|v: usize| #[trigger]
            r.0@.contains_key(v) && v != start ==> v < graph_nodes(*graph).len() && r.0@[v]
                < graph_nodes(*graph).len(),
        r.1@.no_duplicates(),
        forall|v: usize| r.0@.contains_key(v) <==> r.1@.contains(v),
{
    broadcast use group_hash_axioms;

    let n = node_count(graph);
    let ghost edges = graph_edges(*graph);
    let mut dist: HashMap<usize, usize> = HashMap::new();
    let mut order: Vec<usize> = Vec::new();
    dist.insert(start, 0);
    order.push(start);
    proof {
        assert(order@[0] == start);
    }
    if start >= n {
        proof {
            assert(reaches_within(edges, start, start, 0));
            assert forall|v: usize| #[trigger] dist@.contains_key(v) <==> reaches(
                edges,
                start,
                v,
            ) by {
                if reaches(edges, start, v) {
                    let k = choose|k: nat| reaches_within(edges, start, v, k);
                    lemma_reaches_from_unattached(edges, start, v, k);
                }
            }
        }
        return (dist, order);
    }
    let mut queue: VecDeque<usize> = VecDeque::new();
    queue.push_back(start);
    proof {
        lemma_unmapped_insert(Map::<usize, usize>::empty(), n as nat, start, 0);
        lemma_unmapped_bound(Map::<usize, usize>::empty(), n as nat);
        assert(queue@[0] == start);
    }
    while queue.len() > 0
        invariant
            n == graph_nodes(*graph).len(),
            edges == graph_edges(*graph),
            edges_within(edges, n as nat),
            start < n,
            order@.no_duplicates(),
            forall|v: usize| dist@.contains_key(v) <==> order@.contains(v),
            dist@.contains_key(start),
            dist@[start] == 0,
            forall|v: usize| #[trigger]
                dist@.contains_key(v) ==> v < n && dist@[v] + unmapped(dist@, n as nat) < n
                    && reaches_within(edges, start, v, dist@[v] as nat),
            forall|i: int| 0 <= i < queue@.len() ==> dist@.contains_key(#[trigger] queue@[i]),
            forall|i: int, j: int|
                0 <= i <= j < queue@.len() ==> dist@[queue@[i]] <= dist@[queue@[j]],
            forall|v: usize|
                queue@.len() > 0 && #[trigger] dist@.contains_key(v) ==> dist@[v] <= dist@[queue@[0]]
                    + 1,
            forall|u: usize, w: usize|
                dist@.contains_key(u) && !queue@.contains(u) && #[trigger] adjacent(edges, u, w)
                    ==> dist@.contains_key(w),
            forall|u: usize, w: usize|
                dist@.contains_key(u) && dist@.contains_key(w) && #[trigger] adjacent(edges, u, w)
                    ==> dist@[w] <= dist@[u] + 1,
        decreases unmapped(dist@, n as nat) + queue@.len(),
    {
        let ghost before = queue@;
        let ghost budget = unmapped(dist@, n as nat) + queue@.len();
        let node = queue.pop_front().unwrap();
        assert(node == before[0]);
        assert(dist@.contains_key(node));
        let d = *dist.get(&node).unwrap();
        let nbrs = neighbors(graph, node);
        proof {
            lemma_neighbor_list(edges, node, nbrs@);
            assert forall|i: int| 0 <= i < queue@.len() implies dist@.contains_key(
                #[trigger] queue@[i],
            ) && d <= dist@[queue@[i]] by {
                assert(queue@[i] == before[i + 1]);
            }
            assert forall|i: int, j: int| 0 <= i <= j < queue@.len() implies dist@[queue@[i]]
                <= dist@[queue@[j]] by {
                assert(queue@[i] == before[i + 1]);
                assert(queue@[j] == before[j + 1]);
            }
            assert forall|u: usize| u != node && !queue@.contains(u) implies !before.contains(
                u,
            ) by {
                if before.contains(u) {
                    let i = choose|i: int| 0 <= i < before.len() && before[i] == u;
                    assert(queue@[i - 1] == u);
                }
            }
        }
        let mut i: usize = 0;
        while i < nbrs.len()
            invariant
                n == graph_nodes(*graph).len(),
                edges == graph_edges(*graph),
                edges_within(edges, n as nat),
                start < n,
                order@.no_duplicates(),
                forall|v: usize| dist@.contains_key(v) <==> order@.contains(v),
                i <= nbrs.len(),
                forall|w: usize| nbrs@.contains(w) <==> adjacent(edges, node, w),
                dist@.contains_key(start),
                dist@[start] == 0,
                dist@.contains_key(node),
                dist@[node] == d,
                forall|v: usize| #[trigger]
                    dist@.contains_key(v) ==> v < n && dist@[v] + unmapped(dist@, n as nat) < n
                        && reaches_within(edges, start, v, dist@[v] as nat) && dist@[v] <= d + 1,
                forall|j: int|
                    0 <= j < queue@.len() ==> dist@.contains_key(#[trigger] queue@[j]) && d
                        <= dist@[queue@[j]],
                forall|j: int, k: int|
                    0 <= j <= k < queue@.len() ==> dist@[queue@[j]] <= dist@[queue@[k]],
                forall|u: usize, w: usize|
                    dist@.contains_key(u) && u != node && !queue@.contains(u) && #[trigger] adjacent(
                        edges,
                        u,
                        w,
                    ) ==> dist@.contains_key(w),
                forall|u: usize, w: usize|
                    dist@.contains_key(u) && dist@.contains_key(w) && #[trigger] adjacent(
                        edges,
                        u,
                        w,
                    ) ==> dist@[w] <= dist@[u] + 1,
                forall|j: int| 0 <= j < i ==> dist@.contains_key(#[trigger] nbrs@[j]),
                unmapped(dist@, n as nat) + queue@.len() < budget,
            decreases nbrs.len() - i,
        {
            let nbr = nbrs[i];
            if !dist.contains_key(&nbr) {
                let ghost seen = dist@;
                let ghost waiting = queue@;
                proof {
                    assert(nbrs@.contains(nbr));
                    assert(adjacent(edges, node, nbr));
                    let e = choose|e: int| 0 <= e < edges.len() && joins(#[trigger] edges[e], node, nbr);
                    assert(nbr < n);
                    lemma_reaches_within_step(edges, start, node, nbr, d as nat);
                    lemma_unmapped_insert(seen, n as nat, nbr, (d + 1) as usize);
                }
                let ghost listed = order@;
                dist.insert(nbr, d + 1);
                queue.push_back(nbr);
                order.push(nbr);
                proof {
                    assert(!listed.contains(nbr));
                    assert forall|j: int, k: int|
                        0 <= j < order@.len() && 0 <= k < order@.len() && j != k implies order@[j]
                        != order@[k] by {
                        if j < listed.len() {
                            assert(listed.contains(listed[j]));
                        }
                        if k < listed.len() {
                            assert(listed.contains(listed[k]));
                        }
                    }
                    assert forall|v: usize| dist@.contains_key(v) <==> order@.contains(v) by {
                        assert(order@[listed.len() as int] == nbr);
                        if listed.contains(v) {
                            let j = choose|j: int| 0 <= j < listed.len() && listed[j] == v;
                            assert(order@[j] == v);
                        }
                        if order@.contains(v) && v != nbr {
                            let j = choose|j: int| 0 <= j < order@.len() && order@[j] == v;
                            assert(listed[j] == v);
                        }
                    }
                    assert forall|u: usize, w: usize|
                        dist@.contains_key(u) && dist@.contains_key(w) && #[trigger] adjacent(
                            edges,
                            u,
                            w,
                        ) implies dist@[w] <= dist@[u] + 1 by {
                        lemma_adjacent_symmetric(edges, u, w);
                        if w == nbr && u != nbr {
                            if u != node && !waiting.contains(u) {
                                assert(seen.contains_key(nbr));
                            }
                        }
                    }
                    assert forall|u: usize, w: usize|
                        dist@.contains_key(u) && u != node && !queue@.contains(u) && #[trigger] adjacent(
                            edges,
                            u,
                            w,
                        ) implies dist@.contains_key(w) by {
                        assert(queue@[waiting.len() as int] == nbr);
                        if waiting.contains(u) {
                            let j = choose|j: int| 0 <= j < waiting.len() && waiting[j] == u;
                            assert(queue@[j] == u);
                        }
                    }
                }
            }
            i += 1;
        }
        proof {
            assert forall|u: usize, w: usize|
                dist@.contains_key(u) && !queue@.contains(u) && #[trigger] adjacent(
                    edges,
                    u,
                    w,
                ) implies dist@.contains_key(w) by {
                if u == node {
                    assert(nbrs@.contains(w));
                }
            }
        }
    }
    proof {
        assert forall|u: usize, w: usize|
            dist@.contains_key(u) && #[trigger] adjacent(edges, u, w) implies dist@.contains_key(w)
            && dist@[w] <= dist@[u] + 1 by {
            assert(!queue@.contains(u));
        }
        lemma_settled_is_distance_map(edges, start, dist@);
    }
    (dist, order)
}

} // verus!
