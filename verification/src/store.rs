//! The graph store: petgraph's undirected graph, with a node for each
//! (date, location) and edges without payload.
//!
//! Verus cannot look inside a petgraph graph. Two names stand for what it
//! holds, [`graph_nodes`] and [`graph_edges`], and every contract of this
//! crate is stated over them. The functions at the end of this file are the
//! only ones that touch petgraph; their contracts are taken on trust.

use crate::date::Date;
use petgraph::graph::NodeIndex;
use vstd::prelude::*;

verus! {

/// petgraph's graph, opaque to the verifier.
#[verifier::external_type_specification]
#[verifier::external_body]
#[verifier::reject_recursive_types(N)]
#[verifier::reject_recursive_types(E)]
#[verifier::reject_recursive_types(Ty)]
#[verifier::reject_recursive_types(Ix)]
pub struct ExGraph<N, E, Ty, Ix>(petgraph::graph::Graph<N, E, Ty, Ix>);

/// petgraph's marker for undirected edges.
#[verifier::external_type_specification]
#[verifier::external_body]
pub struct ExUndirected(petgraph::Undirected);

/// An undirected graph whose nodes are (date, location) observations.
pub type DayGraph = petgraph::graph::UnGraph<(Date, String), ()>;

/// The labels of the graph's nodes, by node index.
pub uninterp spec fn graph_nodes(g: DayGraph) -> Seq<(Date, Seq<char>)>;

/// The end points of the graph's edges, by edge index.
pub uninterp spec fn graph_edges(g: DayGraph) -> Seq<(usize, usize)>;

/// The largest number of nodes, and of edges, that a graph indexed by `u32`
/// can hold.
pub const MAX_INDEX: usize = 0xffff_ffff;

/// Whether the edge `e` joins `a` and `b`, in either direction.
pub open spec fn joins(e: (usize, usize), a: usize, b: usize) -> bool {
    (e.0 == a && e.1 == b) || (e.0 == b && e.1 == a)
}

/// Whether some edge joins `a` and `b`.
pub open spec fn adjacent(edges: Seq<(usize, usize)>, a: usize, b: usize) -> bool {
    exists|i: int| 0 <= i < edges.len() && joins(#[trigger] edges[i], a, b)
}

/// The far ends of the edges at `a`, one entry for each edge, in edge order.
/// A loop at `a` counts once.
pub open spec fn neighbor_seq(edges: Seq<(usize, usize)>, a: usize) -> Seq<usize>
    decreases edges.len(),
{
    if edges.len() == 0 {
        Seq::empty()
    } else {
        let rest = neighbor_seq(edges.drop_last(), a);
        let e = edges.last();
        if e.0 == a {
            rest.push(e.1)
        } else if e.1 == a {
            rest.push(e.0)
        } else {
            rest
        }
    }
}

/// The number of edge ends at `a`, as petgraph counts them.
pub open spec fn degree(edges: Seq<(usize, usize)>, a: usize) -> nat {
    neighbor_seq(edges, a).len()
}

/// Whether a walk of at most `k` edges leads from `s` to `v`.
pub open spec fn reaches_within(edges: Seq<(usize, usize)>, s: usize, v: usize, k: nat) -> bool
    decreases k,
{
    v == s || (k > 0 && exists|u: usize|
        reaches_within(edges, s, u, (k - 1) as nat) && #[trigger] adjacent(edges, u, v))
}

/// Whether some walk leads from `s` to `v`.
pub open spec fn reaches(edges: Seq<(usize, usize)>, s: usize, v: usize) -> bool {
    exists|k: nat| reaches_within(edges, s, v, k)
}

/// Whether no node below `v` reaches `v`: each connected component has one
/// such node, its least.
pub open spec fn is_least_of_component(edges: Seq<(usize, usize)>, v: usize) -> bool {
    forall|u: usize| u < v ==> !reaches(edges, u, v)
}

/// The number of connected components among the nodes below `n`.
pub open spec fn components_below(edges: Seq<(usize, usize)>, n: nat) -> nat
    decreases n,
{
    if n == 0 {
        0
    } else {
        components_below(edges, (n - 1) as nat) + if is_least_of_component(
            edges,
            (n - 1) as usize,
        ) {
            1nat
        } else {
            0nat
        }
    }
}

/// Every edge ends at nodes below `n`.
pub open spec fn edges_within(edges: Seq<(usize, usize)>, n: nat) -> bool {
    forall|i: int| 0 <= i < edges.len() ==> (#[trigger] edges[i]).0 < n && edges[i].1 < n
}

/// A node is at the far end of an edge at `a` exactly if an edge joins them.
pub proof fn lemma_neighbor_seq_adjacent(edges: Seq<(usize, usize)>, a: usize, w: usize)
    ensures
        neighbor_seq(edges, a).contains(w) <==> adjacent(edges, a, w),
    decreases edges.len(),
{
    if edges.len() > 0 {
        let init = edges.drop_last();
        let e = edges.last();
        let rest = neighbor_seq(init, a);
        lemma_neighbor_seq_adjacent(init, a, w);
        if adjacent(init, a, w) {
            let i = choose|i: int| 0 <= i < init.len() && joins(#[trigger] init[i], a, w);
            assert(joins(edges[i], a, w));
            let j = choose|j: int| 0 <= j < rest.len() && rest[j] == w;
            assert(neighbor_seq(edges, a)[j] == w);
        }
        if joins(e, a, w) {
            assert(joins(edges[edges.len() - 1], a, w));
            assert(neighbor_seq(edges, a).last() == w);
        }
        if neighbor_seq(edges, a).contains(w) && !rest.contains(w) {
            let j = choose|j: int|
                0 <= j < neighbor_seq(edges, a).len() && neighbor_seq(edges, a)[j] == w;
            assert(j == rest.len());
            assert(joins(edges[edges.len() - 1], a, w));
        }
        if adjacent(edges, a, w) && !adjacent(init, a, w) {
            let i = choose|i: int| 0 <= i < edges.len() && joins(#[trigger] edges[i], a, w);
            if i < init.len() {
                assert(joins(init[i], a, w));
            }
        }
    }
}

/// What a list of neighbors tells, whatever its order: its length is the
/// degree, and it holds exactly the adjacent nodes.
pub proof fn lemma_neighbor_list(edges: Seq<(usize, usize)>, a: usize, list: Seq<usize>)
    requires
        list.to_multiset() == neighbor_seq(edges, a).to_multiset(),
    ensures
        list.len() == degree(edges, a),
        forall|w: usize| list.contains(w) <==> adjacent(edges, a, w),
{
    broadcast use vstd::seq_lib::group_to_multiset_ensures;

    assert(list.len() == list.to_multiset().len());
    assert(neighbor_seq(edges, a).len() == neighbor_seq(edges, a).to_multiset().len());
    assert forall|w: usize| list.contains(w) <==> adjacent(edges, a, w) by {
        lemma_neighbor_seq_adjacent(edges, a, w);
        assert(list.contains(w) <==> list.to_multiset().count(w) > 0);
        assert(neighbor_seq(edges, a).contains(w) <==> neighbor_seq(edges, a).to_multiset().count(w)
            > 0);
    }
}

/// An edge joins `a` and `b` exactly if one joins `b` and `a`.
pub proof fn lemma_adjacent_symmetric(edges: Seq<(usize, usize)>, a: usize, b: usize)
    ensures
        adjacent(edges, a, b) == adjacent(edges, b, a),
{
    if adjacent(edges, a, b) {
        let i = choose|i: int| 0 <= i < edges.len() && joins(#[trigger] edges[i], a, b);
        assert(joins(edges[i], b, a));
    }
    if adjacent(edges, b, a) {
        let i = choose|i: int| 0 <= i < edges.len() && joins(#[trigger] edges[i], b, a);
        assert(joins(edges[i], a, b));
    }
}

/// `petgraph::graph::Graph::new_undirected`: a graph without nodes or edges.
#[verifier::external_body]
pub(crate) fn empty_graph() -> (g: DayGraph)
    ensures
        graph_nodes(g) == Seq::<(Date, Seq<char>)>::empty(),
        graph_edges(g) == Seq::<(usize, usize)>::empty(),
{
    DayGraph::new_undirected()
}

/// `petgraph::graph::Graph::node_count`: the number of nodes. The contract
/// adds two facts that hold of every petgraph graph indexed by `u32`: the
/// count fits the index type, and every edge ends at existing nodes.
#[verifier::external_body]
pub(crate) fn node_count(g: &DayGraph) -> (n: usize)
    ensures
        n == graph_nodes(*g).len(),
        n <= MAX_INDEX,
        edges_within(graph_edges(*g), n as nat),
{
    g.node_count()
}

/// `petgraph::graph::Graph::add_node`: appends a node and returns its index.
/// petgraph panics when the index type is exhausted; `requires` keeps away
/// from that.
#[verifier::external_body]
pub(crate) fn add_node(g: &mut DayGraph, date: Date, place: String) -> (a: usize)
    requires
        graph_nodes(*old(g)).len() < MAX_INDEX,
    ensures
        graph_nodes(*final(g)) == graph_nodes(*old(g)).push((date, place@)),
        graph_edges(*final(g)) == graph_edges(*old(g)),
        a == graph_nodes(*old(g)).len(),
{
    g.add_node((date, place)).index()
}

/// `petgraph::graph::Graph::add_edge`: appends an edge from `a` to `b`.
/// petgraph panics on a missing node and when the index type is exhausted;
/// `requires` keeps away from both.
#[verifier::external_body]
pub(crate) fn add_edge(g: &mut DayGraph, a: usize, b: usize)
    requires
        a < graph_nodes(*old(g)).len(),
        b < graph_nodes(*old(g)).len(),
        graph_edges(*old(g)).len() < MAX_INDEX,
    ensures
        graph_nodes(*final(g)) == graph_nodes(*old(g)),
        graph_edges(*final(g)) == graph_edges(*old(g)).push((a, b)),
{
    g.add_edge(NodeIndex::new(a), NodeIndex::new(b), ());
}

/// `petgraph::graph::Graph::find_edge`: on an undirected graph, whether an
/// edge joins `a` and `b` in either direction.
#[verifier::external_body]
pub(crate) fn has_edge(g: &DayGraph, a: usize, b: usize) -> (r: bool)
    requires
        a < graph_nodes(*g).len(),
        b < graph_nodes(*g).len(),
    ensures
        r == adjacent(graph_edges(*g), a, b),
{
    g.find_edge(NodeIndex::new(a), NodeIndex::new(b)).is_some()
}

/// `petgraph::graph::Graph::neighbors`: the far end of every edge at `a`, a
/// loop counted once, in an order that petgraph leaves open.
#[verifier::external_body]
pub(crate) fn neighbors(g: &DayGraph, a: usize) -> (r: Vec<usize>)
    requires
        a < graph_nodes(*g).len(),
    ensures
        r@.to_multiset() == neighbor_seq(graph_edges(*g), a).to_multiset(),
{
    g.neighbors(NodeIndex::new(a)).map(|b| b.index()).collect()
}

/// Indexing a `petgraph::graph::Graph` by a node: the node's label. petgraph
/// panics on a missing node; `requires` keeps away from that.
#[verifier::external_body]
pub(crate) fn node_label(g: &DayGraph, a: usize) -> (r: &(Date, String))
    requires
        a < graph_nodes(*g).len(),
    ensures
        r.0 == graph_nodes(*g)[a as int].0,
        r.1@ == graph_nodes(*g)[a as int].1,
{
    &g[NodeIndex::new(a)]
}

/// `petgraph::algo::connected_components`: the number of connected
/// components. The contract counts them by their least nodes.
#[verifier::external_body]
pub(crate) fn connected_components(g: &DayGraph) -> (r: usize)
    ensures
        r == components_below(graph_edges(*g), graph_nodes(*g).len()),
{
    petgraph::algo::connected_components(g)
}

} // verus!
