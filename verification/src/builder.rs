//! The graph builder: one node for each distinct (date, location), and an
//! edge between every two nodes of the same date.

use crate::date::Date;
use crate::store::{
    add_edge, add_node, adjacent, edges_within, empty_graph, graph_edges, graph_nodes, has_edge,
    joins, lemma_adjacent_symmetric, node_count, node_label, DayGraph, MAX_INDEX,
};
use itertools::Itertools;
use std::collections::HashMap;
use vstd::prelude::*;
use vstd::std_specs::hash::group_hash_axioms;

verus! {

/// Why a graph cannot be built: petgraph indexes nodes and edges by `u32`.
#[derive(Clone, Copy, Debug, PartialEq, Eq, Structural)]
pub enum BuildError {
    /// There are more distinct observations than a graph can have nodes.
    TooManyNodes,
    /// There are more pairs of same-day observations than a graph can have
    /// edges.
    TooManyEdges,
}

/// The observations as plain values.
pub open spec fn observations(entries: Seq<(Date, String)>) -> Seq<(Date, Seq<char>)> {
    Seq::new(entries.len(), |i: int| (entries[i].0, entries[i].1@))
}

/// The distinct observations, each at the place of its first appearance.
pub open spec fn first_seen(obs: Seq<(Date, Seq<char>)>) -> Seq<(Date, Seq<char>)>
    decreases obs.len(),
{
    if obs.len() == 0 {
        Seq::empty()
    } else {
        let before = first_seen(obs.drop_last());
        if before.contains(obs.last()) {
            before
        } else {
            before.push(obs.last())
        }
    }
}

/// The number of nodes that carry the date `day`.
pub open spec fn same_day_count(nodes: Seq<(Date, Seq<char>)>, day: Date) -> nat
    decreases nodes.len(),
{
    if nodes.len() == 0 {
        0
    } else {
        same_day_count(nodes.drop_last(), day) + if nodes.last().0 == day {
            1nat
        } else {
            0nat
        }
    }
}

/// The number of unordered pairs of distinct nodes that share a date.
pub open spec fn same_day_pairs(nodes: Seq<(Date, Seq<char>)>) -> nat
    decreases nodes.len(),
{
    if nodes.len() == 0 {
        0
    } else {
        same_day_pairs(nodes.drop_last()) + same_day_count(nodes.drop_last(), nodes.last().0)
    }
}

/// Whether nodes and edges form the graph of day-scoped co-occurrence: no
/// label twice, no loop, no edge twice, and an edge between two distinct
/// nodes exactly where their dates agree.
pub open spec fn is_day_graph(nodes: Seq<(Date, Seq<char>)>, edges: Seq<(usize, usize)>) -> bool {
    &&& nodes.no_duplicates()
    &&& edges_within(edges, nodes.len())
    &&& forall|i: int| 0 <= i < edges.len() ==> (#[trigger] edges[i]).0 != edges[i].1
    &&& forall|i: int, j: int|
        0 <= i < j < edges.len() ==> !joins(#[trigger] edges[j], (#[trigger] edges[i]).0, edges[i].1)
    &&& forall|a: usize, b: usize|
        a < nodes.len() && b < nodes.len() && a != b ==> (#[trigger] adjacent(edges, a, b)
            <==> nodes[a as int].0 == nodes[b as int].0)
}

/// All pairs of items at two positions of `items`, the earlier position
/// first: in the order of the first position, then of the second.
pub open spec fn pair_seq(items: Seq<usize>) -> Seq<(usize, usize)>
    decreases items.len(),
{
    if items.len() == 0 {
        Seq::empty()
    } else {
        Seq::new((items.len() - 1) as nat, |j: int| (items[0], items[j + 1])) + pair_seq(
            items.drop_first(),
        )
    }
}

/// Every pair of `pair_seq` is taken at two positions, the earlier first.
pub proof fn lemma_pair_seq_sound(items: Seq<usize>, t: int)
    requires
        0 <= t < pair_seq(items).len(),
    ensures
        exists|x: int, y: int|
            0 <= x < y < items.len() && pair_seq(items)[t] == (#[trigger] items[x], #[trigger] items[y]),
    decreases items.len(),
{
    if items.len() > 0 {
        let head = Seq::new((items.len() - 1) as nat, |j: int| (items[0], items[j + 1]));
        let tail = items.drop_first();
        if t < head.len() {
            assert(pair_seq(items)[t] == (items[0], items[t + 1]));
        } else {
            lemma_pair_seq_sound(tail, t - head.len());
            let (x, y) = choose|x: int, y: int|
                0 <= x < y < tail.len() && pair_seq(tail)[t - head.len()] == (
                    #[trigger] tail[x],
                    #[trigger] tail[y],
                );
            assert(pair_seq(items)[t] == (items[x + 1], items[y + 1]));
        }
    }
}

/// Every two positions of `items`, the earlier first, give a pair of
/// `pair_seq`.
pub proof fn lemma_pair_seq_complete(items: Seq<usize>, x: int, y: int)
    requires
        0 <= x < y < items.len(),
    ensures
        pair_seq(items).contains((items[x], items[y])),
    decreases items.len(),
{
    let head = Seq::new((items.len() - 1) as nat, |j: int| (items[0], items[j + 1]));
    let tail = items.drop_first();
    if x == 0 {
        assert(pair_seq(items)[y - 1] == (items[x], items[y]));
    } else {
        lemma_pair_seq_complete(tail, x - 1, y - 1);
        let t = choose|t: int|
            0 <= t < pair_seq(tail).len() && pair_seq(tail)[t] == (tail[x - 1], tail[y - 1]);
        assert(pair_seq(items)[head.len() + t] == (items[x], items[y]));
    }
}

/// One more item at the end pairs with each item before it.
pub proof fn lemma_pair_seq_push(items: Seq<usize>, a: usize)
    ensures
        pair_seq(items.push(a)).len() == pair_seq(items).len() + items.len(),
    decreases items.len(),
{
    let longer = items.push(a);
    if items.len() == 0 {
        assert(longer.drop_first() =~= Seq::<usize>::empty());
        assert(pair_seq(longer.drop_first()).len() == 0);
    } else {
        lemma_pair_seq_push(items.drop_first(), a);
        assert(longer.drop_first() =~= items.drop_first().push(a));
    }
    assert(pair_seq(longer).len() == longer.len() - 1 + pair_seq(longer.drop_first()).len());
}

/// `itertools::Itertools::tuple_combinations`, taken at pairs and collected:
/// every two items of the list, in the documented order.
#[verifier::external_body]
fn pair_combinations(items: &Vec<usize>) -> (r: Vec<(usize, usize)>)
    ensures
        r@ == pair_seq(items@),
{
    items.iter().copied().tuple_combinations().collect()
}

/// The distinct observations are the observations, and none comes twice.
pub proof fn lemma_first_seen(obs: Seq<(Date, Seq<char>)>)
    ensures
        first_seen(obs).no_duplicates(),
        forall|label: (Date, Seq<char>)|
            #![trigger first_seen(obs).contains(label)]
            #![trigger obs.contains(label)]
            first_seen(obs).contains(label) <==> obs.contains(label),
        first_seen(obs).len() <= obs.len(),
    decreases obs.len(),
{
    if obs.len() > 0 {
        let init = obs.drop_last();
        let before = first_seen(init);
        lemma_first_seen(init);
        assert forall|label: (Date, Seq<char>)|
            #![trigger first_seen(obs).contains(label)]
            #![trigger obs.contains(label)]
            first_seen(obs).contains(label) <==> obs.contains(label) by {
            if obs.contains(label) {
                let i = choose|i: int| 0 <= i < obs.len() && obs[i] == label;
                if i < init.len() {
                    assert(init[i] == label);
                    assert(init.contains(label));
                    let j = choose|j: int| 0 <= j < before.len() && before[j] == label;
                    assert(first_seen(obs)[j] == label);
                } else if !before.contains(label) {
                    assert(first_seen(obs).last() == label);
                }
            }
            if first_seen(obs).contains(label) {
                let j = choose|j: int| 0 <= j < first_seen(obs).len() && first_seen(obs)[j] == label;
                if j < before.len() {
                    assert(before[j] == label);
                    assert(before.contains(label));
                    let i = choose|i: int| 0 <= i < init.len() && init[i] == label;
                    assert(obs[i] == label);
                } else {
                    assert(obs[obs.len() - 1] == label);
                }
            }
        }
    }
}

/// The distinct observations of a part are no more than those of the whole.
pub proof fn lemma_first_seen_grows(obs: Seq<(Date, Seq<char>)>, k: int)
    requires
        0 <= k <= obs.len(),
    ensures
        first_seen(obs.take(k)).len() <= first_seen(obs).len(),
    decreases obs.len(),
{
    if k < obs.len() {
        lemma_first_seen_grows(obs.drop_last(), k);
        assert(obs.drop_last().take(k) =~= obs.take(k));
    } else {
        assert(obs.take(k) =~= obs);
    }
}

/// No node carries a date that differs from the date of every node.
pub proof fn lemma_same_day_count_none(nodes: Seq<(Date, Seq<char>)>, day: Date)
    requires
        forall|i: int| 0 <= i < nodes.len() ==> (#[trigger] nodes[i]).0 != day,
    ensures
        same_day_count(nodes, day) == 0,
    decreases nodes.len(),
{
    if nodes.len() > 0 {
        assert(nodes[nodes.len() - 1].0 != day);
        lemma_same_day_count_none(nodes.drop_last(), day);
    }
}

/// There are no more nodes of one date than nodes.
pub proof fn lemma_same_day_count_bound(nodes: Seq<(Date, Seq<char>)>, day: Date)
    ensures
        same_day_count(nodes, day) <= nodes.len(),
    decreases nodes.len(),
{
    if nodes.len() > 0 {
        lemma_same_day_count_bound(nodes.drop_last(), day);
    }
}

/// The number of pairs that the groups give, each group paired within
/// itself.
pub open spec fn group_pairs(groups: Seq<Seq<usize>>) -> nat
    decreases groups.len(),
{
    if groups.len() == 0 {
        0
    } else {
        group_pairs(groups.drop_last()) + pair_seq(groups.last()).len()
    }
}

/// A node that joins the group `g` pairs with each of its members.
pub proof fn lemma_group_pairs_join(groups: Seq<Seq<usize>>, g: int, a: usize)
    requires
        0 <= g < groups.len(),
    ensures
        group_pairs(groups.update(g, groups[g].push(a))) == group_pairs(groups) + groups[g].len(),
    decreases groups.len(),
{
    let longer = groups.update(g, groups[g].push(a));
    if g == groups.len() - 1 {
        assert(longer.drop_last() =~= groups.drop_last());
        lemma_pair_seq_push(groups[g], a);
    } else {
        assert(longer.drop_last() =~= groups.drop_last().update(g, groups[g].push(a)));
        lemma_group_pairs_join(groups.drop_last(), g, a);
    }
}

/// A group of one node gives no pair.
pub proof fn lemma_group_pairs_open(groups: Seq<Seq<usize>>, a: usize)
    ensures
        group_pairs(groups.push(seq![a])) == group_pairs(groups),
{
    let longer = groups.push(seq![a]);
    assert(longer.drop_last() =~= groups);
    assert(seq![a].drop_first() =~= Seq::<usize>::empty());
    assert(pair_seq(seq![a].drop_first()).len() == 0);
    assert(pair_seq(seq![a]).len() == 0);
}

/// The pairs of the first `g + 1` groups are those of the first `g` and
/// those of group `g`; the groups together give no fewer.
pub proof fn lemma_group_pairs_take(groups: Seq<Seq<usize>>, g: int)
    requires
        0 <= g < groups.len(),
    ensures
        group_pairs(groups.take(g + 1)) == group_pairs(groups.take(g)) + pair_seq(groups[g]).len(),
        group_pairs(groups.take(g + 1)) <= group_pairs(groups),
    decreases groups.len(),
{
    assert(groups.take(g + 1).drop_last() =~= groups.take(g));
    if g + 1 < groups.len() {
        lemma_group_pairs_take(groups.drop_last(), g);
        assert(groups.drop_last().take(g + 1) =~= groups.take(g + 1));
        assert(groups.drop_last().take(g) =~= groups.take(g));
    } else {
        assert(groups.take(g + 1) =~= groups);
    }
}

/// In a rising list, pairs at different places of `pair_seq` join different
/// nodes.
pub proof fn lemma_pair_seq_distinct(items: Seq<usize>, t1: int, t2: int)
    requires
        forall|x: int, y: int| 0 <= x < y < items.len() ==> items[x] < items[y],
        0 <= t1 < t2 < pair_seq(items).len(),
    ensures
        !joins(pair_seq(items)[t1], pair_seq(items)[t2].0, pair_seq(items)[t2].1),
    decreases items.len(),
{
    let head = Seq::new((items.len() - 1) as nat, |j: int| (items[0], items[j + 1]));
    let tail = items.drop_first();
    assert forall|x: int, y: int| 0 <= x < y < tail.len() implies tail[x] < tail[y] by {
        assert(tail[x] == items[x + 1] && tail[y] == items[y + 1]);
    }
    if t2 < head.len() {
        assert(pair_seq(items)[t1] == (items[0], items[t1 + 1]));
        assert(pair_seq(items)[t2] == (items[0], items[t2 + 1]));
    } else if t1 < head.len() {
        lemma_pair_seq_sound(tail, t2 - head.len());
        let (x, y) = choose|x: int, y: int|
            0 <= x < y < tail.len() && pair_seq(tail)[t2 - head.len()] == (
                #[trigger] tail[x],
                #[trigger] tail[y],
            );
        assert(pair_seq(items)[t1] == (items[0], items[t1 + 1]));
        assert(pair_seq(items)[t2] == (items[x + 1], items[y + 1]));
    } else {
        lemma_pair_seq_distinct(tail, t1 - head.len(), t2 - head.len());
    }
}

/// An edge that joins two nodes still joins them after another edge is added.
pub proof fn lemma_adjacent_push(
    edges: Seq<(usize, usize)>,
    e: (usize, usize),
    a: usize,
    b: usize,
)
    ensures
        adjacent(edges, a, b) ==> adjacent(edges.push(e), a, b),
        joins(e, a, b) ==> adjacent(edges.push(e), a, b),
        adjacent(edges.push(e), a, b) ==> adjacent(edges, a, b) || joins(e, a, b),
{
    let longer = edges.push(e);
    if adjacent(edges, a, b) {
        let i = choose|i: int| 0 <= i < edges.len() && joins(#[trigger] edges[i], a, b);
        assert(joins(longer[i], a, b));
    }
    if joins(e, a, b) {
        assert(joins(longer[edges.len() as int], a, b));
    }
    if adjacent(longer, a, b) {
        let i = choose|i: int| 0 <= i < longer.len() && joins(#[trigger] longer[i], a, b);
        if i < edges.len() {
            assert(joins(edges[i], a, b));
        }
    }
}

/// The member lists of the date groups as plain values.
pub open spec fn member_lists(groups: Seq<Vec<usize>>) -> Seq<Seq<usize>> {
    Seq::new(groups.len(), |g: int| groups[g]@)
}

/// Whether some group holds the node `i`.
pub open spec fn has_member(groups: Seq<Seq<usize>>, i: int) -> bool {
    exists|g: int, x: int|
        0 <= g < groups.len() && 0 <= x < groups[g].len() && #[trigger] groups[g][x] == i
}

/// Whether `groups` sorts the nodes by date: group `g` holds, in rising
/// order, exactly the nodes of the date `days[g]`, and no two groups share a
/// date.
pub open spec fn is_grouping(
    nodes: Seq<(Date, Seq<char>)>,
    days: Seq<Date>,
    groups: Seq<Seq<usize>>,
) -> bool {
    &&& days.len() == groups.len()
    &&& days.no_duplicates()
    &&& forall|g: int, x: int|
        0 <= g < groups.len() && 0 <= x < groups[g].len() ==> (#[trigger] groups[g][x])
            < nodes.len() && nodes[groups[g][x] as int].0 == days[g]
    &&& forall|g: int, x: int, y: int|
        0 <= g < groups.len() && 0 <= x < y < groups[g].len() ==> (#[trigger] groups[g][x])
            < #[trigger] groups[g][y]
    &&& forall|i: int| 0 <= i < nodes.len() ==> #[trigger] has_member(groups, i)
    &&& forall|g: int|
        0 <= g < groups.len() ==> (#[trigger] groups[g]).len() == same_day_count(nodes, days[g])
}

/// Whether `index` leads from the key of each group's date to the group.
pub open spec fn is_day_index(index: Map<u128, usize>, days: Seq<Date>) -> bool {
    &&& forall|g: int|
        0 <= g < days.len() ==> index.contains_key((#[trigger] days[g]).key_value())
            && index[days[g].key_value()] == g
    &&& forall|k: u128| #[trigger]
        index.contains_key(k) ==> index[k] < days.len() && days[index[k] as int].key_value() == k
}

/// Whether one of the nodes of `group` carries the location `place`.
pub open spec fn group_has_place(
    nodes: Seq<(Date, Seq<char>)>,
    group: Seq<usize>,
    place: Seq<char>,
) -> bool {
    exists|x: int| 0 <= x < group.len() && nodes[#[trigger] group[x] as int].1 == place
}

/// Looks for the location among the nodes of one date group.
fn group_holds(graph: &DayGraph, group: &Vec<usize>, place: &String) -> (r: bool)
    requires
        forall|x: int| 0 <= x < group@.len() ==> (#[trigger] group@[x]) < graph_nodes(*graph).len(),
    ensures
        r == group_has_place(graph_nodes(*graph), group@, place@),
{
    let mut x: usize = 0;
    while x < group.len()
        invariant
            x <= group@.len(),
            forall|y: int|
                0 <= y < group@.len() ==> (#[trigger] group@[y]) < graph_nodes(*graph).len(),
            forall|y: int|
                0 <= y < x ==> graph_nodes(*graph)[#[trigger] group@[y] as int].1 != place@,
        decreases group@.len() - x,
    {
        let label = node_label(graph, group[x]);
        if label.1 == *place {
            return true;
        }
        x += 1;
    }
    false
}

/// The first step of building: a node for each distinct observation, in
/// order of first appearance, no edge yet, and the nodes sorted into groups
/// by date. Also counts the pairs of nodes that share a date.
fn collect_nodes(entries: &Vec<(Date, String)>) -> (r: Result<
    (DayGraph, Vec<Vec<usize>>, Ghost<Seq<Date>>, u64),
    BuildError,
>)
    ensures
        match r {
            Ok((graph, groups, days, wanted)) => {
                &&& graph_nodes(graph) == first_seen(observations(entries@))
                &&& graph_nodes(graph).len() <= MAX_INDEX
                &&& graph_edges(graph).len() == 0
                &&& is_grouping(graph_nodes(graph), days@, member_lists(groups@))
                &&& wanted == same_day_pairs(graph_nodes(graph))
                &&& wanted == group_pairs(member_lists(groups@))
            },
            Err(e) => e == BuildError::TooManyNodes && first_seen(observations(entries@)).len()
                > MAX_INDEX,
        },
{
    broadcast use group_hash_axioms;

    let ghost obs = observations(entries@);
    let mut graph = empty_graph();
    let mut index: HashMap<u128, usize> = HashMap::new();
    let mut groups: Vec<Vec<usize>> = Vec::new();
    let mut wanted: u64 = 0;
    let ghost mut days: Seq<Date> = Seq::empty();
    let mut k: usize = 0;
    proof {
        assert(obs.take(0) =~= Seq::<(Date, Seq<char>)>::empty());
        assert(member_lists(groups@) =~= Seq::<Seq<usize>>::empty());
    }
    while k < entries.len()
        invariant
            k <= entries@.len(),
            obs == observations(entries@),
            graph_nodes(graph) == first_seen(obs.take(k as int)),
            graph_nodes(graph).len() <= MAX_INDEX,
            graph_edges(graph).len() == 0,
            is_grouping(graph_nodes(graph), days, member_lists(groups@)),
            is_day_index(index@, days),
            wanted == same_day_pairs(graph_nodes(graph)),
            wanted == group_pairs(member_lists(groups@)),
            wanted <= graph_nodes(graph).len() * MAX_INDEX,
        decreases entries@.len() - k,
    {
        let date = entries[k].0;
        let place = &entries[k].1;
        let key = date.key();
        let ghost nodes = graph_nodes(graph);
        let ghost lists = member_lists(groups@);
        let ghost label = (date, place@);
        proof {
            assert(obs.take(k + 1).drop_last() =~= obs.take(k as int));
            assert(obs.take(k + 1).last() == label);
        }
        let slot: Option<usize> = match index.get(&key) {
            Some(g) => Some(*g),
            None => None,
        };
        let found = match slot {
            Some(g) => {
                proof {
                    date.lemma_key_tells_apart(days[g as int]);
                    assert(lists[g as int] == groups@[g as int]@);
                    assert forall|x: int| 0 <= x < groups@[g as int]@.len() implies (
                    #[trigger] groups@[g as int]@[x]) < nodes.len() by {
                        assert(lists[g as int][x] < nodes.len());
                    }
                }
                group_holds(&graph, &groups[g], place)
            },
            None => false,
        };
        proof {
            // `found` says whether the label is a node already.
            if found {
                let g = slot->Some_0 as int;
                let x = choose|x: int|
                    0 <= x < lists[g].len() && nodes[#[trigger] lists[g][x] as int].1 == place@;
                assert(nodes[lists[g][x] as int].0 == days[g]);
                assert(nodes[lists[g][x] as int] == label);
            } else if nodes.contains(label) {
                let i = choose|i: int| 0 <= i < nodes.len() && nodes[i] == label;
                assert(has_member(lists, i));
                let (g, x) = choose|g: int, x: int|
                    0 <= g < lists.len() && 0 <= x < lists[g].len() && #[trigger] lists[g][x] == i;
                assert(nodes[lists[g][x] as int].0 == days[g]);
                assert(index@.contains_key(days[g].key_value()));
                assert(slot == Some(g as usize));
                assert(lists[g] == groups@[g]@);
                assert(false);
            }
            assert(found == nodes.contains(label));
        }
        if !found {
            let n = node_count(&graph);
            if n >= MAX_INDEX {
                proof {
                    lemma_first_seen_grows(obs, k + 1);
                }
                return Err(BuildError::TooManyNodes);
            }
            let a = add_node(&mut graph, date, place.clone());
            let ghost grown = graph_nodes(graph);
            proof {
                assert(grown.drop_last() =~= nodes);
                assert(grown.last() == label);
            }
            match slot {
                Some(g) => {
                    proof {
                        lemma_same_day_count_bound(nodes, date);
                        assert(lists[g as int].len() == same_day_count(nodes, days[g as int]));
                    }
                    wanted = wanted + groups[g].len() as u64;
                    groups[g].push(a);
                    proof {
                        let longer = member_lists(groups@);
                        assert(longer =~= lists.update(g as int, lists[g as int].push(a)));
                        lemma_group_pairs_join(lists, g as int, a);
                        assert forall|h: int, x: int|
                            0 <= h < longer.len() && 0 <= x < longer[h].len() implies (
                        #[trigger] longer[h][x]) < grown.len() && grown[longer[h][x] as int].0
                            == days[h] by {
                            if h != g || x < lists[h].len() {
                                assert(longer[h][x] == lists[h][x]);
                            }
                        }
                        assert forall|h: int, x: int, y: int|
                            0 <= h < longer.len() && 0 <= x < y < longer[h].len() implies (
                        #[trigger] longer[h][x]) < #[trigger] longer[h][y] by {
                            assert(longer[h][x] == lists[h][x]);
                            if h != g || y < lists[h].len() {
                                assert(longer[h][y] == lists[h][y]);
                            }
                        }
                        assert forall|i: int| 0 <= i < grown.len() implies #[trigger] has_member(
                            longer,
                            i,
                        ) by {
                            if i < nodes.len() {
                                assert(has_member(lists, i));
                                let (h, x) = choose|h: int, x: int|
                                    0 <= h < lists.len() && 0 <= x < lists[h].len()
                                        && #[trigger] lists[h][x] == i;
                                assert(longer[h][x] == i);
                            } else {
                                assert(longer[g as int][lists[g as int].len() as int] == i);
                            }
                        }
                        assert forall|h: int| 0 <= h < longer.len() implies (
                        #[trigger] longer[h]).len() == same_day_count(grown, days[h]) by {
                            assert(lists[h].len() == same_day_count(nodes, days[h]));
                        }
                    }
                },
                None => {
                    let ghost fresh = groups@.len();
                    proof {
                        assert forall|g: int| 0 <= g < days.len() implies (#[trigger] days[g])
                            != date by {
                            assert(index@.contains_key(days[g].key_value()));
                        }
                        assert forall|i: int| 0 <= i < nodes.len() implies (#[trigger] nodes[i]).0
                            != date by {
                            assert(has_member(lists, i));
                            let (g, x) = choose|g: int, x: int|
                                0 <= g < lists.len() && 0 <= x < lists[g].len()
                                    && #[trigger] lists[g][x] == i;
                            assert(nodes[lists[g][x] as int].0 == days[g]);
                        }
                        lemma_same_day_count_none(nodes, date);
                        days = days.push(date);
                    }
                    index.insert(key, groups.len());
                    let mut group: Vec<usize> = Vec::new();
                    group.push(a);
                    groups.push(group);
                    proof {
                        let longer = member_lists(groups@);
                        assert(longer =~= lists.push(seq![a]));
                        lemma_group_pairs_open(lists, a);
                        assert forall|h: int, x: int|
                            0 <= h < longer.len() && 0 <= x < longer[h].len() implies (
                        #[trigger] longer[h][x]) < grown.len() && grown[longer[h][x] as int].0
                            == days[h] by {
                            if h < fresh {
                                assert(longer[h][x] == lists[h][x]);
                            }
                        }
                        assert forall|h: int, x: int, y: int|
                            0 <= h < longer.len() && 0 <= x < y < longer[h].len() implies (
                        #[trigger] longer[h][x]) < #[trigger] longer[h][y] by {
                            assert(longer[h][x] == lists[h][x]);
                            assert(longer[h][y] == lists[h][y]);
                        }
                        assert forall|i: int| 0 <= i < grown.len() implies #[trigger] has_member(
                            longer,
                            i,
                        ) by {
                            if i < nodes.len() {
                                assert(has_member(lists, i));
                                let (h, x) = choose|h: int, x: int|
                                    0 <= h < lists.len() && 0 <= x < lists[h].len()
                                        && #[trigger] lists[h][x] == i;
                                assert(longer[h][x] == i);
                            } else {
                                assert(longer[fresh as int][0] == i);
                            }
                        }
                        assert forall|h: int| 0 <= h < longer.len() implies (
                        #[trigger] longer[h]).len() == same_day_count(grown, days[h]) by {
                            if h < fresh {
                                assert(lists[h].len() == same_day_count(nodes, days[h]));
                            }
                        }
                        assert forall|q: u128| #[trigger] index@.contains_key(q) implies index@[q]
                            < days.len() && days[index@[q] as int].key_value() == q by {
                            if q != key {
                                assert(days[index@[q] as int] == days.drop_last()[index@[q] as int]);
                            }
                        }
                    }
                },
            }
        }
        k += 1;
    }
    proof {
        assert(obs.take(k as int) =~= obs);
    }
    Ok((graph, groups, Ghost(days), wanted))
}

/// Whether both ends of the edge carry the date of one of the first `upto`
/// groups.
pub open spec fn edge_in_days(
    nodes: Seq<(Date, Seq<char>)>,
    days: Seq<Date>,
    e: (usize, usize),
    upto: int,
) -> bool {
    exists|g: int|
        0 <= g < upto && nodes[e.0 as int].0 == #[trigger] days[g] && nodes[e.1 as int].0 == days[g]
}

/// The second step of building: within each date group, an edge between
/// every two of its nodes.
fn connect_groups(graph: &mut DayGraph, groups: &Vec<Vec<usize>>, Ghost(days): Ghost<Seq<Date>>)
    requires
        graph_nodes(*old(graph)).no_duplicates(),
        graph_nodes(*old(graph)).len() <= MAX_INDEX,
        graph_edges(*old(graph)).len() == 0,
        is_grouping(graph_nodes(*old(graph)), days, member_lists(groups@)),
        group_pairs(member_lists(groups@)) == same_day_pairs(graph_nodes(*old(graph))),
        same_day_pairs(graph_nodes(*old(graph))) <= MAX_INDEX,
    ensures
        graph_nodes(*final(graph)) == graph_nodes(*old(graph)),
        is_day_graph(graph_nodes(*final(graph)), graph_edges(*final(graph))),
        graph_edges(*final(graph)).len() == same_day_pairs(graph_nodes(*final(graph))),
{
    let ghost nodes = graph_nodes(*graph);
    let ghost lists = member_lists(groups@);
    let mut gi: usize = 0;
    proof {
        assert(lists.take(0) =~= Seq::<Seq<usize>>::empty());
    }
    while gi < groups.len()
        invariant
            gi <= groups@.len(),
            lists == member_lists(groups@),
            nodes == graph_nodes(*graph),
            nodes.len() <= MAX_INDEX,
            is_grouping(nodes, days, lists),
            group_pairs(lists) <= MAX_INDEX,
            graph_edges(*graph).len() == group_pairs(lists.take(gi as int)),
            edges_within(graph_edges(*graph), nodes.len()),
            forall|e: int|
                0 <= e < graph_edges(*graph).len() ==> (#[trigger] graph_edges(*graph)[e]).0
                    != graph_edges(*graph)[e].1,
            forall|e1: int, e2: int|
                0 <= e1 < e2 < graph_edges(*graph).len() ==> !joins(
                    #[trigger] graph_edges(*graph)[e2],
                    (#[trigger] graph_edges(*graph)[e1]).0,
                    graph_edges(*graph)[e1].1,
                ),
            forall|e: int|
                0 <= e < graph_edges(*graph).len() ==> edge_in_days(
                    nodes,
                    days,
                    #[trigger] graph_edges(*graph)[e],
                    gi as int,
                ),
            forall|g: int, x: int, y: int|
                0 <= g < gi && 0 <= x < y < lists[g].len() ==> adjacent(
                    graph_edges(*graph),
                    #[trigger] lists[g][x],
                    #[trigger] lists[g][y],
                ),
        decreases groups@.len() - gi,
    {
        let group = &groups[gi];
        let pairs = pair_combinations(group);
        let ghost base = graph_edges(*graph).len() as int;
        let ghost members = lists[gi as int];
        proof {
            assert(members == group@);
            lemma_group_pairs_take(lists, gi as int);
        }
        let mut t: usize = 0;
        while t < pairs.len()
            invariant
                gi < groups@.len(),
                t <= pairs@.len(),
                lists == member_lists(groups@),
                members == lists[gi as int],
                pairs@ == pair_seq(members),
                nodes == graph_nodes(*graph),
                nodes.len() <= MAX_INDEX,
                is_grouping(nodes, days, lists),
                0 <= base,
                base + pairs@.len() <= MAX_INDEX,
                graph_edges(*graph).len() == base + t,
                edges_within(graph_edges(*graph), nodes.len()),
                forall|e: int|
                    0 <= e < graph_edges(*graph).len() ==> (#[trigger] graph_edges(*graph)[e]).0
                        != graph_edges(*graph)[e].1,
                forall|e1: int, e2: int|
                    0 <= e1 < e2 < graph_edges(*graph).len() ==> !joins(
                        #[trigger] graph_edges(*graph)[e2],
                        (#[trigger] graph_edges(*graph)[e1]).0,
                        graph_edges(*graph)[e1].1,
                    ),
                forall|e: int|
                    0 <= e < base ==> edge_in_days(
                        nodes,
                        days,
                        #[trigger] graph_edges(*graph)[e],
                        gi as int,
                    ),
                forall|u: int| 0 <= u < t ==> #[trigger] graph_edges(*graph)[base + u] == pairs@[u],
                forall|g: int, x: int, y: int|
                    0 <= g < gi && 0 <= x < y < lists[g].len() ==> adjacent(
                        graph_edges(*graph),
                        #[trigger] lists[g][x],
                        #[trigger] lists[g][y],
                    ),
            decreases pairs@.len() - t,
        {
            let a = pairs[t].0;
            let b = pairs[t].1;
            let ghost edges = graph_edges(*graph);
            proof {
                lemma_pair_seq_sound(members, t as int);
                let (x, y) = choose|x: int, y: int|
                    0 <= x < y < members.len() && pair_seq(members)[t as int] == (
                        #[trigger] members[x],
                        #[trigger] members[y],
                    );
                assert(a == lists[gi as int][x] && b == lists[gi as int][y]);
                assert(a < b < nodes.len());
                assert(nodes[a as int].0 == days[gi as int] && nodes[b as int].0 == days[gi as int]);
                if adjacent(edges, a, b) {
                    let e = choose|e: int| 0 <= e < edges.len() && joins(#[trigger] edges[e], a, b);
                    if e < base {
                        assert(edge_in_days(nodes, days, edges[e], gi as int));
                    } else {
                        assert(edges[base + (e - base)] == pairs@[e - base]);
                        lemma_pair_seq_distinct(members, e - base, t as int);
                    }
                    assert(false);
                }
            }
            if !has_edge(graph, a, b) {
                add_edge(graph, a, b);
                proof {
                    let longer = graph_edges(*graph);
                    assert forall|g: int, x: int, y: int|
                        0 <= g < gi && 0 <= x < y < lists[g].len() implies adjacent(
                        longer,
                        #[trigger] lists[g][x],
                        #[trigger] lists[g][y],
                    ) by {
                        lemma_adjacent_push(edges, (a, b), lists[g][x], lists[g][y]);
                    }
                    assert forall|e1: int, e2: int| 0 <= e1 < e2 < longer.len() implies !joins(
                        #[trigger] longer[e2],
                        (#[trigger] longer[e1]).0,
                        longer[e1].1,
                    ) by {
                        if e2 == edges.len() {
                            assert(!joins(edges[e1], a, b));
                        }
                    }
                    assert forall|u: int| 0 <= u < t + 1 implies #[trigger] longer[base + u]
                        == pairs@[u] by {
                        if u < t {
                            assert(edges[base + u] == pairs@[u]);
                        }
                    }
                }
            }
            t += 1;
        }
        proof {
            let edges = graph_edges(*graph);
            assert forall|e: int| 0 <= e < edges.len() implies edge_in_days(
                nodes,
                days,
                #[trigger] edges[e],
                gi + 1,
            ) by {
                if e < base {
                    assert(edge_in_days(nodes, days, edges[e], gi as int));
                    let g = choose|g: int|
                        0 <= g < gi && nodes[edges[e].0 as int].0 == #[trigger] days[g]
                            && nodes[edges[e].1 as int].0 == days[g];
                    assert(days[g] == days[g]);
                } else {
                    assert(edges[base + (e - base)] == pairs@[e - base]);
                    lemma_pair_seq_sound(members, e - base);
                    let (x, y) = choose|x: int, y: int|
                        0 <= x < y < members.len() && pair_seq(members)[e - base] == (
                            #[trigger] members[x],
                            #[trigger] members[y],
                        );
                    assert(edges[e].0 == lists[gi as int][x] && edges[e].1 == lists[gi as int][y]);
                    assert(nodes[edges[e].0 as int].0 == days[gi as int]);
                    assert(nodes[edges[e].1 as int].0 == days[gi as int]);
                }
            }
            assert forall|g: int, x: int, y: int|
                0 <= g < gi + 1 && 0 <= x < y < lists[g].len() implies adjacent(
                edges,
                #[trigger] lists[g][x],
                #[trigger] lists[g][y],
            ) by {
                if g == gi {
                    lemma_pair_seq_complete(members, x, y);
                    let u = choose|u: int|
                        0 <= u < pair_seq(members).len() && pair_seq(members)[u] == (
                            members[x],
                            members[y],
                        );
                    assert(edges[base + u] == pairs@[u]);
                    assert(joins(edges[base + u], members[x], members[y]));
                }
            }
        }
        gi += 1;
    }
    proof {
        let edges = graph_edges(*graph);
        assert(lists.take(gi as int) =~= lists);
        assert forall|a: usize, b: usize|
            a < nodes.len() && b < nodes.len() && a != b implies (#[trigger] adjacent(edges, a, b)
            <==> nodes[a as int].0 == nodes[b as int].0) by {
            if adjacent(edges, a, b) {
                let e = choose|e: int| 0 <= e < edges.len() && joins(#[trigger] edges[e], a, b);
                assert(edge_in_days(nodes, days, edges[e], gi as int));
            }
            if nodes[a as int].0 == nodes[b as int].0 {
                assert(has_member(lists, a as int));
                assert(has_member(lists, b as int));
                let (g1, x1) = choose|g: int, x: int|
                    0 <= g < lists.len() && 0 <= x < lists[g].len() && #[trigger] lists[g][x] == a;
                let (g2, x2) = choose|g: int, x: int|
                    0 <= g < lists.len() && 0 <= x < lists[g].len() && #[trigger] lists[g][x] == b;
                assert(nodes[lists[g1][x1] as int].0 == days[g1]);
                assert(nodes[lists[g2][x2] as int].0 == days[g2]);
                assert(g1 == g2);
                if x1 < x2 {
                    assert(adjacent(edges, lists[g1][x1], lists[g1][x2]));
                } else {
                    assert(adjacent(edges, lists[g1][x2], lists[g1][x1]));
                    lemma_adjacent_symmetric(edges, a, b);
                }
            }
        }
    }
}

/// Builds the graph of the observations: a node for each distinct
/// (date, location), in order of first appearance, and an edge between every
/// two nodes of the same date. The order of the observations decides only
/// the numbering.
///
/// Fails only where petgraph's `u32` indices cannot number the nodes or the
/// edges.
pub fn build_graph(entries: &Vec<(Date, String)>) -> (r: Result<DayGraph, BuildError>)
    ensures
        match r {
            Ok(graph) => {
                &&& graph_nodes(graph) == first_seen(observations(entries@))
                &&& is_day_graph(graph_nodes(graph), graph_edges(graph))
                &&& graph_edges(graph).len() == same_day_pairs(graph_nodes(graph))
                &&& graph_nodes(graph).len() <= MAX_INDEX
                &&& graph_edges(graph).len() <= MAX_INDEX
            },
            Err(BuildError::TooManyNodes) => first_seen(observations(entries@)).len() > MAX_INDEX,
            Err(BuildError::TooManyEdges) => {
                &&& first_seen(observations(entries@)).len() <= MAX_INDEX
                &&& same_day_pairs(first_seen(observations(entries@))) > MAX_INDEX
            },
        },
{
    match collect_nodes(entries) {
        Err(e) => Err(e),
        Ok((mut graph, groups, days, wanted)) => {
            if wanted > MAX_INDEX as u64 {
                return Err(BuildError::TooManyEdges);
            }
            proof {
                lemma_first_seen(observations(entries@));
            }
            connect_groups(&mut graph, &groups, days);
            Ok(graph)
        },
    }
}

/// Whether an edge joins a node labelled `p` and a node labelled `q`.
pub open spec fn linked(
    nodes: Seq<(Date, Seq<char>)>,
    edges: Seq<(usize, usize)>,
    p: (Date, Seq<char>),
    q: (Date, Seq<char>),
) -> bool {
    exists|a: usize, b: usize|
        a < nodes.len() && b < nodes.len() && nodes[a as int] == p && nodes[b as int] == q
            && #[trigger] adjacent(edges, a, b)
}

/// In the graph of day-scoped co-occurrence, two labels are linked exactly
/// if they are different labels of nodes with the same date.
pub proof fn lemma_linked_by_date(
    nodes: Seq<(Date, Seq<char>)>,
    edges: Seq<(usize, usize)>,
    p: (Date, Seq<char>),
    q: (Date, Seq<char>),
)
    requires
        nodes.len() <= usize::MAX,
        is_day_graph(nodes, edges),
    ensures
        linked(nodes, edges, p, q) <==> nodes.contains(p) && nodes.contains(q) && p != q && p.0
            == q.0,
{
    if linked(nodes, edges, p, q) {
        let (a, b) = choose|a: usize, b: usize|
            a < nodes.len() && b < nodes.len() && nodes[a as int] == p && nodes[b as int] == q
                && #[trigger] adjacent(edges, a, b);
        let e = choose|e: int| 0 <= e < edges.len() && joins(#[trigger] edges[e], a, b);
        assert(a != b);
    }
    if nodes.contains(p) && nodes.contains(q) && p != q && p.0 == q.0 {
        let a = choose|a: int| 0 <= a < nodes.len() && nodes[a] == p;
        let b = choose|b: int| 0 <= b < nodes.len() && nodes[b] == q;
        assert(adjacent(edges, a as usize, b as usize));
    }
}

/// Taking one node away takes it out of the count of its date.
pub proof fn lemma_same_day_count_remove(nodes: Seq<(Date, Seq<char>)>, day: Date, i: int)
    requires
        0 <= i < nodes.len(),
    ensures
        same_day_count(nodes, day) == same_day_count(nodes.remove(i), day) + if nodes[i].0 == day {
            1nat
        } else {
            0nat
        },
    decreases nodes.len(),
{
    if i == nodes.len() - 1 {
        assert(nodes.remove(i) =~= nodes.drop_last());
    } else {
        lemma_same_day_count_remove(nodes.drop_last(), day, i);
        assert(nodes.remove(i).drop_last() =~= nodes.drop_last().remove(i));
        assert(nodes.remove(i).last() == nodes.last());
    }
}

/// Taking one node away takes away its pairs with the other nodes of its
/// date.
pub proof fn lemma_same_day_pairs_remove(nodes: Seq<(Date, Seq<char>)>, i: int)
    requires
        0 <= i < nodes.len(),
    ensures
        same_day_pairs(nodes) == same_day_pairs(nodes.remove(i)) + same_day_count(
            nodes.remove(i),
            nodes[i].0,
        ),
    decreases nodes.len(),
{
    if i == nodes.len() - 1 {
        assert(nodes.remove(i) =~= nodes.drop_last());
    } else {
        let init = nodes.drop_last();
        lemma_same_day_pairs_remove(init, i);
        lemma_same_day_count_remove(init, nodes.last().0, i);
        assert(nodes.remove(i).drop_last() =~= init.remove(i));
        assert(nodes.remove(i).last() == nodes.last());
    }
}

/// The number of same-day pairs does not depend on the order of the nodes.
pub proof fn lemma_same_day_pairs_ignore_order(
    first: Seq<(Date, Seq<char>)>,
    second: Seq<(Date, Seq<char>)>,
)
    requires
        first.to_multiset() == second.to_multiset(),
    ensures
        same_day_pairs(first) == same_day_pairs(second),
        forall|day: Date| same_day_count(first, day) == same_day_count(second, day),
    decreases first.len(),
{
    broadcast use vstd::seq_lib::group_to_multiset_ensures;

    assert(first.len() == first.to_multiset().len());
    assert(second.len() == second.to_multiset().len());
    if first.len() > 0 {
        let x = first.last();
        assert(first[first.len() - 1] == x);
        assert(first.contains(x));
        assert(first.to_multiset().count(x) > 0);
        assert(second.contains(x));
        let i = choose|i: int| 0 <= i < second.len() && second[i] == x;
        let one = first.drop_last();
        let two = second.remove(i);
        assert(one =~= first.remove(first.len() - 1));
        assert(one.to_multiset() =~= two.to_multiset());
        lemma_same_day_pairs_ignore_order(one, two);
        lemma_same_day_pairs_remove(second, i);
        assert forall|day: Date| same_day_count(first, day) == same_day_count(second, day) by {
            lemma_same_day_count_remove(second, day, i);
        }
    }
}

/// The order of the observations does not matter to the graph: two lists
/// that hold the same observations, each as often as the other, give graphs
/// with the same labels, as many nodes, as many same-day pairs (so that one
/// can be built exactly if the other can), and edges between the same labels.
/// Only the numbering of the nodes may differ.
pub proof fn lemma_build_ignores_order(
    first: Seq<(Date, Seq<char>)>,
    second: Seq<(Date, Seq<char>)>,
    first_edges: Seq<(usize, usize)>,
    second_edges: Seq<(usize, usize)>,
)
    requires
        first.to_multiset() == second.to_multiset(),
        first_seen(first).len() <= usize::MAX,
        first_seen(second).len() <= usize::MAX,
        is_day_graph(first_seen(first), first_edges),
        is_day_graph(first_seen(second), second_edges),
    ensures
        forall|p: (Date, Seq<char>)|
            first_seen(first).contains(p) <==> first_seen(second).contains(p),
        first_seen(first).len() == first_seen(second).len(),
        same_day_pairs(first_seen(first)) == same_day_pairs(first_seen(second)),
        forall|p: (Date, Seq<char>), q: (Date, Seq<char>)|
            linked(first_seen(first), first_edges, p, q) <==> linked(
                first_seen(second),
                second_edges,
                p,
                q,
            ),
{
    broadcast use vstd::seq_lib::group_to_multiset_ensures;

    let one = first_seen(first);
    let two = first_seen(second);
    lemma_first_seen(first);
    lemma_first_seen(second);
    assert forall|p: (Date, Seq<char>)| one.contains(p) <==> two.contains(p) by {
        assert(first.contains(p) <==> first.to_multiset().count(p) > 0);
        assert(second.contains(p) <==> second.to_multiset().count(p) > 0);
    }
    assert(one.to_set() =~= two.to_set());
    one.unique_seq_to_set();
    two.unique_seq_to_set();
    one.lemma_multiset_has_no_duplicates();
    two.lemma_multiset_has_no_duplicates();
    assert forall|p: (Date, Seq<char>)| one.to_multiset().count(p) == two.to_multiset().count(
        p,
    ) by {
        assert(one.contains(p) <==> one.to_multiset().count(p) > 0);
        assert(two.contains(p) <==> two.to_multiset().count(p) > 0);
    }
    assert(one.to_multiset() =~= two.to_multiset());
    lemma_same_day_pairs_ignore_order(one, two);
    assert forall|p: (Date, Seq<char>), q: (Date, Seq<char>)|
        linked(one, first_edges, p, q) <==> linked(two, second_edges, p, q) by {
        lemma_linked_by_date(one, first_edges, p, q);
        lemma_linked_by_date(two, second_edges, p, q);
    }
}

} // verus!
