use cooccur_graph::builder::{build_graph, BuildError};
use cooccur_graph::date::{Date, DateError};
use cooccur_graph::distance::bfs_distances;
use cooccur_graph::metrics::{
    avg_shortest_path, closeness_centrality, closeness_ranking, component_count,
    degree_distribution, PathAverage, Score,
};
use cooccur_graph::store::DayGraph;
use petgraph::graph::NodeIndex;
use std::collections::HashMap;

fn day(year: i32, month: u32, day: u32) -> Date {
    Date::from_ymd_opt(year, month, day).expect("valid date")
}

fn entry(date: Date, place: &str) -> (Date, String) {
    (date, place.to_string())
}

/// A–B–C on one date, built by hand.
fn chain() -> (DayGraph, NodeIndex, NodeIndex, NodeIndex) {
    let mut g: DayGraph = DayGraph::new_undirected();
    let date = day(2025, 1, 1);
    let a = g.add_node((date, "A".to_string()));
    let b = g.add_node((date, "B".to_string()));
    let c = g.add_node((date, "C".to_string()));
    g.add_edge(a, b, ());
    g.add_edge(b, c, ());
    (g, a, b, c)
}

fn label_of(g: &DayGraph, node: usize) -> (Date, String) {
    g[NodeIndex::new(node)].clone()
}

fn find(g: &DayGraph, date: Date, place: &str) -> Option<usize> {
    g.node_indices().find(|i| g[*i].0 == date && g[*i].1 == place).map(|i| i.index())
}

#[test]
fn test_bfs_chain() {
    let mut g: DayGraph = DayGraph::new_undirected();
    let date = Date::from_ymd_opt(2025, 1, 1).expect("valid date");
    let a = g.add_node((date, "A".to_string()));
    let b = g.add_node((date, "B".to_string()));
    let c = g.add_node((date, "C".to_string()));
    g.add_edge(a, b, ());
    g.add_edge(b, c, ());
    let dist = bfs_distances(&g, a.index());
    assert_eq!(dist.get(&a.index()), Some(&0));
    assert_eq!(dist.get(&b.index()), Some(&1));
    assert_eq!(dist.get(&c.index()), Some(&2));
}

#[test]
fn test_degree_distribution_triangle() {
    let mut g: DayGraph = DayGraph::new_undirected();
    let date = Date::from_ymd_opt(2025, 1, 1).expect("valid date");
    let a = g.add_node((date, "A".to_string()));
    let b = g.add_node((date, "B".to_string()));
    let c = g.add_node((date, "C".to_string()));
    g.add_edge(a, b, ());
    g.add_edge(b, c, ());
    g.add_edge(c, a, ());
    let deg = degree_distribution(&g);
    assert_eq!(deg.get(&2), Some(&3));
}

#[test]
fn test_component_count_isolated() {
    let mut g: DayGraph = DayGraph::new_undirected();
    let date = Date::from_ymd_opt(2025, 1, 1).expect("valid date");
    g.add_node((date, "X".to_string()));
    g.add_node((date, "Y".to_string()));
    assert_eq!(component_count(&g), 2);
}

#[test]
fn test_build_graph_tiny() {
    let rows = [("2025-04-01", "A"), ("2025-04-01", "B"), ("2025-04-02", "A")];
    let mut entries = Vec::new();
    for (day, area) in rows {
        entries.push((Date::parse(day).unwrap(), area.to_string()));
    }
    let graph: DayGraph = build_graph(&entries).unwrap();
    assert_eq!(graph.node_count(), 3);
    assert_eq!(graph.edge_count(), 1);
}

#[test]
fn bfs_chain_holds_no_other_node() {
    let (mut g, a, b, c) = chain();
    let d = g.add_node((day(2025, 1, 1), "D".to_string()));
    let dist = bfs_distances(&g, a.index());
    let mut expected = HashMap::new();
    expected.insert(a.index(), 0);
    expected.insert(b.index(), 1);
    expected.insert(c.index(), 2);
    assert_eq!(dist, expected);
    assert_eq!(dist.get(&d.index()), None);
}

#[test]
fn bfs_from_the_middle_and_the_end() {
    let (g, a, b, c) = chain();
    let from_b = bfs_distances(&g, b.index());
    assert_eq!(from_b.get(&a.index()), Some(&1));
    assert_eq!(from_b.get(&b.index()), Some(&0));
    assert_eq!(from_b.get(&c.index()), Some(&1));
    let from_c = bfs_distances(&g, c.index());
    assert_eq!(from_c.get(&a.index()), Some(&2));
    assert_eq!(from_c.len(), 3);
}

#[test]
fn bfs_takes_the_shorter_way_round_a_cycle() {
    let mut g: DayGraph = DayGraph::new_undirected();
    let date = day(2025, 1, 1);
    let nodes: Vec<NodeIndex> =
        (0..5).map(|i| g.add_node((date, format!("N{}", i)))).collect();
    for i in 0..5 {
        g.add_edge(nodes[i], nodes[(i + 1) % 5], ());
    }
    let dist = bfs_distances(&g, nodes[0].index());
    assert_eq!(dist.get(&nodes[1].index()), Some(&1));
    assert_eq!(dist.get(&nodes[2].index()), Some(&2));
    assert_eq!(dist.get(&nodes[3].index()), Some(&2));
    assert_eq!(dist.get(&nodes[4].index()), Some(&1));
}

#[test]
fn bfs_from_a_missing_node_reaches_itself_alone() {
    let (g, _, _, _) = chain();
    let dist = bfs_distances(&g, 17);
    assert_eq!(dist.len(), 1);
    assert_eq!(dist.get(&17), Some(&0));
    let empty: DayGraph = DayGraph::new_undirected();
    let dist = bfs_distances(&empty, 0);
    assert_eq!(dist.len(), 1);
    assert_eq!(dist.get(&0), Some(&0));
}

#[test]
fn bfs_survives_parallel_edges_and_loops() {
    let mut g: DayGraph = DayGraph::new_undirected();
    let date = day(2025, 1, 1);
    let a = g.add_node((date, "A".to_string()));
    let b = g.add_node((date, "B".to_string()));
    g.add_edge(a, a, ());
    g.add_edge(a, b, ());
    g.add_edge(b, a, ());
    let dist = bfs_distances(&g, a.index());
    assert_eq!(dist.len(), 2);
    assert_eq!(dist.get(&b.index()), Some(&1));
}

#[test]
fn degrees_add_up_to_twice_the_edges() {
    let entries = vec![
        entry(day(2025, 4, 1), "A"),
        entry(day(2025, 4, 1), "B"),
        entry(day(2025, 4, 1), "C"),
        entry(day(2025, 4, 1), "D"),
        entry(day(2025, 4, 2), "A"),
        entry(day(2025, 4, 2), "B"),
        entry(day(2025, 4, 3), "A"),
    ];
    let g = build_graph(&entries).unwrap();
    assert_eq!(g.node_count(), 7);
    assert_eq!(g.edge_count(), 7);
    let deg = degree_distribution(&g);
    let sum: usize = deg.iter().map(|(d, count)| d * count).sum();
    assert_eq!(sum, 2 * g.edge_count());
    let mut expected = HashMap::new();
    expected.insert(3, 4);
    expected.insert(1, 2);
    expected.insert(0, 1);
    assert_eq!(deg, expected);
}

#[test]
fn degree_distribution_of_the_empty_graph_is_empty() {
    let g: DayGraph = DayGraph::new_undirected();
    assert!(degree_distribution(&g).is_empty());
}

#[test]
fn degree_counts_a_loop_once_and_a_parallel_edge_twice() {
    let mut g: DayGraph = DayGraph::new_undirected();
    let date = day(2025, 1, 1);
    let a = g.add_node((date, "A".to_string()));
    let b = g.add_node((date, "B".to_string()));
    let c = g.add_node((date, "C".to_string()));
    g.add_edge(a, a, ());
    g.add_edge(b, c, ());
    g.add_edge(c, b, ());
    let deg = degree_distribution(&g);
    let mut expected = HashMap::new();
    expected.insert(1, 1);
    expected.insert(2, 2);
    assert_eq!(deg, expected);
}

#[test]
fn a_date_group_of_three_is_a_triangle() {
    let date = day(2025, 4, 1);
    let entries = vec![entry(date, "A"), entry(date, "B"), entry(date, "C")];
    let g = build_graph(&entries).unwrap();
    assert_eq!(g.node_count(), 3);
    assert_eq!(g.edge_count(), 3);
    for i in 0..3 {
        assert_eq!(g.neighbors(NodeIndex::new(i)).count(), 2);
    }
    let deg = degree_distribution(&g);
    let mut expected = HashMap::new();
    expected.insert(2, 3);
    assert_eq!(deg, expected);
    assert_eq!(component_count(&g), 1);
}

#[test]
fn different_dates_give_separate_components() {
    let entries = vec![entry(day(2025, 4, 1), "A"), entry(day(2025, 4, 2), "B")];
    let g = build_graph(&entries).unwrap();
    assert_eq!(g.node_count(), 2);
    assert_eq!(g.edge_count(), 0);
    assert_eq!(component_count(&g), 2);
    for start in 0..2 {
        let dist = bfs_distances(&g, start);
        assert_eq!(dist.len(), 1);
        assert_eq!(dist.get(&start), Some(&0));
    }
}

#[test]
fn the_same_place_on_another_day_is_another_node() {
    let entries = vec![
        entry(day(2025, 4, 1), "A"),
        entry(day(2025, 4, 1), "B"),
        entry(day(2025, 4, 2), "A"),
    ];
    let g = build_graph(&entries).unwrap();
    assert_eq!(g.node_count(), 3);
    assert_eq!(g.edge_count(), 1);
    let a1 = find(&g, day(2025, 4, 1), "A").unwrap();
    let b1 = find(&g, day(2025, 4, 1), "B").unwrap();
    let a2 = find(&g, day(2025, 4, 2), "A").unwrap();
    assert!(g.find_edge(NodeIndex::new(a1), NodeIndex::new(b1)).is_some());
    assert_eq!(g.neighbors(NodeIndex::new(a2)).count(), 0);
}

#[test]
fn nodes_are_numbered_by_first_appearance() {
    let entries = vec![
        entry(day(2025, 4, 2), "B"),
        entry(day(2025, 4, 1), "A"),
        entry(day(2025, 4, 2), "B"),
        entry(day(2025, 4, 2), "A"),
        entry(day(2025, 4, 1), "A"),
    ];
    let g = build_graph(&entries).unwrap();
    assert_eq!(g.node_count(), 3);
    assert_eq!(label_of(&g, 0), entry(day(2025, 4, 2), "B"));
    assert_eq!(label_of(&g, 1), entry(day(2025, 4, 1), "A"));
    assert_eq!(label_of(&g, 2), entry(day(2025, 4, 2), "A"));
    assert_eq!(g.edge_count(), 1);
    assert!(g.find_edge(NodeIndex::new(0), NodeIndex::new(2)).is_some());
}

#[test]
fn repeated_observations_give_no_parallel_edges() {
    let date = day(2025, 4, 1);
    let entries = vec![
        entry(date, "A"),
        entry(date, "B"),
        entry(date, "A"),
        entry(date, "B"),
        entry(date, "B"),
    ];
    let g = build_graph(&entries).unwrap();
    assert_eq!(g.node_count(), 2);
    assert_eq!(g.edge_count(), 1);
}

#[test]
fn no_observations_give_the_empty_graph() {
    let g = build_graph(&Vec::new()).unwrap();
    assert_eq!(g.node_count(), 0);
    assert_eq!(g.edge_count(), 0);
    assert!(degree_distribution(&g).is_empty());
    assert_eq!(avg_shortest_path(&g), None);
    assert!(closeness_centrality(&g, 5).is_empty());
    assert_eq!(component_count(&g), 0);
}

#[test]
fn a_single_observation_gives_no_edge() {
    let g = build_graph(&vec![entry(day(2025, 4, 1), "A")]).unwrap();
    assert_eq!(g.node_count(), 1);
    assert_eq!(g.edge_count(), 0);
    assert_eq!(component_count(&g), 1);
}

#[test]
fn every_edge_joins_nodes_of_one_date() {
    let mut entries = Vec::new();
    for d in 1..=4 {
        for place in ["N", "S", "E", "W", "C"] {
            if (d + place.len() as u32) % 4 != 0 {
                entries.push(entry(day(2025, 3, d), place));
            }
            entries.push(entry(day(2025, 3, d), "Hub"));
        }
    }
    let g = build_graph(&entries).unwrap();
    for e in g.edge_indices() {
        let (a, b) = g.edge_endpoints(e).unwrap();
        assert_ne!(a, b);
        assert_eq!(g[a].0, g[b].0);
    }
    for a in g.node_indices() {
        for b in g.node_indices() {
            if a != b {
                assert_eq!(g.find_edge(a, b).is_some(), g[a].0 == g[b].0);
            }
        }
    }
    assert_eq!(component_count(&g), 4);
}

fn labels(g: &DayGraph) -> Vec<(i32, u32, u32, String)> {
    let mut all: Vec<(i32, u32, u32, String)> = g
        .node_indices()
        .map(|i| {
            let (d, place) = &g[i];
            (d.year_number(), d.month_number(), d.day_number(), place.clone())
        })
        .collect();
    all.sort();
    all
}

fn links(g: &DayGraph) -> Vec<((i32, u32, u32, String), (i32, u32, u32, String))> {
    let key = |i: NodeIndex| {
        let (d, place) = &g[i];
        (d.year_number(), d.month_number(), d.day_number(), place.clone())
    };
    let mut all = Vec::new();
    for e in g.edge_indices() {
        let (a, b) = g.edge_endpoints(e).unwrap();
        let (p, q) = (key(a), key(b));
        all.push(if p <= q { (p, q) } else { (q, p) });
    }
    all.sort();
    all
}

#[test]
fn the_order_of_the_observations_does_not_matter() {
    let entries = vec![
        entry(day(2025, 4, 1), "A"),
        entry(day(2025, 4, 1), "B"),
        entry(day(2025, 4, 2), "A"),
        entry(day(2025, 4, 1), "C"),
        entry(day(2025, 4, 2), "C"),
        entry(day(2025, 4, 3), "B"),
    ];
    let g = build_graph(&entries).unwrap();
    let mut turned = entries.clone();
    turned.reverse();
    let h = build_graph(&turned).unwrap();
    let mut rotated = entries.clone();
    rotated.rotate_left(2);
    let k = build_graph(&rotated).unwrap();
    assert_eq!(labels(&g), labels(&h));
    assert_eq!(links(&g), links(&h));
    assert_eq!(labels(&g), labels(&k));
    assert_eq!(links(&g), links(&k));
    assert_eq!(links(&g).len(), 4);
}

#[test]
fn build_errors_are_told_apart() {
    assert_ne!(BuildError::TooManyNodes, BuildError::TooManyEdges);
}

#[test]
fn average_path_of_the_chain() {
    let (g, _, _, _) = chain();
    assert_eq!(avg_shortest_path(&g), Some(PathAverage { total: 8, pairs: 9 }));
}

#[test]
fn average_path_counts_reachable_pairs_only() {
    let (mut g, _, _, _) = chain();
    g.add_node((day(2025, 1, 2), "D".to_string()));
    assert_eq!(avg_shortest_path(&g), Some(PathAverage { total: 8, pairs: 10 }));
}

#[test]
fn average_path_is_undefined_below_two_nodes() {
    let mut g: DayGraph = DayGraph::new_undirected();
    assert_eq!(avg_shortest_path(&g), None);
    g.add_node((day(2025, 1, 1), "A".to_string()));
    assert_eq!(avg_shortest_path(&g), None);
    g.add_node((day(2025, 1, 1), "B".to_string()));
    assert_eq!(avg_shortest_path(&g), Some(PathAverage { total: 0, pairs: 2 }));
}

#[test]
fn closeness_of_the_chain() {
    let (g, a, b, c) = chain();
    let ranked = closeness_ranking(&g, 5);
    assert_eq!(
        ranked,
        vec![
            (b.index(), Score { numerator: 2, denominator: 2 }),
            (a.index(), Score { numerator: 2, denominator: 3 }),
            (c.index(), Score { numerator: 2, denominator: 3 }),
        ]
    );
    let top = closeness_centrality(&g, 2);
    assert_eq!(
        top,
        vec![
            (("2025-01-01".to_string(), "B".to_string()), Score { numerator: 2, denominator: 2 }),
            (("2025-01-01".to_string(), "A".to_string()), Score { numerator: 2, denominator: 3 }),
        ]
    );
}

#[test]
fn closeness_of_an_isolated_node_is_zero() {
    let (mut g, _, b, _) = chain();
    let d = g.add_node((day(2025, 1, 2), "D".to_string()));
    let ranked = closeness_ranking(&g, 10);
    assert_eq!(ranked.len(), 4);
    assert_eq!(ranked[0], (b.index(), Score { numerator: 3, denominator: 2 }));
    assert_eq!(ranked[3], (d.index(), Score { numerator: 0, denominator: 1 }));
    let score = ranked[3].1;
    assert_eq!(score.numerator as f64 / score.denominator as f64, 0.0);
}

#[test]
fn closeness_of_a_single_node_is_zero() {
    let mut g: DayGraph = DayGraph::new_undirected();
    g.add_node((day(2025, 1, 1), "A".to_string()));
    assert_eq!(closeness_ranking(&g, 1), vec![(0, Score { numerator: 0, denominator: 1 })]);
    assert_eq!(
        closeness_centrality(&g, 3),
        vec![(("2025-01-01".to_string(), "A".to_string()), Score { numerator: 0, denominator: 1 })]
    );
}

#[test]
fn closeness_ties_go_by_node_index() {
    let date = day(2025, 4, 1);
    let entries = vec![entry(date, "C"), entry(date, "A"), entry(date, "B")];
    let g = build_graph(&entries).unwrap();
    let top = closeness_centrality(&g, 3);
    let places: Vec<&str> = top.iter().map(|e| e.0 .1.as_str()).collect();
    assert_eq!(places, vec!["C", "A", "B"]);
    for e in &top {
        assert_eq!(e.1, Score { numerator: 2, denominator: 2 });
    }
}

#[test]
fn closeness_with_a_short_or_empty_request() {
    let (g, _, b, _) = chain();
    assert!(closeness_centrality(&g, 0).is_empty());
    let one = closeness_ranking(&g, 1);
    assert_eq!(one, vec![(b.index(), Score { numerator: 2, denominator: 2 })]);
    assert_eq!(closeness_centrality(&g, 100).len(), 3);
}

#[test]
fn closeness_ranks_a_star_centre_first() {
    let mut g: DayGraph = DayGraph::new_undirected();
    let date = day(2025, 1, 1);
    let leaves: Vec<NodeIndex> =
        (0..4).map(|i| g.add_node((date, format!("L{}", i)))).collect();
    let centre = g.add_node((date, "Centre".to_string()));
    for leaf in &leaves {
        g.add_edge(*leaf, centre, ());
    }
    let ranked = closeness_ranking(&g, 5);
    assert_eq!(ranked[0], (centre.index(), Score { numerator: 4, denominator: 4 }));
    for (i, leaf) in leaves.iter().enumerate() {
        assert_eq!(ranked[i + 1], (leaf.index(), Score { numerator: 4, denominator: 7 }));
    }
}

#[test]
fn metrics_give_the_same_answers_twice() {
    let entries = vec![
        entry(day(2025, 4, 1), "A"),
        entry(day(2025, 4, 1), "B"),
        entry(day(2025, 4, 1), "C"),
        entry(day(2025, 4, 2), "A"),
        entry(day(2025, 4, 2), "B"),
        entry(day(2025, 4, 3), "A"),
    ];
    let g = build_graph(&entries).unwrap();
    assert_eq!(degree_distribution(&g), degree_distribution(&g));
    assert_eq!(avg_shortest_path(&g), avg_shortest_path(&g));
    assert_eq!(closeness_centrality(&g, 4), closeness_centrality(&g, 4));
    assert_eq!(closeness_ranking(&g, 4), closeness_ranking(&g, 4));
    assert_eq!(component_count(&g), component_count(&g));
    assert_eq!(bfs_distances(&g, 0), bfs_distances(&g, 0));
    assert_eq!(avg_shortest_path(&g), Some(PathAverage { total: 8, pairs: 14 }));
    assert_eq!(component_count(&g), 3);
}

#[test]
fn components_of_a_mixed_graph() {
    let (mut g, a, _, _) = chain();
    let d = g.add_node((day(2025, 1, 2), "D".to_string()));
    let e = g.add_node((day(2025, 1, 2), "E".to_string()));
    g.add_node((day(2025, 1, 3), "F".to_string()));
    g.add_edge(d, e, ());
    assert_eq!(component_count(&g), 3);
    g.add_edge(e, a, ());
    assert_eq!(component_count(&g), 2);
}

#[test]
fn dates_exist_or_do_not() {
    assert!(Date::from_ymd_opt(2024, 2, 29).is_some());
    assert!(Date::from_ymd_opt(2025, 2, 29).is_none());
    assert!(Date::from_ymd_opt(2025, 4, 31).is_none());
    assert!(Date::from_ymd_opt(2025, 0, 1).is_none());
    assert!(Date::from_ymd_opt(2025, 13, 1).is_none());
    assert!(Date::from_ymd_opt(400000, 1, 1).is_none());
    let d = Date::from_ymd_opt(2025, 4, 1).unwrap();
    assert_eq!((d.year_number(), d.month_number(), d.day_number()), (2025, 4, 1));
}

#[test]
fn dates_are_written_as_chrono_writes_them() {
    assert_eq!(day(2025, 4, 1).to_string(), "2025-04-01");
    assert_eq!(day(2025, 12, 31).to_string(), "2025-12-31");
    assert_eq!(day(33, 1, 2).to_string(), "0033-01-02");
    assert_eq!(day(-1, 1, 1).to_string(), "-0001-01-01");
    assert_eq!(day(10000, 12, 31).to_string(), "+10000-12-31");
}

#[test]
fn dates_are_read_from_text() {
    assert_eq!(Date::parse("2025-04-01"), Ok(day(2025, 4, 1)));
    assert_eq!(Date::parse("2024-02-29"), Ok(day(2024, 2, 29)));
    assert_eq!(Date::parse("2025-4-1"), Ok(day(2025, 4, 1)));
    assert_eq!(Date::parse("2025-02-30"), Err(DateError::Unreadable));
    assert_eq!(Date::parse("01/04/2025"), Err(DateError::Unreadable));
    assert_eq!(Date::parse(""), Err(DateError::Unreadable));
    assert_eq!(Date::parse("2025-04-01 and more"), Err(DateError::Unreadable));
}

#[test]
fn date_keys_tell_dates_apart() {
    let days = [
        day(2025, 4, 1),
        day(2025, 4, 2),
        day(2025, 5, 1),
        day(2026, 4, 1),
        day(-2025, 4, 1),
        day(1, 1, 1),
    ];
    for (i, a) in days.iter().enumerate() {
        for (j, b) in days.iter().enumerate() {
            assert_eq!(a.key() == b.key(), i == j);
            assert_eq!(a == b, i == j);
        }
    }
}

#[test]
fn a_hundred_days_of_fifteen_places() {
    let mut entries = Vec::new();
    for round in 0..2 {
        for d in 0..100u32 {
            for p in 0..15 {
                let date = day(2025, 1 + d / 28, 1 + d % 28);
                entries.push((date, format!("Place {}", (p + round * 7) % 15)));
            }
        }
    }
    let g = build_graph(&entries).unwrap();
    assert_eq!(g.node_count(), 1500);
    assert_eq!(g.edge_count(), 100 * 105);
    assert_eq!(component_count(&g), 100);
    let mut expected = HashMap::new();
    expected.insert(14, 1500);
    assert_eq!(degree_distribution(&g), expected);
    assert_eq!(avg_shortest_path(&g), Some(PathAverage { total: 21000, pairs: 22500 }));
    let top = closeness_ranking(&g, 3);
    let score = Score { numerator: 1499, denominator: 14 };
    assert_eq!(top, vec![(0, score), (1, score), (2, score)]);
    let named = closeness_centrality(&g, 1);
    assert_eq!(named, vec![(("2025-01-01".to_string(), "Place 0".to_string()), score)]);
}
