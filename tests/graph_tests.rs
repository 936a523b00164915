use transit_graph::{
    cluster_neighborhoods, connections_from_trips, Connection, GTFSData, Stop, TransitGraph,
};

const DEG: i32 = 10_000_000;

fn stop(id: &str, lat: i32, lon: i32) -> Stop {
    Stop { stop_id: id.to_string(), name: format!("Stop {}", id), lat, lon }
}

fn trip(entries: &[(u32, &str)]) -> Vec<(u32, String)> {
    entries.iter().map(|(s, id)| (*s, id.to_string())).collect()
}

fn graph_of(stops: Vec<Stop>, trips: Vec<Vec<(u32, String)>>) -> TransitGraph {
    let connections = connections_from_trips(&trips);
    let data = GTFSData { stops, connections };
    let mut g = TransitGraph::new();
    g.build_from_gtfs(&data);
    g
}

fn index_of(g: &TransitGraph, id: &str) -> usize {
    g.nodes().iter().position(|s| s.stop_id == id).expect("stop present")
}

fn has_edge(g: &TransitGraph, a: &str, b: &str) -> bool {
    let (u, v) = (index_of(g, a), index_of(g, b));
    g.neighbors(u).contains(&v)
}

fn abc() -> Vec<Stop> {
    vec![stop("A", 0, 0), stop("B", DEG, 0), stop("C", 2 * DEG, 0)]
}

fn edge_set(g: &TransitGraph) -> Vec<(String, String)> {
    let mut out = Vec::new();
    for (u, s) in g.nodes().iter().enumerate() {
        for &v in g.neighbors(u) {
            out.push((s.stop_id.clone(), g.nodes()[v].stop_id.clone()));
        }
    }
    out.sort();
    out
}

#[test]
fn in_order_trip_gives_consecutive_edges_only() {
    let g = graph_of(abc(), vec![trip(&[(1, "A"), (2, "B"), (3, "C")])]);
    assert!(has_edge(&g, "A", "B"));
    assert!(has_edge(&g, "B", "C"));
    assert!(!has_edge(&g, "A", "C"));
    assert!(!has_edge(&g, "B", "A"));
    assert!(g.neighbors(index_of(&g, "C")).is_empty());
}

#[test]
fn out_of_order_trip_gives_same_edges() {
    let sorted = graph_of(abc(), vec![trip(&[(1, "A"), (2, "B"), (3, "C")])]);
    let shuffled = graph_of(abc(), vec![trip(&[(3, "C"), (1, "A"), (2, "B")])]);
    assert_eq!(edge_set(&sorted), edge_set(&shuffled));
    assert_eq!(
        edge_set(&shuffled),
        vec![("A".to_string(), "B".to_string()), ("B".to_string(), "C".to_string())]
    );
}

#[test]
fn equal_sequence_numbers_keep_input_order() {
    let conns = connections_from_trips(&vec![trip(&[(5, "B"), (1, "A"), (5, "C")])]);
    let pairs: Vec<(String, String)> =
        conns.iter().map(|c| (c.from_stop_id.clone(), c.to_stop_id.clone())).collect();
    assert_eq!(pairs.len(), 2);
    assert!(pairs.contains(&("A".to_string(), "B".to_string())));
    assert!(pairs.contains(&("B".to_string(), "C".to_string())));
}

#[test]
fn short_trips_contribute_no_connections() {
    let conns = connections_from_trips(&vec![trip(&[]), trip(&[(1, "A")])]);
    assert!(conns.is_empty());
}

#[test]
fn repeated_hops_coalesce_into_one_edge() {
    let g = graph_of(
        abc(),
        vec![trip(&[(1, "A"), (2, "B")]), trip(&[(7, "A"), (9, "B")]), trip(&[(1, "A"), (2, "B")])],
    );
    assert_eq!(g.neighbors(index_of(&g, "A")).len(), 1);
}

#[test]
fn connections_to_unknown_stops_are_dropped() {
    let data = GTFSData {
        stops: abc(),
        connections: vec![
            Connection { from_stop_id: "A".to_string(), to_stop_id: "Z".to_string() },
            Connection { from_stop_id: "Z".to_string(), to_stop_id: "B".to_string() },
            Connection { from_stop_id: "B".to_string(), to_stop_id: "C".to_string() },
        ],
    };
    let mut g = TransitGraph::new();
    g.build_from_gtfs(&data);
    assert_eq!(g.nodes().len(), 3);
    assert!(g.neighbors(index_of(&g, "A")).is_empty());
    assert!(has_edge(&g, "B", "C"));
}

#[test]
fn adjacency_refers_only_to_known_nodes() {
    let g = graph_of(
        abc(),
        vec![trip(&[(1, "A"), (2, "Q"), (3, "B"), (4, "C"), (5, "A")]), trip(&[(1, "C"), (2, "B")])],
    );
    for u in 0..g.nodes().len() {
        for &v in g.neighbors(u) {
            assert!(v < g.nodes().len());
        }
    }
}

#[test]
fn duplicate_stop_identifier_keeps_the_last() {
    let stops = vec![stop("A", 0, 0), stop("B", 5, 5), stop("A", 7, 9)];
    let g = graph_of(stops, vec![]);
    assert_eq!(g.nodes().len(), 2);
    let a = &g.nodes()[index_of(&g, "A")];
    assert_eq!((a.lat, a.lon), (7, 9));
}

#[test]
fn line_graph_centrality() {
    let g = graph_of(abc(), vec![trip(&[(1, "A"), (2, "B"), (3, "C")])]);
    let scores = g.compute_closeness_centrality();
    assert_eq!(scores.len(), 2);
    let a = scores.iter().find(|e| e.stop_id == "A").unwrap();
    assert_eq!((a.reached, a.distance_sum), (2, 3));
    assert!((a.reached as f64 / a.distance_sum as f64 - 2.0 / 3.0).abs() < 1e-12);
    let b = scores.iter().find(|e| e.stop_id == "B").unwrap();
    assert_eq!((b.reached, b.distance_sum), (1, 1));
    assert!(scores.iter().all(|e| e.stop_id != "C"));
}

#[test]
fn isolated_and_sink_nodes_have_no_centrality() {
    let stops = vec![stop("A", 0, 0), stop("B", 1, 1), stop("D", 3, 3)];
    let g = graph_of(stops, vec![trip(&[(1, "A"), (2, "B")])]);
    let scores = g.compute_closeness_centrality();
    let ids: Vec<&str> = scores.iter().map(|e| e.stop_id.as_str()).collect();
    assert_eq!(ids, vec!["A"]);
}

#[test]
fn cycle_centrality_counts_each_node_once() {
    let g = graph_of(abc(), vec![trip(&[(1, "A"), (2, "B"), (3, "C"), (4, "A")])]);
    let scores = g.compute_closeness_centrality();
    assert_eq!(scores.len(), 3);
    for e in &scores {
        assert_eq!((e.reached, e.distance_sum), (2, 3));
    }
}

#[test]
fn centrality_is_repeatable() {
    let g = graph_of(
        abc(),
        vec![trip(&[(1, "A"), (2, "B"), (3, "C")]), trip(&[(1, "C"), (2, "A")])],
    );
    let first = g.compute_closeness_centrality();
    let second = g.compute_closeness_centrality();
    assert_eq!(first.len(), second.len());
    for (x, y) in first.iter().zip(second.iter()) {
        assert_eq!(x.stop_id, y.stop_id);
        assert_eq!((x.reached, x.distance_sum), (y.reached, y.distance_sum));
        assert_eq!(
            (x.reached as f64 / x.distance_sum as f64).to_bits(),
            (y.reached as f64 / y.distance_sum as f64).to_bits()
        );
    }
}

#[test]
fn closest_stop_by_planar_distance() {
    let g = graph_of(vec![stop("far", 10 * DEG, 10 * DEG), stop("near", 0, 0)], vec![]);
    let (id, d2) = g.find_closest_stop(DEG, DEG).unwrap();
    assert_eq!(id, "near");
    assert_eq!(d2, 2 * (DEG as u128) * (DEG as u128));
    let degrees = (d2 as f64).sqrt() / DEG as f64;
    assert!((degrees - 1.4142).abs() < 1e-4);
}

#[test]
fn closest_stop_on_empty_graph_is_none() {
    let g = TransitGraph::new();
    assert!(g.find_closest_stop(0, 0).is_none());
}

#[test]
fn closest_stop_tie_keeps_first_in_table() {
    let g = graph_of(vec![stop("west", 0, -DEG), stop("east", 0, DEG)], vec![]);
    let (id, _) = g.find_closest_stop(0, 0).unwrap();
    assert_eq!(id, g.nodes()[0].stop_id);
}

#[test]
fn closest_stop_with_extreme_coordinates() {
    let g = graph_of(vec![stop("min", i32::MIN, i32::MIN), stop("max", i32::MAX, i32::MAX)], vec![]);
    let (id, d2) = g.find_closest_stop(i32::MAX, i32::MIN).unwrap();
    let diff = (i32::MAX as i128 - i32::MIN as i128) as u128;
    assert_eq!(d2, diff * diff);
    assert_eq!(id, g.nodes()[0].stop_id);
}

#[test]
fn areas_are_assigned_to_nearest_stops() {
    let g = graph_of(vec![stop("S1", 0, 0), stop("S2", 10 * DEG, 10 * DEG)], vec![]);
    let census = vec![
        ("T1".to_string(), "Tract one".to_string(), DEG, DEG),
        ("T2".to_string(), "Tract two".to_string(), 9 * DEG, 9 * DEG),
    ];
    let rows = cluster_neighborhoods(&g, &census);
    assert_eq!(
        rows,
        vec![
            ("T1".to_string(), "Tract one".to_string(), "S1".to_string()),
            ("T2".to_string(), "Tract two".to_string(), "S2".to_string()),
        ]
    );
}

#[test]
fn areas_on_empty_graph_are_omitted() {
    let g = TransitGraph::new();
    let census = vec![("T1".to_string(), "Tract one".to_string(), 0, 0)];
    assert!(cluster_neighborhoods(&g, &census).is_empty());
}

#[test]
fn test_build_graph_and_neighbors() {
    let g = graph_of(
        abc(),
        vec![trip(&[(1, "A"), (2, "B"), (3, "C")]), trip(&[(1, "C"), (2, "A")])],
    );
    assert!(!g.nodes().is_empty(), "Graph nodes are empty");
    assert!((0..g.nodes().len()).any(|u| !g.neighbors(u).is_empty()), "Graph edges are empty");
    let sample = index_of(&g, "A");
    assert!(g.neighbors(sample).len() > 0, "No neighbors found for sample stop");
}

#[test]
fn test_centrality_runs() {
    let g = graph_of(abc(), vec![trip(&[(1, "A"), (2, "B"), (3, "C")])]);
    g.compute_closeness_centrality();
}

#[test]
fn ranking_by_closeness_is_highest_first() {
    let g = graph_of(abc(), vec![trip(&[(1, "A"), (2, "B"), (3, "C")])]);
    let scores = g.compute_closeness_centrality();
    let top = transit_graph::rank_by_closeness(&scores, 5);
    let ids: Vec<&str> = top.iter().map(|&k| scores[k].stop_id.as_str()).collect();
    assert_eq!(ids, vec!["B", "A"]);
    assert_eq!(transit_graph::rank_by_closeness(&scores, 1).len(), 1);
}

#[test]
fn tally_counts_rows_per_stop() {
    let rows = vec![
        ("T1".to_string(), "a".to_string(), "S1".to_string()),
        ("T2".to_string(), "b".to_string(), "S2".to_string()),
        ("T3".to_string(), "c".to_string(), "S2".to_string()),
    ];
    let t = transit_graph::tally_assignments(&rows);
    assert_eq!(t, vec![("S1".to_string(), 1), ("S2".to_string(), 2)]);
    let top = transit_graph::rank_by_count(&t, 5);
    assert_eq!(top, vec![1, 0]);
}
