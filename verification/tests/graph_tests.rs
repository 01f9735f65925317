use flight_routes::{AirportGraph, IdTable, Route};

fn route(from: &str, to: &str) -> Route {
    Route { departure_id: from.to_string(), destination_id: to.to_string() }
}

fn hops(distances: &IdTable<usize>, id: &str) -> Option<usize> {
    distances.get(id).cloned()
}

#[test]
fn test_calculate_switches() {
    let routes = vec![
        Route {
            departure_id: "A1".to_string(),
            destination_id: "A2".to_string(),
        },
        Route {
            departure_id: "A2".to_string(),
            destination_id: "A3".to_string(),
        },
        Route {
            departure_id: "A3".to_string(),
            destination_id: "A4".to_string(),
        },
        Route {
            departure_id: "A1".to_string(),
            destination_id: "A4".to_string(),
        },
    ];

    let graph = AirportGraph::new(routes);

    let distances = graph.calculate_switches("A1");

    assert_eq!(distances.get("A1").cloned().unwrap_or(usize::MAX), 0, "Distance from A1 to itself should be 0");
    assert_eq!(distances.get("A2").cloned().unwrap_or(usize::MAX), 1, "Distance from A1 to A2 should be 1");
    assert_eq!(distances.get("A3").cloned().unwrap_or(usize::MAX), 2, "Distance from A1 to A3 should be 2");
    assert_eq!(distances.get("A4").cloned().unwrap_or(usize::MAX), 1, "Distance from A1 to A4 should be 1 through the direct route");
}

#[test]
fn source_is_at_zero_hops_even_without_routes() {
    let graph = AirportGraph::new(Vec::new());
    let distances = graph.calculate_switches("LONE");
    assert_eq!(hops(&distances, "LONE"), Some(0));
    assert_eq!(distances.len(), 1);
}

#[test]
fn source_on_a_cycle_stays_at_zero() {
    let graph = AirportGraph::new(vec![route("A", "B"), route("B", "A"), route("A", "A")]);
    let distances = graph.calculate_switches("A");
    assert_eq!(hops(&distances, "A"), Some(0));
    assert_eq!(hops(&distances, "B"), Some(1));
    assert_eq!(distances.len(), 2);
}

#[test]
fn unreachable_airports_are_absent() {
    let graph = AirportGraph::new(vec![route("A", "B"), route("C", "D"), route("D", "A")]);
    let distances = graph.calculate_switches("A");
    assert_eq!(hops(&distances, "A"), Some(0));
    assert_eq!(hops(&distances, "B"), Some(1));
    assert_eq!(hops(&distances, "C"), None);
    assert_eq!(hops(&distances, "D"), None);
    assert_eq!(hops(&distances, "nowhere"), None);
    assert_eq!(distances.len(), 2);
}

#[test]
fn routes_are_followed_in_their_direction_only() {
    let graph = AirportGraph::new(vec![route("A", "B")]);
    let back = graph.calculate_switches("B");
    assert_eq!(hops(&back, "B"), Some(0));
    assert_eq!(hops(&back, "A"), None);
}

#[test]
fn repeated_routes_do_not_change_hops() {
    let graph = AirportGraph::new(vec![
        route("A", "B"),
        route("A", "B"),
        route("B", "C"),
        route("A", "B"),
    ]);
    let list = graph.adjacency_list.get("A").unwrap();
    assert_eq!(list, &vec!["B".to_string(), "B".to_string(), "B".to_string()]);
    let distances = graph.calculate_switches("A");
    assert_eq!(hops(&distances, "B"), Some(1));
    assert_eq!(hops(&distances, "C"), Some(2));
    assert_eq!(distances.len(), 3);
}

#[test]
fn each_search_is_independent() {
    let graph = AirportGraph::new(vec![route("A", "B"), route("B", "C")]);
    let from_a = graph.calculate_switches("A");
    let from_b = graph.calculate_switches("B");
    let again = graph.calculate_switches("A");
    assert_eq!(hops(&from_b, "A"), None);
    assert_eq!(hops(&from_b, "C"), Some(1));
    assert_eq!(hops(&from_a, "C"), Some(2));
    assert_eq!(hops(&again, "C"), Some(2));
}

#[test]
fn discovery_order_is_level_by_level() {
    let graph = AirportGraph::new(vec![
        route("S", "B"),
        route("S", "A"),
        route("B", "D"),
        route("A", "C"),
        route("D", "E"),
    ]);
    let distances = graph.calculate_switches("S");
    let order: Vec<String> = (0..distances.len()).map(|i| distances.id_at(i).clone()).collect();
    assert_eq!(order, vec!["S", "B", "A", "D", "C", "E"]);
    let levels: Vec<usize> = (0..distances.len()).map(|i| *distances.value_at(i)).collect();
    assert_eq!(levels, vec![0, 1, 1, 2, 2, 3]);
}

/// Hop counts by repeated relaxation over every route, as a second opinion.
fn relaxed_hops(routes: &[(usize, usize)], nodes: usize, source: usize) -> Vec<Option<usize>> {
    let mut best: Vec<Option<usize>> = vec![None; nodes];
    best[source] = Some(0);
    for _ in 0..nodes {
        for &(from, to) in routes {
            if let Some(d) = best[from] {
                if best[to].map_or(true, |known| d + 1 < known) {
                    best[to] = Some(d + 1);
                }
            }
        }
    }
    best
}

#[test]
fn hops_agree_with_relaxation_on_small_graphs() {
    let nodes: usize = 6;
    let mut seed: u64 = 0x2545_f491_4f6c_dd1d;
    for _ in 0..200 {
        let mut pairs: Vec<(usize, usize)> = Vec::new();
        let count = (seed % 12) as usize;
        for _ in 0..count {
            seed ^= seed << 13;
            seed ^= seed >> 7;
            seed ^= seed << 17;
            let from = (seed % nodes as u64) as usize;
            let to = ((seed >> 8) % nodes as u64) as usize;
            pairs.push((from, to));
        }
        seed ^= seed << 13;
        seed ^= seed >> 7;
        seed ^= seed << 17;
        let routes: Vec<Route> =
            pairs.iter().map(|&(f, t)| route(&format!("N{}", f), &format!("N{}", t))).collect();
        let graph = AirportGraph::new(routes);
        for source in 0..nodes {
            let expected = relaxed_hops(&pairs, nodes, source);
            let distances = graph.calculate_switches(&format!("N{}", source));
            for target in 0..nodes {
                assert_eq!(hops(&distances, &format!("N{}", target)), expected[target]);
            }
        }
    }
}

#[test]
fn directed_graph_lists_destinations_in_route_order() {
    let graph = AirportGraph::new(vec![
        route("A", "C"),
        route("B", "A"),
        route("A", "B"),
        route("A", "C"),
    ]);
    assert_eq!(graph.adjacency_list.len(), 2);
    assert_eq!(
        graph.adjacency_list.get("A").unwrap(),
        &vec!["C".to_string(), "B".to_string(), "C".to_string()]
    );
    assert_eq!(graph.adjacency_list.get("B").unwrap(), &vec!["A".to_string()]);
    assert!(graph.adjacency_list.get("C").is_none());
}

#[test]
fn mirrored_graph_lists_both_directions() {
    let routes = vec![route("A", "B"), route("C", "A"), route("D", "D")];
    let graph = AirportGraph::new_mirrored(&routes);
    assert_eq!(graph.adjacency_list.get("A").unwrap(), &vec!["B".to_string(), "C".to_string()]);
    assert_eq!(graph.adjacency_list.get("B").unwrap(), &vec!["A".to_string()]);
    assert_eq!(graph.adjacency_list.get("C").unwrap(), &vec!["A".to_string()]);
    assert_eq!(graph.adjacency_list.get("D").unwrap(), &vec!["D".to_string(), "D".to_string()]);
    let back = graph.calculate_switches("B");
    assert_eq!(hops(&back, "C"), Some(2));
    assert_eq!(hops(&back, "D"), None);
}

#[test]
fn no_routes_no_lists() {
    let graph = AirportGraph::new(Vec::new());
    assert_eq!(graph.adjacency_list.len(), 0);
    let mirrored = AirportGraph::new_mirrored(&[]);
    assert_eq!(mirrored.adjacency_list.len(), 0);
}

#[test]
fn table_keeps_first_position_on_replacement() {
    let mut table: IdTable<usize> = IdTable::new();
    table.insert("x".to_string(), 1);
    table.insert("y".to_string(), 2);
    table.insert("x".to_string(), 3);
    assert_eq!(table.len(), 2);
    assert_eq!(table.get("x"), Some(&3));
    assert_eq!(table.get("y"), Some(&2));
    assert_eq!(table.get("z"), None);
    assert_eq!(table.position("x"), Some(0));
    assert_eq!(table.position("y"), Some(1));
    assert_eq!(table.position("z"), None);
    assert_eq!(table.id_at(1), "y");
    *table.value_at_mut(1) += 5;
    assert_eq!(table.value_at(1), &7);
}
