use flight_routes::{
    calculate_degree2, degrees_fit, update_degrees, Airport, AirportGraph, AirportTable, IdTable,
    Route,
};

fn airport(id: &str, name: &str) -> Airport {
    Airport { name: name.to_string(), id: id.to_string(), degree: 0, degree2: 0 }
}

fn route(from: &str, to: &str) -> Route {
    Route { departure_id: from.to_string(), destination_id: to.to_string() }
}

fn four_airports() -> AirportTable {
    let mut airports = AirportTable::new();
    airports.insert(Airport { name: "Airport 1".to_string(), id: "A1".to_string(), degree: 0, degree2: 0 });
    airports.insert(Airport { name: "Airport 2".to_string(), id: "A2".to_string(), degree: 0, degree2: 0 });
    airports.insert(Airport { name: "Airport 3".to_string(), id: "A3".to_string(), degree: 0, degree2: 0 });
    airports.insert(Airport { name: "Airport 4".to_string(), id: "A4".to_string(), degree: 0, degree2: 0 });
    airports
}

fn four_lists() -> IdTable<Vec<String>> {
    let mut adjacency_list: IdTable<Vec<String>> = IdTable::new();
    adjacency_list.insert("A1".to_string(), vec!["A2".to_string(), "A3".to_string()]);
    adjacency_list.insert("A2".to_string(), vec!["A1".to_string(), "A3".to_string(), "A4".to_string()]);
    adjacency_list.insert("A3".to_string(), vec!["A1".to_string(), "A2".to_string()]);
    adjacency_list.insert("A4".to_string(), vec!["A2".to_string()]);
    adjacency_list
}

#[test]
fn lib_test_calculate_degree2() {
    let mut airports = four_airports();
    let adjacency_list = four_lists();

    calculate_degree2(&mut airports, &adjacency_list);

    assert_eq!(airports.get("A1").unwrap().degree2, 1);
    assert_eq!(airports.get("A2").unwrap().degree2, 0);
    assert_eq!(airports.get("A3").unwrap().degree2, 1);
    assert_eq!(airports.get("A4").unwrap().degree2, 2);
}

#[test]
fn main_test_calculate_degree2() {
    let mut airports = four_airports();
    let adjacency_list = four_lists();

    calculate_degree2(&mut airports, &adjacency_list);

    assert_eq!(airports.get("A1").unwrap().degree2, 1);
    assert_eq!(airports.get("A2").unwrap().degree2, 0);
    assert_eq!(airports.get("A3").unwrap().degree2, 1);
    assert_eq!(airports.get("A4").unwrap().degree2, 2);
}

#[test]
fn degree2_leaves_the_rest_of_the_airport_alone() {
    let mut airports = four_airports();
    airports.set_degree_at(3, 17);
    calculate_degree2(&mut airports, &four_lists());
    let a4 = airports.get("A4").unwrap();
    assert_eq!(a4.name, "Airport 4");
    assert_eq!(a4.id, "A4");
    assert_eq!(a4.degree, 17);
    assert_eq!(a4.degree2, 2);
    assert_eq!(airports.len(), 4);
}

#[test]
fn degree2_overwrites_an_earlier_count() {
    let mut airports = AirportTable::new();
    airports.insert(Airport { name: "One".to_string(), id: "A1".to_string(), degree: 0, degree2: 99 });
    calculate_degree2(&mut airports, &IdTable::new());
    assert_eq!(airports.get("A1").unwrap().degree2, 0);
}

#[test]
fn degree2_counts_each_airport_once() {
    let routes = vec![
        route("A", "B"),
        route("A", "C"),
        route("B", "D"),
        route("C", "D"),
        route("B", "D"),
        route("A", "B"),
    ];
    let graph = AirportGraph::new_mirrored(&routes);
    let mut airports = AirportTable::new();
    for id in ["A", "B", "C", "D", "E"] {
        airports.insert(airport(id, id));
    }
    calculate_degree2(&mut airports, &graph.adjacency_list);
    assert_eq!(airports.get("A").unwrap().degree2, 1);
    assert_eq!(airports.get("B").unwrap().degree2, 1);
    assert_eq!(airports.get("C").unwrap().degree2, 1);
    assert_eq!(airports.get("D").unwrap().degree2, 1);
    assert_eq!(airports.get("E").unwrap().degree2, 0);
}

#[test]
fn degree2_skips_neighbours_without_a_list() {
    let mut adjacency_list: IdTable<Vec<String>> = IdTable::new();
    adjacency_list.insert("A".to_string(), vec!["B".to_string(), "C".to_string()]);
    adjacency_list.insert("C".to_string(), vec!["A".to_string(), "X".to_string(), "B".to_string()]);
    let mut airports = AirportTable::new();
    airports.insert(airport("A", "a"));
    airports.insert(airport("B", "b"));
    calculate_degree2(&mut airports, &adjacency_list);
    assert_eq!(airports.get("A").unwrap().degree2, 1);
    assert_eq!(airports.get("B").unwrap().degree2, 0);
}

#[test]
fn airport_without_routes_has_zero_degrees() {
    let routes = vec![route("A", "B"), route("B", "C")];
    let mut airports = AirportTable::new();
    for id in ["A", "B", "C", "Q"] {
        airports.insert(airport(id, id));
    }
    let busiest = update_degrees(&mut airports, &routes);
    let graph = AirportGraph::new_mirrored(&routes);
    calculate_degree2(&mut airports, &graph.adjacency_list);
    let q = airports.get("Q").unwrap();
    assert_eq!(q.degree, 0);
    assert_eq!(q.degree2, 0);
    assert_eq!(airports.get("A").unwrap().degree, 1);
    assert_eq!(airports.get("B").unwrap().degree, 2);
    assert_eq!(airports.get("A").unwrap().degree2, 1);
    assert_eq!(airports.get("B").unwrap().degree2, 0);
    assert_eq!(busiest.len(), 0);
}

#[test]
fn degrees_count_both_endpoints_and_self_loops_twice() {
    let routes = vec![route("A", "B"), route("A", "A"), route("C", "A"), route("A", "B")];
    let mut airports = AirportTable::new();
    for id in ["A", "B", "C"] {
        airports.insert(airport(id, id));
    }
    update_degrees(&mut airports, &routes);
    assert_eq!(airports.get("A").unwrap().degree, 5);
    assert_eq!(airports.get("B").unwrap().degree, 2);
    assert_eq!(airports.get("C").unwrap().degree, 1);
}

#[test]
fn degrees_pass_over_unknown_airports() {
    let routes = vec![route("A", "ghost"), route("ghost", "other"), route("other", "A")];
    let mut airports = AirportTable::new();
    airports.insert(airport("A", "a"));
    let busiest = update_degrees(&mut airports, &routes);
    assert_eq!(airports.len(), 1);
    assert_eq!(airports.get("A").unwrap().degree, 2);
    assert!(airports.get("ghost").is_none());
    assert_eq!(busiest.len(), 0);
}

#[test]
fn degrees_add_to_what_is_there() {
    let mut airports = AirportTable::new();
    airports.insert(Airport { name: "a".to_string(), id: "A".to_string(), degree: 7, degree2: 3 });
    update_degrees(&mut airports, &[route("A", "B")]);
    let a = airports.get("A").unwrap();
    assert_eq!(a.degree, 8);
    assert_eq!(a.degree2, 3);
    assert_eq!(a.name, "a");
}

#[test]
fn busy_airport_is_recorded_as_it_first_reaches_the_threshold() {
    let mut routes: Vec<Route> = Vec::new();
    for i in 0..120 {
        routes.push(route("HUB", &format!("S{}", i)));
    }
    let mut airports = AirportTable::new();
    airports.insert(Airport { name: "Hub".to_string(), id: "HUB".to_string(), degree: 0, degree2: 4 });
    airports.insert(airport("S0", "spoke"));
    let busiest = update_degrees(&mut airports, &routes);
    assert_eq!(airports.get("HUB").unwrap().degree, 120);
    assert_eq!(airports.get("S0").unwrap().degree, 1);
    assert_eq!(busiest.len(), 1);
    let hub = busiest.get("HUB").unwrap();
    assert_eq!(hub.degree, 100);
    assert_eq!(hub.degree2, 4);
    assert_eq!(hub.name, "Hub");
    assert_eq!(hub.id, "HUB");
    assert!(busiest.get("S0").is_none());
}

#[test]
fn airport_just_below_the_threshold_is_not_busy() {
    let mut routes: Vec<Route> = Vec::new();
    for i in 0..99 {
        routes.push(route(&format!("S{}", i), "HUB"));
    }
    let mut airports = AirportTable::new();
    airports.insert(airport("HUB", "Hub"));
    let busiest = update_degrees(&mut airports, &routes);
    assert_eq!(airports.get("HUB").unwrap().degree, 99);
    assert_eq!(busiest.len(), 0);
    routes.push(route("HUB", "S0"));
    let mut fresh = AirportTable::new();
    fresh.insert(airport("HUB", "Hub"));
    let busiest = update_degrees(&mut fresh, &routes);
    assert_eq!(busiest.get("HUB").unwrap().degree, 100);
}

#[test]
fn self_loop_across_the_threshold_is_recorded_at_the_first_endpoint() {
    let mut airports = AirportTable::new();
    airports.insert(Airport { name: "a".to_string(), id: "A".to_string(), degree: 99, degree2: 0 });
    let busiest = update_degrees(&mut airports, &[route("A", "A")]);
    assert_eq!(airports.get("A").unwrap().degree, 101);
    assert_eq!(busiest.get("A").unwrap().degree, 100);
}

#[test]
fn airport_already_above_the_threshold_is_recorded_only_when_it_gains_a_route() {
    let mut airports = AirportTable::new();
    airports.insert(Airport { name: "a".to_string(), id: "A".to_string(), degree: 150, degree2: 0 });
    airports.insert(Airport { name: "b".to_string(), id: "B".to_string(), degree: 150, degree2: 0 });
    let busiest = update_degrees(&mut airports, &[route("A", "X"), route("Y", "A")]);
    assert_eq!(airports.get("A").unwrap().degree, 152);
    assert_eq!(airports.get("B").unwrap().degree, 150);
    assert_eq!(busiest.len(), 1);
    assert_eq!(busiest.get("A").unwrap().degree, 151);
    assert!(busiest.get("B").is_none());
}

#[test]
fn airport_table_is_keyed_by_the_airport_id() {
    let mut airports = AirportTable::new();
    airports.insert(airport("A", "first"));
    airports.insert(airport("B", "second"));
    airports.insert(airport("A", "third"));
    assert_eq!(airports.len(), 2);
    assert_eq!(airports.get("A").unwrap().name, "third");
    assert_eq!(airports.position("B"), Some(1));
    assert_eq!(airports.position("C"), None);
    assert_eq!(airports.airport_at(0).id, "A");
    airports.set_degree2_at(1, 9);
    assert_eq!(airports.get("B").unwrap().degree2, 9);
    let copy = airports.airport_at(1).clone();
    assert_eq!(copy.id, "B");
    assert_eq!(copy.name, "second");
    assert_eq!(copy.degree2, 9);
}

#[test]
fn degree_tables_follow_the_airport_table() {
    let routes = vec![route("A", "B"), route("B", "C"), route("B", "D")];
    let mut airports = AirportTable::new();
    for id in ["C", "A", "B"] {
        airports.insert(airport(id, id));
    }
    update_degrees(&mut airports, &routes);
    calculate_degree2(&mut airports, &AirportGraph::new_mirrored(&routes).adjacency_list);
    let first = airports.degrees();
    let second = airports.second_degrees();
    assert_eq!(first.len(), 3);
    assert_eq!(second.len(), 3);
    assert_eq!(first.id_at(0), "C");
    assert_eq!(first.id_at(1), "A");
    assert_eq!(first.id_at(2), "B");
    assert_eq!(first.get("A"), Some(&1));
    assert_eq!(first.get("B"), Some(&3));
    assert_eq!(first.get("C"), Some(&1));
    assert_eq!(second.get("A"), Some(&2));
    assert_eq!(second.get("B"), Some(&0));
    assert_eq!(second.get("C"), Some(&2));
    assert_eq!(second.get("D"), None);
}

#[test]
fn degrees_fit_unless_a_counter_is_near_the_top() {
    let routes = vec![route("A", "B"), route("B", "C")];
    let mut airports = AirportTable::new();
    airports.insert(airport("A", "a"));
    assert!(degrees_fit(&airports, &routes));
    airports.insert(Airport {
        name: "b".to_string(),
        id: "B".to_string(),
        degree: usize::MAX - 4,
        degree2: 0,
    });
    assert!(degrees_fit(&airports, &routes));
    airports.set_degree_at(1, usize::MAX - 3);
    assert!(!degrees_fit(&airports, &routes));
    assert!(degrees_fit(&airports, &[]));
    assert!(degrees_fit(&AirportTable::new(), &routes));
}

#[test]
fn degree_is_the_length_of_the_mirrored_list() {
    let routes = vec![
        route("A", "B"),
        route("B", "A"),
        route("A", "A"),
        route("C", "A"),
        route("B", "C"),
    ];
    let mut airports = AirportTable::new();
    for id in ["A", "B", "C", "D"] {
        airports.insert(airport(id, id));
    }
    update_degrees(&mut airports, &routes);
    let graph = AirportGraph::new_mirrored(&routes);
    for id in ["A", "B", "C", "D"] {
        let listed = graph.adjacency_list.get(id).map_or(0, |list| list.len());
        assert_eq!(airports.get(id).unwrap().degree, listed);
    }
    assert_eq!(airports.get("A").unwrap().degree, 5);
    assert_eq!(airports.get("D").unwrap().degree, 0);
}

#[test]
fn table_from_airports_keeps_the_last_of_each_id() {
    let airports = AirportTable::from_airports(vec![
        airport("A", "first"),
        airport("B", "second"),
        airport("A", "third"),
    ]);
    assert_eq!(airports.len(), 2);
    assert_eq!(airports.get("A").unwrap().name, "third");
    assert_eq!(airports.get("B").unwrap().name, "second");
    assert_eq!(airports.airport_at(0).id, "A");
    assert_eq!(AirportTable::from_airports(Vec::new()).len(), 0);
}
