//! Adjacency lists built from a run of routes.

use crate::id_table::IdTable;
use crate::records::route_views;
use crate::records::Route;
use crate::records::RouteView;
use vstd::prelude::*;

verus! {

/// An adjacency structure as a mathematical value: for each identifier that
/// has a list, the identifiers of its neighbours, in list order and with
/// repetitions.
pub type Neighbors = Map<Seq<char>, Seq<Seq<char>>>;

/// The neighbour lists held by a table of identifier lists.
pub open spec fn neighbor_lists(table: &IdTable<Vec<String>>) -> Neighbors {
    Map::new(|k: Seq<char>| table@.contains_key(k), |k: Seq<char>| table@[k].deep_view())
}

/// Whether `to` stands in the neighbour list of `from`.
pub open spec fn has_edge(lists: Neighbors, from: Seq<char>, to: Seq<char>) -> bool {
    lists.contains_key(from) && lists[from].contains(to)
}

/// Whether some route departs from `id`.
pub open spec fn departs(routes: Seq<RouteView>, id: Seq<char>) -> bool {
    exists|i: int| 0 <= i < routes.len() && (#[trigger] routes[i]).departure_id == id
}

/// The destinations of the routes that depart from `id`, one entry per
/// route, in route order.
pub open spec fn destinations(routes: Seq<RouteView>, id: Seq<char>) -> Seq<Seq<char>>
    decreases routes.len(),
{
    if routes.len() == 0 {
        Seq::empty()
    } else if routes.last().departure_id == id {
        destinations(routes.drop_last(), id).push(routes.last().destination_id)
    } else {
        destinations(routes.drop_last(), id)
    }
}

/// The adjacency of the routes as given: each departure identifier with
/// the destinations of its routes.
pub open spec fn directed_adjacency(routes: Seq<RouteView>) -> Neighbors {
    Map::new(|k: Seq<char>| departs(routes, k), |k: Seq<char>| destinations(routes, k))
}

/// The route in the opposite direction.
pub open spec fn reversed(route: RouteView) -> RouteView {
    RouteView { departure_id: route.destination_id, destination_id: route.departure_id }
}

/// The routes with each one followed by its reverse.
pub open spec fn mirrored(routes: Seq<RouteView>) -> Seq<RouteView>
    decreases routes.len(),
{
    if routes.len() == 0 {
        Seq::empty()
    } else {
        mirrored(routes.drop_last()).push(routes.last()).push(reversed(routes.last()))
    }
}

/// The adjacency of the routes taken in both directions.
pub open spec fn mirrored_adjacency(routes: Seq<RouteView>) -> Neighbors {
    directed_adjacency(mirrored(routes))
}

/// Whether `route` starts or ends at `id`.
pub open spec fn touches(route: RouteView, id: Seq<char>) -> bool {
    route.departure_id == id || route.destination_id == id
}

/// Whether no route starts or ends at `id`.
pub open spec fn untouched(routes: Seq<RouteView>, id: Seq<char>) -> bool {
    forall|i: int| 0 <= i < routes.len() ==> !touches(#[trigger] routes[i], id)
}

/// The adjacency with one more entry at the end of the list of `from`,
/// which is started if `from` had none.
pub open spec fn with_entry(lists: Neighbors, from: Seq<char>, to: Seq<char>) -> Neighbors {
    lists.insert(
        from,
        if lists.contains_key(from) {
            lists[from].push(to)
        } else {
            seq![to]
        },
    )
}

/// One more route adds its destination to the destinations of its
/// departure and leaves all others as they are.
pub proof fn lemma_destinations_push(routes: Seq<RouteView>, route: RouteView, id: Seq<char>)
    ensures
        destinations(routes.push(route), id) == if route.departure_id == id {
            destinations(routes, id).push(route.destination_id)
        } else {
            destinations(routes, id)
        },
{
    assert(routes.push(route).drop_last() =~= routes);
}

/// Nothing departs from an identifier that has no list.
proof fn lemma_no_departure(routes: Seq<RouteView>, id: Seq<char>)
    requires
        !departs(routes, id),
    ensures
        destinations(routes, id) == Seq::<Seq<char>>::empty(),
    decreases routes.len(),
{
    if routes.len() > 0 {
        assert(routes[routes.len() - 1].departure_id != id);
        assert forall|i: int| 0 <= i < routes.drop_last().len() implies (
        #[trigger] routes.drop_last()[i]).departure_id != id by {
            assert(routes[i].departure_id != id);
        }
        lemma_no_departure(routes.drop_last(), id);
    }
}

/// One more route adds one entry to the directed adjacency.
pub proof fn lemma_directed_push(routes: Seq<RouteView>, route: RouteView)
    ensures
        directed_adjacency(routes.push(route)) == with_entry(
            directed_adjacency(routes),
            route.departure_id,
            route.destination_id,
        ),
{
    let longer = routes.push(route);
    let left = directed_adjacency(longer);
    let right = with_entry(directed_adjacency(routes), route.departure_id, route.destination_id);
    assert(longer.drop_last() =~= routes);
    assert forall|k: Seq<char>| left.contains_key(k) <==> right.contains_key(k) by {
        if departs(longer, k) {
            let i = choose|i: int|
                0 <= i < longer.len() && (#[trigger] longer[i]).departure_id == k;
            if i < routes.len() {
                assert(routes[i].departure_id == k);
            }
        }
        if departs(routes, k) {
            let i = choose|i: int|
                0 <= i < routes.len() && (#[trigger] routes[i]).departure_id == k;
            assert(longer[i].departure_id == k);
        }
        if k == route.departure_id {
            assert(longer[routes.len() as int].departure_id == k);
        }
    }
    assert forall|k: Seq<char>| left.contains_key(k) implies left[k] == right[k] by {
        if k == route.departure_id && !departs(routes, k) {
            lemma_no_departure(routes, k);
            assert(Seq::<Seq<char>>::empty().push(route.destination_id) =~= seq![
                route.destination_id,
            ]);
        }
    }
    assert(left =~= right);
}

/// Every route of the mirrored run starts where a route given starts or
/// ends.
proof fn lemma_mirrored_departure(routes: Seq<RouteView>, j: int)
    requires
        0 <= j < mirrored(routes).len(),
    ensures
        exists|i: int|
            0 <= i < routes.len() && touches(#[trigger] routes[i], mirrored(routes)[j].departure_id),
    decreases routes.len(),
{
    if routes.len() > 0 {
        let shorter = routes.drop_last();
        let id = mirrored(routes)[j].departure_id;
        if j < mirrored(shorter).len() {
            lemma_mirrored_departure(shorter, j);
            let i = choose|i: int| 0 <= i < shorter.len() && touches(#[trigger] shorter[i], id);
            assert(touches(routes[i], id));
        } else {
            assert(touches(routes[routes.len() - 1], id));
        }
    }
}

/// An identifier has a list in the directed adjacency only if a route
/// departs from it.
pub proof fn lemma_directed_keys(routes: Seq<RouteView>, id: Seq<char>)
    requires
        directed_adjacency(routes).contains_key(id),
    ensures
        exists|i: int| 0 <= i < routes.len() && (#[trigger] routes[i]).departure_id == id,
{
}

/// An identifier has a list in the mirrored adjacency only if a route
/// starts or ends at it.
pub proof fn lemma_mirrored_keys(routes: Seq<RouteView>, id: Seq<char>)
    requires
        mirrored_adjacency(routes).contains_key(id),
    ensures
        !untouched(routes, id),
{
    let both = mirrored(routes);
    let j = choose|j: int| 0 <= j < both.len() && (#[trigger] both[j]).departure_id == id;
    lemma_mirrored_departure(routes, j);
}

/// Appends `to` to the list of `from`, starting the list if there is none.
fn append_neighbor(table: &mut IdTable<Vec<String>>, from: &String, to: &String)
    ensures
        neighbor_lists(final(table)) == with_entry(neighbor_lists(old(table)), from@, to@),
{
    proof {
        use_type_invariant(&*table);
        table.lemma_columns();
    }
    match table.position(from.as_str()) {
        Some(i) => {
            let list = table.value_at_mut(i);
            let ghost before = list.deep_view();
            list.push(to.clone());
            proof {
                assert(list.deep_view() =~= before.push(to@));
            }
        },
        None => {
            let mut list: Vec<String> = Vec::new();
            list.push(to.clone());
            proof {
                assert(list.deep_view() =~= seq![to@]);
            }
            table.insert(from.clone(), list);
        },
    }
    proof {
        assert(neighbor_lists(final(table)) =~= with_entry(neighbor_lists(old(table)), from@, to@));
    }
}

/// The adjacency of the routes as given.
pub fn build_directed(routes: &[Route]) -> (table: IdTable<Vec<String>>)
    ensures
        neighbor_lists(&table) == directed_adjacency(route_views(routes@)),
{
    let mut table: IdTable<Vec<String>> = IdTable::new();
    let ghost all = route_views(routes@);
    proof {
        assert(neighbor_lists(&table) =~= directed_adjacency(all.take(0)));
    }
    let mut r: usize = 0;
    while r < routes.len()
        invariant
            r <= routes.len(),
            all == route_views(routes@),
            neighbor_lists(&table) == directed_adjacency(all.take(r as int)),
        decreases routes.len() - r,
    {
        proof {
            lemma_directed_push(all.take(r as int), all[r as int]);
            assert(all.take(r as int).push(all[r as int]) =~= all.take(r + 1));
        }
        append_neighbor(&mut table, &routes[r].departure_id, &routes[r].destination_id);
        r = r + 1;
    }
    proof {
        assert(all.take(r as int) =~= all);
    }
    table
}

/// The adjacency of the routes taken in both directions: each route adds
/// its destination to the list of its departure and then its departure to
/// the list of its destination.
pub fn build_mirrored(routes: &[Route]) -> (table: IdTable<Vec<String>>)
    ensures
        neighbor_lists(&table) == mirrored_adjacency(route_views(routes@)),
{
    let mut table: IdTable<Vec<String>> = IdTable::new();
    let ghost all = route_views(routes@);
    proof {
        assert(neighbor_lists(&table) =~= mirrored_adjacency(all.take(0)));
    }
    let mut r: usize = 0;
    while r < routes.len()
        invariant
            r <= routes.len(),
            all == route_views(routes@),
            neighbor_lists(&table) == mirrored_adjacency(all.take(r as int)),
        decreases routes.len() - r,
    {
        proof {
            let seen = mirrored(all.take(r as int));
            let route = all[r as int];
            assert(all.take(r + 1).drop_last() =~= all.take(r as int));
            lemma_directed_push(seen, route);
            lemma_directed_push(seen.push(route), reversed(route));
        }
        append_neighbor(&mut table, &routes[r].departure_id, &routes[r].destination_id);
        append_neighbor(&mut table, &routes[r].destination_id, &routes[r].departure_id);
        r = r + 1;
    }
    proof {
        assert(all.take(r as int) =~= all);
    }
    table
}

} // verus!
