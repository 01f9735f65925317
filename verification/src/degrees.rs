//! First-degree connectivity: the number of route endpoints on each airport.

use crate::adjacency::destinations;
use crate::adjacency::lemma_destinations_push;
use crate::adjacency::mirrored;
use crate::adjacency::reversed;
use crate::adjacency::touches;
use crate::adjacency::untouched;
use crate::airports::AirportTable;
use crate::records::route_views;
use crate::records::AirportView;
use crate::records::Route;
use crate::records::RouteView;
use vstd::prelude::*;

verus! {


/// The degree from which an airport counts as busy.
pub const BUSY_DEGREE: usize = 100;

/// How many endpoints of `route` fall on `id`: two for a self-loop on it.
pub open spec fn endpoints_at(route: RouteView, id: Seq<char>) -> nat {
    (if route.departure_id == id {
        1nat
    } else {
        0nat
    }) + (if route.destination_id == id {
        1nat
    } else {
        0nat
    })
}

/// How many route endpoints fall on `id` over all of `routes`.
pub open spec fn incidence(routes: Seq<RouteView>, id: Seq<char>) -> nat
    decreases routes.len(),
{
    if routes.len() == 0 {
        0
    } else {
        incidence(routes.drop_last(), id) + endpoints_at(routes.last(), id)
    }
}

/// The airport with `count` more added to its degree.
pub open spec fn raised(before: AirportView, count: nat) -> AirportView {
    AirportView { degree: (before.degree + count) as usize, ..before }
}

/// Whether an airport that gains `count` endpoints is recorded as busy: it
/// gains at least one, and ends at or above the busy degree.
pub open spec fn is_busy(before: AirportView, count: nat) -> bool {
    count > 0 && before.degree + count >= BUSY_DEGREE
}

/// The airport as recorded when it first counts as busy: with the degree it
/// has right after the endpoint that takes it to the busy degree or beyond.
pub open spec fn snapshot(before: AirportView) -> AirportView {
    AirportView {
        degree: if before.degree >= BUSY_DEGREE {
            (before.degree + 1) as usize
        } else {
            BUSY_DEGREE
        },
        ..before
    }
}

/// The endpoints of the routes in the order in which they are counted:
/// for each route its departure, then its destination.
spec fn endpoints(routes: Seq<RouteView>) -> Seq<Seq<char>>
    decreases routes.len(),
{
    if routes.len() == 0 {
        Seq::empty()
    } else {
        endpoints(routes.drop_last()).push(routes.last().departure_id).push(
            routes.last().destination_id,
        )
    }
}

/// How often `id` stands in `ids`.
spec fn occurrences(ids: Seq<Seq<char>>, id: Seq<char>) -> nat
    decreases ids.len(),
{
    if ids.len() == 0 {
        0
    } else {
        occurrences(ids.drop_last(), id) + if ids.last() == id {
            1nat
        } else {
            0nat
        }
    }
}

/// The state of a degree count after the endpoints `seen`.
spec fn tallied(
    before: Map<Seq<char>, AirportView>,
    now: Map<Seq<char>, AirportView>,
    busiest: Map<Seq<char>, AirportView>,
    seen: Seq<Seq<char>>,
) -> bool {
    &&& now.dom() =~= before.dom()
    &&& forall|id: Seq<char>| #[trigger]
        before.contains_key(id) ==> now[id] == raised(before[id], occurrences(seen, id))
    &&& forall|id: Seq<char>| #[trigger]
        busiest.contains_key(id) <==> before.contains_key(id) && is_busy(
            before[id],
            occurrences(seen, id),
        )
    &&& forall|id: Seq<char>| #[trigger]
        busiest.contains_key(id) ==> busiest[id] == snapshot(before[id])
}

/// One more entry adds one occurrence of itself and of nothing else.
proof fn lemma_occurrences_push(ids: Seq<Seq<char>>, entry: Seq<char>, id: Seq<char>)
    ensures
        occurrences(ids.push(entry), id) == occurrences(ids, id) + if entry == id {
            1nat
        } else {
            0nat
        },
{
    assert(ids.push(entry).drop_last() =~= ids);
}

/// An airport's incidence is how often it stands among the endpoints.
proof fn lemma_endpoints(routes: Seq<RouteView>, id: Seq<char>)
    ensures
        occurrences(endpoints(routes), id) == incidence(routes, id),
    decreases routes.len(),
{
    if routes.len() > 0 {
        let rest = endpoints(routes.drop_last());
        let last = routes.last();
        lemma_endpoints(routes.drop_last(), id);
        lemma_occurrences_push(rest, last.departure_id, id);
        lemma_occurrences_push(rest.push(last.departure_id), last.destination_id, id);
    }
}

/// A prefix of the routes has no more endpoints on an airport than all of
/// them.
pub proof fn lemma_incidence_prefix(routes: Seq<RouteView>, n: int, id: Seq<char>)
    requires
        0 <= n <= routes.len(),
    ensures
        incidence(routes.take(n), id) <= incidence(routes, id),
    decreases routes.len(),
{
    if n == routes.len() {
        assert(routes.take(n) =~= routes);
    } else {
        lemma_incidence_prefix(routes.drop_last(), n, id);
        assert(routes.drop_last().take(n) =~= routes.take(n));
    }
}

/// No airport has more endpoints on it than two for each route.
pub proof fn lemma_incidence_bound(routes: Seq<RouteView>, id: Seq<char>)
    ensures
        incidence(routes, id) <= 2 * routes.len(),
    decreases routes.len(),
{
    if routes.len() > 0 {
        lemma_incidence_bound(routes.drop_last(), id);
    }
}

/// Whether every airport's degree can take two more for each of the routes
/// without leaving the range of `usize`. When it can, the degrees can be
/// updated by these routes.
pub fn degrees_fit(airports: &AirportTable, routes: &[Route]) -> (fit: bool)
    ensures
        fit == forall|i: int|
            0 <= i < airports.rows().len() ==> (#[trigger] airports.rows()[i]).degree + 2
                * routes@.len() <= usize::MAX,
        fit ==> forall|id: Seq<char>| #[trigger]
            airports@.contains_key(id) ==> airports@[id].degree + incidence(
                route_views(routes@),
                id,
            ) <= usize::MAX,
{
    proof {
        use_type_invariant(airports);
        airports.lemma_rows();
    }
    let per_route: usize = 2;
    let total: usize = airports.len();
    let room: usize = match routes.len().checked_mul(per_route) {
        Some(room) => room,
        None => {
            proof {
                if total > 0 {
                    assert(airports.rows()[0].degree + 2 * routes@.len() > usize::MAX);
                } else {
                    assert forall|id: Seq<char>| !airports@.contains_key(id) by {
                        assert(!airports.ids().to_set().contains(id));
                    }
                }
            }
            return total == 0;
        },
    };
    let mut i: usize = 0;
    while i < total
        invariant
            i <= total,
            total == airports.rows().len(),
            total == airports.ids().len(),
            room == 2 * routes@.len(),
            forall|k: int|
                0 <= k < i ==> (#[trigger] airports.rows()[k]).degree + room <= usize::MAX,
        decreases total - i,
    {
        if airports.airport_at(i).degree > usize::MAX - room {
            return false;
        }
        i = i + 1;
    }
    proof {
        assert forall|id: Seq<char>| #[trigger]
            airports@.contains_key(id) implies airports@[id].degree + incidence(
            route_views(routes@),
            id,
        ) <= usize::MAX by {
            assert(airports.ids().to_set().contains(id));
            let k = choose|k: int| 0 <= k < airports.ids().len() && airports.ids()[k] == id;
            assert(airports@[airports.ids()[k]] == airports.rows()[k]);
            lemma_incidence_bound(route_views(routes@), id);
        }
    }
    true
}

/// Counts one route endpoint on the airport named `id`, if the table holds
/// it, and records the airport as busy when this takes it to the busy
/// degree or beyond and it is not recorded yet.
fn count_endpoint(
    airports: &mut AirportTable,
    busiest: &mut AirportTable,
    id: &str,
    Ghost(before): Ghost<Map<Seq<char>, AirportView>>,
    Ghost(seen): Ghost<Seq<Seq<char>>>,
)
    requires
        tallied(before, old(airports)@, old(busiest)@, seen),
        before.contains_key(id@) ==> before[id@].degree + occurrences(seen, id@) < usize::MAX,
    ensures
        final(airports).ids() == old(airports).ids(),
        tallied(before, final(airports)@, final(busiest)@, seen.push(id@)),
{
    proof {
        use_type_invariant(&*airports);
        airports.lemma_rows();
        assert forall|other: Seq<char>|
            occurrences(seen.push(id@), other) == occurrences(seen, other) + if other == id@ {
                1nat
            } else {
                0nat
            } by {
            lemma_occurrences_push(seen, id@, other);
        }
    }
    match airports.position(id) {
        None => {},
        Some(i) => {
            assert(airports@[airports.ids()[i as int]] == airports.rows()[i as int]);
            let degree: usize = airports.airport_at(i).degree + 1;
            airports.set_degree_at(i, degree);
            if degree >= BUSY_DEGREE && busiest.position(id).is_none() {
                proof {
                    use_type_invariant(&*airports);
                    airports.lemma_rows();
                    assert(airports@[airports.ids()[i as int]] == airports.rows()[i as int]);
                }
                busiest.insert(airports.airport_at(i).clone());
            }
        },
    }
}

/// Adds to each airport's degree the number of route endpoints that fall on
/// it; endpoints that name no airport of the table are passed over. Returns
/// the airports that gained an endpoint and reached the busy degree, each
/// as it stood when it first did.
pub fn update_degrees(airports: &mut AirportTable, routes: &[Route]) -> (busiest: AirportTable)
    requires
        forall|id: Seq<char>| #[trigger]
            old(airports)@.contains_key(id) ==> old(airports)@[id].degree + incidence(
                route_views(routes@),
                id,
            ) <= usize::MAX,
    ensures
        final(airports).ids() == old(airports).ids(),
        final(airports)@.dom() == old(airports)@.dom(),
        forall|id: Seq<char>| #[trigger]
            old(airports)@.contains_key(id) ==> final(airports)@[id] == raised(
                old(airports)@[id],
                incidence(route_views(routes@), id),
            ),
        forall|id: Seq<char>| #[trigger]
            busiest@.contains_key(id) <==> old(airports)@.contains_key(id) && is_busy(
                old(airports)@[id],
                incidence(route_views(routes@), id),
            ),
        forall|id: Seq<char>| #[trigger]
            busiest@.contains_key(id) ==> busiest@[id] == snapshot(old(airports)@[id]),
{
    let mut busiest = AirportTable::new();
    let ghost before = airports@;
    let ghost all = route_views(routes@);
    let mut r: usize = 0;
    while r < routes.len()
        invariant
            r <= routes.len(),
            all == route_views(routes@),
            before == old(airports)@,
            airports.ids() == old(airports).ids(),
            forall|id: Seq<char>| #[trigger]
                before.contains_key(id) ==> before[id].degree + incidence(all, id) <= usize::MAX,
            tallied(before, airports@, busiest@, endpoints(all.take(r as int))),
        decreases routes.len() - r,
    {
        let ghost seen = endpoints(all.take(r as int));
        let ghost route = all[r as int];
        proof {
            assert(all.take(r + 1).drop_last() =~= all.take(r as int));
            lemma_occurrences_push(seen, route.departure_id, route.departure_id);
            lemma_occurrences_push(seen, route.departure_id, route.destination_id);
            lemma_occurrences_push(
                seen.push(route.departure_id),
                route.destination_id,
                route.departure_id,
            );
            lemma_occurrences_push(
                seen.push(route.departure_id),
                route.destination_id,
                route.destination_id,
            );
            lemma_endpoints(all.take(r + 1), route.departure_id);
            lemma_endpoints(all.take(r + 1), route.destination_id);
            lemma_incidence_prefix(all, r + 1, route.departure_id);
            lemma_incidence_prefix(all, r + 1, route.destination_id);
        }
        count_endpoint(
            airports,
            &mut busiest,
            routes[r].departure_id.as_str(),
            Ghost(before),
            Ghost(seen),
        );
        count_endpoint(
            airports,
            &mut busiest,
            routes[r].destination_id.as_str(),
            Ghost(before),
            Ghost(seen.push(route.departure_id)),
        );
        r = r + 1;
    }
    proof {
        assert(all.take(r as int) =~= all);
        assert forall|id: Seq<char>|
            occurrences(endpoints(all), id) == incidence(all, id) by {
            lemma_endpoints(all, id);
        }
    }
    busiest
}

/// An airport has as many endpoints on it as its neighbour list is long
/// when the routes are taken in both directions.
pub proof fn lemma_incidence_is_mirrored_length(routes: Seq<RouteView>, id: Seq<char>)
    ensures
        destinations(mirrored(routes), id).len() == incidence(routes, id),
    decreases routes.len(),
{
    if routes.len() > 0 {
        let rest = mirrored(routes.drop_last());
        let last = routes.last();
        lemma_incidence_is_mirrored_length(routes.drop_last(), id);
        lemma_destinations_push(rest, last, id);
        lemma_destinations_push(rest.push(last), reversed(last), id);
    }
}

/// Routes that neither start nor end at an airport put no endpoint on it.
pub proof fn lemma_untouched_incidence(routes: Seq<RouteView>, id: Seq<char>)
    requires
        untouched(routes, id),
    ensures
        incidence(routes, id) == 0,
    decreases routes.len(),
{
    if routes.len() > 0 {
        assert(!touches(routes[routes.len() - 1], id));
        assert forall|i: int| 0 <= i < routes.drop_last().len() implies !touches(
            #[trigger] routes.drop_last()[i],
            id,
        ) by {
            assert(!touches(routes[i], id));
        }
        lemma_untouched_incidence(routes.drop_last(), id);
    }
}

} // verus!
