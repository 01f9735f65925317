//! The two kinds of input record: airports and routes.

use vstd::prelude::*;

verus! {

/// An airport as a mathematical value: its strings as character sequences.
pub struct AirportView {
    pub name: Seq<char>,
    pub id: Seq<char>,
    pub degree: usize,
    pub degree2: usize,
}

/// An airport with its two connectivity counters.
#[derive(Debug)]
pub struct Airport {
    /// Display name.
    pub name: String,
    /// Unique identifier; routes refer to airports by it.
    pub id: String,
    /// Number of route endpoints that fall on this airport.
    pub degree: usize,
    /// Number of distinct airports exactly two hops away.
    pub degree2: usize,
}

impl View for Airport {
    type V = AirportView;

    open spec fn view(&self) -> AirportView {
        AirportView { name: self.name@, id: self.id@, degree: self.degree, degree2: self.degree2 }
    }
}

impl Clone for Airport {
    fn clone(&self) -> (copy: Self)
        ensures
            copy@ == self@,
    {
        Airport {
            name: self.name.clone(),
            id: self.id.clone(),
            degree: self.degree,
            degree2: self.degree2,
        }
    }
}

/// A route as a mathematical value.
pub struct RouteView {
    pub departure_id: Seq<char>,
    pub destination_id: Seq<char>,
}

/// A directed route from one airport to another, each named by identifier.
#[derive(Debug)]
pub struct Route {
    pub departure_id: String,
    pub destination_id: String,
}

impl View for Route {
    type V = RouteView;

    open spec fn view(&self) -> RouteView {
        RouteView { departure_id: self.departure_id@, destination_id: self.destination_id@ }
    }
}

/// A run of routes as mathematical values, in the same order.
pub open spec fn route_views(routes: Seq<Route>) -> Seq<RouteView> {
    Seq::new(routes.len(), |i: int| routes[i]@)
}

} // verus!
