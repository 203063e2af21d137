//! Routes as a caller sees them: the legs along the ways, and the cost.

use crate::costing::RoutingCost;
use crate::graph::search::{
    is_route, never_entered, reachable, unambiguous, unsaturated, SearchState,
};
use crate::graph::{Graph, SearchNode, WayId};
use vstd::prelude::*;

verus! {

/// A part of a route that runs along one way, from the position at
/// `from_mm` to the position at `to_mm`.
#[derive(Debug, Clone, Copy, PartialEq, Eq, Hash, Structural)]
pub struct RouteLeg {
    pub way: WayId,
    pub from_mm: i32,
    pub to_mm: i32,
}

/// A route: its legs in the order of travel, and what it costs.
#[derive(Debug)]
pub struct Route {
    pub legs: Vec<RouteLeg>,
    pub cost: RoutingCost,
}

/// The legs of a route: one between each state and the next, along the way
/// of the first, from its position to the stop at which the way is left.
pub open spec fn legs_of(states: Seq<SearchState>) -> Seq<RouteLeg> {
    if states.len() == 0 {
        Seq::empty()
    } else {
        Seq::new(
            (states.len() - 1) as nat,
            |k: int|
                RouteLeg {
                    way: states[k].node.way,
                    from_mm: states[k].node.distance_along_way_mm,
                    to_mm: states[k + 1].via.distance_along_way_mm,
                },
        )
    }
}

/// The legs of a route, from its states.
pub fn route_legs(states: &Vec<SearchState>) -> (legs: Vec<RouteLeg>)
    ensures
        legs@ == legs_of(states@),
{
    let mut legs: Vec<RouteLeg> = Vec::new();
    if states.len() == 0 {
        assert(legs@ =~= legs_of(states@));
        return legs;
    }
    let mut k: usize = 0;
    while k + 1 < states.len()
        invariant
            states@.len() >= 1,
            k + 1 <= states@.len(),
            legs@.len() == k,
            forall|j: int| 0 <= j < k ==> legs@[j] == legs_of(states@)[j],
        decreases states.len() - k,
    {
        legs.push(
            RouteLeg {
                way: states[k].node.way,
                from_mm: states[k].node.distance_along_way_mm,
                to_mm: states[k + 1].via.distance_along_way_mm,
            },
        );
        k += 1;
    }
    assert(legs@ =~= legs_of(states@));
    legs
}

impl Graph {
    /// Searches for a cheapest route from the position at
    /// `distance_along_start_mm` along `start` to the position at
    /// `distance_along_end_mm` along `end`.
    ///
    /// What comes back is a route with its legs and its cost. Where no way
    /// has two different costers, a route comes back whenever steps lead
    /// from the start to the goal, and no route whose cost stays within the
    /// range of the arithmetic costs less.
    pub fn search_djikstra(
        &self,
        start: WayId,
        distance_along_start_mm: i32,
        end: WayId,
        distance_along_end_mm: i32,
    ) -> (route: Option<Route>)
        ensures
            match route {
                Some(found) => exists|states: Seq<SearchState>|
                    {
                        &&& #[trigger] is_route(
                            self,
                            SearchNode { way: start, distance_along_way_mm: distance_along_start_mm },
                            SearchNode { way: end, distance_along_way_mm: distance_along_end_mm },
                            states,
                        )
                        &&& found.legs@ == legs_of(states)
                        &&& found.cost == states.last().cost
                    },
                None => unambiguous(self.ways()) ==> !reachable(
                    self,
                    SearchNode { way: start, distance_along_way_mm: distance_along_start_mm },
                    SearchNode { way: end, distance_along_way_mm: distance_along_end_mm },
                ),
            },
            never_entered(self.transitions(), end) && (start != end || distance_along_start_mm
                != distance_along_end_mm) ==> route is None,
            route is Some && unambiguous(self.ways()) ==> forall|other: Seq<SearchState>|
                #[trigger] is_route(
                    self,
                    SearchNode { way: start, distance_along_way_mm: distance_along_start_mm },
                    SearchNode { way: end, distance_along_way_mm: distance_along_end_mm },
                    other,
                ) && unsaturated(other.last().cost) ==> route.unwrap().cost.not_above(
                    other.last().cost,
                ),
    {
        match self.search_djikstra_inner(start, distance_along_start_mm, end, distance_along_end_mm) {
            Some(states) => {
                let cost = states[states.len() - 1].cost;
                let legs = route_legs(&states);
                Some(Route { legs, cost })
            },
            None => None,
        }
    }
}

/// A route as a host gets it: the polyline of the route, encoded, and the
/// cost of the route.
#[derive(Debug, Clone, PartialEq, Eq, Hash)]
pub struct SearchResult {
    pub encoded_polyline: String,
    pub cost: RoutingCost,
}

impl SearchResult {
    pub fn new(encoded_polyline: String, cost: RoutingCost) -> (result: SearchResult)
        ensures
            result.encoded_polyline == encoded_polyline,
            result.cost == cost,
    {
        SearchResult { encoded_polyline, cost }
    }

    pub fn encoded_polyline(&self) -> (polyline: String)
        ensures
            polyline@ == self.encoded_polyline@,
    {
        self.encoded_polyline.clone()
    }

    /// The length of the route, in millimetres.
    pub fn route_distance_mm(&self) -> (mm: u64)
        ensures
            mm == self.cost.distance_mm.0,
    {
        self.cost.distance().mm()
    }

    /// The time that the router compares, in milliseconds: travel and
    /// penalties.
    pub fn route_cost_millis(&self) -> (ms: u64)
        ensures
            ms == self.cost.cost_millis.0,
    {
        self.cost.elapsed_equivalent().ms()
    }

    /// The travel time of the route, in milliseconds.
    pub fn route_duration_millis(&self) -> (ms: u64)
        ensures
            ms == self.cost.actual_millis.0,
    {
        self.cost.elapsed_actual().ms()
    }
}

} // verus!
