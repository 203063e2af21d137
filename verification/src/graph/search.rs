//! The search for a cheapest route: Dijkstra's algorithm over positions
//! along ways.
//!
//! From a position, a traveller may go along the way to the next stop on
//! either side, or stay if the position is itself a stop, and take one of the
//! transitions that leave that stop. The search never passes over a stop.

use crate::costing::units::{Direction, TravelledDistance};
use crate::costing::{RoutingCost, WayCoster};
use crate::graph::frontier::Frontier;
use crate::graph::{
    has_coster, CostedRow, CostedWayTransition, Graph, NodeRow, NodeRows, SearchNode,
    TransitionRow, TransitionRows, WayId, WayRows, WayTransition,
};
use std::collections::HashMap;
use vstd::prelude::*;
use vstd::std_specs::hash::group_hash_axioms;

verus! {

/// A position that the search has reached, as the search log holds it:
/// `idx` is its place in the log and `previous` the place of the state it
/// was reached from (its own place, for the start); `via` is the stop on the
/// previous way at which that way was left.
#[derive(Debug, Clone, Copy, PartialEq, Eq, Hash, Structural)]
pub struct SearchState {
    pub previous: usize,
    pub idx: usize,
    pub node: SearchNode,
    pub via: SearchNode,
    pub cost: RoutingCost,
}

impl SearchState {
    /// The state from which a search at `start` sets out.
    pub open spec fn root(start: SearchNode) -> SearchState {
        SearchState { previous: 0, idx: 0, node: start, via: start, cost: RoutingCost::nothing() }
    }

    /// The order in which the search takes states up: the cheaper one
    /// first, and of two that cost the same the one whose position comes
    /// later.
    pub open spec fn outranks(self, other: SearchState) -> bool {
        self.cost.below(other.cost) || (self.cost == other.cost && other.node.precedes(self.node))
    }

    pub fn is_ahead_of(&self, other: &SearchState) -> (ahead: bool)
        ensures
            ahead == self.outranks(*other),
    {
        self.cost.is_below(&other.cost) || (self.cost == other.cost && other.node.is_before(
            &self.node,
        ))
    }
}

/// The distance between two positions on one way.
pub open spec fn gap(from_mm: i32, to_mm: i32) -> TravelledDistance {
    TravelledDistance(
        if from_mm <= to_mm {
            (to_mm - from_mm) as u64
        } else {
            (from_mm - to_mm) as u64
        },
    )
}

/// The direction of travel from one position on a way to another: forward
/// where the distance along the way grows.
pub open spec fn heading(from_mm: i32, to_mm: i32) -> Direction {
    if from_mm < to_mm {
        Direction::Forward
    } else {
        Direction::Reverse
    }
}

/// `node` is stored as a stop on its way.
pub open spec fn is_stop(nodes: NodeRows, node: SearchNode) -> bool {
    nodes.count((node.way.0, node.row())) > 0
}

/// `middle` lies strictly between the two ends.
pub open spec fn strictly_between(end: i32, middle: i32, other_end: i32) -> bool {
    (end < middle && middle < other_end) || (other_end < middle && middle < end)
}

/// `via` is a stop at which a traveller at `from` stops next: a stop on the
/// same way with no other stop between the two. That is `from` itself,
/// where it is a stop, and the closest stop on either side.
pub open spec fn next_stop(nodes: NodeRows, from: SearchNode, via: SearchNode) -> bool {
    &&& via.way == from.way
    &&& is_stop(nodes, via)
    &&& forall|other: SearchNode| #[trigger]
        is_stop(nodes, other) && other.way == from.way ==> !strictly_between(
            from.distance_along_way_mm,
            other.distance_along_way_mm,
            via.distance_along_way_mm,
        )
}

/// What `coster` charges for the way from `from` to `via`.
pub open spec fn segment(coster: WayCoster, from: SearchNode, via: SearchNode) -> Option<
    RoutingCost,
> {
    coster.segment_cost(
        gap(from.distance_along_way_mm, via.distance_along_way_mm),
        heading(from.distance_along_way_mm, via.distance_along_way_mm),
    )
}

/// One step of a route: from `from` along its way to the next stop `via`,
/// charged by `coster`, a coster of that way; then by `transition`, one of
/// those that leave `via`, at the cost `costed`.
pub open spec fn is_step(
    graph: &Graph,
    from: SearchNode,
    via: SearchNode,
    coster: WayCoster,
    costed: CostedWayTransition,
    transition: WayTransition,
) -> bool {
    &&& next_stop(graph.nodes(), from, via)
    &&& graph.ways().count((from.way.0, coster.row())) > 0
    &&& segment(coster, from, via) is Some
    &&& graph.transitions().count((via.row(), (costed.row(), transition.row()))) > 0
}

/// The state `next` was reached from the state `prev` by one step, and
/// costs what `prev` costs and the step.
pub open spec fn follows(graph: &Graph, prev: SearchState, next: SearchState) -> bool {
    &&& next.previous == prev.idx
    &&& exists|coster: WayCoster, costed: CostedWayTransition, transition: WayTransition|
        {
            &&& #[trigger] is_step(graph, prev.node, next.via, coster, costed, transition)
            &&& next.node == transition.target()
            &&& next.cost == prev.cost.plus(segment(coster, prev.node, next.via).unwrap()).plus(
                costed.cost,
            )
        }
}

/// One step leads from `from` to `to`.
pub open spec fn edge(graph: &Graph, from: SearchNode, to: SearchNode) -> bool {
    exists|via: SearchNode, coster: WayCoster, costed: CostedWayTransition, transition: WayTransition|
        #[trigger] is_step(graph, from, via, coster, costed, transition) && transition.target()
            == to
}

/// Each position of `path` leads to the next by one step.
pub open spec fn is_path(graph: &Graph, path: Seq<SearchNode>) -> bool {
    &&& path.len() >= 1
    &&& forall|i: int| 0 <= i < path.len() - 1 ==> edge(graph, #[trigger] path[i], path[i + 1])
}

/// Steps lead from `start` to `goal`.
pub open spec fn reachable(graph: &Graph, start: SearchNode, goal: SearchNode) -> bool {
    exists|path: Seq<SearchNode>| #[trigger]
        is_path(graph, path) && path.first() == start && path.last() == goal
}

/// `route` is a route from `start` to `goal`: it sets out at `start` at no
/// cost, each of its states follows the one before, and the last stands at
/// `goal`.
pub open spec fn is_route(
    graph: &Graph,
    start: SearchNode,
    goal: SearchNode,
    route: Seq<SearchState>,
) -> bool {
    &&& route.len() >= 1
    &&& route.first() == SearchState::root(start)
    &&& route.last().node == goal
    &&& forall|k: int| 0 <= k < route.len() - 1 ==> follows(graph, #[trigger] route[k], route[k + 1])
}

/// No way has two different costers.
pub open spec fn unambiguous(ways: WayRows) -> bool {
    forall|way: u64, one: WayCoster, other: WayCoster|
        ways.count((way, one.row())) > 0 && ways.count((way, other.row())) > 0 ==> one == other
}

/// No transition enters `way`.
pub open spec fn never_entered(transitions: TransitionRows, way: WayId) -> bool {
    forall|node: NodeRow, costed: CostedRow, transition: TransitionRow| #[trigger]
        transitions.count((node, (costed, transition))) > 0 ==> transition.2 != way.0
}

/// A route runs along a path.
pub proof fn lemma_route_is_path(
    graph: &Graph,
    start: SearchNode,
    goal: SearchNode,
    route: Seq<SearchState>,
)
    requires
        is_route(graph, start, goal, route),
    ensures
        reachable(graph, start, goal),
{
    let path = route.map_values(|state: SearchState| state.node);
    assert forall|i: int| 0 <= i < path.len() - 1 implies edge(graph, #[trigger] path[i], path[i + 1]) by {
        assert(follows(graph, route[i], route[i + 1]));
        let (coster, costed, transition) = choose|
            coster: WayCoster,
            costed: CostedWayTransition,
            transition: WayTransition,
        |
            {
                &&& #[trigger] is_step(graph, route[i].node, route[i + 1].via, coster, costed, transition)
                &&& route[i + 1].node == transition.target()
                &&& route[i + 1].cost == route[i].cost.plus(
                    segment(coster, route[i].node, route[i + 1].via).unwrap(),
                ).plus(costed.cost)
            };
        assert(is_step(graph, path[i], route[i + 1].via, coster, costed, transition));
    }
    assert(is_path(graph, path));
}

/// Where no transition enters the way of the goal, only the goal itself
/// reaches the goal.
pub proof fn lemma_unreachable_goal(graph: &Graph, start: SearchNode, goal: SearchNode)
    requires
        never_entered(graph.transitions(), goal.way),
        start != goal,
    ensures
        !reachable(graph, start, goal),
{
    if reachable(graph, start, goal) {
        let path = choose|path: Seq<SearchNode>| #[trigger]
            is_path(graph, path) && path.first() == start && path.last() == goal;
        let last = path.len() - 2;
        assert(edge(graph, path[last], path[last + 1]));
        let (via, coster, costed, transition) = choose|
            via: SearchNode,
            coster: WayCoster,
            costed: CostedWayTransition,
            transition: WayTransition,
        | #[trigger]
            is_step(graph, path[last], via, coster, costed, transition) && transition.target()
                == goal;
        assert(graph.transitions().count((via.row(), (costed.row(), transition.row()))) > 0);
    }
}

/// A number that stands for a position: different positions, different
/// numbers.
pub open spec fn node_key(node: SearchNode) -> u128 {
    (node.way.0 * 0x1_0000_0000 + (node.distance_along_way_mm + 0x8000_0000)) as u128
}

pub fn key_of(node: &SearchNode) -> (key: u128)
    ensures
        key == node_key(*node),
{
    let high: u128 = node.way.0 as u128;
    let low: u128 = (node.distance_along_way_mm as i64 + 0x8000_0000i64) as u128;
    high * 0x1_0000_0000u128 + low
}

pub(crate) proof fn lemma_node_key_injective(one: SearchNode, other: SearchNode)
    requires
        node_key(one) == node_key(other),
    ensures
        one == other,
{
    let a = one.way.0 as int;
    let b = other.way.0 as int;
    let x = one.distance_along_way_mm + 0x8000_0000;
    let y = other.distance_along_way_mm + 0x8000_0000;
    assert(a * 0x1_0000_0000 + x == b * 0x1_0000_0000 + y);
    if a < b {
        assert(b * 0x1_0000_0000 >= (a + 1) * 0x1_0000_0000) by (nonlinear_arith)
            requires
                a < b,
        ;
    }
    if b < a {
        assert(a * 0x1_0000_0000 >= (b + 1) * 0x1_0000_0000) by (nonlinear_arith)
            requires
                b < a,
        ;
    }
}

/// A cost as one number: a cost below another has the smaller number.
pub(crate) open spec fn weight(cost: RoutingCost) -> nat {
    (cost.cost_millis.0 * 0x1_0000_0000_0000_0000 * 0x1_0000_0000_0000_0000
        + cost.actual_millis.0 * 0x1_0000_0000_0000_0000 + cost.distance_mm.0) as nat
}

/// Above every weight.
pub(crate) open spec fn top_weight() -> nat {
    (0x1_0000_0000_0000_0000 * 0x1_0000_0000_0000_0000 * 0x1_0000_0000_0000_0000) as nat
}

proof fn lemma_weight_grows_with_cost(one: RoutingCost, other: RoutingCost)
    ensures
        one.below(other) ==> weight(one) < weight(other),
        weight(one) < top_weight(),
{
}

/// How far the best cost known for the position with number `key` stands
/// above nothing: the top weight where none is known.
pub(crate) open spec fn rank(costs: Map<u128, RoutingCost>, key: u128) -> nat {
    if costs.dom().contains(key) {
        weight(costs[key])
    } else {
        top_weight()
    }
}

/// The ranks of the positions of `universe`, added up. It falls whenever a
/// position of `universe` gets a first or a better cost.
pub(crate) open spec fn potential(costs: Map<u128, RoutingCost>, universe: Seq<u128>) -> nat
    decreases universe.len(),
{
    if universe.len() == 0 {
        0
    } else {
        potential(costs, universe.drop_last()) + rank(costs, universe.last())
    }
}

proof fn lemma_potential_falls(
    costs: Map<u128, RoutingCost>,
    universe: Seq<u128>,
    key: u128,
    cost: RoutingCost,
)
    requires
        costs.dom().contains(key) ==> cost.below(costs[key]),
    ensures
        potential(costs.insert(key, cost), universe) <= potential(costs, universe),
        universe.contains(key) ==> potential(costs.insert(key, cost), universe) < potential(
            costs,
            universe,
        ),
    decreases universe.len(),
{
    if universe.len() > 0 {
        lemma_potential_falls(costs, universe.drop_last(), key, cost);
        if costs.dom().contains(key) {
            lemma_weight_grows_with_cost(cost, costs[key]);
        } else {
            lemma_weight_grows_with_cost(cost, cost);
        }
        if universe.contains(key) && universe.last() != key {
            let i = choose|i: int| 0 <= i < universe.len() && universe[i] == key;
            assert(universe.drop_last()[i] == key);
        }
    }
}

/// The positions at which the transitions of the graph arrive, each by its
/// number.
pub(crate) open spec fn arrivals(transitions: TransitionRows) -> Seq<u128> {
    transitions.dom().to_seq().map_values(
        |row: (NodeRow, (CostedRow, TransitionRow))| node_key(WayTransition::of_row(row.1.1).target()),
    )
}

proof fn lemma_arrivals_complete(
    transitions: TransitionRows,
    node: NodeRow,
    costed: CostedRow,
    transition: TransitionRow,
)
    requires
        transitions.count((node, (costed, transition))) > 0,
    ensures
        arrivals(transitions).contains(node_key(WayTransition::of_row(transition).target())),
{
    broadcast use vstd::multiset::group_multiset_axioms;

    let rows = transitions.dom().to_seq();
    transitions.dom().lemma_to_seq_to_set_id();
    assert(transitions.dom().contains((node, (costed, transition))));
    assert(rows.to_set().contains((node, (costed, transition))));
    let i = choose|i: int| 0 <= i < rows.len() && rows[i] == (node, (costed, transition));
    assert(arrivals(transitions)[i] == node_key(WayTransition::of_row(transition).target()));
}

/// The search log is sound: it begins with the start, and each later state
/// follows a state that stands before it.
pub(crate) open spec fn log_ok(graph: &Graph, start: SearchNode, log: Seq<SearchState>) -> bool {
    &&& log.len() >= 1
    &&& log[0] == SearchState::root(start)
    &&& forall|i: int|
        1 <= i < log.len() ==> {
            &&& (#[trigger] log[i]).idx == i
            &&& log[i].previous < i
            &&& follows(graph, log[log[i].previous as int], log[i])
        }
}

/// The state at place `place` of the log waits in the frontier.
pub(crate) open spec fn waiting(frontier: Seq<SearchState>, place: int) -> bool {
    exists|p: int| 0 <= p < frontier.len() && (#[trigger] frontier[p]).idx == place
}

/// The log holds a state, other than the first, at the position with the
/// number `key` and at the cost `cost`.
pub(crate) open spec fn logged(log: Seq<SearchState>, key: u128, cost: RoutingCost) -> bool {
    exists|j: int|
        1 <= j < log.len() && node_key((#[trigger] log[j]).node) == key && log[j].cost == cost
}

/// The frontier, the best costs and the log of a search agree: the log is
/// sound, the frontier holds states of the log, and each position with a
/// best cost is one at which a transition of the graph arrives and stands in
/// the log at that cost.
pub(crate) open spec fn in_step(
    graph: &Graph,
    start: SearchNode,
    frontier: Seq<SearchState>,
    costs: Map<u128, RoutingCost>,
    log: Seq<SearchState>,
) -> bool {
    &&& log_ok(graph, start, log)
    &&& forall|p: int|
        0 <= p < frontier.len() ==> (#[trigger] frontier[p]).idx < log.len() && log[frontier[p].idx as int]
            == frontier[p]
    &&& forall|key: u128| #[trigger]
        costs.dom().contains(key) ==> logged(log, key, costs[key]) && arrivals(
            graph.transitions(),
        ).contains(key)
}

/// `longer` begins with `shorter`.
pub open spec fn extends<T>(shorter: Seq<T>, longer: Seq<T>) -> bool {
    &&& shorter.len() <= longer.len()
    &&& forall|i: int| 0 <= i < shorter.len() ==> longer[i] == shorter[i]
}

/// Every state that waits in the first frontier waits in the second.
pub(crate) open spec fn keeps(frontier: Seq<SearchState>, new_frontier: Seq<SearchState>) -> bool {
    &&& frontier.len() <= new_frontier.len()
    &&& forall|state: SearchState| frontier.contains(state) ==> new_frontier.contains(state)
}

/// A search that stood at the first frontier, best costs and log has moved
/// on to the second: nothing was taken back, no best cost has risen, each
/// new state of the log waits in the frontier, and for each new state the
/// potential has fallen.
pub(crate) open spec fn advanced(
    universe: Seq<u128>,
    frontier: Seq<SearchState>,
    costs: Map<u128, RoutingCost>,
    log: Seq<SearchState>,
    new_frontier: Seq<SearchState>,
    new_costs: Map<u128, RoutingCost>,
    new_log: Seq<SearchState>,
) -> bool {
    &&& extends(log, new_log)
    &&& keeps(frontier, new_frontier)
    &&& forall|place: int| log.len() <= place < new_log.len() ==> waiting(new_frontier, place)
    &&& forall|key: u128| #[trigger]
        costs.dom().contains(key) ==> new_costs.dom().contains(key) && new_costs[key].not_above(
            costs[key],
        )
    &&& potential(new_costs, universe) + (new_frontier.len() - frontier.len()) <= potential(
        costs,
        universe,
    )
}

proof fn lemma_waiting_stays(frontier: Seq<SearchState>, new_frontier: Seq<SearchState>, place: int)
    requires
        keeps(frontier, new_frontier),
        waiting(frontier, place),
    ensures
        waiting(new_frontier, place),
{
    let p = choose|p: int| 0 <= p < frontier.len() && (#[trigger] frontier[p]).idx == place;
    assert(frontier.contains(frontier[p]));
    let q = choose|q: int| 0 <= q < new_frontier.len() && new_frontier[q] == frontier[p];
    assert(new_frontier[q].idx == place);
}

proof fn lemma_advanced_twice(
    universe: Seq<u128>,
    frontier: Seq<SearchState>,
    costs: Map<u128, RoutingCost>,
    log: Seq<SearchState>,
    middle_frontier: Seq<SearchState>,
    middle_costs: Map<u128, RoutingCost>,
    middle_log: Seq<SearchState>,
    new_frontier: Seq<SearchState>,
    new_costs: Map<u128, RoutingCost>,
    new_log: Seq<SearchState>,
)
    requires
        advanced(universe, frontier, costs, log, middle_frontier, middle_costs, middle_log),
        advanced(universe, middle_frontier, middle_costs, middle_log, new_frontier, new_costs, new_log),
    ensures
        advanced(universe, frontier, costs, log, new_frontier, new_costs, new_log),
{
    assert forall|place: int| log.len() <= place < new_log.len() implies waiting(
        new_frontier,
        place,
    ) by {
        if place < middle_log.len() {
            lemma_waiting_stays(middle_frontier, new_frontier, place);
        }
    }
    assert forall|state: SearchState| frontier.contains(state) implies new_frontier.contains(
        state,
    ) by {
        assert(middle_frontier.contains(state));
    }
}

/// The position at which a step arrives has a best cost, and that is not
/// above the cost of taking the step from a state that costs `cost`.
pub(crate) open spec fn reached_within(
    costs: Map<u128, RoutingCost>,
    cost: RoutingCost,
    coster: WayCoster,
    from: SearchNode,
    via: SearchNode,
    costed: CostedWayTransition,
    transition: WayTransition,
) -> bool {
    &&& costs.dom().contains(node_key(transition.target()))
    &&& costs[node_key(transition.target())].not_above(
        cost.plus(segment(coster, from, via).unwrap()).plus(costed.cost),
    )
}

/// Every step from the state `from` by way of `via` arrives at a position
/// whose best cost is not above the cost of the state and the step.
pub(crate) open spec fn explored_by_way_of(
    graph: &Graph,
    costs: Map<u128, RoutingCost>,
    from: SearchState,
    via: SearchNode,
) -> bool {
    forall|coster: WayCoster, costed: CostedWayTransition, transition: WayTransition| #[trigger]
        is_step(graph, from.node, via, coster, costed, transition) ==> reached_within(
            costs,
            from.cost,
            coster,
            from.node,
            via,
            costed,
            transition,
        )
}

/// Every step from the state `from` arrives at a position whose best cost
/// is not above the cost of the state and the step.
pub(crate) open spec fn explored(graph: &Graph, costs: Map<u128, RoutingCost>, from: SearchState) -> bool {
    forall|via: SearchNode, coster: WayCoster, costed: CostedWayTransition, transition: WayTransition| #[trigger]
        is_step(graph, from.node, via, coster, costed, transition) ==> reached_within(
            costs,
            from.cost,
            coster,
            from.node,
            via,
            costed,
            transition,
        )
}

/// No part of the cost has reached the end of its range.
pub open spec fn unsaturated(cost: RoutingCost) -> bool {
    cost.cost_millis.0 < u64::MAX && cost.actual_millis.0 < u64::MAX && cost.distance_mm.0
        < u64::MAX
}

/// Adding the same to two costs keeps their order, as long as the greater
/// sum stays within the range.
pub proof fn lemma_plus_keeps_order(one: RoutingCost, other: RoutingCost, added: RoutingCost)
    requires
        one.not_above(other),
        unsaturated(other.plus(added)),
    ensures
        one.plus(added).not_above(other.plus(added)),
        unsaturated(other),
{
}

/// Where the steps from a state by way of a stop are explored with some
/// best costs, they are so with best costs that are nowhere higher.
proof fn lemma_explored_by_way_of_stays(
    graph: &Graph,
    costs: Map<u128, RoutingCost>,
    new_costs: Map<u128, RoutingCost>,
    from: SearchState,
    via: SearchNode,
)
    requires
        explored_by_way_of(graph, costs, from, via),
        forall|key: u128| #[trigger]
            costs.dom().contains(key) ==> new_costs.dom().contains(key) && new_costs[key].not_above(
                costs[key],
            ),
    ensures
        explored_by_way_of(graph, new_costs, from, via),
{
    assert forall|coster: WayCoster, costed: CostedWayTransition, transition: WayTransition| #[trigger]
        is_step(graph, from.node, via, coster, costed, transition) implies reached_within(
        new_costs,
        from.cost,
        coster,
        from.node,
        via,
        costed,
        transition,
    ) by {
        assert(reached_within(costs, from.cost, coster, from.node, via, costed, transition));
        assert(costs.dom().contains(node_key(transition.target())));
    }
}

/// Where the steps from a state by way of each of its next stops are
/// explored, every step from it is.
proof fn lemma_explored_through_stops(
    graph: &Graph,
    costs: Map<u128, RoutingCost>,
    from: SearchState,
    stops: NextStops,
)
    requires
        forall|via: SearchNode| stops.holds(via) <==> next_stop(graph.nodes(), from.node, via),
        forall|via: SearchNode| stops.holds(via) ==> explored_by_way_of(graph, costs, from, via),
    ensures
        explored(graph, costs, from),
{
    assert forall|
        via: SearchNode,
        coster: WayCoster,
        costed: CostedWayTransition,
        transition: WayTransition,
    | #[trigger] is_step(graph, from.node, via, coster, costed, transition) implies reached_within(
        costs,
        from.cost,
        coster,
        from.node,
        via,
        costed,
        transition,
    ) by {
        assert(stops.holds(via));
        assert(explored_by_way_of(graph, costs, from, via));
    }
}

/// A step kept: where every step from a state is explored with some best
/// costs, it is so with best costs that are nowhere higher.
proof fn lemma_explored_stays(
    graph: &Graph,
    costs: Map<u128, RoutingCost>,
    new_costs: Map<u128, RoutingCost>,
    from: SearchState,
)
    requires
        explored(graph, costs, from),
        forall|key: u128| #[trigger]
            costs.dom().contains(key) ==> new_costs.dom().contains(key) && new_costs[key].not_above(
                costs[key],
            ),
    ensures
        explored(graph, new_costs, from),
{
    assert forall|
        via: SearchNode,
        coster: WayCoster,
        costed: CostedWayTransition,
        transition: WayTransition,
    | #[trigger] is_step(graph, from.node, via, coster, costed, transition) implies reached_within(
        new_costs,
        from.cost,
        coster,
        from.node,
        via,
        costed,
        transition,
    ) by {
        assert(reached_within(costs, from.cost, coster, from.node, via, costed, transition));
        assert(costs.dom().contains(node_key(transition.target())));
    }
}

/// No coster stored for the way of `from` lets a traveller go from `from`
/// to `via`.
pub open spec fn impassable(graph: &Graph, from: SearchNode, via: SearchNode) -> bool {
    forall|coster: WayCoster|
        graph.ways().count((from.way.0, #[trigger] coster.row())) > 0 ==> segment(coster, from, via)
            is None
}

/// One of the first `upto` transitions of `group` arrives at the position
/// with the number `key`.
pub open spec fn entered_by(
    group: Seq<(CostedWayTransition, WayTransition)>,
    upto: int,
    key: u128,
) -> bool {
    exists|m: int| 0 <= m < upto && node_key((#[trigger] group[m]).1.target()) == key
}

/// The state `arrival` stands at place `place` of the log, and it was
/// reached from the state at place `previous`, which costs `base` at the
/// stop `via`, by one of the first `upto` transitions of `group`, more
/// cheaply than `costs` knew its position to be reached.
pub open spec fn arrives_by(
    previous: usize,
    via: SearchNode,
    base: RoutingCost,
    group: Seq<(CostedWayTransition, WayTransition)>,
    upto: int,
    costs: Map<u128, RoutingCost>,
    arrival: SearchState,
    place: int,
) -> bool {
    &&& arrival.idx == place
    &&& arrival.previous == previous
    &&& arrival.via == via
    &&& exists|m: int|
        0 <= m < upto && (#[trigger] group[m]).1.target() == arrival.node && arrival.cost == base.plus(
            group[m].0.cost,
        )
    &&& costs.dom().contains(node_key(arrival.node)) ==> arrival.cost.below(
        costs[node_key(arrival.node)],
    )
}

/// The best cost of the position with the number `key` is the least of the
/// cost that `costs` knew and the costs of arriving there from a state that
/// costs `base` by one of the first `upto` transitions of `group`.
pub open spec fn least_known(
    base: RoutingCost,
    group: Seq<(CostedWayTransition, WayTransition)>,
    upto: int,
    costs: Map<u128, RoutingCost>,
    new_costs: Map<u128, RoutingCost>,
    key: u128,
) -> bool {
    &&& costs.dom().contains(key) ==> new_costs[key].not_above(costs[key])
    &&& forall|m: int|
        0 <= m < upto && node_key((#[trigger] group[m]).1.target()) == key
            ==> new_costs[key].not_above(base.plus(group[m].0.cost))
    &&& {
        ||| costs.dom().contains(key) && new_costs[key] == costs[key]
        ||| exists|m: int|
            0 <= m < upto && node_key((#[trigger] group[m]).1.target()) == key && new_costs[key]
                == base.plus(group[m].0.cost)
    }
}

/// `state` is one of the states by which `new_log` is longer than `log`.
pub open spec fn newly_logged(
    log: Seq<SearchState>,
    new_log: Seq<SearchState>,
    state: SearchState,
) -> bool {
    exists|j: int| log.len() <= j < new_log.len() && #[trigger] new_log[j] == state
}

/// The log holds, among the states by which `new_log` is longer than `log`,
/// one at the position with the number `key` and at the cost `cost`.
pub open spec fn newly_reached(
    log: Seq<SearchState>,
    new_log: Seq<SearchState>,
    key: u128,
    cost: RoutingCost,
) -> bool {
    exists|j: int|
        log.len() <= j < new_log.len() && node_key((#[trigger] new_log[j]).node) == key
            && new_log[j].cost == cost
}

/// The first `upto` transitions of `group` were tried from the state at
/// place `previous` of the log, which costs `base` at the stop `via`:
///
/// - each state added to the log arrives by one of them, more cheaply than
///   was known before, and the frontier has grown by just these states;
/// - a position has a best cost where it had one or one of them arrives at
///   it, and that is the least of the cost known before and the costs of
///   arriving by them;
/// - a position whose best cost is new or has fallen stands in the log at
///   that cost, among the states added;
/// - a position at which none of them arrives keeps what it had.
pub open spec fn relaxed(
    previous: usize,
    via: SearchNode,
    base: RoutingCost,
    group: Seq<(CostedWayTransition, WayTransition)>,
    upto: int,
    frontier: Seq<SearchState>,
    costs: Map<u128, RoutingCost>,
    log: Seq<SearchState>,
    new_frontier: Seq<SearchState>,
    new_costs: Map<u128, RoutingCost>,
    new_log: Seq<SearchState>,
) -> bool {
    &&& extends(log, new_log)
    &&& forall|j: int|
        log.len() <= j < new_log.len() ==> arrives_by(
            previous,
            via,
            base,
            group,
            upto,
            costs,
            #[trigger] new_log[j],
            j,
        )
    &&& new_frontier.len() == frontier.len() + (new_log.len() - log.len())
    &&& forall|other: SearchState| #[trigger]
        new_frontier.contains(other) <==> frontier.contains(other) || newly_logged(
            log,
            new_log,
            other,
        )
    &&& forall|key: u128| #[trigger]
        new_costs.dom().contains(key) <==> costs.dom().contains(key) || entered_by(group, upto, key)
    &&& forall|key: u128| #[trigger]
        new_costs.dom().contains(key) ==> least_known(base, group, upto, costs, new_costs, key)
    &&& forall|key: u128| #[trigger]
        new_costs.dom().contains(key) && !(costs.dom().contains(key) && new_costs[key]
            == costs[key]) ==> newly_reached(log, new_log, key, new_costs[key])
    &&& forall|key: u128| #[trigger]
        costs.dom().contains(key) && !entered_by(group, upto, key) ==> new_costs[key]
            == costs[key]
}

/// What a search makes of the stretch from `state` to `via` with the
/// coster `coster`: where the coster lets it pass, each transition of
/// `group` is tried at the cost of the state and the stretch; where it does
/// not, frontier, best costs and log stay as they were.
pub open spec fn went_by(
    coster: WayCoster,
    state: SearchState,
    via: SearchNode,
    group: Seq<(CostedWayTransition, WayTransition)>,
    frontier: Seq<SearchState>,
    costs: Map<u128, RoutingCost>,
    log: Seq<SearchState>,
    new_frontier: Seq<SearchState>,
    new_costs: Map<u128, RoutingCost>,
    new_log: Seq<SearchState>,
) -> bool {
    match segment(coster, state.node, via) {
        Some(charge) => relaxed(
            state.idx,
            via,
            state.cost.plus(charge),
            group,
            group.len() as int,
            frontier,
            costs,
            log,
            new_frontier,
            new_costs,
            new_log,
        ),
        None => new_frontier == frontier && new_costs == costs && new_log == log,
    }
}

/// Before any transition is tried, nothing has changed.
proof fn lemma_relaxed_at_first(
    previous: usize,
    via: SearchNode,
    base: RoutingCost,
    group: Seq<(CostedWayTransition, WayTransition)>,
    frontier: Seq<SearchState>,
    costs: Map<u128, RoutingCost>,
    log: Seq<SearchState>,
)
    ensures
        relaxed(previous, via, base, group, 0, frontier, costs, log, frontier, costs, log),
{
    assert forall|key: u128| #[trigger] costs.dom().contains(key) implies least_known(
        base,
        group,
        0,
        costs,
        costs,
        key,
    ) by {}
}

/// A transition that arrives no more cheaply than is known changes nothing.
proof fn lemma_relaxed_pass(
    previous: usize,
    via: SearchNode,
    base: RoutingCost,
    group: Seq<(CostedWayTransition, WayTransition)>,
    upto: int,
    frontier: Seq<SearchState>,
    costs: Map<u128, RoutingCost>,
    log: Seq<SearchState>,
    new_frontier: Seq<SearchState>,
    new_costs: Map<u128, RoutingCost>,
    new_log: Seq<SearchState>,
)
    requires
        0 <= upto < group.len(),
        relaxed(previous, via, base, group, upto, frontier, costs, log, new_frontier, new_costs, new_log),
        new_costs.dom().contains(node_key(group[upto].1.target())),
        !base.plus(group[upto].0.cost).below(new_costs[node_key(group[upto].1.target())]),
    ensures
        relaxed(
            previous,
            via,
            base,
            group,
            upto + 1,
            frontier,
            costs,
            log,
            new_frontier,
            new_costs,
            new_log,
        ),
{
    assert forall|j: int| log.len() <= j < new_log.len() implies arrives_by(
        previous,
        via,
        base,
        group,
        upto + 1,
        costs,
        #[trigger] new_log[j],
        j,
    ) by {
        assert(arrives_by(previous, via, base, group, upto, costs, new_log[j], j));
    }
    assert forall|key: u128| #[trigger] new_costs.dom().contains(key) implies least_known(
        base,
        group,
        upto + 1,
        costs,
        new_costs,
        key,
    ) by {
        assert(least_known(base, group, upto, costs, new_costs, key));
    }
    assert forall|key: u128| entered_by(group, upto + 1, key) implies #[trigger] new_costs.dom().contains(
        key,
    ) by {
        let m = choose|m: int| 0 <= m < upto + 1 && node_key((#[trigger] group[m]).1.target()) == key;
        if m < upto {
            assert(entered_by(group, upto, key));
        }
    }
    assert forall|key: u128| #[trigger]
        costs.dom().contains(key) && !entered_by(group, upto + 1, key) implies new_costs[key]
        == costs[key] by {
        if entered_by(group, upto, key) {
            let m = choose|m: int| 0 <= m < upto && node_key((#[trigger] group[m]).1.target()) == key;
            assert(0 <= m < upto + 1);
        }
    }
    assert forall|key: u128| #[trigger] new_costs.dom().contains(key) implies costs.dom().contains(key)
        || entered_by(group, upto + 1, key) by {
        if !costs.dom().contains(key) {
            assert(entered_by(group, upto, key));
            let m = choose|m: int| 0 <= m < upto && node_key((#[trigger] group[m]).1.target()) == key;
            assert(0 <= m < upto + 1);
        }
    }
}

/// A transition that arrives more cheaply than is known gives its position
/// a new state and that cost.
proof fn lemma_relaxed_arrival(
    previous: usize,
    via: SearchNode,
    base: RoutingCost,
    group: Seq<(CostedWayTransition, WayTransition)>,
    upto: int,
    frontier: Seq<SearchState>,
    costs: Map<u128, RoutingCost>,
    log: Seq<SearchState>,
    middle_frontier: Seq<SearchState>,
    middle_costs: Map<u128, RoutingCost>,
    middle_log: Seq<SearchState>,
    new_frontier: Seq<SearchState>,
    arrival: SearchState,
)
    requires
        0 <= upto < group.len(),
        relaxed(
            previous,
            via,
            base,
            group,
            upto,
            frontier,
            costs,
            log,
            middle_frontier,
            middle_costs,
            middle_log,
        ),
        arrival == (SearchState {
            previous,
            idx: middle_log.len() as usize,
            node: group[upto].1.target(),
            via,
            cost: base.plus(group[upto].0.cost),
        }),
        middle_log.len() <= usize::MAX,
        middle_costs.dom().contains(node_key(arrival.node)) ==> arrival.cost.below(
            middle_costs[node_key(arrival.node)],
        ),
        new_frontier.len() == middle_frontier.len() + 1,
        forall|other: SearchState|
            new_frontier.contains(other) <==> middle_frontier.contains(other) || other == arrival,
    ensures
        relaxed(
            previous,
            via,
            base,
            group,
            upto + 1,
            frontier,
            costs,
            log,
            new_frontier,
            middle_costs.insert(node_key(arrival.node), arrival.cost),
            middle_log.push(arrival),
        ),
{
    let tried = node_key(arrival.node);
    let new_costs = middle_costs.insert(tried, arrival.cost);
    let new_log = middle_log.push(arrival);
    let last = middle_log.len() as int;
    assert(new_log[last] == arrival);
    if costs.dom().contains(tried) {
        assert(middle_costs.dom().contains(tried));
        assert(least_known(base, group, upto, costs, middle_costs, tried));
    }
    assert forall|j: int| log.len() <= j < new_log.len() implies arrives_by(
        previous,
        via,
        base,
        group,
        upto + 1,
        costs,
        #[trigger] new_log[j],
        j,
    ) by {
        if j < last {
            assert(new_log[j] == middle_log[j]);
            assert(arrives_by(previous, via, base, group, upto, costs, middle_log[j], j));
        } else {
            assert(group[upto].1.target() == arrival.node);
        }
    }
    assert forall|other: SearchState| #[trigger]
        new_frontier.contains(other) <==> frontier.contains(other) || newly_logged(
            log,
            new_log,
            other,
        ) by {
        if newly_logged(log, middle_log, other) {
            let j = choose|j: int| log.len() <= j < middle_log.len() && #[trigger] middle_log[j] == other;
            assert(new_log[j] == other);
        }
        if newly_logged(log, new_log, other) {
            let j = choose|j: int| log.len() <= j < new_log.len() && #[trigger] new_log[j] == other;
            if j < last {
                assert(middle_log[j] == other);
            }
        }
        if other == arrival {
            assert(new_log[last] == other);
        }
        assert(middle_frontier.contains(other) <==> frontier.contains(other) || newly_logged(
            log,
            middle_log,
            other,
        ));
    }
    assert forall|key: u128| #[trigger]
        new_costs.dom().contains(key) <==> costs.dom().contains(key) || entered_by(
            group,
            upto + 1,
            key,
        ) by {
        assert(middle_costs.dom().contains(key) <==> costs.dom().contains(key) || entered_by(
            group,
            upto,
            key,
        ));
        if entered_by(group, upto, key) {
            let m = choose|m: int| 0 <= m < upto && node_key((#[trigger] group[m]).1.target()) == key;
            assert(0 <= m < upto + 1);
        }
        if entered_by(group, upto + 1, key) {
            let m = choose|m: int| 0 <= m < upto + 1 && node_key((#[trigger] group[m]).1.target()) == key;
            if m < upto {
                assert(entered_by(group, upto, key));
            }
        }
        if key == tried {
            assert(node_key(group[upto].1.target()) == key);
        }
    }
    assert forall|key: u128| #[trigger] new_costs.dom().contains(key) implies least_known(
        base,
        group,
        upto + 1,
        costs,
        new_costs,
        key,
    ) by {
        if key == tried {
            assert forall|m: int|
                0 <= m < upto + 1 && node_key((#[trigger] group[m]).1.target()) == key implies new_costs[key].not_above(
                base.plus(group[m].0.cost),
            ) by {
                if m < upto {
                    assert(entered_by(group, upto, key));
                    assert(middle_costs.dom().contains(key));
                    assert(least_known(base, group, upto, costs, middle_costs, key));
                }
            }
            assert(node_key(group[upto].1.target()) == key);
        } else {
            assert(middle_costs.dom().contains(key));
            assert(least_known(base, group, upto, costs, middle_costs, key));
            if !(costs.dom().contains(key) && middle_costs[key] == costs[key]) {
                let m = choose|m: int|
                    0 <= m < upto && node_key((#[trigger] group[m]).1.target()) == key
                        && middle_costs[key] == base.plus(group[m].0.cost);
                assert(0 <= m < upto + 1);
            }
        }
    }
    assert forall|key: u128| #[trigger]
        new_costs.dom().contains(key) && !(costs.dom().contains(key) && new_costs[key]
            == costs[key]) implies newly_reached(log, new_log, key, new_costs[key]) by {
        if key == tried {
            assert(node_key(new_log[last].node) == key);
        } else {
            assert(middle_costs.dom().contains(key));
            assert(newly_reached(log, middle_log, key, middle_costs[key]));
            let j = choose|j: int|
                log.len() <= j < middle_log.len() && node_key((#[trigger] middle_log[j]).node) == key
                    && middle_log[j].cost == middle_costs[key];
            assert(new_log[j] == middle_log[j]);
        }
    }
    assert forall|key: u128| #[trigger]
        costs.dom().contains(key) && !entered_by(group, upto + 1, key) implies new_costs[key]
        == costs[key] by {
        if key == tried {
            assert(node_key(group[upto].1.target()) == key);
        }
        if entered_by(group, upto, key) {
            let m = choose|m: int| 0 <= m < upto && node_key((#[trigger] group[m]).1.target()) == key;
            assert(0 <= m < upto + 1);
        }
    }
}

/// The relaxation, for a position at which just one transition of the group
/// arrives. Where the position had no best cost, or a higher one than the
/// cost of arriving by that transition, that cost is its best now, and a
/// state at the position, at that cost, reached from the state at place
/// `previous` by way of `via`, stands at its own place among the states added
/// to the log and waits in the frontier. Otherwise the best cost is what it
/// was, and no state at the position was added to the log or to the
/// frontier.
pub proof fn lemma_relaxed_one_target(
    previous: usize,
    via: SearchNode,
    base: RoutingCost,
    group: Seq<(CostedWayTransition, WayTransition)>,
    frontier: Seq<SearchState>,
    costs: Map<u128, RoutingCost>,
    log: Seq<SearchState>,
    new_frontier: Seq<SearchState>,
    new_costs: Map<u128, RoutingCost>,
    new_log: Seq<SearchState>,
    place: int,
)
    requires
        relaxed(
            previous,
            via,
            base,
            group,
            group.len() as int,
            frontier,
            costs,
            log,
            new_frontier,
            new_costs,
            new_log,
        ),
        0 <= place < group.len(),
        forall|m: int|
            0 <= m < group.len() && m != place ==> (#[trigger] group[m]).1.target()
                != group[place].1.target(),
    ensures
        ({
            let target = group[place].1.target();
            let key = node_key(target);
            let cost = base.plus(group[place].0.cost);
            if !costs.dom().contains(key) || cost.below(costs[key]) {
                &&& new_costs.dom().contains(key)
                &&& new_costs[key] == cost
                &&& exists|j: int|
                    log.len() <= j < new_log.len() && #[trigger] new_log[j] == (SearchState {
                        previous,
                        idx: j as usize,
                        node: target,
                        via,
                        cost,
                    }) && new_frontier.contains(new_log[j])
            } else {
                &&& new_costs[key] == costs[key]
                &&& forall|j: int|
                    log.len() <= j < new_log.len() ==> (#[trigger] new_log[j]).node != target
                &&& forall|other: SearchState|
                    new_frontier.contains(other) && other.node == target ==> frontier.contains(
                        other,
                    )
            }
        }),
{
    let upto = group.len() as int;
    let target = group[place].1.target();
    let key = node_key(target);
    let cost = base.plus(group[place].0.cost);
    assert(entered_by(group, upto, key));
    assert(new_costs.dom().contains(key));
    assert(least_known(base, group, upto, costs, new_costs, key));
    assert forall|m: int|
        0 <= m < group.len() && node_key((#[trigger] group[m]).1.target()) == key implies m
        == place by {
        lemma_node_key_injective(group[m].1.target(), target);
    }
    if !costs.dom().contains(key) || cost.below(costs[key]) {
        assert(new_costs[key] == cost);
        assert(newly_reached(log, new_log, key, new_costs[key]));
        let j = choose|j: int|
            log.len() <= j < new_log.len() && node_key((#[trigger] new_log[j]).node) == key
                && new_log[j].cost == new_costs[key];
        lemma_node_key_injective(new_log[j].node, target);
        assert(arrives_by(previous, via, base, group, upto, costs, new_log[j], j));
        assert(newly_logged(log, new_log, new_log[j]));
        assert(new_log[j] == (SearchState { previous, idx: j as usize, node: target, via, cost }));
    } else {
        assert forall|j: int| log.len() <= j < new_log.len() implies (#[trigger] new_log[j]).node
            != target by {
            assert(arrives_by(previous, via, base, group, upto, costs, new_log[j], j));
        }
        assert forall|other: SearchState|
            new_frontier.contains(other) && other.node == target implies frontier.contains(
            other,
        ) by {
            if newly_logged(log, new_log, other) {
                let j = choose|j: int| log.len() <= j < new_log.len() && #[trigger] new_log[j] == other;
                assert(new_log[j].node != target);
            }
        }
    }
}

impl Graph {
    /// Takes the search from `state` along its way to the stop `via` and by
    /// each transition of `costed_transitions`, which are those that leave
    /// `via`: a position reached for the first time, or more cheaply than
    /// before, gets a new state in the log and in the frontier, and that
    /// cost as its best. Nothing happens where the way is not known or
    /// cannot be travelled from the state to the stop.
    ///
    /// The stretch from the state to the stop is charged by a coster of the
    /// way; where the way has several, by one of them.
    pub(crate) fn process_transition_set(
        &self,
        costed_transitions: &Vec<(CostedWayTransition, WayTransition)>,
        via: &SearchNode,
        state: &SearchState,
        frontier: &mut Frontier,
        costs: &mut HashMap<u128, RoutingCost>,
        step_log: &mut Vec<SearchState>,
        Ghost(start): Ghost<SearchNode>,
    )
        requires
            in_step(self, start, old(frontier)@, old(costs)@, old(step_log)@),
            state.idx < old(step_log)@.len(),
            old(step_log)@[state.idx as int] == *state,
            next_stop(self.nodes(), state.node, *via),
            forall|costed: CostedWayTransition, transition: WayTransition|
                costed_transitions@.to_multiset().count((costed, transition))
                    == self.transitions().count((via.row(), (costed.row(), transition.row()))),
        ensures
            in_step(self, start, final(frontier)@, final(costs)@, final(step_log)@),
            advanced(
                arrivals(self.transitions()),
                old(frontier)@,
                old(costs)@,
                old(step_log)@,
                final(frontier)@,
                final(costs)@,
                final(step_log)@,
            ),
            unambiguous(self.ways()) ==> explored_by_way_of(self, final(costs)@, *state, *via),
            impassable(self, state.node, *via) ==> final(frontier)@ == old(frontier)@ && final(costs)@
                == old(costs)@ && final(step_log)@ == old(step_log)@,
            !has_coster(self.ways(), state.node.way.0) ==> final(frontier)@ == old(frontier)@
                && final(costs)@ == old(costs)@ && final(step_log)@ == old(step_log)@,
            has_coster(self.ways(), state.node.way.0) ==> exists|coster: WayCoster|
                self.ways().count((state.node.way.0, coster.row())) > 0 && #[trigger] went_by(
                    coster,
                    *state,
                    *via,
                    costed_transitions@,
                    old(frontier)@,
                    old(costs)@,
                    old(step_log)@,
                    final(frontier)@,
                    final(costs)@,
                    final(step_log)@,
                ),
    {
        broadcast use group_hash_axioms;
        broadcast use vstd::seq_lib::group_to_multiset_ensures;

        let from_mm: i64 = state.node.distance_along_way_mm as i64;
        let via_mm: i64 = via.distance_along_way_mm as i64;
        let distance = TravelledDistance(
            if from_mm <= via_mm {
                (via_mm - from_mm) as u64
            } else {
                (from_mm - via_mm) as u64
            },
        );
        let direction = if state.node.distance_along_way_mm < via.distance_along_way_mm {
            Direction::Forward
        } else {
            Direction::Reverse
        };
        let coster = match self.way_coster(state.node.way) {
            Some(coster) => coster,
            None => {
                return ;
            },
        };
        let segment_cost = match coster.cost_way_segment(distance, direction) {
            Some(segment_cost) => segment_cost,
            None => {
                proof {
                    assert(went_by(
                        coster,
                        *state,
                        *via,
                        costed_transitions@,
                        frontier@,
                        costs@,
                        step_log@,
                        frontier@,
                        costs@,
                        step_log@,
                    ));
                    if unambiguous(self.ways()) {
                        assert forall|
                            other: WayCoster,
                            costed: CostedWayTransition,
                            transition: WayTransition,
                        | #[trigger] is_step(self, state.node, *via, other, costed, transition) implies false by {
                            assert(other == coster);
                        }
                    }
                }
                return ;
            },
        };
        let new_cost = state.cost + segment_cost;
        let ghost universe = arrivals(self.transitions());
        let ghost old_costs = costs@;
        let ghost old_log = step_log@;
        let ghost old_frontier = frontier@;
        let mut i: usize = 0;
        proof {
            lemma_relaxed_at_first(
                state.idx,
                *via,
                new_cost,
                costed_transitions@,
                old_frontier,
                old_costs,
                old_log,
            );
        }
        while i < costed_transitions.len()
            invariant
                i <= costed_transitions.len(),
                universe == arrivals(self.transitions()),
                relaxed(
                    state.idx,
                    *via,
                    new_cost,
                    costed_transitions@,
                    i as int,
                    old_frontier,
                    old_costs,
                    old_log,
                    frontier@,
                    costs@,
                    step_log@,
                ),
                in_step(self, start, frontier@, costs@, step_log@),
                advanced(universe, old_frontier, old_costs, old_log, frontier@, costs@, step_log@),
                state.idx < old_log.len(),
                old_log[state.idx as int] == *state,
                next_stop(self.nodes(), state.node, *via),
                self.ways().count((state.node.way.0, coster.row())) > 0,
                segment(coster, state.node, *via) == Some(segment_cost),
                new_cost == state.cost.plus(segment_cost),
                forall|costed: CostedWayTransition, transition: WayTransition|
                    costed_transitions@.to_multiset().count((costed, transition))
                        == self.transitions().count((via.row(), (costed.row(), transition.row()))),
                forall|j: int|
                    0 <= j < i ==> costs@.dom().contains(
                        node_key((#[trigger] costed_transitions@[j]).1.target()),
                    ) && costs@[node_key(costed_transitions@[j].1.target())].not_above(
                        new_cost.plus(costed_transitions@[j].0.cost),
                    ),
            decreases costed_transitions.len() - i,
        {
            let (costed, transition) = costed_transitions[i];
            let new_node = SearchNode {
                way: transition.to_way_id,
                distance_along_way_mm: transition.transition_to_distance_along_way_mm,
            };
            let new_state = SearchState {
                previous: state.idx,
                idx: step_log.len(),
                node: new_node,
                via: *via,
                cost: new_cost + costed.cost,
            };
            let key = key_of(&new_node);
            let better = match costs.get(&key) {
                Some(best) => new_state.cost.is_below(best),
                None => true,
            };
            proof {
                costed_transitions@.to_multiset_ensures();
                assert(costed_transitions@[i as int] == (costed, transition));
                assert(costed_transitions@.contains((costed, transition)));
                assert(costed_transitions@.to_multiset().count((costed, transition)) > 0);
                assert(self.transitions().count((via.row(), (costed.row(), transition.row()))) > 0);
            }
            if better {
                let ghost before_costs = costs@;
                let ghost before_log = step_log@;
                let ghost before_frontier = frontier@;
                frontier.push(new_state);
                costs.insert(key, new_state.cost);
                step_log.push(new_state);
                proof {
                    lemma_relaxed_arrival(
                        state.idx,
                        *via,
                        new_cost,
                        costed_transitions@,
                        i as int,
                        old_frontier,
                        old_costs,
                        old_log,
                        before_frontier,
                        before_costs,
                        before_log,
                        frontier@,
                        new_state,
                    );
                    lemma_arrivals_complete(
                        self.transitions(),
                        via.row(),
                        costed.row(),
                        transition.row(),
                    );
                    assert(WayTransition::of_row(transition.row()) == transition);
                    lemma_potential_falls(before_costs, universe, key, new_state.cost);
                    assert(is_step(self, state.node, *via, coster, costed, transition));
                    assert(before_log[state.idx as int].idx == state.idx);
                    assert(follows(self, before_log[state.idx as int], new_state));
                    assert(step_log@[step_log@.len() - 1] == new_state);
                    assert(logged(step_log@, key, new_state.cost));
                    assert forall|other: u128| #[trigger] costs@.dom().contains(other) implies logged(
                        step_log@,
                        other,
                        costs@[other],
                    ) && universe.contains(other) by {
                        if other != key {
                            assert(before_costs.dom().contains(other));
                            let j = choose|j: int|
                                1 <= j < before_log.len() && node_key((#[trigger] before_log[j]).node)
                                    == other && before_log[j].cost == before_costs[other];
                            assert(node_key(step_log@[j].node) == other);
                        }
                    }
                    assert forall|j: int| 0 <= j < i implies costs@.dom().contains(
                        node_key((#[trigger] costed_transitions@[j]).1.target()),
                    ) && costs@[node_key(costed_transitions@[j].1.target())].not_above(
                        new_cost.plus(costed_transitions@[j].0.cost),
                    ) by {
                        let other = node_key(costed_transitions@[j].1.target());
                        assert(before_costs.dom().contains(other));
                        if other == key {
                            assert(new_state.cost.below(before_costs[key]));
                        }
                    }
                    assert forall|p: int| 0 <= p < frontier@.len() implies (#[trigger] frontier@[p]).idx
                        < step_log@.len() && step_log@[frontier@[p].idx as int] == frontier@[p] by {
                        assert(frontier@.contains(frontier@[p]));
                        if frontier@[p] != new_state {
                            assert(before_frontier.contains(frontier@[p]));
                            let q = choose|q: int|
                                0 <= q < before_frontier.len() && before_frontier[q] == frontier@[p];
                            assert(before_frontier[q].idx < before_log.len());
                        }
                    }
                    assert forall|place: int|
                        1 <= place < step_log@.len() implies (#[trigger] step_log@[place]).idx == place
                        && step_log@[place].previous < place && follows(
                        self,
                        step_log@[step_log@[place].previous as int],
                        step_log@[place],
                    ) by {
                        if place < before_log.len() {
                            assert(step_log@[place] == before_log[place]);
                            assert(step_log@[before_log[place].previous as int]
                                == before_log[before_log[place].previous as int]);
                        }
                    }
                    assert(frontier@.contains(new_state));
                    let at = choose|at: int| 0 <= at < frontier@.len() && frontier@[at] == new_state;
                    assert(frontier@[at].idx == before_log.len());
                    assert(waiting(frontier@, before_log.len() as int));
                    assert(advanced(
                        universe,
                        before_frontier,
                        before_costs,
                        before_log,
                        frontier@,
                        costs@,
                        step_log@,
                    ));
                    lemma_advanced_twice(
                        universe,
                        old_frontier,
                        old_costs,
                        old_log,
                        before_frontier,
                        before_costs,
                        before_log,
                        frontier@,
                        costs@,
                        step_log@,
                    );
                }
            } else {
                proof {
                    lemma_relaxed_pass(
                        state.idx,
                        *via,
                        new_cost,
                        costed_transitions@,
                        i as int,
                        old_frontier,
                        old_costs,
                        old_log,
                        frontier@,
                        costs@,
                        step_log@,
                    );
                }
            }
            proof {
                assert(costed_transitions@[i as int].1.target() == new_node);
                assert(costs@[key].not_above(new_cost.plus(costed.cost)));
            }
            i += 1;
        }
        proof {
            assert(went_by(
                coster,
                *state,
                *via,
                costed_transitions@,
                old_frontier,
                old_costs,
                old_log,
                frontier@,
                costs@,
                step_log@,
            ));
            if unambiguous(self.ways()) {
                assert forall|
                    other: WayCoster,
                    costed: CostedWayTransition,
                    transition: WayTransition,
                | #[trigger] is_step(self, state.node, *via, other, costed, transition) implies reached_within(
                    costs@,
                    state.cost,
                    other,
                    state.node,
                    *via,
                    costed,
                    transition,
                ) by {
                    assert(other == coster);
                    costed_transitions@.to_multiset_ensures();
                    assert(costed_transitions@.to_multiset().count((costed, transition)) > 0);
                    assert(costed_transitions@.contains((costed, transition)));
                    let j = choose|j: int|
                        0 <= j < costed_transitions@.len() && costed_transitions@[j] == (
                            costed,
                            transition,
                        );
                    assert(costs@.dom().contains(node_key(costed_transitions@[j].1.target())));
                }
            }
        }
    }
}

/// The stops at which a traveller at some position stops next: the
/// position itself where it is a stop, the closest stop after it and the
/// closest stop before it.
pub struct NextStops {
    pub at: Option<SearchNode>,
    pub after: Option<SearchNode>,
    pub before: Option<SearchNode>,
}

impl NextStops {
    /// `via` is one of the three.
    pub open spec fn holds(self, via: SearchNode) -> bool {
        self.at == Some(via) || self.after == Some(via) || self.before == Some(via)
    }
}

/// Where a set of positions is closed under steps and holds `from`, it
/// holds every position of a path from `from`.
proof fn lemma_path_stays_in_log(
    graph: &Graph,
    costs: Map<u128, RoutingCost>,
    log: Seq<SearchState>,
    path: Seq<SearchNode>,
    upto: int,
)
    requires
        is_path(graph, path),
        0 <= upto < path.len(),
        log.len() >= 1,
        log[0].node == path[0],
        forall|place: int| 0 <= place < log.len() ==> explored(graph, costs, #[trigger] log[place]),
        forall|key: u128| #[trigger] costs.dom().contains(key) ==> logged(log, key, costs[key]),
    ensures
        exists|place: int| 0 <= place < log.len() && (#[trigger] log[place]).node == path[upto],
    decreases upto,
{
    if upto > 0 {
        lemma_path_stays_in_log(graph, costs, log, path, upto - 1);
        let place = choose|place: int|
            0 <= place < log.len() && (#[trigger] log[place]).node == path[upto - 1];
        assert(explored(graph, costs, log[place]));
        assert(edge(graph, path[upto - 1], path[upto - 1 + 1]));
        let (via, coster, costed, transition) = choose|
            via: SearchNode,
            coster: WayCoster,
            costed: CostedWayTransition,
            transition: WayTransition,
        | #[trigger]
            is_step(graph, path[upto - 1], via, coster, costed, transition) && transition.target()
                == path[upto];
        assert(reached_within(
            costs,
            log[place].cost,
            coster,
            log[place].node,
            via,
            costed,
            transition,
        ));
        let key = node_key(path[upto]);
        assert(costs.dom().contains(key));
        assert(logged(log, key, costs[key]));
        let next = choose|j: int|
            1 <= j < log.len() && node_key((#[trigger] log[j]).node) == key && log[j].cost
                == costs[key];
        lemma_node_key_injective(log[next].node, path[upto]);
    }
}

/// The costs of a route do not fall along it.
pub proof fn lemma_route_costs_rise(graph: &Graph, route: Seq<SearchState>, from: int, to: int)
    requires
        0 <= from <= to < route.len(),
        forall|k: int| 0 <= k < route.len() - 1 ==> follows(graph, #[trigger] route[k], route[k + 1]),
    ensures
        route[from].cost.not_above(route[to].cost),
        unsaturated(route[to].cost) ==> unsaturated(route[from].cost),
    decreases to - from,
{
    if from < to {
        lemma_route_costs_rise(graph, route, from, to - 1);
        assert(follows(graph, route[to - 1], route[to - 1 + 1]));
    }
}

/// The heart of the proof that the search finds a cheapest route. At the
/// moment when the state `popped` has been taken out of the frontier, a
/// state of any other route that stays within the range is matched: either
/// `popped` costs no more than it, or a state that the search took up
/// before stands at its position and costs no more than it.
proof fn lemma_route_is_matched(
    graph: &Graph,
    start: SearchNode,
    frontier: Seq<SearchState>,
    costs: Map<u128, RoutingCost>,
    log: Seq<SearchState>,
    done: Set<int>,
    popped: SearchState,
    other: Seq<SearchState>,
    upto: int,
)
    requires
        log.len() >= 1,
        log[0] == SearchState::root(start),
        popped.idx < log.len(),
        log[popped.idx as int] == popped,
        forall|p: int|
            0 <= p < frontier.len() ==> (#[trigger] frontier[p]).idx < log.len() && log[frontier[p].idx as int]
                == frontier[p] && popped.cost.not_above(frontier[p].cost),
        forall|key: u128| #[trigger] costs.dom().contains(key) ==> logged(log, key, costs[key]),
        forall|place: int|
            0 <= place < log.len() && place != popped.idx ==> done.contains(place) || waiting(
                frontier,
                place,
            ),
        forall|place: int| #[trigger]
            done.contains(place) ==> 0 <= place < log.len() && explored(graph, costs, log[place]),
        other.len() >= 1,
        other[0] == SearchState::root(start),
        forall|k: int| 0 <= k < other.len() - 1 ==> follows(graph, #[trigger] other[k], other[k + 1]),
        0 <= upto < other.len(),
        unsaturated(other[upto].cost),
    ensures
        popped.cost.not_above(other[upto].cost) || exists|place: int|
            #[trigger] done.contains(place) && log[place].node == other[upto].node
                && log[place].cost.not_above(other[upto].cost),
    decreases upto,
{
    if upto == 0 {
        if popped.idx != 0 && !done.contains(0) {
            assert(waiting(frontier, 0));
            let p = choose|p: int| 0 <= p < frontier.len() && (#[trigger] frontier[p]).idx == 0;
            assert(frontier[p] == log[0]);
        }
    } else {
        let prev = other[upto - 1];
        let next = other[upto];
        assert(follows(graph, other[upto - 1], other[upto - 1 + 1]));
        lemma_route_costs_rise(graph, other, upto - 1, upto);
        lemma_route_is_matched(graph, start, frontier, costs, log, done, popped, other, upto - 1);
        if popped.cost.not_above(prev.cost) {
        } else {
            let place = choose|place: int|
                #[trigger] done.contains(place) && log[place].node == prev.node
                    && log[place].cost.not_above(prev.cost);
            let (coster, costed, transition) = choose|
                coster: WayCoster,
                costed: CostedWayTransition,
                transition: WayTransition,
            |
                {
                    &&& #[trigger] is_step(graph, prev.node, next.via, coster, costed, transition)
                    &&& next.node == transition.target()
                    &&& next.cost == prev.cost.plus(segment(coster, prev.node, next.via).unwrap()).plus(
                        costed.cost,
                    )
                };
            let seg = segment(coster, prev.node, next.via).unwrap();
            assert(explored(graph, costs, log[place]));
            assert(is_step(graph, log[place].node, next.via, coster, costed, transition));
            assert(reached_within(
                costs,
                log[place].cost,
                coster,
                log[place].node,
                next.via,
                costed,
                transition,
            ));
            let key = node_key(next.node);
            lemma_plus_keeps_order(prev.cost.plus(seg), prev.cost.plus(seg), costed.cost);
            lemma_plus_keeps_order(log[place].cost, prev.cost, seg);
            lemma_plus_keeps_order(log[place].cost.plus(seg), prev.cost.plus(seg), costed.cost);
            assert(costs[key].not_above(next.cost));
            assert(logged(log, key, costs[key]));
            let j = choose|j: int|
                1 <= j < log.len() && node_key((#[trigger] log[j]).node) == key && log[j].cost
                    == costs[key];
            lemma_node_key_injective(log[j].node, next.node);
            if j == popped.idx {
            } else if done.contains(j) {
            } else {
                assert(waiting(frontier, j));
                let p = choose|p: int| 0 <= p < frontier.len() && (#[trigger] frontier[p]).idx == j;
                assert(frontier[p] == log[j]);
            }
        }
    }
}

impl Graph {
    /// The stops at which a traveller at `from` stops next.
    pub fn next_stops(&self, from: &SearchNode) -> (stops: NextStops)
        ensures
            forall|via: SearchNode| stops.holds(via) <==> next_stop(self.nodes(), *from, via),
    {
        broadcast use vstd::seq_lib::group_to_multiset_ensures;

        let nodes = self.nodes_on_way(from.way);
        let mut at: Option<SearchNode> = None;
        let mut after: Option<SearchNode> = None;
        let mut before: Option<SearchNode> = None;
        let mut i: usize = 0;
        while i < nodes.len()
            invariant
                i <= nodes.len(),
                at matches Some(found) ==> found == *from && nodes@.contains(found),
                after matches Some(found) ==> found.way == from.way && from.distance_along_way_mm
                    < found.distance_along_way_mm && nodes@.contains(found),
                before matches Some(found) ==> found.way == from.way && found.distance_along_way_mm
                    < from.distance_along_way_mm && nodes@.contains(found),
                forall|j: int|
                    0 <= j < i && (#[trigger] nodes@[j]).way == from.way ==> {
                        &&& nodes@[j].distance_along_way_mm == from.distance_along_way_mm ==> at
                            is Some
                        &&& nodes@[j].distance_along_way_mm > from.distance_along_way_mm ==> after
                            is Some && after.unwrap().distance_along_way_mm
                            <= nodes@[j].distance_along_way_mm
                        &&& nodes@[j].distance_along_way_mm < from.distance_along_way_mm ==> before
                            is Some && before.unwrap().distance_along_way_mm
                            >= nodes@[j].distance_along_way_mm
                    },
            decreases nodes.len() - i,
        {
            let node = nodes[i];
            if node.way == from.way {
                if node.distance_along_way_mm == from.distance_along_way_mm {
                    at = Some(node);
                } else if node.distance_along_way_mm > from.distance_along_way_mm {
                    let closer = match after {
                        Some(found) => node.distance_along_way_mm < found.distance_along_way_mm,
                        None => true,
                    };
                    if closer {
                        after = Some(node);
                    }
                } else {
                    let closer = match before {
                        Some(found) => node.distance_along_way_mm > found.distance_along_way_mm,
                        None => true,
                    };
                    if closer {
                        before = Some(node);
                    }
                }
            }
            i += 1;
        }
        let stops = NextStops { at, after, before };
        proof {
            nodes@.to_multiset_ensures();
            assert forall|other: SearchNode| #[trigger]
                is_stop(self.nodes(), other) && other.way == from.way implies nodes@.contains(
                other,
            ) by {
                assert(nodes@.to_multiset().count(other) == self.nodes().count(
                    (from.way.0, other.row()),
                ));
            }
            assert forall|found: SearchNode|
                nodes@.contains(found) && found.way == from.way implies is_stop(
                self.nodes(),
                found,
            ) by {
                assert(nodes@.to_multiset().count(found) == self.nodes().count(
                    (from.way.0, found.row()),
                ));
            }
            assert forall|via: SearchNode| stops.holds(via) implies next_stop(
                self.nodes(),
                *from,
                via,
            ) by {
                assert(is_stop(self.nodes(), via));
                assert forall|other: SearchNode| #[trigger]
                    is_stop(self.nodes(), other) && other.way == from.way implies !strictly_between(
                    from.distance_along_way_mm,
                    other.distance_along_way_mm,
                    via.distance_along_way_mm,
                ) by {
                    assert(nodes@.contains(other));
                    let j = choose|j: int| 0 <= j < nodes@.len() && nodes@[j] == other;
                    assert(nodes@[j].way == from.way);
                }
            }
            assert forall|via: SearchNode| next_stop(self.nodes(), *from, via) implies stops.holds(
                via,
            ) by {
                assert(nodes@.contains(via));
                let j = choose|j: int| 0 <= j < nodes@.len() && nodes@[j] == via;
                assert(nodes@[j].way == from.way);
                if via.distance_along_way_mm > from.distance_along_way_mm {
                    assert(is_stop(self.nodes(), after.unwrap()));
                } else if via.distance_along_way_mm < from.distance_along_way_mm {
                    assert(is_stop(self.nodes(), before.unwrap()));
                }
            }
        }
        stops
    }

    /// The route that the log holds for the state at place `end_step`: that
    /// state, the state it was reached from, and so on back to the start,
    /// in the order of travel.
    pub(crate) fn unwind_route(
        &self,
        step_log: &Vec<SearchState>,
        end_step: usize,
        Ghost(start): Ghost<SearchNode>,
    ) -> (steps: Vec<SearchState>)
        requires
            log_ok(self, start, step_log@),
            end_step < step_log@.len(),
        ensures
            is_route(self, start, step_log@[end_step as int].node, steps@),
            steps@.last() == step_log@[end_step as int],
            forall|k: int|
                0 <= k < steps@.len() ==> (#[trigger] steps@[k]).idx < step_log@.len()
                    && step_log@[steps@[k].idx as int] == steps@[k],
            forall|k: int| 0 <= k < steps@.len() - 1 ==> (#[trigger] steps@[k]).idx < steps@[k + 1].idx,
    {
        let mut steps_reversed: Vec<SearchState> = Vec::new();
        let mut cursor: usize = end_step;
        while step_log[cursor].previous != step_log[cursor].idx
            invariant
                log_ok(self, start, step_log@),
                cursor < step_log@.len(),
                steps_reversed@.len() == 0 ==> cursor == end_step,
                steps_reversed@.len() > 0 ==> steps_reversed@[0] == step_log@[end_step as int]
                    && follows(self, step_log@[cursor as int], steps_reversed@.last()),
                forall|k: int|
                    0 <= k < steps_reversed@.len() - 1 ==> follows(
                        self,
                        steps_reversed@[k + 1],
                        #[trigger] steps_reversed@[k],
                    ),
                forall|k: int|
                    0 <= k < steps_reversed@.len() ==> (#[trigger] steps_reversed@[k]).idx
                        < step_log@.len() && step_log@[steps_reversed@[k].idx as int]
                        == steps_reversed@[k],
                forall|k: int|
                    0 <= k < steps_reversed@.len() - 1 ==> steps_reversed@[k + 1].idx < (
                    #[trigger] steps_reversed@[k]).idx,
                steps_reversed@.len() > 0 ==> cursor < steps_reversed@.last().idx,
            decreases cursor,
        {
            let step = step_log[cursor];
            assert(cursor != 0);
            assert(step_log@[cursor as int].idx == cursor);
            steps_reversed.push(step);
            cursor = step.previous;
        }
        assert(cursor == 0) by {
            if cursor != 0 {
                assert(step_log@[cursor as int].idx == cursor);
            }
        }
        steps_reversed.push(step_log[cursor]);
        let mut steps: Vec<SearchState> = Vec::new();
        let mut k: usize = steps_reversed.len();
        while k > 0
            invariant
                k <= steps_reversed@.len(),
                steps@.len() == steps_reversed@.len() - k,
                forall|m: int|
                    0 <= m < steps@.len() ==> #[trigger] steps@[m] == steps_reversed@[steps_reversed@.len()
                        - 1 - m],
            decreases k,
        {
            k -= 1;
            steps.push(steps_reversed[k]);
        }
        proof {
            let n = steps@.len() as int;
            assert(steps@.first() == steps_reversed@[n - 1]);
            assert forall|m: int| 0 <= m < n - 1 implies follows(self, #[trigger] steps@[m], steps@[m + 1])
                && steps@[m].idx < steps@[m + 1].idx by {
                let r = n - 1 - (m + 1);
                assert(steps@[m + 1] == steps_reversed@[r]);
                assert(steps@[m] == steps_reversed@[r + 1]);
                assert(follows(self, steps_reversed@[r + 1], steps_reversed@[r]));
                assert(steps_reversed@[r + 1].idx < steps_reversed@[r].idx);
            }
            assert forall|m: int| 0 <= m < n implies (#[trigger] steps@[m]).idx < step_log@.len()
                && step_log@[steps@[m].idx as int] == steps@[m] by {
                assert(steps@[m] == steps_reversed@[n - 1 - m]);
            }
        }
        steps
    }

    /// Takes the search on from `state` by every step there is from it:
    /// through the state's own position where it is a stop, through the
    /// closest stop after it and through the closest stop before it.
    pub(crate) fn expand(
        &self,
        state: &SearchState,
        frontier: &mut Frontier,
        costs: &mut HashMap<u128, RoutingCost>,
        step_log: &mut Vec<SearchState>,
        Ghost(start): Ghost<SearchNode>,
    )
        requires
            in_step(self, start, old(frontier)@, old(costs)@, old(step_log)@),
            state.idx < old(step_log)@.len(),
            old(step_log)@[state.idx as int] == *state,
        ensures
            in_step(self, start, final(frontier)@, final(costs)@, final(step_log)@),
            advanced(
                arrivals(self.transitions()),
                old(frontier)@,
                old(costs)@,
                old(step_log)@,
                final(frontier)@,
                final(costs)@,
                final(step_log)@,
            ),
            unambiguous(self.ways()) ==> explored(self, final(costs)@, *state),
    {
        let ghost universe = arrivals(self.transitions());
        let ghost first_frontier = frontier@;
        let ghost first_costs = costs@;
        let ghost first_log = step_log@;
        let stops = self.next_stops(&state.node);
        if let Some(via) = stops.at {
            assert(stops.holds(via));
            let group = self.transitions_from(via);
            self.process_transition_set(
                &group,
                &via,
                state,
                frontier,
                costs,
                step_log,
                Ghost(start),
            );
        }
        let ghost middle_frontier = frontier@;
        let ghost middle_costs = costs@;
        let ghost middle_log = step_log@;
        if let Some(via) = stops.after {
            assert(stops.holds(via));
            let group = self.transitions_from(via);
            self.process_transition_set(
                &group,
                &via,
                state,
                frontier,
                costs,
                step_log,
                Ghost(start),
            );
        }
        let ghost late_frontier = frontier@;
        let ghost late_costs = costs@;
        let ghost late_log = step_log@;
        proof {
            lemma_advanced_twice(
                universe,
                first_frontier,
                first_costs,
                first_log,
                middle_frontier,
                middle_costs,
                middle_log,
                late_frontier,
                late_costs,
                late_log,
            );
        }
        if let Some(via) = stops.before {
            assert(stops.holds(via));
            let group = self.transitions_from(via);
            self.process_transition_set(
                &group,
                &via,
                state,
                frontier,
                costs,
                step_log,
                Ghost(start),
            );
        }
        proof {
            lemma_advanced_twice(
                universe,
                first_frontier,
                first_costs,
                first_log,
                late_frontier,
                late_costs,
                late_log,
                frontier@,
                costs@,
                step_log@,
            );
            lemma_advanced_twice(
                universe,
                middle_frontier,
                middle_costs,
                middle_log,
                late_frontier,
                late_costs,
                late_log,
                frontier@,
                costs@,
                step_log@,
            );
            if unambiguous(self.ways()) {
                if let Some(via) = stops.at {
                    lemma_explored_by_way_of_stays(self, middle_costs, costs@, *state, via);
                }
                if let Some(via) = stops.after {
                    lemma_explored_by_way_of_stays(self, late_costs, costs@, *state, via);
                }
                lemma_explored_through_stops(self, costs@, *state, stops);
            }
        }
    }

    /// Searches for a cheapest route from the position at
    /// `distance_along_start_mm` along `start` to the position at
    /// `distance_along_end_mm` along `end`, and gives the states of the
    /// route in the order of travel.
    ///
    /// What comes back is a route. Where no way has two different costers, a
    /// route comes back whenever steps lead from the start to the goal, and
    /// no route whose cost stays within the range of the arithmetic costs
    /// less.
    pub fn search_djikstra_inner(
        &self,
        start: WayId,
        distance_along_start_mm: i32,
        end: WayId,
        distance_along_end_mm: i32,
    ) -> (route: Option<Vec<SearchState>>)
        ensures
            match route {
                Some(states) => is_route(
                    self,
                    SearchNode { way: start, distance_along_way_mm: distance_along_start_mm },
                    SearchNode { way: end, distance_along_way_mm: distance_along_end_mm },
                    states@,
                ),
                None => unambiguous(self.ways()) ==> !reachable(
                    self,
                    SearchNode { way: start, distance_along_way_mm: distance_along_start_mm },
                    SearchNode { way: end, distance_along_way_mm: distance_along_end_mm },
                ),
            },
            never_entered(self.transitions(), end) && (start != end || distance_along_start_mm
                != distance_along_end_mm) ==> route is None,
            route is Some && unambiguous(self.ways()) ==> forall|other: Seq<SearchState>|
                #[trigger] is_route(
                    self,
                    SearchNode { way: start, distance_along_way_mm: distance_along_start_mm },
                    SearchNode { way: end, distance_along_way_mm: distance_along_end_mm },
                    other,
                ) && unsaturated(other.last().cost) ==> route.unwrap()@.last().cost.not_above(
                    other.last().cost,
                ),
    {
        let first_node = SearchNode { way: start, distance_along_way_mm: distance_along_start_mm };
        let ghost goal = SearchNode { way: end, distance_along_way_mm: distance_along_end_mm };
        let first_state = SearchState {
            previous: 0,
            idx: 0,
            node: first_node,
            via: first_node,
            cost: RoutingCost::zero(),
        };
        let mut frontier = Frontier::new();
        frontier.push(first_state);
        let mut costs: HashMap<u128, RoutingCost> = HashMap::new();
        let mut step_log: Vec<SearchState> = Vec::new();
        step_log.push(first_state);
        let ghost universe = arrivals(self.transitions());
        let ghost mut done: Set<int> = Set::empty();
        proof {
            assert(frontier@.contains(first_state));
            let at = choose|at: int| 0 <= at < frontier@.len() && frontier@[at] == first_state;
            assert(frontier@[at].idx == 0);
            assert(waiting(frontier@, 0));
            assert forall|p: int| 0 <= p < frontier@.len() implies (#[trigger] frontier@[p]).idx
                < step_log@.len() && step_log@[frontier@[p].idx as int] == frontier@[p] by {
                assert(frontier@.contains(frontier@[p]));
            }
        }
        while frontier.len() > 0
            invariant
                universe == arrivals(self.transitions()),
                first_node == (SearchNode {
                    way: start,
                    distance_along_way_mm: distance_along_start_mm,
                }),
                goal == (SearchNode { way: end, distance_along_way_mm: distance_along_end_mm }),
                in_step(self, first_node, frontier@, costs@, step_log@),
                forall|place: int|
                    0 <= place < step_log@.len() ==> done.contains(place) || waiting(
                        frontier@,
                        place,
                    ),
                forall|place: int| #[trigger]
                    done.contains(place) ==> {
                        &&& 0 <= place < step_log@.len()
                        &&& step_log@[place].node != goal
                        &&& unambiguous(self.ways()) ==> explored(self, costs@, step_log@[place])
                    },
            decreases potential(costs@, universe), frontier@.len(),
        {
            let ghost before_frontier = frontier@;
            let ghost before_costs = costs@;
            let ghost before_log = step_log@;
            let state = match frontier.pop() {
                Some(state) => state,
                None => {
                    proof {
                        assert(false);
                    }
                    return None;
                },
            };
            let ghost popped_frontier = frontier@;
            proof {
                lemma_popped(before_frontier, popped_frontier, state, before_log, done);
            }
            if state.node.way == end && state.node.distance_along_way_mm == distance_along_end_mm {
                let steps = self.unwind_route(&step_log, state.idx, Ghost(first_node));
                proof {
                    lemma_route_is_path(self, first_node, goal, steps@);
                    if never_entered(self.transitions(), end) && first_node != goal {
                        lemma_unreachable_goal(self, first_node, goal);
                    }
                    if unambiguous(self.ways()) {
                        assert forall|other: Seq<SearchState>| #[trigger]
                            is_route(self, first_node, goal, other) && unsaturated(
                                other.last().cost,
                            ) implies steps@.last().cost.not_above(other.last().cost) by {
                            lemma_route_is_matched(
                                self,
                                first_node,
                                popped_frontier,
                                costs@,
                                step_log@,
                                done,
                                state,
                                other,
                                other.len() - 1,
                            );
                        }
                    }
                }
                return Some(steps);
            }
            self.expand(&state, &mut frontier, &mut costs, &mut step_log, Ghost(first_node));
            proof {
                assert forall|place: int| 0 <= place < step_log@.len() implies done.insert(
                    state.idx as int,
                ).contains(place) || waiting(frontier@, place) by {
                    if place != state.idx && !done.contains(place) && place < before_log.len() {
                        lemma_waiting_stays(popped_frontier, frontier@, place);
                    }
                }
                if unambiguous(self.ways()) {
                    assert forall|place: int| #[trigger] done.contains(place) implies explored(
                        self,
                        costs@,
                        step_log@[place],
                    ) by {
                        assert(explored(self, before_costs, before_log[place]));
                        lemma_explored_stays(self, before_costs, costs@, before_log[place]);
                    }
                }
                done = done.insert(state.idx as int);
            }
        }
        proof {
            if unambiguous(self.ways()) && reachable(self, first_node, goal) {
                let path = choose|path: Seq<SearchNode>| #[trigger]
                    is_path(self, path) && path.first() == first_node && path.last() == goal;
                assert forall|place: int| 0 <= place < step_log@.len() implies explored(
                    self,
                    costs@,
                    #[trigger] step_log@[place],
                ) by {
                    if !done.contains(place) {
                        assert(waiting(frontier@, place));
                    }
                }
                lemma_path_stays_in_log(self, costs@, step_log@, path, path.len() - 1);
                let place = choose|place: int|
                    0 <= place < step_log@.len() && (#[trigger] step_log@[place]).node == goal;
                assert(done.contains(place)) by {
                    if !done.contains(place) {
                        assert(waiting(frontier@, place));
                    }
                }
                assert(false);
            }
            if never_entered(self.transitions(), end) && first_node != goal {
                lemma_unreachable_goal(self, first_node, goal);
            }
        }
        None
    }
}

/// After a state has been taken out of the frontier, the frontier still
/// holds states of the log, none of which costs less than the state, and
/// every other state that waited still waits.
proof fn lemma_popped(
    frontier: Seq<SearchState>,
    popped_frontier: Seq<SearchState>,
    state: SearchState,
    log: Seq<SearchState>,
    done: Set<int>,
)
    requires
        forall|p: int|
            0 <= p < frontier.len() ==> (#[trigger] frontier[p]).idx < log.len() && log[frontier[p].idx as int]
                == frontier[p],
        forall|place: int| 0 <= place < log.len() ==> done.contains(place) || waiting(frontier, place),
        frontier.contains(state),
        popped_frontier.len() + 1 == frontier.len(),
        forall|other: SearchState| frontier.contains(other) ==> !other.outranks(state),
        forall|other: SearchState| popped_frontier.contains(other) ==> frontier.contains(other),
        forall|other: SearchState|
            frontier.contains(other) && other != state ==> popped_frontier.contains(other),
    ensures
        state.idx < log.len(),
        log[state.idx as int] == state,
        forall|p: int|
            0 <= p < popped_frontier.len() ==> (#[trigger] popped_frontier[p]).idx < log.len()
                && log[popped_frontier[p].idx as int] == popped_frontier[p] && state.cost.not_above(
                popped_frontier[p].cost,
            ),
        forall|place: int|
            0 <= place < log.len() && place != state.idx ==> done.contains(place) || waiting(
                popped_frontier,
                place,
            ),
{
    let at = choose|at: int| 0 <= at < frontier.len() && frontier[at] == state;
    assert(frontier[at].idx < log.len());
    assert forall|p: int| 0 <= p < popped_frontier.len() implies (#[trigger] popped_frontier[p]).idx
        < log.len() && log[popped_frontier[p].idx as int] == popped_frontier[p]
        && state.cost.not_above(popped_frontier[p].cost) by {
        assert(popped_frontier.contains(popped_frontier[p]));
        assert(frontier.contains(popped_frontier[p]));
        let q = choose|q: int| 0 <= q < frontier.len() && frontier[q] == popped_frontier[p];
        assert(frontier[q].idx < log.len());
        assert(!popped_frontier[p].outranks(state));
    }
    assert forall|place: int| 0 <= place < log.len() && place != state.idx implies done.contains(
        place,
    ) || waiting(popped_frontier, place) by {
        if !done.contains(place) {
            let p = choose|p: int| 0 <= p < frontier.len() && (#[trigger] frontier[p]).idx == place;
            assert(frontier.contains(frontier[p]));
            assert(frontier[p] != state);
            assert(popped_frontier.contains(frontier[p]));
            let q = choose|q: int| 0 <= q < popped_frontier.len() && popped_frontier[q] == frontier[p];
            assert(popped_frontier[q].idx == place);
        }
    }
}

/// In a graph without transitions, only a position itself is reached from
/// it: after the graph has been emptied, a search between two different
/// positions finds nothing.
pub proof fn lemma_empty_graph_has_no_routes(graph: &Graph, start: SearchNode, goal: SearchNode)
    requires
        graph.is_empty(),
        start != goal,
    ensures
        never_entered(graph.transitions(), goal.way),
        !reachable(graph, start, goal),
{
    lemma_unreachable_goal(graph, start, goal);
}

} // verus!
