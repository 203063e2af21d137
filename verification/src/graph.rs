//! The routing graph. A vertex is a position along a way; an edge leads from
//! a position to a stop on the same way and from there, by a transition, to
//! a position on another way or on the same one.

pub mod frontier;
pub mod ingest;
pub mod order;
pub mod route;
pub mod search;
pub mod store;
pub mod tile;

use crate::costing::units::{ElapsedTime, TravelledDistance};
use crate::costing::{CosterRow, RoutingCost, WayCoster};
use crate::graph::store::{
    geometry_get_one, geometry_insert, geometry_new, geometry_published, geometry_purge,
    geometry_refresh, geometry_staged, nodes_get, nodes_insert, nodes_new, nodes_published,
    nodes_purge, nodes_refresh, nodes_staged, transitions_get, transitions_insert,
    transitions_new, transitions_published, transitions_purge, transitions_refresh,
    transitions_staged, way_costs_get_one, way_costs_insert, way_costs_new,
    way_costs_published, way_costs_purge, way_costs_refresh, way_costs_staged, GeometryStore,
    NodeStore, TransitionStore, WayCostStore,
};
use vstd::multiset::Multiset;
use vstd::prelude::*;

verus! {

/// The identifier of a way, stable across tiles.
#[derive(Debug, Clone, Copy, PartialEq, Eq, PartialOrd, Ord, Hash, Structural)]
pub struct WayId(pub u64);

impl WayId {
    pub fn from_id(id: u64) -> (way: WayId)
        ensures
            way.0 == id,
    {
        WayId(id)
    }

    pub fn id(&self) -> (id: u64)
        ensures
            id == self.0,
    {
        self.0
    }
}

/// A point given by its tile (`x`, `y` at zoom `z`, with `extent` units to a
/// side) and its place inside the tile.
#[derive(Debug, Clone, Copy, PartialEq, Eq, PartialOrd, Ord, Hash, Structural)]
pub struct TileCoordinates {
    pub x: u32,
    pub y: u32,
    pub z: u32,
    pub extent: u32,
    pub tile_x: i32,
    pub tile_y: i32,
}

/// A point as the geometry map holds it.
pub type CoordinateRow = (u32, u32, u32, u32, i32, i32);

impl TileCoordinates {
    pub open spec fn row(self) -> CoordinateRow {
        (self.x, self.y, self.z, self.extent, self.tile_x, self.tile_y)
    }

    pub open spec fn of_row(row: CoordinateRow) -> TileCoordinates {
        TileCoordinates {
            x: row.0,
            y: row.1,
            z: row.2,
            extent: row.3,
            tile_x: row.4,
            tile_y: row.5,
        }
    }

    pub fn to_row(&self) -> (row: CoordinateRow)
        ensures
            row == self.row(),
    {
        (self.x, self.y, self.z, self.extent, self.tile_x, self.tile_y)
    }

    pub fn from_row(row: CoordinateRow) -> (point: TileCoordinates)
        ensures
            point == TileCoordinates::of_row(row),
            point.row() == row,
    {
        TileCoordinates {
            x: row.0,
            y: row.1,
            z: row.2,
            extent: row.3,
            tile_x: row.4,
            tile_y: row.5,
        }
    }
}

/// After `distance_along_way_mm` along `from_way_id`, one may go on at
/// `transition_to_distance_along_way_mm` along `to_way_id`.
#[derive(Debug, Clone, Copy, PartialEq, Eq, Hash, Structural)]
pub struct WayTransition {
    pub from_way_id: WayId,
    pub distance_along_way_mm: i32,
    pub to_way_id: WayId,
    pub transition_to_distance_along_way_mm: i32,
}

/// A transition as the transition map holds it.
pub type TransitionRow = (u64, i32, u64, i32);

impl WayTransition {
    pub fn new(
        from_way_id: WayId,
        distance_along_way_mm: i32,
        to_way_id: WayId,
        transition_to_distance_along_way_mm: i32,
    ) -> (transition: WayTransition)
        ensures
            transition == (WayTransition {
                from_way_id,
                distance_along_way_mm,
                to_way_id,
                transition_to_distance_along_way_mm,
            }),
    {
        WayTransition {
            from_way_id,
            distance_along_way_mm,
            to_way_id,
            transition_to_distance_along_way_mm,
        }
    }

    pub fn from_way_id(&self) -> (way: WayId)
        ensures
            way == self.from_way_id,
    {
        self.from_way_id
    }

    pub fn distance_along_way_mm(&self) -> (mm: i32)
        ensures
            mm == self.distance_along_way_mm,
    {
        self.distance_along_way_mm
    }

    pub fn to_way_id(&self) -> (way: WayId)
        ensures
            way == self.to_way_id,
    {
        self.to_way_id
    }

    pub fn transition_to_distance_along_way_mm(&self) -> (mm: i32)
        ensures
            mm == self.transition_to_distance_along_way_mm,
    {
        self.transition_to_distance_along_way_mm
    }

    /// The stop at which the transition is taken.
    pub open spec fn source(self) -> SearchNode {
        SearchNode { way: self.from_way_id, distance_along_way_mm: self.distance_along_way_mm }
    }

    /// The position at which the transition arrives.
    pub open spec fn target(self) -> SearchNode {
        SearchNode {
            way: self.to_way_id,
            distance_along_way_mm: self.transition_to_distance_along_way_mm,
        }
    }

    /// The transition that stays where it is: it stands for passing through
    /// the stop without leaving the way.
    pub open spec fn identity_at(node: SearchNode) -> WayTransition {
        WayTransition {
            from_way_id: node.way,
            distance_along_way_mm: node.distance_along_way_mm,
            to_way_id: node.way,
            transition_to_distance_along_way_mm: node.distance_along_way_mm,
        }
    }

    pub open spec fn row(self) -> TransitionRow {
        (
            self.from_way_id.0,
            self.distance_along_way_mm,
            self.to_way_id.0,
            self.transition_to_distance_along_way_mm,
        )
    }

    pub open spec fn of_row(row: TransitionRow) -> WayTransition {
        WayTransition {
            from_way_id: WayId(row.0),
            distance_along_way_mm: row.1,
            to_way_id: WayId(row.2),
            transition_to_distance_along_way_mm: row.3,
        }
    }

    pub fn to_row(&self) -> (row: TransitionRow)
        ensures
            row == self.row(),
    {
        (
            self.from_way_id.0,
            self.distance_along_way_mm,
            self.to_way_id.0,
            self.transition_to_distance_along_way_mm,
        )
    }

    pub fn from_row(row: TransitionRow) -> (transition: WayTransition)
        ensures
            transition == WayTransition::of_row(row),
            transition.row() == row,
    {
        WayTransition {
            from_way_id: WayId(row.0),
            distance_along_way_mm: row.1,
            to_way_id: WayId(row.2),
            transition_to_distance_along_way_mm: row.3,
        }
    }
}

/// What it costs to take a transition to `to_way_id`.
#[derive(Debug, Clone, Copy, PartialEq, Eq, Hash, Structural)]
pub struct CostedWayTransition {
    pub to_way_id: WayId,
    pub cost: RoutingCost,
}

/// A costed transition as the transition map holds it.
pub type CostedRow = (u64, u64, u64, u64);

impl CostedWayTransition {
    pub open spec fn row(self) -> CostedRow {
        (
            self.to_way_id.0,
            self.cost.cost_millis.0,
            self.cost.actual_millis.0,
            self.cost.distance_mm.0,
        )
    }

    pub open spec fn of_row(row: CostedRow) -> CostedWayTransition {
        CostedWayTransition {
            to_way_id: WayId(row.0),
            cost: RoutingCost {
                cost_millis: ElapsedTime(row.1),
                actual_millis: ElapsedTime(row.2),
                distance_mm: TravelledDistance(row.3),
            },
        }
    }

    pub fn to_row(&self) -> (row: CostedRow)
        ensures
            row == self.row(),
    {
        (
            self.to_way_id.0,
            self.cost.cost_millis.0,
            self.cost.actual_millis.0,
            self.cost.distance_mm.0,
        )
    }

    pub fn from_row(row: CostedRow) -> (costed: CostedWayTransition)
        ensures
            costed == CostedWayTransition::of_row(row),
            costed.row() == row,
    {
        CostedWayTransition {
            to_way_id: WayId(row.0),
            cost: RoutingCost {
                cost_millis: ElapsedTime(row.1),
                actual_millis: ElapsedTime(row.2),
                distance_mm: TravelledDistance(row.3),
            },
        }
    }
}

/// A position on a way at which a route may stop: an intersection, or an end
/// of the route.
#[derive(Debug, Clone, Copy, PartialEq, Eq, PartialOrd, Ord, Hash, Structural)]
pub struct SearchNode {
    pub way: WayId,
    pub distance_along_way_mm: i32,
}

/// A stop as the node map holds it.
pub type NodeRow = (u64, i32);

impl SearchNode {
    pub fn new(way: WayId, distance_along_way_mm: i32) -> (node: SearchNode)
        ensures
            node == (SearchNode { way, distance_along_way_mm }),
    {
        SearchNode { way, distance_along_way_mm }
    }

    pub open spec fn row(self) -> NodeRow {
        (self.way.0, self.distance_along_way_mm)
    }

    pub open spec fn of_row(row: NodeRow) -> SearchNode {
        SearchNode { way: WayId(row.0), distance_along_way_mm: row.1 }
    }

    pub fn to_row(&self) -> (row: NodeRow)
        ensures
            row == self.row(),
    {
        (self.way.0, self.distance_along_way_mm)
    }

    pub fn from_row(row: NodeRow) -> (node: SearchNode)
        ensures
            node == SearchNode::of_row(row),
            node.row() == row,
    {
        SearchNode { way: WayId(row.0), distance_along_way_mm: row.1 }
    }

    /// The order of stops: by way, then by distance along it.
    pub open spec fn precedes(self, other: SearchNode) -> bool {
        self.way.0 < other.way.0 || (self.way.0 == other.way.0 && self.distance_along_way_mm
            < other.distance_along_way_mm)
    }

    pub fn is_before(&self, other: &SearchNode) -> (before: bool)
        ensures
            before == self.precedes(*other),
    {
        self.way.0 < other.way.0 || (self.way.0 == other.way.0 && self.distance_along_way_mm
            < other.distance_along_way_mm)
    }
}

/// The way map: each way with a coster stored for it.
pub type WayRows = Multiset<(u64, CosterRow)>;

/// The geometry map: each way with a polyline stored for it.
pub type GeometryRows = Multiset<(u64, Seq<CoordinateRow>)>;

/// The node map: each way with a stop stored for it.
pub type NodeRows = Multiset<(u64, NodeRow)>;

/// The transition map: each stop with a costed transition stored for it.
pub type TransitionRows = Multiset<(NodeRow, (CostedRow, TransitionRow))>;

/// Some coster is stored for `way`.
pub open spec fn has_coster(ways: WayRows, way: u64) -> bool {
    exists|coster: CosterRow| ways.count((way, coster)) > 0
}

/// Some polyline is stored for `way`.
pub open spec fn has_polyline(geometry: GeometryRows, way: u64) -> bool {
    exists|polyline: Seq<CoordinateRow>| geometry.count((way, polyline)) > 0
}

/// The maps fit together: a stop is stored under its own way; a transition
/// is stored under the stop that it leaves, with the cost of entering its
/// target way; and the way that a transition leaves and the way that it
/// enters both have a coster.
pub open spec fn coherent(ways: WayRows, nodes: NodeRows, transitions: TransitionRows) -> bool {
    &&& forall|way: u64, node: NodeRow| #[trigger] nodes.count((way, node)) > 0 ==> node.0 == way
    &&& forall|node: NodeRow, row: (CostedRow, TransitionRow)| #[trigger]
        transitions.count((node, row)) > 0 ==> {
            &&& WayTransition::of_row(row.1).source().row() == node
            &&& row.0.0 == row.1.2
            &&& has_coster(ways, row.1.0)
            &&& has_coster(ways, row.1.2)
        }
}

/// Every way that has a coster has a polyline.
pub open spec fn drawn(ways: WayRows, geometry: GeometryRows) -> bool {
    forall|way: u64| has_coster(ways, way) ==> has_polyline(geometry, way)
}

/// Every way that a transition enters has a polyline.
pub open spec fn entered_ways_drawn(transitions: TransitionRows, geometry: GeometryRows) -> bool {
    forall|node: NodeRow, costed: CostedRow, transition: TransitionRow| #[trigger]
        transitions.count((node, (costed, transition))) > 0 ==> has_polyline(geometry, transition.2)
}

/// The routing graph: four maps, filled tile by tile and read by the search.
pub struct Graph {
    nodes: NodeStore,
    transitions: TransitionStore,
    ways: WayCostStore,
    geometry: GeometryStore,
}

impl Graph {
    /// The costers that a search sees, each under its way.
    pub closed spec fn ways(&self) -> WayRows {
        way_costs_published(self.ways)
    }

    /// The polylines that a search sees, each under its way.
    pub closed spec fn geometry(&self) -> GeometryRows {
        geometry_published(self.geometry)
    }

    /// The stops that a search sees, each under its way.
    pub closed spec fn nodes(&self) -> NodeRows {
        nodes_published(self.nodes)
    }

    /// The transitions that a search sees, each under the stop it leaves.
    pub closed spec fn transitions(&self) -> TransitionRows {
        transitions_published(self.transitions)
    }

    /// The costers written so far, seen or not.
    pub closed spec fn staged_ways(&self) -> WayRows {
        way_costs_staged(self.ways)
    }

    /// The polylines written so far, seen or not.
    pub closed spec fn staged_geometry(&self) -> GeometryRows {
        geometry_staged(self.geometry)
    }

    /// The stops written so far, seen or not.
    pub closed spec fn staged_nodes(&self) -> NodeRows {
        nodes_staged(self.nodes)
    }

    /// The transitions written so far, seen or not.
    pub closed spec fn staged_transitions(&self) -> TransitionRows {
        transitions_staged(self.transitions)
    }

    /// All that was written is seen.
    pub open spec fn settled(&self) -> bool {
        &&& self.staged_ways() == self.ways()
        &&& self.staged_geometry() == self.geometry()
        &&& self.staged_nodes() == self.nodes()
        &&& self.staged_transitions() == self.transitions()
    }

    /// The graph is at rest and its maps fit together.
    pub open spec fn wf(&self) -> bool {
        &&& self.settled()
        &&& coherent(self.ways(), self.nodes(), self.transitions())
    }

    /// Nothing is stored.
    pub open spec fn is_empty(&self) -> bool {
        &&& self.ways() =~= Multiset::empty()
        &&& self.geometry() =~= Multiset::empty()
        &&& self.nodes() =~= Multiset::empty()
        &&& self.transitions() =~= Multiset::empty()
    }

    /// The empty graph.
    pub fn new() -> (graph: Graph)
        ensures
            graph.wf(),
            graph.is_empty(),
    {
        Graph {
            nodes: nodes_new(),
            transitions: transitions_new(),
            ways: way_costs_new(),
            geometry: geometry_new(),
        }
    }

    /// Empties the graph: the costers and polylines first, then the
    /// transitions and stops.
    pub fn clear(&mut self)
        ensures
            final(self).wf(),
            final(self).is_empty(),
    {
        way_costs_purge(&mut self.ways);
        geometry_purge(&mut self.geometry);
        transitions_purge(&mut self.transitions);
        nodes_purge(&mut self.nodes);
        way_costs_refresh(&mut self.ways);
        geometry_refresh(&mut self.geometry);
        transitions_refresh(&mut self.transitions);
        nodes_refresh(&mut self.nodes);
    }

    /// Writes a coster for `way`; a search does not see it yet.
    pub(crate) fn stage_way(&mut self, way: WayId, coster: WayCoster)
        ensures
            final(self).staged_ways() == old(self).staged_ways().insert((way.0, coster.row())),
            final(self).staged_geometry() == old(self).staged_geometry(),
            final(self).staged_nodes() == old(self).staged_nodes(),
            final(self).staged_transitions() == old(self).staged_transitions(),
            final(self).ways() == old(self).ways(),
            final(self).geometry() == old(self).geometry(),
            final(self).nodes() == old(self).nodes(),
            final(self).transitions() == old(self).transitions(),
    {
        way_costs_insert(&mut self.ways, way.0, coster.to_row());
    }

    /// Writes a polyline for `way`; a search does not see it yet.
    pub(crate) fn stage_polyline(&mut self, way: WayId, polyline: &Vec<TileCoordinates>)
        ensures
            final(self).staged_geometry() == old(self).staged_geometry().insert(
                (way.0, polyline@.map_values(|point: TileCoordinates| point.row())),
            ),
            final(self).staged_ways() == old(self).staged_ways(),
            final(self).staged_nodes() == old(self).staged_nodes(),
            final(self).staged_transitions() == old(self).staged_transitions(),
            final(self).ways() == old(self).ways(),
            final(self).geometry() == old(self).geometry(),
            final(self).nodes() == old(self).nodes(),
            final(self).transitions() == old(self).transitions(),
    {
        let mut rows: Vec<CoordinateRow> = Vec::new();
        let mut i: usize = 0;
        while i < polyline.len()
            invariant
                i <= polyline.len(),
                rows@ == polyline@.take(i as int).map_values(|point: TileCoordinates| point.row()),
            decreases polyline.len() - i,
        {
            rows.push(polyline[i].to_row());
            proof {
                assert(polyline@.take(i + 1).map_values(|point: TileCoordinates| point.row())
                    =~= polyline@.take(i as int).map_values(|point: TileCoordinates| point.row()).push(
                    polyline@[i as int].row(),
                ));
            }
            i += 1;
        }
        proof {
            assert(polyline@.take(i as int) =~= polyline@);
        }
        geometry_insert(&mut self.geometry, way.0, rows);
    }

    /// Writes a stop under its way; a search does not see it yet.
    pub(crate) fn stage_node(&mut self, node: SearchNode)
        ensures
            final(self).staged_nodes() == old(self).staged_nodes().insert((node.way.0, node.row())),
            final(self).staged_ways() == old(self).staged_ways(),
            final(self).staged_geometry() == old(self).staged_geometry(),
            final(self).staged_transitions() == old(self).staged_transitions(),
            final(self).ways() == old(self).ways(),
            final(self).geometry() == old(self).geometry(),
            final(self).nodes() == old(self).nodes(),
            final(self).transitions() == old(self).transitions(),
    {
        nodes_insert(&mut self.nodes, node.way.0, node.to_row());
    }

    /// Writes a costed transition under the stop `node`; a search does not
    /// see it yet.
    pub(crate) fn stage_transition(
        &mut self,
        node: SearchNode,
        costed: CostedWayTransition,
        transition: WayTransition,
    )
        ensures
            final(self).staged_transitions() == old(self).staged_transitions().insert(
                (node.row(), (costed.row(), transition.row())),
            ),
            final(self).staged_ways() == old(self).staged_ways(),
            final(self).staged_geometry() == old(self).staged_geometry(),
            final(self).staged_nodes() == old(self).staged_nodes(),
            final(self).ways() == old(self).ways(),
            final(self).geometry() == old(self).geometry(),
            final(self).nodes() == old(self).nodes(),
            final(self).transitions() == old(self).transitions(),
    {
        transitions_insert(
            &mut self.transitions,
            node.to_row(),
            (costed.to_row(), transition.to_row()),
        );
    }

    /// Lets a search see all that was written: the costers and polylines
    /// first, then the transitions and stops.
    pub(crate) fn publish(&mut self)
        ensures
            final(self).settled(),
            final(self).ways() == old(self).staged_ways(),
            final(self).geometry() == old(self).staged_geometry(),
            final(self).nodes() == old(self).staged_nodes(),
            final(self).transitions() == old(self).staged_transitions(),
    {
        way_costs_refresh(&mut self.ways);
        geometry_refresh(&mut self.geometry);
        transitions_refresh(&mut self.transitions);
        nodes_refresh(&mut self.nodes);
    }

    /// A coster of `way`: one of those stored for it, `None` where there is
    /// none.
    pub fn way_coster(&self, way: WayId) -> (coster: Option<WayCoster>)
        ensures
            match coster {
                Some(found) => self.ways().count((way.0, found.row())) > 0,
                None => !has_coster(self.ways(), way.0),
            },
    {
        match way_costs_get_one(&self.ways, way.0) {
            Some(row) => Some(WayCoster::from_row(row)),
            None => None,
        }
    }

    /// A polyline of `way`: one of those stored for it, `None` where there
    /// is none.
    pub fn get_polyline(&self, way: &WayId) -> (polyline: Option<Vec<TileCoordinates>>)
        ensures
            match polyline {
                Some(found) => self.geometry().count(
                    (way.0, found@.map_values(|point: TileCoordinates| point.row())),
                ) > 0,
                None => !has_polyline(self.geometry(), way.0),
            },
    {
        match geometry_get_one(&self.geometry, way.0) {
            Some(rows) => {
                let mut polyline: Vec<TileCoordinates> = Vec::new();
                let mut i: usize = 0;
                while i < rows.len()
                    invariant
                        i <= rows.len(),
                        polyline@.map_values(|point: TileCoordinates| point.row()) == rows@.take(
                            i as int,
                        ),
                    decreases rows.len() - i,
                {
                    let point = TileCoordinates::from_row(rows[i]);
                    proof {
                        assert(polyline@.push(point).map_values(
                            |point: TileCoordinates| point.row(),
                        ) =~= polyline@.map_values(|point: TileCoordinates| point.row()).push(
                            point.row(),
                        ));
                        assert(rows@.take(i + 1) =~= rows@.take(i as int).push(rows@[i as int]));
                    }
                    polyline.push(point);
                    i += 1;
                }
                proof {
                    assert(rows@.take(i as int) =~= rows@);
                }
                Some(polyline)
            },
            None => None,
        }
    }

    /// The stops on `way`, in no particular order.
    pub fn nodes_on_way(&self, way: WayId) -> (nodes: Vec<SearchNode>)
        ensures
            forall|node: SearchNode|
                nodes@.to_multiset().count(node) == self.nodes().count((way.0, node.row())),
    {
        let rows = nodes_get(&self.nodes, way.0);
        let mut nodes: Vec<SearchNode> = Vec::new();
        let mut i: usize = 0;
        while i < rows.len()
            invariant
                i <= rows.len(),
                nodes@.len() == i,
                forall|j: int| 0 <= j < i ==> (#[trigger] nodes@[j]).row() == rows@[j],
            decreases rows.len() - i,
        {
            nodes.push(SearchNode::from_row(rows[i]));
            i += 1;
        }
        proof {
            assert forall|node: SearchNode|
                nodes@.to_multiset().count(node) == self.nodes().count((way.0, node.row())) by {
                lemma_count_through_rows(nodes@, rows@, node);
                assert(rows@.to_multiset().count(node.row()) == self.nodes().count(
                    (way.0, node.row()),
                ));
            }
        }
        nodes
    }

    /// The costed transitions that leave the stop `node`, in no particular
    /// order.
    pub fn transitions_from(&self, node: SearchNode) -> (rows: Vec<
        (CostedWayTransition, WayTransition),
    >)
        ensures
            forall|costed: CostedWayTransition, transition: WayTransition|
                rows@.to_multiset().count((costed, transition)) == self.transitions().count(
                    (node.row(), (costed.row(), transition.row())),
                ),
    {
        let stored = transitions_get(&self.transitions, node.to_row());
        let mut rows: Vec<(CostedWayTransition, WayTransition)> = Vec::new();
        let mut i: usize = 0;
        while i < stored.len()
            invariant
                i <= stored.len(),
                rows@.len() == i,
                forall|j: int|
                    0 <= j < i ==> pair_row(#[trigger] rows@[j]) == stored@[j],
            decreases stored.len() - i,
        {
            rows.push(
                (CostedWayTransition::from_row(stored[i].0), WayTransition::from_row(stored[i].1)),
            );
            i += 1;
        }
        proof {
            assert forall|costed: CostedWayTransition, transition: WayTransition|
                rows@.to_multiset().count((costed, transition)) == self.transitions().count(
                    (node.row(), (costed.row(), transition.row())),
                ) by {
                lemma_count_through_pair_rows(rows@, stored@, (costed, transition));
                assert(stored@.to_multiset().count((costed.row(), transition.row()))
                    == self.transitions().count((node.row(), (costed.row(), transition.row()))));
            }
        }
        rows
    }
}

/// A costed transition and its course as the transition map holds them.
pub open spec fn pair_row(pair: (CostedWayTransition, WayTransition)) -> (CostedRow, TransitionRow) {
    (pair.0.row(), pair.1.row())
}

/// A list of stops holds a stop as often as the list of their rows holds
/// its row.
proof fn lemma_count_through_rows(nodes: Seq<SearchNode>, rows: Seq<NodeRow>, node: SearchNode)
    requires
        nodes.len() == rows.len(),
        forall|j: int| 0 <= j < nodes.len() ==> (#[trigger] nodes[j]).row() == rows[j],
    ensures
        nodes.to_multiset().count(node) == rows.to_multiset().count(node.row()),
    decreases nodes.len(),
{
    broadcast use vstd::seq_lib::group_to_multiset_ensures;

    if nodes.len() == 0 {
        assert(nodes =~= Seq::empty());
        assert(rows =~= Seq::empty());
    } else {
        lemma_count_through_rows(nodes.drop_last(), rows.drop_last(), node);
        assert(nodes =~= nodes.drop_last().push(nodes.last()));
        assert(rows =~= rows.drop_last().push(rows.last()));
        assert(nodes.last().row() == node.row() <==> nodes.last() == node);
    }
}

/// A list of costed transitions holds a pair as often as the list of their
/// rows holds its row.
proof fn lemma_count_through_pair_rows(
    pairs: Seq<(CostedWayTransition, WayTransition)>,
    rows: Seq<(CostedRow, TransitionRow)>,
    pair: (CostedWayTransition, WayTransition),
)
    requires
        pairs.len() == rows.len(),
        forall|j: int| 0 <= j < pairs.len() ==> pair_row(#[trigger] pairs[j]) == rows[j],
    ensures
        pairs.to_multiset().count(pair) == rows.to_multiset().count(pair_row(pair)),
    decreases pairs.len(),
{
    broadcast use vstd::seq_lib::group_to_multiset_ensures;

    if pairs.len() == 0 {
        assert(pairs =~= Seq::empty());
        assert(rows =~= Seq::empty());
    } else {
        lemma_count_through_pair_rows(pairs.drop_last(), rows.drop_last(), pair);
        assert(pairs =~= pairs.drop_last().push(pairs.last()));
        assert(rows =~= rows.drop_last().push(rows.last()));
        assert(pair_row(pairs.last()) == pair_row(pair) <==> pairs.last() == pair);
    }
}

/// In a graph that is well formed, every way that a transition enters has a
/// coster, and so has every way that a transition leaves. Where moreover
/// every way with a coster has a polyline, each of them has a polyline.
pub proof fn lemma_entered_ways_are_known(
    graph: &Graph,
    node: NodeRow,
    costed: CostedRow,
    transition: TransitionRow,
)
    requires
        graph.wf(),
        graph.transitions().count((node, (costed, transition))) > 0,
    ensures
        has_coster(graph.ways(), transition.2),
        has_coster(graph.ways(), transition.0),
        drawn(graph.ways(), graph.geometry()) ==> has_polyline(graph.geometry(), transition.2)
            && has_polyline(graph.geometry(), transition.0),
{
}

} // verus!
