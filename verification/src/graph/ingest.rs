//! Taking a tile into the routing graph.
//!
//! A tile is read in full before anything is written: a tile that is
//! refused leaves the graph as it was. The ways of the tile get their
//! costers from the costing model, one call for each way. The transitions
//! whose two ways both lie in the tile are grouped by the stop they leave,
//! and the costing model is asked once for each group.

use crate::costing::{
    asked, CostView, CostingModel, RoutingCost, TransitionCostResult, TransitionToCost,
    TransitionToCostView, WayCoster,
};
use crate::graph::search::{key_of, lemma_node_key_injective, node_key, unambiguous};
use crate::graph::tile::{
    crossing_views, crossings_of, find_layer, layer_named, parse_crossings, parse_roads,
    road_views, roads_of, Crossing, CrossingView, IngestError, IngestFailure, Road, RoadView,
    TileLayer,
};
use crate::graph::{
    coherent, drawn, entered_ways_drawn, has_coster, has_polyline, CostedWayTransition,
    GeometryRows, Graph, NodeRows, SearchNode, TileCoordinates, TransitionRows, WayId, WayRows,
    WayTransition,
};
use std::collections::HashMap;
use vstd::multiset::Multiset;
use vstd::prelude::*;
use vstd::std_specs::hash::group_hash_axioms;

verus! {

/// The ways and the transitions that a tile holds, or why it is refused.
/// The ways are the features of the first layer called `roads` among the
/// layers of `mvt_ways`, the transitions those of the first layer called
/// `intersections` among the layers of `mvt_nodes`; a layer that is not
/// there holds nothing.
pub open spec fn tile_content(
    x: u32,
    y: u32,
    z: u32,
    mvt_ways: Seq<TileLayer>,
    mvt_nodes: Seq<TileLayer>,
) -> Result<(Seq<RoadView>, Seq<CrossingView>), IngestFailure> {
    let roads = match layer_named(mvt_ways, "roads"@) {
        Some(place) => roads_of(
            x,
            y,
            z,
            mvt_ways[place].extent,
            mvt_ways[place].features@,
            mvt_ways[place].features@.len() as int,
        ),
        None => Ok(Seq::empty()),
    };
    let crossings = match layer_named(mvt_nodes, "intersections"@) {
        Some(place) => crossings_of(
            mvt_nodes[place].features@,
            mvt_nodes[place].features@.len() as int,
        ),
        None => Ok(Seq::empty()),
    };
    match roads {
        Err(failure) => Err(failure),
        Ok(found_roads) => match crossings {
            Err(failure) => Err(failure),
            Ok(found_crossings) => Ok((found_roads, found_crossings)),
        },
    }
}

/// The way lies in the tile.
pub open spec fn way_in_tile(roads: Seq<RoadView>, way: WayId) -> bool {
    exists|i: int| 0 <= i < roads.len() && (#[trigger] roads[i]).way_id == way
}

/// The transition joins two ways of the tile.
pub open spec fn kept(roads: Seq<RoadView>, transition: WayTransition) -> bool {
    way_in_tile(roads, transition.from_way_id) && way_in_tile(roads, transition.to_way_id)
}

/// The tile holds a polyline for the way.
pub open spec fn drawn_in_tile(roads: Seq<RoadView>, way: WayId) -> bool {
    exists|i: int|
        0 <= i < roads.len() && (#[trigger] roads[i]).way_id == way && roads[i].polyline is Some
}

/// The tile holds a polyline for each way that one of its transitions
/// between two of its ways leaves or enters. The way that is left counts,
/// because a traveller who passes the stop enters that way again.
pub open spec fn joined_ways_drawn(roads: Seq<RoadView>, crossings: Seq<CrossingView>) -> bool {
    forall|k: int|
        0 <= k < crossings.len() && kept(roads, (#[trigger] crossings[k]).transition)
            ==> drawn_in_tile(roads, crossings[k].transition.from_way_id) && drawn_in_tile(
            roads,
            crossings[k].transition.to_way_id,
        )
}

/// The transitions that leave one stop, in the order of the tile, each
/// with its place among the transitions of the tile.
pub struct GroupView {
    pub node: SearchNode,
    pub members: Seq<WayTransition>,
    pub places: Seq<int>,
}

/// The place of the group of the stop `node`.
pub open spec fn group_place(groups: Seq<GroupView>, node: SearchNode) -> Option<int> {
    if exists|g: int| 0 <= g < groups.len() && (#[trigger] groups[g]).node == node {
        Some(choose|g: int| 0 <= g < groups.len() && (#[trigger] groups[g]).node == node)
    } else {
        None
    }
}

/// The groups into which the first `upto` transitions fall: a transition
/// between two ways of the tile joins the group of the stop it leaves, and
/// founds that group where there is none yet.
pub open spec fn groups_of(roads: Seq<RoadView>, crossings: Seq<CrossingView>, upto: int) -> Seq<
    GroupView,
>
    decreases upto,
{
    if upto <= 0 {
        Seq::empty()
    } else {
        let before = groups_of(roads, crossings, upto - 1);
        let transition = crossings[upto - 1].transition;
        if !kept(roads, transition) {
            before
        } else {
            match group_place(before, transition.source()) {
                Some(g) => before.update(
                    g,
                    GroupView {
                        node: before[g].node,
                        members: before[g].members.push(transition),
                        places: before[g].places.push(upto - 1),
                    },
                ),
                None => before.push(
                    GroupView {
                        node: transition.source(),
                        members: seq![transition],
                        places: seq![upto - 1],
                    },
                ),
            }
        }
    }
}

/// The coster rows of the first `upto` ways.
pub open spec fn way_rows(roads: Seq<RoadView>, costers: Seq<WayCoster>, upto: int) -> WayRows
    decreases upto,
{
    if upto <= 0 {
        Multiset::empty()
    } else {
        way_rows(roads, costers, upto - 1).insert(
            (roads[upto - 1].way_id.0, costers[upto - 1].row()),
        )
    }
}

/// The polyline rows of the first `upto` ways: one for each way that has a
/// polyline.
pub open spec fn geometry_rows(roads: Seq<RoadView>, upto: int) -> GeometryRows
    decreases upto,
{
    if upto <= 0 {
        Multiset::empty()
    } else {
        match roads[upto - 1].polyline {
            Some(points) => geometry_rows(roads, upto - 1).insert(
                (roads[upto - 1].way_id.0, points.map_values(|point: TileCoordinates| point.row())),
            ),
            None => geometry_rows(roads, upto - 1),
        }
    }
}

/// The stop rows of the first `upto` transitions: the stop that each
/// leaves, under its way.
pub open spec fn node_rows(crossings: Seq<CrossingView>, upto: int) -> NodeRows
    decreases upto,
{
    if upto <= 0 {
        Multiset::empty()
    } else {
        node_rows(crossings, upto - 1).insert(
            (
                crossings[upto - 1].transition.from_way_id.0,
                crossings[upto - 1].transition.source().row(),
            ),
        )
    }
}

/// The place of the last road that describes the way.
pub open spec fn way_place(roads: Seq<RoadView>, way: WayId) -> int {
    choose|i: int|
        0 <= i < roads.len() && (#[trigger] roads[i]).way_id == way && forall|j: int|
            i < j < roads.len() ==> (#[trigger] roads[j]).way_id != way
}

/// The tags of the way: those of the last road that describes it.
pub open spec fn way_tags(roads: Seq<RoadView>, way: WayId) -> Map<Seq<char>, Seq<char>> {
    roads[way_place(roads, way)].tags
}

/// What the costing model is asked about a group: each member with the tags
/// of the way it leaves, of the way it enters and of its intersection.
pub open spec fn handed(
    roads: Seq<RoadView>,
    crossings: Seq<CrossingView>,
    group: GroupView,
) -> Seq<TransitionToCostView> {
    Seq::new(
        group.members.len(),
        |k: int|
            TransitionToCostView {
                way_transition: group.members[k],
                from_way_tags: way_tags(roads, group.members[k].from_way_id),
                to_way_tags: way_tags(roads, group.members[k].to_way_id),
                intersection_tags: crossings[group.places[k]].tags,
            },
    )
}

/// No later member of the group enters the way that the member at `place`
/// enters.
pub open spec fn is_last_for_way(members: Seq<WayTransition>, place: int) -> bool {
    forall|later: int|
        place < later < members.len() ==> (#[trigger] members[later]).to_way_id
            != members[place].to_way_id
}

/// The transition rows of the first `upto` members of a group: for each way
/// that has a cost, the last member that enters it, with that cost.
pub open spec fn member_rows(group: GroupView, costs: Map<u64, RoutingCost>, upto: int) -> TransitionRows
    decreases upto,
{
    if upto <= 0 {
        Multiset::empty()
    } else {
        let transition = group.members[upto - 1];
        if costs.dom().contains(transition.to_way_id.0) && is_last_for_way(
            group.members,
            upto - 1,
        ) {
            member_rows(group, costs, upto - 1).insert(
                (
                    group.node.row(),
                    (
                        (CostedWayTransition {
                            to_way_id: transition.to_way_id,
                            cost: costs[transition.to_way_id.0],
                        }).row(),
                        transition.row(),
                    ),
                ),
            )
        } else {
            member_rows(group, costs, upto - 1)
        }
    }
}

/// The transition rows of a group: those of its members and, where passing
/// through has a cost, the transition that stays at the stop, with that
/// cost.
pub open spec fn group_rows(group: GroupView, result: CostView) -> TransitionRows {
    let rows = member_rows(group, result.0, group.members.len() as int);
    match result.1 {
        Some(cost) => rows.insert(
            (
                group.node.row(),
                (
                    (CostedWayTransition { to_way_id: group.node.way, cost }).row(),
                    WayTransition::identity_at(group.node).row(),
                ),
            ),
        ),
        None => rows,
    }
}

/// The transition rows of the first `upto` groups.
pub open spec fn transition_rows(groups: Seq<GroupView>, results: Seq<CostView>, upto: int) -> TransitionRows
    decreases upto,
{
    if upto <= 0 {
        Multiset::empty()
    } else {
        transition_rows(groups, results, upto - 1).add(
            group_rows(groups[upto - 1], results[upto - 1]),
        )
    }
}

/// The costers and results are answers of the costing model: each coster
/// one that it may give for the tags of its way, each result one that it
/// may give when asked about its group.
pub open spec fn answers_of<CM: CostingModel>(
    costing_model: &CM,
    roads: Seq<RoadView>,
    crossings: Seq<CrossingView>,
    costers: Seq<WayCoster>,
    results: Seq<CostView>,
) -> bool {
    &&& forall|i: int|
        0 <= i < roads.len() && i < costers.len() ==> costing_model.may_cost_way(
            (#[trigger] roads[i]).tags,
            costers[i],
        )
    &&& forall|g: int|
        0 <= g < results.len() && g < groups_of(roads, crossings, crossings.len() as int).len()
            ==> costing_model.may_cost_intersection(
            way_tags(roads, groups_of(roads, crossings, crossings.len() as int)[g].node.way),
            handed(roads, crossings, groups_of(roads, crossings, crossings.len() as int)[g]),
            #[trigger] results[g],
        )
}

impl Graph {
    /// The two graphs hold the same.
    pub open spec fn same_as(&self, other: &Graph) -> bool {
        &&& self.ways() == other.ways()
        &&& self.geometry() == other.geometry()
        &&& self.nodes() == other.nodes()
        &&& self.transitions() == other.transitions()
    }

    /// The graph holds what `before` held and the tile: a stop for each
    /// transition of the tile, a polyline for each way that has one, for
    /// each way a coster that the costing model may give for its tags, and
    /// for each group the transition rows of an answer that the costing
    /// model may give when asked about the group.
    pub open spec fn holds_tile<CM: CostingModel>(
        &self,
        before: &Graph,
        roads: Seq<RoadView>,
        crossings: Seq<CrossingView>,
        costing_model: &CM,
    ) -> bool {
        &&& self.nodes() == before.nodes().add(node_rows(crossings, crossings.len() as int))
        &&& self.geometry() == before.geometry().add(geometry_rows(roads, roads.len() as int))
        &&& exists|costers: Seq<WayCoster>, results: Seq<CostView>|
            {
                &&& costers.len() == roads.len()
                &&& results.len() == groups_of(roads, crossings, crossings.len() as int).len()
                &&& answers_of(costing_model, roads, crossings, costers, results)
                &&& self.ways() == before.ways().add(
                    #[trigger] way_rows(roads, costers, roads.len() as int),
                )
                &&& self.transitions() == before.transitions().add(
                    #[trigger] transition_rows(
                        groups_of(roads, crossings, crossings.len() as int),
                        results,
                        results.len() as int,
                    ),
                )
            }
    }
}

/// The transition rows that stand for the pairs, under the stop `node`.
pub open spec fn pair_rows(
    node: SearchNode,
    pairs: Seq<(CostedWayTransition, WayTransition)>,
    upto: int,
) -> TransitionRows
    decreases upto,
{
    if upto <= 0 {
        Multiset::empty()
    } else {
        pair_rows(node, pairs, upto - 1).insert(
            (node.row(), (pairs[upto - 1].0.row(), pairs[upto - 1].1.row())),
        )
    }
}

/// The transitions that leave one stop: each with its place among the
/// transitions of the tile, in the order of the tile.
#[derive(Debug)]
pub struct CrossingGroup {
    pub node: SearchNode,
    pub members: Vec<(usize, WayTransition)>,
}

impl View for CrossingGroup {
    type V = GroupView;

    open spec fn view(&self) -> GroupView {
        GroupView {
            node: self.node,
            members: self.members@.map_values(|member: (usize, WayTransition)| member.1),
            places: self.members@.map_values(|member: (usize, WayTransition)| member.0 as int),
        }
    }
}

/// The views of the groups, in order.
pub open spec fn group_views(groups: Seq<CrossingGroup>) -> Seq<GroupView> {
    Seq::new(groups.len(), |g: int| groups[g]@)
}

/// The costed transitions to store for a group, given what the costing
/// model said of it: for each way that has a cost, the last member of the
/// group that enters it, with that cost; and, where passing through has a
/// cost, the transition that stays at the stop, with that cost. A cost for a
/// way that no member enters is passed over.
pub fn costed_transitions(group: &CrossingGroup, result: &TransitionCostResult) -> (pairs: Vec<
    (CostedWayTransition, WayTransition),
>)
    ensures
        pair_rows(group.node, pairs@, pairs@.len() as int) == group_rows(group@, result@),
{
    broadcast use group_hash_axioms;

    let mut pairs: Vec<(CostedWayTransition, WayTransition)> = Vec::new();
    let ghost members = group@.members;
    let mut place: usize = 0;
    while place < group.members.len()
        invariant
            place <= group.members@.len(),
            members == group@.members,
            members.len() == group.members@.len(),
            pair_rows(group.node, pairs@, pairs@.len() as int) == member_rows(
                group@,
                result.costs(),
                place as int,
            ),
        decreases group.members.len() - place,
    {
        let transition = group.members[place].1;
        assert(members[place as int] == transition);
        let mut last = true;
        let mut later: usize = place + 1;
        while later < group.members.len()
            invariant
                place < later <= group.members@.len(),
                members == group@.members,
                members.len() == group.members@.len(),
                members[place as int] == transition,
                last == forall|other: int|
                    place < other < later ==> (#[trigger] members[other]).to_way_id
                        != transition.to_way_id,
            decreases group.members.len() - later,
        {
            assert(members[later as int] == group.members@[later as int].1);
            if group.members[later].1.to_way_id == transition.to_way_id {
                last = false;
            }
            later += 1;
        }
        if last {
            match result.transition_costs.get(&transition.to_way_id.0) {
                Some(cost) => {
                    let pair = (
                        CostedWayTransition { to_way_id: transition.to_way_id, cost: *cost },
                        transition,
                    );
                    proof {
                        lemma_pair_rows_push(group.node, pairs@, pair);
                    }
                    pairs.push(pair);
                },
                None => {},
            }
        }
        place += 1;
    }
    match result.continue_cost {
        Some(cost) => {
            let pair = (
                CostedWayTransition { to_way_id: group.node.way, cost },
                WayTransition {
                    from_way_id: group.node.way,
                    distance_along_way_mm: group.node.distance_along_way_mm,
                    to_way_id: group.node.way,
                    transition_to_distance_along_way_mm: group.node.distance_along_way_mm,
                },
            );
            proof {
                lemma_pair_rows_push(group.node, pairs@, pair);
            }
            pairs.push(pair);
        },
        None => {},
    }
    pairs
}

/// One more pair is one more row.
proof fn lemma_pair_rows_push(
    node: SearchNode,
    pairs: Seq<(CostedWayTransition, WayTransition)>,
    pair: (CostedWayTransition, WayTransition),
)
    ensures
        pair_rows(node, pairs.push(pair), pairs.len() as int + 1) == pair_rows(
            node,
            pairs,
            pairs.len() as int,
        ).insert((node.row(), (pair.0.row(), pair.1.row()))),
{
    lemma_pair_rows_prefix(node, pairs, pairs.push(pair), pairs.len() as int);
}

/// The rows of the first pairs do not depend on the pairs that follow.
proof fn lemma_pair_rows_prefix(
    node: SearchNode,
    pairs: Seq<(CostedWayTransition, WayTransition)>,
    longer: Seq<(CostedWayTransition, WayTransition)>,
    upto: int,
)
    requires
        0 <= upto <= pairs.len() <= longer.len(),
        forall|i: int| 0 <= i < pairs.len() ==> longer[i] == pairs[i],
    ensures
        pair_rows(node, longer, upto) == pair_rows(node, pairs, upto),
    decreases upto,
{
    if upto > 0 {
        lemma_pair_rows_prefix(node, pairs, longer, upto - 1);
    }
}

/// The place of the last road that describes a way is the one after which
/// no road describes it.
proof fn lemma_way_place(roads: Seq<RoadView>, way: WayId, place: int)
    requires
        0 <= place < roads.len(),
        roads[place].way_id == way,
        forall|j: int| place < j < roads.len() ==> (#[trigger] roads[j]).way_id != way,
    ensures
        way_place(roads, way) == place,
{
    let chosen = way_place(roads, way);
    assert(0 <= chosen < roads.len() && roads[chosen].way_id == way && forall|j: int|
        chosen < j < roads.len() ==> (#[trigger] roads[j]).way_id != way);
    if chosen < place {
        assert(roads[place].way_id != way);
    }
    if place < chosen {
        assert(roads[chosen].way_id != way);
    }
}

/// For each way of the tile, the place of the last road that describes it.
pub fn index_ways(roads: &Vec<Road>) -> (places: HashMap<u64, usize>)
    ensures
        forall|way: u64| #[trigger]
            places@.dom().contains(way) <==> way_in_tile(road_views(roads@), WayId(way)),
        forall|way: u64| #[trigger]
            places@.dom().contains(way) ==> places@[way] < roads@.len() && places@[way]
                == way_place(road_views(roads@), WayId(way)),
{
    broadcast use group_hash_axioms;

    let mut places: HashMap<u64, usize> = HashMap::new();
    let mut i: usize = 0;
    while i < roads.len()
        invariant
            i <= roads.len(),
            forall|way: u64| #[trigger]
                places@.dom().contains(way) <==> exists|j: int|
                    0 <= j < i && (#[trigger] roads@[j]).way_id == WayId(way),
            forall|way: u64| #[trigger]
                places@.dom().contains(way) ==> places@[way] < i && roads@[places@[way] as int].way_id
                    == WayId(way) && forall|j: int|
                    places@[way] < j < i ==> (#[trigger] roads@[j]).way_id != WayId(way),
        decreases roads.len() - i,
    {
        places.insert(roads[i].way_id.0, i);
        proof {
            assert forall|way: u64| #[trigger] places@.dom().contains(way) implies exists|j: int|
                0 <= j < i + 1 && (#[trigger] roads@[j]).way_id == WayId(way) by {
                if way == roads@[i as int].way_id.0 {
                    assert(roads@[i as int].way_id == WayId(way));
                } else {
                    let j = choose|j: int| 0 <= j < i && (#[trigger] roads@[j]).way_id == WayId(way);
                    assert(roads@[j].way_id == WayId(way));
                }
            }
        }
        i += 1;
    }
    proof {
        assert forall|way: u64| #[trigger] places@.dom().contains(way) implies way_in_tile(
            road_views(roads@),
            WayId(way),
        ) by {
            let j = choose|j: int| 0 <= j < roads@.len() && (#[trigger] roads@[j]).way_id == WayId(way);
            assert(road_views(roads@)[j].way_id == WayId(way));
        }
        assert forall|way: u64|
            way_in_tile(road_views(roads@), WayId(way)) implies #[trigger] places@.dom().contains(
            way,
        ) by {
            let j = choose|j: int|
                0 <= j < road_views(roads@).len() && (#[trigger] road_views(roads@)[j]).way_id
                    == WayId(way);
            assert(roads@[j].way_id == WayId(way));
        }
        assert forall|way: u64| #[trigger] places@.dom().contains(way) implies places@[way]
            == way_place(road_views(roads@), WayId(way)) by {
            lemma_way_place(road_views(roads@), WayId(way), places@[way] as int);
        }
    }
    places
}

/// The groups are those of a tile: the stops of different groups differ,
/// and each member of a group leaves the stop of the group and joins two
/// ways of the tile.
pub(crate) open spec fn groups_sound(roads: Seq<RoadView>, groups: Seq<GroupView>) -> bool {
    &&& forall|g: int| 0 <= g < groups.len() ==> (#[trigger] groups[g]).members.len() >= 1
    &&& forall|g: int, h: int|
        0 <= g < groups.len() && 0 <= h < groups.len() && g != h ==> (#[trigger] groups[g]).node != (
        #[trigger] groups[h]).node
    &&& forall|g: int, k: int|
        0 <= g < groups.len() && 0 <= k < groups[g].members.len() ==> kept(
            roads,
            #[trigger] groups[g].members[k],
        ) && groups[g].members[k].source() == groups[g].node
}

proof fn lemma_groups_sound(roads: Seq<RoadView>, crossings: Seq<CrossingView>, upto: int)
    requires
        0 <= upto <= crossings.len(),
    ensures
        groups_sound(roads, groups_of(roads, crossings, upto)),
    decreases upto,
{
    if upto > 0 {
        lemma_groups_sound(roads, crossings, upto - 1);
        let before = groups_of(roads, crossings, upto - 1);
        let after = groups_of(roads, crossings, upto);
        let transition = crossings[upto - 1].transition;
        if kept(roads, transition) {
            match group_place(before, transition.source()) {
                Some(place) => {
                    assert forall|g: int, k: int|
                        0 <= g < after.len() && 0 <= k < after[g].members.len() implies kept(
                        roads,
                        #[trigger] after[g].members[k],
                    ) && after[g].members[k].source() == after[g].node by {
                        if g == place && k == before[g].members.len() {
                        } else {
                            assert(after[g].members[k] == before[g].members[k]);
                        }
                    }
                },
                None => {
                    assert forall|g: int, k: int|
                        0 <= g < after.len() && 0 <= k < after[g].members.len() implies kept(
                        roads,
                        #[trigger] after[g].members[k],
                    ) && after[g].members[k].source() == after[g].node by {
                        if g < before.len() {
                            assert(after[g].members[k] == before[g].members[k]);
                        }
                    }
                },
            }
        }
    }
}

/// Sorts the transitions of a tile into groups by the stop they leave,
/// leaving out those that do not join two ways of the tile. The groups
/// stand in the order in which their first members stand in the tile.
pub fn group_crossings(roads: &Vec<Road>, crossings: &Vec<Crossing>) -> (groups: Vec<CrossingGroup>)
    ensures
        group_views(groups@) == groups_of(
            road_views(roads@),
            crossing_views(crossings@),
            crossings@.len() as int,
        ),
        forall|g: int, k: int|
            0 <= g < groups@.len() && 0 <= k < groups@[g].members@.len() ==> (
            #[trigger] groups@[g].members@[k]).0 < crossings@.len()
                && crossings@[groups@[g].members@[k].0 as int].transition
                == groups@[g].members@[k].1,
{
    broadcast use group_hash_axioms;

    let way_places = index_ways(roads);
    let ghost road_seq = road_views(roads@);
    let ghost crossing_seq = crossing_views(crossings@);
    let mut groups: Vec<CrossingGroup> = Vec::new();
    let mut group_places: HashMap<u128, usize> = HashMap::new();
    let mut i: usize = 0;
    proof {
        assert(group_views(groups@) =~= Seq::empty());
    }
    while i < crossings.len()
        invariant
            i <= crossings.len(),
            road_seq == road_views(roads@),
            crossing_seq == crossing_views(crossings@),
            forall|way: u64| #[trigger]
                way_places@.dom().contains(way) <==> way_in_tile(road_seq, WayId(way)),
            group_views(groups@) == groups_of(road_seq, crossing_seq, i as int),
            forall|key: u128| #[trigger]
                group_places@.dom().contains(key) ==> group_places@[key] < groups@.len() && node_key(
                    groups@[group_places@[key] as int].node,
                ) == key,
            forall|g: int|
                0 <= g < groups@.len() ==> group_places@.dom().contains(
                    node_key((#[trigger] groups@[g]).node),
                ),
            forall|g: int, k: int|
                0 <= g < groups@.len() && 0 <= k < groups@[g].members@.len() ==> (
                #[trigger] groups@[g].members@[k]).0 < crossings@.len()
                    && crossings@[groups@[g].members@[k].0 as int].transition
                    == groups@[g].members@[k].1,
        decreases crossings.len() - i,
    {
        let transition = crossings[i].transition;
        let ghost before = group_views(groups@);
        let ghost before_groups = groups@;
        proof {
            assert(crossing_seq[i as int].transition == transition);
            assert(way_places@.dom().contains(transition.from_way_id.0) <==> way_in_tile(
                road_seq,
                WayId(transition.from_way_id.0),
            ));
            assert(way_places@.dom().contains(transition.to_way_id.0) <==> way_in_tile(
                road_seq,
                WayId(transition.to_way_id.0),
            ));
        }
        if way_places.contains_key(&transition.from_way_id.0) && way_places.contains_key(
            &transition.to_way_id.0,
        ) {
            let node = SearchNode {
                way: transition.from_way_id,
                distance_along_way_mm: transition.distance_along_way_mm,
            };
            let key = key_of(&node);
            let found = match group_places.get(&key) {
                Some(place) => Some(*place),
                None => None,
            };
            match found {
                Some(place) => {
                    proof {
                        lemma_node_key_injective(groups@[place as int].node, node);
                        assert(before[place as int].node == node);
                        let chosen = group_place(before, node).unwrap();
                        assert(before[chosen].node == node);
                        assert(chosen == place) by {
                            lemma_groups_sound(road_seq, crossing_seq, i as int);
                        }
                    }
                    groups[place].members.push((i, transition));
                    proof {
                        assert(groups@[place as int]@.members =~= before[place as int].members.push(
                            transition,
                        ));
                        assert(groups@[place as int]@.places =~= before[place as int].places.push(
                            i as int,
                        ));
                        assert(group_views(groups@) =~= before.update(
                            place as int,
                            GroupView {
                                node: before[place as int].node,
                                members: before[place as int].members.push(transition),
                                places: before[place as int].places.push(i as int),
                            },
                        ));
                    }
                },
                None => {
                    proof {
                        if exists|g: int| 0 <= g < before.len() && (#[trigger] before[g]).node == node {
                            let g = choose|g: int|
                                0 <= g < before.len() && (#[trigger] before[g]).node == node;
                            assert(groups@[g].node == node);
                            assert(group_places@.dom().contains(node_key(groups@[g].node)));
                        }
                        assert(group_place(before, node) is None);
                    }
                    group_places.insert(key, groups.len());
                    let mut members: Vec<(usize, WayTransition)> = Vec::new();
                    members.push((i, transition));
                    let group = CrossingGroup { node, members };
                    groups.push(group);
                    proof {
                        assert(group@.members =~= seq![transition]);
                        assert(group@.places =~= seq![i as int]);
                        assert(group_views(groups@) =~= before.push(
                            GroupView { node, members: seq![transition], places: seq![i as int] },
                        ));
                        assert forall|g: int| 0 <= g < groups@.len() implies group_places@.dom().contains(
                            node_key((#[trigger] groups@[g]).node),
                        ) by {
                            if g < before_groups.len() {
                                assert(groups@[g].node == before_groups[g].node);
                            }
                        }
                    }
                },
            }
        }
        i += 1;
    }
    groups
}

/// A transition row fits a tile: it stands under the stop that its
/// transition leaves, its cost is for the way entered, and both ways lie in
/// the tile.
pub(crate) open spec fn row_fits(
    roads: Seq<RoadView>,
    row: ((u64, i32), ((u64, u64, u64, u64), (u64, i32, u64, i32))),
) -> bool {
    &&& WayTransition::of_row(row.1.1).source().row() == row.0
    &&& row.1.0.0 == row.1.1.2
    &&& way_in_tile(roads, WayId(row.1.1.0))
    &&& way_in_tile(roads, WayId(row.1.1.2))
}

proof fn lemma_member_rows_fit(
    roads: Seq<RoadView>,
    group: GroupView,
    costs: Map<u64, RoutingCost>,
    upto: int,
)
    requires
        0 <= upto <= group.members.len(),
        forall|k: int|
            0 <= k < group.members.len() ==> kept(roads, #[trigger] group.members[k])
                && group.members[k].source() == group.node,
    ensures
        forall|row: ((u64, i32), ((u64, u64, u64, u64), (u64, i32, u64, i32)))| #[trigger]
            member_rows(group, costs, upto).count(row) > 0 ==> row_fits(roads, row),
    decreases upto,
{
    if upto > 0 {
        lemma_member_rows_fit(roads, group, costs, upto - 1);
        let transition = group.members[upto - 1];
        let before = member_rows(group, costs, upto - 1);
        let now = member_rows(group, costs, upto);
        assert(kept(roads, transition));
        assert(WayTransition::of_row(transition.row()) == transition);
        assert forall|row: ((u64, i32), ((u64, u64, u64, u64), (u64, i32, u64, i32)))| #[trigger]
            now.count(row) > 0 implies row_fits(roads, row) by {
            if before.count(row) > 0 {
                assert(row_fits(roads, row));
            } else {
                assert(row.1.1 == transition.row());
                assert(way_in_tile(roads, WayId(row.1.1.0)));
                assert(way_in_tile(roads, WayId(row.1.1.2)));
            }
        }
    }
}

proof fn lemma_group_rows_fit(roads: Seq<RoadView>, group: GroupView, result: CostView)
    requires
        group.members.len() >= 1,
        forall|k: int|
            0 <= k < group.members.len() ==> kept(roads, #[trigger] group.members[k])
                && group.members[k].source() == group.node,
    ensures
        forall|row: ((u64, i32), ((u64, u64, u64, u64), (u64, i32, u64, i32)))| #[trigger]
            group_rows(group, result).count(row) > 0 ==> row_fits(roads, row),
{
    lemma_member_rows_fit(roads, group, result.0, group.members.len() as int);
    let first = group.members[0];
    assert(kept(roads, first));
    let stay = WayTransition::identity_at(group.node);
    let members = member_rows(group, result.0, group.members.len() as int);
    assert(WayTransition::of_row(stay.row()) == stay);
    assert forall|row: ((u64, i32), ((u64, u64, u64, u64), (u64, i32, u64, i32)))| #[trigger]
        group_rows(group, result).count(row) > 0 implies row_fits(roads, row) by {
        if members.count(row) > 0 {
            assert(row_fits(roads, row));
        } else {
            assert(row.1.1 == stay.row());
            assert(way_in_tile(roads, WayId(row.1.1.0)));
            assert(way_in_tile(roads, WayId(row.1.1.2)));
        }
    }
}

proof fn lemma_transition_rows_fit(
    roads: Seq<RoadView>,
    groups: Seq<GroupView>,
    results: Seq<CostView>,
    upto: int,
)
    requires
        0 <= upto <= groups.len(),
        upto <= results.len(),
        groups_sound(roads, groups),
    ensures
        forall|row: ((u64, i32), ((u64, u64, u64, u64), (u64, i32, u64, i32)))| #[trigger]
            transition_rows(groups, results, upto).count(row) > 0 ==> row_fits(roads, row),
    decreases upto,
{
    if upto > 0 {
        lemma_transition_rows_fit(roads, groups, results, upto - 1);
        lemma_group_rows_fit(roads, groups[upto - 1], results[upto - 1]);
        let before = transition_rows(groups, results, upto - 1);
        let added = group_rows(groups[upto - 1], results[upto - 1]);
        assert forall|row: ((u64, i32), ((u64, u64, u64, u64), (u64, i32, u64, i32)))| #[trigger]
            transition_rows(groups, results, upto).count(row) > 0 implies row_fits(roads, row) by {
            if before.count(row) > 0 {
                assert(row_fits(roads, row));
            } else {
                assert(added.count(row) > 0);
            }
        }
    }
}

proof fn lemma_way_rows_cover(roads: Seq<RoadView>, costers: Seq<WayCoster>, upto: int, way: WayId)
    requires
        0 <= upto <= roads.len(),
        exists|i: int| 0 <= i < upto && (#[trigger] roads[i]).way_id == way,
    ensures
        has_coster(way_rows(roads, costers, upto), way.0),
    decreases upto,
{
    if roads[upto - 1].way_id == way {
        assert(way_rows(roads, costers, upto).count((way.0, costers[upto - 1].row())) > 0);
    } else {
        let i = choose|i: int| 0 <= i < upto && (#[trigger] roads[i]).way_id == way;
        assert(roads[i].way_id == way);
        lemma_way_rows_cover(roads, costers, upto - 1, way);
        let before = way_rows(roads, costers, upto - 1);
        let coster = choose|coster: (Option<u32>, Option<u32>, Option<u32>, Option<u32>)|
            before.count((way.0, coster)) > 0;
        assert(way_rows(roads, costers, upto).count((way.0, coster)) > 0);
    }
}

proof fn lemma_way_rows_in_tile(roads: Seq<RoadView>, costers: Seq<WayCoster>, upto: int)
    requires
        0 <= upto <= roads.len(),
    ensures
        forall|way: u64|
            has_coster(way_rows(roads, costers, upto), way) ==> exists|i: int|
                0 <= i < upto && (#[trigger] roads[i]).way_id == WayId(way),
    decreases upto,
{
    if upto > 0 {
        lemma_way_rows_in_tile(roads, costers, upto - 1);
        assert forall|way: u64| has_coster(way_rows(roads, costers, upto), way) implies exists|i: int|
            0 <= i < upto && (#[trigger] roads[i]).way_id == WayId(way) by {
            let now = way_rows(roads, costers, upto);
            let before = way_rows(roads, costers, upto - 1);
            let coster = choose|coster: (Option<u32>, Option<u32>, Option<u32>, Option<u32>)|
                now.count((way, coster)) > 0;
            if (roads[upto - 1].way_id.0, costers[upto - 1].row()) == (way, coster) {
                assert(roads[upto - 1].way_id == WayId(way));
            } else {
                assert(before.count((way, coster)) > 0);
                assert(has_coster(before, way));
                let i = choose|i: int| 0 <= i < upto - 1 && (#[trigger] roads[i]).way_id == WayId(way);
                assert(roads[i].way_id == WayId(way));
            }
        }
    }
}

proof fn lemma_geometry_rows_cover(roads: Seq<RoadView>, upto: int, way: WayId)
    requires
        0 <= upto <= roads.len(),
        exists|i: int|
            0 <= i < upto && (#[trigger] roads[i]).way_id == way && roads[i].polyline is Some,
    ensures
        has_polyline(geometry_rows(roads, upto), way.0),
    decreases upto,
{
    if roads[upto - 1].way_id == way && roads[upto - 1].polyline is Some {
        let points = roads[upto - 1].polyline.unwrap();
        assert(geometry_rows(roads, upto).count(
            (way.0, points.map_values(|point: TileCoordinates| point.row())),
        ) > 0);
    } else {
        let i = choose|i: int|
            0 <= i < upto && (#[trigger] roads[i]).way_id == way && roads[i].polyline is Some;
        assert(roads[i].way_id == way);
        lemma_geometry_rows_cover(roads, upto - 1, way);
        let before = geometry_rows(roads, upto - 1);
        let polyline = choose|polyline: Seq<(u32, u32, u32, u32, i32, i32)>|
            before.count((way.0, polyline)) > 0;
        assert(geometry_rows(roads, upto).count((way.0, polyline)) > 0);
    }
}

/// Whether a way of a tile has a polyline.
pub(crate) open spec fn has_line() -> spec_fn(RoadView) -> bool {
    |road: RoadView| road.polyline is Some
}

/// The ways of the tile that have a polyline.
pub(crate) open spec fn drawn_roads(roads: Seq<RoadView>) -> Seq<RoadView> {
    roads.filter(has_line())
}

proof fn lemma_drawn_roads(roads: Seq<RoadView>)
    ensures
        forall|way: WayId| #[trigger]
            way_in_tile(drawn_roads(roads), way) <==> drawn_in_tile(roads, way),
{
    let lines = drawn_roads(roads);
    roads.filter_lemma(has_line());
    assert forall|way: WayId| #[trigger] way_in_tile(lines, way) implies drawn_in_tile(roads, way) by {
        let j = choose|j: int| 0 <= j < lines.len() && (#[trigger] lines[j]).way_id == way;
        assert(lines.contains(lines[j]));
        roads.lemma_filter_contains_rev(has_line(), lines[j]);
        let i = choose|i: int| 0 <= i < roads.len() && roads[i] == lines[j];
        assert(has_line()(lines[j]));
        assert(roads[i].way_id == way);
    }
    assert forall|way: WayId| drawn_in_tile(roads, way) implies #[trigger] way_in_tile(lines, way) by {
        let i = choose|i: int|
            0 <= i < roads.len() && (#[trigger] roads[i]).way_id == way && roads[i].polyline is Some;
        assert(has_line()(roads[i]));
        assert(lines.contains(roads[i]));
        let j = choose|j: int| 0 <= j < lines.len() && lines[j] == roads[i];
        assert(lines[j].way_id == way);
    }
}

/// Each member of each group joins two ways of `lines`.
pub(crate) open spec fn members_kept(lines: Seq<RoadView>, groups: Seq<GroupView>) -> bool {
    forall|g: int, k: int|
        0 <= g < groups.len() && 0 <= k < groups[g].members.len() ==> kept(
            lines,
            #[trigger] groups[g].members[k],
        )
}

proof fn lemma_groups_drawn(roads: Seq<RoadView>, crossings: Seq<CrossingView>, upto: int)
    requires
        0 <= upto <= crossings.len(),
        joined_ways_drawn(roads, crossings),
    ensures
        members_kept(drawn_roads(roads), groups_of(roads, crossings, upto)),
    decreases upto,
{
    if upto > 0 {
        lemma_groups_drawn(roads, crossings, upto - 1);
        lemma_drawn_roads(roads);
        let lines = drawn_roads(roads);
        let before = groups_of(roads, crossings, upto - 1);
        let after = groups_of(roads, crossings, upto);
        let transition = crossings[upto - 1].transition;
        if kept(roads, transition) {
            assert(kept(lines, transition));
            match group_place(before, transition.source()) {
                Some(place) => {
                    assert forall|g: int, k: int|
                        0 <= g < after.len() && 0 <= k < after[g].members.len() implies kept(
                        lines,
                        #[trigger] after[g].members[k],
                    ) by {
                        if g == place && k == before[g].members.len() {
                        } else {
                            assert(after[g].members[k] == before[g].members[k]);
                        }
                    }
                },
                None => {
                    assert forall|g: int, k: int|
                        0 <= g < after.len() && 0 <= k < after[g].members.len() implies kept(
                        lines,
                        #[trigger] after[g].members[k],
                    ) by {
                        if g < before.len() {
                            assert(after[g].members[k] == before[g].members[k]);
                        }
                    }
                },
            }
        }
    }
}

/// A graph in which every way that a transition enters has a polyline
/// still is one when a tile is added that holds a polyline for each way
/// that its transitions join.
proof fn lemma_tile_keeps_entered_ways_drawn(
    transitions: TransitionRows,
    geometry: GeometryRows,
    roads: Seq<RoadView>,
    crossings: Seq<CrossingView>,
    results: Seq<CostView>,
)
    requires
        entered_ways_drawn(transitions, geometry),
        joined_ways_drawn(roads, crossings),
        results.len() == groups_of(roads, crossings, crossings.len() as int).len(),
    ensures
        entered_ways_drawn(
            transitions.add(
                transition_rows(
                    groups_of(roads, crossings, crossings.len() as int),
                    results,
                    results.len() as int,
                ),
            ),
            geometry.add(geometry_rows(roads, roads.len() as int)),
        ),
{
    let lines = drawn_roads(roads);
    let groups = groups_of(roads, crossings, crossings.len() as int);
    let new_transitions = transition_rows(groups, results, results.len() as int);
    let new_geometry = geometry_rows(roads, roads.len() as int);
    lemma_groups_sound(roads, crossings, crossings.len() as int);
    lemma_groups_drawn(roads, crossings, crossings.len() as int);
    lemma_drawn_roads(roads);
    assert(groups_sound(lines, groups)) by {
        assert forall|g: int, k: int|
            0 <= g < groups.len() && 0 <= k < groups[g].members.len() implies kept(
            lines,
            #[trigger] groups[g].members[k],
        ) && groups[g].members[k].source() == groups[g].node by {
            assert(kept(roads, groups[g].members[k]));
        }
    }
    lemma_transition_rows_fit(lines, groups, results, results.len() as int);
    assert forall|node: (u64, i32), costed: (u64, u64, u64, u64), transition: (u64, i32, u64, i32)| #[trigger]
        transitions.add(new_transitions).count((node, (costed, transition))) > 0 implies has_polyline(
        geometry.add(new_geometry),
        transition.2,
    ) by {
        if transitions.count((node, (costed, transition))) > 0 {
            assert(has_polyline(geometry, transition.2));
            let polyline = choose|polyline: Seq<(u32, u32, u32, u32, i32, i32)>|
                geometry.count((transition.2, polyline)) > 0;
            assert(geometry.add(new_geometry).count((transition.2, polyline)) > 0);
        } else {
            assert(new_transitions.count((node, (costed, transition))) > 0);
            assert(row_fits(lines, (node, (costed, transition))));
            assert(way_in_tile(lines, WayId(transition.2)));
            assert(drawn_in_tile(roads, WayId(transition.2)));
            lemma_geometry_rows_cover(roads, roads.len() as int, WayId(transition.2));
            let polyline = choose|polyline: Seq<(u32, u32, u32, u32, i32, i32)>|
                new_geometry.count((transition.2, polyline)) > 0;
            assert(geometry.add(new_geometry).count((transition.2, polyline)) > 0);
        }
    }
}

proof fn lemma_node_rows_fit(crossings: Seq<CrossingView>, upto: int)
    requires
        0 <= upto <= crossings.len(),
    ensures
        forall|way: u64, node: (u64, i32)| #[trigger]
            node_rows(crossings, upto).count((way, node)) > 0 ==> node.0 == way,
    decreases upto,
{
    if upto > 0 {
        lemma_node_rows_fit(crossings, upto - 1);
        let before = node_rows(crossings, upto - 1);
        assert forall|way: u64, node: (u64, i32)| #[trigger]
            node_rows(crossings, upto).count((way, node)) > 0 implies node.0 == way by {
            if before.count((way, node)) > 0 {
            }
        }
    }
}

/// A graph whose maps fit together still does when a tile is added to it.
proof fn lemma_tile_keeps_coherent(
    ways: WayRows,
    nodes: NodeRows,
    transitions: TransitionRows,
    roads: Seq<RoadView>,
    crossings: Seq<CrossingView>,
    costers: Seq<WayCoster>,
    results: Seq<CostView>,
)
    requires
        coherent(ways, nodes, transitions),
        costers.len() == roads.len(),
        results.len() == groups_of(roads, crossings, crossings.len() as int).len(),
    ensures
        coherent(
            ways.add(way_rows(roads, costers, roads.len() as int)),
            nodes.add(node_rows(crossings, crossings.len() as int)),
            transitions.add(
                transition_rows(
                    groups_of(roads, crossings, crossings.len() as int),
                    results,
                    results.len() as int,
                ),
            ),
        ),
{
    let new_ways = way_rows(roads, costers, roads.len() as int);
    let new_nodes = node_rows(crossings, crossings.len() as int);
    let groups = groups_of(roads, crossings, crossings.len() as int);
    let new_transitions = transition_rows(groups, results, results.len() as int);
    lemma_node_rows_fit(crossings, crossings.len() as int);
    lemma_groups_sound(roads, crossings, crossings.len() as int);
    lemma_transition_rows_fit(roads, groups, results, results.len() as int);
    assert forall|way: u64| has_coster(ways, way) implies has_coster(ways.add(new_ways), way) by {
        let coster = choose|coster: (Option<u32>, Option<u32>, Option<u32>, Option<u32>)|
            ways.count((way, coster)) > 0;
        assert(ways.add(new_ways).count((way, coster)) > 0);
    }
    assert forall|way: u64| way_in_tile(roads, WayId(way)) implies has_coster(
        ways.add(new_ways),
        way,
    ) by {
        lemma_way_rows_cover(roads, costers, roads.len() as int, WayId(way));
        let coster = choose|coster: (Option<u32>, Option<u32>, Option<u32>, Option<u32>)|
            new_ways.count((way, coster)) > 0;
        assert(ways.add(new_ways).count((way, coster)) > 0);
    }
    assert forall|node: (u64, i32), row: ((u64, u64, u64, u64), (u64, i32, u64, i32))| #[trigger]
        transitions.add(new_transitions).count((node, row)) > 0 implies {
        &&& WayTransition::of_row(row.1).source().row() == node
        &&& row.0.0 == row.1.2
        &&& has_coster(ways.add(new_ways), row.1.0)
        &&& has_coster(ways.add(new_ways), row.1.2)
    } by {
        if transitions.count((node, row)) > 0 {
            assert(has_coster(ways, row.1.0));
            assert(has_coster(ways, row.1.2));
        } else {
            assert(new_transitions.count((node, row)) > 0);
            assert(row_fits(roads, (node, row)));
        }
    }
    assert forall|way: u64, node: (u64, i32)| #[trigger]
        nodes.add(new_nodes).count((way, node)) > 0 implies node.0 == way by {
        if nodes.count((way, node)) > 0 {
        } else {
            assert(new_nodes.count((way, node)) > 0);
        }
    }
}

/// A graph in which every way with a coster has a polyline still is one
/// when a tile is added whose ways all have polylines.
proof fn lemma_tile_keeps_drawn(
    ways: WayRows,
    geometry: GeometryRows,
    roads: Seq<RoadView>,
    costers: Seq<WayCoster>,
)
    requires
        drawn(ways, geometry),
        costers.len() == roads.len(),
        forall|i: int| 0 <= i < roads.len() ==> (#[trigger] roads[i]).polyline is Some,
    ensures
        drawn(
            ways.add(way_rows(roads, costers, roads.len() as int)),
            geometry.add(geometry_rows(roads, roads.len() as int)),
        ),
{
    let new_ways = way_rows(roads, costers, roads.len() as int);
    let new_geometry = geometry_rows(roads, roads.len() as int);
    lemma_way_rows_in_tile(roads, costers, roads.len() as int);
    assert forall|way: u64| has_coster(ways.add(new_ways), way) implies has_polyline(
        geometry.add(new_geometry),
        way,
    ) by {
        let coster = choose|coster: (Option<u32>, Option<u32>, Option<u32>, Option<u32>)|
            ways.add(new_ways).count((way, coster)) > 0;
        if ways.count((way, coster)) > 0 {
            assert(has_coster(ways, way));
            let polyline = choose|polyline: Seq<(u32, u32, u32, u32, i32, i32)>|
                geometry.count((way, polyline)) > 0;
            assert(geometry.add(new_geometry).count((way, polyline)) > 0);
        } else {
            assert(new_ways.count((way, coster)) > 0);
            assert(has_coster(new_ways, way));
            assert(way_in_tile(roads, WayId(way)));
            let i = choose|i: int| 0 <= i < roads.len() && (#[trigger] roads[i]).way_id == WayId(way);
            assert(roads[i].polyline is Some);
            lemma_geometry_rows_cover(roads, roads.len() as int, WayId(way));
            let polyline = choose|polyline: Seq<(u32, u32, u32, u32, i32, i32)>|
                new_geometry.count((way, polyline)) > 0;
            assert(geometry.add(new_geometry).count((way, polyline)) > 0);
        }
    }
}

/// The rows of the first ways do not depend on the costers that follow.
proof fn lemma_way_rows_prefix(
    roads: Seq<RoadView>,
    costers: Seq<WayCoster>,
    longer: Seq<WayCoster>,
    upto: int,
)
    requires
        0 <= upto <= costers.len() <= longer.len(),
        forall|i: int| 0 <= i < costers.len() ==> longer[i] == costers[i],
    ensures
        way_rows(roads, longer, upto) == way_rows(roads, costers, upto),
    decreases upto,
{
    if upto > 0 {
        lemma_way_rows_prefix(roads, costers, longer, upto - 1);
    }
}

/// The rows of the first groups do not depend on the results that follow.
proof fn lemma_transition_rows_prefix(
    groups: Seq<GroupView>,
    results: Seq<CostView>,
    longer: Seq<CostView>,
    upto: int,
)
    requires
        0 <= upto <= results.len() <= longer.len(),
        forall|i: int| 0 <= i < results.len() ==> longer[i] == results[i],
    ensures
        transition_rows(groups, longer, upto) == transition_rows(groups, results, upto),
    decreases upto,
{
    if upto > 0 {
        lemma_transition_rows_prefix(groups, results, longer, upto - 1);
    }
}

impl Graph {
    /// Asks the costing model for the coster of each way and writes it,
    /// with the polyline of the way where it has one.
    pub(crate) fn stage_roads<CM: CostingModel>(&mut self, roads: &Vec<Road>, costing_model: &CM) -> (costers:
        Ghost<Seq<WayCoster>>)
        ensures
            costers@.len() == roads@.len(),
            forall|i: int|
                0 <= i < roads@.len() ==> costing_model.may_cost_way(
                    (#[trigger] road_views(roads@)[i]).tags,
                    costers@[i],
                ),
            final(self).staged_ways() == old(self).staged_ways().add(
                way_rows(road_views(roads@), costers@, roads@.len() as int),
            ),
            final(self).staged_geometry() == old(self).staged_geometry().add(
                geometry_rows(road_views(roads@), roads@.len() as int),
            ),
            final(self).staged_nodes() == old(self).staged_nodes(),
            final(self).staged_transitions() == old(self).staged_transitions(),
            final(self).ways() == old(self).ways(),
            final(self).geometry() == old(self).geometry(),
            final(self).nodes() == old(self).nodes(),
            final(self).transitions() == old(self).transitions(),
    {
        let ghost views = road_views(roads@);
        let ghost mut costers: Seq<WayCoster> = Seq::empty();
        let ghost first_ways = self.staged_ways();
        let ghost first_geometry = self.staged_geometry();
        let mut i: usize = 0;
        proof {
            assert(first_ways.add(way_rows(views, costers, 0)) =~= first_ways);
            assert(first_geometry.add(geometry_rows(views, 0)) =~= first_geometry);
        }
        while i < roads.len()
            invariant
                i <= roads.len(),
                views == road_views(roads@),
                costers.len() == i,
                forall|j: int|
                    0 <= j < i ==> costing_model.may_cost_way((#[trigger] views[j]).tags, costers[j]),
                self.staged_ways() == first_ways.add(way_rows(views, costers, i as int)),
                self.staged_geometry() == first_geometry.add(geometry_rows(views, i as int)),
                self.staged_nodes() == old(self).staged_nodes(),
                self.staged_transitions() == old(self).staged_transitions(),
                self.ways() == old(self).ways(),
                self.geometry() == old(self).geometry(),
                self.nodes() == old(self).nodes(),
                self.transitions() == old(self).transitions(),
            decreases roads.len() - i,
        {
            let road = &roads[i];
            let coster = costing_model.cost_way(&road.tags);
            let ghost earlier = costers;
            proof {
                costers = costers.push(coster);
                lemma_way_rows_prefix(views, earlier, costers, i as int);
                assert(views[i as int].way_id == road.way_id);
                assert(views[i as int].tags == road.tags@);
                assert forall|j: int| 0 <= j < i + 1 implies costing_model.may_cost_way(
                    (#[trigger] views[j]).tags,
                    costers[j],
                ) by {
                    if j < i {
                        assert(costers[j] == earlier[j]);
                    }
                }
                assert(first_ways.add(way_rows(views, costers, i as int)).insert(
                    (road.way_id.0, coster.row()),
                ) =~= first_ways.add(way_rows(views, costers, i + 1)));
            }
            self.stage_way(road.way_id, coster);
            match &road.polyline {
                Some(points) => {
                    proof {
                        assert(views[i as int].polyline == Some(points@));
                        assert(first_geometry.add(geometry_rows(views, i as int)).insert(
                            (road.way_id.0, points@.map_values(|point: TileCoordinates| point.row())),
                        ) =~= first_geometry.add(geometry_rows(views, i + 1)));
                    }
                    self.stage_polyline(road.way_id, points);
                },
                None => {
                    proof {
                        assert(views[i as int].polyline is None);
                    }
                },
            }
            i += 1;
        }
        Ghost(costers)
    }

    /// Writes the stop that each transition of the tile leaves.
    pub(crate) fn stage_nodes(&mut self, crossings: &Vec<Crossing>)
        ensures
            final(self).staged_nodes() == old(self).staged_nodes().add(
                node_rows(crossing_views(crossings@), crossings@.len() as int),
            ),
            final(self).staged_ways() == old(self).staged_ways(),
            final(self).staged_geometry() == old(self).staged_geometry(),
            final(self).staged_transitions() == old(self).staged_transitions(),
            final(self).ways() == old(self).ways(),
            final(self).geometry() == old(self).geometry(),
            final(self).nodes() == old(self).nodes(),
            final(self).transitions() == old(self).transitions(),
    {
        let ghost views = crossing_views(crossings@);
        let ghost first_nodes = self.staged_nodes();
        let mut i: usize = 0;
        proof {
            assert(first_nodes.add(node_rows(views, 0)) =~= first_nodes);
        }
        while i < crossings.len()
            invariant
                i <= crossings.len(),
                views == crossing_views(crossings@),
                self.staged_nodes() == first_nodes.add(node_rows(views, i as int)),
                self.staged_ways() == old(self).staged_ways(),
                self.staged_geometry() == old(self).staged_geometry(),
                self.staged_transitions() == old(self).staged_transitions(),
                self.ways() == old(self).ways(),
                self.geometry() == old(self).geometry(),
                self.nodes() == old(self).nodes(),
                self.transitions() == old(self).transitions(),
            decreases crossings.len() - i,
        {
            let transition = crossings[i].transition;
            let node = SearchNode {
                way: transition.from_way_id,
                distance_along_way_mm: transition.distance_along_way_mm,
            };
            proof {
                assert(views[i as int].transition == transition);
                assert(first_nodes.add(node_rows(views, i as int)).insert((node.way.0, node.row()))
                    =~= first_nodes.add(node_rows(views, i + 1)));
            }
            self.stage_node(node);
            i += 1;
        }
    }

    /// Writes the costed transitions under the stop `node`.
    pub(crate) fn stage_pairs(
        &mut self,
        node: SearchNode,
        pairs: &Vec<(CostedWayTransition, WayTransition)>,
    )
        ensures
            final(self).staged_transitions() == old(self).staged_transitions().add(
                pair_rows(node, pairs@, pairs@.len() as int),
            ),
            final(self).staged_ways() == old(self).staged_ways(),
            final(self).staged_geometry() == old(self).staged_geometry(),
            final(self).staged_nodes() == old(self).staged_nodes(),
            final(self).ways() == old(self).ways(),
            final(self).geometry() == old(self).geometry(),
            final(self).nodes() == old(self).nodes(),
            final(self).transitions() == old(self).transitions(),
    {
        let ghost first = self.staged_transitions();
        let mut i: usize = 0;
        proof {
            assert(first.add(pair_rows(node, pairs@, 0)) =~= first);
        }
        while i < pairs.len()
            invariant
                i <= pairs.len(),
                self.staged_transitions() == first.add(pair_rows(node, pairs@, i as int)),
                self.staged_ways() == old(self).staged_ways(),
                self.staged_geometry() == old(self).staged_geometry(),
                self.staged_nodes() == old(self).staged_nodes(),
                self.ways() == old(self).ways(),
                self.geometry() == old(self).geometry(),
                self.nodes() == old(self).nodes(),
                self.transitions() == old(self).transitions(),
            decreases pairs.len() - i,
        {
            let (costed, transition) = pairs[i];
            proof {
                assert(first.add(pair_rows(node, pairs@, i as int)).insert(
                    (node.row(), (costed.row(), transition.row())),
                ) =~= first.add(pair_rows(node, pairs@, i + 1)));
            }
            self.stage_transition(node, costed, transition);
            i += 1;
        }
    }
}

/// Asks the costing model for the costs of the transitions of one group,
/// handing it the tags of the way that the stop lies on and, for each
/// member, the tags of the two ways and of the intersection.
pub(crate) fn cost_group<CM: CostingModel>(
    roads: &Vec<Road>,
    way_places: &HashMap<u64, usize>,
    crossings: &Vec<Crossing>,
    group: &CrossingGroup,
    costing_model: &CM,
) -> (result: TransitionCostResult)
    requires
        forall|way: u64| #[trigger]
            way_places@.dom().contains(way) ==> way_places@[way] < roads@.len() && way_places@[way]
                == way_place(road_views(roads@), WayId(way)),
        way_places@.dom().contains(group.node.way.0),
        forall|k: int|
            0 <= k < group.members@.len() ==> {
                &&& (#[trigger] group.members@[k]).0 < crossings@.len()
                &&& way_places@.dom().contains(group.members@[k].1.from_way_id.0)
                &&& way_places@.dom().contains(group.members@[k].1.to_way_id.0)
            },
    ensures
        costing_model.may_cost_intersection(
            way_tags(road_views(roads@), group.node.way),
            handed(road_views(roads@), crossing_views(crossings@), group@),
            result@,
        ),
{
    broadcast use group_hash_axioms;

    let ghost road_seq = road_views(roads@);
    let ghost crossing_seq = crossing_views(crossings@);
    let ghost wanted = handed(road_seq, crossing_seq, group@);
    let mut to_cost: Vec<TransitionToCost> = Vec::new();
    let mut k: usize = 0;
    while k < group.members.len()
        invariant
            k <= group.members@.len(),
            road_seq == road_views(roads@),
            crossing_seq == crossing_views(crossings@),
            wanted == handed(road_seq, crossing_seq, group@),
            forall|way: u64| #[trigger]
                way_places@.dom().contains(way) ==> way_places@[way] < roads@.len()
                    && way_places@[way] == way_place(road_seq, WayId(way)),
            forall|j: int|
                0 <= j < group.members@.len() ==> {
                    &&& (#[trigger] group.members@[j]).0 < crossings@.len()
                    &&& way_places@.dom().contains(group.members@[j].1.from_way_id.0)
                    &&& way_places@.dom().contains(group.members@[j].1.to_way_id.0)
                },
            to_cost@.len() == k,
            forall|j: int| 0 <= j < k ==> (#[trigger] to_cost@[j])@ == wanted[j],
        decreases group.members.len() - k,
    {
        let (place, transition) = group.members[k];
        let from_place = *way_places.get(&transition.from_way_id.0).unwrap();
        let to_place = *way_places.get(&transition.to_way_id.0).unwrap();
        let item = TransitionToCost {
            way_transition: transition,
            from_way_tags: &roads[from_place].tags,
            to_way_tags: &roads[to_place].tags,
            intersection_tags: &crossings[place].tags,
        };
        proof {
            assert(group@.members[k as int] == transition);
            assert(group@.places[k as int] == place);
            assert(road_seq[from_place as int].tags == roads@[from_place as int].tags@);
            assert(road_seq[to_place as int].tags == roads@[to_place as int].tags@);
            assert(crossing_seq[place as int].tags == crossings@[place as int].tags@);
            assert(WayId(transition.from_way_id.0) == transition.from_way_id);
            assert(WayId(transition.to_way_id.0) == transition.to_way_id);
            assert(item@ == wanted[k as int]);
        }
        to_cost.push(item);
        k += 1;
    }
    let current_place = *way_places.get(&group.node.way.0).unwrap();
    proof {
        assert(WayId(group.node.way.0) == group.node.way);
        assert(road_seq[current_place as int].tags == roads@[current_place as int].tags@);
        assert(asked(to_cost@) =~= wanted);
    }
    costing_model.cost_intersection(&roads[current_place].tags, to_cost.as_slice())
}

impl Graph {
    /// Takes a tile into the graph: the ways of the layer `roads` of
    /// `mvt_ways` and the transitions of the layer `intersections` of
    /// `mvt_nodes`, costed by `costing_model`.
    ///
    /// A tile is refused for the first way without an unsigned `way_id` or,
    /// where all ways have one, for the first transition that lacks one of
    /// its four properties or has it in the wrong type. A tile that is
    /// refused leaves the graph as it was.
    ///
    /// Every way that a transition enters has a coster afterwards. It has a
    /// polyline too, where that was so before and the tile holds a polyline
    /// for each way that its transitions join: a way whose geometry is not
    /// one line gets a coster and no polyline.
    pub fn ingest_tile<CM: CostingModel>(
        &mut self,
        x: u32,
        y: u32,
        z: u32,
        mvt_ways: &Vec<TileLayer>,
        mvt_nodes: &Vec<TileLayer>,
        costing_model: &CM,
    ) -> (result: Result<(), IngestError>)
        requires
            old(self).wf(),
        ensures
            final(self).wf(),
            match tile_content(x, y, z, mvt_ways@, mvt_nodes@) {
                Err(failure) => result matches Err(error) && error@ == failure && final(self).same_as(old(self)),
                Ok((roads, crossings)) => {
                    &&& result is Ok
                    &&& final(self).holds_tile(old(self), roads, crossings, costing_model)
                    &&& roads.len() == 0 && crossings.len() == 0 ==> final(self).same_as(old(self))
                    &&& drawn(old(self).ways(), old(self).geometry()) && (forall|i: int|
                        0 <= i < roads.len() ==> (#[trigger] roads[i]).polyline is Some) ==> drawn(
                        final(self).ways(),
                        final(self).geometry(),
                    )
                    &&& entered_ways_drawn(old(self).transitions(), old(self).geometry())
                        && joined_ways_drawn(roads, crossings) ==> entered_ways_drawn(
                        final(self).transitions(),
                        final(self).geometry(),
                    )
                },
            },
    {
        broadcast use group_hash_axioms;

        let roads: Vec<Road> = match find_layer(mvt_ways, "roads") {
            Some(place) => {
                match parse_roads(x, y, z, mvt_ways[place].extent, &mvt_ways[place].features) {
                    Ok(roads) => roads,
                    Err(error) => {
                        return Err(error);
                    },
                }
            },
            None => {
                let roads: Vec<Road> = Vec::new();
                proof {
                    assert(road_views(roads@) =~= Seq::empty());
                }
                roads
            },
        };
        let crossings: Vec<Crossing> = match find_layer(mvt_nodes, "intersections") {
            Some(place) => {
                match parse_crossings(&mvt_nodes[place].features) {
                    Ok(crossings) => crossings,
                    Err(error) => {
                        return Err(error);
                    },
                }
            },
            None => {
                let crossings: Vec<Crossing> = Vec::new();
                proof {
                    assert(crossing_views(crossings@) =~= Seq::empty());
                }
                crossings
            },
        };
        let ghost road_seq = road_views(roads@);
        let ghost crossing_seq = crossing_views(crossings@);
        assert(tile_content(x, y, z, mvt_ways@, mvt_nodes@) == Ok::<
            (Seq<RoadView>, Seq<CrossingView>),
            IngestFailure,
        >((road_seq, crossing_seq)));
        let way_places = index_ways(&roads);
        let groups = group_crossings(&roads, &crossings);
        let ghost group_seq = groups_of(road_seq, crossing_seq, crossing_seq.len() as int);
        let ghost first_transitions = self.staged_transitions();
        let costers = self.stage_roads(&roads, costing_model);
        self.stage_nodes(&crossings);
        let ghost mut results: Seq<CostView> = Seq::empty();
        let mut g: usize = 0;
        proof {
            lemma_groups_sound(road_seq, crossing_seq, crossing_seq.len() as int);
            assert(first_transitions.add(transition_rows(group_seq, results, 0))
                =~= first_transitions);
        }
        while g < groups.len()
            invariant
                g <= groups.len(),
                road_seq == road_views(roads@),
                crossing_seq == crossing_views(crossings@),
                group_seq == groups_of(road_seq, crossing_seq, crossing_seq.len() as int),
                group_views(groups@) == group_seq,
                groups_sound(road_seq, group_seq),
                results.len() == g,
                forall|way: u64| #[trigger]
                    way_places@.dom().contains(way) <==> way_in_tile(road_seq, WayId(way)),
                forall|way: u64| #[trigger]
                    way_places@.dom().contains(way) ==> way_places@[way] < roads@.len()
                        && way_places@[way] == way_place(road_seq, WayId(way)),
                forall|h: int, k: int|
                    0 <= h < groups@.len() && 0 <= k < groups@[h].members@.len() ==> (
                    #[trigger] groups@[h].members@[k]).0 < crossings@.len(),
                forall|h: int|
                    0 <= h < g ==> costing_model.may_cost_intersection(
                        way_tags(road_seq, group_seq[h].node.way),
                        handed(road_seq, crossing_seq, group_seq[h]),
                        #[trigger] results[h],
                    ),
                self.staged_transitions() == first_transitions.add(
                    transition_rows(group_seq, results, g as int),
                ),
                self.staged_ways() == old(self).staged_ways().add(
                    way_rows(road_seq, costers@, road_seq.len() as int),
                ),
                self.staged_geometry() == old(self).staged_geometry().add(
                    geometry_rows(road_seq, road_seq.len() as int),
                ),
                self.staged_nodes() == old(self).staged_nodes().add(
                    node_rows(crossing_seq, crossing_seq.len() as int),
                ),
                self.ways() == old(self).ways(),
                self.geometry() == old(self).geometry(),
                self.nodes() == old(self).nodes(),
                self.transitions() == old(self).transitions(),
            decreases groups.len() - g,
        {
            let group = &groups[g];
            proof {
                assert(group_seq[g as int] == group@);
                assert(group@.members.len() >= 1);
                assert forall|k: int| 0 <= k < group.members@.len() implies {
                    &&& (#[trigger] group.members@[k]).0 < crossings@.len()
                    &&& way_places@.dom().contains(group.members@[k].1.from_way_id.0)
                    &&& way_places@.dom().contains(group.members@[k].1.to_way_id.0)
                } by {
                    assert(group@.members[k] == group.members@[k].1);
                    assert(kept(road_seq, group_seq[g as int].members[k]));
                    assert(groups@[g as int].members@[k].0 < crossings@.len());
                }
                assert(group@.members[0] == group.members@[0].1);
                assert(group_seq[g as int].members[0].source() == group.node);
                assert(kept(road_seq, group_seq[g as int].members[0]));
                assert(way_places@.dom().contains(group.node.way.0));
            }
            let result = cost_group(&roads, &way_places, &crossings, group, costing_model);
            let pairs = costed_transitions(group, &result);
            let ghost earlier = results;
            proof {
                results = results.push(result@);
                lemma_transition_rows_prefix(group_seq, earlier, results, g as int);
                assert forall|h: int| 0 <= h < g + 1 implies costing_model.may_cost_intersection(
                    way_tags(road_seq, group_seq[h].node.way),
                    handed(road_seq, crossing_seq, group_seq[h]),
                    #[trigger] results[h],
                ) by {
                    if h < g {
                        assert(results[h] == earlier[h]);
                    }
                }
                assert(first_transitions.add(transition_rows(group_seq, results, g as int)).add(
                    pair_rows(group.node, pairs@, pairs@.len() as int),
                ) =~= first_transitions.add(transition_rows(group_seq, results, g + 1)));
            }
            self.stage_pairs(group.node, &pairs);
            g += 1;
        }
        self.publish();
        proof {
            lemma_tile_keeps_coherent(
                old(self).ways(),
                old(self).nodes(),
                old(self).transitions(),
                road_seq,
                crossing_seq,
                costers@,
                results,
            );
            assert(self.ways() == old(self).ways().add(
                way_rows(road_seq, costers@, road_seq.len() as int),
            ));
            assert(self.transitions() == old(self).transitions().add(
                transition_rows(group_seq, results, results.len() as int),
            ));
            assert(answers_of(costing_model, road_seq, crossing_seq, costers@, results));
            assert(self.holds_tile(old(self), road_seq, crossing_seq, costing_model));
            if road_seq.len() == 0 && crossing_seq.len() == 0 {
                assert(groups_of(road_seq, crossing_seq, 0) =~= Seq::empty());
                assert(old(self).ways().add(way_rows(road_seq, costers@, 0)) =~= old(self).ways());
                assert(old(self).geometry().add(geometry_rows(road_seq, 0)) =~= old(self).geometry());
                assert(old(self).nodes().add(node_rows(crossing_seq, 0)) =~= old(self).nodes());
                assert(old(self).transitions().add(transition_rows(group_seq, results, 0)) =~= old(self).transitions());
            }
            if drawn(old(self).ways(), old(self).geometry()) && (forall|i: int|
                0 <= i < road_seq.len() ==> (#[trigger] road_seq[i]).polyline is Some) {
                lemma_tile_keeps_drawn(old(self).ways(), old(self).geometry(), road_seq, costers@);
            }
            if entered_ways_drawn(old(self).transitions(), old(self).geometry())
                && joined_ways_drawn(road_seq, crossing_seq) {
                lemma_tile_keeps_entered_ways_drawn(
                    old(self).transitions(),
                    old(self).geometry(),
                    road_seq,
                    crossing_seq,
                    results,
                );
            }
        }
        Ok(())
    }
}

/// Each coster row of the first `upto` ways is that of one of them.
proof fn lemma_way_rows_come_from_roads(
    roads: Seq<RoadView>,
    costers: Seq<WayCoster>,
    upto: int,
    way: u64,
    coster: (Option<u32>, Option<u32>, Option<u32>, Option<u32>),
)
    requires
        0 <= upto <= roads.len(),
        way_rows(roads, costers, upto).count((way, coster)) > 0,
    ensures
        exists|i: int|
            0 <= i < upto && (#[trigger] roads[i]).way_id.0 == way && costers[i].row() == coster,
    decreases upto,
{
    if upto > 0 {
        let before = way_rows(roads, costers, upto - 1);
        if before.count((way, coster)) > 0 {
            lemma_way_rows_come_from_roads(roads, costers, upto - 1, way, coster);
            let i = choose|i: int|
                0 <= i < upto - 1 && (#[trigger] roads[i]).way_id.0 == way && costers[i].row()
                    == coster;
            assert(roads[i].way_id.0 == way);
        } else {
            assert(roads[upto - 1].way_id.0 == way);
        }
    }
}

/// A tile whose ways all differ, taken into a graph that holds no costers,
/// leaves no way with two different costers, whatever the costing model
/// says.
pub proof fn lemma_distinct_ways_are_unambiguous(roads: Seq<RoadView>, costers: Seq<WayCoster>)
    requires
        costers.len() == roads.len(),
        forall|i: int, j: int|
            0 <= i < j < roads.len() ==> (#[trigger] roads[i]).way_id != (#[trigger] roads[j]).way_id,
    ensures
        unambiguous(Multiset::empty().add(way_rows(roads, costers, roads.len() as int))),
{
    let rows = way_rows(roads, costers, roads.len() as int);
    assert(Multiset::empty().add(rows) =~= rows);
    assert forall|way: u64, one: WayCoster, other: WayCoster|
        rows.count((way, one.row())) > 0 && rows.count((way, other.row())) > 0 implies one
        == other by {
        lemma_way_rows_come_from_roads(roads, costers, roads.len() as int, way, one.row());
        lemma_way_rows_come_from_roads(roads, costers, roads.len() as int, way, other.row());
        let i = choose|i: int|
            0 <= i < roads.len() && (#[trigger] roads[i]).way_id.0 == way && costers[i].row()
                == one.row();
        let j = choose|j: int|
            0 <= j < roads.len() && (#[trigger] roads[j]).way_id.0 == way && costers[j].row()
                == other.row();
        if i < j {
            assert(roads[i].way_id != roads[j].way_id);
        }
        if j < i {
            assert(roads[j].way_id != roads[i].way_id);
        }
        assert(one.row() == other.row());
    }
}

} // verus!
