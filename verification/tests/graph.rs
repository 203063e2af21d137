use mvtr::costing::pedestrian::pedestrian_costing_model;
use mvtr::costing::units::{ElapsedTime, PartsPerMillion, TravelSpeed, TravelledDistance};
use mvtr::costing::{
    CostingModel, RoutingCost, Tags, TransitionCostResult, TransitionToCost, WayCoster,
};
use mvtr::graph::ingest::{costed_transitions, group_crossings, index_ways, CrossingGroup};
use mvtr::graph::route::{route_legs, RouteLeg, SearchResult};
use mvtr::graph::frontier::Frontier;
use mvtr::graph::search::{key_of, SearchState};
use mvtr::graph::tile::{
    find_layer, get_f32_property, get_u64_property, parse_crossings, parse_roads, Crossing,
    FeatureGeometry, IngestError, PropertyValue, Road, TileFeature, TileLayer,
};
use mvtr::graph::{
    CostedWayTransition, Graph, SearchNode, TileCoordinates, WayId, WayTransition,
};
use std::collections::{BTreeMap, BTreeSet};

fn text(name: &str, value: &str) -> (String, PropertyValue) {
    (name.to_string(), PropertyValue::String(value.to_string()))
}

fn uint(name: &str, value: u64) -> (String, PropertyValue) {
    (name.to_string(), PropertyValue::UInt(value))
}

fn metres(name: &str, thousandths: i32) -> (String, PropertyValue) {
    (name.to_string(), PropertyValue::Float(thousandths))
}

fn road(way: u64, highway: &str) -> TileFeature {
    TileFeature {
        geometry: FeatureGeometry::LineString(vec![(0, 0), (10, way as i32)]),
        properties: vec![uint("way_id", way), text("highway", highway)],
    }
}

fn crossing(from: u64, from_mm: i32, to: u64, to_mm: i32) -> TileFeature {
    TileFeature {
        geometry: FeatureGeometry::Other,
        properties: vec![
            uint("way_id", from),
            uint("transition_to_way", to),
            metres("distance_along_way", from_mm),
            metres("transition_to_distance_along_way", to_mm),
        ],
    }
}

fn tile(roads: Vec<TileFeature>, crossings: Vec<TileFeature>) -> Vec<TileLayer> {
    vec![
        TileLayer { name: "water".to_string(), extent: 512, features: vec![] },
        TileLayer { name: "roads".to_string(), extent: 4096, features: roads },
        TileLayer { name: "intersections".to_string(), extent: 4096, features: crossings },
    ]
}

fn walking() -> impl CostingModel {
    pedestrian_costing_model(TravelSpeed::from_um_per_ms(1_400))
}

/// Three ways lead from way 1 to way 9: by way 2, by way 3 and by way 4.
fn three_paths() -> Vec<TileLayer> {
    tile(
        vec![
            road(1, "footway"),
            road(2, "footway"),
            road(3, "footway"),
            road(4, "footway"),
            road(9, "footway"),
        ],
        vec![
            crossing(1, 1_000, 2, 0),
            crossing(1, 3_000, 3, 0),
            crossing(1, 7_000, 4, 0),
            crossing(2, 500, 9, 0),
            crossing(3, 100, 9, 0),
            crossing(4, 50, 9, 0),
        ],
    )
}

fn cost(cost_ms: u64, actual_ms: u64, mm: u64) -> RoutingCost {
    RoutingCost {
        cost_millis: ElapsedTime::from_millis(cost_ms),
        actual_millis: ElapsedTime::from_millis(actual_ms),
        distance_mm: TravelledDistance::from(mm),
    }
}

#[test]
fn search_returns_the_cheapest_of_three_paths() {
    let mut graph = Graph::new();
    let layers = three_paths();
    graph.ingest_tile(1, 2, 14, &layers, &layers, &walking()).expect("Failed to ingest tile");
    let route = graph
        .search_djikstra(WayId::from_id(1), 2_000, WayId::from_id(9), 0)
        .expect("Couldn't find a route.");
    assert_eq!(route.cost, cost(714 + 71, 714 + 71, 1_100));
    assert_eq!(
        route.legs,
        vec![
            RouteLeg { way: WayId::from_id(1), from_mm: 2_000, to_mm: 3_000 },
            RouteLeg { way: WayId::from_id(3), from_mm: 0, to_mm: 100 },
        ]
    );
}

#[test]
fn search_takes_the_second_path_when_the_first_is_closed() {
    let mut graph = Graph::new();
    let mut layers = three_paths();
    layers[2].features.remove(4);
    graph.ingest_tile(1, 2, 14, &layers, &layers, &walking()).expect("Failed to ingest tile");
    let route = graph
        .search_djikstra(WayId::from_id(1), 2_000, WayId::from_id(9), 0)
        .expect("Couldn't find a route.");
    assert_eq!(route.cost.distance().mm(), 1_500);
    assert_eq!(
        route.legs,
        vec![
            RouteLeg { way: WayId::from_id(1), from_mm: 2_000, to_mm: 1_000 },
            RouteLeg { way: WayId::from_id(2), from_mm: 0, to_mm: 500 },
        ]
    );
}

#[test]
fn search_passes_a_stop_only_by_a_continue_transition() {
    let mut graph = Graph::new();
    let mut layers = three_paths();
    layers[2].features.remove(4);
    layers[2].features.remove(3);
    graph.ingest_tile(1, 2, 14, &layers, &layers, &walking()).expect("Failed to ingest tile");
    let route = graph
        .search_djikstra(WayId::from_id(1), 2_000, WayId::from_id(9), 0)
        .expect("Couldn't find a route.");
    assert_eq!(route.cost.distance().mm(), 5_050);
    assert_eq!(
        route.legs,
        vec![
            RouteLeg { way: WayId::from_id(1), from_mm: 2_000, to_mm: 3_000 },
            RouteLeg { way: WayId::from_id(1), from_mm: 3_000, to_mm: 7_000 },
            RouteLeg { way: WayId::from_id(4), from_mm: 0, to_mm: 50 },
        ]
    );
    let states = graph
        .search_djikstra_inner(WayId::from_id(1), 2_000, WayId::from_id(9), 0)
        .expect("Couldn't find a route.");
    assert_eq!(states.len(), 4);
    assert_eq!(states[0].previous, states[0].idx);
    assert_eq!(states[0].cost, RoutingCost::zero());
    assert_eq!(states[1].via, SearchNode::new(WayId::from_id(1), 3_000));
    assert_eq!(states[1].node, SearchNode::new(WayId::from_id(1), 3_000));
    assert_eq!(states[3].node, SearchNode::new(WayId::from_id(9), 0));
    assert_eq!(route_legs(&states), route.legs);
}

#[test]
fn search_of_unreachable_goal_is_none() {
    let mut graph = Graph::new();
    let layers = tile(
        vec![road(1, "footway"), road(2, "footway"), road(9, "footway")],
        vec![crossing(1, 1_000, 2, 0), crossing(9, 10, 2, 0)],
    );
    graph.ingest_tile(1, 2, 14, &layers, &layers, &walking()).expect("Failed to ingest tile");
    assert!(graph.search_djikstra(WayId::from_id(1), 0, WayId::from_id(9), 0).is_none());
    assert!(graph.search_djikstra(WayId::from_id(1), 0, WayId::from_id(2), 0).is_some());
}

#[test]
fn search_from_the_goal_is_the_empty_route() {
    let graph = Graph::new();
    let route = graph
        .search_djikstra(WayId::from_id(5), 7, WayId::from_id(5), 7)
        .expect("Couldn't find a route.");
    assert!(route.legs.is_empty());
    assert_eq!(route.cost, RoutingCost::zero());
}

#[test]
fn search_outside_the_loaded_tiles_is_none() {
    let mut graph = Graph::new();
    assert!(graph.search_djikstra(WayId::from_id(1), 0, WayId::from_id(9), 0).is_none());
    let layers = three_paths();
    graph.ingest_tile(1, 2, 14, &layers, &layers, &walking()).expect("Failed to ingest tile");
    assert!(graph.search_djikstra(WayId::from_id(77), 0, WayId::from_id(9), 0).is_none());
    assert!(graph.search_djikstra(WayId::from_id(1), 0, WayId::from_id(77), 0).is_none());
    assert!(graph.search_djikstra(WayId::from_id(1), 0, WayId::from_id(9), 5).is_none());
}

#[test]
fn clear_is_total_and_ingestion_repeats() {
    let mut graph = Graph::new();
    let layers = three_paths();
    graph.ingest_tile(1, 2, 14, &layers, &layers, &walking()).expect("Failed to ingest tile");
    let before = graph
        .search_djikstra(WayId::from_id(1), 2_000, WayId::from_id(9), 0)
        .expect("Couldn't find a route.");
    graph.clear();
    assert!(graph.search_djikstra(WayId::from_id(1), 2_000, WayId::from_id(9), 0).is_none());
    assert_eq!(graph.way_coster(WayId::from_id(1)), None);
    assert_eq!(graph.get_polyline(&WayId::from_id(1)), None);
    assert!(graph.nodes_on_way(WayId::from_id(1)).is_empty());
    assert!(graph.transitions_from(SearchNode::new(WayId::from_id(1), 1_000)).is_empty());
    graph.ingest_tile(1, 2, 14, &layers, &layers, &walking()).expect("Failed to ingest tile");
    let after = graph
        .search_djikstra(WayId::from_id(1), 2_000, WayId::from_id(9), 0)
        .expect("Couldn't find a route.");
    assert_eq!(after.legs, before.legs);
    assert_eq!(after.cost, before.cost);
}

#[test]
fn empty_tile_changes_nothing() {
    let mut graph = Graph::new();
    let layers = three_paths();
    graph.ingest_tile(1, 2, 14, &layers, &layers, &walking()).expect("Failed to ingest tile");
    let none: Vec<TileLayer> = vec![];
    graph.ingest_tile(0, 0, 0, &none, &none, &walking()).expect("Failed to ingest tile");
    let bare = tile(vec![], vec![]);
    graph.ingest_tile(0, 0, 0, &bare, &bare, &walking()).expect("Failed to ingest tile");
    assert_eq!(graph.nodes_on_way(WayId::from_id(1)).len(), 3);
    assert_eq!(graph.transitions_from(SearchNode::new(WayId::from_id(1), 1_000)).len(), 2);
    assert!(graph.way_coster(WayId::from_id(9)).is_some());
    let mut empty = Graph::new();
    empty.ingest_tile(0, 0, 0, &none, &none, &walking()).expect("Failed to ingest tile");
    assert_eq!(empty.way_coster(WayId::from_id(1)), None);
}

#[test]
fn ingestion_stores_ways_stops_and_transitions() {
    let mut graph = Graph::new();
    let layers = three_paths();
    graph.ingest_tile(3, 5, 14, &layers, &layers, &walking()).expect("Failed to ingest tile");
    assert_eq!(
        graph.way_coster(WayId::from_id(3)),
        Some(WayCoster::from_speeds(
            Some(TravelSpeed::from_um_per_ms(1_400)),
            Some(TravelSpeed::from_um_per_ms(1_400)),
            Some(PartsPerMillion::of(0)),
            Some(PartsPerMillion::of(0)),
        ))
    );
    assert_eq!(
        graph.get_polyline(&WayId::from_id(3)),
        Some(vec![
            TileCoordinates { x: 3, y: 5, z: 14, extent: 4096, tile_x: 0, tile_y: 0 },
            TileCoordinates { x: 3, y: 5, z: 14, extent: 4096, tile_x: 10, tile_y: 3 },
        ])
    );
    let mut stops = graph.nodes_on_way(WayId::from_id(1));
    stops.sort();
    assert_eq!(
        stops,
        vec![
            SearchNode::new(WayId::from_id(1), 1_000),
            SearchNode::new(WayId::from_id(1), 3_000),
            SearchNode::new(WayId::from_id(1), 7_000),
        ]
    );
    let mut leaving = graph.transitions_from(SearchNode::new(WayId::from_id(1), 3_000));
    leaving.sort_by_key(|(costed, _)| costed.to_way_id);
    assert_eq!(
        leaving,
        vec![
            (
                CostedWayTransition { to_way_id: WayId::from_id(1), cost: RoutingCost::zero() },
                WayTransition::new(WayId::from_id(1), 3_000, WayId::from_id(1), 3_000),
            ),
            (
                CostedWayTransition { to_way_id: WayId::from_id(3), cost: RoutingCost::zero() },
                WayTransition::new(WayId::from_id(1), 3_000, WayId::from_id(3), 0),
            ),
        ]
    );
    assert!(graph.transitions_from(SearchNode::new(WayId::from_id(1), 2_000)).is_empty());
    let stops = graph.next_stops(&SearchNode::new(WayId::from_id(1), 3_000));
    assert_eq!(stops.at, Some(SearchNode::new(WayId::from_id(1), 3_000)));
    assert_eq!(stops.after, Some(SearchNode::new(WayId::from_id(1), 7_000)));
    assert_eq!(stops.before, Some(SearchNode::new(WayId::from_id(1), 1_000)));
    let stops = graph.next_stops(&SearchNode::new(WayId::from_id(1), 0));
    assert_eq!(stops.at, None);
    assert_eq!(stops.after, Some(SearchNode::new(WayId::from_id(1), 1_000)));
    assert_eq!(stops.before, None);
}

#[test]
fn every_entered_way_has_a_coster() {
    let mut graph = Graph::new();
    let layers = tile(
        vec![road(1, "footway"), road(2, "footway")],
        vec![crossing(1, 0, 2, 0), crossing(1, 0, 3, 0), crossing(4, 0, 1, 0)],
    );
    graph.ingest_tile(1, 2, 14, &layers, &layers, &walking()).expect("Failed to ingest tile");
    let leaving = graph.transitions_from(SearchNode::new(WayId::from_id(1), 0));
    assert_eq!(leaving.len(), 2);
    for (_, transition) in &leaving {
        assert!(graph.way_coster(transition.to_way_id()).is_some());
        assert!(graph.get_polyline(&transition.to_way_id()).is_some());
    }
    assert!(graph.transitions_from(SearchNode::new(WayId::from_id(4), 0)).is_empty());
    assert_eq!(graph.nodes_on_way(WayId::from_id(4)), vec![SearchNode::new(WayId::from_id(4), 0)]);
}

#[test]
fn way_without_a_single_line_has_no_polyline() {
    let mut graph = Graph::new();
    let mut roads = vec![road(1, "footway"), road(2, "footway"), road(3, "footway"), road(4, "footway")];
    roads[0].geometry = FeatureGeometry::MultiLineString(vec![vec![(1, 2)], vec![(3, 4)]]);
    roads[1].geometry = FeatureGeometry::MultiLineString(vec![]);
    roads[2].geometry = FeatureGeometry::Other;
    roads[3].geometry = FeatureGeometry::MultiLineString(vec![vec![(1, 2), (3, 4)]]);
    let layers = tile(roads, vec![]);
    graph.ingest_tile(0, 0, 1, &layers, &layers, &walking()).expect("Failed to ingest tile");
    for way in 1..=3 {
        assert!(graph.way_coster(WayId::from_id(way)).is_some());
        assert_eq!(graph.get_polyline(&WayId::from_id(way)), None);
    }
    assert_eq!(graph.get_polyline(&WayId::from_id(4)).map(|line| line.len()), Some(2));
}

#[test]
fn refused_tile_leaves_the_graph_as_it_was() {
    let mut graph = Graph::new();
    let good = three_paths();
    graph.ingest_tile(1, 2, 14, &good, &good, &walking()).expect("Failed to ingest tile");
    let mut bad = tile(vec![road(50, "footway"), road(51, "footway")], vec![crossing(50, 0, 51, 0)]);
    bad[2].features[0].properties.remove(1);
    let refused = graph.ingest_tile(1, 2, 14, &bad, &bad, &walking());
    assert!(matches!(refused, Err(IngestError::MissingProperty(name)) if name == "transition_to_way"));
    let none: Vec<TileLayer> = vec![];
    graph.ingest_tile(0, 0, 0, &none, &none, &walking()).expect("Failed to ingest tile");
    assert_eq!(graph.way_coster(WayId::from_id(50)), None);
    assert!(graph.nodes_on_way(WayId::from_id(50)).is_empty());
    assert!(graph.way_coster(WayId::from_id(1)).is_some());
}

#[test]
fn each_ingestion_error_has_its_input() {
    let mut graph = Graph::new();
    let mut roads = tile(vec![road(1, "footway")], vec![]);
    roads[1].features[0].properties[0] = text("way_id", "1");
    let refused = graph.ingest_tile(0, 0, 0, &roads, &roads, &walking());
    assert!(matches!(refused, Err(IngestError::PropertyNotU64)));
    assert_eq!(refused.unwrap_err().message(), "Property not a u64");

    let mut nodes = tile(vec![], vec![crossing(1, 0, 2, 0)]);
    nodes[2].features[0].properties[2] = uint("distance_along_way", 0);
    let refused = graph.ingest_tile(0, 0, 0, &nodes, &nodes, &walking());
    assert!(matches!(refused, Err(IngestError::PropertyNotF32)));
    assert_eq!(refused.unwrap_err().message(), "Property not a f32");

    let mut nodes = tile(vec![], vec![crossing(1, 0, 2, 0)]);
    nodes[2].features[0].properties.remove(0);
    let refused = graph.ingest_tile(0, 0, 0, &nodes, &nodes, &walking());
    assert_eq!(refused.unwrap_err().message(), "Intersection missing way_id");
}

#[test]
fn roads_are_refused_before_intersections() {
    let mut graph = Graph::new();
    let mut layers = tile(vec![road(1, "footway")], vec![crossing(1, 0, 2, 0)]);
    layers[1].features[0].properties.clear();
    layers[2].features[0].properties.clear();
    let refused = graph.ingest_tile(0, 0, 0, &layers, &layers, &walking());
    assert_eq!(refused.unwrap_err().message(), "Intersection missing way_id");
    layers[1].features[0].properties.push(text("way_id", "x"));
    let refused = graph.ingest_tile(0, 0, 0, &layers, &layers, &walking());
    assert_eq!(refused.unwrap_err().message(), "Property not a u64");
}

#[test]
fn ways_and_nodes_may_come_from_different_blobs() {
    let mut graph = Graph::new();
    let ways = vec![TileLayer {
        name: "roads".to_string(),
        extent: 256,
        features: vec![road(1, "footway"), road(2, "footway")],
    }];
    let nodes = vec![
        TileLayer { name: "roads".to_string(), extent: 1, features: vec![road(7, "footway")] },
        TileLayer {
            name: "intersections".to_string(),
            extent: 256,
            features: vec![crossing(1, 0, 2, 0)],
        },
        TileLayer {
            name: "intersections".to_string(),
            extent: 256,
            features: vec![crossing(2, 0, 1, 0)],
        },
    ];
    graph.ingest_tile(0, 0, 0, &ways, &nodes, &walking()).expect("Failed to ingest tile");
    assert_eq!(graph.way_coster(WayId::from_id(7)), None);
    assert_eq!(graph.transitions_from(SearchNode::new(WayId::from_id(1), 0)).len(), 2);
    assert!(graph.transitions_from(SearchNode::new(WayId::from_id(2), 0)).is_empty());
    assert_eq!(find_layer(&nodes, "intersections"), Some(1));
    assert_eq!(find_layer(&nodes, "water"), None);
}

struct Toll;

impl CostingModel for Toll {
    fn cost_intersection(&self, _tags: &Tags, list: &[TransitionToCost]) -> TransitionCostResult {
        let mut penalties: Vec<(WayId, ElapsedTime)> = list
            .iter()
            .filter(|item| item.to_way_tags.tag_is("toll", "yes"))
            .map(|item| (item.to_way_id(), ElapsedTime::from_millis(60_000)))
            .collect();
        penalties.push((WayId::from_id(12_345), ElapsedTime::from_millis(1)));
        TransitionCostResult::from_transitions_and_costs_millis(&penalties, None)
    }

    fn cost_way(&self, tags: &Tags) -> WayCoster {
        if tags.tag_is("oneway", "yes") {
            WayCoster::from_speeds(Some(TravelSpeed::from_um_per_ms(10_000)), None, None, None)
        } else {
            WayCoster::from_speeds(
                Some(TravelSpeed::from_um_per_ms(10_000)),
                Some(TravelSpeed::from_um_per_ms(5_000)),
                Some(PartsPerMillion::of(500_000)),
                None,
            )
        }
    }
}

#[test]
fn the_costing_model_decides_what_is_stored() {
    let mut graph = Graph::new();
    let mut roads = vec![road(1, "primary"), road(2, "primary"), road(3, "primary")];
    roads[1].properties.push(text("toll", "yes"));
    roads[2].properties.push(text("oneway", "yes"));
    let layers = tile(roads, vec![crossing(1, 4_000, 2, 0), crossing(1, 4_000, 3, 0), crossing(3, 9_000, 2, 500)]);
    graph.ingest_tile(0, 0, 0, &layers, &layers, &Toll).expect("Failed to ingest tile");
    assert_eq!(
        graph.transitions_from(SearchNode::new(WayId::from_id(1), 4_000)),
        vec![(
            CostedWayTransition { to_way_id: WayId::from_id(2), cost: cost(60_000, 0, 0) },
            WayTransition::new(WayId::from_id(1), 4_000, WayId::from_id(2), 0),
        )]
    );
    assert_eq!(
        graph.way_coster(WayId::from_id(3)),
        Some(WayCoster::from_speeds(Some(TravelSpeed::from_um_per_ms(10_000)), None, None, None))
    );
    let forward = graph
        .search_djikstra(WayId::from_id(1), 0, WayId::from_id(2), 0)
        .expect("Couldn't find a route.");
    assert_eq!(forward.cost, cost(400 + 200 + 60_000, 400, 4_000));
    let reverse = graph
        .search_djikstra(WayId::from_id(1), 9_000, WayId::from_id(2), 0)
        .expect("Couldn't find a route.");
    assert_eq!(reverse.cost, cost(1_000 + 60_000, 1_000, 5_000));
    assert!(graph.search_djikstra(WayId::from_id(3), 0, WayId::from_id(2), 500).is_some());
    assert!(graph.search_djikstra(WayId::from_id(3), 9_500, WayId::from_id(2), 500).is_none());
}

#[test]
fn costed_transitions_take_the_last_member_for_each_way() {
    let node = SearchNode::new(WayId::from_id(1), 10);
    let group = CrossingGroup {
        node,
        members: vec![
            (0, WayTransition::new(WayId::from_id(1), 10, WayId::from_id(2), 0)),
            (1, WayTransition::new(WayId::from_id(1), 10, WayId::from_id(3), 0)),
            (2, WayTransition::new(WayId::from_id(1), 10, WayId::from_id(2), 700)),
        ],
    };
    let result = TransitionCostResult::from_transitions_and_costs_millis(
        &vec![
            (WayId::from_id(2), ElapsedTime::from_millis(5)),
            (WayId::from_id(8), ElapsedTime::from_millis(6)),
        ],
        Some(ElapsedTime::from_millis(9)),
    );
    assert_eq!(
        costed_transitions(&group, &result),
        vec![
            (
                CostedWayTransition { to_way_id: WayId::from_id(2), cost: cost(5, 0, 0) },
                WayTransition::new(WayId::from_id(1), 10, WayId::from_id(2), 700),
            ),
            (
                CostedWayTransition { to_way_id: WayId::from_id(1), cost: cost(9, 0, 0) },
                WayTransition::new(WayId::from_id(1), 10, WayId::from_id(1), 10),
            ),
        ]
    );
    assert!(costed_transitions(&group, &TransitionCostResult::impassable()).is_empty());
}

#[test]
fn crossings_are_grouped_by_the_stop_they_leave() {
    let layers = tile(
        vec![road(1, "a"), road(2, "b"), road(1, "c")],
        vec![
            crossing(1, 5, 2, 0),
            crossing(2, 5, 1, 0),
            crossing(1, 5, 3, 0),
            crossing(1, 5, 1, 9),
            crossing(1, 6, 2, 0),
        ],
    );
    let roads: Vec<Road> = parse_roads(7, 8, 9, 4096, &layers[1].features).unwrap();
    let crossings: Vec<Crossing> = parse_crossings(&layers[2].features).unwrap();
    assert_eq!(roads.len(), 3);
    assert!(roads[2].tags.tag_is("highway", "c"));
    assert_eq!(crossings[3].transition, WayTransition::new(WayId::from_id(1), 5, WayId::from_id(1), 9));
    let places = index_ways(&roads);
    assert_eq!(places.get(&1), Some(&2));
    assert_eq!(places.get(&2), Some(&1));
    assert_eq!(places.get(&3), None);
    let groups = group_crossings(&roads, &crossings);
    assert_eq!(groups.len(), 3);
    assert_eq!(groups[0].node, SearchNode::new(WayId::from_id(1), 5));
    assert_eq!(groups[0].members.iter().map(|member| member.0).collect::<Vec<_>>(), vec![0, 3]);
    assert_eq!(groups[1].node, SearchNode::new(WayId::from_id(2), 5));
    assert_eq!(groups[2].node, SearchNode::new(WayId::from_id(1), 6));
}

#[test]
fn properties_are_read_by_name_and_type() {
    let properties = vec![uint("way_id", 1), metres("length", 1_500), uint("way_id", 2), text("name", "x")];
    assert_eq!(get_u64_property(&properties, "way_id").ok(), Some(2));
    assert_eq!(get_f32_property(&properties, "length").ok(), Some(1_500));
    assert!(matches!(get_u64_property(&properties, "length"), Err(IngestError::PropertyNotU64)));
    assert!(matches!(get_f32_property(&properties, "name"), Err(IngestError::PropertyNotF32)));
    assert!(matches!(get_f32_property(&properties, "nope"), Err(IngestError::MissingProperty(name)) if name == "nope"));
    let other = vec![("flag".to_string(), PropertyValue::Other)];
    assert!(matches!(get_u64_property(&other, "flag"), Err(IngestError::PropertyNotU64)));
}

#[test]
fn frontier_gives_the_cheapest_state_first() {
    let state = |idx: usize, way: u64, ms: u64| SearchState {
        previous: 0,
        idx,
        node: SearchNode::new(WayId::from_id(way), 0),
        via: SearchNode::new(WayId::from_id(way), 0),
        cost: cost(ms, 0, 0),
    };
    let mut frontier = Frontier::new();
    for waiting in [state(0, 1, 30), state(1, 2, 10), state(2, 3, 10), state(3, 4, 20)] {
        frontier.push(waiting);
    }
    assert_eq!(frontier.len(), 4);
    assert_eq!(frontier.pop().map(|s| s.idx), Some(2));
    assert_eq!(frontier.pop().map(|s| s.idx), Some(1));
    assert_eq!(frontier.pop().map(|s| s.idx), Some(3));
    assert_eq!(frontier.pop().map(|s| s.idx), Some(0));
    assert_eq!(frontier.pop(), None);
    assert_eq!(frontier.len(), 0);
    assert!(state(0, 1, 5) > state(1, 1, 6));
    assert!(state(0, 2, 5) > state(1, 1, 5));
    assert!(state(0, 1, 5).is_ahead_of(&state(1, 1, 6)));
}

#[test]
fn frontier_orders_many_states() {
    let mut frontier = Frontier::new();
    let mut seed: u64 = 12_345;
    for idx in 0..500 {
        seed = seed.wrapping_mul(6_364_136_223_846_793_005).wrapping_add(1_442_695_040_888_963_407);
        frontier.push(SearchState {
            previous: 0,
            idx,
            node: SearchNode::new(WayId::from_id(seed % 7), (seed % 11) as i32),
            via: SearchNode::new(WayId::from_id(0), 0),
            cost: cost((seed >> 33) % 50, 0, 0),
        });
    }
    let mut last: Option<SearchState> = None;
    let mut count = 0;
    while let Some(next) = frontier.pop() {
        if let Some(before) = last {
            assert!(!next.is_ahead_of(&before));
        }
        last = Some(next);
        count += 1;
    }
    assert_eq!(count, 500);
}

#[test]
fn positions_have_different_keys() {
    let a = key_of(&SearchNode::new(WayId::from_id(1), -1));
    let b = key_of(&SearchNode::new(WayId::from_id(0), i32::MAX));
    let c = key_of(&SearchNode::new(WayId::from_id(u64::MAX), i32::MIN));
    assert_eq!(a, (1u128 << 32) + 0x7fff_ffff);
    assert_eq!(b, 0xffff_ffff);
    assert_eq!(c, (u64::MAX as u128) << 32);
}

#[test]
fn transitions_compare_by_distance_way_and_target() {
    let t = |from: u64, mm: i32, to: u64, to_mm: i32| {
        WayTransition::new(WayId::from_id(from), mm, WayId::from_id(to), to_mm)
    };
    assert!(t(9, 1, 5, 5) < t(1, 2, 0, 0));
    assert!(t(9, 1, 4, 5) < t(1, 1, 5, 0));
    assert!(t(9, 1, 4, 5) < t(1, 1, 4, 6));
    assert!(t(9, 1, 4, 5) <= t(1, 1, 4, 5));
    assert_eq!(t(1, 2, 3, 4).from_way_id(), WayId::from_id(1));
    assert_eq!(t(1, 2, 3, 4).distance_along_way_mm(), 2);
    assert_eq!(t(1, 2, 3, 4).to_way_id(), WayId::from_id(3));
    assert_eq!(t(1, 2, 3, 4).transition_to_distance_along_way_mm(), 4);
    assert_eq!(WayTransition::from_row(t(1, 2, 3, 4).to_row()), t(1, 2, 3, 4));
    assert_eq!(WayId::from_id(6).id(), 6);
}

#[test]
fn search_result_reports_polyline_and_cost() {
    let result = SearchResult::new("}zraHdepiV".to_string(), cost(9, 8, 325_931));
    assert_eq!(result.encoded_polyline(), "}zraHdepiV");
    assert_eq!(result.route_distance_mm(), 325_931);
    assert_eq!(result.route_cost_millis(), 9);
    assert_eq!(result.route_duration_millis(), 8);
}

/// The cost of the cheapest route by relaxing every step until nothing
/// changes, for ways that all cost the same to travel.
fn cheapest_by_relaxation(
    roads: &[u64],
    crossings: &[(u64, i32, u64, i32)],
    start: (u64, i32),
    goal: (u64, i32),
) -> Option<(u64, u64, u64)> {
    let is_road = |way: u64| roads.contains(&way);
    let mut stops: BTreeMap<u64, BTreeSet<i32>> = BTreeMap::new();
    let mut leaving: BTreeMap<(u64, i32), BTreeMap<u64, i32>> = BTreeMap::new();
    for &(from, from_mm, to, to_mm) in crossings {
        stops.entry(from).or_default().insert(from_mm);
        if is_road(from) && is_road(to) {
            leaving.entry((from, from_mm)).or_default().insert(to, to_mm);
        }
    }
    let mut best: BTreeMap<(u64, i32), (u64, u64, u64)> = BTreeMap::new();
    best.insert(start, (0, 0, 0));
    loop {
        let mut changed = false;
        for (node, cost) in best.clone() {
            if !is_road(node.0) {
                continue;
            }
            let on_way = stops.get(&node.0).cloned().unwrap_or_default();
            let mut vias: Vec<i32> = Vec::new();
            if on_way.contains(&node.1) {
                vias.push(node.1);
            }
            if let Some(after) = on_way.range(node.1 + 1..).next() {
                vias.push(*after);
            }
            if let Some(before) = on_way.range(..node.1).next_back() {
                vias.push(*before);
            }
            for via in vias {
                let mm = (node.1 as i64 - via as i64).unsigned_abs();
                let ms = mm * 1000 / 1_400;
                let at_via = (cost.0 + ms, cost.1 + ms, cost.2 + mm);
                let Some(group) = leaving.get(&(node.0, via)) else {
                    continue;
                };
                let mut targets: Vec<(u64, i32)> =
                    group.iter().map(|(to, to_mm)| (*to, *to_mm)).collect();
                targets.push((node.0, via));
                for target in targets {
                    if best.get(&target).map(|known| at_via < *known).unwrap_or(true) {
                        best.insert(target, at_via);
                        changed = true;
                    }
                }
            }
        }
        if !changed {
            break;
        }
    }
    if start == goal {
        return Some((0, 0, 0));
    }
    best.get(&goal).copied()
}

#[test]
fn search_agrees_with_exhaustive_relaxation() {
    let mut seed: u64 = 99;
    let mut next = |below: u64| {
        seed = seed.wrapping_mul(6_364_136_223_846_793_005).wrapping_add(1_442_695_040_888_963_407);
        (seed >> 33) % below
    };
    let mut found_routes = 0;
    for _ in 0..60 {
        let ways = 2 + next(5);
        let roads: Vec<u64> = (1..=ways).collect();
        let count = next(14);
        let mut crossings: Vec<(u64, i32, u64, i32)> = Vec::new();
        for _ in 0..count {
            crossings.push((
                1 + next(ways + 1),
                (next(6) * 1_000) as i32,
                1 + next(ways + 1),
                (next(6) * 1_000) as i32,
            ));
        }
        let layers = tile(
            roads.iter().map(|way| road(*way, "footway")).collect(),
            crossings.iter().map(|c| crossing(c.0, c.1, c.2, c.3)).collect(),
        );
        let mut graph = Graph::new();
        graph.ingest_tile(0, 0, 14, &layers, &layers, &walking()).expect("Failed to ingest tile");
        for _ in 0..8 {
            let start = (1 + next(ways), (next(6) * 1_000) as i32);
            let goal = (1 + next(ways), (next(6) * 1_000) as i32);
            let expected = cheapest_by_relaxation(&roads, &crossings, start, goal);
            let route = graph.search_djikstra(
                WayId::from_id(start.0),
                start.1,
                WayId::from_id(goal.0),
                goal.1,
            );
            match (&route, expected) {
                (None, None) => {}
                (Some(route), Some(least)) => {
                    found_routes += 1;
                    assert_eq!(route.cost, cost(least.0, least.1, least.2));
                    let walked: u64 = route
                        .legs
                        .iter()
                        .map(|leg| (leg.from_mm as i64 - leg.to_mm as i64).unsigned_abs())
                        .sum();
                    assert_eq!(walked, least.2);
                }
                _ => panic!("the search and the relaxation disagree"),
            }
        }
    }
    assert!(found_routes > 50);
}

#[test]
fn a_tile_taken_in_twice_is_stored_twice() {
    let mut graph = Graph::new();
    let layers = three_paths();
    graph.ingest_tile(1, 2, 14, &layers, &layers, &walking()).expect("Failed to ingest tile");
    graph.ingest_tile(1, 2, 14, &layers, &layers, &walking()).expect("Failed to ingest tile");
    assert_eq!(graph.nodes_on_way(WayId::from_id(1)).len(), 6);
    assert_eq!(graph.transitions_from(SearchNode::new(WayId::from_id(1), 3_000)).len(), 4);
    let stops = graph.next_stops(&SearchNode::new(WayId::from_id(1), 2_000));
    assert_eq!(stops.after, Some(SearchNode::new(WayId::from_id(1), 3_000)));
    assert_eq!(stops.before, Some(SearchNode::new(WayId::from_id(1), 1_000)));
    let route = graph
        .search_djikstra(WayId::from_id(1), 2_000, WayId::from_id(9), 0)
        .expect("Couldn't find a route.");
    assert_eq!(route.cost, cost(714 + 71, 714 + 71, 1_100));
}

struct OneWay;

impl CostingModel for OneWay {
    fn cost_intersection(&self, _tags: &Tags, list: &[TransitionToCost]) -> TransitionCostResult {
        let free: Vec<(WayId, ElapsedTime)> =
            list.iter().map(|item| (item.to_way_id(), ElapsedTime::from_millis(0))).collect();
        TransitionCostResult::from_transitions_and_costs_millis(&free, None)
    }

    fn cost_way(&self, tags: &Tags) -> WayCoster {
        let speed = Some(TravelSpeed::from_um_per_ms(1_000));
        if tags.tag_is("oneway", "yes") {
            WayCoster::from_speeds(speed, None, None, None)
        } else {
            WayCoster::from_speeds(speed, speed, None, None)
        }
    }
}

#[test]
fn a_stretch_against_a_one_way_is_not_travelled() {
    let mut graph = Graph::new();
    let mut roads = vec![road(1, "residential"), road(9, "residential")];
    roads[0].properties.push(text("oneway", "yes"));
    let layers = tile(roads, vec![crossing(1, 1_000, 9, 0)]);
    graph.ingest_tile(1, 2, 14, &layers, &layers, &OneWay).expect("Failed to ingest tile");
    let along = graph
        .search_djikstra_inner(WayId::from_id(1), 0, WayId::from_id(9), 0)
        .expect("Couldn't find a route.");
    assert_eq!(along.len(), 2);
    assert_eq!(along[1].previous, along[0].idx);
    assert_eq!(along[1].via, SearchNode::new(WayId::from_id(1), 1_000));
    assert_eq!(along[1].node, SearchNode::new(WayId::from_id(9), 0));
    assert_eq!(along[1].cost, cost(1_000, 1_000, 1_000));
    assert_eq!(graph.search_djikstra_inner(WayId::from_id(1), 2_000, WayId::from_id(9), 0), None);
    assert!(graph.search_djikstra(WayId::from_id(1), 2_000, WayId::from_id(9), 0).is_none());
}

#[test]
fn a_dearer_arrival_is_not_taken_up() {
    let mut graph = Graph::new();
    let layers = tile(
        vec![road(1, "residential"), road(2, "residential"), road(9, "residential")],
        vec![
            crossing(1, 1_000, 9, 0),
            crossing(1, 1_000, 2, 0),
            crossing(2, 4_000, 9, 0),
            crossing(9, 0, 9, 500),
        ],
    );
    graph.ingest_tile(1, 2, 14, &layers, &layers, &OneWay).expect("Failed to ingest tile");
    let states = graph
        .search_djikstra_inner(WayId::from_id(1), 0, WayId::from_id(9), 500)
        .expect("Couldn't find a route.");
    assert_eq!(states.len(), 3);
    assert_eq!(states[1].node, SearchNode::new(WayId::from_id(9), 0));
    assert_eq!(states[1].cost, cost(1_000, 1_000, 1_000));
    assert_eq!(states[2].via, SearchNode::new(WayId::from_id(9), 0));
    assert_eq!(states[2].cost, cost(1_000, 1_000, 1_000));
}

#[test]
fn route_states_stand_in_the_order_of_the_log() {
    let mut graph = Graph::new();
    let mut layers = three_paths();
    layers[2].features.remove(4);
    layers[2].features.remove(3);
    graph.ingest_tile(1, 2, 14, &layers, &layers, &walking()).expect("Failed to ingest tile");
    let states = graph
        .search_djikstra_inner(WayId::from_id(1), 2_000, WayId::from_id(9), 0)
        .expect("Couldn't find a route.");
    assert_eq!(states[0].idx, 0);
    assert_eq!(states[0].previous, 0);
    for pair in states.windows(2) {
        assert!(pair[0].idx < pair[1].idx);
        assert_eq!(pair[1].previous, pair[0].idx);
        assert_eq!(pair[1].via.way, pair[0].node.way);
    }
}

#[test]
fn entered_ways_have_polylines_beside_a_way_without_one() {
    let mut graph = Graph::new();
    let mut roads = vec![road(1, "footway"), road(2, "footway"), road(5, "footway")];
    roads[2].geometry = FeatureGeometry::MultiLineString(vec![vec![(1, 2)], vec![(3, 4)]]);
    let layers = tile(roads, vec![crossing(1, 0, 2, 0), crossing(2, 700, 1, 300)]);
    graph.ingest_tile(1, 2, 14, &layers, &layers, &walking()).expect("Failed to ingest tile");
    let more = tile(vec![road(3, "footway"), road(4, "footway")], vec![crossing(3, 0, 4, 0)]);
    graph.ingest_tile(1, 3, 14, &more, &more, &walking()).expect("Failed to ingest tile");
    assert_eq!(graph.get_polyline(&WayId::from_id(5)), None);
    let stops = [
        SearchNode::new(WayId::from_id(1), 0),
        SearchNode::new(WayId::from_id(2), 700),
        SearchNode::new(WayId::from_id(3), 0),
    ];
    let mut seen = 0;
    for stop in stops {
        for (_, transition) in graph.transitions_from(stop) {
            assert!(graph.way_coster(transition.to_way_id()).is_some());
            assert!(graph.get_polyline(&transition.to_way_id()).is_some());
            seen += 1;
        }
    }
    assert!(seen >= 3);
}
