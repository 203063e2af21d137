use mvtr::costing::base::{BaseCostingModel, WayCost};
use mvtr::costing::pedestrian::{pedestrian_costing_model, pedestrian_way_cost};
use mvtr::costing::units::{Direction, ElapsedTime, PartsPerMillion, TravelSpeed, TravelledDistance};
use mvtr::costing::{
    has_token, CostingModel, RoutingCost, Tags, TransitionCostResult, TransitionToCost, WayCoster,
};
use mvtr::graph::{WayId, WayTransition};
use std::cmp::Ordering;

fn tags(pairs: &[(&str, &str)]) -> Tags {
    Tags::from_hashmap(pairs.iter().map(|(k, v)| (k.to_string(), v.to_string())).collect())
}

fn cost(cost_ms: u64, actual_ms: u64, mm: u64) -> RoutingCost {
    RoutingCost {
        cost_millis: ElapsedTime::from_millis(cost_ms),
        actual_millis: ElapsedTime::from_millis(actual_ms),
        distance_mm: TravelledDistance::from(mm),
    }
}

#[test]
fn zero_cost_is_zero() {
    assert_eq!(RoutingCost::zero(), cost(0, 0, 0));
    assert_eq!(RoutingCost::zero().elapsed_equivalent().ms(), 0);
    assert_eq!(RoutingCost::zero().elapsed_actual().ms(), 0);
    assert_eq!(RoutingCost::zero().distance().mm(), 0);
}

#[test]
fn penalty_adds_to_compared_time_only() {
    assert_eq!(cost(5, 3, 7).with_penalty(ElapsedTime::from_millis(10)), cost(15, 3, 7));
}

#[test]
fn additional_adds_to_all_three() {
    assert_eq!(
        cost(5, 3, 7).with_additional(ElapsedTime::from_millis(10), TravelledDistance::from(100)),
        cost(15, 13, 107)
    );
}

#[test]
fn costs_add_part_by_part_and_saturate() {
    assert_eq!(cost(1, 2, 3) + cost(10, 20, 30), cost(11, 22, 33));
    assert_eq!(cost(u64::MAX, 2, 3) + cost(1, u64::MAX - 1, 0), cost(u64::MAX, u64::MAX, 3));
}

#[test]
fn costs_compare_by_time_then_travel_then_distance() {
    assert!(cost(1, 9, 9) < cost(2, 0, 0));
    assert!(cost(1, 1, 9) < cost(1, 2, 0));
    assert!(cost(1, 1, 1) < cost(1, 1, 2));
    assert_eq!(cost(1, 1, 1).partial_cmp(&cost(1, 1, 1)), Some(Ordering::Equal));
    assert_eq!(cost(2, 0, 0).partial_cmp(&cost(1, 9, 9)), Some(Ordering::Greater));
    assert!(cost(1, 1, 1).is_below(&cost(1, 1, 2)));
    assert!(!cost(1, 1, 1).is_below(&cost(1, 1, 1)));
}

#[test]
fn a_sum_is_not_below_its_parts() {
    let a = cost(u64::MAX - 1, 5, 0);
    let b = cost(7, 0, 9);
    assert!(a + b >= a);
    assert!(a + b >= b);
}

#[test]
fn segment_cost_follows_the_formula() {
    let coster = WayCoster::from_speeds(
        Some(TravelSpeed::from_um_per_ms(1_400)),
        Some(TravelSpeed::from_um_per_ms(700)),
        Some(PartsPerMillion::of(200_000)),
        None,
    );
    assert_eq!(
        coster.cost_way_segment(TravelledDistance::from(10_000), Direction::Forward),
        Some(cost(7_142 + 1_428, 7_142, 10_000))
    );
    assert_eq!(
        coster.cost_way_segment(TravelledDistance::from(10_000), Direction::Reverse),
        Some(cost(14_285, 14_285, 10_000))
    );
    assert_eq!(coster.estimate_speed(Direction::Reverse), Some(TravelSpeed::from_um_per_ms(700)));
    assert_eq!(
        coster.estimate_time_ms(TravelledDistance::from(700), Direction::Reverse),
        Some(ElapsedTime::from_millis(1_000))
    );
}

#[test]
fn impassable_way_has_no_segment_cost() {
    let coster = WayCoster::impassable();
    assert_eq!(coster.cost_way_segment(TravelledDistance::from(1), Direction::Forward), None);
    assert_eq!(coster.cost_way_segment(TravelledDistance::zero(), Direction::Reverse), None);
    let one_way = WayCoster::from_speeds(Some(TravelSpeed::from_um_per_ms(1)), None, None, None);
    assert!(one_way.cost_way_segment(TravelledDistance::from(1), Direction::Forward).is_some());
    assert_eq!(one_way.cost_way_segment(TravelledDistance::from(1), Direction::Reverse), None);
}

#[test]
fn coster_rows_round_trip() {
    let coster = WayCoster::from_speeds(
        Some(TravelSpeed::from_um_per_ms(3)),
        None,
        None,
        Some(PartsPerMillion::of(4)),
    );
    assert_eq!(coster.to_row(), (Some(3), None, None, Some(4)));
    assert_eq!(WayCoster::from_row(coster.to_row()), coster);
}

#[test]
fn tag_is_matches_any_token() {
    let t = tags(&[("highway", "footway;steps"), ("name", ""), ("surface", "a;;b;")]);
    assert!(t.tag_is("highway", "footway"));
    assert!(t.tag_is("highway", "steps"));
    assert!(!t.tag_is("highway", "foot"));
    assert!(!t.tag_is("highway", "footway;steps"));
    assert!(!t.tag_is("highway", ""));
    assert!(t.tag_is("name", ""));
    assert!(t.tag_is("surface", ""));
    assert!(t.tag_is("surface", "b"));
    assert!(!t.tag_is("missing", ""));
}

#[test]
fn tag_in_matches_any_option() {
    let t = tags(&[("sidewalk", "left;right")]);
    assert!(t.tag_in("sidewalk", &["both", "right"]));
    assert!(!t.tag_in("sidewalk", &["both", "yes"]));
    assert!(!t.tag_in("sidewalk", &[]));
    assert!(!t.tag_in("highway", &["left"]));
}

#[test]
fn later_tag_replaces_earlier() {
    let t = tags(&[("k", "old"), ("k", "new")]);
    assert!(t.tag_is("k", "new"));
    assert!(!t.tag_is("k", "old"));
    assert_eq!(t.get("k").map(|v| v.as_str()), Some("new"));
    assert_eq!(t.get("other"), None);
    assert_eq!(t.to_hashmap(), vec![("k".to_string(), "new".to_string())]);
    let many = tags(&[("a", "1"), ("b", "2"), ("a", "3"), ("c", "4"), ("b", "5")]);
    assert_eq!(
        many.to_hashmap(),
        vec![
            ("a".to_string(), "3".to_string()),
            ("b".to_string(), "5".to_string()),
            ("c".to_string(), "4".to_string()),
        ]
    );
    assert!(t.clone().tag_is("k", "new"));
}

#[test]
fn has_token_scans_between_semicolons() {
    let chars = |s: &str| s.chars().collect::<Vec<char>>();
    assert!(has_token(&chars("a;bc;d"), &chars("bc")));
    assert!(!has_token(&chars("a;bc;d"), &chars("b")));
    assert!(!has_token(&chars("a;bc;d"), &chars("c;d")));
    assert!(has_token(&chars(""), &chars("")));
    assert!(!has_token(&chars("a"), &chars("")));
}

#[test]
fn way_cost_builders() {
    let mut way = WayCost::from_speed(TravelSpeed::from_um_per_ms(2_000));
    way.limit_speed(TravelSpeed::from_um_per_ms(1_500));
    way.limit_speed(TravelSpeed::from_um_per_ms(1_800));
    way.add_penalty_ppm(PartsPerMillion::of(5));
    way.add_penalty_ppm(PartsPerMillion::of(u32::MAX));
    way.add_flat_penalty(ElapsedTime::from_millis(7));
    way.add_flat_penalty(ElapsedTime::from_millis(8));
    assert_eq!(way.speed.um_per_ms(), 1_500);
    assert_eq!(way.penalty_ppm.ppm(), u32::MAX);
    assert_eq!(way.flat_penalty.ms(), 15);
}

#[test]
fn base_model_asks_each_direction() {
    let model = BaseCostingModel::new(
        |direction: Direction, _tags: &Tags| match direction {
            Direction::Forward => Some(WayCost::from_speed(TravelSpeed::from_um_per_ms(9))),
            Direction::Reverse => None,
        },
        |_tags: &Tags, _list: &[TransitionToCost]| TransitionCostResult::impassable(),
    );
    let coster = model.cost_way(&tags(&[]));
    assert_eq!(
        coster,
        WayCoster::from_speeds(
            Some(TravelSpeed::from_um_per_ms(9)),
            None,
            Some(PartsPerMillion::of(0)),
            None
        )
    );
    let result = model.cost_intersection(&tags(&[]), &[]);
    assert!(result.transition_costs.is_empty());
    assert_eq!(result.continue_cost, None);
}

#[test]
fn pedestrian_profile_penalties() {
    let speed = TravelSpeed::from_um_per_ms(1_400);
    let of = |pairs: &[(&str, &str)]| {
        let c = pedestrian_way_cost(speed, &tags(pairs));
        (c.speed.um_per_ms(), c.penalty_ppm.ppm(), c.flat_penalty.ms())
    };
    assert_eq!(of(&[("highway", "footway")]), (1_400, 0, 0));
    assert_eq!(of(&[("highway", "steps"), ("sidewalk", "separate")]), (1_400, 0, 0));
    assert_eq!(of(&[("highway", "residential"), ("sidewalk", "both")]), (1_400, 0, 0));
    assert_eq!(of(&[("highway", "residential")]), (1_400, 100_000, 10_000));
    assert_eq!(of(&[("highway", "trunk_link")]), (1_400, 2_000_000, 120_000));
    assert_eq!(of(&[("highway", "primary"), ("sidewalk", "yes")]), (1_400, 50_000, 0));
    assert_eq!(of(&[("highway", "secondary")]), (1_400, 150_000, 10_000));
    assert_eq!(
        of(&[("highway", "primary"), ("sidewalk:left", "separate")]),
        (1_400, 350_000, 40_000)
    );
    assert_eq!(
        of(&[("highway", "motorway"), ("sidewalk", "separate")]),
        (1_400, 2_200_000, 150_000)
    );
}

#[test]
fn pedestrian_model_costs_ways_and_transitions() {
    let model = pedestrian_costing_model(TravelSpeed::from_um_per_ms(1_400));
    let coster = model.cost_way(&tags(&[("highway", "residential")]));
    assert_eq!(
        coster,
        WayCoster::from_speeds(
            Some(TravelSpeed::from_um_per_ms(1_400)),
            Some(TravelSpeed::from_um_per_ms(1_400)),
            Some(PartsPerMillion::of(100_000)),
            Some(PartsPerMillion::of(100_000)),
        )
    );
    let none = tags(&[]);
    let list = vec![
        TransitionToCost {
            way_transition: WayTransition::new(WayId::from_id(1), 5, WayId::from_id(2), 0),
            from_way_tags: &none,
            to_way_tags: &none,
            intersection_tags: &none,
        },
        TransitionToCost {
            way_transition: WayTransition::new(WayId::from_id(1), 5, WayId::from_id(3), 9),
            from_way_tags: &none,
            to_way_tags: &none,
            intersection_tags: &none,
        },
    ];
    assert_eq!(list[0].from_way_id(), WayId::from_id(1));
    assert_eq!(list[1].to_way_id(), WayId::from_id(3));
    assert!(list[0].from_way_tags().to_hashmap().is_empty());
    assert!(list[0].to_way_tags().to_hashmap().is_empty());
    assert!(list[0].intersection_tags().to_hashmap().is_empty());
    let result = model.cost_intersection(&none, &list);
    assert_eq!(result.transition_costs.len(), 2);
    assert_eq!(result.transition_costs.get(&2), Some(&RoutingCost::zero()));
    assert_eq!(result.transition_costs.get(&3), Some(&RoutingCost::zero()));
    assert_eq!(result.continue_cost, Some(RoutingCost::zero()));
}

#[test]
fn transition_costs_from_penalties() {
    let result = TransitionCostResult::from_transitions_and_costs_millis(
        &vec![
            (WayId::from_id(4), ElapsedTime::from_millis(1_500)),
            (WayId::from_id(5), ElapsedTime::from_millis(0)),
            (WayId::from_id(4), ElapsedTime::from_millis(2_500)),
        ],
        Some(ElapsedTime::from_millis(250)),
    );
    assert_eq!(result.transition_costs.len(), 2);
    assert_eq!(result.transition_costs.get(&4), Some(&cost(2_500, 0, 0)));
    assert_eq!(result.transition_costs.get(&5), Some(&cost(0, 0, 0)));
    assert_eq!(result.continue_cost, Some(cost(250, 0, 0)));
    let zero = TransitionCostResult::zero(&[
        WayTransition::new(WayId::from_id(1), 0, WayId::from_id(8), 0),
        WayTransition::new(WayId::from_id(1), 0, WayId::from_id(8), 3),
    ]);
    assert_eq!(zero.transition_costs.len(), 1);
    assert_eq!(zero.continue_cost, Some(RoutingCost::zero()));
    let none = TransitionCostResult::impassable();
    assert!(none.transition_costs.is_empty());
    assert_eq!(none.continue_cost, None);
}
