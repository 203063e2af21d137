//! The costing model for travel on foot.
//!
//! Footways and steps are travelled without penalty. On other ways a
//! separate sidewalk, the want of any sidewalk and the rank of the road each
//! add to the penalties. Transitions cost nothing.

use crate::costing::base::WayCost;
use crate::costing::units::{ElapsedTime, PartsPerMillion, TravelSpeed};
use crate::costing::{
    asked, entered_ways, is_token_of, CostView, CostingModel, RoutingCost, Tags,
    TransitionCostResult, TransitionToCost, TransitionToCostView, WayCoster,
};
use crate::graph::WayTransition;
use vstd::prelude::*;

verus! {

/// The way has `token` among the tokens of its tag `key`.
pub open spec fn has_tag(tags: Map<Seq<char>, Seq<char>>, key: Seq<char>, token: Seq<char>) -> bool {
    tags.dom().contains(key) && is_token_of(token, tags[key])
}

/// A footway or steps.
pub open spec fn is_footpath(tags: Map<Seq<char>, Seq<char>>) -> bool {
    has_tag(tags, "highway"@, "footway"@) || has_tag(tags, "highway"@, "steps"@)
}

/// A way with a sidewalk on it.
pub open spec fn has_sidewalk(tags: Map<Seq<char>, Seq<char>>) -> bool {
    has_tag(tags, "sidewalk"@, "both"@) || has_tag(tags, "sidewalk"@, "left"@) || has_tag(
        tags,
        "sidewalk"@,
        "right"@,
    ) || has_tag(tags, "sidewalk"@, "yes"@)
}

/// A way whose sidewalk is mapped as a way of its own.
pub open spec fn sidewalk_is_separate(tags: Map<Seq<char>, Seq<char>>) -> bool {
    has_tag(tags, "sidewalk"@, "separate"@) || has_tag(tags, "sidewalk:left"@, "separate"@)
        || has_tag(tags, "sidewalk:right"@, "separate"@)
}

/// A primary or secondary road.
pub open spec fn is_arterial(tags: Map<Seq<char>, Seq<char>>) -> bool {
    has_tag(tags, "highway"@, "secondary"@) || has_tag(tags, "highway"@, "primary"@)
}

/// A motorway or trunk road, or a link of one.
pub open spec fn is_highway(tags: Map<Seq<char>, Seq<char>>) -> bool {
    has_tag(tags, "highway"@, "motorway"@) || has_tag(tags, "highway"@, "trunk"@) || has_tag(
        tags,
        "highway"@,
        "motorway_link"@,
    ) || has_tag(tags, "highway"@, "trunk_link"@)
}

/// The share of the travel time charged on a way on foot, in millionths:
/// nothing on a footpath; else 200 000 for a separate sidewalk, 2 000 000
/// for a highway without a sidewalk or 100 000 for another way without one,
/// and 50 000 for an arterial road.
pub open spec fn pedestrian_penalty_ppm(tags: Map<Seq<char>, Seq<char>>) -> int {
    if is_footpath(tags) {
        0
    } else {
        (if sidewalk_is_separate(tags) {
            200_000int
        } else {
            0
        }) + (if has_sidewalk(tags) {
            0int
        } else if is_highway(tags) {
            2_000_000
        } else {
            100_000
        }) + (if is_arterial(tags) {
            50_000int
        } else {
            0
        })
    }
}

/// The penalty charged once on a way on foot, in milliseconds: nothing on a
/// footpath; else 30 000 for a separate sidewalk, and 120 000 for a highway
/// without a sidewalk or 10 000 for another way without one.
pub open spec fn pedestrian_flat_penalty_ms(tags: Map<Seq<char>, Seq<char>>) -> int {
    if is_footpath(tags) {
        0
    } else {
        (if sidewalk_is_separate(tags) {
            30_000int
        } else {
            0
        }) + (if has_sidewalk(tags) {
            0int
        } else if is_highway(tags) {
            120_000
        } else {
            10_000
        })
    }
}

/// The cost of a way on foot, at the walking speed `speed`.
pub fn pedestrian_way_cost(speed: TravelSpeed, tags: &Tags) -> (cost: WayCost)
    ensures
        cost.speed == speed,
        cost.penalty_ppm.0 == pedestrian_penalty_ppm(tags@),
        cost.flat_penalty.0 == pedestrian_flat_penalty_ms(tags@),
{
    let mut cost = WayCost::from_speed(speed);
    let footpaths = vec!["footway", "steps"];
    let sidewalks = vec!["both", "left", "right", "yes"];
    let arterials = vec!["secondary", "primary"];
    let highways = vec!["motorway", "trunk", "motorway_link", "trunk_link"];
    let footpath = tags.tag_in("highway", footpaths.as_slice());
    let sidewalk = tags.tag_in("sidewalk", sidewalks.as_slice());
    let separate = tags.tag_is("sidewalk", "separate") || tags.tag_is("sidewalk:left", "separate")
        || tags.tag_is("sidewalk:right", "separate");
    let arterial = tags.tag_in("highway", arterials.as_slice());
    let highway = tags.tag_in("highway", highways.as_slice());
    proof {
        assert(footpath == is_footpath(tags@)) by {
            assert(footpaths@[0]@ == "footway"@);
            assert(footpaths@[1]@ == "steps"@);
        }
        assert(sidewalk == has_sidewalk(tags@)) by {
            assert(sidewalks@[0]@ == "both"@);
            assert(sidewalks@[1]@ == "left"@);
            assert(sidewalks@[2]@ == "right"@);
            assert(sidewalks@[3]@ == "yes"@);
        }
        assert(arterial == is_arterial(tags@)) by {
            assert(arterials@[0]@ == "secondary"@);
            assert(arterials@[1]@ == "primary"@);
        }
        assert(highway == is_highway(tags@)) by {
            assert(highways@[0]@ == "motorway"@);
            assert(highways@[1]@ == "trunk"@);
            assert(highways@[2]@ == "motorway_link"@);
            assert(highways@[3]@ == "trunk_link"@);
        }
    }
    if footpath {
        return cost;
    }
    if separate {
        cost.add_flat_penalty(ElapsedTime::from_millis(30_000));
        cost.add_penalty_ppm(PartsPerMillion::of(200_000));
    }
    if !sidewalk {
        if highway {
            cost.add_flat_penalty(ElapsedTime::from_millis(120_000));
            cost.add_penalty_ppm(PartsPerMillion::of(2_000_000));
        } else {
            cost.add_flat_penalty(ElapsedTime::from_millis(10_000));
            cost.add_penalty_ppm(PartsPerMillion::of(100_000));
        }
    }
    if arterial {
        cost.add_penalty_ppm(PartsPerMillion::of(50_000));
    }
    cost
}

/// The cost of the transitions at a stop on foot: each costs nothing, and so
/// does passing through.
pub fn pedestrian_intersection_cost(transitions_to_cost: &[TransitionToCost]) -> (result:
    TransitionCostResult)
    ensures
        forall|way: u64|
            result.costs().dom().contains(way) <==> exists|i: int|
                0 <= i < transitions_to_cost@.len() && (
                #[trigger] transitions_to_cost@[i]).way_transition.to_way_id.0 == way,
        forall|way: u64| #[trigger]
            result.costs().dom().contains(way) ==> result.costs()[way] == RoutingCost::nothing(),
        result.continue_cost == Some(RoutingCost::nothing()),
{
    let mut transitions: Vec<WayTransition> = Vec::new();
    let mut i: usize = 0;
    while i < transitions_to_cost.len()
        invariant
            i <= transitions_to_cost@.len(),
            transitions@.len() == i,
            forall|j: int|
                0 <= j < i ==> transitions@[j] == (#[trigger] transitions_to_cost@[j]).way_transition,
        decreases transitions_to_cost.len() - i,
    {
        transitions.push(transitions_to_cost[i].way_transition);
        i += 1;
    }
    let result = TransitionCostResult::zero(transitions.as_slice());
    proof {
        assert forall|way: u64| result.costs().dom().contains(way) implies exists|i: int|
            0 <= i < transitions_to_cost@.len() && (
            #[trigger] transitions_to_cost@[i]).way_transition.to_way_id.0 == way by {
            assert(entered_ways(transitions@, transitions@.len() as int).contains(way));
            let j = choose|j: int|
                0 <= j < transitions@.len() && (#[trigger] transitions@[j]).to_way_id.0 == way;
            assert(transitions_to_cost@[j].way_transition.to_way_id.0 == way);
        }
        assert forall|way: u64|
            (exists|i: int|
                0 <= i < transitions_to_cost@.len() && (
                #[trigger] transitions_to_cost@[i]).way_transition.to_way_id.0
                    == way) implies result.costs().dom().contains(way) by {
            let j = choose|j: int|
                0 <= j < transitions_to_cost@.len() && (
                #[trigger] transitions_to_cost@[j]).way_transition.to_way_id.0 == way;
            assert(transitions@[j].to_way_id.0 == way);
            assert(entered_ways(transitions@, transitions@.len() as int).contains(way));
        }
    }
    result
}

/// The coster of a way on foot, at the walking speed `speed`: the same
/// speed and penalty in both directions.
pub open spec fn pedestrian_coster(speed: TravelSpeed, tags: Map<Seq<char>, Seq<char>>) -> WayCoster {
    WayCoster {
        speed_forward: Some(speed),
        speed_reverse: Some(speed),
        penalty_ppm_forward: Some(PartsPerMillion(pedestrian_penalty_ppm(tags) as u32)),
        penalty_ppm_reverse: Some(PartsPerMillion(pedestrian_penalty_ppm(tags) as u32)),
    }
}

/// The costing model for travel on foot at one walking speed.
#[derive(Debug, Clone, Copy)]
pub struct PedestrianCostingModel {
    pub speed: TravelSpeed,
}

impl CostingModel for PedestrianCostingModel {
    /// Each way that a transition enters may be entered at no cost, and so
    /// may the stop be passed.
    open spec fn may_cost_intersection(
        &self,
        current_way_tags: Map<Seq<char>, Seq<char>>,
        transitions: Seq<TransitionToCostView>,
        result: CostView,
    ) -> bool {
        &&& forall|way: u64|
            result.0.dom().contains(way) <==> exists|i: int|
                0 <= i < transitions.len() && (#[trigger] transitions[i]).way_transition.to_way_id.0
                    == way
        &&& forall|way: u64| #[trigger]
            result.0.dom().contains(way) ==> result.0[way] == RoutingCost::nothing()
        &&& result.1 == Some(RoutingCost::nothing())
    }

    /// The coster of the way on foot.
    open spec fn may_cost_way(&self, tags: Map<Seq<char>, Seq<char>>, coster: WayCoster) -> bool {
        coster == pedestrian_coster(self.speed, tags)
    }

    fn cost_intersection(
        &self,
        current_way_tags: &Tags,
        transitions_to_cost: &[TransitionToCost],
    ) -> (result: TransitionCostResult) {
        let result = pedestrian_intersection_cost(transitions_to_cost);
        proof {
            let list = asked(transitions_to_cost@);
            assert forall|way: u64| result@.0.dom().contains(way) implies exists|i: int|
                0 <= i < list.len() && (#[trigger] list[i]).way_transition.to_way_id.0 == way by {
                assert(result.costs().dom().contains(way));
                let i = choose|i: int|
                    0 <= i < transitions_to_cost@.len() && (
                    #[trigger] transitions_to_cost@[i]).way_transition.to_way_id.0 == way;
                assert(list[i].way_transition.to_way_id.0 == way);
            }
            assert forall|way: u64|
                (exists|i: int|
                    0 <= i < list.len() && (#[trigger] list[i]).way_transition.to_way_id.0
                        == way) implies result@.0.dom().contains(way) by {
                let i = choose|i: int|
                    0 <= i < list.len() && (#[trigger] list[i]).way_transition.to_way_id.0 == way;
                assert(transitions_to_cost@[i].way_transition.to_way_id.0 == way);
                assert(result.costs().dom().contains(way));
            }
            assert forall|way: u64| #[trigger] result@.0.dom().contains(way) implies result@.0[way]
                == RoutingCost::nothing() by {
                assert(result.costs().dom().contains(way));
            }
        }
        result
    }

    fn cost_way(&self, tags: &Tags) -> (coster: WayCoster) {
        let forward = pedestrian_way_cost(self.speed, tags);
        let reverse = pedestrian_way_cost(self.speed, tags);
        WayCoster {
            speed_forward: Some(forward.speed),
            speed_reverse: Some(reverse.speed),
            penalty_ppm_forward: Some(forward.penalty_ppm),
            penalty_ppm_reverse: Some(reverse.penalty_ppm),
        }
    }
}

/// The costing model for travel on foot at the speed `pedestrian_speed`,
/// the same in both directions of every way.
pub fn pedestrian_costing_model(pedestrian_speed: TravelSpeed) -> (model: PedestrianCostingModel)
    ensures
        model.speed == pedestrian_speed,
{
    PedestrianCostingModel { speed: pedestrian_speed }
}

} // verus!
