//! A costing model made of two functions: one that costs a way in one
//! direction, and one that costs the transitions at a stop.

use crate::costing::units::{
    saturating_sum, saturating_sum_u32, Direction, ElapsedTime, PartsPerMillion, TravelSpeed,
};
use crate::costing::{
    asked, CostView, CostingModel, Tags, TransitionCostResult, TransitionToCost,
    TransitionToCostView, WayCoster,
};
use vstd::prelude::*;

verus! {

/// The cost of a way in one direction: the speed of travel, a penalty as a
/// share of the travel time, and a penalty that does not depend on it.
#[derive(Debug, Clone, Copy)]
pub struct WayCost {
    pub speed: TravelSpeed,
    pub penalty_ppm: PartsPerMillion,
    pub flat_penalty: ElapsedTime,
}

impl WayCost {
    /// Travel at `speed` without penalties.
    pub fn from_speed(speed: TravelSpeed) -> (cost: WayCost)
        ensures
            cost.speed == speed,
            cost.penalty_ppm.0 == 0,
            cost.flat_penalty.0 == 0,
    {
        WayCost { speed, penalty_ppm: PartsPerMillion::of(0), flat_penalty: ElapsedTime::zero() }
    }

    /// Lowers the speed to `speed` where it is higher.
    pub fn limit_speed(&mut self, speed: TravelSpeed)
        ensures
            final(self).speed.um_per_ms == if old(self).speed.um_per_ms <= speed.um_per_ms {
                old(self).speed.um_per_ms
            } else {
                speed.um_per_ms
            },
            final(self).penalty_ppm == old(self).penalty_ppm,
            final(self).flat_penalty == old(self).flat_penalty,
    {
        self.speed = TravelSpeed::min(&self.speed, &speed);
    }

    /// Adds `penalty` to the share of the travel time that is charged on
    /// top of it.
    pub fn add_penalty_ppm(&mut self, penalty: PartsPerMillion)
        ensures
            final(self).penalty_ppm.0 == saturating_sum_u32(old(self).penalty_ppm.0, penalty.0),
            final(self).speed == old(self).speed,
            final(self).flat_penalty == old(self).flat_penalty,
    {
        self.penalty_ppm = self.penalty_ppm + penalty;
    }

    /// Adds `flat_penalty` to the penalty that does not depend on the
    /// travel time.
    pub fn add_flat_penalty(&mut self, flat_penalty: ElapsedTime)
        ensures
            final(self).flat_penalty.0 == saturating_sum(old(self).flat_penalty.0, flat_penalty.0),
            final(self).speed == old(self).speed,
            final(self).penalty_ppm == old(self).penalty_ppm,
    {
        self.flat_penalty = self.flat_penalty + flat_penalty;
    }
}

/// The coster of a way from its costs in the two directions: a direction
/// without a cost cannot be travelled.
pub open spec fn coster_of(forward: Option<WayCost>, reverse: Option<WayCost>) -> WayCoster {
    WayCoster {
        speed_forward: match forward {
            Some(cost) => Some(cost.speed),
            None => None,
        },
        speed_reverse: match reverse {
            Some(cost) => Some(cost.speed),
            None => None,
        },
        penalty_ppm_forward: match forward {
            Some(cost) => Some(cost.penalty_ppm),
            None => None,
        },
        penalty_ppm_reverse: match reverse {
            Some(cost) => Some(cost.penalty_ppm),
            None => None,
        },
    }
}

/// A costing model made of two functions. Both answer every question.
pub struct BaseCostingModel<
    CostWayFn: Fn(Direction, &Tags) -> Option<WayCost>,
    IntersectionFn: Fn(&Tags, &[TransitionToCost]) -> TransitionCostResult,
> {
    speed_fn: CostWayFn,
    intersection_fn: IntersectionFn,
}

impl<
    CostWayFn: Fn(Direction, &Tags) -> Option<WayCost>,
    IntersectionFn: Fn(&Tags, &[TransitionToCost]) -> TransitionCostResult,
> BaseCostingModel<CostWayFn, IntersectionFn> {
    #[verifier::type_invariant]
    spec fn answers_all(&self) -> bool {
        &&& forall|direction: Direction, tags: &Tags|
            call_requires(self.speed_fn, (direction, tags))
        &&& forall|tags: &Tags, transitions: &[TransitionToCost]|
            call_requires(self.intersection_fn, (tags, transitions))
    }

    /// The function that costs a way in one direction.
    pub closed spec fn way_function(&self) -> CostWayFn {
        self.speed_fn
    }

    /// The function that costs the transitions at a stop.
    pub closed spec fn intersection_function(&self) -> IntersectionFn {
        self.intersection_fn
    }

    /// The model that costs a way by `speed_fn`, once for each direction,
    /// and the transitions at a stop by `intersection_fn`.
    pub fn new(speed_fn: CostWayFn, intersection_fn: IntersectionFn) -> (model: BaseCostingModel<
        CostWayFn,
        IntersectionFn,
    >)
        requires
            forall|direction: Direction, tags: &Tags| call_requires(speed_fn, (direction, tags)),
            forall|tags: &Tags, transitions: &[TransitionToCost]|
                call_requires(intersection_fn, (tags, transitions)),
        ensures
            model.way_function() == speed_fn,
            model.intersection_function() == intersection_fn,
    {
        BaseCostingModel { speed_fn, intersection_fn }
    }
}

impl<
    CostWayFn: Fn(Direction, &Tags) -> Option<WayCost>,
    IntersectionFn: Fn(&Tags, &[TransitionToCost]) -> TransitionCostResult,
> CostingModel for BaseCostingModel<CostWayFn, IntersectionFn> {
    /// An answer of the function that costs the transitions at a stop.
    open spec fn may_cost_intersection(
        &self,
        current_way_tags: Map<Seq<char>, Seq<char>>,
        transitions: Seq<TransitionToCostView>,
        result: CostView,
    ) -> bool {
        exists|tags: &Tags, list: &[TransitionToCost], answer: TransitionCostResult|
            {
                &&& #[trigger] call_ensures(self.intersection_function(), (tags, list), answer)
                &&& tags@ == current_way_tags
                &&& asked(list@) == transitions
                &&& answer@ == result
            }
    }

    /// The coster made of an answer of the function that costs a way for
    /// each direction.
    open spec fn may_cost_way(&self, tags: Map<Seq<char>, Seq<char>>, coster: WayCoster) -> bool {
        exists|way_tags: &Tags, forward: Option<WayCost>, reverse: Option<WayCost>|
            {
                &&& #[trigger] call_ensures(
                    self.way_function(),
                    (Direction::Forward, way_tags),
                    forward,
                )
                &&& #[trigger] call_ensures(
                    self.way_function(),
                    (Direction::Reverse, way_tags),
                    reverse,
                )
                &&& way_tags@ == tags
                &&& coster == coster_of(forward, reverse)
            }
    }

    fn cost_intersection(
        &self,
        current_way_tags: &Tags,
        transitions_to_cost: &[TransitionToCost],
    ) -> (result: TransitionCostResult) {
        proof {
            use_type_invariant(self);
        }
        let result = (self.intersection_fn)(current_way_tags, transitions_to_cost);
        proof {
            assert(call_ensures(
                self.intersection_function(),
                (current_way_tags, transitions_to_cost),
                result,
            ));
        }
        result
    }

    fn cost_way(&self, tags: &Tags) -> (coster: WayCoster) {
        proof {
            use_type_invariant(self);
        }
        let way_cost_forward = (self.speed_fn)(Direction::Forward, tags);
        let way_cost_reverse = (self.speed_fn)(Direction::Reverse, tags);
        let coster = WayCoster {
            speed_forward: match way_cost_forward {
                Some(cost) => Some(cost.speed),
                None => None,
            },
            speed_reverse: match way_cost_reverse {
                Some(cost) => Some(cost.speed),
                None => None,
            },
            penalty_ppm_forward: match way_cost_forward {
                Some(cost) => Some(cost.penalty_ppm),
                None => None,
            },
            penalty_ppm_reverse: match way_cost_reverse {
                Some(cost) => Some(cost.penalty_ppm),
                None => None,
            },
        };
        proof {
            assert(coster == coster_of(way_cost_forward, way_cost_reverse));
            assert(call_ensures(self.way_function(), (Direction::Forward, tags), way_cost_forward));
            assert(call_ensures(self.way_function(), (Direction::Reverse, tags), way_cost_reverse));
        }
        coster
    }
}

} // verus!
