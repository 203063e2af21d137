//! Costs of routes, and the costing model that assigns speeds to ways and
//! penalties to the transitions between them.

pub mod base;
pub mod order;
pub mod pedestrian;
pub mod units;

use crate::costing::units::{
    penalty_time, saturating_sum, travel_time, Direction, ElapsedTime, PartsPerMillion,
    TravelSpeed, TravelledDistance,
};
use crate::graph::{WayId, WayTransition};
use crate::text::to_chars;
use std::collections::HashMap;
use std::ops::Add;
use vstd::prelude::*;
use vstd::std_specs::hash::group_hash_axioms;
use vstd::std_specs::ops::AddSpecImpl;

verus! {

/// The cost of a route or of a part of one: the time that the router
/// compares (travel time and penalties), the travel time alone, and the
/// distance.
#[derive(Debug, Clone, Copy, PartialEq, Eq, Hash, Structural)]
pub struct RoutingCost {
    pub cost_millis: ElapsedTime,
    pub actual_millis: ElapsedTime,
    pub distance_mm: TravelledDistance,
}

impl Add for RoutingCost {
    type Output = RoutingCost;

    fn add(self, rhs: RoutingCost) -> (sum: RoutingCost) {
        RoutingCost {
            cost_millis: self.cost_millis + rhs.cost_millis,
            actual_millis: self.actual_millis + rhs.actual_millis,
            distance_mm: self.distance_mm + rhs.distance_mm,
        }
    }
}

impl AddSpecImpl for RoutingCost {
    open spec fn obeys_add_spec() -> bool {
        true
    }

    open spec fn add_req(self, rhs: RoutingCost) -> bool {
        true
    }

    open spec fn add_spec(self, rhs: RoutingCost) -> RoutingCost {
        self.plus(rhs)
    }
}

impl RoutingCost {
    /// The sum of two costs, part by part, each part held at `u64::MAX`
    /// when it would exceed it.
    pub open spec fn plus(self, rhs: RoutingCost) -> RoutingCost {
        RoutingCost {
            cost_millis: ElapsedTime(saturating_sum(self.cost_millis.0, rhs.cost_millis.0)),
            actual_millis: ElapsedTime(saturating_sum(self.actual_millis.0, rhs.actual_millis.0)),
            distance_mm: TravelledDistance(saturating_sum(self.distance_mm.0, rhs.distance_mm.0)),
        }
    }

    /// The cost of going nowhere.
    pub open spec fn nothing() -> RoutingCost {
        RoutingCost {
            cost_millis: ElapsedTime(0),
            actual_millis: ElapsedTime(0),
            distance_mm: TravelledDistance(0),
        }
    }

    /// The cost of a penalty alone: compared time without travel.
    pub open spec fn penalty(penalty_millis: ElapsedTime) -> RoutingCost {
        RoutingCost {
            cost_millis: penalty_millis,
            actual_millis: ElapsedTime(0),
            distance_mm: TravelledDistance(0),
        }
    }

    pub fn zero() -> (cost: RoutingCost)
        ensures
            cost == RoutingCost::nothing(),
    {
        RoutingCost {
            cost_millis: ElapsedTime::zero(),
            actual_millis: ElapsedTime::zero(),
            distance_mm: TravelledDistance::zero(),
        }
    }

    pub fn elapsed_equivalent(&self) -> (time: ElapsedTime)
        ensures
            time == self.cost_millis,
    {
        self.cost_millis
    }

    pub fn elapsed_actual(&self) -> (time: ElapsedTime)
        ensures
            time == self.actual_millis,
    {
        self.actual_millis
    }

    pub fn distance(&self) -> (distance: TravelledDistance)
        ensures
            distance == self.distance_mm,
    {
        self.distance_mm
    }

    /// This cost with `penalty_millis` more of compared time.
    pub fn with_penalty(&self, penalty_millis: ElapsedTime) -> (cost: RoutingCost)
        ensures
            cost.cost_millis.0 == saturating_sum(self.cost_millis.0, penalty_millis.0),
            cost.actual_millis == self.actual_millis,
            cost.distance_mm == self.distance_mm,
    {
        RoutingCost {
            cost_millis: self.cost_millis + penalty_millis,
            actual_millis: self.actual_millis,
            distance_mm: self.distance_mm,
        }
    }

    /// This cost with `actual_millis` more of travel and `distance_mm` more
    /// of distance.
    pub fn with_additional(&self, actual_millis: ElapsedTime, distance_mm: TravelledDistance) -> (cost:
        RoutingCost)
        ensures
            cost.cost_millis.0 == saturating_sum(self.cost_millis.0, actual_millis.0),
            cost.actual_millis.0 == saturating_sum(self.actual_millis.0, actual_millis.0),
            cost.distance_mm.0 == saturating_sum(self.distance_mm.0, distance_mm.0),
    {
        RoutingCost {
            cost_millis: self.cost_millis + actual_millis,
            actual_millis: self.actual_millis + actual_millis,
            distance_mm: self.distance_mm + distance_mm,
        }
    }

    /// The order of costs: by compared time, then by travel time, then by
    /// distance.
    pub open spec fn below(self, other: RoutingCost) -> bool {
        self.cost_millis.0 < other.cost_millis.0 || (self.cost_millis.0 == other.cost_millis.0 && (
        self.actual_millis.0 < other.actual_millis.0 || (self.actual_millis.0
            == other.actual_millis.0 && self.distance_mm.0 < other.distance_mm.0)))
    }

    pub open spec fn not_above(self, other: RoutingCost) -> bool {
        self.below(other) || self == other
    }

    pub fn is_below(&self, other: &RoutingCost) -> (below: bool)
        ensures
            below == self.below(*other),
    {
        self.cost_millis.0 < other.cost_millis.0 || (self.cost_millis.0 == other.cost_millis.0 && (
        self.actual_millis.0 < other.actual_millis.0 || (self.actual_millis.0
            == other.actual_millis.0 && self.distance_mm.0 < other.distance_mm.0)))
    }
}

/// A sum of costs is not below either of them.
pub proof fn lemma_sum_not_below_parts(a: RoutingCost, b: RoutingCost)
    ensures
        a.not_above(a.plus(b)),
        b.not_above(a.plus(b)),
{
}

/// The map that a list of key and value pairs stands for: a later pair
/// replaces an earlier one with the same key.
pub open spec fn tag_map(pairs: Seq<(String, String)>) -> Map<Seq<char>, Seq<char>>
    decreases pairs.len(),
{
    if pairs.len() == 0 {
        Map::empty()
    } else {
        tag_map(pairs.drop_last()).insert(pairs.last().0@, pairs.last().1@)
    }
}

/// `token` stands in `value` from `start` on, with a `;` or an end of
/// `value` on either side.
pub open spec fn token_at(token: Seq<char>, value: Seq<char>, start: int) -> bool {
    &&& 0 <= start
    &&& start + token.len() <= value.len()
    &&& value.subrange(start, start + token.len()) == token
    &&& (start == 0 || value[start - 1] == ';')
    &&& (start + token.len() == value.len() || value[start + token.len()] == ';')
}

/// `token` is one of the parts into which the `;` signs divide `value`.
pub open spec fn is_token_of(token: Seq<char>, value: Seq<char>) -> bool {
    !token.contains(';') && exists|start: int| token_at(token, value, start)
}

/// Whether `token` is one of the parts into which the `;` signs divide
/// `value`.
pub fn has_token(value: &Vec<char>, token: &Vec<char>) -> (found: bool)
    ensures
        found == is_token_of(token@, value@),
{
    let mut start: usize = 0;
    loop
        invariant
            start <= value.len(),
            start == 0 || value@[start - 1] == ';',
            forall|s: int| 0 <= s < start ==> !(token_at(token@, value@, s) && !token@.contains(';')),
        decreases value.len() - start,
    {
        let mut end: usize = start;
        while end < value.len() && value[end] != ';'
            invariant
                start <= end <= value.len(),
                forall|i: int| start <= i < end ==> value@[i] != ';',
            decreases value.len() - end,
        {
            end += 1;
        }
        if end - start == token.len() {
            let mut i: usize = 0;
            let mut same = true;
            while i < token.len()
                invariant_except_break
                    same,
                    forall|j: int| 0 <= j < i ==> value@[start + j] == token@[j],
                invariant
                    i <= token.len(),
                    start + token.len() == end,
                    end <= value.len(),
                ensures
                    same ==> i == token.len() && forall|j: int|
                        0 <= j < i ==> value@[start + j] == token@[j],
                    !same ==> i < token.len() && value@[start + i] != token@[i as int],
                decreases token.len() - i,
            {
                if value[start + i] != token[i] {
                    same = false;
                    break ;
                }
                i += 1;
            }
            if same {
                proof {
                    assert(value@.subrange(start as int, start + token@.len()) =~= token@);
                    assert(!token@.contains(';')) by {
                        if token@.contains(';') {
                            let j = choose|j: int| 0 <= j < token@.len() && token@[j] == ';';
                            assert(value@[start + j] == ';');
                        }
                    }
                    assert(token_at(token@, value@, start as int));
                }
                return true;
            } else {
                proof {
                    if token_at(token@, value@, start as int) {
                        assert(value@.subrange(start as int, start + token@.len())[i as int]
                            == token@[i as int]);
                    }
                }
            }
        } else {
            proof {
                if token_at(token@, value@, start as int) && !token@.contains(';') {
                    if start + token@.len() < end {
                        assert(value@[start + token@.len()] == ';');
                    } else {
                        assert(value@[end as int] == ';');
                        assert(value@.subrange(start as int, start + token@.len())[end - start]
                            == token@[end - start]);
                        assert(token@.contains(token@[end - start]));
                    }
                }
            }
        }
        proof {
            assert forall|s: int| start < s <= end implies !token_at(token@, value@, s) by {
                assert(value@[s - 1] != ';');
            }
        }
        if end == value.len() {
            proof {
                assert forall|s: int| !(token_at(token@, value@, s) && !token@.contains(';')) by {
                    if token_at(token@, value@, s) {
                        assert(s <= end);
                    }
                }
            }
            return false;
        }
        start = end + 1;
    }
}

/// No two pairs have the same key.
pub open spec fn distinct_keys(pairs: Seq<(String, String)>) -> bool {
    forall|i: int, j: int|
        0 <= i < j < pairs.len() ==> (#[trigger] pairs[i]).0@ != (#[trigger] pairs[j]).0@
}

/// Replacing the value of a pair replaces the value of its key.
proof fn lemma_value_replaced(
    pairs: Seq<(String, String)>,
    place: int,
    key: String,
    value: String,
)
    requires
        distinct_keys(pairs),
        0 <= place < pairs.len(),
        pairs[place].0@ == key@,
    ensures
        tag_map(pairs.update(place, (key, value))) == tag_map(pairs).insert(key@, value@),
        distinct_keys(pairs.update(place, (key, value))),
    decreases pairs.len(),
{
    let updated = pairs.update(place, (key, value));
    if place == pairs.len() - 1 {
        assert(updated.drop_last() =~= pairs.drop_last());
        assert(tag_map(updated) =~= tag_map(pairs).insert(key@, value@));
    } else {
        assert(distinct_keys(pairs.drop_last()));
        lemma_value_replaced(pairs.drop_last(), place, key, value);
        assert(updated.drop_last() =~= pairs.drop_last().update(place, (key, value)));
        assert(pairs[place].0@ != pairs[pairs.len() - 1].0@);
        assert(tag_map(updated) =~= tag_map(pairs).insert(key@, value@));
    }
}

/// The tags of a way or of an intersection: a map from key to value, both
/// strings. A value may hold several tokens, divided by `;`.
#[derive(Debug)]
pub struct Tags {
    entries: Vec<(String, String)>,
}

impl View for Tags {
    type V = Map<Seq<char>, Seq<char>>;

    closed spec fn view(&self) -> Map<Seq<char>, Seq<char>> {
        tag_map(self.entries@)
    }
}

impl Clone for Tags {
    fn clone(&self) -> (copy: Tags)
        ensures
            copy@ == self@,
    {
        proof {
            use_type_invariant(self);
        }
        let entries = copy_pairs(&self.entries);
        Tags { entries }
    }
}

/// A copy of the pairs.
fn copy_pairs(pairs: &Vec<(String, String)>) -> (copy: Vec<(String, String)>)
    ensures
        copy@ == pairs@,
{
    let mut copy: Vec<(String, String)> = Vec::new();
    let mut i: usize = 0;
    while i < pairs.len()
        invariant
            i <= pairs.len(),
            copy@ == pairs@.take(i as int),
        decreases pairs.len() - i,
    {
        let key = pairs[i].0.clone();
        let value = pairs[i].1.clone();
        proof {
            assert(pairs@.take(i + 1) =~= pairs@.take(i as int).push(pairs@[i as int]));
        }
        copy.push((key, value));
        i += 1;
    }
    proof {
        assert(pairs@.take(i as int) =~= pairs@);
    }
    copy
}

impl Tags {
    #[verifier::type_invariant]
    spec fn one_value_for_each_key(&self) -> bool {
        distinct_keys(self.entries@)
    }

    /// The tags that the pairs of key and value stand for; a later pair
    /// replaces an earlier one with the same key.
    pub fn from_hashmap(map: Vec<(String, String)>) -> (tags: Tags)
        ensures
            tags@ == tag_map(map@),
    {
        let mut entries: Vec<(String, String)> = Vec::new();
        let mut i: usize = 0;
        proof {
            assert(map@.take(0) =~= Seq::empty());
        }
        while i < map.len()
            invariant
                i <= map@.len(),
                distinct_keys(entries@),
                tag_map(entries@) == tag_map(map@.take(i as int)),
            decreases map@.len() - i,
        {
            let key = map[i].0.clone();
            let value = map[i].1.clone();
            proof {
                assert(map@.take(i + 1).drop_last() =~= map@.take(i as int));
                assert(map@.take(i + 1).last() == map@[i as int]);
            }
            let mut place: usize = 0;
            let mut found = false;
            while place < entries.len()
                invariant_except_break
                    !found,
                    forall|j: int| 0 <= j < place ==> (#[trigger] entries@[j]).0@ != key@,
                invariant
                    place <= entries@.len(),
                ensures
                    found ==> place < entries@.len() && entries@[place as int].0@ == key@,
                    !found ==> forall|j: int|
                        0 <= j < entries@.len() ==> (#[trigger] entries@[j]).0@ != key@,
                decreases entries@.len() - place,
            {
                if entries[place].0 == key {
                    found = true;
                    break ;
                }
                place += 1;
            }
            let ghost before = entries@;
            if found {
                proof {
                    lemma_value_replaced(before, place as int, key, value);
                }
                entries.set(place, (key, value));
                proof {
                    assert(entries@ =~= before.update(place as int, (key, value)));
                }
            } else {
                entries.push((key, value));
                proof {
                    assert(entries@.drop_last() =~= before);
                    assert(entries@.last() == (key, value));
                }
            }
            proof {
                assert(key@ == map@[i as int].0@);
                assert(value@ == map@[i as int].1@);
                assert(tag_map(entries@) == tag_map(before).insert(key@, value@));
                assert(tag_map(map@.take(i + 1)) == tag_map(map@.take(i as int)).insert(
                    key@,
                    value@,
                ));
            }
            i += 1;
        }
        proof {
            assert(map@.take(i as int) =~= map@);
        }
        Tags { entries }
    }

    /// The pairs of key and value of these tags, each key once.
    pub fn to_hashmap(&self) -> (map: Vec<(String, String)>)
        ensures
            tag_map(map@) == self@,
            distinct_keys(map@),
    {
        proof {
            use_type_invariant(self);
        }
        copy_pairs(&self.entries)
    }

    /// The value stored under `key`.
    pub fn get(&self, key: &str) -> (value: Option<&String>)
        ensures
            match value {
                Some(found) => self@.dom().contains(key@) && self@[key@] == found@,
                None => !self@.dom().contains(key@),
            },
    {
        let wanted = key.to_owned();
        let mut i: usize = self.entries.len();
        proof {
            assert(self.entries@.take(i as int) =~= self.entries@);
        }
        while i > 0
            invariant
                i <= self.entries.len(),
                wanted@ == key@,
                self@.dom().contains(key@) == tag_map(self.entries@.take(i as int)).dom().contains(
                    key@,
                ),
                self@.dom().contains(key@) ==> self@[key@] == tag_map(
                    self.entries@.take(i as int),
                )[key@],
            decreases i,
        {
            i -= 1;
            proof {
                assert(self.entries@.take(i + 1).drop_last() =~= self.entries@.take(i as int));
            }
            if self.entries[i].0 == wanted {
                return Some(&self.entries[i].1);
            }
        }
        None
    }

    /// Whether a token of the value stored under `key` is one of `options`.
    pub fn tag_in(&self, key: &str, options: &[&str]) -> (found: bool)
        ensures
            found == (self@.dom().contains(key@) && exists|i: int|
                0 <= i < options@.len() && is_token_of((#[trigger] options@[i])@, self@[key@])),
    {
        match self.get(key) {
            None => false,
            Some(value) => {
                let value_chars = to_chars(value.as_str());
                let mut i: usize = 0;
                while i < options.len()
                    invariant
                        i <= options@.len(),
                        self@.dom().contains(key@),
                        value_chars@ == self@[key@],
                        forall|j: int|
                            0 <= j < i ==> !is_token_of((#[trigger] options@[j])@, self@[key@]),
                    decreases options.len() - i,
                {
                    let option_chars = to_chars(options[i]);
                    if has_token(&value_chars, &option_chars) {
                        assert(is_token_of(options@[i as int]@, self@[key@]));
                        return true;
                    }
                    i += 1;
                }
                false
            },
        }
    }

    /// Whether `val` is a token of the value stored under `key`.
    pub fn tag_is(&self, key: &str, val: &str) -> (found: bool)
        ensures
            found == (self@.dom().contains(key@) && is_token_of(val@, self@[key@])),
    {
        match self.get(key) {
            None => false,
            Some(value) => {
                let value_chars = to_chars(value.as_str());
                let val_chars = to_chars(val);
                has_token(&value_chars, &val_chars)
            },
        }
    }
}

/// A transition that the costing model is asked to cost, with the tags of
/// the way it leaves, of the way it enters and of the intersection.
#[derive(Debug)]
pub struct TransitionToCost<'a> {
    pub way_transition: WayTransition,
    pub from_way_tags: &'a Tags,
    pub to_way_tags: &'a Tags,
    pub intersection_tags: &'a Tags,
}

/// A transition that the costing model is asked to cost, by value.
pub struct TransitionToCostView {
    pub way_transition: WayTransition,
    pub from_way_tags: Map<Seq<char>, Seq<char>>,
    pub to_way_tags: Map<Seq<char>, Seq<char>>,
    pub intersection_tags: Map<Seq<char>, Seq<char>>,
}

impl<'a> View for TransitionToCost<'a> {
    type V = TransitionToCostView;

    open spec fn view(&self) -> TransitionToCostView {
        TransitionToCostView {
            way_transition: self.way_transition,
            from_way_tags: self.from_way_tags@,
            to_way_tags: self.to_way_tags@,
            intersection_tags: self.intersection_tags@,
        }
    }
}

/// The transitions that the costing model is asked to cost, by value.
pub open spec fn asked(transitions: Seq<TransitionToCost>) -> Seq<TransitionToCostView> {
    Seq::new(transitions.len(), |i: int| transitions[i]@)
}

/// What a costing model says of the transitions at one stop, by value: the
/// costs by way id, and the cost of passing through.
pub type CostView = (Map<u64, RoutingCost>, Option<RoutingCost>);

impl<'a> TransitionToCost<'a> {
    pub fn from_way_id(&'a self) -> (way: WayId)
        ensures
            way == self.way_transition.from_way_id,
    {
        self.way_transition.from_way_id()
    }

    pub fn to_way_id(&'a self) -> (way: WayId)
        ensures
            way == self.way_transition.to_way_id,
    {
        self.way_transition.to_way_id()
    }

    pub fn from_way_tags(&'a self) -> (tags: Tags)
        ensures
            tags@ == self.from_way_tags@,
    {
        self.from_way_tags.clone()
    }

    pub fn to_way_tags(&'a self) -> (tags: Tags)
        ensures
            tags@ == self.to_way_tags@,
    {
        self.to_way_tags.clone()
    }

    pub fn intersection_tags(&'a self) -> (tags: Tags)
        ensures
            tags@ == self.intersection_tags@,
    {
        self.intersection_tags.clone()
    }
}

/// What the costing model says of the transitions at one stop: a cost for
/// each way that may be entered there, by way id, and the cost of passing
/// through without leaving the way, where that is allowed. A way without a
/// cost may not be entered.
#[derive(Debug)]
pub struct TransitionCostResult {
    pub transition_costs: HashMap<u64, RoutingCost>,
    pub continue_cost: Option<RoutingCost>,
}

/// The ways that the transitions up to `upto` enter.
pub open spec fn entered_ways(transitions: Seq<WayTransition>, upto: int) -> Set<u64> {
    Set::new(|way: u64| exists|i: int| 0 <= i < upto && (#[trigger] transitions[i]).to_way_id.0 == way)
}

/// The costs that a list of way id and penalty pairs stands for; a later
/// pair replaces an earlier one for the same way.
pub open spec fn penalty_map(penalties: Seq<(WayId, ElapsedTime)>) -> Map<u64, RoutingCost>
    decreases penalties.len(),
{
    if penalties.len() == 0 {
        Map::empty()
    } else {
        penalty_map(penalties.drop_last()).insert(
            penalties.last().0.0,
            RoutingCost::penalty(penalties.last().1),
        )
    }
}

impl View for TransitionCostResult {
    type V = CostView;

    open spec fn view(&self) -> CostView {
        (self.transition_costs@, self.continue_cost)
    }
}

impl TransitionCostResult {
    /// The cost of entering each way, by way id.
    pub open spec fn costs(&self) -> Map<u64, RoutingCost> {
        self.transition_costs@
    }

    /// No way may be entered, and the stop may not be passed.
    pub fn impassable() -> (result: TransitionCostResult)
        ensures
            result.costs() == Map::<u64, RoutingCost>::empty(),
            result.continue_cost is None,
    {
        TransitionCostResult { transition_costs: HashMap::new(), continue_cost: None }
    }

    /// Each listed way may be entered at the cost of its penalty, and the
    /// stop may be passed at the cost of `continuation_penalty`, where one
    /// is given.
    pub fn from_transitions_and_costs_millis(
        transitions: &Vec<(WayId, ElapsedTime)>,
        continuation_penalty: Option<ElapsedTime>,
    ) -> (result: TransitionCostResult)
        ensures
            result.costs() == penalty_map(transitions@),
            result.continue_cost == match continuation_penalty {
                Some(penalty) => Some(RoutingCost::penalty(penalty)),
                None => None,
            },
    {
        broadcast use group_hash_axioms;

        let mut transition_costs: HashMap<u64, RoutingCost> = HashMap::new();
        let mut i: usize = 0;
        while i < transitions.len()
            invariant
                i <= transitions.len(),
                transition_costs@ == penalty_map(transitions@.take(i as int)),
            decreases transitions.len() - i,
        {
            let (way, penalty) = transitions[i];
            proof {
                assert(transitions@.take(i + 1).drop_last() =~= transitions@.take(i as int));
            }
            transition_costs.insert(way.0, RoutingCost::zero().with_penalty(penalty));
            i += 1;
        }
        proof {
            assert(transitions@.take(i as int) =~= transitions@);
        }
        let continue_cost = match continuation_penalty {
            Some(penalty) => Some(RoutingCost::zero().with_penalty(penalty)),
            None => None,
        };
        TransitionCostResult { transition_costs, continue_cost }
    }

    /// Every transition, and passing through, is free.
    pub fn zero(transitions: &[WayTransition]) -> (result: TransitionCostResult)
        ensures
            result.costs().dom() == entered_ways(transitions@, transitions@.len() as int),
            forall|way: u64| #[trigger]
                result.costs().dom().contains(way) ==> result.costs()[way] == RoutingCost::nothing(),
            result.continue_cost == Some(RoutingCost::nothing()),
    {
        broadcast use group_hash_axioms;

        let mut transition_costs: HashMap<u64, RoutingCost> = HashMap::new();
        let mut i: usize = 0;
        while i < transitions.len()
            invariant
                i <= transitions@.len(),
                transition_costs@.dom() =~= entered_ways(transitions@, i as int),
                forall|way: u64| #[trigger]
                    transition_costs@.dom().contains(way) ==> transition_costs@[way]
                        == RoutingCost::nothing(),
            decreases transitions.len() - i,
        {
            let way = transitions[i].to_way_id();
            transition_costs.insert(way.0, RoutingCost::zero());
            proof {
                assert(transitions@[i as int].to_way_id.0 == way.0);
                assert(transition_costs@.dom() =~= entered_ways(transitions@, i + 1));
            }
            i += 1;
        }
        TransitionCostResult { transition_costs, continue_cost: Some(RoutingCost::zero()) }
    }
}

/// The speeds and the penalty factors of a way, each in both directions. A
/// direction without a speed cannot be travelled.
#[derive(Debug, Clone, Copy, PartialEq, Eq, PartialOrd, Ord, Hash)]
pub struct WayCoster {
    pub speed_forward: Option<TravelSpeed>,
    pub speed_reverse: Option<TravelSpeed>,
    pub penalty_ppm_forward: Option<PartsPerMillion>,
    pub penalty_ppm_reverse: Option<PartsPerMillion>,
}

/// A way coster as the way map holds it.
pub type CosterRow = (Option<u32>, Option<u32>, Option<u32>, Option<u32>);

impl WayCoster {
    /// The coster of a way that cannot be travelled.
    pub fn impassable() -> (coster: WayCoster)
        ensures
            coster == (WayCoster {
                speed_forward: None,
                speed_reverse: None,
                penalty_ppm_forward: None,
                penalty_ppm_reverse: None,
            }),
    {
        WayCoster {
            speed_forward: None,
            speed_reverse: None,
            penalty_ppm_forward: None,
            penalty_ppm_reverse: None,
        }
    }

    pub fn from_speeds(
        speed_forward: Option<TravelSpeed>,
        speed_reverse: Option<TravelSpeed>,
        penalty_ppm_forward: Option<PartsPerMillion>,
        penalty_ppm_reverse: Option<PartsPerMillion>,
    ) -> (coster: WayCoster)
        ensures
            coster == (WayCoster {
                speed_forward,
                speed_reverse,
                penalty_ppm_forward,
                penalty_ppm_reverse,
            }),
    {
        WayCoster { speed_forward, speed_reverse, penalty_ppm_forward, penalty_ppm_reverse }
    }

    /// The speed at which the way is travelled in `direction`.
    pub open spec fn speed(self, direction: Direction) -> Option<TravelSpeed> {
        match direction {
            Direction::Forward => self.speed_forward,
            Direction::Reverse => self.speed_reverse,
        }
    }

    /// The penalty factor of the way in `direction`: zero where none is set.
    pub open spec fn penalty(self, direction: Direction) -> PartsPerMillion {
        match direction {
            Direction::Forward => match self.penalty_ppm_forward {
                Some(factor) => factor,
                None => PartsPerMillion(0),
            },
            Direction::Reverse => match self.penalty_ppm_reverse {
                Some(factor) => factor,
                None => PartsPerMillion(0),
            },
        }
    }

    /// The time that `distance` along the way takes in `direction`: `None`
    /// where the way cannot be travelled in that direction, its speed is
    /// zero or the distance is too long for the arithmetic.
    pub open spec fn time_for(self, distance: TravelledDistance, direction: Direction) -> Option<
        ElapsedTime,
    > {
        match self.speed(direction) {
            Some(speed) => travel_time(distance, speed),
            None => None,
        }
    }

    /// The cost of `distance` along the way in `direction`: the travel time,
    /// the same with the penalty share added, and the distance.
    pub open spec fn segment_cost(self, distance: TravelledDistance, direction: Direction) -> Option<
        RoutingCost,
    > {
        match self.time_for(distance, direction) {
            Some(time) => Some(
                RoutingCost {
                    cost_millis: ElapsedTime(
                        saturating_sum(time.0, penalty_time(time, self.penalty(direction)).0),
                    ),
                    actual_millis: time,
                    distance_mm: distance,
                },
            ),
            None => None,
        }
    }

    pub fn estimate_time_ms(&self, distance: TravelledDistance, direction: Direction) -> (time:
        Option<ElapsedTime>)
        ensures
            time == self.time_for(distance, direction),
    {
        match self.estimate_speed(direction) {
            Some(speed) => distance / speed,
            None => None,
        }
    }

    pub fn estimate_speed(&self, direction: Direction) -> (speed: Option<TravelSpeed>)
        ensures
            speed == self.speed(direction),
    {
        match direction {
            Direction::Forward => self.speed_forward,
            Direction::Reverse => self.speed_reverse,
        }
    }

    pub fn cost_way_segment(&self, distance: TravelledDistance, direction: Direction) -> (cost:
        Option<RoutingCost>)
        ensures
            cost == self.segment_cost(distance, direction),
    {
        let penalty_ppm = match direction {
            Direction::Forward => match self.penalty_ppm_forward {
                Some(factor) => factor,
                None => PartsPerMillion::default(),
            },
            Direction::Reverse => match self.penalty_ppm_reverse {
                Some(factor) => factor,
                None => PartsPerMillion::default(),
            },
        };
        match self.estimate_time_ms(distance, direction) {
            Some(travel_time_ms) => Some(
                RoutingCost {
                    cost_millis: travel_time_ms + travel_time_ms * penalty_ppm,
                    actual_millis: travel_time_ms,
                    distance_mm: distance,
                },
            ),
            None => None,
        }
    }

    pub open spec fn row(self) -> CosterRow {
        (
            match self.speed_forward {
                Some(speed) => Some(speed.um_per_ms),
                None => None,
            },
            match self.speed_reverse {
                Some(speed) => Some(speed.um_per_ms),
                None => None,
            },
            match self.penalty_ppm_forward {
                Some(factor) => Some(factor.0),
                None => None,
            },
            match self.penalty_ppm_reverse {
                Some(factor) => Some(factor.0),
                None => None,
            },
        )
    }

    pub open spec fn of_row(row: CosterRow) -> WayCoster {
        WayCoster {
            speed_forward: match row.0 {
                Some(um_per_ms) => Some(TravelSpeed { um_per_ms }),
                None => None,
            },
            speed_reverse: match row.1 {
                Some(um_per_ms) => Some(TravelSpeed { um_per_ms }),
                None => None,
            },
            penalty_ppm_forward: match row.2 {
                Some(ppm) => Some(PartsPerMillion(ppm)),
                None => None,
            },
            penalty_ppm_reverse: match row.3 {
                Some(ppm) => Some(PartsPerMillion(ppm)),
                None => None,
            },
        }
    }

    pub fn to_row(&self) -> (row: CosterRow)
        ensures
            row == self.row(),
            WayCoster::of_row(row) == *self,
    {
        (
            match self.speed_forward {
                Some(speed) => Some(speed.um_per_ms),
                None => None,
            },
            match self.speed_reverse {
                Some(speed) => Some(speed.um_per_ms),
                None => None,
            },
            match self.penalty_ppm_forward {
                Some(factor) => Some(factor.0),
                None => None,
            },
            match self.penalty_ppm_reverse {
                Some(factor) => Some(factor.0),
                None => None,
            },
        )
    }

    pub fn from_row(row: CosterRow) -> (coster: WayCoster)
        ensures
            coster == WayCoster::of_row(row),
            coster.row() == row,
    {
        WayCoster {
            speed_forward: match row.0 {
                Some(um_per_ms) => Some(TravelSpeed { um_per_ms }),
                None => None,
            },
            speed_reverse: match row.1 {
                Some(um_per_ms) => Some(TravelSpeed { um_per_ms }),
                None => None,
            },
            penalty_ppm_forward: match row.2 {
                Some(ppm) => Some(PartsPerMillion(ppm)),
                None => None,
            },
            penalty_ppm_reverse: match row.3 {
                Some(ppm) => Some(PartsPerMillion(ppm)),
                None => None,
            },
        }
    }
}

/// What the router asks of a costing model: the speeds of a way, and the
/// costs of the transitions that leave one stop. A model may say which
/// answers it gives; one that does not may give any. It need not give the
/// same answer twice.
pub trait CostingModel {
    /// `result` is an answer that the model may give when asked for the
    /// costs of `transitions` at a stop on a way with the tags
    /// `current_way_tags`.
    open spec fn may_cost_intersection(
        &self,
        current_way_tags: Map<Seq<char>, Seq<char>>,
        transitions: Seq<TransitionToCostView>,
        result: CostView,
    ) -> bool {
        true
    }

    /// `coster` is an answer that the model may give when asked for the
    /// coster of a way with `tags`.
    open spec fn may_cost_way(&self, tags: Map<Seq<char>, Seq<char>>, coster: WayCoster) -> bool {
        true
    }

    /// The costs of the transitions that leave one stop on the way with
    /// `current_way_tags`.
    fn cost_intersection(
        &self,
        current_way_tags: &Tags,
        transitions_to_cost: &[TransitionToCost],
    ) -> (result: TransitionCostResult)
        ensures
            self.may_cost_intersection(current_way_tags@, asked(transitions_to_cost@), result@),
    ;

    /// The speeds and penalty factors of the way with `tags`.
    fn cost_way(&self, tags: &Tags) -> (coster: WayCoster)
        ensures
            self.may_cost_way(tags@, coster),
    ;
}

} // verus!
