//! The orders of transitions and of search states, as the comparison
//! operators see them.

use crate::graph::search::SearchState;
use crate::graph::WayTransition;
use std::cmp::Ordering;
use vstd::prelude::*;
use vstd::std_specs::cmp::PartialOrdSpecImpl;

verus! {

impl PartialOrd for WayTransition {
    /// By the distance along the way left, then by the way entered, then by
    /// the distance along it.
    fn partial_cmp(&self, other: &WayTransition) -> (order: Option<Ordering>) {
        if self.distance_along_way_mm < other.distance_along_way_mm {
            Some(Ordering::Less)
        } else if self.distance_along_way_mm > other.distance_along_way_mm {
            Some(Ordering::Greater)
        } else if self.to_way_id.0 < other.to_way_id.0 {
            Some(Ordering::Less)
        } else if self.to_way_id.0 > other.to_way_id.0 {
            Some(Ordering::Greater)
        } else if self.transition_to_distance_along_way_mm
            < other.transition_to_distance_along_way_mm {
            Some(Ordering::Less)
        } else if self.transition_to_distance_along_way_mm
            > other.transition_to_distance_along_way_mm {
            Some(Ordering::Greater)
        } else {
            Some(Ordering::Equal)
        }
    }
}

impl PartialOrdSpecImpl for WayTransition {
    open spec fn obeys_partial_cmp_spec() -> bool {
        true
    }

    open spec fn partial_cmp_spec(&self, other: &WayTransition) -> Option<Ordering> {
        if self.distance_along_way_mm < other.distance_along_way_mm {
            Some(Ordering::Less)
        } else if self.distance_along_way_mm > other.distance_along_way_mm {
            Some(Ordering::Greater)
        } else if self.to_way_id.0 < other.to_way_id.0 {
            Some(Ordering::Less)
        } else if self.to_way_id.0 > other.to_way_id.0 {
            Some(Ordering::Greater)
        } else if self.transition_to_distance_along_way_mm
            < other.transition_to_distance_along_way_mm {
            Some(Ordering::Less)
        } else if self.transition_to_distance_along_way_mm
            > other.transition_to_distance_along_way_mm {
            Some(Ordering::Greater)
        } else {
            Some(Ordering::Equal)
        }
    }
}

impl PartialOrd for SearchState {
    /// The cheaper state is the greater; of two that cost the same, the
    /// one whose position comes later.
    fn partial_cmp(&self, other: &SearchState) -> (order: Option<Ordering>) {
        if self.cost.is_below(&other.cost) {
            Some(Ordering::Greater)
        } else if other.cost.is_below(&self.cost) {
            Some(Ordering::Less)
        } else if self.node.is_before(&other.node) {
            Some(Ordering::Less)
        } else if other.node.is_before(&self.node) {
            Some(Ordering::Greater)
        } else {
            Some(Ordering::Equal)
        }
    }
}

impl PartialOrdSpecImpl for SearchState {
    open spec fn obeys_partial_cmp_spec() -> bool {
        true
    }

    open spec fn partial_cmp_spec(&self, other: &SearchState) -> Option<Ordering> {
        if self.cost.below(other.cost) {
            Some(Ordering::Greater)
        } else if other.cost.below(self.cost) {
            Some(Ordering::Less)
        } else if self.node.precedes(other.node) {
            Some(Ordering::Less)
        } else if other.node.precedes(self.node) {
            Some(Ordering::Greater)
        } else {
            Some(Ordering::Equal)
        }
    }
}

} // verus!
