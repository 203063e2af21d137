//! The order of routing costs, as the comparison operators see it.

use crate::costing::RoutingCost;
use std::cmp::Ordering;
use vstd::prelude::*;
use vstd::std_specs::cmp::PartialOrdSpecImpl;

verus! {

impl PartialOrd for RoutingCost {
    fn partial_cmp(&self, other: &RoutingCost) -> (order: Option<Ordering>) {
        if self.is_below(other) {
            Some(Ordering::Less)
        } else if other.is_below(self) {
            Some(Ordering::Greater)
        } else {
            Some(Ordering::Equal)
        }
    }
}

impl PartialOrdSpecImpl for RoutingCost {
    open spec fn obeys_partial_cmp_spec() -> bool {
        true
    }

    open spec fn partial_cmp_spec(&self, other: &RoutingCost) -> Option<Ordering> {
        if self.below(*other) {
            Some(Ordering::Less)
        } else if other.below(*self) {
            Some(Ordering::Greater)
        } else {
            Some(Ordering::Equal)
        }
    }
}

} // verus!
