//! The entries of the search frontier, ordered so that the cheapest entry is
//! the greatest.

use std::cmp::Ordering;
use vstd::prelude::*;
use vstd::std_specs::cmp::{PartialEqSpecImpl, PartialOrdSpecImpl};

verus! {

/// A grid cell waiting in the frontier, with the cost at which it was reached.
#[derive(Clone, Copy, Debug)]
pub struct HeapState {
    pub cost: usize,
    pub position: (usize, usize),
}

impl HeapState {
    /// An entry for `position`, reached at `cost`.
    pub fn new(cost: usize, position: (usize, usize)) -> (r: HeapState)
        ensures
            r.cost == cost,
            r.position == position,
    {
        Self { cost, position }
    }
}

/// Two entries are equal when their costs are, wherever they lie.
impl PartialEq for HeapState {
    fn eq(&self, other: &Self) -> (r: bool) {
        self.cost == other.cost
    }
}

impl PartialEqSpecImpl for HeapState {
    open spec fn obeys_eq_spec() -> bool {
        true
    }

    open spec fn eq_spec(&self, other: &Self) -> bool {
        self.cost == other.cost
    }
}

impl Eq for HeapState {

}

/// The order on costs, reversed: the greatest entry is the cheapest one.
impl PartialOrd for HeapState {
    fn partial_cmp(&self, other: &Self) -> (r: Option<Ordering>) {
        if other.cost < self.cost {
            Some(Ordering::Less)
        } else if other.cost == self.cost {
            Some(Ordering::Equal)
        } else {
            Some(Ordering::Greater)
        }
    }
}

impl PartialOrdSpecImpl for HeapState {
    open spec fn obeys_partial_cmp_spec() -> bool {
        true
    }

    open spec fn partial_cmp_spec(&self, other: &Self) -> Option<Ordering> {
        if other.cost < self.cost {
            Some(Ordering::Less)
        } else if other.cost == self.cost {
            Some(Ordering::Equal)
        } else {
            Some(Ordering::Greater)
        }
    }
}

} // verus!
