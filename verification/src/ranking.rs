use vstd::prelude::*;
use core::cmp::Ordering;
use vstd::std_specs::cmp::{PartialEqSpecImpl, PartialOrdSpecImpl};
use crate::line::Line;

verus! {

/// Lines are ranked by their score alone: two lines with the same score
/// are equal, whatever their pixels, and the one with the higher score is
/// the greater.
impl PartialEq for Line {
    fn eq(&self, other: &Line) -> (equal: bool) {
        self.sum == other.sum
    }
}

impl PartialEqSpecImpl for Line {
    open spec fn obeys_eq_spec() -> bool {
        true
    }

    open spec fn eq_spec(&self, other: &Line) -> bool {
        self.sum == other.sum
    }
}

impl Eq for Line {

}

impl PartialOrd for Line {
    fn partial_cmp(&self, other: &Line) -> (order: Option<Ordering>) {
        if self.sum < other.sum {
            Some(Ordering::Less)
        } else if self.sum == other.sum {
            Some(Ordering::Equal)
        } else {
            Some(Ordering::Greater)
        }
    }
}

impl PartialOrdSpecImpl for Line {
    open spec fn obeys_partial_cmp_spec() -> bool {
        true
    }

    open spec fn partial_cmp_spec(&self, other: &Line) -> Option<Ordering> {
        if self.sum < other.sum {
            Some(Ordering::Less)
        } else if self.sum == other.sum {
            Some(Ordering::Equal)
        } else {
            Some(Ordering::Greater)
        }
    }
}

} // verus!
