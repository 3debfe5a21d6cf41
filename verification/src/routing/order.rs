//! The order of peers in a lookup.

use super::entry::NodeEntry;
use std::cmp::Ordering;
use vstd::prelude::*;

verus! {

/// How two numbers compare.
pub open spec fn order_of(a: nat, b: nat) -> Ordering {
    if a < b {
        Ordering::Less
    } else if a > b {
        Ordering::Greater
    } else {
        Ordering::Equal
    }
}

impl NodeEntry {
    /// Compares the cached distances of two records that were scored for
    /// the same target.
    pub fn compare_distance(&self, other: &NodeEntry) -> (r: Ordering)
        ensures
            r == order_of(self.distance.to_nat(), other.distance.to_nat()),
    {
        if self.distance < other.distance {
            Ordering::Less
        } else if other.distance < self.distance {
            Ordering::Greater
        } else {
            Ordering::Equal
        }
    }

    /// Compares the cached scores of two records that were scored for the
    /// same target: the order in which a lookup returns them.
    pub fn compare_distance_score(&self, other: &NodeEntry) -> (r: Ordering)
        ensures
            r == order_of(self.score.to_nat(), other.score.to_nat()),
    {
        if self.score < other.score {
            Ordering::Less
        } else if other.score < self.score {
            Ordering::Greater
        } else {
            Ordering::Equal
        }
    }
}

} // verus!
