//! Scored candidates.

use crate::binary32::is_nan;
use crate::binary32::nan;
use crate::binary32::ordinal;
use crate::binary32::rank;
use std::cmp::Ordering;
use vstd::prelude::*;
use vstd::std_specs::cmp::PartialEqSpec;
use vstd::std_specs::cmp::PartialEqSpecImpl;
use vstd::std_specs::cmp::PartialOrdSpecImpl;

verus! {

/// A candidate with its score: the key of an item and the item's distance
/// from the query point, as a binary32 bit pattern.
///
/// Two nodes are the same candidate when their keys are equal, whatever
/// their distances; a node stands before another when it is nearer, whatever
/// their keys. A node whose distance is a NaN is level with every node.
#[derive(Clone, Copy, Debug)]
pub struct DistanceNode<K> {
    pub key: K,
    pub distance: u32,
}

impl<K: PartialEq> PartialEq for DistanceNode<K> {
    fn eq(&self, other: &Self) -> (r: bool) {
        self.key == other.key
    }
}

impl<K: PartialEq> PartialEqSpecImpl for DistanceNode<K> {
    open spec fn obeys_eq_spec() -> bool {
        K::obeys_eq_spec()
    }

    open spec fn eq_spec(&self, other: &Self) -> bool {
        self.key.eq_spec(&other.key)
    }
}

impl<K: Eq> Eq for DistanceNode<K> {

}

/// How one distance stands to another: as the numbers do, and level where
/// either is a NaN.
pub open spec fn order(own: u32, its: u32) -> Ordering {
    if nan(own) || nan(its) {
        Ordering::Equal
    } else if ordinal(own) < ordinal(its) {
        Ordering::Less
    } else if ordinal(own) > ordinal(its) {
        Ordering::Greater
    } else {
        Ordering::Equal
    }
}

/// How one distance stands to another.
pub fn compare(own: u32, its: u32) -> (r: Ordering)
    ensures
        r == order(own, its),
{
    if is_nan(own) || is_nan(its) {
        Ordering::Equal
    } else if rank(own) < rank(its) {
        Ordering::Less
    } else if rank(own) > rank(its) {
        Ordering::Greater
    } else {
        Ordering::Equal
    }
}

impl<K: PartialEq> PartialOrd for DistanceNode<K> {
    fn partial_cmp(&self, other: &Self) -> (r: Option<Ordering>) {
        Some(compare(self.distance, other.distance))
    }
}

impl<K: PartialEq> PartialOrdSpecImpl for DistanceNode<K> {
    open spec fn obeys_partial_cmp_spec() -> bool {
        true
    }

    open spec fn partial_cmp_spec(&self, other: &Self) -> Option<Ordering> {
        Some(order(self.distance, other.distance))
    }
}

} // verus!
