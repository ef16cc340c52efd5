//! The index order as the comparison of composite keys: `a < b` says that
//! `a` comes before `b` when an index is walked.

use crate::ident::{precedes, MappingIdentifier};
use std::cmp::Ordering;
use vstd::prelude::*;
use vstd::std_specs::cmp::PartialOrdSpecImpl;

verus! {

impl PartialOrd for MappingIdentifier {
    fn partial_cmp(&self, other: &Self) -> (r: Option<Ordering>) {
        if self.precedes(other) {
            Some(Ordering::Less)
        } else if other.precedes(self) {
            Some(Ordering::Greater)
        } else {
            Some(Ordering::Equal)
        }
    }
}

impl PartialOrdSpecImpl for MappingIdentifier {
    open spec fn obeys_partial_cmp_spec() -> bool {
        true
    }

    open spec fn partial_cmp_spec(&self, other: &Self) -> Option<Ordering> {
        if precedes(self@, other@) {
            Some(Ordering::Less)
        } else if precedes(other@, self@) {
            Some(Ordering::Greater)
        } else {
            Some(Ordering::Equal)
        }
    }
}

} // verus!
