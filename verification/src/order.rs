//! Results are compared by their difference alone: the groups ride along and
//! take no part in equality or order.
use crate::ldm::LdmResult;
use std::cmp::Ordering;
use vstd::prelude::*;
use vstd::std_specs::cmp::{PartialEqSpecImpl, PartialOrdSpecImpl};

verus! {

impl<'a, T: ?Sized> PartialEq for LdmResult<'a, T> {
    fn eq(&self, other: &Self) -> (r: bool) {
        self.diff == other.diff
    }
}

impl<'a, T: ?Sized> PartialEqSpecImpl for LdmResult<'a, T> {
    open spec fn obeys_eq_spec() -> bool {
        true
    }

    open spec fn eq_spec(&self, other: &Self) -> bool {
        self.diff == other.diff
    }
}

impl<'a, T: ?Sized> Eq for LdmResult<'a, T> {

}

impl<'a, T: ?Sized> PartialOrd for LdmResult<'a, T> {
    fn partial_cmp(&self, other: &Self) -> (r: Option<Ordering>) {
        if self.diff < other.diff {
            Some(Ordering::Less)
        } else if self.diff == other.diff {
            Some(Ordering::Equal)
        } else {
            Some(Ordering::Greater)
        }
    }
}

impl<'a, T: ?Sized> PartialOrdSpecImpl for LdmResult<'a, T> {
    open spec fn obeys_partial_cmp_spec() -> bool {
        true
    }

    open spec fn partial_cmp_spec(&self, other: &Self) -> Option<Ordering> {
        if self.diff < other.diff {
            Some(Ordering::Less)
        } else if self.diff == other.diff {
            Some(Ordering::Equal)
        } else {
            Some(Ordering::Greater)
        }
    }
}

} // verus!
