use std::cmp::Ordering;
use vstd::prelude::*;

use super::non_zero::NonZeroIndex;
use vstd::std_specs::cmp::{PartialEqSpecImpl, PartialOrdSpecImpl};

verus! {

/// A result tagged with the position of the task that produced it.
///
/// Two tagged results compare by position alone, and in reverse: the one with
/// the lower position is the greater, so that the lowest position comes first
/// out of a max-ordered collection.
pub struct OrderedResult<T> {
    pub result: T,
    pub indx: NonZeroIndex,
}

impl<T> PartialEq for OrderedResult<T> {
    fn eq(&self, other: &Self) -> (r: bool) {
        other.indx.same(self.indx)
    }
}

impl<T> PartialEqSpecImpl for OrderedResult<T> {
    open spec fn obeys_eq_spec() -> bool {
        true
    }

    open spec fn eq_spec(&self, other: &Self) -> bool {
        other.indx.index() == self.indx.index()
    }
}

impl<T> Eq for OrderedResult<T> {

}

impl<T> PartialOrd for OrderedResult<T> {
    fn partial_cmp(&self, other: &Self) -> (r: Option<Ordering>) {
        other.indx.get().partial_cmp(&self.indx.get())
    }
}

impl<T> PartialOrdSpecImpl for OrderedResult<T> {
    open spec fn obeys_partial_cmp_spec() -> bool {
        true
    }

    open spec fn partial_cmp_spec(&self, other: &Self) -> Option<Ordering> {
        if other.indx.index() < self.indx.index() {
            Some(Ordering::Less)
        } else if other.indx.index() > self.indx.index() {
            Some(Ordering::Greater)
        } else {
            Some(Ordering::Equal)
        }
    }
}

} // verus!
