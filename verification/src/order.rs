//! The order of literals: by the index of the variable, whatever the
//! polarity.

use core::cmp::Ordering;
use crate::lit::Lit;
use vstd::prelude::*;
use vstd::std_specs::cmp::PartialOrdSpecImpl;

verus! {

impl PartialOrd for Lit {
    fn partial_cmp(&self, other: &Lit) -> (r: Option<Ordering>) {
        if self.var.num < other.var.num {
            Some(Ordering::Less)
        } else if self.var.num > other.var.num {
            Some(Ordering::Greater)
        } else {
            Some(Ordering::Equal)
        }
    }
}

impl PartialOrdSpecImpl for Lit {
    open spec fn obeys_partial_cmp_spec() -> bool {
        true
    }

    open spec fn partial_cmp_spec(&self, other: &Lit) -> Option<Ordering> {
        if self.var.num < other.var.num {
            Some(Ordering::Less)
        } else if self.var.num > other.var.num {
            Some(Ordering::Greater)
        } else {
            Some(Ordering::Equal)
        }
    }
}

} // verus!
