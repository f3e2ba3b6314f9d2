//! The order of blocks: by base address, and by length where the bases agree.

use crate::block::Block;
use std::cmp::Ordering;
use vstd::prelude::*;
use vstd::std_specs::cmp::PartialOrdSpecImpl;

verus! {

impl PartialOrd for Block {
    fn partial_cmp(&self, other: &Block) -> (r: Option<Ordering>) {
        if self.addr() < other.addr() {
            Some(Ordering::Less)
        } else if self.addr() > other.addr() {
            Some(Ordering::Greater)
        } else if self.size() < other.size() {
            Some(Ordering::Less)
        } else if self.size() > other.size() {
            Some(Ordering::Greater)
        } else {
            Some(Ordering::Equal)
        }
    }
}

impl PartialOrdSpecImpl for Block {
    open spec fn obeys_partial_cmp_spec() -> bool {
        true
    }

    open spec fn partial_cmp_spec(&self, other: &Block) -> Option<Ordering> {
        if self.spec_addr() < other.spec_addr() {
            Some(Ordering::Less)
        } else if self.spec_addr() > other.spec_addr() {
            Some(Ordering::Greater)
        } else if self.spec_size() < other.spec_size() {
            Some(Ordering::Less)
        } else if self.spec_size() > other.spec_size() {
            Some(Ordering::Greater)
        } else {
            Some(Ordering::Equal)
        }
    }
}

} // verus!
