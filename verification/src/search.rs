//! What a search looks for: the two questions that a walk over the pool asks
//! of each block it comes to.

use crate::block::Block;
use vstd::prelude::*;

verus! {

/// A search strategy.
///
/// A walk moves along a level for as long as `refine` says no, and steps down
/// a level where it says yes. On the lowest level it takes the first block that
/// `is_match` accepts.
///
/// A strategy is meant to refine monotonically: once it has said yes to a
/// block, it says yes to every block further up in address order. A walk is
/// defined without that too, but lands where the predecessors are only with
/// it.
pub trait Search {
    /// Whether a walk has gone far enough on its level when `block` is next.
    spec fn spec_refine(&self, block: Block) -> bool;

    /// Whether `block` is what the search is for.
    spec fn spec_is_match(&self, block: Block) -> bool;

    /// Computes `spec_refine`.
    fn refine(&self, block: &Block) -> (r: bool)
        ensures
            r == self.spec_refine(*block),
    ;

    /// Computes `spec_is_match`.
    fn is_match(&self, block: &Block) -> (r: bool)
        ensures
            r == self.spec_is_match(*block),
    ;
}

/// The search for the block at one exact address.
#[derive(Clone, Copy, Debug)]
pub struct BlockSearcher {
    /// The block whose address is looked for.
    pub needle: Block,
}

impl Search for BlockSearcher {
    open spec fn spec_refine(&self, block: Block) -> bool {
        block.spec_addr() >= self.needle.spec_addr()
    }

    open spec fn spec_is_match(&self, block: Block) -> bool {
        block.spec_addr() == self.needle.spec_addr()
    }

    fn refine(&self, block: &Block) -> (r: bool) {
        block.addr() >= self.needle.addr()
    }

    fn is_match(&self, block: &Block) -> (r: bool) {
        block.addr() == self.needle.addr()
    }
}

} // verus!
