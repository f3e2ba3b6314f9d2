//! The pool as mathematics: the blocks in address order, each with the height
//! of its tower, and where a walk over them lands.
//!
//! Position 0 is the head, which stands before every block and reaches every
//! level. A position equal to the length stands for the end of the list.

use crate::block::Block;
use crate::search::{BlockSearcher, Search};
use vstd::prelude::*;

verus! {

/// The number of levels.
pub const LEVELS: usize = 8;

/// The blocks of a pool in list order, with their heights.
pub struct Chain {
    /// The block at each position. The head's block has no meaning.
    pub blocks: Seq<Block>,
    /// The number of levels that the node at each position is linked on.
    pub heights: Seq<nat>,
}

impl Chain {
    /// The number of positions, the head included.
    pub open spec fn len(self) -> int {
        self.blocks.len() as int
    }

    /// The head comes first and reaches every level; every block is linked on
    /// at least the lowest level; the blocks are valid and stand in strictly
    /// increasing order of address.
    pub open spec fn wf(self) -> bool {
        &&& self.blocks.len() == self.heights.len()
        &&& self.len() >= 1
        &&& self.heights[0] == LEVELS
        &&& forall|i: int| 0 <= i < self.len() ==> 1 <= #[trigger] self.heights[i] <= LEVELS
        &&& forall|i: int| 1 <= i < self.len() ==> (#[trigger] self.blocks[i]).wf()
        &&& forall|i: int, j: int|
            1 <= i < j < self.len() ==> (#[trigger] self.blocks[i]).spec_addr() < (
            #[trigger] self.blocks[j]).spec_addr()
    }

    /// Whether the node at `i` is linked on `level`.
    pub open spec fn on_level(self, level: int, i: int) -> bool {
        self.heights[i] > level
    }

    /// The first position after `i` that is linked on `level`, or the length
    /// where there is none.
    pub open spec fn next_at(self, level: int, i: int) -> int
        decreases self.len() - i,
    {
        if i + 1 >= self.len() {
            self.len()
        } else if i + 1 >= 0 && self.on_level(level, i + 1) {
            i + 1
        } else {
            self.next_at(level, i + 1)
        }
    }

    /// `next_at` is the least position after `i` on the level.
    pub proof fn lemma_next_at(self, level: int, i: int)
        requires
            0 <= i < self.len(),
        ensures
            i < self.next_at(level, i) <= self.len(),
            self.next_at(level, i) < self.len() ==> self.on_level(level, self.next_at(level, i)),
            forall|j: int| i < j < self.next_at(level, i) ==> !#[trigger] self.on_level(level, j),
        decreases self.len() - i,
    {
        if i + 1 < self.len() && !self.on_level(level, i + 1) {
            self.lemma_next_at(level, i + 1);
        }
    }

    /// The least position after `i` on the level is `next_at`.
    pub proof fn lemma_next_at_is(self, level: int, i: int, n: int)
        requires
            0 <= i < n <= self.len(),
            n < self.len() ==> self.on_level(level, n),
            forall|j: int| i < j < n ==> !#[trigger] self.on_level(level, j),
        ensures
            self.next_at(level, i) == n,
        decreases n - i,
    {
        if i + 1 < n {
            assert(!self.on_level(level, i + 1));
            self.lemma_next_at_is(level, i + 1, n);
        }
    }

    /// Where a walk along `level` is, having come as far as `cur` and with the
    /// positions from `j` on still before it: it passes over what is not on the
    /// level, moves on to each block that the search does not refine at, and
    /// stops before the first that it does, or at the end.
    pub open spec fn scan<S: Search>(self, s: &S, level: int, cur: int, j: int) -> int
        decreases self.len() - j,
    {
        if j < 0 || j >= self.len() {
            cur
        } else if !self.on_level(level, j) {
            self.scan(s, level, cur, j + 1)
        } else if s.spec_refine(self.blocks[j]) {
            cur
        } else {
            self.scan(s, level, j, j + 1)
        }
    }

    /// Where a walk that sets out from `p` along `level` stops.
    pub open spec fn run<S: Search>(self, s: &S, level: int, p: int) -> int {
        self.scan(s, level, p, p + 1)
    }

    /// Where a walk from the head stops on `level`, having come down through
    /// every level above it.
    pub open spec fn landing<S: Search>(self, s: &S, level: int) -> int
        decreases LEVELS - level,
    {
        if level >= LEVELS {
            0
        } else {
            self.run(s, level, self.landing(s, level + 1))
        }
    }

    /// The first position from `j` on whose block the search accepts, or the
    /// length where there is none.
    pub open spec fn first_match<S: Search>(self, s: &S, j: int) -> int
        decreases self.len() - j,
    {
        if j < 0 || j >= self.len() {
            self.len()
        } else if s.spec_is_match(self.blocks[j]) {
            j
        } else {
            self.first_match(s, j + 1)
        }
    }

    /// The position that a search finds: the first match after the place
    /// where the walk came down to the lowest level. The length stands for a
    /// miss.
    pub open spec fn found<S: Search>(self, s: &S) -> int {
        self.first_match(s, self.landing(s, 1) + 1)
    }

    /// The position that a search records for `level`: on the lowest level
    /// the one just before the match, on every other the place where the walk
    /// left that level.
    pub open spec fn back_look<S: Search>(self, s: &S, level: int) -> int {
        if level == 0 {
            self.found(s) - 1
        } else {
            self.landing(s, level)
        }
    }

    /// Whether the search refines monotonically over this chain: once at a
    /// block, then at every later one.
    pub open spec fn monotone<S: Search>(self, s: &S) -> bool {
        forall|i: int, j: int|
            1 <= i < j < self.len() && s.spec_refine(#[trigger] self.blocks[i]) ==> s.spec_refine(
                #[trigger] self.blocks[j],
            )
    }

    /// Whether `q` is the last position on `level` that the search does not
    /// refine at, the head standing in where there is no such block.
    pub open spec fn is_predecessor<S: Search>(self, s: &S, level: int, q: int) -> bool {
        &&& 0 <= q < self.len()
        &&& q == 0 || (self.on_level(level, q) && !s.spec_refine(self.blocks[q]))
        &&& forall|j: int|
            q < j < self.len() && #[trigger] self.on_level(level, j) ==> s.spec_refine(
                self.blocks[j],
            )
    }

    /// A scan passes over positions that are not on its level.
    proof fn lemma_scan_skip<S: Search>(self, s: &S, level: int, cur: int, j: int, n: int)
        requires
            0 <= j <= n <= self.len(),
            forall|k: int| j <= k < n ==> !#[trigger] self.on_level(level, k),
        ensures
            self.scan(s, level, cur, j) == self.scan(s, level, cur, n),
        decreases n - j,
    {
        if j < n {
            assert(!self.on_level(level, j));
            self.lemma_scan_skip(s, level, cur, j + 1, n);
        }
    }

    /// A walk goes on from `p` exactly when the next node on the level is
    /// there and the search does not refine at it.
    pub proof fn lemma_run_step<S: Search>(self, s: &S, level: int, p: int)
        requires
            0 <= p < self.len(),
        ensures
            self.run(s, level, p) == ({
                let n = self.next_at(level, p);
                if n < self.len() && !s.spec_refine(self.blocks[n]) {
                    self.run(s, level, n)
                } else {
                    p
                }
            }),
    {
        let n = self.next_at(level, p);
        self.lemma_next_at(level, p);
        self.lemma_scan_skip(s, level, p, p + 1, n);
    }

    /// Where a walk stops: at or after its start, with no refinement on the
    /// way, and with a refinement or the end next on the level.
    pub proof fn lemma_run<S: Search>(self, s: &S, level: int, p: int)
        requires
            0 <= p < self.len(),
        ensures
            p <= self.run(s, level, p) < self.len(),
            self.run(s, level, p) == p || (self.on_level(level, self.run(s, level, p))
                && !s.spec_refine(self.blocks[self.run(s, level, p)])),
            forall|j: int|
                p < j <= self.run(s, level, p) && #[trigger] self.on_level(level, j)
                    ==> !s.spec_refine(self.blocks[j]),
            self.next_at(level, self.run(s, level, p)) < self.len() ==> s.spec_refine(
                self.blocks[self.next_at(level, self.run(s, level, p))],
            ),
        decreases self.len() - p,
    {
        let n = self.next_at(level, p);
        self.lemma_next_at(level, p);
        self.lemma_run_step(s, level, p);
        if n < self.len() && !s.spec_refine(self.blocks[n]) {
            self.lemma_run(s, level, n);
        }
    }

    /// `first_match` is the least matching position from `j` on.
    pub proof fn lemma_first_match<S: Search>(self, s: &S, j: int)
        requires
            0 <= j <= self.len(),
        ensures
            j <= self.first_match(s, j) <= self.len(),
            self.first_match(s, j) < self.len() ==> s.spec_is_match(
                self.blocks[self.first_match(s, j)],
            ),
            forall|k: int|
                j <= k < self.first_match(s, j) ==> !s.spec_is_match(#[trigger] self.blocks[k]),
        decreases self.len() - j,
    {
        if j < self.len() && !s.spec_is_match(self.blocks[j]) {
            self.lemma_first_match(s, j + 1);
        }
    }

    /// A walk lands within the chain on every level, and no further back on a
    /// lower one.
    pub proof fn lemma_landing<S: Search>(self, s: &S, level: int)
        requires
            self.len() >= 1,
            0 <= level <= LEVELS,
        ensures
            0 <= self.landing(s, level) < self.len(),
            self.landing(s, level) == 0 || self.on_level(level, self.landing(s, level)),
            level < LEVELS ==> self.landing(s, level + 1) <= self.landing(s, level),
            level < LEVELS ==> self.landing(s, level) == self.run(
                s,
                level,
                self.landing(s, level + 1),
            ),
        decreases LEVELS - level,
    {
        if level < LEVELS {
            self.lemma_landing(s, level + 1);
            self.lemma_run(s, level, self.landing(s, level + 1));
        }
    }

    /// With a search that refines monotonically, a walk lands on each level
    /// at the last node of that level that the search does not refine at:
    /// the node whose link a new node there would take over.
    pub proof fn lemma_landing_is_predecessor<S: Search>(self, s: &S, level: int)
        requires
            self.wf(),
            self.monotone(s),
            0 <= level < LEVELS,
        ensures
            self.is_predecessor(s, level, self.landing(s, level)),
        decreases LEVELS - level,
    {
        let p = self.landing(s, level + 1);
        let q = self.landing(s, level);
        self.lemma_landing(s, level);
        self.lemma_landing(s, level + 1);
        self.lemma_run(s, level, p);
        if level + 1 < LEVELS {
            self.lemma_landing_is_predecessor(s, level + 1);
        }
        let n = self.next_at(level, q);
        self.lemma_next_at(level, q);
        assert forall|j: int| q < j < self.len() && #[trigger] self.on_level(level, j) implies s.spec_refine(
            self.blocks[j],
        ) by {
            assert(n <= j);
            assert(n < self.len());
            if n < j {
                assert(s.spec_refine(self.blocks[n]));
                assert(1 <= n < j < self.len());
            }
        }
    }

    /// Whether some block of the chain starts at `addr`.
    pub open spec fn holds(self, addr: usize) -> bool {
        exists|i: int| 1 <= i < self.len() && (#[trigger] self.blocks[i]).spec_addr() == addr
    }

    /// The search for an address refines monotonically over a chain in
    /// address order.
    pub proof fn lemma_point_monotone(self, s: &BlockSearcher)
        requires
            self.wf(),
        ensures
            self.monotone(s),
    {
    }

    /// The search for the address of the block at position `i` finds that
    /// position, and records on every level the last node of the level that
    /// lies before it.
    pub proof fn lemma_point_found(self, s: &BlockSearcher, i: int)
        requires
            self.wf(),
            1 <= i < self.len(),
            self.blocks[i].spec_addr() == s.needle.spec_addr(),
        ensures
            self.found(s) == i,
            forall|level: int|
                0 <= level < LEVELS ==> self.is_predecessor(
                    s,
                    level,
                    #[trigger] self.back_look(s, level),
                ),
            forall|level: int| 0 <= level < LEVELS ==> #[trigger] self.back_look(s, level) < i,
    {
        self.lemma_point_monotone(s);
        let q = self.landing(s, 1);
        self.lemma_landing(s, 1);
        self.lemma_landing_is_predecessor(s, 1);
        assert(q < i) by {
            if q >= i {
                assert(self.blocks[q].spec_addr() < s.needle.spec_addr());
                if q > i {
                    assert(self.blocks[i].spec_addr() < self.blocks[q].spec_addr());
                }
            }
        }
        self.lemma_first_match(s, q + 1);
        let m = self.first_match(s, q + 1);
        assert(m == i) by {
            if m > i {
                assert(!s.spec_is_match(self.blocks[i]));
            }
            if m < i {
                assert(self.blocks[m].spec_addr() < self.blocks[i].spec_addr());
            }
        }
        assert forall|level: int| 0 <= level < LEVELS implies self.is_predecessor(
            s,
            level,
            #[trigger] self.back_look(s, level),
        ) && self.back_look(s, level) < i by {
            if level == 0 {
                assert(self.heights[i - 1] >= 1);
                if i - 1 >= 1 {
                    assert(self.blocks[i - 1].spec_addr() < self.blocks[i].spec_addr());
                }
                assert forall|j: int|
                    i - 1 < j < self.len() && #[trigger] self.on_level(0, j) implies s.spec_refine(
                    self.blocks[j],
                ) by {
                    if j > i {
                        assert(self.blocks[i].spec_addr() < self.blocks[j].spec_addr());
                    }
                }
            } else {
                self.lemma_landing_is_predecessor(s, level);
                let p = self.landing(s, level);
                if p >= i {
                    assert(self.blocks[p].spec_addr() < s.needle.spec_addr());
                    if p > i {
                        assert(self.blocks[i].spec_addr() < self.blocks[p].spec_addr());
                    }
                }
            }
        }
    }

    /// The search for an address that no block starts at finds nothing.
    pub proof fn lemma_point_miss(self, s: &BlockSearcher)
        requires
            self.wf(),
            !self.holds(s.needle.spec_addr()),
        ensures
            self.found(s) == self.len(),
    {
        self.lemma_landing(s, 1);
        self.lemma_first_match(s, self.landing(s, 1) + 1);
        let m = self.found(s);
        if m < self.len() {
            assert(self.blocks[m].spec_addr() == s.needle.spec_addr());
        }
    }

    /// The first position from `j` on whose block starts at or above `addr`,
    /// or the length where there is none.
    pub open spec fn first_at_or_above(self, addr: usize, j: int) -> int
        decreases self.len() - j,
    {
        if j < 0 || j >= self.len() {
            self.len()
        } else if self.blocks[j].spec_addr() >= addr {
            j
        } else {
            self.first_at_or_above(addr, j + 1)
        }
    }

    /// The position at which a block that starts at `addr` belongs: after
    /// every block below it.
    pub open spec fn rank(self, addr: usize) -> int {
        self.first_at_or_above(addr, 1)
    }

    /// The chain with `block` put in at the position where it belongs, on a
    /// node of the given height.
    pub open spec fn insert(self, block: Block, height: nat) -> Chain {
        let k = self.rank(block.spec_addr());
        Chain { blocks: self.blocks.insert(k, block), heights: self.heights.insert(k, height) }
    }

    /// The chain without the node at position `i`.
    pub open spec fn remove(self, i: int) -> Chain {
        Chain { blocks: self.blocks.remove(i), heights: self.heights.remove(i) }
    }

    /// `first_at_or_above` is the least such position from `j` on.
    proof fn lemma_first_at_or_above(self, addr: usize, j: int)
        requires
            0 <= j <= self.len(),
        ensures
            j <= self.first_at_or_above(addr, j) <= self.len(),
            self.first_at_or_above(addr, j) < self.len() ==> self.blocks[self.first_at_or_above(
                addr,
                j,
            )].spec_addr() >= addr,
            forall|k: int|
                j <= k < self.first_at_or_above(addr, j) ==> (#[trigger] self.blocks[k]).spec_addr()
                    < addr,
        decreases self.len() - j,
    {
        if j < self.len() && self.blocks[j].spec_addr() < addr {
            self.lemma_first_at_or_above(addr, j + 1);
        }
    }

    /// The rank parts the chain: every block before it lies below the
    /// address, and every block from it on lies at or above.
    pub proof fn lemma_rank(self, addr: usize)
        requires
            self.wf(),
        ensures
            1 <= self.rank(addr) <= self.len(),
            forall|j: int| 1 <= j < self.rank(addr) ==> (#[trigger] self.blocks[j]).spec_addr() < addr,
            forall|j: int|
                self.rank(addr) <= j < self.len() ==> (#[trigger] self.blocks[j]).spec_addr() >= addr,
    {
        self.lemma_first_at_or_above(addr, 1);
        let k = self.rank(addr);
        assert forall|j: int| k <= j < self.len() implies (#[trigger] self.blocks[j]).spec_addr()
            >= addr by {
            if j > k {
                assert(self.blocks[k].spec_addr() < self.blocks[j].spec_addr());
            }
        }
    }

    /// The search for an address lands on the lowest level just before the
    /// address's rank.
    pub proof fn lemma_rank_is_landing(self, s: &BlockSearcher)
        requires
            self.wf(),
        ensures
            self.landing(s, 0) + 1 == self.rank(s.needle.spec_addr()),
    {
        let addr = s.needle.spec_addr();
        let q = self.landing(s, 0);
        let k = self.rank(addr);
        self.lemma_rank(addr);
        self.lemma_point_monotone(s);
        self.lemma_landing(s, 0);
        self.lemma_landing_is_predecessor(s, 0);
        if q + 1 < k {
            assert(self.heights[q + 1] >= 1);
            assert(self.on_level(0, q + 1));
            assert(self.blocks[q + 1].spec_addr() < addr);
        }
        if q + 1 > k {
            assert(self.blocks[q].spec_addr() >= addr);
        }
    }

    /// A chain stays well formed when a valid block with a new address goes
    /// in where it belongs.
    pub proof fn lemma_insert_wf(self, block: Block, height: nat)
        requires
            self.wf(),
            block.wf(),
            1 <= height <= LEVELS,
            !self.holds(block.spec_addr()),
        ensures
            self.insert(block, height).wf(),
            self.insert(block, height).len() == self.len() + 1,
            self.insert(block, height).blocks[self.rank(block.spec_addr())] == block,
            self.insert(block, height).holds(block.spec_addr()),
    {
        let k = self.rank(block.spec_addr());
        let c = self.insert(block, height);
        self.lemma_rank(block.spec_addr());
        assert forall|i: int| 0 <= i < c.len() implies 1 <= #[trigger] c.heights[i] <= LEVELS by {
            if i < k {
                assert(c.heights[i] == self.heights[i]);
            } else if i > k {
                assert(c.heights[i] == self.heights[i - 1]);
            }
        }
        assert forall|i: int| 1 <= i < c.len() implies (#[trigger] c.blocks[i]).wf() by {
            if i < k {
                assert(c.blocks[i] == self.blocks[i]);
            } else if i > k {
                assert(c.blocks[i] == self.blocks[i - 1]);
            }
        }
        assert forall|i: int, j: int| 1 <= i < j < c.len() implies (#[trigger] c.blocks[i]).spec_addr()
            < (#[trigger] c.blocks[j]).spec_addr() by {
            let a = if i < k {
                i
            } else {
                i - 1
            };
            let b = if j < k {
                j
            } else {
                j - 1
            };
            if i != k {
                assert(c.blocks[i] == self.blocks[a]);
            }
            if j != k {
                assert(c.blocks[j] == self.blocks[b]);
            }
            if j == k {
                assert(self.blocks[a].spec_addr() < block.spec_addr());
            }
            if i == k {
                assert(self.blocks[b].spec_addr() >= block.spec_addr());
                assert(self.blocks[b].spec_addr() != block.spec_addr());
            }
        }
        assert(c.blocks[k] == block);
    }

    /// A chain stays well formed when a block leaves it.
    pub proof fn lemma_remove_wf(self, i: int)
        requires
            self.wf(),
            1 <= i < self.len(),
        ensures
            self.remove(i).wf(),
            self.remove(i).len() == self.len() - 1,
            !self.remove(i).holds(self.blocks[i].spec_addr()),
    {
        let c = self.remove(i);
        assert forall|j: int| 0 <= j < c.len() implies 1 <= #[trigger] c.heights[j] <= LEVELS by {
            if j < i {
                assert(c.heights[j] == self.heights[j]);
            } else {
                assert(c.heights[j] == self.heights[j + 1]);
            }
        }
        assert forall|j: int| 1 <= j < c.len() implies (#[trigger] c.blocks[j]).wf() by {
            if j < i {
                assert(c.blocks[j] == self.blocks[j]);
            } else {
                assert(c.blocks[j] == self.blocks[j + 1]);
            }
        }
        assert forall|a: int, b: int| 1 <= a < b < c.len() implies (#[trigger] c.blocks[a]).spec_addr()
            < (#[trigger] c.blocks[b]).spec_addr() by {
            let a0 = if a < i {
                a
            } else {
                a + 1
            };
            let b0 = if b < i {
                b
            } else {
                b + 1
            };
            assert(c.blocks[a] == self.blocks[a0]);
            assert(c.blocks[b] == self.blocks[b0]);
        }
        assert forall|j: int| 1 <= j < c.len() implies (#[trigger] c.blocks[j]).spec_addr()
            != self.blocks[i].spec_addr() by {
            if j < i {
                assert(c.blocks[j] == self.blocks[j]);
            } else {
                assert(c.blocks[j] == self.blocks[j + 1]);
            }
        }
    }

    /// How the next node of a level changes when a node of the given height
    /// goes in at position `k`: positions move up by one from `k` on, and the
    /// new node steps in wherever it is the next one of its level.
    pub proof fn lemma_insert_next_at(self, k: int, block: Block, height: nat, level: int, i: int)
        requires
            self.blocks.len() == self.heights.len(),
            1 <= k <= self.len(),
            0 <= i <= self.len(),
        ensures
            (Chain {
                blocks: self.blocks.insert(k, block),
                heights: self.heights.insert(k, height),
            }).next_at(level, i) == (if i >= k {
                self.next_at(level, i - 1) + 1
            } else {
                let n = self.next_at(level, i);
                if n < k {
                    n
                } else if height > level {
                    k
                } else {
                    n + 1
                }
            }),
    {
        let c = Chain {
            blocks: self.blocks.insert(k, block),
            heights: self.heights.insert(k, height),
        };
        assert(c.len() == self.len() + 1);
        assert forall|j: int| 0 <= j < c.len() implies #[trigger] c.on_level(level, j) == (if j < k {
            self.on_level(level, j)
        } else if j == k {
            height > level
        } else {
            self.on_level(level, j - 1)
        }) by {
            if j < k {
                assert(c.heights[j] == self.heights[j]);
            } else if j > k {
                assert(c.heights[j] == self.heights[j - 1]);
            }
        }
        if i >= k {
            let n = self.next_at(level, i - 1);
            self.lemma_next_at(level, i - 1);
            assert forall|j: int| i < j < n + 1 implies !#[trigger] c.on_level(level, j) by {
                assert(!self.on_level(level, j - 1));
            }
            c.lemma_next_at_is(level, i, n + 1);
        } else {
            let n = self.next_at(level, i);
            self.lemma_next_at(level, i);
            if n < k {
                assert forall|j: int| i < j < n implies !#[trigger] c.on_level(level, j) by {
                    assert(!self.on_level(level, j));
                }
                c.lemma_next_at_is(level, i, n);
            } else if height > level {
                assert forall|j: int| i < j < k implies !#[trigger] c.on_level(level, j) by {
                    assert(!self.on_level(level, j));
                }
                c.lemma_next_at_is(level, i, k);
            } else {
                assert forall|j: int| i < j < n + 1 implies !#[trigger] c.on_level(level, j) by {
                    if j < k {
                        assert(!self.on_level(level, j));
                    } else if j > k {
                        assert(!self.on_level(level, j - 1));
                    }
                }
                c.lemma_next_at_is(level, i, n + 1);
            }
        }
    }

    /// How the next node of a level changes when the node at position `k`
    /// leaves: positions move down by one after `k`, and whoever pointed at
    /// the node points at what it pointed at.
    pub proof fn lemma_remove_next_at(self, k: int, level: int, i: int)
        requires
            self.blocks.len() == self.heights.len(),
            1 <= k < self.len(),
            0 <= i < self.len() - 1,
        ensures
            self.remove(k).next_at(level, i) == (if i >= k {
                self.next_at(level, i + 1) - 1
            } else {
                let n = self.next_at(level, i);
                if n < k {
                    n
                } else if n == k {
                    self.next_at(level, k) - 1
                } else {
                    n - 1
                }
            }),
    {
        let c = self.remove(k);
        assert(c.len() == self.len() - 1);
        assert forall|j: int| 0 <= j < c.len() implies #[trigger] c.on_level(level, j) == (if j < k {
            self.on_level(level, j)
        } else {
            self.on_level(level, j + 1)
        }) by {
            if j < k {
                assert(c.heights[j] == self.heights[j]);
            } else {
                assert(c.heights[j] == self.heights[j + 1]);
            }
        }
        if i >= k {
            let n = self.next_at(level, i + 1);
            self.lemma_next_at(level, i + 1);
            assert forall|j: int| i < j < n - 1 implies !#[trigger] c.on_level(level, j) by {
                assert(!self.on_level(level, j + 1));
            }
            c.lemma_next_at_is(level, i, n - 1);
        } else {
            let n = self.next_at(level, i);
            self.lemma_next_at(level, i);
            if n < k {
                assert forall|j: int| i < j < n implies !#[trigger] c.on_level(level, j) by {
                    assert(!self.on_level(level, j));
                }
                c.lemma_next_at_is(level, i, n);
            } else {
                let m = if n == k {
                    self.next_at(level, k)
                } else {
                    n
                };
                if n == k {
                    self.lemma_next_at(level, k);
                }
                assert forall|j: int| i < j < m - 1 implies !#[trigger] c.on_level(level, j) by {
                    if j < k {
                        assert(!self.on_level(level, j));
                    } else {
                        assert(!self.on_level(level, j + 1));
                    }
                }
                c.lemma_next_at_is(level, i, m - 1);
            }
        }
    }

    /// The position of the `k`-th node of `level`, counted from the head as
    /// the node number 0. The length stands for a level that has no such node.
    pub open spec fn nth_on(self, level: int, k: nat) -> int
        decreases k,
    {
        if k == 0 {
            0
        } else {
            let p = self.nth_on(level, (k - 1) as nat);
            if 0 <= p < self.len() {
                self.next_at(level, p)
            } else {
                self.len()
            }
        }
    }

    /// The nodes of a level come in list order and lie within the chain or at
    /// its end; those after the head are linked on the level.
    pub proof fn lemma_nth_on(self, level: int, k: nat)
        requires
            self.len() >= 1,
        ensures
            0 <= self.nth_on(level, k) <= self.len(),
            k > 0 && self.nth_on(level, k) < self.len() ==> self.on_level(
                level,
                self.nth_on(level, k),
            ),
            k > 0 ==> self.nth_on(level, (k - 1) as nat) <= self.nth_on(level, k),
        decreases k,
    {
        if k > 0 {
            self.lemma_nth_on(level, (k - 1) as nat);
            let p = self.nth_on(level, (k - 1) as nat);
            if p < self.len() {
                self.lemma_next_at(level, p);
            }
        }
    }

    /// Every position lies at a node of the level or between two of them that
    /// follow each other. Returns the number of the node at or before `i`.
    pub proof fn lemma_cover(self, level: int, i: int) -> (k: nat)
        requires
            0 <= i < self.len(),
        ensures
            self.nth_on(level, k) <= i < self.nth_on(level, k + 1),
            0 <= self.nth_on(level, k),
        decreases i,
    {
        if i == 0 {
            self.lemma_next_at(level, 0);
            assert(self.nth_on(level, 0) == 0);
            assert(self.nth_on(level, 1) == self.next_at(level, 0));
            0
        } else {
            let k = self.lemma_cover(level, i - 1);
            if i < self.nth_on(level, k + 1) {
                k
            } else {
                let p = self.nth_on(level, k + 1);
                assert(p == i);
                self.lemma_next_at(level, p);
                assert(self.nth_on(level, k + 2) == self.next_at(level, p));
                k + 1
            }
        }
    }

    /// A position that is linked on a level, or the head, is one of the
    /// level's nodes. Returns its number among them.
    pub proof fn lemma_on_level_is_nth(self, level: int, i: int) -> (k: nat)
        requires
            0 <= i < self.len(),
            i == 0 || self.on_level(level, i),
        ensures
            self.nth_on(level, k) == i,
    {
        let k = self.lemma_cover(level, i);
        let p = self.nth_on(level, k);
        if p < i {
            self.lemma_next_at(level, p);
            assert(self.nth_on(level, k + 1) == self.next_at(level, p));
            assert(!self.on_level(level, i));
        }
        k
    }

    /// No search finds anything in a chain that holds the head alone.
    pub proof fn lemma_empty_miss<S: Search>(self, s: &S)
        requires
            self.len() == 1,
        ensures
            self.found(s) == self.len(),
    {
        self.lemma_landing(s, 1);
    }

    /// Whether `block` is one of the blocks of the chain.
    pub open spec fn has(self, block: Block) -> bool {
        exists|i: int| 1 <= i < self.len() && #[trigger] self.blocks[i] == block
    }

    /// The chain after the blocks of a sequence have gone in one after the
    /// other, each on a node of the height that goes with it.
    pub open spec fn insert_all(self, blocks: Seq<Block>, heights: Seq<nat>) -> Chain
        decreases blocks.len(),
    {
        if blocks.len() == 0 {
            self
        } else {
            self.insert_all(blocks.drop_last(), heights.drop_last()).insert(
                blocks.last(),
                heights.last(),
            )
        }
    }

    /// Whether the blocks of a sequence can go into the chain one after the
    /// other: they are valid, their heights are, and their addresses differ
    /// from each other and from those that the chain holds.
    pub open spec fn admits(self, blocks: Seq<Block>, heights: Seq<nat>) -> bool {
        &&& blocks.len() == heights.len()
        &&& forall|j: int| 0 <= j < blocks.len() ==> (#[trigger] blocks[j]).wf()
        &&& forall|j: int| 0 <= j < blocks.len() ==> 1 <= #[trigger] heights[j] <= LEVELS
        &&& forall|j: int| 0 <= j < blocks.len() ==> !self.holds((#[trigger] blocks[j]).spec_addr())
        &&& forall|a: int, b: int|
            0 <= a < b < blocks.len() ==> (#[trigger] blocks[a]).spec_addr() != (
            #[trigger] blocks[b]).spec_addr()
    }

    /// A block that goes in is in the chain afterwards, beside all that were
    /// there, and no other address comes to be held.
    pub proof fn lemma_insert_has(self, block: Block, height: nat)
        requires
            self.wf(),
            block.wf(),
            1 <= height <= LEVELS,
            !self.holds(block.spec_addr()),
        ensures
            self.insert(block, height).has(block),
            forall|b: Block| self.has(b) ==> #[trigger] self.insert(block, height).has(b),
            forall|addr: usize| #[trigger]
                self.insert(block, height).holds(addr) ==> addr == block.spec_addr() || self.holds(
                    addr,
                ),
    {
        let c = self.insert(block, height);
        let k = self.rank(block.spec_addr());
        self.lemma_rank(block.spec_addr());
        self.lemma_insert_wf(block, height);
        assert(c.blocks[k] == block);
        assert forall|b: Block| self.has(b) implies #[trigger] c.has(b) by {
            let i = choose|i: int| 1 <= i < self.len() && #[trigger] self.blocks[i] == b;
            let j = if i < k {
                i
            } else {
                i + 1
            };
            assert(c.blocks[j] == b);
        }
        assert forall|addr: usize| #[trigger] c.holds(addr) implies addr == block.spec_addr()
            || self.holds(addr) by {
            let j = choose|j: int| 1 <= j < c.len() && (#[trigger] c.blocks[j]).spec_addr() == addr;
            if j < k {
                assert(c.blocks[j] == self.blocks[j]);
            } else if j > k {
                assert(c.blocks[j] == self.blocks[j - 1]);
            }
        }
    }

    /// After the blocks of a sequence have gone in, the chain is well formed
    /// and holds each of them, and no address that neither it nor they had.
    pub proof fn lemma_insert_all(self, blocks: Seq<Block>, heights: Seq<nat>)
        requires
            self.wf(),
            self.admits(blocks, heights),
        ensures
            self.insert_all(blocks, heights).wf(),
            forall|j: int|
                0 <= j < blocks.len() ==> self.insert_all(blocks, heights).has(#[trigger] blocks[j]),
            forall|addr: usize| #[trigger]
                self.insert_all(blocks, heights).holds(addr) ==> self.holds(addr) || exists|j: int|
                    0 <= j < blocks.len() && (#[trigger] blocks[j]).spec_addr() == addr,
        decreases blocks.len(),
    {
        if blocks.len() > 0 {
            let n = blocks.len() - 1;
            let front = blocks.drop_last();
            let front_heights = heights.drop_last();
            let block = blocks.last();
            let height = heights.last();
            assert(self.admits(front, front_heights)) by {
                assert forall|j: int| 0 <= j < front.len() implies (#[trigger] front[j]).wf()
                    && !self.holds(front[j].spec_addr()) by {
                    assert(front[j] == blocks[j]);
                }
                assert forall|j: int| 0 <= j < front.len() implies 1 <= #[trigger] front_heights[j]
                    <= LEVELS by {
                    assert(front_heights[j] == heights[j]);
                }
                assert forall|a: int, b: int| 0 <= a < b < front.len() implies (
                #[trigger] front[a]).spec_addr() != (#[trigger] front[b]).spec_addr() by {
                    assert(front[a] == blocks[a] && front[b] == blocks[b]);
                }
            }
            self.lemma_insert_all(front, front_heights);
            let mid = self.insert_all(front, front_heights);
            assert(block == blocks[n] && height == heights[n]);
            assert(!mid.holds(block.spec_addr())) by {
                if mid.holds(block.spec_addr()) {
                    assert(!self.holds(blocks[n].spec_addr()));
                    let j = choose|j: int|
                        0 <= j < front.len() && (#[trigger] front[j]).spec_addr()
                            == block.spec_addr();
                    assert(front[j] == blocks[j]);
                    assert(blocks[j].spec_addr() != blocks[n].spec_addr());
                }
            }
            mid.lemma_insert_wf(block, height);
            mid.lemma_insert_has(block, height);
            let c = self.insert_all(blocks, heights);
            assert(c == mid.insert(block, height));
            assert forall|j: int| 0 <= j < blocks.len() implies c.has(#[trigger] blocks[j]) by {
                if j < n {
                    assert(front[j] == blocks[j]);
                    assert(mid.has(front[j]));
                }
            }
            assert forall|addr: usize| #[trigger] c.holds(addr) implies self.holds(addr) || exists|
                j: int,
            |
                0 <= j < blocks.len() && (#[trigger] blocks[j]).spec_addr() == addr by {
                if addr == block.spec_addr() {
                    assert(blocks[n].spec_addr() == addr);
                } else {
                    assert(mid.holds(addr));
                    if !self.holds(addr) {
                        let j = choose|j: int|
                            0 <= j < front.len() && (#[trigger] front[j]).spec_addr() == addr;
                        assert(front[j] == blocks[j]);
                    }
                }
            }
        }
    }

    /// Whatever blocks with addresses of their own have gone into a chain, in
    /// whatever order and on nodes of whatever heights: the search for the
    /// address of any one of them finds the position that holds that block.
    pub proof fn lemma_inserted_found(self, blocks: Seq<Block>, heights: Seq<nat>, i: int)
        requires
            self.wf(),
            self.admits(blocks, heights),
            0 <= i < blocks.len(),
        ensures
            ({
                let c = self.insert_all(blocks, heights);
                let s = BlockSearcher { needle: blocks[i] };
                &&& c.wf()
                &&& 1 <= c.found(&s) < c.len()
                &&& c.blocks[c.found(&s)] == blocks[i]
            }),
    {
        let c = self.insert_all(blocks, heights);
        let s = BlockSearcher { needle: blocks[i] };
        self.lemma_insert_all(blocks, heights);
        assert(c.has(blocks[i]));
        let pos = choose|pos: int| 1 <= pos < c.len() && #[trigger] c.blocks[pos] == blocks[i];
        c.lemma_point_found(&s, pos);
    }
}

} // verus!
