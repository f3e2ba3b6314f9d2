//! The pool: free blocks in a skip list, in order of address.
//!
//! Nodes live in an arena and name each other by their place in it. The head
//! is the node at place 0. A place whose node has left the list is kept and
//! used for the next node that comes.
//!
//! A link leads to the next node of its level and counts the nodes that it
//! passes over on the way, so that a walk knows its position in the list.
//!
//! The pool has no lock of its own: whoever shares one sees to it that no
//! call changes it while another is at work.

use crate::block::Block;
use crate::chain::{Chain, LEVELS};
use crate::search::{BlockSearcher, Search};
use vstd::prelude::*;

verus! {

/// No block in the pool is what the search was for.
#[derive(Clone, Copy, Debug, PartialEq, Eq, Structural)]
pub struct SearchMiss;

/// Why a block did not go into the pool.
#[derive(Clone, Copy, Debug, PartialEq, Eq, Structural)]
pub enum InsertError {
    /// The height is not between one and the number of levels.
    Height,
    /// The pool holds a block at that address already.
    Occupied,
}

/// A link forward on one level: the node it leads to, if the level goes on,
/// and the number of nodes of the list that it passes over on the way.
#[derive(Clone, Copy)]
struct Shortcut {
    next: Option<usize>,
    skips: usize,
}

/// A node of the list: its block, and its link forward on each level that it
/// is linked on.
struct Node {
    block: Block,
    links: Vec<Shortcut>,
}

/// What a search found: the node that matched, and for each level the node
/// that comes before it there.
#[derive(Debug)]
pub struct Seek {
    node: usize,
    back_look: Vec<usize>,
}

/// The pool of free blocks.
pub struct Pool {
    nodes: Vec<Node>,
    free: Vec<usize>,
    order: Ghost<Seq<usize>>,
}

/// The number of one bits at the low end of `bits`, counted up to `limit`.
pub open spec fn trailing_ones(bits: u64, limit: nat) -> nat
    decreases limit,
{
    if limit == 0 || bits % 2 == 0 {
        0
    } else {
        1 + trailing_ones(bits / 2, (limit - 1) as nat)
    }
}

/// The height of a new node, drawn from random bits: one level, and one more
/// for each one bit at the low end, up to the number of levels. Of bits drawn
/// evenly, half give one level, a quarter two, and so on.
pub fn tower_height(bits: u64) -> (r: usize)
    ensures
        r == 1 + trailing_ones(bits, (LEVELS - 1) as nat),
        1 <= r <= LEVELS,
{
    let mut height: usize = 1;
    let mut rest: u64 = bits;
    while height < LEVELS && rest % 2 == 1
        invariant
            1 <= height <= LEVELS,
            height + trailing_ones(rest, (LEVELS - height) as nat) == 1 + trailing_ones(
                bits,
                (LEVELS - 1) as nat,
            ),
        decreases LEVELS - height,
    {
        height = height + 1;
        rest = rest / 2;
    }
    height
}

impl Seek {
    /// The node that matched, by its place in the arena.
    pub closed spec fn spec_node(&self) -> usize {
        self.node
    }

    /// The nodes before the match, by level.
    pub closed spec fn spec_back_look(&self) -> Seq<usize> {
        self.back_look@
    }

    /// The node that matched, by its place in the arena.
    #[verifier::when_used_as_spec(spec_node)]
    pub fn node(&self) -> (r: usize)
        ensures
            r == self.spec_node(),
    {
        self.node
    }

    /// The node before the match on `level`, or nothing where there is no
    /// such level.
    pub fn back_look(&self, level: usize) -> (r: Option<usize>)
        ensures
            r == if level < self.spec_back_look().len() {
                Some(self.spec_back_look()[level as int])
            } else {
                None
            },
    {
        if level < self.back_look.len() {
            Some(self.back_look[level])
        } else {
            None
        }
    }
}

impl Pool {
    /// The nodes of the list in list order, by their places in the arena. The
    /// head comes first.
    pub closed spec fn handles(&self) -> Seq<usize> {
        self.order@
    }

    /// The block of the node at list position `i`.
    spec fn block_at(&self, i: int) -> Block {
        self.nodes@[self.order@[i] as int].block
    }

    /// The height of the node at list position `i`.
    spec fn height_at(&self, i: int) -> nat {
        self.nodes@[self.order@[i] as int].links@.len()
    }

    /// The link on `level` of the node at list position `i`.
    spec fn link_at(&self, i: int, level: int) -> Option<usize> {
        self.nodes@[self.order@[i] as int].links@[level].next
    }

    /// The number of nodes that the link on `level` of the node at list
    /// position `i` passes over.
    spec fn skips_at(&self, i: int, level: int) -> usize {
        self.nodes@[self.order@[i] as int].links@[level].skips
    }

    /// The list as mathematics.
    pub closed spec fn view(&self) -> Chain {
        Chain {
            blocks: Seq::new(self.order@.len(), |i: int| self.block_at(i)),
            heights: Seq::new(self.order@.len(), |i: int| self.height_at(i)),
        }
    }

    /// The node that follows position `i` on `level`, as the order of the
    /// list has it.
    spec fn follower(&self, level: int, i: int) -> Option<usize> {
        let n = self@.next_at(level, i);
        if n < self.order@.len() {
            Some(self.order@[n])
        } else {
            None
        }
    }

    /// Every place of the arena holds a node of the list or waits to be used
    /// again. The places that wait are other than the head's, none of them in
    /// the list, none of them named twice.
    spec fn free_ok(&self) -> bool {
        &&& self.order@.len() + self.free@.len() == self.nodes@.len()
        &&& forall|f: int|
            0 <= f < self.free@.len() ==> 1 <= #[trigger] self.free@[f] < self.nodes@.len()
                && !self.order@.contains(self.free@[f])
        &&& forall|f: int, g: int|
            0 <= f < g < self.free@.len() ==> #[trigger] self.free@[f] != #[trigger] self.free@[g]
    }

    /// Every link counts the nodes between its own node and the next node of
    /// its level, or the end of the list.
    spec fn skips_ok(&self) -> bool {
        forall|i: int, level: int|
            0 <= i < self.order@.len() && 0 <= level < self.height_at(i) ==> #[trigger] self.skips_at(
                i,
                level,
            ) == self@.next_at(level, i) - i - 1
    }

    /// The list is sound: the head is at place 0; no node stands in the list
    /// twice; a node outside the list has no links; the places kept for reuse
    /// are outside the list; the chain is well formed; every link leads to
    /// the next node of its level, and counts the nodes that it passes over.
    pub closed spec fn wf(&self) -> bool {
        &&& self.links_ok()
        &&& self.skips_ok()
    }

    /// The list is sound but for the counts on its links.
    spec fn links_ok(&self) -> bool {
        &&& self.nodes@.len() >= 1
        &&& self.free_ok()
        &&& self.order@.len() >= 1
        &&& self.order@[0] == 0
        &&& forall|i: int| 0 <= i < self.order@.len() ==> #[trigger] self.order@[i] < self.nodes@.len()
        &&& forall|i: int, j: int|
            0 <= i < j < self.order@.len() ==> #[trigger] self.order@[i] != #[trigger] self.order@[j]
        &&& forall|h: int|
            0 <= h < self.nodes@.len() && !self.order@.contains(h as usize) ==> (
            #[trigger] self.nodes@[h]).links@.len() == 0
        &&& self@.wf()
        &&& forall|i: int, level: int|
            0 <= i < self.order@.len() && 0 <= level < self.height_at(i) ==> #[trigger] self.link_at(
                i,
                level,
            ) == self.follower(level, i)
    }

    /// The view has an entry for each node of the list.
    proof fn lemma_view(&self)
        ensures
            self@.blocks.len() == self.handles().len(),
            self@.heights.len() == self.handles().len(),
            forall|i: int| 0 <= i < self.handles().len() ==> #[trigger] self@.blocks[i] == self.block_at(i),
            forall|i: int|
                0 <= i < self.handles().len() ==> #[trigger] self@.heights[i] == self.height_at(i),
    {
    }

    /// A sound list has a well-formed chain, led by the head, and names no
    /// node twice.
    pub proof fn lemma_wf(&self)
        requires
            self.wf(),
        ensures
            self@.wf(),
            self.handles().len() == self@.len(),
            self.handles()[0] == 0,
            forall|i: int, j: int|
                0 <= i < j < self.handles().len() ==> #[trigger] self.handles()[i]
                    != #[trigger] self.handles()[j],
    {
    }

    /// A pool that holds no block.
    pub fn new() -> (r: Pool)
        ensures
            r.wf(),
            r@.len() == 1,
            r.handles() == seq![0usize],
    {
        let mut links: Vec<Shortcut> = Vec::new();
        let mut level: usize = 0;
        while level < LEVELS
            invariant
                level <= LEVELS,
                links@.len() == level,
                forall|l: int| 0 <= l < level ==> links@[l].next is None && links@[l].skips == 0,
            decreases LEVELS - level,
        {
            links.push(Shortcut { next: None, skips: 0 });
            level = level + 1;
        }
        let mut nodes: Vec<Node> = Vec::new();
        nodes.push(Node { block: Block::empty(0), links });
        let ghost order: Seq<usize> = seq![0usize];
        let r = Pool { nodes, free: Vec::new(), order: Ghost(order) };
        proof {
            r.lemma_view();
            assert(r.order@.contains(0usize)) by {
                assert(r.order@[0] == 0usize);
            }
            assert forall|i: int, level: int|
                0 <= i < r.order@.len() && 0 <= level < r.height_at(i) implies #[trigger] r.link_at(
                i,
                level,
            ) == r.follower(level, i) by {
                assert(r@.next_at(level, 0) == 1);
            }
            assert forall|i: int, level: int|
                0 <= i < r.order@.len() && 0 <= level < r.height_at(i) implies #[trigger] r.skips_at(
                i,
                level,
            ) == r@.next_at(level, i) - i - 1 by {
                assert(r@.next_at(level, 0) == 1);
            }
        }
        r
    }

    /// Walks along `level` from the node `from`, which stands at position
    /// `at`, to where the walk stops. Returns the node there and its position.
    fn advance<S: Search>(&self, searcher: &S, level: usize, from: usize, at: usize) -> (r: (
        usize,
        usize,
    ))
        requires
            self.wf(),
            level < LEVELS,
            at < self.order@.len(),
            from == self.order@[at as int],
            self@.on_level(level as int, at as int),
        ensures
            r.1 == self@.run(searcher, level as int, at as int),
            r.1 < self.order@.len(),
            r.0 == self.order@[r.1 as int],
    {
        let mut cur: usize = from;
        let mut pos: usize = at;
        proof {
            self.lemma_view();
            self@.lemma_run(searcher, level as int, at as int);
        }
        loop
            invariant
                self.wf(),
                level < LEVELS,
                pos < self.order@.len(),
                cur == self.order@[pos as int],
                self@.on_level(level as int, pos as int),
                self@.run(searcher, level as int, pos as int) == self@.run(
                    searcher,
                    level as int,
                    at as int,
                ),
            decreases self.order@.len() - pos,
        {
            proof {
                self.lemma_view();
                self@.lemma_run_step(searcher, level as int, pos as int);
                self@.lemma_next_at(level as int, pos as int);
                assert(self.link_at(pos as int, level as int) == self.follower(
                    level as int,
                    pos as int,
                ));
                assert(self.skips_at(pos as int, level as int) == self@.next_at(
                    level as int,
                    pos as int,
                ) - pos - 1);
                assert(self.nodes.len() == self.nodes@.len());
            }
            let link: Shortcut = self.nodes[cur].links[level];
            match link.next {
                Some(n) => {
                    if searcher.refine(&self.nodes[n].block) {
                        return (cur, pos);
                    }
                    cur = n;
                    pos = pos + link.skips + 1;
                },
                None => {
                    return (cur, pos);
                },
            }
        }
    }

    /// Walks down from the head through the levels above `lowest`, and notes
    /// for each where the walk left it: the node, and its position in the
    /// list. Returns both sets of notes, and the node and the position on
    /// which the walk came to rest.
    fn descend<S: Search>(&self, searcher: &S, lowest: usize) -> (r: (
        Vec<usize>,
        Vec<usize>,
        usize,
        usize,
    ))
        requires
            self.wf(),
            lowest <= 1,
        ensures
            r.0@.len() == LEVELS,
            r.1@.len() == LEVELS,
            forall|l: int|
                lowest <= l < LEVELS ==> r.0@[l] == self.order@[#[trigger] self@.landing(searcher, l)]
                    && r.1@[l] == self@.landing(searcher, l),
            forall|l: int| 0 <= l < lowest ==> r.0@[l] == 0,
            r.3 == self@.landing(searcher, lowest as int),
            r.2 == self.order@[r.3 as int],
    {
        let mut back_look: Vec<usize> = Vec::new();
        let mut ranks: Vec<usize> = Vec::new();
        let mut filled: usize = 0;
        while filled < LEVELS
            invariant
                filled <= LEVELS,
                back_look@.len() == filled,
                ranks@.len() == filled,
                forall|l: int| 0 <= l < filled ==> back_look@[l] == 0,
            decreases LEVELS - filled,
        {
            back_look.push(0);
            ranks.push(0);
            filled = filled + 1;
        }
        let mut cur: usize = 0;
        let mut pos: usize = 0;
        let mut level: usize = LEVELS;
        proof {
            self.lemma_view();
        }
        while level > lowest
            invariant
                self.wf(),
                lowest <= level <= LEVELS,
                back_look@.len() == LEVELS,
                ranks@.len() == LEVELS,
                pos == self@.landing(searcher, level as int),
                pos < self.order@.len(),
                cur == self.order@[pos as int],
                forall|l: int|
                    level <= l < LEVELS ==> back_look@[l] == self.order@[#[trigger] self@.landing(
                        searcher,
                        l,
                    )] && ranks@[l] == self@.landing(searcher, l),
                forall|l: int| 0 <= l < level ==> back_look@[l] == 0,
            decreases level,
        {
            proof {
                self.lemma_view();
                self@.lemma_landing(searcher, level as int);
                self@.lemma_landing(searcher, level - 1);
            }
            level = level - 1;
            let (node, at) = self.advance(searcher, level, cur, pos);
            cur = node;
            pos = at;
            back_look[level] = cur;
            ranks[level] = pos;
        }
        (back_look, ranks, cur, pos)
    }

    /// Searches the pool with a strategy.
    ///
    /// The walk starts at the head on the highest level. On each level but
    /// the lowest it moves from node to node until the strategy refines at the
    /// next one, or until the level ends, and notes where it stood. On the
    /// lowest level it goes on node by node and takes the first that the
    /// strategy accepts; the node before that one is the note for the lowest
    /// level. The pool is left as it is.
    pub fn search_with<S: Search>(&self, searcher: &S) -> (r: Result<Seek, SearchMiss>)
        requires
            self.wf(),
        ensures
            r is Ok <==> self@.found(searcher) < self@.len(),
            r matches Ok(seek) ==> {
                &&& seek.spec_node() == self.handles()[self@.found(searcher)]
                &&& seek.spec_back_look().len() == LEVELS
                &&& forall|l: int|
                    0 <= l < LEVELS ==> seek.spec_back_look()[l] == self.handles()[
                        #[trigger] self@.back_look(searcher, l)
                    ]
            },
    {
        let (mut back_look, _, start, _) = self.descend(searcher, 1);
        let mut prev: usize = start;
        let ghost from = self@.landing(searcher, 1);
        let ghost mut pos: int = from;
        proof {
            self.lemma_view();
            self@.lemma_landing(searcher, 1);
            self@.lemma_first_match(searcher, pos + 1);
        }
        loop
            invariant
                self.wf(),
                0 <= pos < self.order@.len(),
                prev == self.order@[pos],
                self@.first_match(searcher, pos + 1) == self@.found(searcher),
                back_look@.len() == LEVELS,
                forall|l: int|
                    1 <= l < LEVELS ==> back_look@[l] == self.order@[#[trigger] self@.landing(
                        searcher,
                        l,
                    )],
            decreases self.order@.len() - pos,
        {
            proof {
                self.lemma_view();
                assert(self@.heights[pos] >= 1);
                assert(self.link_at(pos, 0) == self.follower(0, pos));
                if pos + 1 < self.order@.len() {
                    assert(self@.heights[pos + 1] >= 1);
                    assert(self@.on_level(0, pos + 1));
                }
                assert(self@.next_at(0, pos) == pos + 1);
                self@.lemma_first_match(searcher, pos + 1);
            }
            match self.nodes[prev].links[0].next {
                Some(n) => {
                    if searcher.is_match(&self.nodes[n].block) {
                        back_look[0] = prev;
                        let seek = Seek { node: n, back_look };
                        proof {
                            assert forall|l: int| 0 <= l < LEVELS implies seek.spec_back_look()[l]
                                == self.handles()[#[trigger] self@.back_look(searcher, l)] by {
                                if l > 0 {
                                    assert(self@.back_look(searcher, l) == self@.landing(searcher, l));
                                }
                            }
                        }
                        return Ok(seek);
                    }
                    prev = n;
                    proof {
                        pos = pos + 1;
                    }
                },
                None => {
                    return Err(SearchMiss);
                },
            }
        }
    }

    /// Searches the pool for the block that starts where `block` does.
    ///
    /// The search succeeds exactly when the pool holds a block at that
    /// address. It then names that block's node, and for each level the last
    /// node of the level that lies before it: the nodes whose links a removal
    /// there would change.
    pub fn search(&self, block: &Block) -> (r: Result<Seek, SearchMiss>)
        requires
            self.wf(),
        ensures
            r is Ok <==> self@.holds(block.spec_addr()),
            r matches Ok(seek) ==> {
                let s = BlockSearcher { needle: *block };
                let m = self@.found(&s);
                &&& 1 <= m < self@.len()
                &&& self@.blocks[m].spec_addr() == block.spec_addr()
                &&& seek.spec_node() == self.handles()[m]
                &&& seek.spec_back_look().len() == LEVELS
                &&& forall|l: int|
                    0 <= l < LEVELS ==> {
                        &&& seek.spec_back_look()[l] == self.handles()[
                            #[trigger] self@.back_look(&s, l)
                        ]
                        &&& self@.is_predecessor(&s, l, self@.back_look(&s, l))
                        &&& self@.back_look(&s, l) < m
                    }
            },
    {
        let s = BlockSearcher { needle: *block };
        let r = self.search_with(&s);
        proof {
            self.lemma_wf();
            if self@.holds(block.spec_addr()) {
                let i = choose|i: int|
                    1 <= i < self@.len() && (#[trigger] self@.blocks[i]).spec_addr()
                        == block.spec_addr();
                self@.lemma_point_found(&s, i);
            } else {
                self@.lemma_point_miss(&s);
            }
        }
        r
    }

    /// What linking a new node `h` in leaves behind: the new node holds the
    /// block and takes over the links of the nodes that a search for its
    /// address lands on; those nodes lead to it, on the levels that it reaches,
    /// or pass over one node more, above them; and nothing else has changed.
    spec fn linked_in(
        before: &Pool,
        after: &Pool,
        block: Block,
        height: nat,
        h: usize,
        back: Seq<usize>,
    ) -> bool {
        let s = BlockSearcher { needle: block };
        &&& before.wf()
        &&& block.wf()
        &&& 1 <= height <= LEVELS
        &&& !before@.holds(block.spec_addr())
        &&& h <= before.nodes@.len()
        &&& !before.order@.contains(h)
        &&& after.nodes@.len() == (if h == before.nodes@.len() {
            h + 1
        } else {
            before.nodes@.len() as int
        })
        &&& after.free@.len() == (if h == before.nodes@.len() {
            before.free@.len() as int
        } else {
            before.free@.len() - 1
        })
        &&& forall|f: int|
            0 <= f < after.free@.len() ==> #[trigger] after.free@[f] == before.free@[f]
                && after.free@[f] != h
        &&& after.order@ == before.order@.insert(before@.rank(block.spec_addr()), h)
        &&& after.nodes@[h as int].block == block
        &&& after.nodes@[h as int].links@.len() == height
        &&& back.len() == LEVELS
        &&& forall|l: int| 0 <= l < LEVELS ==> back[l] == before.order@[#[trigger] before@.landing(&s, l)]
        &&& forall|l: int|
            0 <= l < height ==> (#[trigger] after.nodes@[h as int].links@[l]).next
                == before.nodes@[back[l] as int].links@[l].next && after.nodes@[h as int].links@[l].skips
                == before.nodes@[back[l] as int].links@[l].skips - (before@.landing(&s, 0)
                - before@.landing(&s, l))
        &&& forall|x: int|
            0 <= x < before.nodes@.len() && x != h ==> (#[trigger] after.nodes@[x]).block
                == before.nodes@[x].block && after.nodes@[x].links@.len()
                == before.nodes@[x].links@.len()
        &&& forall|x: int, l: int|
            0 <= x < before.nodes@.len() && x != h && 0 <= l < before.nodes@[x].links@.len()
                ==> #[trigger] after.nodes@[x].links@[l].next == (if l < height && x == back[l] {
                Some(h)
            } else {
                before.nodes@[x].links@[l].next
            })
        &&& forall|x: int, l: int|
            0 <= x < before.nodes@.len() && x != h && 0 <= l < before.nodes@[x].links@.len()
                ==> #[trigger] after.nodes@[x].links@[l].skips == (if l < LEVELS && x == back[l] {
                if l < height {
                    before@.landing(&s, 0) - before@.landing(&s, l)
                } else {
                    before.nodes@[x].links@[l].skips + 1
                }
            } else {
                before.nodes@[x].links@[l].skips as int
            })
    }

    /// Once a new node has been linked in, the list is sound again but for
    /// the counts on its links, and its chain is the old one with the block
    /// put in.
    proof fn lemma_inserted(
        before: &Pool,
        after: &Pool,
        block: Block,
        height: nat,
        h: usize,
        back: Seq<usize>,
    )
        requires
            Self::linked_in(before, after, block, height, h, back),
        ensures
            after.links_ok(),
            after@ == before@.insert(block, height),
    {
        let s = BlockSearcher { needle: block };
        let addr = block.spec_addr();
        let k = before@.rank(addr);
        let c = before@.insert(block, height);
        let len = before.order@.len() as int;
        before.lemma_view();
        after.lemma_view();
        before@.lemma_rank(addr);
        before@.lemma_insert_wf(block, height);
        before@.lemma_point_monotone(&s);
        assert(after.order@.len() == len + 1);
        assert(after.order@[k] == h);
        assert forall|i: int| 0 <= i < len + 1 && i != k implies #[trigger] after.order@[i]
            == before.order@[if i < k {
            i
        } else {
            i - 1
        }] by {}
        assert(after@.blocks =~= c.blocks);
        assert(after@.heights =~= c.heights);
        assert(after@ == c);
        assert forall|i: int, j: int| 0 <= i < j < after.order@.len() implies #[trigger] after.order@[i]
            != #[trigger] after.order@[j] by {
            let a = if i < k {
                i
            } else {
                i - 1
            };
            let b = if j < k {
                j
            } else {
                j - 1
            };
            if i != k && j != k {
                assert(before.order@[a] != before.order@[b]);
            } else if i != k {
                assert(before.order@.contains(before.order@[a]));
            } else {
                assert(before.order@.contains(before.order@[b]));
            }
        }
        assert(after.free_ok()) by {
            assert forall|f: int| 0 <= f < after.free@.len() implies 1 <= #[trigger] after.free@[f]
                < after.nodes@.len() && !after.order@.contains(after.free@[f]) by {
                let x = after.free@[f];
                assert(x == before.free@[f]);
                if after.order@.contains(x) {
                    let i = choose|i: int| 0 <= i < after.order@.len() && after.order@[i] == x;
                    if i != k {
                        let o = if i < k {
                            i
                        } else {
                            i - 1
                        };
                        assert(before.order@[o] == x);
                        assert(before.order@.contains(x));
                    }
                }
            }
            assert forall|f: int, g: int| 0 <= f < g < after.free@.len() implies #[trigger] after.free@[f]
                != #[trigger] after.free@[g] by {
                assert(before.free@[f] != before.free@[g]);
            }
        }
        assert forall|i: int| 0 <= i < after.order@.len() implies #[trigger] after.order@[i]
            < after.nodes@.len() by {
            if i != k {
                let o = if i < k {
                    i
                } else {
                    i - 1
                };
                assert(before.order@[o] < before.nodes@.len());
            }
        }
        assert forall|x: int|
            0 <= x < after.nodes@.len() && !after.order@.contains(x as usize) implies (
        #[trigger] after.nodes@[x]).links@.len() == 0 by {
            if x == h {
                assert(after.order@[k] == x as usize);
            } else {
                if before.order@.contains(x as usize) {
                    let i = choose|i: int|
                        0 <= i < before.order@.len() && before.order@[i] == x as usize;
                    let j = if i < k {
                        i
                    } else {
                        i + 1
                    };
                    assert(after.order@[j] == x as usize);
                }
                assert(before.nodes@[x].links@.len() == 0);
            }
        }
        assert forall|i: int, level: int|
            0 <= i < after.order@.len() && 0 <= level < after.height_at(i) implies #[trigger] after.link_at(
            i,
            level,
        ) == after.follower(level, i) by {
            assert(after@.heights[i] == after.height_at(i));
            assert(1 <= c.heights[i] <= LEVELS);
            before@.lemma_insert_next_at(k, block, height, level, i);
            before@.lemma_landing(&s, level);
            before@.lemma_landing_is_predecessor(&s, level);
            let p = before@.landing(&s, level);
            let np = before@.next_at(level, p);
            before@.lemma_next_at(level, p);
            assert(before@.heights[p] > level) by {
                assert(before@.heights[0] == LEVELS);
            }
            assert(p < k) by {
                if p >= k {
                    assert(before@.blocks[p].spec_addr() >= addr);
                }
            }
            assert(np >= k) by {
                if np < k {
                    assert(before@.on_level(level, np));
                    assert(before@.blocks[np].spec_addr() < addr);
                }
            }
            assert(before.link_at(p, level) == before.follower(level, p));
            if i == k {
                assert forall|j: int| k - 1 < j < np implies !#[trigger] before@.on_level(level, j) by {}
                before@.lemma_next_at_is(level, k - 1, np);
                assert(after@.next_at(level, k) == np + 1);
                if np < len {
                    assert(after.order@[np + 1] == before.order@[np]);
                }
            } else {
                let o = if i < k {
                    i
                } else {
                    i - 1
                };
                let x = before.order@[o];
                assert(after.order@[i] == x);
                assert(before.order@.contains(x));
                assert(before.order@.contains(before.order@[p]));
                assert(before@.heights[o] == before.height_at(o));
                assert(before.link_at(o, level) == before.follower(level, o));
                let n = before@.next_at(level, o);
                before@.lemma_next_at(level, o);
                if x == back[level] {
                    assert(o == p) by {
                        if o != p {
                            assert(before.order@[o] != before.order@[p]);
                        }
                    }
                } else {
                    assert(o != p);
                }
                if level < height && o == p {
                    assert(i < k);
                    assert(after@.next_at(level, i) == k);
                } else if i > k {
                    assert(o != p);
                    assert(after@.next_at(level, i) == n + 1);
                    if n < len {
                        assert(after.order@[n + 1] == before.order@[n]);
                    }
                } else {
                    if n >= k && height > level {
                        assert(before@.on_level(level, o));
                        if o > p {
                            assert(before@.blocks[o].spec_addr() >= addr);
                            assert(before@.blocks[o].spec_addr() < addr);
                        } else {
                            assert(o < p);
                            assert(before@.on_level(level, p));
                            assert(n <= p);
                        }
                        assert(false);
                    }
                    if n < k {
                        assert(after@.next_at(level, i) == n);
                        assert(after.order@[n] == before.order@[n]);
                    } else {
                        assert(after@.next_at(level, i) == n + 1);
                        if n < len {
                            assert(after.order@[n + 1] == before.order@[n]);
                        }
                    }
                }
            }
        }
    }

    /// Once a new node has been linked in, every link counts what it passes
    /// over.
    proof fn lemma_inserted_skip(
        before: &Pool,
        after: &Pool,
        block: Block,
        height: nat,
        h: usize,
        back: Seq<usize>,
        i: int,
        level: int,
    )
        requires
            Self::linked_in(before, after, block, height, h, back),
            0 <= i < after.order@.len(),
            0 <= level < after.height_at(i),
        ensures
            after.skips_at(i, level) == after@.next_at(level, i) - i - 1,
    {
        let s = BlockSearcher { needle: block };
        let addr = block.spec_addr();
        let k = before@.rank(addr);
        let c = before@.insert(block, height);
        let len = before.order@.len() as int;
        Self::lemma_inserted(before, after, block, height, h, back);
        before.lemma_view();
        after.lemma_view();
        before@.lemma_rank(addr);
        before@.lemma_rank_is_landing(&s);
        before@.lemma_insert_wf(block, height);
        before@.lemma_point_monotone(&s);
        assert(after.order@[k] == h);
        assert(after@.heights[i] == after.height_at(i));
        assert(1 <= c.heights[i] <= LEVELS);
        before@.lemma_insert_next_at(k, block, height, level, i);
        before@.lemma_landing(&s, level);
        before@.lemma_landing_is_predecessor(&s, level);
        let p = before@.landing(&s, level);
        let np = before@.next_at(level, p);
        before@.lemma_next_at(level, p);
        assert(before@.heights[p] > level) by {
            assert(before@.heights[0] == LEVELS);
        }
        assert(p < k) by {
            if p >= k {
                assert(before@.blocks[p].spec_addr() >= addr);
            }
        }
        assert(np >= k) by {
            if np < k {
                assert(before@.on_level(level, np));
                assert(before@.blocks[np].spec_addr() < addr);
            }
        }
        assert(before@.heights[p] == before.height_at(p));
        assert(before.skips_at(p, level) == np - p - 1);
        assert(before.order@.contains(before.order@[p]));
        if i == k {
            assert forall|j: int| k - 1 < j < np implies !#[trigger] before@.on_level(level, j) by {}
            before@.lemma_next_at_is(level, k - 1, np);
            assert(after@.next_at(level, k) == np + 1);
            assert(after.nodes@[h as int].links@[level].skips == before.nodes@[back[level] as int].links@[level].skips
                - (before@.landing(&s, 0) - p));
        } else {
            let o = if i < k {
                i
            } else {
                i - 1
            };
            let x = before.order@[o];
            assert(after.order@[i] == x);
            assert(before.order@.contains(x));
            assert(before@.heights[o] == before.height_at(o));
            assert(before.skips_at(o, level) == before@.next_at(level, o) - o - 1);
            let n = before@.next_at(level, o);
            before@.lemma_next_at(level, o);
            if x == back[level] {
                assert(o == p) by {
                    if o != p {
                        assert(before.order@[o] != before.order@[p]);
                    }
                }
            } else {
                assert(o != p);
            }
            if o != p && i < k && n >= k {
                assert(before@.on_level(level, o));
                if o > p {
                    assert(before@.blocks[o].spec_addr() >= addr);
                    assert(before@.blocks[o].spec_addr() < addr);
                } else {
                    assert(before@.on_level(level, p));
                    assert(n <= p);
                }
                assert(false);
            }
        }
    }

    /// The list is sound again once a new node has been linked in, and its
    /// chain is the old one with the block put in.
    proof fn lemma_inserted_wf(
        before: &Pool,
        after: &Pool,
        block: Block,
        height: nat,
        h: usize,
        back: Seq<usize>,
    )
        requires
            Self::linked_in(before, after, block, height, h, back),
        ensures
            after.wf(),
            after@ == before@.insert(block, height),
    {
        Self::lemma_inserted(before, after, block, height, h, back);
        assert forall|i: int, level: int|
            0 <= i < after.order@.len() && 0 <= level < after.height_at(i) implies #[trigger] after.skips_at(
            i,
            level,
        ) == after@.next_at(level, i) - i - 1 by {
            Self::lemma_inserted_skip(before, after, block, height, h, back, i, level);
        }
    }

    /// Puts `block` into the pool, on a new node that is linked on the lowest
    /// `height` levels, and returns the node's place in the arena.
    ///
    /// The block goes where its address puts it. The pool takes no second
    /// block at an address that it holds, and no node below one level or above
    /// all of them.
    pub fn insert(&mut self, block: Block, height: usize) -> (r: Result<usize, InsertError>)
        requires
            old(self).wf(),
            block.wf(),
        ensures
            final(self).wf(),
            match r {
                Ok(h) => {
                    &&& 1 <= height <= LEVELS
                    &&& !old(self)@.holds(block.spec_addr())
                    &&& final(self)@ == old(self)@.insert(block, height as nat)
                    &&& final(self)@.has(block)
                    &&& final(self)@.holds(block.spec_addr())
                    &&& !old(self).handles().contains(h)
                    &&& final(self).handles() == old(self).handles().insert(
                        old(self)@.rank(block.spec_addr()),
                        h,
                    )
                },
                Err(InsertError::Height) => {
                    &&& !(1 <= height <= LEVELS)
                    &&& *final(self) == *old(self)
                },
                Err(InsertError::Occupied) => {
                    &&& 1 <= height <= LEVELS
                    &&& old(self)@.holds(block.spec_addr())
                    &&& *final(self) == *old(self)
                },
            },
    {
        if height == 0 || height > LEVELS {
            return Err(InsertError::Height);
        }
        let s = BlockSearcher { needle: block };
        let (back_look, ranks, last, _) = self.descend(&s, 0);
        let ghost before = *self;
        let ghost addr = block.spec_addr();
        let ghost k = self@.rank(addr);
        let ghost low = self@.landing(&s, 0);
        proof {
            self.lemma_view();
            self@.lemma_rank(addr);
            self@.lemma_rank_is_landing(&s);
            self@.lemma_landing(&s, 0);
            assert(self@.heights[low] >= 1);
            assert(self.link_at(low, 0) == self.follower(0, low));
            if k < self.order@.len() {
                assert(self@.heights[k] >= 1);
                assert(self@.on_level(0, k));
            }
            assert(self@.next_at(0, low) == k);
        }
        match self.nodes[last].links[0].next {
            Some(n) => {
                if self.nodes[n].block.addr() == block.addr() {
                    proof {
                        assert(self@.blocks[k].spec_addr() == addr);
                    }
                    return Err(InsertError::Occupied);
                }
            },
            None => {},
        }
        proof {
            if self@.holds(addr) {
                let i = choose|i: int|
                    1 <= i < self@.len() && (#[trigger] self@.blocks[i]).spec_addr() == addr;
                if i < k {
                    assert(self@.blocks[i].spec_addr() < addr);
                } else if i > k {
                    assert(self@.blocks[k].spec_addr() < self@.blocks[i].spec_addr());
                }
            }
        }
        let mut links: Vec<Shortcut> = Vec::new();
        let mut level: usize = 0;
        while level < height
            invariant
                self.wf(),
                *self == before,
                level <= height <= LEVELS,
                back_look@.len() == LEVELS,
                forall|l: int|
                    0 <= l < LEVELS ==> back_look@[l] == self.order@[#[trigger] self@.landing(&s, l)],
                s.needle == block,
                addr == block.spec_addr(),
                k == self@.rank(addr),
                ranks@.len() == LEVELS,
                forall|l: int| 0 <= l < LEVELS ==> ranks@[l] == #[trigger] self@.landing(&s, l),
                links@.len() == level,
                forall|l: int|
                    0 <= l < level ==> (#[trigger] links@[l]).next
                        == self.nodes@[back_look@[l] as int].links@[l].next && links@[l].skips
                        == self.nodes@[back_look@[l] as int].links@[l].skips - (self@.landing(&s, 0)
                        - self@.landing(&s, l)),
            decreases height - level,
        {
            proof {
                self.lemma_view();
                let p = self@.landing(&s, level as int);
                let np = self@.next_at(level as int, p);
                self@.lemma_landing(&s, level as int);
                self@.lemma_landing(&s, 0);
                self@.lemma_point_monotone(&s);
                self@.lemma_landing_is_predecessor(&s, level as int);
                self@.lemma_rank(addr);
                self@.lemma_rank_is_landing(&s);
                self@.lemma_next_at(level as int, p);
                assert(self@.heights[0] == LEVELS);
                assert(self@.heights[p] > level);
                assert(self@.heights[p] == self.height_at(p));
                assert(self.skips_at(p, level as int) == np - p - 1);
                assert(p < k) by {
                    if p >= k {
                        assert(self@.blocks[p].spec_addr() >= addr);
                    }
                }
                assert(np >= k) by {
                    if np < k {
                        assert(self@.on_level(level as int, np));
                        assert(self@.blocks[np].spec_addr() < addr);
                    }
                }
            }
            let old: Shortcut = self.nodes[back_look[level]].links[level];
            let between: usize = ranks[0] - ranks[level];
            links.push(Shortcut { next: old.next, skips: old.skips - between });
            level = level + 1;
        }
        let ghost fresh = links@;
        let h: usize = match self.free.pop() {
            Some(h) => {
                self.nodes[h] = Node { block, links };
                h
            },
            None => {
                self.nodes.push(Node { block, links });
                self.nodes.len() - 1
            },
        };
        proof {
            if before.order@.contains(h) {
                let i = choose|i: int| 0 <= i < before.order@.len() && before.order@[i] == h;
                assert(before.order@[i] < before.nodes@.len());
                if before.free@.len() > 0 {
                    assert(before.free@[before.free@.len() - 1] == h);
                }
            }
        }
        level = 0;
        while level < LEVELS
            invariant
                before.wf(),
                level <= LEVELS,
                1 <= height <= LEVELS,
                s.needle == block,
                addr == block.spec_addr(),
                k == before@.rank(addr),
                h <= before.nodes@.len(),
                !before.order@.contains(h),
                self.nodes@.len() == (if h == before.nodes@.len() {
                    h + 1
                } else {
                    before.nodes@.len() as int
                }),
                self.free@.len() == (if h == before.nodes@.len() {
                    before.free@.len() as int
                } else {
                    before.free@.len() - 1
                }),
                forall|f: int|
                    0 <= f < self.free@.len() ==> #[trigger] self.free@[f] == before.free@[f]
                        && self.free@[f] != h,
                self.order@ == before.order@,
                self.nodes@[h as int].block == block,
                self.nodes@[h as int].links@ == fresh,
                fresh.len() == height,
                back_look@.len() == LEVELS,
                ranks@.len() == LEVELS,
                forall|l: int|
                    0 <= l < LEVELS ==> back_look@[l] == before.order@[#[trigger] before@.landing(
                        &s,
                        l,
                    )] && ranks@[l] == before@.landing(&s, l),
                forall|x: int|
                    0 <= x < before.nodes@.len() && x != h ==> (#[trigger] self.nodes@[x]).block
                        == before.nodes@[x].block && self.nodes@[x].links@.len()
                        == before.nodes@[x].links@.len(),
                forall|x: int, l: int|
                    0 <= x < before.nodes@.len() && x != h && 0 <= l
                        < before.nodes@[x].links@.len() ==> #[trigger] self.nodes@[x].links@[l].next == (if l
                        < level && l < height && x == back_look@[l] {
                        Some(h)
                    } else {
                        before.nodes@[x].links@[l].next
                    }),
                forall|x: int, l: int|
                    0 <= x < before.nodes@.len() && x != h && 0 <= l
                        < before.nodes@[x].links@.len() ==> #[trigger] self.nodes@[x].links@[l].skips == (if l
                        < level && x == back_look@[l] {
                        if l < height {
                            before@.landing(&s, 0) - before@.landing(&s, l)
                        } else {
                            before.nodes@[x].links@[l].skips + 1
                        }
                    } else {
                        before.nodes@[x].links@[l].skips as int
                    }),
            decreases LEVELS - level,
        {
            proof {
                before.lemma_view();
                let p = before@.landing(&s, level as int);
                let np = before@.next_at(level as int, p);
                before@.lemma_landing(&s, level as int);
                before@.lemma_landing(&s, 0);
                before@.lemma_point_monotone(&s);
                before@.lemma_landing_is_predecessor(&s, level as int);
                before@.lemma_rank(addr);
                before@.lemma_rank_is_landing(&s);
                before@.lemma_next_at(level as int, p);
                assert(before@.heights[0] == LEVELS);
                assert(before@.heights[p] > level);
                assert(before@.heights[p] == before.height_at(p));
                assert(before.skips_at(p, level as int) == np - p - 1);
                assert(before.order@[p] < before.nodes@.len());
                assert(before.order@.contains(before.order@[p]));
                assert(before.nodes.len() == before.nodes@.len());
                assert(p < k) by {
                    if p >= k {
                        assert(before@.blocks[p].spec_addr() >= addr);
                    }
                }
            }
            let b: usize = back_look[level];
            if level < height {
                self.nodes[b].links[level] = Shortcut { next: Some(h), skips: ranks[0] - ranks[level] };
            } else {
                let passed: usize = self.nodes[b].links[level].skips;
                self.nodes[b].links[level].skips = passed + 1;
            }
            level = level + 1;
        }
        proof {
            self.order@ = before.order@.insert(k, h);
        }
        proof {
            Self::lemma_inserted_wf(&before, self, block, height as nat, h, back_look@);
            before@.lemma_insert_wf(block, height as nat);
            before@.lemma_insert_has(block, height as nat);
        }
        Ok(h)
    }

    /// What taking the node at position `m` out leaves behind: the other
    /// nodes keep their blocks and heights, and each link that led to the node
    /// leads to what the node led to.
    spec fn unlinked(
        before: &Pool,
        after: &Pool,
        s: &BlockSearcher,
        m: int,
        back: Seq<usize>,
    ) -> bool {
        &&& before.wf()
        &&& 1 <= m < before.order@.len()
        &&& before@.blocks[m].spec_addr() == s.needle.spec_addr()
        &&& after.nodes@.len() == before.nodes@.len()
        &&& after.order@ == before.order@.remove(m)
        &&& after.nodes@[before.order@[m] as int].links@.len() == 0
        &&& after.free@ == before.free@.push(before.order@[m])
        &&& back.len() == LEVELS
        &&& forall|l: int|
            0 <= l < LEVELS ==> back[l] == before.order@[#[trigger] before@.back_look(s, l)]
        &&& forall|x: int|
            0 <= x < before.nodes@.len() && x != before.order@[m] ==> (
            #[trigger] after.nodes@[x]).block == before.nodes@[x].block
                && after.nodes@[x].links@.len() == before.nodes@[x].links@.len()
        &&& forall|x: int, l: int|
            0 <= x < before.nodes@.len() && x != before.order@[m] && 0 <= l
                < before.nodes@[x].links@.len() ==> #[trigger] after.nodes@[x].links@[l].next == (if l
                < before.height_at(m) && x == back[l] {
                before.nodes@[before.order@[m] as int].links@[l].next
            } else {
                before.nodes@[x].links@[l].next
            })
        &&& forall|x: int, l: int|
            0 <= x < before.nodes@.len() && x != before.order@[m] && 0 <= l
                < before.nodes@[x].links@.len() ==> #[trigger] after.nodes@[x].links@[l].skips == (if l
                < LEVELS && x == back[l] {
                if l < before.height_at(m) {
                    before.nodes@[x].links@[l].skips + before.nodes@[before.order@[m] as int].links@[l].skips
                } else {
                    before.nodes@[x].links@[l].skips - 1
                }
            } else {
                before.nodes@[x].links@[l].skips as int
            })
    }

    /// After a removal the list names the nodes it named before, but for the
    /// one that left, and its chain is the old one without that position.
    proof fn lemma_removed_order(
        before: &Pool,
        after: &Pool,
        s: &BlockSearcher,
        m: int,
        back: Seq<usize>,
    )
        requires
            Self::unlinked(before, after, s, m, back),
        ensures
            after.order@.len() == before.order@.len() - 1,
            forall|i: int|
                0 <= i < after.order@.len() ==> #[trigger] after.order@[i] == before.order@[if i
                    < m {
                    i
                } else {
                    i + 1
                }] && after.order@[i] != before.order@[m],
            after@ == before@.remove(m),
            after@.wf(),
    {
        let c = before@.remove(m);
        let len = before.order@.len() as int;
        before.lemma_view();
        after.lemma_view();
        before@.lemma_remove_wf(m);
        assert(after.order@.len() == len - 1);
        assert forall|i: int| 0 <= i < len - 1 implies #[trigger] after.order@[i]
            == before.order@[if i < m {
            i
        } else {
            i + 1
        }] && after.order@[i] != before.order@[m] by {
            let o = if i < m {
                i
            } else {
                i + 1
            };
            assert(before.order@[o] != before.order@[m]);
        }
        assert(after@.blocks =~= c.blocks);
        assert(after@.heights =~= c.heights);
        assert(after@ == c);
    }

    /// After a removal no node stands in the list twice, and every node
    /// outside it is without links.
    proof fn lemma_removed_frame(
        before: &Pool,
        after: &Pool,
        s: &BlockSearcher,
        m: int,
        back: Seq<usize>,
    )
        requires
            Self::unlinked(before, after, s, m, back),
        ensures
            forall|i: int, j: int|
                0 <= i < j < after.order@.len() ==> #[trigger] after.order@[i]
                    != #[trigger] after.order@[j],
            forall|i: int| 0 <= i < after.order@.len() ==> #[trigger] after.order@[i] < after.nodes@.len(),
            forall|x: int|
                0 <= x < after.nodes@.len() && !after.order@.contains(x as usize) ==> (
                #[trigger] after.nodes@[x]).links@.len() == 0,
            after.free_ok(),
    {
        let gone = before.order@[m];
        Self::lemma_removed_order(before, after, s, m, back);
        assert(before.order@[m] != before.order@[0]);
        assert(before.order@.contains(gone));
        assert forall|f: int| 0 <= f < after.free@.len() implies 1 <= #[trigger] after.free@[f]
            < after.nodes@.len() && !after.order@.contains(after.free@[f]) by {
            let x = after.free@[f];
            if f < before.free@.len() {
                assert(x == before.free@[f]);
            } else {
                assert(x == gone);
            }
            if after.order@.contains(x) {
                let i = choose|i: int| 0 <= i < after.order@.len() && after.order@[i] == x;
                let o = if i < m {
                    i
                } else {
                    i + 1
                };
                assert(before.order@[o] == x);
                assert(before.order@.contains(x));
            }
        }
        assert forall|f: int, g: int| 0 <= f < g < after.free@.len() implies #[trigger] after.free@[f]
            != #[trigger] after.free@[g] by {
            assert(after.free@[f] == before.free@[f]);
            if g < before.free@.len() {
                assert(after.free@[g] == before.free@[g]);
            } else {
                assert(after.free@[g] == gone);
            }
        }
        assert forall|i: int, j: int| 0 <= i < j < after.order@.len() implies #[trigger] after.order@[i]
            != #[trigger] after.order@[j] by {
            let a = if i < m {
                i
            } else {
                i + 1
            };
            let b = if j < m {
                j
            } else {
                j + 1
            };
            assert(before.order@[a] != before.order@[b]);
        }
        assert forall|x: int|
            0 <= x < after.nodes@.len() && !after.order@.contains(x as usize) implies (
        #[trigger] after.nodes@[x]).links@.len() == 0 by {
            if x != gone {
                if before.order@.contains(x as usize) {
                    let i = choose|i: int|
                        0 <= i < before.order@.len() && before.order@[i] == x as usize;
                    let j = if i < m {
                        i
                    } else {
                        i - 1
                    };
                    assert(before.nodes.len() == before.nodes@.len());
                    assert(i != m);
                    assert(after.order@[j] == before.order@[i]);
                    assert(after.order@.contains(x as usize));
                }
                assert(before.nodes@[x].links@.len() == 0);
            }
        }
    }

    /// After a removal every link leads to the next node of its level.
    proof fn lemma_removed_link(
        before: &Pool,
        after: &Pool,
        s: &BlockSearcher,
        m: int,
        back: Seq<usize>,
        i: int,
        level: int,
    )
        requires
            Self::unlinked(before, after, s, m, back),
            0 <= i < after.order@.len(),
            0 <= level < after.height_at(i),
        ensures
            after.link_at(i, level) == after.follower(level, i),
    {
        let c = before@.remove(m);
        let len = before.order@.len() as int;
        before.lemma_view();
        after.lemma_view();
        Self::lemma_removed_order(before, after, s, m, back);
        before@.lemma_point_found(s, m);
        assert(after@.heights[i] == after.height_at(i));
        assert(1 <= c.heights[i] <= LEVELS);
        before@.lemma_remove_next_at(m, level, i);
        let p = before@.back_look(s, level);
        assert(before@.is_predecessor(s, level, p));
        assert(p < m);
        let o = if i < m {
            i
        } else {
            i + 1
        };
        let x = before.order@[o];
        assert(after.order@[i] == x);
        assert(before@.heights[o] == before.height_at(o));
        assert(before@.heights[m] == before.height_at(m));
        assert(before.link_at(o, level) == before.follower(level, o));
        let n = before@.next_at(level, o);
        before@.lemma_next_at(level, o);
        if x == back[level] {
            assert(o == p) by {
                if o != p {
                    assert(before.order@[o] != before.order@[p]);
                }
            }
        } else {
            assert(o != p);
        }
        if i >= m {
            assert(n > m);
            if n < len {
                assert(after.order@[n - 1] == before.order@[n]);
            }
        } else if n < m {
            if level < before.height_at(m) && o == p {
                assert(before@.on_level(level, n));
                assert(before@.blocks[n].spec_addr() < before@.blocks[m].spec_addr());
                assert(s.spec_refine(before@.blocks[n]));
                assert(false);
            }
            assert(after.order@[n] == before.order@[n]);
        } else if n == m {
            assert(before@.on_level(level, m));
            assert(o == p) by {
                if o > p {
                    assert(before@.on_level(level, o));
                    assert(s.spec_refine(before@.blocks[o]));
                    assert(before@.blocks[o].spec_addr() < before@.blocks[m].spec_addr());
                }
                if o < p {
                    assert(before@.on_level(level, p));
                }
            }
            assert(before.link_at(m, level) == before.follower(level, m));
            let nm = before@.next_at(level, m);
            before@.lemma_next_at(level, m);
            if nm < len {
                assert(after.order@[nm - 1] == before.order@[nm]);
            }
        } else {
            if level < before.height_at(m) {
                assert(before@.on_level(level, m));
                assert(false);
            }
            if n < len {
                assert(after.order@[n - 1] == before.order@[n]);
            }
        }
    }

    /// The list is sound again once the node at position `m` has been taken
    /// out of the links of the nodes before it.
    proof fn lemma_removed(before: &Pool, after: &Pool, s: &BlockSearcher, m: int, back: Seq<usize>)
        requires
            Self::unlinked(before, after, s, m, back),
        ensures
            after.wf(),
            after@ == before@.remove(m),
    {
        Self::lemma_removed_order(before, after, s, m, back);
        Self::lemma_removed_frame(before, after, s, m, back);
        assert forall|i: int, level: int|
            0 <= i < after.order@.len() && 0 <= level < after.height_at(i) implies #[trigger] after.link_at(
            i,
            level,
        ) == after.follower(level, i) by {
            Self::lemma_removed_link(before, after, s, m, back, i, level);
        }
        assert forall|i: int, level: int|
            0 <= i < after.order@.len() && 0 <= level < after.height_at(i) implies #[trigger] after.skips_at(
            i,
            level,
        ) == after@.next_at(level, i) - i - 1 by {
            Self::lemma_removed_skip(before, after, s, m, back, i, level);
        }
    }

    /// After a removal every link counts what it passes over.
    proof fn lemma_removed_skip(
        before: &Pool,
        after: &Pool,
        s: &BlockSearcher,
        m: int,
        back: Seq<usize>,
        i: int,
        level: int,
    )
        requires
            Self::unlinked(before, after, s, m, back),
            0 <= i < after.order@.len(),
            0 <= level < after.height_at(i),
        ensures
            after.skips_at(i, level) == after@.next_at(level, i) - i - 1,
    {
        let c = before@.remove(m);
        let len = before.order@.len() as int;
        before.lemma_view();
        after.lemma_view();
        Self::lemma_removed_order(before, after, s, m, back);
        before@.lemma_point_found(s, m);
        assert(after@.heights[i] == after.height_at(i));
        assert(1 <= c.heights[i] <= LEVELS);
        before@.lemma_remove_next_at(m, level, i);
        let p = before@.back_look(s, level);
        assert(before@.is_predecessor(s, level, p));
        assert(p < m);
        let o = if i < m {
            i
        } else {
            i + 1
        };
        let x = before.order@[o];
        assert(after.order@[i] == x);
        assert(before@.heights[o] == before.height_at(o));
        assert(before@.heights[m] == before.height_at(m));
        assert(before.skips_at(o, level) == before@.next_at(level, o) - o - 1);
        let n = before@.next_at(level, o);
        before@.lemma_next_at(level, o);
        if x == back[level] {
            assert(o == p) by {
                if o != p {
                    assert(before.order@[o] != before.order@[p]);
                }
            }
        } else {
            assert(o != p);
        }
        if i >= m {
            assert(n > m);
        } else if n < m {
            if o == p {
                assert(before@.on_level(level, n));
                assert(before@.blocks[n].spec_addr() < before@.blocks[m].spec_addr());
                assert(s.spec_refine(before@.blocks[n]));
                assert(false);
            }
        } else {
            assert(o == p) by {
                assert(before@.on_level(level, o));
                if o > p {
                    assert(s.spec_refine(before@.blocks[o]));
                    assert(before@.blocks[o].spec_addr() < before@.blocks[m].spec_addr());
                }
                if o < p {
                    assert(before@.on_level(level, p));
                }
            }
            if n == m {
                assert(before@.on_level(level, m));
                assert(before.skips_at(m, level) == before@.next_at(level, m) - m - 1);
                before@.lemma_next_at(level, m);
            } else {
                if level < before.height_at(m) {
                    assert(before@.on_level(level, m));
                    assert(false);
                }
            }
        }
    }

    /// Takes the block that starts where `block` does out of the pool, and
    /// returns it as the pool held it.
    pub fn remove(&mut self, block: &Block) -> (r: Result<Block, SearchMiss>)
        requires
            old(self).wf(),
        ensures
            final(self).wf(),
            r is Ok <==> old(self)@.holds(block.spec_addr()),
            r matches Ok(taken) ==> {
                let m = old(self)@.found(&BlockSearcher { needle: *block });
                &&& 1 <= m < old(self)@.len()
                &&& taken == old(self)@.blocks[m]
                &&& taken.spec_addr() == block.spec_addr()
                &&& final(self)@ == old(self)@.remove(m)
                &&& !final(self)@.holds(block.spec_addr())
                &&& final(self).handles() == old(self).handles().remove(m)
            },
            r is Err ==> *final(self) == *old(self),
    {
        let seek = match self.search(block) {
            Ok(seek) => seek,
            Err(miss) => {
                return Err(miss);
            },
        };
        let ghost before = *self;
        let ghost s = BlockSearcher { needle: *block };
        let ghost m = self@.found(&s);
        let n: usize = seek.node;
        proof {
            self.lemma_view();
            self@.lemma_point_found(&s, m);
            assert(self@.heights[m] == self.height_at(m));
            assert(1 <= self@.heights[m] <= LEVELS);
        }
        let taken: Block = self.nodes[n].block;
        let height: usize = self.nodes[n].links.len();
        let mut level: usize = 0;
        while level < LEVELS
            invariant
                before.wf(),
                1 <= m < before.order@.len(),
                n == before.order@[m],
                level <= LEVELS,
                1 <= height <= LEVELS,
                height == before.height_at(m),
                s.needle.spec_addr() == before@.blocks[m].spec_addr(),
                self.nodes@.len() == before.nodes@.len(),
                self.order@ == before.order@,
                self.free@ == before.free@,
                self.nodes@[n as int] == before.nodes@[n as int],
                seek.back_look@.len() == LEVELS,
                forall|l: int|
                    0 <= l < LEVELS ==> seek.back_look@[l] == before.order@[#[trigger] before@.back_look(
                        &s,
                        l,
                    )] && before@.is_predecessor(&s, l, before@.back_look(&s, l)) && before@.back_look(
                        &s,
                        l,
                    ) < m,
                forall|x: int|
                    0 <= x < before.nodes@.len() ==> (#[trigger] self.nodes@[x]).block
                        == before.nodes@[x].block && self.nodes@[x].links@.len()
                        == before.nodes@[x].links@.len(),
                forall|x: int, l: int|
                    0 <= x < before.nodes@.len() && x != n && 0 <= l < before.nodes@[x].links@.len()
                        ==> #[trigger] self.nodes@[x].links@[l].next == (if l < level && l < height
                        && x == seek.back_look@[l] {
                        before.nodes@[n as int].links@[l].next
                    } else {
                        before.nodes@[x].links@[l].next
                    }),
                forall|x: int, l: int|
                    0 <= x < before.nodes@.len() && x != n && 0 <= l < before.nodes@[x].links@.len()
                        ==> #[trigger] self.nodes@[x].links@[l].skips == (if l < level && x
                        == seek.back_look@[l] {
                        if l < height {
                            before.nodes@[x].links@[l].skips + before.nodes@[n as int].links@[l].skips
                        } else {
                            before.nodes@[x].links@[l].skips - 1
                        }
                    } else {
                        before.nodes@[x].links@[l].skips as int
                    }),
            decreases LEVELS - level,
        {
            proof {
                before.lemma_view();
                let p = before@.back_look(&s, level as int);
                let np = before@.next_at(level as int, p);
                assert(before@.is_predecessor(&s, level as int, p));
                assert(before@.heights[0] == LEVELS);
                assert(before@.heights[p] > level);
                assert(before@.heights[p] == before.height_at(p));
                assert(before@.heights[m] == before.height_at(m));
                assert(before.order@[p] != before.order@[m]);
                assert(before.skips_at(p, level as int) == np - p - 1);
                before@.lemma_next_at(level as int, p);
                assert(np >= m) by {
                    if np < m {
                        assert(before@.on_level(level as int, np));
                        assert(s.spec_refine(before@.blocks[np]));
                        assert(before@.blocks[np].spec_addr() < before@.blocks[m].spec_addr());
                    }
                }
                if level < height {
                    assert(before@.on_level(level as int, m));
                    assert(np == m);
                    assert(before.skips_at(m, level as int) == before@.next_at(level as int, m) - m
                        - 1);
                    before@.lemma_next_at(level as int, m);
                } else {
                    assert(!before@.on_level(level as int, m));
                    assert(np > m);
                }
                assert(before.nodes.len() == before.nodes@.len());
            }
            let b: usize = seek.back_look[level];
            let passed: usize = self.nodes[b].links[level].skips;
            if level < height {
                let gone: Shortcut = self.nodes[n].links[level];
                self.nodes[b].links[level] = Shortcut { next: gone.next, skips: passed + gone.skips };
            } else {
                self.nodes[b].links[level].skips = passed - 1;
            }
            level = level + 1;
        }
        self.nodes[n].links = Vec::new();
        self.free.push(n);
        proof {
            self.order@ = before.order@.remove(m);
        }
        proof {
            Self::lemma_removed(&before, self, &s, m, seek.back_look@);
            before@.lemma_remove_wf(m);
        }
        Ok(taken)
    }

    /// The node that the link of `node` on `level` names, where `node` has
    /// such a link.
    pub closed spec fn spec_next(&self, node: usize, level: int) -> Option<usize> {
        if node < self.nodes@.len() && 0 <= level < self.nodes@[node as int].links@.len() {
            self.nodes@[node as int].links@[level].next
        } else {
            None
        }
    }

    /// The number of nodes that the link of `node` on `level` passes over,
    /// where `node` has such a link.
    pub closed spec fn spec_skips(&self, node: usize, level: int) -> Option<usize> {
        if node < self.nodes@.len() && 0 <= level < self.nodes@[node as int].links@.len() {
            Some(self.nodes@[node as int].links@[level].skips)
        } else {
            None
        }
    }

    /// The link of a node of the list leads to the next node that is as high
    /// as the link's level, and counts the nodes in between; where no node is
    /// that high, it leads nowhere and counts the nodes to the end.
    pub proof fn lemma_next(&self, i: int, level: int)
        requires
            self.wf(),
            0 <= i < self@.len(),
            0 <= level < self@.heights[i],
        ensures
            self.spec_next(self.handles()[i], level) == (if self@.next_at(level, i) < self@.len() {
                Some(self.handles()[self@.next_at(level, i)])
            } else {
                None
            }),
            self.spec_skips(self.handles()[i], level) == Some(
                (self@.next_at(level, i) - i - 1) as usize,
            ),
    {
        self.lemma_view();
        assert(self@.heights[i] == self.height_at(i));
        assert(self.link_at(i, level) == self.follower(level, i));
        assert(self.skips_at(i, level) == self@.next_at(level, i) - i - 1);
    }

    /// The node that the link of `node` on `level` names, where `node` has
    /// such a link.
    pub fn next(&self, node: usize, level: usize) -> (r: Option<usize>)
        ensures
            r == self.spec_next(node, level as int),
    {
        if node < self.nodes.len() && level < self.nodes[node].links.len() {
            self.nodes[node].links[level].next
        } else {
            None
        }
    }

    /// The number of nodes that the link of `node` on `level` passes over,
    /// where `node` has such a link.
    pub fn skips(&self, node: usize, level: usize) -> (r: Option<usize>)
        ensures
            r == self.spec_skips(node, level as int),
    {
        if node < self.nodes.len() && level < self.nodes[node].links.len() {
            Some(self.nodes[node].links[level].skips)
        } else {
            None
        }
    }

    /// The number of blocks in the pool that start below `block`, found in as
    /// few steps as a search takes.
    pub fn rank(&self, block: &Block) -> (r: usize)
        requires
            self.wf(),
        ensures
            r == self@.rank(block.spec_addr()) - 1,
    {
        let s = BlockSearcher { needle: *block };
        let (_, _, _, at) = self.descend(&s, 0);
        proof {
            self.lemma_wf();
            self@.lemma_rank_is_landing(&s);
        }
        at
    }

    /// The block on `node`, where `node` is a node of the list other than
    /// the head.
    pub fn block(&self, node: usize) -> (r: Option<Block>)
        requires
            self.wf(),
        ensures
            match r {
                Some(b) => exists|i: int|
                    1 <= i < self@.len() && #[trigger] self.handles()[i] == node && self@.blocks[i]
                        == b,
                None => forall|i: int| 1 <= i < self@.len() ==> #[trigger] self.handles()[i] != node,
            },
    {
        proof {
            self.lemma_view();
        }
        if node != 0 && node < self.nodes.len() && self.nodes[node].links.len() > 0 {
            proof {
                assert(self.order@.contains(node));
                let i = choose|i: int| 0 <= i < self.order@.len() && self.order@[i] == node;
                assert(self.handles()[i] == node && self@.blocks[i] == self.nodes@[node as int].block);
            }
            Some(self.nodes[node].block)
        } else {
            proof {
                assert forall|i: int| 1 <= i < self@.len() implies #[trigger] self.handles()[i]
                    != node by {
                    assert(self.order@[i] != self.order@[0]);
                    assert(self@.heights[i] >= 1);
                    assert(self@.heights[i] == self.height_at(i));
                }
            }
            None
        }
    }

    /// The number of blocks in the pool.
    pub fn len(&self) -> (r: usize)
        requires
            self.wf(),
        ensures
            r == self@.len() - 1,
    {
        proof {
            self.lemma_view();
        }
        self.nodes.len() - self.free.len() - 1
    }

    /// Whether the pool holds no block.
    pub fn is_empty(&self) -> (r: bool)
        requires
            self.wf(),
        ensures
            r <==> self@.len() == 1,
    {
        proof {
            self.lemma_view();
            assert(self@.heights[0] == LEVELS);
            assert(self.link_at(0, 0) == self.follower(0, 0));
            self@.lemma_next_at(0, 0);
            if self@.len() > 1 {
                assert(self@.heights[1] >= 1);
                assert(self@.on_level(0, 1));
            }
        }
        self.nodes[0].links[0].next.is_none()
    }

    /// The blocks of the pool, in order of address.
    pub fn blocks(&self) -> (r: Vec<Block>)
        requires
            self.wf(),
        ensures
            r@ == self@.blocks.skip(1),
    {
        let mut r: Vec<Block> = Vec::new();
        let mut cur: usize = 0;
        let ghost mut pos: int = 0;
        proof {
            self.lemma_view();
        }
        loop
            invariant
                self.wf(),
                0 <= pos < self.order@.len(),
                cur == self.order@[pos],
                r@ == self@.blocks.subrange(1, pos + 1),
            decreases self.order@.len() - pos,
        {
            proof {
                self.lemma_view();
                assert(self@.heights[pos] >= 1);
                assert(self@.heights[pos] == self.height_at(pos));
                assert(self.link_at(pos, 0) == self.follower(0, pos));
                if pos + 1 < self.order@.len() {
                    assert(self@.heights[pos + 1] >= 1);
                    assert(self@.on_level(0, pos + 1));
                }
                assert(self@.next_at(0, pos) == pos + 1);
            }
            match self.nodes[cur].links[0].next {
                Some(n) => {
                    r.push(self.nodes[n].block);
                    cur = n;
                    proof {
                        pos = pos + 1;
                        assert(r@ =~= self@.blocks.subrange(1, pos + 1));
                    }
                },
                None => {
                    proof {
                        assert(r@ =~= self@.blocks.skip(1));
                    }
                    return r;
                },
            }
        }
    }

    /// The node that `steps` hops along the links of `level` lead to from the
    /// head, where the links lead that far.
    pub open spec fn walk(&self, level: int, steps: nat) -> Option<usize>
        decreases steps,
    {
        if steps == 0 {
            Some(0usize)
        } else {
            match self.walk(level, (steps - 1) as nat) {
                Some(x) => self.spec_next(x, level),
                None => None,
            }
        }
    }

    /// Whether the links of `level` lead from the head to `node`.
    pub open spec fn reachable(&self, level: int, node: usize) -> bool {
        exists|steps: nat| self.walk(level, steps) == Some(node)
    }

    /// The links of a level lead from the head through the nodes of that
    /// level, one by one and in list order.
    pub proof fn lemma_walk(&self, level: int, steps: nat)
        requires
            self.wf(),
            0 <= level < LEVELS,
        ensures
            self.walk(level, steps) == (if self@.nth_on(level, steps) < self@.len() {
                Some(self.handles()[self@.nth_on(level, steps)])
            } else {
                None
            }),
        decreases steps,
    {
        self.lemma_view();
        if steps > 0 {
            let before = (steps - 1) as nat;
            self.lemma_walk(level, before);
            self@.lemma_nth_on(level, before);
            let p = self@.nth_on(level, before);
            if p < self@.len() {
                assert(self@.heights[0] == LEVELS);
                assert(self@.heights[p] == self.height_at(p));
                assert(self.link_at(p, level) == self.follower(level, p));
            }
        }
    }

    /// The links of a level lead to exactly the head and the nodes of the
    /// list that are as high as the level.
    pub proof fn lemma_reachable(&self, level: int, node: usize)
        requires
            self.wf(),
            0 <= level < LEVELS,
        ensures
            self.reachable(level, node) <==> exists|i: int|
                0 <= i < self@.len() && #[trigger] self.handles()[i] == node && (i == 0
                    || self@.heights[i] > level),
    {
        self.lemma_view();
        if self.reachable(level, node) {
            let steps = choose|steps: nat| self.walk(level, steps) == Some(node);
            self.lemma_walk(level, steps);
            self@.lemma_nth_on(level, steps);
            let i = self@.nth_on(level, steps);
            assert(self.handles()[i] == node);
            assert(i == 0 || self@.on_level(level, i)) by {
                if steps == 0 {
                    assert(i == 0);
                }
            }
        }
        if exists|i: int|
            0 <= i < self@.len() && #[trigger] self.handles()[i] == node && (i == 0
                || self@.heights[i] > level) {
            let i = choose|i: int|
                0 <= i < self@.len() && #[trigger] self.handles()[i] == node && (i == 0
                    || self@.heights[i] > level);
            let k = self@.lemma_on_level_is_nth(level, i);
            self.lemma_walk(level, k);
            assert(self.walk(level, k) == Some(node));
        }
    }

    /// Each level is part of the level below it: a node that the links of a
    /// level lead to is one that the links of the next lower level lead to.
    pub proof fn lemma_levels_nest(&self, level: int, node: usize)
        requires
            self.wf(),
            0 < level < LEVELS,
            self.reachable(level, node),
        ensures
            self.reachable(level - 1, node),
    {
        self.lemma_reachable(level, node);
        self.lemma_reachable(level - 1, node);
        let i = choose|i: int|
            0 <= i < self@.len() && #[trigger] self.handles()[i] == node && (i == 0
                || self@.heights[i] > level);
        assert(self.handles()[i] == node && (i == 0 || self@.heights[i] > level - 1));
    }
}

} // verus!
