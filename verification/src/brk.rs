//! The break arbiter: a cached view of the program break, and the rules for
//! moving it.
//!
//! The system's part is behind [`Shim`]. Nothing is assumed of what a shim
//! answers: every rule here is stated for whatever it reports.

use crate::block::{lemma_padding, padding, Block};
use vstd::prelude::*;

verus! {

/// The system declined to move the break, or the move cannot be expressed.
#[derive(Clone, Copy, Debug, PartialEq, Eq, Structural)]
pub struct BrkFailure;

/// Why a block was not given back to the system. Either way the block is
/// handed back, still free and still the caller's.
#[derive(Clone, Copy, Debug, PartialEq, Eq, Structural)]
pub enum ReleaseError {
    /// The block does not end at the break.
    Rejected(Block),
    /// The block ends at the break, and the system would not shrink it.
    ShrinkFailed(Block),
}

/// The system's side of the arbiter.
pub trait Shim {
    /// Reports the program break without moving it.
    fn current_break(&mut self) -> usize;

    /// Asks for the break to be put at `new_break` and reports the break as it
    /// was before. A system that declines hands `new_break` back.
    fn request_break(&mut self, new_break: usize) -> usize;

    /// The headroom to ask for on top of a request of `size` bytes.
    fn extra_slack(&self, size: usize) -> usize;
}

/// The last known program break, if it was ever asked for.
#[derive(Clone, Copy, Debug, PartialEq, Eq, Structural)]
pub struct BrkState {
    current_brk: Option<usize>,
}

/// The address `delta` bytes from `cur`, where there is one.
pub open spec fn target(cur: usize, delta: isize) -> Option<usize> {
    if 0 <= cur + delta <= usize::MAX {
        Some((cur + delta) as usize)
    } else {
        None
    }
}

/// A request that was meant to move the break is refused when the system
/// reports the very address that was asked for.
pub open spec fn refused(expected: usize, reported: usize, moves: bool) -> bool {
    moves && expected == reported
}

/// How a request to put the break at `expected` ends, given the system's
/// report: a refused one fails and leaves the cache as it was; any other
/// returns the report and caches `expected`.
pub open spec fn settles(
    expected: usize,
    reported: usize,
    moves: bool,
    before: Option<usize>,
    r: Result<usize, BrkFailure>,
    after: Option<usize>,
) -> bool {
    if refused(expected, reported, moves) {
        r == Err::<usize, BrkFailure>(BrkFailure) && after == before
    } else {
        r == Ok::<usize, BrkFailure>(reported) && after == Some(expected)
    }
}

/// What a move by `delta` from `cur` returns, given the system's report.
pub open spec fn sbrk_result(cur: usize, delta: isize, reported: usize) -> Result<
    usize,
    BrkFailure,
> {
    match target(cur, delta) {
        Some(expected) => if refused(expected, reported, delta != 0) {
            Err(BrkFailure)
        } else {
            Ok(reported)
        },
        None => Err(BrkFailure),
    }
}

/// The break that the cache holds after a move by `delta` from `cur`, given
/// the system's report.
pub open spec fn sbrk_cache(cur: usize, delta: isize, reported: usize) -> usize {
    match target(cur, delta) {
        Some(expected) => if refused(expected, reported, delta != 0) {
            cur
        } else {
            expected
        },
        None => cur,
    }
}

/// The size to ask the system for, to be sure of `size` aligned bytes: the
/// size, the headroom and the alignment together, where that is a distance the
/// break can be moved by.
pub open spec fn canonical_size(size: usize, align: usize, extra: usize) -> Option<usize> {
    if size + extra + align <= isize::MAX {
        Some((size + extra + align) as usize)
    } else {
        None
    }
}

/// The three parts that `n` fresh bytes at `base` are cut into for a request
/// of `size` bytes aligned to `align`: the bytes up to the first multiple of
/// `align`, then `size` bytes, then the rest.
pub open spec fn carved(
    base: usize,
    n: usize,
    size: usize,
    align: usize,
    parts: (Block, Block, Block),
) -> bool {
    let pad = padding(base as int, align as int);
    &&& parts.0.spec_addr() == base
    &&& parts.0.spec_size() == pad
    &&& parts.1.spec_addr() == base + pad
    &&& parts.1.spec_size() == size
    &&& parts.2.spec_addr() == base + pad + size
    &&& parts.2.spec_size() == n - pad - size
}

/// What giving `block` back returns, where the break is at `cur` and the
/// system answers the request to shrink with `reported`.
pub open spec fn release_result(block: Block, cur: usize, reported: usize) -> Result<
    (),
    ReleaseError,
> {
    if block.spec_end() != cur {
        Err(ReleaseError::Rejected(block))
    } else if refused(block.spec_addr(), reported, block.spec_size() != 0) {
        Err(ReleaseError::ShrinkFailed(block))
    } else {
        Ok(())
    }
}

/// The break that the cache holds after `block` was offered back: the block's
/// base where it was taken, the break as it was before where it was not.
pub open spec fn release_cache(block: Block, cur: usize, reported: usize) -> usize {
    if release_result(block, cur, reported) is Ok {
        block.spec_addr()
    } else {
        cur
    }
}

/// How a canonical request ends, for a break at `cur`, a headroom of `extra`
/// and a system that answers with `reported`.
///
/// It fails where the size to ask for is no distance the break can move by,
/// where the move fails, or where the reported break leaves no room for that
/// size below the top of the address space. Otherwise it returns the fresh
/// bytes in three parts.
pub open spec fn canonical_outcome(
    before: Option<usize>,
    cur: usize,
    size: usize,
    align: usize,
    extra: usize,
    reported: usize,
    r: Result<(Block, Block, Block), BrkFailure>,
    after: Option<usize>,
) -> bool {
    match canonical_size(size, align, extra) {
        None => r is Err && after == before,
        Some(n) => {
            &&& after == Some(sbrk_cache(cur, n as isize, reported))
            &&& match sbrk_result(cur, n as isize, reported) {
                Err(_) => r is Err,
                Ok(base) => if base + n <= usize::MAX {
                    r matches Ok(parts) && carved(base, n, size, align, parts)
                } else {
                    r is Err
                },
            }
        },
    }
}

/// The parts of a canonical request lie one after the other without a gap,
/// the middle one starts on a multiple of the alignment, and together they
/// hold every byte that was asked for.
pub proof fn lemma_carved(
    base: usize,
    n: usize,
    size: usize,
    align: usize,
    parts: (Block, Block, Block),
)
    requires
        align > 0,
        padding(base as int, align as int) + size <= n,
        base + n <= usize::MAX,
        carved(base, n, size, align, parts),
    ensures
        parts.0.wf() && parts.1.wf() && parts.2.wf(),
        parts.0.spec_addr() <= parts.1.spec_addr() <= parts.2.spec_addr(),
        parts.0.spec_end() == parts.1.spec_addr(),
        parts.1.spec_end() == parts.2.spec_addr(),
        parts.2.spec_end() == base + n,
        parts.1.spec_aligned_to(align),
        parts.0.spec_size() < align,
        parts.0.spec_size() + parts.1.spec_size() + parts.2.spec_size() == n,
{
    lemma_padding(base as int, align as int);
}

/// A move by nothing is never refused: it returns what the system reports and
/// leaves the cache where it was.
pub proof fn lemma_sbrk_zero(cur: usize, reported: usize)
    ensures
        sbrk_result(cur, 0, reported) == Ok::<usize, BrkFailure>(reported),
        sbrk_cache(cur, 0, reported) == cur,
{
}

/// Giving back a block that ends at the break is a move of the break down by
/// exactly the block's size: it succeeds where that move does, and leaves the
/// break where that move leaves it, at the block's base.
pub proof fn lemma_release_is_sbrk(block: Block, cur: usize, reported: usize)
    requires
        block.wf(),
        block.spec_end() == cur,
        block.spec_size() <= isize::MAX,
    ensures
        target(cur, (-block.spec_size()) as isize) == Some(block.spec_addr()),
        release_result(block, cur, reported) is Ok <==> sbrk_result(
            cur,
            (-block.spec_size()) as isize,
            reported,
        ) is Ok,
        release_cache(block, cur, reported) == sbrk_cache(
            cur,
            (-block.spec_size()) as isize,
            reported,
        ),
        release_result(block, cur, reported) is Ok ==> release_cache(block, cur, reported) == cur
            - block.spec_size(),
{
}

/// Computes `target`.
pub fn sbrk_target(cur: usize, delta: isize) -> (r: Option<usize>)
    ensures
        r == target(cur, delta),
{
    if delta >= 0 {
        let up: usize = delta as usize;
        if up <= usize::MAX - cur {
            Some(cur + up)
        } else {
            None
        }
    } else {
        // The magnitude of a negative delta, without leaving `isize`.
        let down: usize = ((-(delta + 1)) as usize) + 1;
        if down <= cur {
            Some(cur - down)
        } else {
            None
        }
    }
}

/// Computes `canonical_size`.
pub fn canonical_request(size: usize, align: usize, extra: usize) -> (r: Option<usize>)
    ensures
        r == canonical_size(size, align, extra),
{
    let limit: usize = isize::MAX as usize;
    if size > limit {
        return None;
    }
    if extra > limit - size {
        return None;
    }
    if align > limit - size - extra {
        return None;
    }
    Some(size + extra + align)
}

/// Cuts freshly broken space into the bytes that align the result, the result
/// of exactly `size` bytes, and what is left over.
pub fn carve(raw: Block, size: usize, align: usize) -> (r: (Block, Block, Block))
    requires
        raw.wf(),
        align > 0,
        padding(raw.spec_addr() as int, align as int) + size <= raw.spec_size(),
    ensures
        carved(raw.spec_addr(), raw.spec_size(), size, align, r),
        r.0.wf() && r.1.wf() && r.2.wf(),
        r.0.spec_end() == r.1.spec_addr(),
        r.1.spec_end() == r.2.spec_addr(),
        r.1.spec_aligned_to(align),
        r.0.spec_size() + r.1.spec_size() + r.2.spec_size() == raw.spec_size(),
{
    proof {
        lemma_padding(raw.spec_addr() as int, align as int);
    }
    let (precursor, rest) = raw.split(raw.aligner(align));
    let (res, excessive) = rest.split(size);
    (precursor, res, excessive)
}

impl BrkState {
    /// The cached break.
    pub closed spec fn spec_cached(&self) -> Option<usize> {
        self.current_brk
    }

    /// A cache that holds nothing yet.
    pub fn new() -> (r: BrkState)
        ensures
            r.spec_cached() is None,
    {
        BrkState { current_brk: None }
    }

    /// The cached break.
    #[verifier::when_used_as_spec(spec_cached)]
    pub fn cached(&self) -> (r: Option<usize>)
        ensures
            r == self.spec_cached(),
    {
        self.current_brk
    }

    /// Takes note of the break that the system reported, unless one is
    /// cached already, and returns the cached break.
    pub fn remember(&mut self, reported: usize) -> (r: usize)
        ensures
            final(self).spec_cached() == Some(r),
            r == match old(self).spec_cached() {
                Some(c) => c,
                None => reported,
            },
    {
        match self.current_brk {
            Some(c) => c,
            None => {
                self.current_brk = Some(reported);
                reported
            },
        }
    }

    /// Settles a request to put the break at `expected`, given what the system
    /// reported. A refused request leaves the cache alone; any other is taken
    /// to have moved the break, and returns the report.
    pub fn settle(&mut self, expected: usize, reported: usize, moves: bool) -> (r: Result<
        usize,
        BrkFailure,
    >)
        ensures
            refused(expected, reported, moves) ==> r == Err::<usize, BrkFailure>(BrkFailure)
                && *final(self) == *old(self),
            !refused(expected, reported, moves) ==> r == Ok::<usize, BrkFailure>(reported)
                && final(self).spec_cached() == Some(expected),
    {
        if expected == reported && moves {
            Err(BrkFailure)
        } else {
            self.current_brk = Some(expected);
            Ok(reported)
        }
    }
}

/// The arbiter at rest: the cache and the shim, with nobody moving the break.
pub struct Brk<S: Shim> {
    state: BrkState,
    shim: S,
}

/// The arbiter in one holder's hands. All moves of the break go through it,
/// one after the other; `unlock` gives the arbiter back.
pub struct BrkLock<S: Shim> {
    state: BrkState,
    shim: S,
}

impl<S: Shim> Brk<S> {
    /// The cached break.
    pub closed spec fn spec_cached(&self) -> Option<usize> {
        self.state.spec_cached()
    }

    /// The shim.
    pub closed spec fn spec_shim(&self) -> S {
        self.shim
    }

    /// An arbiter over `shim` that has not asked for the break yet.
    pub fn new(shim: S) -> (r: Brk<S>)
        ensures
            r.spec_cached() is None,
            r.spec_shim() == shim,
    {
        Brk { state: BrkState::new(), shim }
    }

    /// The cached break.
    #[verifier::when_used_as_spec(spec_cached)]
    pub fn cached(&self) -> (r: Option<usize>)
        ensures
            r == self.spec_cached(),
    {
        self.state.cached()
    }

    /// The shim.
    pub fn shim(&self) -> (r: &S)
        ensures
            *r == self.spec_shim(),
    {
        &self.shim
    }
}

/// Takes the arbiter for one holder.
pub fn lock<S: Shim>(brk: Brk<S>) -> (r: BrkLock<S>)
    ensures
        r.spec_cached() == brk.spec_cached(),
        r.spec_shim() == brk.spec_shim(),
{
    BrkLock { state: brk.state, shim: brk.shim }
}

/// Moves the break by `size` bytes under a lock of its own, and returns the
/// break as the system reported it, or the highest address where the move
/// failed.
pub fn sbrk<S: Shim>(brk: Brk<S>, size: isize) -> (r: (Brk<S>, usize))
    ensures
        exists|cur: usize, reported: usize|
            {
                &&& brk.spec_cached() matches Some(c) ==> cur == c
                &&& r.0.spec_cached() == Some(#[trigger] sbrk_cache(cur, size, reported))
                &&& r.1 == match sbrk_result(cur, size, reported) {
                    Ok(p) => p,
                    Err(_) => usize::MAX,
                }
            },
{
    let mut held = lock(brk);
    let moved = held.sbrk(size);
    let at: usize = match moved {
        Ok(p) => p,
        Err(_) => usize::MAX,
    };
    (held.unlock(), at)
}

impl<S: Shim> BrkLock<S> {
    /// The cached break.
    pub closed spec fn spec_cached(&self) -> Option<usize> {
        self.state.spec_cached()
    }

    /// The shim.
    pub closed spec fn spec_shim(&self) -> S {
        self.shim
    }

    /// The cached break.
    #[verifier::when_used_as_spec(spec_cached)]
    pub fn cached(&self) -> (r: Option<usize>)
        ensures
            r == self.spec_cached(),
    {
        self.state.cached()
    }

    /// The shim.
    pub fn shim(&self) -> (r: &S)
        ensures
            *r == self.spec_shim(),
    {
        &self.shim
    }

    /// Gives the arbiter back.
    pub fn unlock(self) -> (r: Brk<S>)
        ensures
            r.spec_cached() == self.spec_cached(),
            r.spec_shim() == self.spec_shim(),
    {
        Brk { state: self.state, shim: self.shim }
    }

    /// The current break: the cached one, or else what the system reports,
    /// which is then cached.
    pub fn current_brk(&mut self) -> (r: usize)
        ensures
            final(self).spec_cached() == Some(r),
            old(self).spec_cached() matches Some(c) ==> r == c && *final(self) == *old(self),
    {
        match self.state.cached() {
            Some(c) => c,
            None => {
                let reported: usize = self.shim.current_break();
                self.state.remember(reported)
            },
        }
    }

    /// Asks the system to put the break at `expected` and settles the answer.
    fn move_to(&mut self, expected: usize, moves: bool) -> (r: Result<usize, BrkFailure>)
        ensures
            exists|reported: usize| #[trigger]
                settles(
                    expected,
                    reported,
                    moves,
                    old(self).spec_cached(),
                    r,
                    final(self).spec_cached(),
                ),
    {
        let ghost before = self.spec_cached();
        let reported: usize = self.shim.request_break(expected);
        let r = self.state.settle(expected, reported, moves);
        proof {
            assert(settles(expected, reported, moves, before, r, self.spec_cached()));
        }
        r
    }

    /// Moves the break by `size` bytes: up where `size` is positive, down
    /// where it is negative. Returns the break as the system reported it.
    ///
    /// Fails, with the cache as it was (but for the break now being known),
    /// where the system refuses or where the break would leave the address
    /// space. A move by nothing never fails.
    pub fn sbrk(&mut self, size: isize) -> (r: Result<usize, BrkFailure>)
        ensures
            size == 0 ==> r is Ok,
            exists|cur: usize, reported: usize|
                {
                    &&& old(self).spec_cached() matches Some(c) ==> cur == c
                    &&& r == #[trigger] sbrk_result(cur, size, reported)
                    &&& final(self).spec_cached() == Some(sbrk_cache(cur, size, reported))
                },
    {
        let cur: usize = self.current_brk();
        match sbrk_target(cur, size) {
            Some(expected) => {
                let ghost before = self.spec_cached();
                let moves: bool = size != 0;
                let r = self.move_to(expected, moves);
                proof {
                    let reported = choose|reported: usize| #[trigger]
                        settles(expected, reported, moves, before, r, self.spec_cached());
                    assert(r == sbrk_result(cur, size, reported));
                    assert(self.spec_cached() == Some(sbrk_cache(cur, size, reported)));
                }
                r
            },
            None => {
                proof {
                    assert(Err::<usize, BrkFailure>(BrkFailure) == sbrk_result(cur, size, 0));
                    assert(self.spec_cached() == Some(sbrk_cache(cur, size, 0)));
                }
                Err(BrkFailure)
            },
        }
    }

    /// Gives `block` back to the system where it ends at the break, by moving
    /// the break down to the block's base. A block that lies elsewhere, or
    /// that the system will not take, comes back in the error.
    pub fn release(&mut self, block: Block) -> (r: Result<(), ReleaseError>)
        requires
            block.wf(),
        ensures
            exists|cur: usize, reported: usize|
                {
                    &&& old(self).spec_cached() matches Some(c) ==> cur == c
                    &&& r == #[trigger] release_result(block, cur, reported)
                    &&& final(self).spec_cached() == Some(release_cache(block, cur, reported))
                },
    {
        let cur: usize = self.current_brk();
        if block.end() == cur {
            let ghost before = self.spec_cached();
            let moves: bool = !block.is_empty();
            let moved = self.move_to(block.addr(), moves);
            proof {
                let reported = choose|reported: usize| #[trigger]
                    settles(block.spec_addr(), reported, moves, before, moved, self.spec_cached());
                assert(moved is Ok <==> release_result(block, cur, reported) is Ok);
                assert(self.spec_cached() == Some(release_cache(block, cur, reported)));
            }
            match moved {
                Ok(_) => Ok(()),
                Err(_) => Err(ReleaseError::ShrinkFailed(block)),
            }
        } else {
            proof {
                assert(release_result(block, cur, 0) == Err::<(), ReleaseError>(
                    ReleaseError::Rejected(block),
                ));
                assert(self.spec_cached() == Some(release_cache(block, cur, 0)));
            }
            Err(ReleaseError::Rejected(block))
        }
    }

    /// Breaks new space for `size` bytes aligned to `align`.
    ///
    /// The first block holds the bytes that align the second; the second is
    /// the result, of exactly `size` bytes; the third is the space left over.
    pub fn canonical_brk(&mut self, size: usize, align: usize) -> (r: Result<
        (Block, Block, Block),
        BrkFailure,
    >)
        requires
            align > 0,
        ensures
            exists|cur: usize, extra: usize, reported: usize|
                {
                    &&& old(self).spec_cached() matches Some(c) ==> cur == c
                    &&& #[trigger] canonical_outcome(
                        old(self).spec_cached(),
                        cur,
                        size,
                        align,
                        extra,
                        reported,
                        r,
                        final(self).spec_cached(),
                    )
                },
            r matches Ok(parts) ==> {
                &&& parts.0.wf() && parts.1.wf() && parts.2.wf()
                &&& parts.0.spec_end() == parts.1.spec_addr()
                &&& parts.1.spec_end() == parts.2.spec_addr()
                &&& parts.1.spec_size() == size
                &&& parts.1.spec_aligned_to(align)
                &&& parts.0.spec_size() < align
                &&& parts.0.spec_size() + parts.1.spec_size() + parts.2.spec_size() >= size + align
            },
    {
        let ghost before = self.spec_cached();
        let extra: usize = self.shim.extra_slack(size);
        match canonical_request(size, align, extra) {
            None => {
                proof {
                    let cur: usize = match before {
                        Some(c) => c,
                        None => 0,
                    };
                    assert(canonical_outcome(
                        before,
                        cur,
                        size,
                        align,
                        extra,
                        0,
                        Err(BrkFailure),
                        self.spec_cached(),
                    ));
                }
                Err(BrkFailure)
            },
            Some(n) => {
                let delta: isize = n as isize;
                let moved = self.sbrk(delta);
                let ghost (cur, reported) = choose|cur: usize, reported: usize|
                    {
                        &&& before matches Some(c) ==> cur == c
                        &&& moved == #[trigger] sbrk_result(cur, delta, reported)
                        &&& self.spec_cached() == Some(sbrk_cache(cur, delta, reported))
                    };
                let r = match moved {
                    Err(e) => Err(e),
                    Ok(base) => match Block::from_raw_parts(base, n) {
                        None => Err(BrkFailure),
                        Some(raw) => {
                            let parts = carve(raw, size, align);
                            proof {
                                lemma_carved(base, n, size, align, parts);
                            }
                            Ok(parts)
                        },
                    },
                };
                proof {
                    assert(canonical_outcome(
                        before,
                        cur,
                        size,
                        align,
                        extra,
                        reported,
                        r,
                        self.spec_cached(),
                    ));
                }
                r
            },
        }
    }
}

} // verus!
