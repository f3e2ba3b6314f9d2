//! Blocks: contiguous ranges of free memory, held by value.

use vstd::prelude::*;

verus! {

/// A contiguous range of memory: a base address and a length in bytes.
///
/// A block of length zero is a valid, empty placeholder at its address.
#[derive(Clone, Copy, Debug, PartialEq, Eq, Structural)]
pub struct Block {
    addr: usize,
    size: usize,
}

/// Whether `addr` is a multiple of `align`.
pub open spec fn is_aligned(addr: int, align: int) -> bool
    recommends
        align > 0,
{
    addr % align == 0
}

/// The number of bytes between `addr` and the first address at or after it
/// that is a multiple of `align`.
pub open spec fn padding(addr: int, align: int) -> int
    recommends
        addr >= 0,
        align > 0,
{
    (align - addr % align) % align
}

/// `padding` is below the alignment, lands on a multiple of it, and no smaller
/// distance does.
pub proof fn lemma_padding(addr: int, align: int)
    requires
        addr >= 0,
        align > 0,
    ensures
        0 <= padding(addr, align) < align,
        is_aligned(addr + padding(addr, align), align),
        forall|k: int| 0 <= k < padding(addr, align) ==> !#[trigger] is_aligned(addr + k, align),
{
    let r = addr % align;
    let p = padding(addr, align);
    assert(0 <= r < align);
    if r == 0 {
        assert(p == 0) by (nonlinear_arith)
            requires
                p == (align - 0) % align,
                align > 0,
        ;
    } else {
        assert(p == align - r) by (nonlinear_arith)
            requires
                p == (align - r) % align,
                0 < r < align,
        ;
        assert((addr + p) % align == 0) by (nonlinear_arith)
            requires
                r == addr % align,
                p == align - r,
                align > 0,
        ;
        assert forall|k: int| 0 <= k < p implies !#[trigger] is_aligned(addr + k, align) by {
            assert((addr + k) % align == r + k) by (nonlinear_arith)
                requires
                    r == addr % align,
                    0 <= k < align - r,
                    0 < r < align,
            ;
        }
    }
}

impl Block {
    /// The base address.
    pub closed spec fn spec_addr(&self) -> usize {
        self.addr
    }

    /// The length in bytes.
    pub closed spec fn spec_size(&self) -> usize {
        self.size
    }

    /// The address one past the last byte.
    pub open spec fn spec_end(&self) -> int {
        self.spec_addr() + self.spec_size()
    }

    /// A block is well formed when its end is an address too.
    pub open spec fn wf(&self) -> bool {
        self.spec_end() <= usize::MAX
    }

    /// Whether the base address is a multiple of `align`.
    pub open spec fn spec_aligned_to(&self, align: usize) -> bool {
        is_aligned(self.spec_addr() as int, align as int)
    }

    /// Whether `self` ends exactly where `to` begins.
    pub open spec fn spec_left_to(&self, to: Block) -> bool {
        self.spec_end() == to.spec_addr()
    }

    /// Two blocks with the same base and length are the same block.
    pub proof fn lemma_same(self, other: Block)
        requires
            self.spec_addr() == other.spec_addr(),
            self.spec_size() == other.spec_size(),
        ensures
            self == other,
    {
    }

    /// The block of `size` bytes at `addr`, where that range ends within the
    /// address space.
    pub fn from_raw_parts(addr: usize, size: usize) -> (r: Option<Block>)
        ensures
            r is Some <==> addr + size <= usize::MAX,
            r matches Some(b) ==> b.wf() && b.spec_addr() == addr && b.spec_size() == size,
    {
        if size <= usize::MAX - addr {
            Some(Block { addr, size })
        } else {
            None
        }
    }

    /// The empty block at `addr`.
    pub fn empty(addr: usize) -> (r: Block)
        ensures
            r.wf(),
            r.spec_addr() == addr,
            r.spec_size() == 0,
    {
        Block { addr, size: 0 }
    }

    /// The base address.
    #[verifier::when_used_as_spec(spec_addr)]
    pub fn addr(&self) -> (r: usize)
        ensures
            r == self.spec_addr(),
    {
        self.addr
    }

    /// The length in bytes.
    #[verifier::when_used_as_spec(spec_size)]
    pub fn size(&self) -> (r: usize)
        ensures
            r == self.spec_size(),
    {
        self.size
    }

    /// The address one past the last byte.
    pub fn end(&self) -> (r: usize)
        requires
            self.wf(),
        ensures
            r == self.spec_end(),
    {
        self.addr + self.size
    }

    /// Whether the block holds no byte.
    pub fn is_empty(&self) -> (r: bool)
        ensures
            r <==> self.spec_size() == 0,
    {
        self.size == 0
    }

    /// The empty block at this block's base.
    pub fn empty_left(&self) -> (r: Block)
        ensures
            r.wf(),
            r.spec_addr() == self.spec_addr(),
            r.spec_size() == 0,
    {
        Block { addr: self.addr, size: 0 }
    }

    /// The empty block at this block's end.
    pub fn empty_right(&self) -> (r: Block)
        requires
            self.wf(),
        ensures
            r.wf(),
            r.spec_addr() == self.spec_end(),
            r.spec_size() == 0,
    {
        Block { addr: self.addr + self.size, size: 0 }
    }

    /// Whether the base address is a multiple of `align`.
    pub fn aligned_to(&self, align: usize) -> (r: bool)
        requires
            align > 0,
        ensures
            r == self.spec_aligned_to(align),
    {
        self.addr % align == 0
    }

    /// Whether `self` ends exactly where `to` begins.
    pub fn left_to(&self, to: &Block) -> (r: bool)
        requires
            self.wf(),
        ensures
            r == self.spec_left_to(*to),
    {
        self.addr + self.size == to.addr
    }

    /// Takes `other` into `self` when it starts where `self` ends; hands it
    /// back otherwise.
    pub fn merge_right(&mut self, other: Block) -> (r: Result<(), Block>)
        requires
            old(self).wf(),
            other.wf(),
        ensures
            old(self).spec_left_to(other) ==> r is Ok && final(self).wf() && final(self).spec_addr()
                == old(self).spec_addr() && final(self).spec_size() == old(self).spec_size()
                + other.spec_size(),
            !old(self).spec_left_to(other) ==> r == Err::<(), Block>(other) && *final(self) == *old(
                self,
            ),
    {
        if self.addr + self.size == other.addr {
            self.size = self.size + other.size;
            Ok(())
        } else {
            Err(other)
        }
    }

    /// Cuts the block at `pos` bytes from its base: the first part holds the
    /// `pos` bytes below the cut, the second the rest.
    pub fn split(self, pos: usize) -> (r: (Block, Block))
        requires
            self.wf(),
            pos <= self.spec_size(),
        ensures
            r.0.wf(),
            r.1.wf(),
            r.0.spec_addr() == self.spec_addr(),
            r.0.spec_size() == pos,
            r.1.spec_addr() == self.spec_addr() + pos,
            r.1.spec_size() == self.spec_size() - pos,
    {
        (Block { addr: self.addr, size: pos }, Block { addr: self.addr + pos, size: self.size - pos })
    }

    /// The number of bytes from the base to the first multiple of `align`.
    pub fn aligner(&self, align: usize) -> (r: usize)
        requires
            align > 0,
        ensures
            r == padding(self.spec_addr() as int, align as int),
    {
        (align - self.addr % align) % align
    }

    /// Separates the misaligned head from the rest: the first part runs from
    /// the base to the first multiple of `align`, the second starts there.
    /// There is no such split when the head would take the whole block.
    pub fn align(self, align: usize) -> (r: Option<(Block, Block)>)
        requires
            self.wf(),
            align > 0,
        ensures
            r is Some <==> padding(self.spec_addr() as int, align as int) < self.spec_size(),
            r matches Some((head, rest)) ==> {
                &&& head.wf()
                &&& rest.wf()
                &&& head.spec_addr() == self.spec_addr()
                &&& head.spec_size() == padding(self.spec_addr() as int, align as int)
                &&& rest.spec_addr() == self.spec_addr() + head.spec_size()
                &&& rest.spec_size() == self.spec_size() - head.spec_size()
                &&& rest.spec_aligned_to(align)
            },
    {
        proof {
            lemma_padding(self.addr as int, align as int);
        }
        let aligner: usize = self.aligner(align);
        if aligner < self.size {
            Some(
                (
                    Block { addr: self.addr, size: aligner },
                    Block { addr: self.addr + aligner, size: self.size - aligner },
                ),
            )
        } else {
            None
        }
    }
}

} // verus!
