//! Free blocks and the mathematics of an address-ordered free list.

use vstd::prelude::*;

verus! {

/// Smallest span that the allocator tracks or hands out.  A request for fewer
/// bytes, zero included, consumes this many.
pub const MIN_BLOCK_SIZE: usize = 1;

/// Bytes of a region that are lost to bookkeeping when it is initialized.
/// Block descriptors are kept outside the managed range, so there are none.
pub const REGION_OVERHEAD: usize = 0;

/// A run of contiguous free bytes: `size` bytes starting at `addr`.
#[derive(Clone, Copy, Debug, PartialEq, Eq, Structural)]
pub struct Block {
    pub addr: usize,
    pub size: usize,
}

impl Block {
    /// The address one past the block's last byte.
    pub open spec fn end(self) -> int {
        self.addr + self.size
    }
}

/// The number of bytes that a request for `size` bytes consumes.
pub open spec fn span_of(size: int) -> int {
    if size < MIN_BLOCK_SIZE as int {
        MIN_BLOCK_SIZE as int
    } else {
        size
    }
}

/// Whether `addr` is a multiple of `align`.
pub open spec fn is_aligned(addr: int, align: int) -> bool
    recommends
        align > 0,
{
    addr % align == 0
}

/// The least multiple of `align` that is not below `addr`.
pub open spec fn align_up(addr: int, align: int) -> int
    recommends
        align > 0,
{
    if addr % align == 0 {
        addr
    } else {
        addr + (align - addr % align)
    }
}

/// A free list for the range `[bottom, top)`: every block is non-empty and
/// lies in the range, addresses ascend, and between two blocks at least one
/// byte is in use, so that no two blocks overlap or could be merged.
pub open spec fn well_formed(list: Seq<Block>, bottom: int, top: int) -> bool {
    &&& 0 <= bottom <= top <= usize::MAX
    &&& forall|i: int|
        0 <= i < list.len() ==> (#[trigger] list[i]).size >= MIN_BLOCK_SIZE && bottom <= list[i].addr
            && list[i].end() <= top
    &&& forall|i: int, j: int|
        0 <= i < j < list.len() ==> (#[trigger] list[i]).end() < (#[trigger] list[j]).addr
}

/// The sum of the sizes of the blocks of `list`.
pub open spec fn total_free(list: Seq<Block>) -> int
    decreases list.len(),
{
    if list.len() == 0 {
        0
    } else {
        total_free(list.drop_last()) + list.last().size
    }
}

/// `align_up` yields a multiple of `align`, at most `align - 1` above `addr`,
/// and no multiple of `align` lies between the two.
pub proof fn lemma_align_up(addr: int, align: int)
    requires
        addr >= 0,
        align > 0,
    ensures
        is_aligned(align_up(addr, align), align),
        addr <= align_up(addr, align) < addr + align,
        forall|x: int| addr <= x < align_up(addr, align) ==> !#[trigger] is_aligned(x, align),
{
    let r = addr % align;
    let up = align_up(addr, align);
    assert(0 <= r < align) by (nonlinear_arith)
        requires
            addr >= 0,
            align > 0,
            r == addr % align,
    ;
    if r != 0 {
        assert((addr + (align - r)) % align == 0) by (nonlinear_arith)
            requires
                addr >= 0,
                align > 0,
                r == addr % align,
        ;
    }
    assert forall|x: int| addr <= x < up implies !#[trigger] is_aligned(x, align) by {
        assert(x % align != 0) by (nonlinear_arith)
            requires
                addr >= 0,
                align > 0,
                r == addr % align,
                r != 0,
                addr <= x < addr + (align - r),
        ;
    }
}

} // verus!
