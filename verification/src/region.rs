//! One contiguous region and its free list.

use vstd::prelude::*;
use crate::block::{
    align_up, span_of, total_free, well_formed, Block, MIN_BLOCK_SIZE, REGION_OVERHEAD,
};
use crate::request::{Reply, Request};
use crate::free_list::{
    after_allocate, after_deallocate, carve, first_fit, first_fit_from, fits, lemma_carve,
    lemma_position_from, lemma_release, lemma_total_free_prefix, lemma_total_free_single,
    placement, position, position_from, releasable, release,
};

verus! {

/// What a region is to its callers: its range and its free list.
pub struct RegionState {
    /// The first address of the region.
    pub bottom: int,
    /// The address one past the region's last byte.
    pub top: int,
    /// The free blocks, in address order.
    pub free: Seq<Block>,
}

impl RegionState {
    /// The state of a region without a range.
    pub open spec fn empty() -> RegionState {
        RegionState { bottom: 0, top: 0, free: Seq::<Block>::empty() }
    }

    /// The state of a region of `size` bytes from `bottom` on, all of it free.
    pub open spec fn fresh(bottom: usize, size: usize) -> RegionState {
        RegionState {
            bottom: bottom as int,
            top: bottom + size,
            free: seq![Block { addr: bottom, size: size }],
        }
    }

    /// The free list is a well-formed free list of the range.
    pub open spec fn valid(self) -> bool {
        well_formed(self.free, self.bottom, self.top)
    }

    /// The number of free bytes.
    pub open spec fn free_bytes(self) -> int {
        total_free(self.free)
    }

    /// The number of bytes that are not free.
    pub open spec fn used_bytes(self) -> int {
        self.top - self.bottom - self.free_bytes()
    }

    /// Whether a released address is taken to be this region's: it lies
    /// between `bottom` and `top`, both ends included.
    pub open spec fn claims(self, addr: int) -> bool {
        self.bottom <= addr <= self.top
    }

    /// The address at which a request is served; `None` if no block fits.
    pub open spec fn placement(self, size: int, align: int) -> Option<int> {
        placement(self.free, size, align)
    }

    /// The state after a request was made: served from the first block that
    /// fits, or unchanged.
    pub open spec fn allocate(self, size: int, align: int) -> RegionState {
        RegionState { free: after_allocate(self.free, size, align), ..self }
    }

    /// Whether an allocation of `size` bytes at `addr` can be released: its
    /// span lies in the range and none of its bytes is free.
    pub open spec fn releasable(self, addr: int, size: int) -> bool {
        releasable(self.free, self.bottom, self.top, addr, span_of(size))
    }

    /// The state after the release of `size` bytes at `addr` was asked for:
    /// the span is back in the free list if it was releasable; otherwise
    /// nothing has changed.
    pub open spec fn deallocate(self, addr: int, size: int) -> RegionState {
        RegionState {
            free: after_deallocate(self.free, self.bottom, self.top, addr, size),
            ..self
        }
    }

    /// The state after a release that is carried out only if the region
    /// claims the address.
    pub open spec fn deallocate_if_claimed(self, addr: int, size: int) -> RegionState {
        if self.claims(addr) {
            self.deallocate(addr, size)
        } else {
            self
        }
    }
}

/// A first-fit allocator over one contiguous address range `[bottom, top)`.
///
/// The free list is kept in address order and fully merged.  Before `init`
/// the range is empty and no request is served.
pub struct RegionHeap {
    bottom: usize,
    top: usize,
    holes: Vec<Block>,
}

impl View for RegionHeap {
    type V = RegionState;

    closed spec fn view(&self) -> RegionState {
        RegionState { bottom: self.bottom as int, top: self.top as int, free: self.holes@ }
    }
}

impl RegionHeap {
    #[verifier::type_invariant]
    spec fn inv(self) -> bool {
        well_formed(self.holes@, self.bottom as int, self.top as int)
    }

    /// A region without a range: it serves no request until `init`.
    pub fn empty() -> (heap: RegionHeap)
        ensures
            heap@ == RegionState::empty(),
            heap@.valid(),
    {
        RegionHeap { bottom: 0, top: 0, holes: Vec::new() }
    }

    /// Gives the region the range of `size` bytes from `bottom` on, all of it
    /// free.  Whatever the region held before is forgotten.
    pub fn init(&mut self, bottom: usize, size: usize)
        requires
            size > 0,
            bottom + size <= usize::MAX,
        ensures
            final(self)@ == RegionState::fresh(bottom, size),
            final(self)@.free_bytes() == size - REGION_OVERHEAD,
            final(self)@.used_bytes() == REGION_OVERHEAD,
            final(self)@.valid(),
    {
        proof {
            lemma_total_free_single(Block { addr: bottom, size: size });
        }
        let mut holes: Vec<Block> = Vec::new();
        holes.push(Block { addr: bottom, size: size });
        *self = RegionHeap { bottom: bottom, top: bottom + size, holes: holes };
    }

    /// Serves a request for `size` bytes at a multiple of `align` from the
    /// first free block, in address order, that can hold it, and returns the
    /// address.  The bytes of that block in front of the address and behind
    /// the span stay free.  Returns `None`, and changes nothing, where no
    /// block can hold the request.
    pub fn allocate(&mut self, size: usize, align: usize) -> (addr: Option<usize>)
        requires
            align > 0,
        ensures
            match addr {
                Some(a) => old(self)@.placement(size as int, align as int) == Some(a as int),
                None => old(self)@.placement(size as int, align as int).is_none(),
            },
            final(self)@ == old(self)@.allocate(size as int, align as int),
            addr.is_some() ==> final(self)@.free_bytes() == old(self)@.free_bytes() - span_of(
                size as int,
            ),
            final(self)@.valid(),
    {
        proof {
            use_type_invariant(&*self);
        }
        let span: usize = if size < MIN_BLOCK_SIZE {
            MIN_BLOCK_SIZE
        } else {
            size
        };
        let n: usize = self.holes.len();
        let mut i: usize = 0;
        while i < n
            invariant
                align > 0,
                span == span_of(size as int),
                *self == *old(self),
                n == self.holes@.len(),
                0 <= i <= n,
                well_formed(self.holes@, self.bottom as int, self.top as int),
                first_fit(self.holes@, size as int, align as int) == first_fit_from(
                    self.holes@,
                    i as int,
                    size as int,
                    align as int,
                ),
            decreases n - i,
        {
            let b: Block = self.holes[i];
            let rem: usize = b.addr % align;
            let pad: usize = if rem == 0 {
                0
            } else {
                align - rem
            };
            if pad <= b.size && span <= b.size - pad {
                let start: usize = b.addr + pad;
                let back: usize = b.size - pad - span;
                let ghost before = self.holes@;
                proof {
                    assert(start == align_up(b.addr as int, align as int));
                    assert(fits(b, size as int, align as int));
                    lemma_carve(
                        before,
                        self.bottom as int,
                        self.top as int,
                        i as int,
                        start as int,
                        span as int,
                    );
                }
                let mut holes: Vec<Block> = Vec::new();
                core::mem::swap(&mut holes, &mut self.holes);
                if pad > 0 {
                    holes.set(i, Block { addr: b.addr, size: pad });
                    if back > 0 {
                        holes.insert(i + 1, Block { addr: start + span, size: back });
                    }
                } else if back > 0 {
                    holes.set(i, Block { addr: start + span, size: back });
                } else {
                    holes.remove(i);
                }
                proof {
                    assert(holes@ =~= carve(before, i as int, start as int, span as int));
                }
                self.holes = holes;
                return Some(start);
            }
            i = i + 1;
        }
        None
    }

    /// Returns the span of an allocation of `size` bytes at `addr` to the free
    /// list, in address order, merged with the free block that ends at `addr`
    /// and with the free block that starts where the span ends.  `align` is
    /// the alignment that the allocation was asked with; the span does not
    /// depend on it.
    ///
    /// A span that is not wholly in use within the region is no allocation of
    /// this region: the call then changes nothing.
    pub fn deallocate(&mut self, addr: usize, size: usize, align: usize)
        ensures
            final(self)@ == old(self)@.deallocate(addr as int, size as int),
            old(self)@.releasable(addr as int, size as int) ==> final(self)@.free_bytes() == old(
                self,
            )@.free_bytes() + span_of(size as int),
            final(self)@.valid(),
    {
        proof {
            use_type_invariant(&*self);
        }
        let span: usize = if size < MIN_BLOCK_SIZE {
            MIN_BLOCK_SIZE
        } else {
            size
        };
        let i: usize = self.find_position(addr);
        if !self.can_release(i, addr, span) {
            return ;
        }
        let ghost before = self.holes@;
        proof {
            lemma_release(
                before,
                self.bottom as int,
                self.top as int,
                addr as int,
                span as int,
            );
        }
        let mut holes: Vec<Block> = Vec::new();
        core::mem::swap(&mut holes, &mut self.holes);
        merge_in(&mut holes, i, addr, span, Ghost(self.bottom as int), Ghost(self.top as int));
        self.holes = holes;
    }

    /// The index at which a block starting at `addr` enters the free list.
    fn find_position(&self, addr: usize) -> (i: usize)
        ensures
            i == position(self@.free, addr as int),
            0 <= i <= self@.free.len(),
    {
        let n: usize = self.holes.len();
        let mut i: usize = 0;
        while i < n && self.holes[i].addr < addr
            invariant
                n == self.holes@.len(),
                0 <= i <= n,
                position(self.holes@, addr as int) == position_from(
                    self.holes@,
                    i as int,
                    addr as int,
                ),
            decreases n - i,
        {
            i = i + 1;
        }
        i
    }

    /// Whether the `span` bytes at `addr` lie in the region with none of them
    /// free, given the position `i` of `addr` in the free list.
    fn can_release(&self, i: usize, addr: usize, span: usize) -> (ok: bool)
        requires
            i == position(self@.free, addr as int),
            span >= 1,
        ensures
            ok == releasable(self@.free, self@.bottom, self@.top, addr as int, span as int),
    {
        proof {
            use_type_invariant(self);
            lemma_position_from(self.holes@, 0, addr as int);
        }
        let ghost list = self.holes@;
        let ghost k = i as int;
        if addr < self.bottom || addr > self.top || span > self.top - addr {
            return false;
        }
        if i > 0 {
            let p: Block = self.holes[i - 1];
            if p.addr + p.size > addr {
                assert(!(list[k - 1].end() <= addr || addr + span <= list[k - 1].addr));
                return false;
            }
        }
        if i < self.holes.len() {
            let q: Block = self.holes[i];
            if addr + span > q.addr {
                assert(!(list[k].end() <= addr || addr + span <= list[k].addr));
                return false;
            }
        }
        proof {
            assert forall|j: int| 0 <= j < list.len() implies (#[trigger] list[j]).end() <= addr
                || addr + span <= list[j].addr by {
                if j < k {
                    assert(j < k - 1 ==> list[j].end() < list[k - 1].addr);
                } else {
                    assert(k < j ==> list[k].end() < list[j].addr);
                }
            }
        }
        true
    }

    /// Releases an allocation as `deallocate` does if this region claims the
    /// address, and says whether it did claim it.
    pub fn deallocate_if_claimed(&mut self, addr: usize, size: usize, align: usize) -> (claimed:
        bool)
        ensures
            claimed == old(self)@.claims(addr as int),
            final(self)@ == old(self)@.deallocate_if_claimed(addr as int, size as int),
            final(self)@.valid(),
    {
        proof {
            use_type_invariant(&*self);
        }
        if self.claims(addr) {
            self.deallocate(addr, size, align);
            true
        } else {
            false
        }
    }

    /// Whether a released address is taken to be this region's: it lies
    /// between `bottom` and `top`, both ends included.
    pub fn claims(&self, addr: usize) -> (claimed: bool)
        ensures
            claimed == self@.claims(addr as int),
    {
        self.bottom <= addr && addr <= self.top
    }

    /// Carries out `req` and answers it.
    pub fn serve(&mut self, req: Request) -> (reply: Reply)
        requires
            req.valid(),
        ensures
            old(self)@.valid(),
            old(self)@.answers(req, reply),
            final(self)@ == old(self)@.after(req),
            final(self)@.valid(),
    {
        proof {
            use_type_invariant(&*self);
        }
        match req {
            Request::Init { bottom, size } => {
                self.init(bottom, size);
                Reply::Done
            },
            Request::Allocate { size, align } => {
                Reply::Address(self.allocate(size, align))
            },
            Request::Deallocate { addr, size, align } => {
                self.deallocate(addr, size, align);
                Reply::Done
            },
            Request::DeallocateIfClaimed { addr, size, align } => {
                Reply::Claimed(self.deallocate_if_claimed(addr, size, align))
            },
            Request::Used => Reply::Bytes(self.used()),
            Request::Free => Reply::Bytes(self.free()),
        }
    }

    /// The first address of the region.
    pub fn bottom(&self) -> (addr: usize)
        ensures
            addr == self@.bottom,
    {
        self.bottom
    }

    /// The address one past the region's last byte.
    pub fn top(&self) -> (addr: usize)
        ensures
            addr == self@.top,
    {
        self.top
    }

    /// The free blocks of the region, in address order.
    pub fn free_blocks(&self) -> (blocks: Vec<Block>)
        ensures
            blocks@ == self@.free,
            self@.valid(),
    {
        proof {
            use_type_invariant(self);
        }
        self.holes.clone()
    }

    /// The number of bytes that are not free.
    pub fn used(&self) -> (bytes: usize)
        ensures
            bytes == self@.used_bytes(),
            self@.valid(),
    {
        proof {
            use_type_invariant(self);
            lemma_total_free_prefix(
                self.holes@,
                self.bottom as int,
                self.top as int,
                self.holes@.len() as int,
            );
            assert(self.holes@.subrange(0, self.holes@.len() as int) =~= self.holes@);
        }
        let free: usize = self.free();
        self.top - self.bottom - free
    }

    /// The number of free bytes.
    pub fn free(&self) -> (bytes: usize)
        ensures
            bytes == self@.free_bytes(),
            self@.valid(),
    {
        proof {
            use_type_invariant(self);
        }
        let mut sum: usize = 0;
        let mut i: usize = 0;
        while i < self.holes.len()
            invariant
                0 <= i <= self.holes@.len(),
                well_formed(self.holes@, self.bottom as int, self.top as int),
                sum == total_free(self.holes@.subrange(0, i as int)),
            decreases self.holes@.len() - i,
        {
            proof {
                lemma_total_free_prefix(
                    self.holes@,
                    self.bottom as int,
                    self.top as int,
                    i as int + 1,
                );
                assert(self.holes@.subrange(0, i as int + 1).drop_last() =~= self.holes@.subrange(
                    0,
                    i as int,
                ));
            }
            sum = sum + self.holes[i].size;
            i = i + 1;
        }
        proof {
            assert(self.holes@.subrange(0, i as int) =~= self.holes@);
        }
        sum
    }
}

/// Enters the `span` bytes at `addr` into the free list `holes` at position
/// `i`, merged with the neighbours that they touch.
fn merge_in(
    holes: &mut Vec<Block>,
    i: usize,
    addr: usize,
    span: usize,
    Ghost(bottom): Ghost<int>,
    Ghost(top): Ghost<int>,
)
    requires
        i == position(old(holes)@, addr as int),
        span >= 1,
        well_formed(old(holes)@, bottom, top),
        releasable(old(holes)@, bottom, top, addr as int, span as int),
    ensures
        final(holes)@ == release(old(holes)@, addr as int, span as int),
{
    let ghost before = holes@;
    proof {
        lemma_position_from(before, 0, addr as int);
        if i > 0 {
            assert(before[i as int - 1].end() <= top);
        }
        if i < before.len() {
            assert(before[i as int].end() <= top);
        }
    }
    let joins_prev: bool = i > 0 && holes[i - 1].addr + holes[i - 1].size == addr;
    let joins_next: bool = i < holes.len() && addr + span == holes[i].addr;
    if joins_prev {
        let p: Block = holes[i - 1];
        if joins_next {
            let q: Block = holes[i];
            holes.set(i - 1, Block { addr: p.addr, size: p.size + span + q.size });
            holes.remove(i);
        } else {
            holes.set(i - 1, Block { addr: p.addr, size: p.size + span });
        }
    } else if joins_next {
        let q: Block = holes[i];
        holes.set(i, Block { addr: addr, size: span + q.size });
    } else {
        holes.insert(i, Block { addr: addr, size: span });
    }
    proof {
        assert(holes@ =~= release(before, addr as int, span as int));
    }
}

} // verus!
