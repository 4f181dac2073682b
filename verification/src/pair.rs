//! Two regions under one owner, and the policy that joins them.

use vstd::prelude::*;
use crate::block::REGION_OVERHEAD;
use crate::free_list::lemma_total_free_prefix;
use crate::region::{RegionHeap, RegionState};

verus! {

/// One of the two regions.
#[derive(Clone, Copy, Debug, PartialEq, Eq, Structural)]
pub enum RegionId {
    /// The region that requests are served from first.
    First,
    /// The region that takes what the first cannot serve.
    Second,
}

/// What a pair of regions is to its callers: the states of the two.
pub struct PairState {
    /// The region that requests are served from first.
    pub first: RegionState,
    /// The region that takes what the first cannot serve.
    pub second: RegionState,
}

impl PairState {
    /// The state of a pair of regions without ranges.
    pub open spec fn empty() -> PairState {
        PairState { first: RegionState::empty(), second: RegionState::empty() }
    }

    /// The two ranges share no address.
    pub open spec fn disjoint(self) -> bool {
        self.first.top <= self.second.bottom || self.second.top <= self.first.bottom
    }

    /// Both regions are valid and their ranges share no address.
    pub open spec fn valid(self) -> bool {
        self.first.valid() && self.second.valid() && self.disjoint()
    }

    /// The state of the named region.
    pub open spec fn region(self, id: RegionId) -> RegionState {
        match id {
            RegionId::First => self.first,
            RegionId::Second => self.second,
        }
    }

    /// The pair with the named region in state `state`.
    pub open spec fn with_region(self, id: RegionId, state: RegionState) -> PairState {
        match id {
            RegionId::First => PairState { first: state, ..self },
            RegionId::Second => PairState { second: state, ..self },
        }
    }

    /// The region other than the named one.
    pub open spec fn other(id: RegionId) -> RegionId {
        match id {
            RegionId::First => RegionId::Second,
            RegionId::Second => RegionId::First,
        }
    }

    /// The region that serves a request: the first if it can, else the second
    /// if it can.
    pub open spec fn server(self, size: int, align: int) -> Option<RegionId> {
        if self.first.placement(size, align).is_some() {
            Some(RegionId::First)
        } else if self.second.placement(size, align).is_some() {
            Some(RegionId::Second)
        } else {
            None
        }
    }

    /// The address at which a request is served: where the first region
    /// places it, else where the second does.  `None` if neither can.
    pub open spec fn placement(self, size: int, align: int) -> Option<int> {
        if self.first.placement(size, align).is_some() {
            self.first.placement(size, align)
        } else {
            self.second.placement(size, align)
        }
    }

    /// The state after a request was made: the second region is asked only
    /// if the first could not serve.
    pub open spec fn allocate(self, size: int, align: int) -> PairState {
        if self.first.placement(size, align).is_some() {
            PairState { first: self.first.allocate(size, align), ..self }
        } else {
            PairState { second: self.second.allocate(size, align), ..self }
        }
    }

    /// The region that a released address goes to: the first if it claims
    /// the address, the second otherwise, whatever its range.
    pub open spec fn owner(self, addr: int) -> RegionId {
        if self.first.claims(addr) {
            RegionId::First
        } else {
            RegionId::Second
        }
    }

    /// The state after the release of `size` bytes at `addr` was asked for:
    /// the owner of `addr` has carried it out; the other region is as it was.
    pub open spec fn deallocate(self, addr: int, size: int) -> PairState {
        match self.owner(addr) {
            RegionId::First => PairState { first: self.first.deallocate(addr, size), ..self },
            RegionId::Second => PairState { second: self.second.deallocate(addr, size), ..self },
        }
    }

    /// The free bytes of both regions.
    pub open spec fn free_bytes(self) -> int {
        self.first.free_bytes() + self.second.free_bytes()
    }

    /// The bytes of both regions that are not free.
    pub open spec fn used_bytes(self) -> int {
        self.first.used_bytes() + self.second.used_bytes()
    }
}

/// Two regions that serve as one heap: requests go to the first region and
/// fall back to the second; a released address goes to the region that
/// claims it.
pub struct RegionPair {
    first: RegionHeap,
    second: RegionHeap,
}

impl View for RegionPair {
    type V = PairState;

    closed spec fn view(&self) -> PairState {
        PairState { first: self.first@, second: self.second@ }
    }
}

impl RegionPair {
    #[verifier::type_invariant]
    spec fn inv(self) -> bool {
        self@.valid()
    }

    /// A pair of regions without ranges: it serves no request until a region
    /// is initialized.
    pub fn empty() -> (pair: RegionPair)
        ensures
            pair@ == PairState::empty(),
            pair@.valid(),
    {
        RegionPair { first: RegionHeap::empty(), second: RegionHeap::empty() }
    }

    /// Gives the named region the range of `size` bytes from `bottom` on, all
    /// of it free.  The range must share no address with the other region's.
    pub fn init_region(&mut self, id: RegionId, bottom: usize, size: usize)
        requires
            size > 0,
            bottom + size <= usize::MAX,
            old(self)@.with_region(id, RegionState::fresh(bottom, size)).disjoint(),
        ensures
            final(self)@ == old(self)@.with_region(id, RegionState::fresh(bottom, size)),
            final(self)@.region(id).free_bytes() == size - REGION_OVERHEAD,
            final(self)@.region(id).used_bytes() == REGION_OVERHEAD,
            final(self)@.valid(),
    {
        proof {
            use_type_invariant(&*self);
        }
        let mut region: RegionHeap = RegionHeap::empty();
        region.init(bottom, size);
        match id {
            RegionId::First => {
                self.first = region;
            },
            RegionId::Second => {
                self.second = region;
            },
        }
    }

    /// Serves a request for `size` bytes at a multiple of `align` from the
    /// first region; from the second if the first has no block for it.
    /// Returns `None`, and changes nothing, where neither has.
    pub fn allocate(&mut self, size: usize, align: usize) -> (addr: Option<usize>)
        requires
            align > 0,
        ensures
            match addr {
                Some(a) => old(self)@.placement(size as int, align as int) == Some(a as int),
                None => old(self)@.placement(size as int, align as int).is_none(),
            },
            final(self)@ == old(self)@.allocate(size as int, align as int),
            final(self)@.valid(),
    {
        proof {
            use_type_invariant(&*self);
        }
        let mut first: RegionHeap = RegionHeap::empty();
        core::mem::swap(&mut first, &mut self.first);
        let served: Option<usize> = first.allocate(size, align);
        self.first = first;
        if served.is_some() {
            return served;
        }
        let mut second: RegionHeap = RegionHeap::empty();
        core::mem::swap(&mut second, &mut self.second);
        let served: Option<usize> = second.allocate(size, align);
        self.second = second;
        served
    }

    /// Releases an allocation of `size` bytes at `addr`, asked with alignment
    /// `align`, in the region that owns the address: the first if `addr` lies
    /// between its bottom and its top, both included; the second otherwise.
    pub fn deallocate(&mut self, addr: usize, size: usize, align: usize)
        ensures
            final(self)@ == old(self)@.deallocate(addr as int, size as int),
            final(self)@.valid(),
    {
        proof {
            use_type_invariant(&*self);
        }
        let mut first: RegionHeap = RegionHeap::empty();
        core::mem::swap(&mut first, &mut self.first);
        let done: bool = first.deallocate_if_claimed(addr, size, align);
        self.first = first;
        if !done {
            let mut second: RegionHeap = RegionHeap::empty();
            core::mem::swap(&mut second, &mut self.second);
            second.deallocate(addr, size, align);
            self.second = second;
        }
    }

    /// The region that a released address goes to.
    pub fn owner(&self, addr: usize) -> (id: RegionId)
        ensures
            id == self@.owner(addr as int),
    {
        if self.first.claims(addr) {
            RegionId::First
        } else {
            RegionId::Second
        }
    }

    /// The named region, for inspection.
    pub fn region(&self, id: RegionId) -> (region: &RegionHeap)
        ensures
            region@ == self@.region(id),
    {
        match id {
            RegionId::First => &self.first,
            RegionId::Second => &self.second,
        }
    }

    /// The number of bytes of both regions that are not free.
    pub fn used(&self) -> (bytes: usize)
        ensures
            bytes == self@.used_bytes(),
            self@.valid(),
    {
        proof {
            use_type_invariant(self);
            lemma_total_free_prefix(
                self.first@.free,
                self.first@.bottom,
                self.first@.top,
                self.first@.free.len() as int,
            );
            lemma_total_free_prefix(
                self.second@.free,
                self.second@.bottom,
                self.second@.top,
                self.second@.free.len() as int,
            );
            assert(self.first@.free.subrange(0, self.first@.free.len() as int)
                =~= self.first@.free);
            assert(self.second@.free.subrange(0, self.second@.free.len() as int)
                =~= self.second@.free);
        }
        let used: usize = self.first.used();
        used + self.second.used()
    }

    /// The number of free bytes of both regions.
    pub fn free(&self) -> (bytes: usize)
        ensures
            bytes == self@.free_bytes(),
            self@.valid(),
    {
        proof {
            use_type_invariant(self);
            lemma_total_free_prefix(
                self.first@.free,
                self.first@.bottom,
                self.first@.top,
                self.first@.free.len() as int,
            );
            lemma_total_free_prefix(
                self.second@.free,
                self.second@.bottom,
                self.second@.top,
                self.second@.free.len() as int,
            );
            assert(self.first@.free.subrange(0, self.first@.free.len() as int)
                =~= self.first@.free);
            assert(self.second@.free.subrange(0, self.second@.free.len() as int)
                =~= self.second@.free);
        }
        let free: usize = self.first.free();
        free + self.second.free()
    }
}

} // verus!
