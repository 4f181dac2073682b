//! What holds of every region and every pair of regions, proved from the
//! definitions that the contracts of the allocator are written in.

use vstd::prelude::*;
use crate::block::{align_up, is_aligned, lemma_align_up, span_of, Block, REGION_OVERHEAD};
use crate::free_bytes::{
    all_free, is_free, lemma_carve_bytes, lemma_free_run_in_block, lemma_release_bytes,
    lemma_releasable_bytes, lemma_same_bytes_same_list, none_free, same_bytes,
};
use crate::free_list::{
    first_fit, fits, lemma_carve, lemma_carve_release, lemma_first_fit_from, lemma_placement,
    lemma_release, lemma_total_free_prefix, lemma_total_free_single,
};
use crate::pair::{PairState, RegionId};
use crate::region::RegionState;
use crate::request::Request;

verus! {

/// A region that has just been given `size` bytes is valid, has all of them
/// free but the fixed overhead, and has the overhead in use.  The same counts
/// hold of a pair of which only that region has a range.
pub proof fn lemma_fresh_accounting(id: RegionId, bottom: usize, size: usize)
    requires
        size > 0,
        bottom + size <= usize::MAX,
    ensures
        RegionState::fresh(bottom, size).valid(),
        RegionState::fresh(bottom, size).free_bytes() == size - REGION_OVERHEAD,
        RegionState::fresh(bottom, size).used_bytes() == REGION_OVERHEAD,
        PairState::empty().with_region(id, RegionState::fresh(bottom, size)).valid(),
        PairState::empty().with_region(id, RegionState::fresh(bottom, size)).free_bytes() == size
            - REGION_OVERHEAD,
        PairState::empty().with_region(id, RegionState::fresh(bottom, size)).used_bytes()
            == REGION_OVERHEAD,
{
    lemma_total_free_single(Block { addr: bottom, size: size });
}

/// Whatever is asked of a valid region leaves it valid: the free list stays
/// an address-ordered list of blocks of the range that neither overlap nor
/// touch.
pub proof fn lemma_region_stays_valid(state: RegionState, req: Request)
    requires
        state.valid(),
        req.valid(),
    ensures
        state.after(req).valid(),
{
    match req {
        Request::Init { bottom, size } => {},
        Request::Allocate { size, align } => {
            lemma_allocate_valid(state, size as int, align as int);
        },
        Request::Deallocate { addr, size, align } => {
            lemma_deallocate_valid(state, addr as int, size as int);
        },
        Request::DeallocateIfClaimed { addr, size, align } => {
            lemma_deallocate_valid(state, addr as int, size as int);
        },
        Request::Used => {},
        Request::Free => {},
    }
}

/// A request leaves a valid region valid, and takes its span from the free
/// bytes if it is served.
pub proof fn lemma_allocate_valid(state: RegionState, size: int, align: int)
    requires
        state.valid(),
        align > 0,
    ensures
        state.allocate(size, align).valid(),
        state.placement(size, align).is_some() ==> state.allocate(size, align).free_bytes()
            == state.free_bytes() - span_of(size),
        state.placement(size, align).is_none() ==> state.allocate(size, align) == state,
{
    if let Some(addr) = state.placement(size, align) {
        lemma_placement(state.free, state.bottom, state.top, size, align, addr);
        lemma_carve(
            state.free,
            state.bottom,
            state.top,
            first_fit(state.free, size, align),
            addr,
            span_of(size),
        );
    }
}

/// A release leaves a valid region valid, and adds its span to the free
/// bytes if it is carried out.
pub proof fn lemma_deallocate_valid(state: RegionState, addr: int, size: int)
    requires
        state.valid(),
    ensures
        state.deallocate(addr, size).valid(),
        state.releasable(addr, size) ==> state.deallocate(addr, size).free_bytes()
            == state.free_bytes() + span_of(size),
        !state.releasable(addr, size) ==> state.deallocate(addr, size) == state,
{
    if state.releasable(addr, size) {
        lemma_release(state.free, state.bottom, state.top, addr, span_of(size));
    }
}

/// Requests and releases leave a valid pair of regions valid.
pub proof fn lemma_pair_stays_valid(pair: PairState, addr: int, size: int, align: int)
    requires
        pair.valid(),
        align > 0,
    ensures
        pair.allocate(size, align).valid(),
        pair.deallocate(addr, size).valid(),
{
    lemma_allocate_valid(pair.first, size, align);
    lemma_allocate_valid(pair.second, size, align);
    lemma_deallocate_valid(pair.first, addr, size);
    lemma_deallocate_valid(pair.second, addr, size);
}

/// First fit: a request is served at a multiple of its alignment, in a free
/// block that holds its whole span, and no block before that one could have
/// held it.
pub proof fn lemma_first_fit(state: RegionState, size: int, align: int, addr: int)
    requires
        state.valid(),
        align > 0,
        state.placement(size, align) == Some(addr),
    ensures
        is_aligned(addr, align),
        state.bottom <= addr,
        addr + span_of(size) <= state.top,
        exists|i: int|
            0 <= i < state.free.len() && (#[trigger] state.free[i]).addr <= addr && addr + span_of(
                size,
            ) <= state.free[i].end() && forall|j: int|
                0 <= j < i ==> !fits(#[trigger] state.free[j], size, align),
{
    lemma_placement(state.free, state.bottom, state.top, size, align, addr);
    let i = first_fit(state.free, size, align);
    assert(state.free[i].addr <= addr);
}

/// Lowest address: a request is served at the lowest multiple of its
/// alignment from which on its whole span is free.
pub proof fn lemma_first_fit_is_lowest(
    state: RegionState,
    size: int,
    align: int,
    addr: int,
    other: int,
)
    requires
        state.valid(),
        align > 0,
        state.placement(size, align) == Some(addr),
        is_aligned(other, align),
        all_free(state.free, other, span_of(size)),
    ensures
        all_free(state.free, addr, span_of(size)),
        addr <= other,
{
    lemma_placement(state.free, state.bottom, state.top, size, align, addr);
    let i = first_fit(state.free, size, align);
    lemma_carve_bytes(state.free, state.bottom, state.top, i, addr, span_of(size));
    let j = lemma_free_run_in_block(state.free, state.bottom, state.top, other, span_of(size));
    lemma_align_up(state.free[j].addr as int, align);
    assert(fits(state.free[j], size, align));
    if i < j {
        assert(state.free[i].end() < state.free[j].addr);
    }
}

/// A request takes exactly the bytes of its span out of the free bytes, and
/// all of them were free; a request that fails takes none.
pub proof fn lemma_allocate_bytes(state: RegionState, size: int, align: int)
    requires
        state.valid(),
        align > 0,
    ensures
        match state.placement(size, align) {
            Some(addr) => all_free(state.free, addr, span_of(size)) && forall|x: int| #[trigger]
                is_free(state.allocate(size, align).free, x) <==> is_free(state.free, x) && !(addr
                    <= x < addr + span_of(size)),
            None => state.allocate(size, align) == state,
        },
{
    if let Some(addr) = state.placement(size, align) {
        lemma_placement(state.free, state.bottom, state.top, size, align, addr);
        lemma_carve_bytes(
            state.free,
            state.bottom,
            state.top,
            first_fit(state.free, size, align),
            addr,
            span_of(size),
        );
    }
}

/// A release is carried out exactly when the span lies in the range and none
/// of its bytes is free; it then adds exactly the bytes of the span to the
/// free bytes.  Otherwise it changes nothing.
pub proof fn lemma_deallocate_bytes(state: RegionState, addr: int, size: int)
    requires
        state.valid(),
    ensures
        state.releasable(addr, size) <==> state.bottom <= addr && addr + span_of(size)
            <= state.top && none_free(state.free, addr, span_of(size)),
        state.releasable(addr, size) ==> forall|x: int| #[trigger]
            is_free(state.deallocate(addr, size).free, x) <==> is_free(state.free, x) || addr <= x
                < addr + span_of(size),
        !state.releasable(addr, size) ==> state.deallocate(addr, size) == state,
{
    lemma_releasable_bytes(state.free, state.bottom, state.top, addr, span_of(size));
    if state.releasable(addr, size) {
        lemma_release_bytes(state.free, state.bottom, state.top, addr, span_of(size));
    }
}

/// Two valid states of one range with the same free bytes are the same
/// state: the free list says no more than which bytes are free.
pub proof fn lemma_same_bytes_same_state(a: RegionState, b: RegionState)
    requires
        a.valid(),
        b.valid(),
        a.bottom == b.bottom,
        a.top == b.top,
        same_bytes(a.free, b.free),
    ensures
        a == b,
{
    lemma_same_bytes_same_list(a.free, b.free, a.bottom, a.top);
}

/// Two allocations that share no byte can be released in either order, with
/// the same result.
pub proof fn lemma_releases_commute(
    state: RegionState,
    addr1: int,
    size1: int,
    addr2: int,
    size2: int,
)
    requires
        state.valid(),
        state.releasable(addr1, size1),
        state.releasable(addr2, size2),
        addr1 + span_of(size1) <= addr2 || addr2 + span_of(size2) <= addr1,
    ensures
        state.deallocate(addr1, size1).releasable(addr2, size2),
        state.deallocate(addr2, size2).releasable(addr1, size1),
        state.deallocate(addr1, size1).deallocate(addr2, size2) == state.deallocate(
            addr2,
            size2,
        ).deallocate(addr1, size1),
{
    let s1 = state.deallocate(addr1, size1);
    let s2 = state.deallocate(addr2, size2);
    lemma_deallocate_valid(state, addr1, size1);
    lemma_deallocate_valid(state, addr2, size2);
    lemma_deallocate_bytes(state, addr1, size1);
    lemma_deallocate_bytes(state, addr2, size2);
    lemma_deallocate_bytes(s1, addr2, size2);
    lemma_deallocate_bytes(s2, addr1, size1);
    assert forall|x: int| addr2 <= x < addr2 + span_of(size2) implies !#[trigger] is_free(
        s1.free,
        x,
    ) by {
        assert(!is_free(state.free, x));
    }
    assert forall|x: int| addr1 <= x < addr1 + span_of(size1) implies !#[trigger] is_free(
        s2.free,
        x,
    ) by {
        assert(!is_free(state.free, x));
    }
    let s12 = s1.deallocate(addr2, size2);
    let s21 = s2.deallocate(addr1, size1);
    lemma_deallocate_valid(s1, addr2, size2);
    lemma_deallocate_valid(s2, addr1, size1);
    assert forall|x: int| #[trigger] is_free(s12.free, x) <==> #[trigger] is_free(
        s21.free,
        x,
    ) by {
        assert(is_free(s1.free, x) <==> is_free(state.free, x) || addr1 <= x < addr1 + span_of(
            size1,
        ));
        assert(is_free(s2.free, x) <==> is_free(state.free, x) || addr2 <= x < addr2 + span_of(
            size2,
        ));
    }
    lemma_same_bytes_same_state(s12, s21);
}

/// Two allocations, one after the other, released in either order, give back
/// the region as it was before the first: free list and counts.
pub proof fn lemma_two_allocations_round_trip(
    state: RegionState,
    size1: int,
    align1: int,
    size2: int,
    align2: int,
    addr1: int,
    addr2: int,
)
    requires
        state.valid(),
        align1 > 0,
        align2 > 0,
        state.placement(size1, align1) == Some(addr1),
        state.allocate(size1, align1).placement(size2, align2) == Some(addr2),
    ensures
        state.allocate(size1, align1).allocate(size2, align2).deallocate(addr2, size2).deallocate(
            addr1,
            size1,
        ) == state,
        state.allocate(size1, align1).allocate(size2, align2).deallocate(addr1, size1).deallocate(
            addr2,
            size2,
        ) == state,
{
    let s1 = state.allocate(size1, align1);
    let s2 = s1.allocate(size2, align2);
    lemma_allocate_valid(state, size1, align1);
    lemma_allocate_valid(s1, size2, align2);
    lemma_round_trip(state, size1, align1, addr1);
    lemma_round_trip(s1, size2, align2, addr2);
    lemma_allocate_bytes(state, size1, align1);
    lemma_allocate_bytes(s1, size2, align2);
    lemma_first_fit(state, size1, align1, addr1);
    lemma_first_fit(s1, size2, align2, addr2);
    // The second span was free after the first allocation, so it shares no
    // byte with the first span.
    if !(addr1 + span_of(size1) <= addr2 || addr2 + span_of(size2) <= addr1) {
        let x = if addr1 <= addr2 {
            addr2
        } else {
            addr1
        };
        assert(is_free(s1.free, x));
    }
    // No byte of the first span is free once both are taken.
    assert forall|x: int| addr1 <= x < addr1 + span_of(size1) implies !#[trigger] is_free(
        s2.free,
        x,
    ) by {
        assert(!is_free(s1.free, x));
    }
    lemma_deallocate_bytes(s2, addr1, size1);
    lemma_releases_commute(s2, addr1, size1, addr2, size2);
}

/// A request fails exactly when no free block fits it.
pub proof fn lemma_exhaustion(state: RegionState, size: int, align: int)
    ensures
        state.placement(size, align).is_none() <==> forall|j: int|
            0 <= j < state.free.len() ==> !fits(#[trigger] state.free[j], size, align),
{
    lemma_first_fit_from(state.free, 0, size, align);
}

/// Round trip: the release of an allocation, with the address it was served
/// at and the size it was asked with, gives back the region as it was before
/// the request, free list and counts.
pub proof fn lemma_round_trip(state: RegionState, size: int, align: int, addr: int)
    requires
        state.valid(),
        align > 0,
        state.placement(size, align) == Some(addr),
    ensures
        state.allocate(size, align).releasable(addr, size),
        state.allocate(size, align).deallocate(addr, size) == state,
{
    lemma_placement(state.free, state.bottom, state.top, size, align, addr);
    lemma_carve_release(
        state.free,
        state.bottom,
        state.top,
        first_fit(state.free, size, align),
        addr,
        span_of(size),
    );
}

/// Fallback: when the first region has no free byte and some free block of
/// the second holds `size` bytes, a request for `size` bytes at alignment 1
/// is served, at an address of the second region.
pub proof fn lemma_fallback(pair: PairState, size: int, k: int)
    requires
        pair.valid(),
        pair.first.free_bytes() == 0,
        0 <= k < pair.second.free.len(),
        pair.second.free[k].size >= span_of(size),
    ensures
        pair.server(size, 1) == Some(RegionId::Second),
        pair.placement(size, 1).is_some(),
        pair.second.bottom <= pair.placement(size, 1).unwrap() < pair.second.top,
        pair.allocate(size, 1).first == pair.first,
{
    if pair.first.free.len() > 0 {
        let last = pair.first.free.last();
        assert(last.size >= 1);
        lemma_total_free_prefix(
            pair.first.free,
            pair.first.bottom,
            pair.first.top,
            pair.first.free.len() - 1,
        );
        assert(pair.first.free.subrange(0, pair.first.free.len() - 1)
            =~= pair.first.free.drop_last());
    }
    assert(pair.first.free.len() == 0);
    lemma_exhaustion(pair.first, size, 1);
    assert(fits(pair.second.free[k], size, 1));
    lemma_exhaustion(pair.second, size, 1);
    let addr = pair.second.placement(size, 1).unwrap();
    lemma_placement(pair.second.free, pair.second.bottom, pair.second.top, size, 1, addr);
    lemma_allocate_valid(pair.first, size, 1);
}

/// Routing: the first region owns its bottom and, the bound being inclusive,
/// its top as well; below the bottom and above the top the second region is
/// the owner, whatever its range.
pub proof fn lemma_owner_boundaries(pair: PairState, addr: int)
    requires
        pair.valid(),
    ensures
        pair.owner(pair.first.bottom) == RegionId::First,
        pair.owner(pair.first.top) == RegionId::First,
        pair.owner(addr) == RegionId::First <==> pair.first.bottom <= addr <= pair.first.top,
        pair.owner(addr) == RegionId::Second <==> addr < pair.first.bottom || pair.first.top
            < addr,
{
}

/// A release changes the owner of the address and nothing else.
pub proof fn lemma_release_touches_owner_only(pair: PairState, addr: int, size: int)
    ensures
        pair.deallocate(addr, size).region(PairState::other(pair.owner(addr))) == pair.region(
            PairState::other(pair.owner(addr)),
        ),
        pair.deallocate(addr, size).region(pair.owner(addr)) == pair.region(
            pair.owner(addr),
        ).deallocate(addr, size),
{
}

/// No cross-region corruption: when the first region cannot serve a request
/// and the second does, neither the request nor the release of what was
/// served changes the first region.  The release restores the second region
/// too, unless the address is the first region's top: that address goes to
/// the first region, which has no such allocation, and the second keeps the
/// span in use.
pub proof fn lemma_second_region_round_trip(pair: PairState, size: int, align: int, addr: int)
    requires
        pair.valid(),
        align > 0,
        pair.first.placement(size, align).is_none(),
        pair.placement(size, align) == Some(addr),
    ensures
        pair.allocate(size, align).first == pair.first,
        pair.allocate(size, align).deallocate(addr, size).first == pair.first,
        addr != pair.first.top ==> pair.allocate(size, align).deallocate(addr, size) == pair,
        addr == pair.first.top ==> pair.allocate(size, align).deallocate(addr, size)
            == pair.allocate(size, align),
{
    lemma_allocate_valid(pair.first, size, align);
    lemma_placement(pair.second.free, pair.second.bottom, pair.second.top, size, align, addr);
    lemma_round_trip(pair.second, size, align, addr);
    let served = pair.allocate(size, align);
    assert(served.first == pair.first);
    if pair.first.claims(addr) {
        assert(addr == pair.first.top);
        assert(!pair.first.releasable(addr, size));
    }
}

} // verus!
