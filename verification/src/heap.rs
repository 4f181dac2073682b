//! The two regions for shared use: each behind its own critical-section
//! mutex, so that a call holds one guard at a time and never both.

use core::cell::RefCell;
use critical_section::Mutex;
use vstd::prelude::*;
use crate::block::{is_aligned, span_of};
use crate::free_list::lemma_placement;
use crate::pair::PairState;
use crate::region::{RegionHeap, RegionState};
use crate::request::{Reply, Request};

verus! {

/// `critical_section::Mutex`, a cell that is read only inside a critical
/// section.  Nothing is said of what it holds.
#[verifier::external_type_specification]
#[verifier::external_body]
#[verifier::reject_recursive_types(T)]
pub struct ExMutex<T>(Mutex<T>);

/// `core::cell::RefCell`.  Nothing is said of what it holds.
#[verifier::external_type_specification]
#[verifier::external_body]
#[verifier::reject_recursive_types(T)]
pub struct ExRefCell<T: ?Sized>(RefCell<T>);

/// `critical_section::Mutex::new` wraps a value; it cannot fail.  Nothing is
/// claimed of the mutex it returns.
pub assume_specification<T>[ Mutex::<T>::new ](value: T) -> (mutex: Mutex<T>);

/// `core::cell::RefCell::new` wraps a value; it cannot fail.  Nothing is
/// claimed of the cell it returns.
pub assume_specification<T>[ RefCell::<T>::new ](value: T) -> (cell: RefCell<T>);

/// Whether `reply` is what some valid region answers to `req`.
pub open spec fn possible(req: Request, reply: Reply) -> bool {
    exists|state: RegionState| state.valid() && #[trigger] state.answers(req, reply)
}

/// Enters a critical section with `critical_section::with`, borrows the
/// region behind `guard` with `Mutex::borrow_ref_mut`, has it serve `req`,
/// and leaves the section.
///
/// The region's state cannot be named here, so the contract claims only what
/// `RegionHeap::serve` ensures in every state: the reply is one that a valid
/// region gives to this request.  The borrow cannot fail, since it is taken
/// and dropped inside the section and `serve` does not come back here.
#[verifier::external_body]
fn serve_guarded(guard: &Mutex<RefCell<RegionHeap>>, req: Request) -> (reply: Reply)
    requires
        req.valid(),
    ensures
        possible(req, reply),
{
    critical_section::with(|cs| guard.borrow_ref_mut(cs).serve(req))
}

/// A heap of two regions that can be shared between execution contexts.
///
/// Each region lies behind a guard of its own.  Every operation enters one
/// critical section per region that it touches, one after the other.
pub struct EspHeap {
    heap: Mutex<RefCell<RegionHeap>>,
    heap2: Mutex<RefCell<RegionHeap>>,
}

impl EspHeap {
    /// A heap whose regions have no range yet: it serves no request until
    /// `init` has been called.
    pub fn empty() -> EspHeap {
        EspHeap {
            heap: Mutex::new(RefCell::new(RegionHeap::empty())),
            heap2: Mutex::new(RefCell::new(RegionHeap::empty())),
        }
    }

    /// Gives the first region the range of `size` bytes from `heap_bottom`
    /// on.  To be called once, before the heap is used, with a range that no
    /// one else uses.
    pub fn init(&self, heap_bottom: usize, size: usize)
        requires
            size > 0,
            heap_bottom + size <= usize::MAX,
    {
        let _ = serve_guarded(&self.heap, Request::Init { bottom: heap_bottom, size: size });
    }

    /// Gives the second region the range of `size` bytes from `heap_bottom`
    /// on.  To be called at most once, before the heap is used, with a range
    /// that no one else uses and that shares no address with the first
    /// region's.
    pub fn init_heap2(&self, heap_bottom: usize, size: usize)
        requires
            size > 0,
            heap_bottom + size <= usize::MAX,
    {
        let _ = serve_guarded(&self.heap2, Request::Init { bottom: heap_bottom, size: size });
    }

    /// An estimate of the number of bytes in use: the sum over both regions,
    /// each read in its own critical section, so the two counts need not be
    /// of one instant.  Two ranges that share no address cannot hold more
    /// bytes than `usize` counts; for ranges that do, the sum stops at
    /// `usize::MAX`.
    pub fn used(&self) -> (bytes: usize) {
        let first: Reply = serve_guarded(&self.heap, Request::Used);
        let second: Reply = serve_guarded(&self.heap2, Request::Used);
        Reply::total_bytes(first, second)
    }

    /// An estimate of the number of bytes available: the sum over both
    /// regions, each read in its own critical section, so the two counts need
    /// not be of one instant.  Two ranges that share no address cannot hold
    /// more bytes than `usize` counts; for ranges that do, the sum stops at
    /// `usize::MAX`.
    pub fn free(&self) -> (bytes: usize) {
        let first: Reply = serve_guarded(&self.heap, Request::Free);
        let second: Reply = serve_guarded(&self.heap2, Request::Free);
        Reply::total_bytes(first, second)
    }

    /// Serves a request for `size` bytes at a multiple of `align`: from the
    /// first region, and from the second if the first has no block for it.
    /// `None` if neither has.
    ///
    /// The first region is locked, asked and unlocked before the second is
    /// touched.  The address is the one that `PairState::placement` gives
    /// for the state that the first critical section found the first region
    /// in and the state that the second found the second region in.
    pub fn allocate(&self, size: usize, align: usize) -> (addr: Option<usize>)
        requires
            align > 0,
        ensures
            exists|pair: PairState|
                pair.first.valid() && pair.second.valid() && match addr {
                    Some(a) => #[trigger] pair.placement(size as int, align as int) == Some(
                        a as int,
                    ),
                    None => pair.placement(size as int, align as int).is_none(),
                },
            addr matches Some(a) ==> is_aligned(a as int, align as int) && a + span_of(size as int)
                <= usize::MAX,
    {
        let req: Request = Request::Allocate { size: size, align: align };
        let first: Reply = serve_guarded(&self.heap, req);
        let ghost s1 = choose|state: RegionState|
            state.valid() && #[trigger] state.answers(req, first);
        proof {
            lemma_served_address(req, first);
        }
        if first.address().is_some() {
            proof {
                let pair = PairState { first: s1, second: RegionState::empty() };
                assert(pair.placement(size as int, align as int) == Some(
                    first.spec_address().unwrap() as int,
                ));
            }
            return first.address();
        }
        let second: Reply = serve_guarded(&self.heap2, req);
        let ghost s2 = choose|state: RegionState|
            state.valid() && #[trigger] state.answers(req, second);
        proof {
            lemma_served_address(req, second);
            let pair = PairState { first: s1, second: s2 };
            assert(pair.placement(size as int, align as int) == s2.placement(
                size as int,
                align as int,
            ));
        }
        second.address()
    }

    /// Releases an allocation of `size` bytes at `addr`, asked with alignment
    /// `align`: in the first region if that claims the address, in the second
    /// otherwise.
    pub fn deallocate(&self, addr: usize, size: usize, align: usize) {
        let claim: Request = Request::DeallocateIfClaimed { addr: addr, size: size, align: align };
        let done: bool = serve_guarded(&self.heap, claim).claimed();
        if !done {
            let _ = serve_guarded(
                &self.heap2,
                Request::Deallocate { addr: addr, size: size, align: align },
            );
        }
    }
}

/// An address that a valid region answers an allocation request with is a
/// multiple of the alignment asked for, and the span from it on ends within
/// the address space.
pub proof fn lemma_served_address(req: Request, reply: Reply)
    requires
        req.valid(),
        possible(req, reply),
    ensures
        req matches Request::Allocate { size, align } ==> (reply.spec_address() matches Some(a)
            ==> is_aligned(a as int, align as int) && a + span_of(size as int) <= usize::MAX),
{
    let state = choose|state: RegionState| state.valid() && #[trigger] state.answers(req, reply);
    match req {
        Request::Allocate { size, align } => {
            match reply {
                Reply::Address(Some(a)) => {
                    lemma_placement(
                        state.free,
                        state.bottom,
                        state.top,
                        size as int,
                        align as int,
                        a as int,
                    );
                },
                _ => {},
            }
        },
        _ => {},
    }
}

} // verus!
