//! The operations of a region as values: what can be asked of a region, and
//! what it answers.  A guarded region is reached through these alone.

use vstd::prelude::*;
use crate::region::RegionState;

verus! {

/// What can be asked of a region.
#[derive(Clone, Copy, Debug, PartialEq, Eq, Structural)]
pub enum Request {
    /// Give the region the range of `size` bytes from `bottom` on.
    Init { bottom: usize, size: usize },
    /// Serve `size` bytes at a multiple of `align`.
    Allocate { size: usize, align: usize },
    /// Release the allocation of `size` bytes at `addr`.
    Deallocate { addr: usize, size: usize, align: usize },
    /// Release the allocation of `size` bytes at `addr` if the region claims
    /// `addr`, and say whether it did.
    DeallocateIfClaimed { addr: usize, size: usize, align: usize },
    /// Count the bytes that are not free.
    Used,
    /// Count the free bytes.
    Free,
}

/// What a region answers.
#[derive(Clone, Copy, Debug, PartialEq, Eq, Structural)]
pub enum Reply {
    /// The request was carried out; there is nothing to tell.
    Done,
    /// Where the request was served, if it was.
    Address(Option<usize>),
    /// Whether the region claimed the address.
    Claimed(bool),
    /// A number of bytes.
    Bytes(usize),
}

impl Reply {
    /// The address that the reply tells; `None` if it tells none.
    pub open spec fn spec_address(self) -> Option<usize> {
        match self {
            Reply::Address(addr) => addr,
            _ => None,
        }
    }

    /// The number of bytes that the reply tells; zero if it tells none.
    pub open spec fn spec_bytes(self) -> usize {
        match self {
            Reply::Bytes(n) => n,
            _ => 0,
        }
    }

    /// Whether the reply says that an address was claimed.
    pub open spec fn spec_claimed(self) -> bool {
        self == Reply::Claimed(true)
    }

    /// The address that the reply tells; `None` if it tells none.
    pub fn address(self) -> (addr: Option<usize>)
        ensures
            addr == self.spec_address(),
    {
        match self {
            Reply::Address(addr) => addr,
            _ => None,
        }
    }

    /// The number of bytes that the reply tells; zero if it tells none.
    pub fn bytes(self) -> (n: usize)
        ensures
            n == self.spec_bytes(),
    {
        match self {
            Reply::Bytes(n) => n,
            _ => 0,
        }
    }

    /// The bytes that two replies tell, added up; `usize::MAX` where the sum
    /// is beyond it.
    pub open spec fn spec_total_bytes(first: Reply, second: Reply) -> usize {
        if first.spec_bytes() + second.spec_bytes() > usize::MAX {
            usize::MAX
        } else {
            (first.spec_bytes() + second.spec_bytes()) as usize
        }
    }

    /// The count over two regions, from what each has answered: the bytes
    /// that the two replies tell, added up.  The sum stops at `usize::MAX`,
    /// which two ranges that share no address cannot exceed.
    pub fn total_bytes(first: Reply, second: Reply) -> (bytes: usize)
        ensures
            bytes == Reply::spec_total_bytes(first, second),
    {
        let a: usize = first.bytes();
        let b: usize = second.bytes();
        if a > usize::MAX - b {
            usize::MAX
        } else {
            a + b
        }
    }

    /// Whether the reply says that an address was claimed.
    pub fn claimed(self) -> (yes: bool)
        ensures
            yes == self.spec_claimed(),
    {
        match self {
            Reply::Claimed(yes) => yes,
            _ => false,
        }
    }
}

impl Request {
    /// The request is one that a region can be asked: a range to start from
    /// is not empty and ends within the address space, and an alignment is
    /// not zero.
    pub open spec fn valid(self) -> bool {
        match self {
            Request::Init { bottom, size } => size > 0 && bottom + size <= usize::MAX,
            Request::Allocate { size, align } => align > 0,
            _ => true,
        }
    }
}

impl RegionState {
    /// The state of the region after it has served `req`.
    pub open spec fn after(self, req: Request) -> RegionState {
        match req {
            Request::Init { bottom, size } => RegionState::fresh(bottom, size),
            Request::Allocate { size, align } => self.allocate(size as int, align as int),
            Request::Deallocate { addr, size, align } => self.deallocate(addr as int, size as int),
            Request::DeallocateIfClaimed { addr, size, align } => self.deallocate_if_claimed(
                addr as int,
                size as int,
            ),
            Request::Used => self,
            Request::Free => self,
        }
    }

    /// Whether `reply` is what the region in this state answers to `req`.
    pub open spec fn answers(self, req: Request, reply: Reply) -> bool {
        match req {
            Request::Init { bottom, size } => reply == Reply::Done,
            Request::Allocate { size, align } => match reply {
                Reply::Address(Some(a)) => self.placement(size as int, align as int) == Some(
                    a as int,
                ),
                Reply::Address(None) => self.placement(size as int, align as int).is_none(),
                _ => false,
            },
            Request::Deallocate { addr, size, align } => reply == Reply::Done,
            Request::DeallocateIfClaimed { addr, size, align } => reply == Reply::Claimed(
                self.claims(addr as int),
            ),
            Request::Used => match reply {
                Reply::Bytes(n) => n == self.used_bytes(),
                _ => false,
            },
            Request::Free => match reply {
                Reply::Bytes(n) => n == self.free_bytes(),
                _ => false,
            },
        }
    }
}

} // verus!
