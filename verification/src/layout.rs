use crate::error::PallocError;
use vstd::prelude::*;

verus! {

/// Bytes taken by one block header: two eight-byte words.
pub const HEADER_SIZE: usize = 16;

/// What one block header records: where it sits, and how many payload bytes
/// behind it are handed out. Zero bytes handed out means the block is free.
pub struct Header {
    pub address: nat,
    pub allocation: nat,
}

impl Header {
    /// A free header at `address`.
    pub open spec fn fresh(address: nat) -> Header {
        Header { address, allocation: 0 }
    }

    /// The same header with `allocation` bytes handed out.
    pub open spec fn holding(self, allocation: nat) -> Header {
        Header { address: self.address, allocation }
    }

    pub open spec fn is_free(self) -> bool {
        self.allocation == 0
    }

    /// The first byte behind the header.
    pub open spec fn payload_base(self) -> nat {
        self.address + HEADER_SIZE as nat
    }

    /// The first byte behind the handed-out payload.
    pub open spec fn payload_end(self) -> nat {
        self.payload_base() + self.allocation
    }
}

/// A chain is a non-empty sequence of headers in link order in which every
/// block, header and handed-out payload together, ends before any later
/// header starts.
pub open spec fn linked(chain: Seq<Header>) -> bool {
    &&& chain.len() > 0
    &&& forall|i: int, j: int|
        #![trigger chain[i], chain[j]]
        0 <= i < j < chain.len() ==> chain[i].payload_end() <= chain[j].address
}

/// The payload bytes between the first header and its successor.
pub open spec fn room(chain: Seq<Header>) -> int
    recommends
        chain.len() > 1,
{
    chain[1].address - chain[0].payload_base()
}

/// The first block can take `target` bytes where it stands: it is the last
/// one, or its successor is far enough.
pub open spec fn roomy(chain: Seq<Header>, target: nat) -> bool {
    chain.len() <= 1 || room(chain) >= target
}

/// The chain after its first block has swallowed free successors, one at a
/// time, until it is roomy for `target` or the next successor is in use.
pub open spec fn merged(chain: Seq<Header>, target: nat) -> Seq<Header>
    decreases chain.len(),
{
    if roomy(chain, target) || !chain[1].is_free() {
        chain
    } else {
        merged(chain.remove(1), target)
    }
}

/// The chain after the slack behind the first block's payload became a free
/// block of its own, which happens when the slack is larger than a header.
pub open spec fn segmented(chain: Seq<Header>) -> Seq<Header>
    recommends
        chain.len() > 1,
{
    if chain[0].allocation + HEADER_SIZE < room(chain) {
        chain.insert(1, Header::fresh(chain[0].payload_end()))
    } else {
        chain
    }
}

/// The position of the first block whose payload starts at `payload`, or the
/// chain's length when there is none.
pub open spec fn locate(chain: Seq<Header>, payload: nat) -> int
    decreases chain.len(),
{
    if chain.len() == 0 {
        0
    } else if chain[0].payload_base() == payload {
        0
    } else {
        1 + locate(chain.skip(1), payload)
    }
}

/// First fit with coalescing on demand: the chain and the answer after a
/// request for `size` bytes, in a region that ends at `limit`.
///
/// Blocks in use are passed over. A free block that is the last one serves
/// the request if its payload ends within `limit`, and gets a free successor
/// right behind the payload; otherwise the region is exhausted. A free block
/// with a successor serves the request if it is roomy, and is then segmented.
/// One that is too small swallows a free successor and is tried again, or is
/// passed over when its successor is in use.
///
/// A request for no bytes cannot be served, since a block that hands out no
/// bytes is free. The first free block turns it down, as not in use where it
/// has a successor, for want of memory where it is the last block and starts
/// beyond `limit`. Where that block is the last and starts within `limit`
/// the request is [`stuck`], and what stands here says nothing.
pub open spec fn first_fit(chain: Seq<Header>, size: nat, limit: nat) -> (
    Seq<Header>,
    Result<nat, PallocError>,
)
    decreases chain.len(),
{
    if chain.len() == 0 {
        (chain, Err(PallocError::OutOfMemory))
    } else if chain[0].is_free() && chain.len() == 1 {
        if chain[0].payload_base() + size > limit {
            (chain, Err(PallocError::OutOfMemory))
        } else {
            (
                seq![chain[0].holding(size), Header::fresh(chain[0].payload_base() + size)],
                Ok(chain[0].payload_base()),
            )
        }
    } else if chain[0].is_free() && size == 0 {
        (chain, Err(PallocError::NotAllocated))
    } else if chain[0].is_free() && room(chain) >= size {
        (segmented(chain.update(0, chain[0].holding(size))), Ok(chain[0].payload_base()))
    } else if chain[0].is_free() && chain[1].is_free() {
        first_fit(chain.remove(1), size, limit)
    } else {
        let rest = first_fit(chain.skip(1), size, limit);
        (seq![chain[0]] + rest.0, rest.1)
    }
}

/// A request that has no answer: one for no bytes whose first free block is
/// the last block and starts within `limit`. That block would hand out no
/// bytes, so stay free, and a free block is given no successor.
pub open spec fn stuck(chain: Seq<Header>, size: nat, limit: nat) -> bool
    decreases chain.len(),
{
    &&& size == 0
    &&& chain.len() > 0
    &&& if chain[0].is_free() {
        chain.len() == 1 && chain[0].payload_base() <= limit
    } else {
        stuck(chain.skip(1), size, limit)
    }
}

/// The bytes, headers included, of the free blocks of a chain in a region
/// that ends at `limit`. A free block reaches from its header to the next
/// header, the last one to `limit`.
pub open spec fn free_span(chain: Seq<Header>, limit: nat) -> int
    decreases chain.len(),
{
    if chain.len() == 0 {
        0
    } else {
        let end = if chain.len() > 1 {
            chain[1].address
        } else {
            limit
        };
        let first = if chain[0].is_free() {
            end - chain[0].address
        } else {
            0
        };
        first + free_span(chain.skip(1), limit)
    }
}

/// No block of the chain is in use.
pub open spec fn all_free(chain: Seq<Header>) -> bool {
    forall|i: int| 0 <= i < chain.len() ==> (#[trigger] chain[i]).is_free()
}

/// Every header in use of `before` stands in `after`.
pub open spec fn keeps_used(before: Seq<Header>, after: Seq<Header>) -> bool {
    forall|i: int|
        0 <= i < before.len() && !(#[trigger] before[i]).is_free() ==> after.contains(before[i])
}

/// `header` is the one in front of the payload that `answer` names, in use
/// for `size` bytes.
pub open spec fn served_by(header: Header, answer: Result<nat, PallocError>, size: nat) -> bool {
    answer == Ok::<nat, PallocError>(header.payload_base()) && header.allocation == size
}

/// Every header in use of `after` stands in `before`, but for the one in
/// front of the payload that `answer` names.
pub open spec fn adds_one(
    before: Seq<Header>,
    after: Seq<Header>,
    answer: Result<nat, PallocError>,
    size: nat,
) -> bool {
    forall|j: int|
        0 <= j < after.len() && !(#[trigger] after[j]).is_free() ==> before.contains(after[j])
            || served_by(after[j], answer, size)
}

} // verus!
