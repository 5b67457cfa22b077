use crate::error::PallocError;
use crate::layout::{
    adds_one, all_free, first_fit, free_span, keeps_used, linked, locate, segmented, stuck, Header,
    HEADER_SIZE,
};
use crate::lemmas::{
    lemma_first_fit_all_free, lemma_first_fit_keeps_used, lemma_first_fit_nothing, lemma_first_fit_sound,
    lemma_first_fit_span, lemma_first_fit_tail, lemma_locate, lemma_segmented_linked,
};
use vstd::prelude::*;

verus! {

/// The state of an allocator: the region it manages and the headers of its
/// blocks in link order.
pub struct Heap {
    /// The address of the region, which is the address of the first header.
    pub bottom: nat,
    /// The length of the region in bytes.
    pub size: nat,
    pub blocks: Seq<Header>,
}

impl Heap {
    /// The first address behind the region.
    pub open spec fn limit(self) -> nat {
        self.bottom + self.size
    }

    /// The state of an allocator that is ready for requests. The chain
    /// starts at the bottom of the region, is in address order without
    /// overlap, and ends with a free block whose header starts within the
    /// region's bounds.
    pub open spec fn wf(self) -> bool {
        &&& linked(self.blocks)
        &&& self.blocks[0].address == self.bottom
        &&& self.size >= HEADER_SIZE
        &&& self.blocks.last().is_free()
        &&& self.blocks.last().address <= self.limit()
    }

    /// The state right after initialisation: one free block that spans the
    /// region.
    pub open spec fn fresh(bottom: nat, size: nat) -> Heap {
        Heap { bottom, size, blocks: seq![Header::fresh(bottom)] }
    }

    /// A request for `size` bytes has no answer: it is for no bytes, and the
    /// first free block is the last one and starts within the region.
    pub open spec fn stuck(self, size: nat) -> bool {
        stuck(self.blocks, size, self.limit())
    }

    /// The state and the answer after a request for `size` bytes that is
    /// not stuck.
    pub open spec fn allocate(self, size: nat) -> (Heap, Result<nat, PallocError>) {
        let served = first_fit(self.blocks, size, self.limit());
        (Heap { blocks: served.0, ..self }, served.1)
    }

    /// The state and the answer after the payload at `payload` is given
    /// back. Only a block in use whose payload starts there is changed.
    pub open spec fn free(self, payload: nat) -> (Heap, Result<(), PallocError>) {
        let i = locate(self.blocks, payload);
        if i < self.blocks.len() && !self.blocks[i].is_free() {
            (Heap { blocks: self.blocks.update(i, self.blocks[i].holding(0)), ..self }, Ok(()))
        } else {
            (self, Err(PallocError::NotAllocated))
        }
    }

    /// The last block's payload starts within the region, so its header
    /// lies within the region as a whole.
    pub open spec fn tail_bounded(self) -> bool {
        self.blocks.last().payload_base() <= self.limit()
    }

    /// The bytes of the region that belong to free blocks, their headers
    /// included. A free block's header counts because the block's
    /// predecessor gets it when it swallows the block.
    pub open spec fn free_bytes(self) -> int {
        free_span(self.blocks, self.limit())
    }

    /// The state after the block at position `i` was segmented.
    pub open spec fn segment(self, i: int) -> Heap {
        Heap { blocks: self.blocks.take(i) + segmented(self.blocks.skip(i)), ..self }
    }
}

/// Right after initialisation the heap is sound and holds a single free
/// block at the bottom of the region, without a successor, whose header
/// lies within the region. All of the region is free.
pub proof fn lemma_fresh(bottom: nat, size: nat)
    requires
        size >= HEADER_SIZE,
    ensures
        Heap::fresh(bottom, size).wf(),
        Heap::fresh(bottom, size).blocks == seq![Header { address: bottom, allocation: 0 }],
        Heap::fresh(bottom, size).tail_bounded(),
        Heap::fresh(bottom, size).free_bytes() == size,
{
    let blocks = Heap::fresh(bottom, size).blocks;
    assert(free_span(blocks.skip(1), bottom + size) == 0);
}

/// In a sound heap the headers stand at strictly ascending addresses.
pub proof fn lemma_ascending(heap: Heap)
    requires
        heap.wf(),
    ensures
        forall|i: int, j: int|
            #![trigger heap.blocks[i], heap.blocks[j]]
            0 <= i < j < heap.blocks.len() ==> heap.blocks[i].address < heap.blocks[j].address,
{
}

/// In a sound heap no payload reaches into the next block, and the payloads
/// of two blocks have no byte in common.
pub proof fn lemma_no_overlap(heap: Heap)
    requires
        heap.wf(),
    ensures
        forall|i: int|
            0 <= i < heap.blocks.len() - 1 ==> (#[trigger] heap.blocks[i]).payload_base()
                + heap.blocks[i].allocation <= heap.blocks[i + 1].address,
        forall|i: int, j: int|
            #![trigger heap.blocks[i], heap.blocks[j]]
            0 <= i < j < heap.blocks.len() ==> heap.blocks[i].payload_end()
                <= heap.blocks[j].payload_base(),
{
}

/// In a sound heap every block that has a successor lies within the region
/// as a whole: its header, its payload and the slack up to the next header.
pub proof fn lemma_within(heap: Heap, i: int)
    requires
        heap.wf(),
        0 <= i < heap.blocks.len() - 1,
    ensures
        heap.bottom <= heap.blocks[i].address,
        heap.blocks[i].payload_end() <= heap.blocks[i + 1].address,
        heap.blocks[i + 1].address <= heap.limit(),
{
    let last = heap.blocks.len() - 1;
    assert(heap.blocks.last() == heap.blocks[last]);
    if i > 0 {
        assert(heap.blocks[0].payload_end() <= heap.blocks[i].address);
    }
    if i + 1 < last {
        assert(heap.blocks[i + 1].payload_end() <= heap.blocks[last].address);
    }
}

/// Segmenting a block in use that has a successor keeps the heap sound, and
/// both the block and the free block split off it lie within the region,
/// header and payload.
pub proof fn lemma_segment_within(heap: Heap, i: int)
    requires
        heap.wf(),
        0 <= i < heap.blocks.len() - 1,
        !heap.blocks[i].is_free(),
    ensures
        heap.segment(i).wf(),
        heap.bottom <= heap.segment(i).blocks[i].address,
        heap.segment(i).blocks[i].payload_end() <= heap.segment(i).blocks[i + 1].address,
        heap.segment(i).blocks[i + 1].address <= heap.limit(),
        heap.segment(i).blocks.len() > heap.blocks.len() ==> {
            &&& heap.segment(i).blocks[i + 1].is_free()
            &&& heap.segment(i).blocks[i + 1].payload_base() <= heap.segment(i).blocks[i
                + 2].address
            &&& heap.segment(i).blocks[i + 2].address <= heap.limit()
        },
{
    let behind = heap.blocks.skip(i);
    let after = heap.segment(i).blocks;
    assert(linked(behind)) by {
        assert forall|a: int, b: int| 0 <= a < b < behind.len() implies behind[a].payload_end()
            <= behind[b].address by {
            assert(behind[a] == heap.blocks[a + i] && behind[b] == heap.blocks[b + i]);
        }
    }
    lemma_segmented_linked(behind);
    let split = segmented(behind);
    assert(linked(after)) by {
        assert forall|a: int, b: int| 0 <= a < b < after.len() implies after[a].payload_end()
            <= after[b].address by {
            if a < i {
                assert(after[a] == heap.blocks[a]);
                assert(heap.blocks[a].payload_end() <= heap.blocks[i].address);
                if b >= i {
                    assert(after[b] == split[b - i]);
                    if b > i {
                        assert(split[0].payload_end() <= split[b - i].address);
                    }
                } else {
                    assert(after[b] == heap.blocks[b]);
                }
            } else {
                assert(after[a] == split[a - i] && after[b] == split[b - i]);
            }
        }
    }
    assert(after.last() == split.last());
    assert(behind.last() == heap.blocks.last());
    assert(after[0] == heap.blocks[0]);
    if after.len() > heap.blocks.len() {
        lemma_within(heap.segment(i), i + 1);
    }
    lemma_within(heap.segment(i), i);
}

/// A request for no bytes that is not stuck is turned down and changes
/// nothing. It is turned down for want of memory only where the last block
/// starts beyond the region.
pub proof fn lemma_allocate_nothing(heap: Heap)
    requires
        heap.wf(),
        !heap.stuck(0),
    ensures
        heap.allocate(0).0 == heap,
        heap.allocate(0).1 == Err::<nat, PallocError>(PallocError::OutOfMemory) || heap.allocate(
            0,
        ).1 == Err::<nat, PallocError>(PallocError::NotAllocated),
        heap.allocate(0).1 == Err::<nat, PallocError>(PallocError::OutOfMemory)
            ==> !heap.tail_bounded(),
{
    lemma_first_fit_nothing(heap.blocks, heap.limit());
}

/// A request leaves a sound heap sound. A request for at least one byte is
/// served or turned down for want of memory, and a served request got the
/// payload of a block that now stands in the chain, in use for exactly
/// `size` bytes, within the region.
pub proof fn lemma_allocate_sound(heap: Heap, size: nat)
    requires
        heap.wf(),
        !heap.stuck(size),
    ensures
        heap.allocate(size).0.wf(),
        heap.allocate(size).1 is Err && size > 0 ==> heap.allocate(size).1 == Err::<
            nat,
            PallocError,
        >(PallocError::OutOfMemory),
        heap.allocate(size).1 matches Ok(payload) ==> {
            let after = heap.allocate(size).0.blocks;
            let i = locate(after, payload);
            &&& size > 0
            &&& 0 <= i < after.len() - 1
            &&& after[i].payload_base() == payload
            &&& after[i].allocation == size
            &&& heap.bottom + HEADER_SIZE <= payload
            &&& payload + size <= heap.limit()
        },
{
    if size > 0 {
        lemma_first_fit_sound(heap.blocks, size, heap.limit());
    } else {
        lemma_allocate_nothing(heap);
    }
}

/// A request touches no block in use. Every header in use stands in the
/// chain afterwards as it stood before, and a header in use that did not
/// stand in the chain before is the one of the payload that was handed out.
pub proof fn lemma_allocate_keeps_used(heap: Heap, size: nat)
    requires
        heap.wf(),
        !heap.stuck(size),
    ensures
        keeps_used(heap.blocks, heap.allocate(size).0.blocks),
        adds_one(heap.blocks, heap.allocate(size).0.blocks, heap.allocate(size).1, size),
{
    if size > 0 {
        lemma_first_fit_keeps_used(heap.blocks, size, heap.limit());
    } else {
        lemma_allocate_nothing(heap);
    }
}

/// Giving a payload back changes no header but the one in front of it.
pub proof fn lemma_free_keeps_others(heap: Heap, payload: nat)
    ensures
        heap.free(payload).0.blocks.len() == heap.blocks.len(),
        forall|i: int|
            0 <= i < heap.blocks.len() && (#[trigger] heap.blocks[i]).payload_base() != payload
                ==> heap.free(payload).0.blocks[i] == heap.blocks[i],
{
    lemma_locate(heap.blocks, payload);
}

/// Giving a payload back leaves a sound heap sound.
pub proof fn lemma_free_sound(heap: Heap, payload: nat)
    requires
        heap.wf(),
    ensures
        heap.free(payload).0.wf(),
{
    let i = locate(heap.blocks, payload);
    lemma_locate(heap.blocks, payload);
    if i < heap.blocks.len() && !heap.blocks[i].is_free() {
        let after = heap.free(payload).0.blocks;
        assert forall|a: int, b: int| 0 <= a < b < after.len() implies after[a].payload_end()
            <= after[b].address by {
            assert(heap.blocks[a].payload_end() <= heap.blocks[b].address);
        }
    }
}

/// A bounded tail stays bounded when a payload is given back.
pub proof fn lemma_free_tail_bounded(heap: Heap, payload: nat)
    requires
        heap.tail_bounded(),
    ensures
        heap.free(payload).0.tail_bounded(),
{
    lemma_locate(heap.blocks, payload);
}

/// A bounded tail stays bounded over a request, unless the last block
/// serves the request and less than a header is left between the payload and
/// the region's end. Then the new last header stands right behind the
/// payload and reaches over the end.
pub proof fn lemma_allocate_tail_bounded(heap: Heap, size: nat)
    requires
        heap.wf(),
        heap.tail_bounded(),
        !heap.stuck(size),
    ensures
        ({
            let after = heap.allocate(size).0;
            ||| after.tail_bounded()
            ||| heap.allocate(size).1 matches Ok(payload) && after.blocks.last() == Header::fresh(
                payload + size,
            ) && payload + size + HEADER_SIZE > heap.limit()
        }),
{
    if size > 0 {
        lemma_first_fit_tail(heap.blocks, size, heap.limit());
    } else {
        lemma_allocate_nothing(heap);
    }
}

/// Giving back a payload that is free already, or an address at which no
/// payload starts, is turned down and changes nothing. So of two calls with
/// one address the second always is.
pub proof fn lemma_free_twice(heap: Heap, payload: nat)
    ensures
        ({
            let i = locate(heap.blocks, payload);
            i >= heap.blocks.len() || heap.blocks[i].is_free() ==> heap.free(payload) == (
                heap,
                Err::<(), PallocError>(PallocError::NotAllocated),
            )
        }),
        heap.free(payload).0.free(payload) == (
            heap.free(payload).0,
            Err::<(), PallocError>(PallocError::NotAllocated),
        ),
{
    let i = locate(heap.blocks, payload);
    lemma_locate(heap.blocks, payload);
    if i < heap.blocks.len() && !heap.blocks[i].is_free() {
        let after = heap.free(payload).0.blocks;
        lemma_locate(after, payload);
        let j = locate(after, payload);
        assert(after[i].payload_base() == payload);
        if j < i {
            assert(after[j] == heap.blocks[j]);
        }
    }
}

/// Once every payload is given back, the region is whole again: however
/// the chain is cut up, a request that fits the region behind one header is
/// served, at the bottom.
pub proof fn lemma_reclaimed(heap: Heap, size: nat)
    requires
        heap.wf(),
        all_free(heap.blocks),
        0 < size <= heap.size - HEADER_SIZE,
    ensures
        heap.allocate(size).1 == Ok::<nat, PallocError>(heap.bottom + HEADER_SIZE as nat),
{
    lemma_first_fit_all_free(heap.blocks, size, heap.limit());
}

/// A request that is served and whose payload is then given back leaves a
/// sound heap, with as many free bytes as before, so with no less. The tail
/// is bounded afterwards if it was before, unless the last block served the
/// request and left less than a header behind the payload. A request that is
/// turned down changes no free byte either.
pub proof fn lemma_round_trip(heap: Heap, size: nat)
    requires
        heap.wf(),
        !heap.stuck(size),
    ensures
        heap.allocate(size).1 is Err ==> heap.allocate(size).0.free_bytes() == heap.free_bytes(),
        heap.allocate(size).1 matches Ok(payload) ==> {
            let served = heap.allocate(size).0;
            let back = served.free(payload);
            &&& back.1 == Ok::<(), PallocError>(())
            &&& back.0.wf()
            &&& back.0.free_bytes() == heap.free_bytes()
            &&& back.0.free_bytes() >= heap.free_bytes()
            &&& heap.tail_bounded() ==> back.0.tail_bounded() || (served.blocks.last()
                == Header::fresh(payload + size) && payload + size + HEADER_SIZE > heap.limit())
        },
{
    lemma_allocate_sound(heap, size);
    if size > 0 {
        lemma_first_fit_sound(heap.blocks, size, heap.limit());
        lemma_first_fit_span(heap.blocks, size, heap.limit());
    } else {
        lemma_allocate_nothing(heap);
    }
    if let Ok(payload) = heap.allocate(size).1 {
        let served = heap.allocate(size).0;
        lemma_free_sound(served, payload);
        lemma_locate(served.blocks, payload);
        if heap.tail_bounded() {
            lemma_allocate_tail_bounded(heap, size);
        }
    }
}

} // verus!
