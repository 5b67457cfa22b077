use crate::block::MemoryBlock;
use crate::heap::{
    lemma_allocate_nothing, lemma_allocate_sound, lemma_allocate_tail_bounded,
    lemma_free_tail_bounded, Heap,
};
use crate::layout::{locate, Header, HEADER_SIZE};
use crate::lemmas::lemma_locate;
use vstd::prelude::*;

pub use crate::error::PallocError;

verus! {

/// An allocator over one contiguous region of memory.
///
/// A value made by [`Palloc::empty`] manages nothing; [`Palloc::init`] gives
/// it a region. The allocator keeps the book on the region and never touches
/// the bytes in it: it deals in addresses.
pub struct Palloc {
    bottom: usize,
    size: usize,
    origin: Option<MemoryBlock>,
}

impl View for Palloc {
    type V = Heap;

    closed spec fn view(&self) -> Heap {
        Heap {
            bottom: self.bottom as nat,
            size: self.size as nat,
            blocks: match self.origin {
                Some(origin) => origin@,
                None => Seq::empty(),
            },
        }
    }
}

impl Palloc {
    /// The allocator has a region, its chain is sound, and a header right
    /// behind the region would still have an address.
    pub open spec fn wf(&self) -> bool {
        &&& self@.wf()
        &&& self@.limit() + HEADER_SIZE <= usize::MAX
    }

    /// An allocator without a region. It takes no requests before `init`.
    pub fn empty() -> (palloc: Palloc)
        ensures
            palloc@ == (Heap { bottom: 0, size: 0, blocks: Seq::empty() }),
    {
        Palloc { bottom: 0, size: 0, origin: None }
    }

    /// Whether `init` has given the allocator a region.
    pub fn is_initialized(&self) -> (b: bool)
        ensures
            b == (self@.blocks.len() > 0),
    {
        proof {
            if let Some(origin) = &self.origin {
                origin.lemma_words();
            }
        }
        self.origin.is_some()
    }

    /// The first block of the chain, at the bottom of the region.
    pub fn get_origin(&self) -> (origin: &MemoryBlock)
        requires
            self@.blocks.len() > 0,
        ensures
            origin@ == self@.blocks,
    {
        self.origin.as_ref().unwrap()
    }

    /// Takes over the `size` bytes at `bottom` as one free block. Whatever
    /// the allocator managed before is forgotten.
    pub fn init(&mut self, bottom: usize, size: usize)
        requires
            size >= HEADER_SIZE,
            bottom + size + HEADER_SIZE <= usize::MAX,
        ensures
            final(self).wf(),
            final(self)@ == Heap::fresh(bottom as nat, size as nat),
            final(self)@.tail_bounded(),
    {
        self.bottom = bottom;
        self.size = size;
        self.origin = Some(MemoryBlock::default_from_ptr(bottom));
    }

    /// Whether a request for `size` bytes has an answer. Every request for
    /// at least one byte has. One for no bytes has none where the first
    /// free block is the last block and starts within the region.
    pub fn answers(&self, size: usize) -> (b: bool)
        requires
            self.wf(),
        ensures
            b == !self@.stuck(size as nat),
    {
        let limit = self.bottom + self.size;
        self.get_origin().answers(size, limit)
    }

    /// Hands out `size` bytes and returns the address of the first of them.
    ///
    /// The chain is searched from the bottom for the first free block that
    /// can hold the request. A free block that is too small first swallows
    /// the free blocks right behind it. What the chosen block has left over
    /// becomes a free block again.
    ///
    /// A request for no bytes is turned down by the first free block, and
    /// nothing changes.
    pub fn allocate(&mut self, size: usize) -> (r: Result<usize, PallocError>)
        requires
            old(self).wf(),
            !old(self)@.stuck(size as nat),
        ensures
            final(self).wf(),
            final(self)@ == old(self)@.allocate(size as nat).0,
            old(self)@.allocate(size as nat).1 == match r {
                Ok(payload) => Ok::<nat, PallocError>(payload as nat),
                Err(e) => Err::<nat, PallocError>(e),
            },
            r matches Ok(payload) ==> size > 0 && old(self)@.bottom + HEADER_SIZE <= payload
                && payload + size <= old(self)@.limit(),
            r matches Err(e) ==> e == PallocError::OutOfMemory || (e == PallocError::NotAllocated
                && size == 0),
            old(self)@.tail_bounded() ==> final(self)@.tail_bounded() || (r matches Ok(payload)
                && final(self)@.blocks.last() == Header::fresh((payload + size) as nat) && payload
                + size + HEADER_SIZE > old(self)@.limit()),
    {
        proof {
            lemma_allocate_sound(self@, size as nat);
            if size == 0 {
                lemma_allocate_nothing(self@);
            }
            if self@.tail_bounded() {
                lemma_allocate_tail_bounded(self@, size as nat);
            }
        }
        let limit = self.bottom + self.size;
        match &mut self.origin {
            Some(origin) => origin.first_fit(size, limit),
            None => {
                assert(false);
                Err(PallocError::OutOfMemory)
            },
        }
    }

    /// Gives back the payload at address `alloc`. An address at which no
    /// payload in use starts is turned down, and nothing changes.
    pub fn free(&mut self, alloc: usize) -> (r: Result<(), PallocError>)
        requires
            old(self).wf(),
        ensures
            final(self).wf(),
            final(self)@ == old(self)@.free(alloc as nat).0,
            r == old(self)@.free(alloc as nat).1,
            old(self)@.tail_bounded() ==> final(self)@.tail_bounded(),
    {
        let ghost blocks = self@.blocks;
        proof {
            lemma_locate(blocks, alloc as nat);
            if self@.tail_bounded() {
                lemma_free_tail_bounded(self@, alloc as nat);
            }
        }
        let r = match &mut self.origin {
            Some(origin) => {
                match origin.from_heap_ptr(alloc) {
                    Some(block) => {
                        if block.is_allocated() {
                            block.dealloc()
                        } else {
                            Err(PallocError::NotAllocated)
                        }
                    },
                    None => Err(PallocError::NotAllocated),
                }
            },
            None => Err(PallocError::NotAllocated),
        };
        proof {
            let i = locate(blocks, alloc as nat);
            if i < blocks.len() {
                assert(blocks.skip(i)[0] == blocks[i]);
                if !blocks[i].is_free() {
                    assert(self@.blocks =~= blocks.update(i, blocks[i].holding(0)));
                } else {
                    assert(self@.blocks =~= blocks);
                }
            }
        }
        r
    }
}

} // verus!
