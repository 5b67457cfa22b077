use crate::error::PallocError;
use crate::layout::{
    first_fit, linked, locate, merged, room, roomy, segmented, stuck, Header, HEADER_SIZE,
};
use crate::lemmas::{
    lemma_first_fit_merged, lemma_linked_parts, lemma_locate, lemma_merged_shape,
    lemma_segmented_linked,
};
use vstd::prelude::*;

verus! {

/// One block of the chain, together with all the blocks behind it.
///
/// A block records the address of its header and the number of payload bytes
/// handed out (zero for a free block), and owns its successor. The payload
/// starts right behind the header and runs up to the successor's header. The
/// last block of a chain has no successor.
pub struct MemoryBlock {
    address: usize,
    allocation: usize,
    next: Option<Box<MemoryBlock>>,
}

impl View for MemoryBlock {
    type V = Seq<Header>;

    /// The headers of this block and of the blocks behind it, in link order.
    closed spec fn view(&self) -> Seq<Header> {
        self.chain()
    }
}

impl MemoryBlock {
    spec fn head(&self) -> Header {
        Header { address: self.address as nat, allocation: self.allocation as nat }
    }

    spec fn chain(&self) -> Seq<Header>
        decreases self,
    {
        match self.next {
            Some(next) => seq![self.head()] + next.chain(),
            None => seq![self.head()],
        }
    }

    /// The chain is in address order without overlap, and the last payload
    /// base is an address of the machine.
    pub open spec fn wf(&self) -> bool {
        &&& linked(self@)
        &&& self@.last().payload_base() <= usize::MAX
    }

    /// A chain has at least one block, and what it records are machine words.
    pub proof fn lemma_words(&self)
        ensures
            self@.len() > 0,
            forall|i: int|
                0 <= i < self@.len() ==> (#[trigger] self@[i]).address <= usize::MAX
                    && self@[i].allocation <= usize::MAX,
        decreases self,
    {
        match self.next {
            Some(next) => {
                next.lemma_words();
            },
            None => {},
        }
    }

    /// A free block at `address`, with no successor.
    pub fn default_from_ptr(address: usize) -> (block: MemoryBlock)
        ensures
            block@ == seq![Header::fresh(address as nat)],
            address + HEADER_SIZE <= usize::MAX ==> block.wf(),
    {
        MemoryBlock { address, allocation: 0, next: None }
    }

    /// Whether the block's payload is handed out.
    pub fn is_allocated(&self) -> (b: bool)
        ensures
            b == !self@[0].is_free(),
    {
        self.allocation != 0
    }

    /// Whether the block has a successor.
    pub fn is_linked(&self) -> (b: bool)
        ensures
            b == (self@.len() > 1),
    {
        proof {
            self.lemma_successor();
        }
        self.next.is_some()
    }

    /// The address of the first payload byte.
    pub fn heap(&self) -> (base: usize)
        requires
            self.wf(),
        ensures
            base == self@[0].payload_base(),
    {
        proof {
            self.lemma_successor();
        }
        self.address + HEADER_SIZE
    }

    /// The payload bytes that this block can hold where it stands, or `None`
    /// for the last block, whose room is bounded by the region alone.
    pub fn max_size(&self) -> (max: Option<usize>)
        requires
            self.wf(),
        ensures
            self@.len() == 1 ==> max is None,
            self@.len() > 1 ==> max == Some(room(self@) as usize) && room(self@) >= 0,
    {
        proof {
            self.lemma_successor();
        }
        match &self.next {
            Some(next) => Some(next.address - (self.address + HEADER_SIZE)),
            None => None,
        }
    }

    /// Hands out `size` bytes of a free block and returns the payload's
    /// address. A block with a successor must have room for them; for the
    /// last block the caller answers for the region's end.
    pub fn allocate(&mut self, size: usize) -> (r: Result<usize, PallocError>)
        requires
            old(self).wf(),
        ensures
            final(self).wf(),
            !old(self)@[0].is_free() ==> r == Err::<usize, PallocError>(
                PallocError::AlreadyAllocated,
            ) && final(self)@ == old(self)@,
            old(self)@[0].is_free() && !roomy(old(self)@, size as nat) ==> r == Err::<
                usize,
                PallocError,
            >(PallocError::NoBlockSpace) && final(self)@ == old(self)@,
            old(self)@[0].is_free() && roomy(old(self)@, size as nat) ==> r == Ok::<
                usize,
                PallocError,
            >(old(self)@[0].payload_base() as usize) && final(self)@ == old(self)@.update(
                0,
                old(self)@[0].holding(size as nat),
            ),
    {
        proof {
            self.lemma_successor();
        }
        match (self.allocation, self.max_size()) {
            (0, Some(maxsize)) if maxsize < size => Err(PallocError::NoBlockSpace),
            (0, _) => {
                self.allocation = size;
                proof {
                    self.lemma_successor();
                    self.lemma_joined();
                    assert(self@ =~= old(self)@.update(0, old(self)@[0].holding(size as nat)));
                }
                Ok(self.heap())
            },
            (_, _) => Err(PallocError::AlreadyAllocated),
        }
    }

    /// Gives the block's payload back.
    pub fn dealloc(&mut self) -> (r: Result<(), PallocError>)
        ensures
            old(self)@[0].is_free() ==> r == Err::<(), PallocError>(PallocError::NotAllocated)
                && final(self)@ == old(self)@,
            !old(self)@[0].is_free() ==> r == Ok::<(), PallocError>(()) && final(self)@ == old(
                self,
            )@.update(0, old(self)@[0].holding(0)),
            old(self).wf() ==> final(self).wf(),
    {
        proof {
            self.lemma_successor();
        }
        match self.allocation {
            0 => Err(PallocError::NotAllocated),
            _ => {
                self.allocation = 0;
                proof {
                    self.lemma_successor();
                    assert(self@ =~= old(self)@.update(0, old(self)@[0].holding(0)));
                    if old(self).wf() {
                        self.lemma_joined();
                    }
                }
                Ok(())
            },
        }
    }

    /// Puts a free block at `address` between this block and its successor.
    pub fn insert_default(&mut self, address: usize)
        requires
            old(self).wf(),
            old(self)@[0].payload_end() <= address,
            address + HEADER_SIZE <= usize::MAX,
            old(self)@.len() > 1 ==> address + HEADER_SIZE <= old(self)@[1].address,
        ensures
            final(self).wf(),
            final(self)@ == old(self)@.insert(1, Header::fresh(address as nat)),
    {
        proof {
            self.lemma_successor();
        }
        let inserted = MemoryBlock { address, allocation: 0, next: self.next.take() };
        proof {
            inserted.lemma_successor();
            inserted.lemma_joined();
        }
        self.next = Some(Box::new(inserted));
        proof {
            self.lemma_successor();
            self.lemma_joined();
            assert(self@ =~= old(self)@.insert(1, Header::fresh(address as nat)));
        }
    }

    /// Lets the first block swallow free successors until it has room for
    /// `target_size` bytes or has become the last block. Fails, with what it
    /// has swallowed so far, when the next successor is in use.
    pub fn merge(&mut self, target_size: usize) -> (r: Result<(), PallocError>)
        requires
            old(self).wf(),
        ensures
            final(self).wf(),
            final(self)@ == merged(old(self)@, target_size as nat),
            roomy(final(self)@, target_size as nat) ==> r == Ok::<(), PallocError>(()),
            !roomy(final(self)@, target_size as nat) ==> r == Err::<(), PallocError>(
                PallocError::NoBlockSpace,
            ),
    {
        loop
            invariant
                self.wf(),
                merged(self@, target_size as nat) == merged(old(self)@, target_size as nat),
            decreases self@.len(),
        {
            proof {
                self.lemma_successor();
            }
            match self.max_size() {
                None => {
                    return Ok(());
                },
                Some(maxsize) => {
                    if maxsize >= target_size {
                        return Ok(());
                    }
                },
            }
            let ghost before = self@;
            let mut successor = self.next.take().unwrap();
            proof {
                successor.lemma_successor();
            }
            if successor.allocation != 0 {
                self.next = Some(successor);
                proof {
                    self.lemma_successor();
                    assert(self@ =~= before);
                }
                return Err(PallocError::NoBlockSpace);
            }
            self.next = successor.next.take();
            proof {
                self.lemma_successor();
                assert(self@ =~= before.remove(1));
                self.lemma_joined();
            }
        }
    }

    /// Turns the slack behind the payload of a block in use into a free
    /// block, when the slack is larger than a header.
    pub fn segment(&mut self) -> (r: Result<(), PallocError>)
        requires
            old(self).wf(),
        ensures
            final(self).wf(),
            old(self)@.len() == 1 ==> r == Err::<(), PallocError>(PallocError::SegmentingTail)
                && final(self)@ == old(self)@,
            old(self)@.len() > 1 && old(self)@[0].is_free() ==> r == Err::<(), PallocError>(
                PallocError::NotAllocated,
            ) && final(self)@ == old(self)@,
            old(self)@.len() > 1 && !old(self)@[0].is_free() ==> r == Ok::<(), PallocError>(())
                && final(self)@ == segmented(old(self)@),
    {
        proof {
            self.lemma_successor();
        }
        let maxsize = self.max_size().ok_or(PallocError::SegmentingTail)?;
        let allocated = match self.allocation {
            0 => Err(PallocError::NotAllocated),
            n => Ok(n),
        }?;
        if allocated + HEADER_SIZE < maxsize {
            let newblock = self.heap() + allocated;
            self.insert_default(newblock);
        }
        Ok(())
    }

    /// Gives a block in use a fresh free successor right behind its payload.
    /// Whatever stood behind the block is let go.
    pub fn link_default(&mut self)
        requires
            old(self).wf(),
            !old(self)@[0].is_free(),
            old(self)@[0].payload_end() + HEADER_SIZE <= usize::MAX,
        ensures
            final(self).wf(),
            final(self)@ == seq![old(self)@[0], Header::fresh(old(self)@[0].payload_end())],
    {
        proof {
            self.lemma_successor();
        }
        let new_link = MemoryBlock::default_from_ptr(self.heap() + self.allocation);
        self.next = Some(Box::new(new_link));
        proof {
            self.lemma_successor();
            self.lemma_joined();
            assert(self@ =~= seq![old(self)@[0], Header::fresh(old(self)@[0].payload_end())]);
        }
    }

    /// The address of the last block's header.
    pub fn top(&self) -> (address: usize)
        ensures
            address == self@.last().address,
        decreases self,
    {
        proof {
            self.lemma_successor();
        }
        match &self.next {
            Some(next) => {
                proof {
                    next.lemma_words();
                }
                next.top()
            },
            None => self.address,
        }
    }

    /// Serves a request for `size` bytes from this chain, in a region that
    /// ends at `limit`: first fit, coalescing free neighbours where a free
    /// block is too small. Returns the payload's address.
    pub fn first_fit(&mut self, size: usize, limit: usize) -> (r: Result<usize, PallocError>)
        requires
            old(self).wf(),
            old(self)@.last().is_free(),
            old(self)@.last().address <= limit,
            limit + HEADER_SIZE <= usize::MAX,
            !stuck(old(self)@, size as nat, limit as nat),
        ensures
            final(self).wf(),
            final(self)@.last().is_free(),
            final(self)@.last().address <= limit,
            final(self)@[0].address == old(self)@[0].address,
            final(self)@ == first_fit(old(self)@, size as nat, limit as nat).0,
            first_fit(old(self)@, size as nat, limit as nat).1 == match r {
                Ok(payload) => Ok::<nat, PallocError>(payload as nat),
                Err(e) => Err::<nat, PallocError>(e),
            },
        decreases old(self)@.len(),
    {
        proof {
            self.lemma_successor();
        }
        if !self.is_allocated() {
            let fits = match self.max_size() {
                Some(max) if max < size => self.merge(size).is_ok(),
                _ => true,
            };
            proof {
                if !roomy(old(self)@, size as nat) {
                    lemma_first_fit_merged(old(self)@, size as nat, limit as nat);
                }
                lemma_merged_shape(old(self)@, size as nat);
            }
            if fits {
                return self.serve(size, limit);
            }
        }
        // a block in use, or a free one that cannot grow: the search goes on
        // behind it, and ends at the last block, which is free
        let ghost passed = self@;
        proof {
            self.lemma_successor();
        }
        let r = match &mut self.next {
            Some(next) => next.first_fit(size, limit),
            None => {
                assert(false);
                Err(PallocError::OutOfMemory)
            },
        };
        proof {
            self.lemma_successor();
            self.lemma_joined();
            assert(self@ =~= seq![passed[0]] + first_fit(
                passed.skip(1),
                size as nat,
                limit as nat,
            ).0);
        }
        r
    }

    /// Serves a request from the first block, which is free and roomy for
    /// it: the last block if the region has room, a block with a successor
    /// as it stands.
    fn serve(&mut self, size: usize, limit: usize) -> (r: Result<usize, PallocError>)
        requires
            old(self).wf(),
            old(self)@[0].is_free(),
            roomy(old(self)@, size as nat),
            old(self)@.last().is_free(),
            old(self)@.last().address <= limit,
            limit + HEADER_SIZE <= usize::MAX,
            !stuck(old(self)@, size as nat, limit as nat),
        ensures
            final(self).wf(),
            final(self)@.last().is_free(),
            final(self)@.last().address <= limit,
            final(self)@[0].address == old(self)@[0].address,
            final(self)@ == first_fit(old(self)@, size as nat, limit as nat).0,
            first_fit(old(self)@, size as nat, limit as nat).1 == match r {
                Ok(payload) => Ok::<nat, PallocError>(payload as nat),
                Err(e) => Err::<nat, PallocError>(e),
            },
    {
        proof {
            self.lemma_successor();
        }
        let is_tail = !self.is_linked();
        if is_tail {
            let base = self.heap();
            if base > limit || size > limit - base {
                return Err(PallocError::OutOfMemory);
            }
        }
        let allocation = self.allocate(size)?;
        if is_tail {
            self.link_default();
        } else {
            self.segment()?;
            proof {
                if size > 0 {
                    lemma_segmented_linked(old(self)@.update(0, old(self)@[0].holding(size as nat)));
                }
            }
        }
        Ok(allocation)
    }

    /// Whether a request for `size` bytes has an answer in this chain, in a
    /// region that ends at `limit`. Every request for at least one byte has.
    /// One for no bytes has none where the first free block is the last
    /// block and starts within `limit`.
    pub fn answers(&self, size: usize, limit: usize) -> (b: bool)
        requires
            self.wf(),
        ensures
            b == !stuck(self@, size as nat, limit as nat),
    {
        if size > 0 {
            return true;
        }
        let mut list = self.iter_mut();
        loop
            invariant
                size == 0,
                list@.len() > 0 ==> linked(list@) && list@.last().payload_base() <= usize::MAX,
                stuck(list@, 0, limit as nat) == stuck(self@, 0, limit as nat),
            decreases list@.len(),
        {
            let ghost ahead = list@;
            match list.next() {
                None => {
                    return true;
                },
                Some(block) => {
                    if !block.is_allocated() {
                        return block.is_linked() || block.heap() > limit;
                    }
                    proof {
                        if ahead.len() > 1 {
                            lemma_linked_parts(ahead);
                        }
                    }
                },
            }
        }
    }

    /// The block of this chain whose payload starts at `heap`, if there is
    /// one.
    pub fn from_heap_ptr(&mut self, heap: usize) -> (r: Option<&mut MemoryBlock>)
        requires
            old(self).wf(),
        ensures
            locate(old(self)@, heap as nat) >= old(self)@.len() ==> r is None && final(self)@
                == old(self)@,
            locate(old(self)@, heap as nat) < old(self)@.len() ==> r is Some && r.unwrap().wf()
                && r.unwrap()@ == old(self)@.skip(locate(old(self)@, heap as nat)) && final(self)@
                == old(self)@.take(locate(old(self)@, heap as nat)) + final(r.unwrap())@,
        decreases old(self)@.len(),
    {
        proof {
            self.lemma_successor();
            final(self).lemma_successor();
        }
        if self.heap() == heap {
            proof {
                assert(self@.skip(0) =~= self@);
                assert forall|x: Seq<Header>| #[trigger] (self@.take(0) + x) == x by {
                    assert(self@.take(0) + x =~= x);
                }
            }
            Some(self)
        } else {
            let ghost before = self@;
            match &mut self.next {
                Some(next) => {
                    let ghost behind = next@;
                    let r = next.from_heap_ptr(heap);
                    proof {
                        let i = locate(behind, heap as nat);
                        lemma_locate(behind, heap as nat);
                        assert(before.skip(1) =~= behind);
                        if i < behind.len() {
                            assert(before.skip(1 + i) =~= behind.skip(i));
                            let head = seq![before[0]];
                            assert forall|x: Seq<Header>| #[trigger]
                                (before.take(1 + i) + x) == head + (behind.take(i) + x) by {
                                assert(before.take(1 + i) + x =~= head + (behind.take(i) + x));
                            }
                        }
                    }
                    r
                },
                None => {
                    proof {
                        assert(locate(before.skip(1), heap as nat) == 0);
                    }
                    None
                },
            }
        }
    }

    /// The block of this chain whose payload starts at `heap`.
    pub fn from_heap_ptr_unchecked(&mut self, heap: usize) -> (block: &mut MemoryBlock)
        requires
            old(self).wf(),
            locate(old(self)@, heap as nat) < old(self)@.len(),
        ensures
            block.wf(),
            block@ == old(self)@.skip(locate(old(self)@, heap as nat)),
            final(self)@ == old(self)@.take(locate(old(self)@, heap as nat)) + final(block)@,
    {
        self.from_heap_ptr(heap).unwrap()
    }

    /// A walk over this block and the blocks behind it, in link order.
    pub fn iter_mut(&self) -> (list: BlockIterator<'_>)
        ensures
            list@ == self@,
    {
        BlockIterator::new(self)
    }

    proof fn lemma_joined(&self)
        requires
            self.address + HEADER_SIZE <= usize::MAX,
            self.next matches Some(next) ==> next.wf() && self.address + HEADER_SIZE
                + self.allocation <= next.address,
        ensures
            self.wf(),
    {
        self.lemma_words();
        match self.next {
            Some(next) => {
                next.lemma_words();
                assert(self@ =~= seq![self.head()] + next@);
                assert forall|i: int, j: int| 0 <= i < j < self@.len() implies
                    self@[i].payload_end() <= self@[j].address by {
                    assert(self@[j] == next@[j - 1]);
                    if i == 0 {
                        if j > 1 {
                            assert(next@[0].payload_end() <= next@[j - 1].address);
                        }
                    } else {
                        assert(self@[i] == next@[i - 1]);
                    }
                }
                assert(self@.last() == next@.last());
            },
            None => {},
        }
    }

    proof fn lemma_successor(&self)
        ensures
            self@.len() > 0,
            self@[0] == self.head(),
            self.next is None <==> self@.len() == 1,
            self.next matches Some(next) ==> self@ == seq![self.head()] + next@ && self@[1]
                == next.head() && self@.skip(1) == next@,
            self.wf() ==> self.address + HEADER_SIZE <= usize::MAX,
            self.wf() ==> (self.next matches Some(next) ==> next.wf() && self.address + HEADER_SIZE
                + self.allocation <= next.address),
    {
        self.lemma_words();
        match self.next {
            Some(next) => {
                next.lemma_words();
                assert(self@.skip(1) =~= next@);
                if self.wf() {
                    assert(self@[0].payload_end() <= self@[1].address);
                    assert(linked(next@)) by {
                        assert forall|i: int, j: int| 0 <= i < j < next@.len() implies
                            next@[i].payload_end() <= next@[j].address by {
                            assert(self@[i + 1] == next@[i]);
                            assert(self@[j + 1] == next@[j]);
                        }
                    }
                    assert(next@.last() == self@.last());
                }
            },
            None => {},
        }
    }

}

/// A walk along a chain: it hands out one block after the other, each with
/// the blocks behind it, until the chain ends.
pub struct BlockIterator<'a> {
    current: Option<&'a MemoryBlock>,
}

impl<'a> View for BlockIterator<'a> {
    type V = Seq<Header>;

    /// The headers that the walk has still to hand out.
    closed spec fn view(&self) -> Seq<Header> {
        match self.current {
            Some(block) => block@,
            None => Seq::empty(),
        }
    }
}

impl<'a> BlockIterator<'a> {
    /// A walk that starts at `start`.
    pub fn new(start: &'a MemoryBlock) -> (list: Self)
        ensures
            list@ == start@,
    {
        BlockIterator { current: Some(start) }
    }

    /// The block that `next` would hand out, without moving on.
    pub fn current_mut(&self) -> (block: Option<&'a MemoryBlock>)
        ensures
            self@.len() == 0 ==> block is None,
            self@.len() > 0 ==> block is Some && block.unwrap()@ == self@,
    {
        proof {
            if let Some(b) = self.current {
                b.lemma_words();
            }
        }
        self.current
    }

    /// Hands out the current block and moves on to its successor.
    pub fn next(&mut self) -> (block: Option<&'a MemoryBlock>)
        ensures
            old(self)@.len() == 0 ==> block is None && final(self)@ == old(self)@,
            old(self)@.len() > 0 ==> block is Some && block.unwrap()@ == old(self)@ && final(self)@
                == old(self)@.skip(1),
    {
        match self.current {
            None => None,
            Some(current) => {
                proof {
                    current.lemma_successor();
                }
                self.current = match &current.next {
                    Some(block) => {
                        let successor: &'a MemoryBlock = &**block;
                        Some(successor)
                    },
                    None => None,
                };
                proof {
                    assert(self@ =~= current@.skip(1));
                }
                Some(current)
            },
        }
    }
}

} // verus!
