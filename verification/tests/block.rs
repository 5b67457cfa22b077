use palloc::block::{BlockIterator, MemoryBlock};
use palloc::layout::HEADER_SIZE;
use palloc::PallocError;

/// The header addresses of a chain, each with the bytes handed out behind it.
fn headers(block: &MemoryBlock) -> Vec<(usize, bool)> {
    let mut list = block.iter_mut();
    let mut seen = Vec::new();
    while let Some(block) = list.next() {
        seen.push((block.heap() - HEADER_SIZE, block.is_allocated()));
    }
    seen
}

/// A chain of free blocks at the given addresses, in ascending order.
fn free_chain(addresses: &[usize]) -> MemoryBlock {
    let mut block = MemoryBlock::default_from_ptr(addresses[0]);
    for address in addresses[1..].iter().rev() {
        block.insert_default(*address);
    }
    block
}

#[test]
fn header_takes_sixteen_bytes() {
    assert_eq!(HEADER_SIZE, 16);
}

#[test]
fn fresh_block_is_free_and_last() {
    let block = MemoryBlock::default_from_ptr(64);
    assert!(!block.is_allocated());
    assert!(!block.is_linked());
    assert_eq!(block.heap(), 80);
    assert_eq!(block.max_size(), None);
    assert_eq!(block.top(), 64);
}

#[test]
fn max_size_is_distance_to_successor() {
    let block = free_chain(&[64, 100]);
    assert!(block.is_linked());
    assert_eq!(block.max_size(), Some(20));
    assert_eq!(block.top(), 100);
}

#[test]
fn max_size_may_be_zero() {
    let block = free_chain(&[64, 80]);
    assert_eq!(block.max_size(), Some(0));
}

#[test]
fn allocate_on_last_block_takes_any_size() {
    let mut block = MemoryBlock::default_from_ptr(64);
    assert_eq!(block.allocate(1000), Ok(80));
    assert!(block.is_allocated());
}

#[test]
fn allocate_twice_is_refused() {
    let mut block = MemoryBlock::default_from_ptr(64);
    assert_eq!(block.allocate(8), Ok(80));
    assert_eq!(block.allocate(8), Err(PallocError::AlreadyAllocated));
    assert_eq!(block.allocate(0), Err(PallocError::AlreadyAllocated));
}

#[test]
fn allocate_needs_room_before_successor() {
    let mut block = free_chain(&[64, 100]);
    assert_eq!(block.allocate(21), Err(PallocError::NoBlockSpace));
    assert!(!block.is_allocated());
    assert_eq!(block.allocate(20), Ok(80));
    assert!(block.is_allocated());
    assert_eq!(headers(&block), vec![(64, true), (100, false)]);
}

#[test]
fn dealloc_frees_once() {
    let mut block = MemoryBlock::default_from_ptr(64);
    assert_eq!(block.dealloc(), Err(PallocError::NotAllocated));
    block.allocate(8).unwrap();
    assert_eq!(block.dealloc(), Ok(()));
    assert!(!block.is_allocated());
    assert_eq!(block.dealloc(), Err(PallocError::NotAllocated));
}

#[test]
fn link_default_puts_header_behind_payload() {
    let mut block = MemoryBlock::default_from_ptr(64);
    block.allocate(10).unwrap();
    block.link_default();
    assert_eq!(headers(&block), vec![(64, true), (90, false)]);
    assert_eq!(block.max_size(), Some(10));
    assert_eq!(block.top(), 90);
}

#[test]
fn link_default_lets_go_of_old_successor() {
    let mut block = free_chain(&[64, 200, 300]);
    block.allocate(10).unwrap();
    block.link_default();
    assert_eq!(headers(&block), vec![(64, true), (90, false)]);
}

#[test]
fn insert_default_keeps_successor() {
    let mut block = free_chain(&[64, 200]);
    block.insert_default(120);
    assert_eq!(headers(&block), vec![(64, false), (120, false), (200, false)]);
    assert_eq!(block.max_size(), Some(40));
}

#[test]
fn segment_of_last_block_is_refused() {
    let mut block = MemoryBlock::default_from_ptr(64);
    assert_eq!(block.segment(), Err(PallocError::SegmentingTail));
    block.allocate(10).unwrap();
    assert_eq!(block.segment(), Err(PallocError::SegmentingTail));
}

#[test]
fn segment_of_free_block_is_refused() {
    let mut block = free_chain(&[64, 200]);
    assert_eq!(block.segment(), Err(PallocError::NotAllocated));
    assert_eq!(headers(&block), vec![(64, false), (200, false)]);
}

#[test]
fn segment_splits_slack_larger_than_header() {
    // room 120, 103 in use: 17 bytes of slack hold a header and one byte
    let mut block = free_chain(&[64, 200]);
    block.allocate(103).unwrap();
    assert_eq!(block.segment(), Ok(()));
    assert_eq!(headers(&block), vec![(64, true), (183, false), (200, false)]);
    assert_eq!(block.max_size(), Some(103));
}

#[test]
fn segment_keeps_slack_of_header_size() {
    // room 120, 104 in use: 16 bytes of slack hold a header and nothing more
    let mut block = free_chain(&[64, 200]);
    block.allocate(104).unwrap();
    assert_eq!(block.segment(), Ok(()));
    assert_eq!(headers(&block), vec![(64, true), (200, false)]);
    assert_eq!(block.max_size(), Some(120));
}

#[test]
fn segment_keeps_block_without_slack() {
    let mut block = free_chain(&[64, 200]);
    block.allocate(120).unwrap();
    assert_eq!(block.segment(), Ok(()));
    assert_eq!(headers(&block), vec![(64, true), (200, false)]);
}

#[test]
fn merge_stops_when_roomy() {
    let mut block = free_chain(&[64, 100, 140, 180]);
    assert_eq!(block.merge(20), Ok(()));
    assert_eq!(headers(&block), vec![(64, false), (100, false), (140, false), (180, false)]);
    assert_eq!(block.merge(21), Ok(()));
    assert_eq!(headers(&block), vec![(64, false), (140, false), (180, false)]);
    assert_eq!(block.max_size(), Some(60));
}

#[test]
fn merge_swallows_up_to_the_end() {
    let mut block = free_chain(&[64, 100, 140]);
    assert_eq!(block.merge(10_000), Ok(()));
    assert_eq!(headers(&block), vec![(64, false)]);
    assert!(!block.is_linked());
}

#[test]
fn merge_on_last_block_does_nothing() {
    let mut block = MemoryBlock::default_from_ptr(64);
    assert_eq!(block.merge(10_000), Ok(()));
    assert_eq!(headers(&block), vec![(64, false)]);
}

#[test]
fn merge_is_blocked_by_successor_in_use() {
    // 64 free, 100 in use, 140 free
    let mut chain = free_chain(&[64, 100]);
    let successor = chain.from_heap_ptr(116).unwrap();
    successor.allocate(24).unwrap();
    successor.link_default();
    assert_eq!(headers(&chain), vec![(64, false), (100, true), (140, false)]);

    assert_eq!(chain.merge(21), Err(PallocError::NoBlockSpace));
    // the successor in use keeps its own successor
    assert_eq!(headers(&chain), vec![(64, false), (100, true), (140, false)]);
    assert_eq!(chain.merge(20), Ok(()));
    assert_eq!(headers(&chain), vec![(64, false), (100, true), (140, false)]);
}

#[test]
fn merge_keeps_what_it_swallowed_when_blocked() {
    // 64 free, 100 free, 140 in use, 180 free
    let mut chain = free_chain(&[64, 100, 140]);
    let third = chain.from_heap_ptr(156).unwrap();
    third.allocate(24).unwrap();
    third.link_default();
    assert_eq!(headers(&chain), vec![(64, false), (100, false), (140, true), (180, false)]);

    assert_eq!(chain.merge(100), Err(PallocError::NoBlockSpace));
    assert_eq!(headers(&chain), vec![(64, false), (140, true), (180, false)]);
    assert_eq!(chain.max_size(), Some(60));
}

#[test]
fn from_heap_ptr_finds_block_by_payload() {
    let mut chain = free_chain(&[64, 100, 140]);
    assert_eq!(chain.from_heap_ptr(116).map(|block| block.heap()), Some(116));
    assert_eq!(chain.from_heap_ptr(80).map(|block| block.top()), Some(140));
    assert!(chain.from_heap_ptr(100).is_none());
    assert!(chain.from_heap_ptr(0).is_none());
    assert!(chain.from_heap_ptr(172).is_none());
    assert_eq!(chain.from_heap_ptr_unchecked(156).heap(), 156);
}

#[test]
fn from_heap_ptr_gives_a_block_to_change() {
    let mut chain = free_chain(&[64, 100, 140]);
    chain.from_heap_ptr(116).unwrap().allocate(24).unwrap();
    assert_eq!(headers(&chain), vec![(64, false), (100, true), (140, false)]);
}

#[test]
fn iterator_walks_in_link_order() {
    let chain = free_chain(&[64, 100, 140]);
    let mut list = BlockIterator::new(&chain);
    assert_eq!(list.current_mut().map(|block| block.heap()), Some(80));
    assert_eq!(list.next().map(|block| block.heap()), Some(80));
    assert_eq!(list.current_mut().map(|block| block.heap()), Some(116));
    assert_eq!(list.next().map(|block| block.heap()), Some(116));
    assert_eq!(list.next().map(|block| block.heap()), Some(156));
    assert!(list.current_mut().is_none());
    assert!(list.next().is_none());
    assert!(list.next().is_none());
}

#[test]
fn iterator_starts_at_its_block() {
    let mut chain = free_chain(&[64, 100, 140]);
    let second = chain.from_heap_ptr(116).unwrap();
    assert_eq!(headers(second), vec![(100, false), (140, false)]);
}

#[test]
fn first_fit_serves_from_last_block() {
    let mut chain = MemoryBlock::default_from_ptr(64);
    assert_eq!(chain.first_fit(30, 200), Ok(80));
    assert_eq!(headers(&chain), vec![(64, true), (110, false)]);
}

#[test]
fn first_fit_fills_region_to_the_last_byte() {
    let mut chain = MemoryBlock::default_from_ptr(64);
    assert_eq!(chain.first_fit(121, 200), Err(PallocError::OutOfMemory));
    assert_eq!(headers(&chain), vec![(64, false)]);
    assert_eq!(chain.first_fit(120, 200), Ok(80));
    assert_eq!(headers(&chain), vec![(64, true), (200, false)]);
    // the last header stands at the limit: nothing fits behind it
    assert_eq!(chain.first_fit(1, 200), Err(PallocError::OutOfMemory));
}

#[test]
fn first_fit_passes_blocks_in_use() {
    let mut chain = MemoryBlock::default_from_ptr(64);
    assert_eq!(chain.first_fit(10, 400), Ok(80));
    assert_eq!(chain.first_fit(10, 400), Ok(106));
    assert_eq!(chain.first_fit(10, 400), Ok(132));
    assert_eq!(headers(&chain), vec![(64, true), (90, true), (116, true), (142, false)]);
}

#[test]
fn first_fit_passes_block_that_cannot_grow() {
    let mut chain = MemoryBlock::default_from_ptr(64);
    chain.first_fit(20, 400).unwrap();
    chain.first_fit(20, 400).unwrap();
    chain.dealloc().unwrap();
    assert_eq!(headers(&chain), vec![(64, false), (100, true), (136, false)]);
    assert_eq!(chain.first_fit(21, 400), Ok(152));
    assert_eq!(headers(&chain), vec![(64, false), (100, true), (136, true), (173, false)]);
    assert_eq!(chain.first_fit(20, 400), Ok(80));
    assert_eq!(headers(&chain), vec![(64, true), (100, true), (136, true), (173, false)]);
}

#[test]
fn first_fit_coalesces_then_splits() {
    let mut chain = free_chain(&[64, 100, 140, 300]);
    assert_eq!(chain.first_fit(30, 400), Ok(80));
    // 64 swallowed 100, took 30 of its 60 bytes, and split the rest off
    assert_eq!(headers(&chain), vec![(64, true), (110, false), (140, false), (300, false)]);
    assert_eq!(chain.max_size(), Some(30));
}

#[test]
fn first_fit_turns_down_request_for_no_bytes() {
    let mut chain = free_chain(&[64, 100]);
    assert!(chain.answers(0, 400));
    assert_eq!(chain.first_fit(0, 400), Err(PallocError::NotAllocated));
    assert_eq!(headers(&chain), vec![(64, false), (100, false)]);
}

#[test]
fn answers_tells_where_a_request_gets_stuck() {
    let chain = MemoryBlock::default_from_ptr(64);
    assert!(!chain.answers(0, 400));
    assert!(!chain.answers(0, 80));
    assert!(chain.answers(0, 79));
    assert!(chain.answers(1, 79));
    let mut chain = MemoryBlock::default_from_ptr(64);
    chain.allocate(10).unwrap();
    chain.link_default();
    assert!(!chain.answers(0, 400));
    assert!(chain.answers(0, 100));
    assert_eq!(chain.first_fit(0, 100), Err(PallocError::OutOfMemory));
}
