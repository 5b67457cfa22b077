//! A first-fit allocator over one contiguous region of memory.
//!
//! The region is cut into blocks. Every block starts with a header of
//! [`layout::HEADER_SIZE`] bytes; the payload follows the header and runs up
//! to the next header. The allocator keeps the book on the blocks as a chain
//! of records in address order, one record for each header, and deals in
//! addresses: it never touches the bytes of the region.
//!
//! A request is served by the first free block that can hold it. Payloads
//! that are given back are coalesced lazily, by the next request that finds
//! a free block too small, and what a request leaves over of its block
//! becomes a free block again.
//!
//! [`Palloc`] is the allocator, [`block::MemoryBlock`] one block with the
//! chain behind it. Their contracts speak of sequences of
//! [`layout::Header`], of which [`lemmas`] proves what the contracts rest
//! on, and of [`heap::Heap`], the state of an allocator, of which [`heap`]
//! proves what holds over any sequence of requests.

pub mod block;
pub mod error;
pub mod heap;
pub mod layout;
pub mod lemmas;
pub mod palloc;

pub use crate::palloc::{Palloc, PallocError};
