//! An append-only, page-structured key-value store.
//!
//! Records (`Entry`) are packed into fixed-size pages; a memory-resident
//! key directory maps each live key to the page and offset of its newest
//! record. A buffer pool keeps one writable current page and a fixed set
//! of read-only frames with LRU-K replacement.

use vstd::prelude::*;

pub mod buf;
pub mod entry;
pub mod keydir;
pub mod manager;
pub mod page;
pub mod replacer;
pub mod store;

verus! {

/// Size in bytes of one page, the unit of disk I/O.
pub const PAGE_SIZE: usize = 4096;

/// Byte length of the fixed entry header: tag, time, key length, value length.
pub const HEADER_SIZE: usize = 25;

/// Failures the engine reports to its callers.
#[derive(Clone, Copy, Debug, PartialEq, Eq, Structural)]
pub enum StoreError {
    /// Malformed bytes where a record was expected.
    Corrupt,
    /// The record does not fit a page even when alone.
    EntryTooLarge,
    /// The key is not in the key directory.
    NotFound,
    /// Every frame is occupied and none is evictable.
    NoFreeFrame,
}

} // verus!
