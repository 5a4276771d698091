use vstd::prelude::*;

verus! {

/// Identifier of a page in the data file; `0` is reserved: it is both the
/// "none" sentinel and the id of the metadata page, which is never a child.
pub type PageId = u32;

/// Index of a slot in the buffer pool; `0` is reserved for the meta page.
pub type BufferId = u32;

/// Index of an item inside a page.
pub type ItemPointer = usize;

pub type Key = Vec<u8>;

pub type Value = Vec<u8>;

/// Size of one page, on disk and in the pool.
pub const PAGE_SIZE: usize = 8192;

/// The page header holds only the number of items.
pub const PAGE_HEADER_SIZE: usize = 2;

/// Bytes used to store a `PageId`.
pub const PID_SIZE: usize = 4;

/// Bytes used to store a length in the free-list page encoding.
pub const USIZE_SIZE: usize = 8;

/// Packed size of the metadata header kept at offset 0 of page 0.
pub const METADATA_SIZE: usize = 16;

/// The id of the metadata page.
pub const META_PID: PageId = 0;

/// A key must fit its length in one byte, and may not be empty.
pub const MAX_KEY_LEN: usize = 255;

/// Bound on value length, so that a page always fits at least three items.
pub const MAX_VALUE_LEN: usize = PAGE_SIZE / 4;

} // verus!
