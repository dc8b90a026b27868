//! A block-addressable filesystem core: a fixed-geometry block device held as
//! one contiguous byte image, a write-back cache with type-tagged entries, a
//! bitmap allocator for blocks, an allocator with per-slot flags for inodes,
//! and the format / mount / close lifecycle that ties them together.

pub mod block_number;
pub mod cache;
pub mod device;
pub mod fs;
pub mod maps;

pub use block_number::BlockNumber;
