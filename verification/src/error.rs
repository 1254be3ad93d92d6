//! The fatal conditions that an operation of the engine can report.

use vstd::prelude::*;

verus! {

/// Why an operation was abandoned. Each of these stops the operation before it
/// changes anything.
#[derive(Debug, Clone, Copy, PartialEq, Eq, Structural)]
pub enum FsError {
    /// A block had to be brought into the cache while every entry was pinned.
    CacheExhausted,
    /// A unit was freed that is not allocated.
    DoubleFree,
    /// No inode is free.
    InodeExhausted,
    /// The data area has fewer free blocks than the operation needs.
    NoSpace,
    /// The size asked for is more than an inode can address.
    FileTooLarge,
    /// A name stored in a directory is not UTF-8.
    BadName,
}

} // verus!
