//! A block-addressed filesystem engine over a raw block device, for a small
//! kernel.
//!
//! The engine is layered: a block device, a bounded cache of blocks over it,
//! bitmap allocators, the on-disk inode and directory formats, the layout
//! manager, and inode handles with the file and directory operations. Every
//! operation takes the filesystem that it works on; sharing it between tasks,
//! behind a lock, is left to the kernel.
//!
//! Beside the engine stand the decisions of the kernel's process system calls
//! and of its page tables, as far as they can be told from values.

pub mod bitmap;
pub mod block_cache;
pub mod block_dev;
pub mod codec;
pub mod dir_entry;
pub mod effects;
pub mod efs;
pub mod error;
pub mod frames;
pub mod layout;
pub mod mount;
pub mod page_table;
pub mod syscall;
pub mod vfs;

use vstd::prelude::*;

verus! {

/// Number of bytes in one block of the device.
pub const BLOCK_SZ: usize = 512;

} // verus!
