//! The layout manager: where the regions of the filesystem lie on the disk,
//! and the allocation of inodes and data blocks.
//!
//! The disk holds, in this order: the super block, the inode bitmap, the inode
//! area, the data bitmap, the data area. Inode `i` is the record at offset
//! `(i % 4) * 128` of block `i / 4` of the inode area. Unit `u` of the data
//! bitmap stands for block `u` of the data area.

use crate::bitmap::Bitmap;
use crate::block_cache::BlockCacheManager;
use crate::block_dev::BlockDevice;
use crate::codec::{disk_wf, lemma_splice_other, lemma_splice_same, splice};
use crate::error::FsError;
use crate::layout::{
    decode_inode, encode_inode, lemma_decode_encode, DiskInode, InodeView, INODE_SZ,
    MAX_FILE_SIZE,
};
use crate::BLOCK_SZ;
use vstd::prelude::*;

verus! {

/// Where the regions lie.
pub struct Layout {
    pub inode_bitmap: Bitmap,
    pub data_bitmap: Bitmap,
    pub inode_area_start_block: u32,
    pub data_area_start_block: u32,
    pub data_area_blocks: u32,
}

/// The offset of inode `i` in its block.
pub open spec fn inode_offset(i: int) -> int {
    (i % 4) * 128
}

impl Layout {
    /// The number of inodes.
    pub open spec fn inode_count(&self) -> int {
        self.inode_bitmap.capacity()
    }

    /// The regions lie on `disk` one after the other, in their order.
    pub open spec fn wf(&self, disk: Seq<Seq<u8>>) -> bool {
        &&& disk_wf(disk)
        &&& disk.len() <= u32::MAX
        &&& self.inode_bitmap.start() == 1
        &&& self.inode_bitmap.block_count() >= 0
        &&& self.inode_bitmap.capacity() <= u32::MAX
        &&& self.inode_area_start_block == 1 + self.inode_bitmap.block_count()
        &&& self.data_bitmap.start() == self.inode_area_start_block
            + self.inode_bitmap.block_count() * 1024
        &&& self.data_bitmap.block_count() >= 0
        &&& self.data_bitmap.capacity() <= u32::MAX
        &&& self.data_area_start_block == self.data_bitmap.start() + self.data_bitmap.block_count()
        &&& self.data_area_blocks <= self.data_bitmap.capacity()
        &&& self.data_area_start_block + self.data_area_blocks <= disk.len()
    }

    /// The block that holds inode `i`.
    pub open spec fn inode_block(&self, i: int) -> int {
        self.inode_area_start_block + i / 4
    }

    /// The record of inode `i`.
    pub open spec fn record(&self, disk: Seq<Seq<u8>>, i: int) -> Seq<u8> {
        disk[self.inode_block(i)].subrange(inode_offset(i), inode_offset(i) + 128)
    }

    /// What the record of inode `i` says.
    pub open spec fn inode(&self, disk: Seq<Seq<u8>>, i: int) -> InodeView {
        decode_inode(self.record(disk, i))
    }

    /// Whether inode `i` is allocated.
    pub open spec fn live(&self, disk: Seq<Seq<u8>>, i: int) -> bool {
        self.inode_bitmap.is_set(disk, i)
    }

    /// The number of slots that inode `i` has in use.
    pub open spec fn slots(&self, disk: Seq<Seq<u8>>, i: int) -> int {
        self.inode(disk, i).slots()
    }

    /// The block in slot `s` of inode `i`.
    pub open spec fn slot(&self, disk: Seq<Seq<u8>>, i: int, s: int) -> int {
        self.inode(disk, i).owned(disk, s)
    }

    /// Whether block `b` lies in the data area.
    pub open spec fn in_data_area(&self, b: int) -> bool {
        self.data_area_start_block <= b < self.data_area_start_block + self.data_area_blocks
    }

    /// Whether block `b` is an allocated block of the data area.
    pub open spec fn used(&self, disk: Seq<Seq<u8>>, b: int) -> bool {
        self.in_data_area(b) && self.data_bitmap.is_set(disk, b - self.data_area_start_block)
    }

    /// The number of free blocks of the data area.
    pub open spec fn free_blocks(&self, disk: Seq<Seq<u8>>) -> int {
        self.data_bitmap.free_below(disk, self.data_area_blocks as int)
    }

    /// No allocated inode has block `b` in use.
    pub open spec fn unowned(&self, disk: Seq<Seq<u8>>, b: int) -> bool {
        forall|i: int, s: int|
            self.live(disk, i) && 0 <= s < self.slots(disk, i) ==> #[trigger] self.slot(disk, i, s)
                != b
    }

    /// Every allocated inode is within the size limit; every block that an
    /// allocated inode has in use is an allocated block of the data area; and
    /// no block is in use twice, by one inode or by two.
    #[verifier::opaque]
    pub open spec fn tidy(&self, disk: Seq<Seq<u8>>) -> bool {
        &&& forall|i: int|
            #![trigger self.live(disk, i)]
            self.live(disk, i) ==> self.inode(disk, i).size <= MAX_FILE_SIZE
        &&& forall|i: int, s: int|
            self.live(disk, i) && 0 <= s < self.slots(disk, i) ==> self.used(
                disk,
                #[trigger] self.slot(disk, i, s),
            )
        &&& forall|i: int, s: int, j: int, t: int|
            self.live(disk, i) && self.live(disk, j) && 0 <= s < self.slots(disk, i) && 0 <= t
                < self.slots(disk, j) && (i != j || s != t) ==> #[trigger] self.slot(disk, i, s)
                != #[trigger] self.slot(disk, j, t)
    }

    /// The filesystem on `disk` is consistent: the regions are in place, and
    /// the inodes and their blocks are tidy.
    pub open spec fn consistent(&self, disk: Seq<Seq<u8>>) -> bool {
        self.wf(disk) && self.tidy(disk)
    }

    /// `disk` with the record of inode `i` replaced by the record of `v`.
    pub open spec fn with_inode(&self, disk: Seq<Seq<u8>>, i: int, v: InodeView) -> Seq<Seq<u8>> {
        disk.update(
            self.inode_block(i),
            splice(disk[self.inode_block(i)], inode_offset(i), encode_inode(v)),
        )
    }

    /// The bitmaps lie on the disk, and the inode area between them.
    pub proof fn lemma_regions(&self, disk: Seq<Seq<u8>>)
        requires
            self.wf(disk),
        ensures
            self.inode_bitmap.fits(disk),
            self.data_bitmap.fits(disk),
            forall|i: int|
                0 <= i < self.inode_count() ==> self.inode_area_start_block <= #[trigger] self.inode_block(
                    i,
                ) < self.data_bitmap.start(),
            forall|i: int| 0 <= inode_offset(i) && #[trigger] inode_offset(i) + 128 <= 512,
            forall|i: int| self.live(disk, i) ==> 0 <= i < self.inode_count(),
    {
    }

    /// In a consistent filesystem every allocated inode is well formed.
    pub proof fn lemma_inode_wf(&self, disk: Seq<Seq<u8>>, i: int)
        requires
            self.consistent(disk),
            self.live(disk, i),
        ensures
            self.inode(disk, i).wf(disk),
            0 <= i < self.inode_count(),
    {
        reveal(Layout::tidy);
        let v = self.inode(disk, i);
        assert forall|s: int| 0 <= s < v.slots() implies 0 <= #[trigger] v.owned(disk, s)
            < disk.len() by {
            assert(self.used(disk, self.slot(disk, i, s)));
        }
        assert forall|s: int, t: int| 0 <= s < t < v.slots() implies #[trigger] v.owned(disk, s)
            != #[trigger] v.owned(disk, t) by {
            assert(self.slot(disk, i, s) != self.slot(disk, i, t));
        }
    }

    /// In a consistent filesystem a block that is not allocated is in use by
    /// no inode.
    pub proof fn lemma_free_is_unowned(&self, disk: Seq<Seq<u8>>, b: int)
        requires
            self.consistent(disk),
            !self.used(disk, b),
        ensures
            self.unowned(disk, b),
    {
        reveal(Layout::tidy);
        assert forall|i: int, s: int|
            self.live(disk, i) && 0 <= s < self.slots(disk, i) implies #[trigger] self.slot(
            disk,
            i,
            s,
        ) != b by {
            assert(self.used(disk, self.slot(disk, i, s)));
        }
    }

    /// What lies below the data area says the same on two disks that agree
    /// there: which inodes and which blocks are allocated, and what the inode
    /// records say.
    pub proof fn lemma_meta_same(&self, disk: Seq<Seq<u8>>, later: Seq<Seq<u8>>)
        requires
            self.wf(disk),
            later.len() == disk.len(),
            disk_wf(later),
            forall|b: int| 0 <= b < self.data_area_start_block ==> #[trigger] later[b] == disk[b],
        ensures
            self.wf(later),
            forall|i: int| self.live(later, i) == self.live(disk, i),
            forall|u: int| self.data_bitmap.is_set(later, u) == self.data_bitmap.is_set(disk, u),
            forall|b: int| self.used(later, b) == self.used(disk, b),
            forall|i: int|
                0 <= i < self.inode_count() ==> #[trigger] self.record(later, i) == self.record(
                    disk,
                    i,
                ),
            self.free_blocks(later) == self.free_blocks(disk),
    {
        self.lemma_regions(disk);
        assert forall|i: int| self.live(later, i) == self.live(disk, i) by {
            if 0 <= i < self.inode_count() {
                assert(later[1 + i / 4096] == disk[1 + i / 4096]);
            }
        }
        assert forall|u: int|
            self.data_bitmap.is_set(later, u) == self.data_bitmap.is_set(disk, u) by {
            if 0 <= u < self.data_bitmap.capacity() {
                let b = self.data_bitmap.start() + u / 4096;
                assert(later[b] == disk[b]);
            }
        }
        assert forall|i: int| 0 <= i < self.inode_count() implies #[trigger] self.record(later, i)
            == self.record(disk, i) by {
            assert(later[self.inode_block(i)] == disk[self.inode_block(i)]);
        }
        self.data_bitmap.lemma_free_below_same(disk, later, self.data_area_blocks as int);
    }

    /// A consistent filesystem stays consistent through a change that leaves
    /// every inode but `m` as it was, with its blocks still allocated, where
    /// inode `m`, if it is allocated afterwards, is within the size limit and
    /// has allocated blocks in use, none twice and none that another inode
    /// has in use.
    pub proof fn lemma_consistent_step(&self, disk: Seq<Seq<u8>>, later: Seq<Seq<u8>>, m: int)
        requires
            self.consistent(disk),
            self.wf(later),
            forall|i: int| i != m ==> self.live(later, i) == self.live(disk, i),
            forall|i: int|
                i != m && self.live(disk, i) ==> #[trigger] self.inode(later, i) == self.inode(
                    disk,
                    i,
                ),
            forall|i: int, s: int|
                i != m && self.live(disk, i) && 0 <= s < self.slots(disk, i) ==> #[trigger] self.slot(
                    later,
                    i,
                    s,
                ) == self.slot(disk, i, s),
            forall|i: int, s: int|
                i != m && self.live(disk, i) && 0 <= s < self.slots(disk, i) ==> self.used(
                    later,
                    #[trigger] self.slot(disk, i, s),
                ),
            self.live(later, m) ==> {
                &&& self.inode(later, m).size <= MAX_FILE_SIZE
                &&& forall|s: int|
                    0 <= s < self.slots(later, m) ==> self.used(
                        later,
                        #[trigger] self.slot(later, m, s),
                    )
                &&& forall|s: int, t: int|
                    0 <= s < t < self.slots(later, m) ==> #[trigger] self.slot(later, m, s)
                        != #[trigger] self.slot(later, m, t)
                &&& forall|s: int, j: int, t: int|
                    0 <= s < self.slots(later, m) && j != m && self.live(disk, j) && 0 <= t
                        < self.slots(disk, j) ==> #[trigger] self.slot(later, m, s)
                        != #[trigger] self.slot(disk, j, t)
            },
        ensures
            self.consistent(later),
    {
        reveal(Layout::tidy);
        assert forall|i: int| #![trigger self.live(later, i)] self.live(later, i) implies self.inode(
            later,
            i,
        ).size <= MAX_FILE_SIZE by {
            if i != m {
                assert(self.live(disk, i));
                assert(self.inode(later, i) == self.inode(disk, i));
            }
        }
        assert forall|i: int, s: int|
            self.live(later, i) && 0 <= s < self.slots(later, i) implies self.used(
            later,
            #[trigger] self.slot(later, i, s),
        ) by {
            if i != m {
                assert(self.inode(later, i) == self.inode(disk, i));
                assert(self.slot(later, i, s) == self.slot(disk, i, s));
                assert(self.used(later, self.slot(disk, i, s)));
            }
        }
        assert forall|i: int, s: int, j: int, t: int|
            self.live(later, i) && self.live(later, j) && 0 <= s < self.slots(later, i) && 0 <= t
                < self.slots(later, j) && (i != j || s != t) implies #[trigger] self.slot(
            later,
            i,
            s,
        ) != #[trigger] self.slot(later, j, t) by {
            if i != m {
                assert(self.inode(later, i) == self.inode(disk, i));
                assert(self.slot(later, i, s) == self.slot(disk, i, s));
            }
            if j != m {
                assert(self.inode(later, j) == self.inode(disk, j));
                assert(self.slot(later, j, t) == self.slot(disk, j, t));
            }
            if i != m && j != m {
                assert(self.slot(disk, i, s) != self.slot(disk, j, t));
            } else if i == m && j == m {
                if s < t {
                    assert(self.slot(later, m, s) != self.slot(later, m, t));
                } else {
                    assert(self.slot(later, m, t) != self.slot(later, m, s));
                }
            } else if i == m {
                assert(self.slot(later, m, s) != self.slot(disk, j, t));
            } else {
                assert(self.slot(later, m, t) != self.slot(disk, i, s));
            }
        }
    }

    /// A new record for inode `i` changes what that inode says and nothing
    /// else.
    pub proof fn lemma_with_inode(&self, disk: Seq<Seq<u8>>, i: int, v: InodeView)
        requires
            self.wf(disk),
            0 <= i < self.inode_count(),
            v.direct.len() == 28,
        ensures
            self.wf(self.with_inode(disk, i, v)),
            self.with_inode(disk, i, v).len() == disk.len(),
            self.inode(self.with_inode(disk, i, v), i) == v,
            self.record(self.with_inode(disk, i, v), i) == encode_inode(v),
            forall|j: int|
                0 <= j < self.inode_count() && j != i ==> #[trigger] self.record(
                    self.with_inode(disk, i, v),
                    j,
                ) == self.record(disk, j),
            forall|b: int|
                0 <= b < disk.len() && b != self.inode_block(i) ==> #[trigger] self.with_inode(
                    disk,
                    i,
                    v,
                )[b] == disk[b],
            forall|j: int| self.live(self.with_inode(disk, i, v), j) == self.live(disk, j),
            forall|b: int| self.used(self.with_inode(disk, i, v), b) == self.used(disk, b),
            self.free_blocks(self.with_inode(disk, i, v)) == self.free_blocks(disk),
    {
        let later = self.with_inode(disk, i, v);
        let b = self.inode_block(i);
        let off = inode_offset(i);
        let enc = encode_inode(v);
        self.lemma_regions(disk);
        lemma_decode_encode(v);
        assert(disk[b].len() == BLOCK_SZ);
        lemma_splice_same(disk[b], off, enc);
        assert(disk_wf(later));
        assert(self.record(later, i) == enc);
        assert forall|j: int| 0 <= j < self.inode_count() && j != i implies #[trigger] self.record(
            later,
            j,
        ) == self.record(disk, j) by {
            if self.inode_block(j) == b {
                lemma_splice_other(disk[b], off, enc, inode_offset(j), inode_offset(j) + 128);
            }
        }
        assert forall|j: int| self.live(later, j) == self.live(disk, j) by {
            if 0 <= j < self.inode_count() {
                assert(later[1 + j / 4096] == disk[1 + j / 4096]);
            }
        }
        assert forall|u: int|
            self.data_bitmap.is_set(later, u) == self.data_bitmap.is_set(disk, u) by {
            if 0 <= u < self.data_bitmap.capacity() {
                let x = self.data_bitmap.start() + u / 4096;
                assert(later[x] == disk[x]);
            }
        }
        self.data_bitmap.lemma_free_below_same(disk, later, self.data_area_blocks as int);
    }

    /// Allocating or freeing a data block changes that block's state and
    /// nothing else.
    pub proof fn lemma_data_bit(&self, disk: Seq<Seq<u8>>, b: int, value: bool)
        requires
            self.wf(disk),
            self.in_data_area(b),
        ensures
            self.wf(self.data_bitmap.with_bit(disk, b - self.data_area_start_block, value)),
            self.used(self.data_bitmap.with_bit(disk, b - self.data_area_start_block, value), b)
                == value,
            forall|x: int|
                x != b ==> self.used(
                    self.data_bitmap.with_bit(disk, b - self.data_area_start_block, value),
                    x,
                ) == self.used(disk, x),
            forall|i: int|
                self.live(
                    self.data_bitmap.with_bit(disk, b - self.data_area_start_block, value),
                    i,
                ) == self.live(disk, i),
            forall|x: int|
                0 <= x < disk.len() && !self.data_bitmap.covers(x)
                    ==> #[trigger] self.data_bitmap.with_bit(
                    disk,
                    b - self.data_area_start_block,
                    value,
                )[x] == disk[x],
            forall|i: int|
                0 <= i < self.inode_count() ==> #[trigger] self.record(
                    self.data_bitmap.with_bit(disk, b - self.data_area_start_block, value),
                    i,
                ) == self.record(disk, i),
            self.free_blocks(self.data_bitmap.with_bit(disk, b - self.data_area_start_block, value))
                == self.free_blocks(disk) + (if self.used(disk, b) && !value {
                1int
            } else if !self.used(disk, b) && value {
                -1int
            } else {
                0int
            }),
    {
        let u = b - self.data_area_start_block;
        let later = self.data_bitmap.with_bit(disk, u, value);
        self.lemma_regions(disk);
        self.data_bitmap.lemma_with_bit(disk, u, value);
        assert forall|i: int| self.live(later, i) == self.live(disk, i) by {
            if 0 <= i < self.inode_count() {
                assert(later[1 + i / 4096] == disk[1 + i / 4096]);
            }
        }
        assert forall|i: int| 0 <= i < self.inode_count() implies #[trigger] self.record(later, i)
            == self.record(disk, i) by {
            assert(later[self.inode_block(i)] == disk[self.inode_block(i)]);
        }
        assert forall|x: int| x != b implies self.used(later, x) == self.used(disk, x) by {
            assert(self.data_bitmap.is_set(later, x - self.data_area_start_block)
                == self.data_bitmap.is_set(disk, x - self.data_area_start_block));
        }
        self.data_bitmap.lemma_free_below_flip(disk, later, u, self.data_area_blocks as int);
    }

    /// Allocating an inode changes that inode's state and nothing else.
    pub proof fn lemma_inode_bit(&self, disk: Seq<Seq<u8>>, i: int, value: bool)
        requires
            self.wf(disk),
            0 <= i < self.inode_count(),
        ensures
            self.wf(self.inode_bitmap.with_bit(disk, i, value)),
            self.live(self.inode_bitmap.with_bit(disk, i, value), i) == value,
            forall|j: int|
                j != i ==> self.live(self.inode_bitmap.with_bit(disk, i, value), j) == self.live(
                    disk,
                    j,
                ),
            forall|x: int|
                0 <= x < disk.len() && !self.inode_bitmap.covers(x)
                    ==> #[trigger] self.inode_bitmap.with_bit(disk, i, value)[x] == disk[x],
            forall|b: int|
                self.used(self.inode_bitmap.with_bit(disk, i, value), b) == self.used(disk, b),
            forall|j: int|
                0 <= j < self.inode_count() ==> #[trigger] self.record(
                    self.inode_bitmap.with_bit(disk, i, value),
                    j,
                ) == self.record(disk, j),
            self.free_blocks(self.inode_bitmap.with_bit(disk, i, value)) == self.free_blocks(disk),
    {
        let later = self.inode_bitmap.with_bit(disk, i, value);
        self.lemma_regions(disk);
        self.inode_bitmap.lemma_with_bit(disk, i, value);
        assert forall|j: int| 0 <= j < self.inode_count() implies #[trigger] self.record(later, j)
            == self.record(disk, j) by {
            assert(later[self.inode_block(j)] == disk[self.inode_block(j)]);
        }
        assert forall|u: int|
            self.data_bitmap.is_set(later, u) == self.data_bitmap.is_set(disk, u) by {
            if 0 <= u < self.data_bitmap.capacity() {
                let x = self.data_bitmap.start() + u / 4096;
                assert(later[x] == disk[x]);
            }
        }
        self.data_bitmap.lemma_free_below_same(disk, later, self.data_area_blocks as int);
    }
}

/// A filesystem: the pool of block copies over its device, and the layout.
pub struct EasyFileSystem<D: BlockDevice> {
    pub cache: BlockCacheManager<D>,
    pub layout: Layout,
}

impl<D: BlockDevice> EasyFileSystem<D> {
    /// The logical disk.
    pub open spec fn disk(&self) -> Seq<Seq<u8>> {
        self.cache.disk()
    }

    /// The pool can admit a block and the regions are in place.
    pub open spec fn valid(&self) -> bool {
        self.cache.ready() && self.layout.wf(self.disk())
    }

    /// The pool can admit a block and the filesystem is consistent.
    pub open spec fn consistent(&self) -> bool {
        self.cache.ready() && self.layout.consistent(self.disk())
    }

    /// `later` has the layout of `self`, and its pool was reached from the
    /// pool of `self` by accesses to blocks.
    pub open spec fn stepped(&self, later: &Self) -> bool {
        later.layout == self.layout && self.cache.accessed(&later.cache)
    }

    /// The block and the offset of the record of inode `inode_id`.
    pub fn get_disk_inode_pos(&self, inode_id: u32) -> (r: (u32, usize))
        requires
            self.valid(),
            inode_id < self.layout.inode_count(),
        ensures
            r.0 == self.layout.inode_block(inode_id as int),
            r.1 == inode_offset(inode_id as int),
            r.0 < self.disk().len(),
            r.1 + INODE_SZ <= BLOCK_SZ,
    {
        proof {
            self.layout.lemma_regions(self.disk());
            assert(self.layout.inode_area_start_block <= self.layout.inode_block(inode_id as int)
                < self.layout.data_bitmap.start());
        }
        let block = self.layout.inode_area_start_block + inode_id / 4;
        (block, ((inode_id % 4) as usize) * INODE_SZ)
    }

    /// Allocates the free inode of lowest number. Fails with `InodeExhausted`,
    /// changing nothing, when every inode is allocated.
    pub fn alloc_inode(&mut self) -> (r: Result<u32, FsError>)
        requires
            old(self).valid(),
        ensures
            old(self).stepped(final(self)),
            match r {
                Ok(i) => old(self).layout.inode_bitmap.lowest_free(old(self).disk()) == Some(
                    i as int,
                ) && final(self).disk() == old(self).layout.inode_bitmap.with_bit(
                    old(self).disk(),
                    i as int,
                    true,
                ),
                Err(e) => e == FsError::InodeExhausted && old(self).layout.inode_bitmap.full(
                    old(self).disk(),
                ) && final(self).disk() == old(self).disk(),
            },
    {
        proof {
            self.layout.lemma_regions(self.disk());
            self.layout.inode_bitmap.lemma_lowest_free(self.disk());
        }
        match self.layout.inode_bitmap.allocate(&mut self.cache) {
            Some(i) => Ok(i as u32),
            None => Err(FsError::InodeExhausted),
        }
    }

    /// Allocates the free block of lowest index in the data area and returns
    /// its index on the disk. Fails with `NoSpace`, changing nothing, when no
    /// block of the data area is free.
    pub fn alloc_data(&mut self) -> (r: Result<u32, FsError>)
        requires
            old(self).valid(),
        ensures
            old(self).stepped(final(self)),
            r is Ok <==> old(self).layout.free_blocks(old(self).disk()) > 0,
            match r {
                Ok(b) => {
                    &&& old(self).layout.in_data_area(b as int)
                    &&& !old(self).layout.used(old(self).disk(), b as int)
                    &&& old(self).layout.data_bitmap.lowest_free(old(self).disk()) == Some(
                        b - old(self).layout.data_area_start_block,
                    )
                    &&& final(self).disk() == old(self).layout.data_bitmap.with_bit(
                        old(self).disk(),
                        b - old(self).layout.data_area_start_block,
                        true,
                    )
                },
                Err(e) => e == FsError::NoSpace && final(self).disk() == old(self).disk(),
            },
    {
        let ghost disk = self.disk();
        proof {
            self.layout.lemma_regions(disk);
            self.layout.data_bitmap.lemma_lowest_free(disk);
            self.layout.data_bitmap.lemma_free_below_grows(
                disk,
                self.layout.data_area_blocks as int,
                self.layout.data_area_blocks as int,
            );
            if self.layout.free_blocks(disk) > 0 {
                self.layout.data_bitmap.lemma_free_below_some(
                    disk,
                    self.layout.data_area_blocks as int,
                );
            }
        }
        match self.layout.data_bitmap.first_free(&mut self.cache) {
            Some(u) => {
                if u < self.layout.data_area_blocks as usize {
                    proof {
                        self.layout.data_bitmap.lemma_free_below_grows(
                            disk,
                            u as int + 1,
                            self.layout.data_area_blocks as int,
                        );
                        self.layout.data_bitmap.lemma_free_below_grows(disk, u as int, u as int);
                    }
                    self.layout.data_bitmap.set(&mut self.cache, u, true);
                    Ok(self.layout.data_area_start_block + u as u32)
                } else {
                    proof {
                        self.layout.data_bitmap.lemma_free_below_same(
                            disk,
                            disk,
                            self.layout.data_area_blocks as int,
                        );
                        lemma_none_free(self.layout.data_bitmap, disk, self.layout.data_area_blocks as int);
                    }
                    Err(FsError::NoSpace)
                }
            },
            None => {
                proof {
                    lemma_none_free(self.layout.data_bitmap, disk, self.layout.data_area_blocks as int);
                }
                Err(FsError::NoSpace)
            },
        }
    }

    /// Frees block `block_id` of the data area. Fails with `DoubleFree`,
    /// changing nothing, when it is not an allocated block of the data area.
    pub fn dealloc_data(&mut self, block_id: u32) -> (r: Result<(), FsError>)
        requires
            old(self).valid(),
        ensures
            old(self).stepped(final(self)),
            r is Err <==> !old(self).layout.used(old(self).disk(), block_id as int),
            r is Err ==> r == Err::<(), FsError>(FsError::DoubleFree) && final(self).disk() == old(
                self,
            ).disk(),
            r is Ok ==> final(self).disk() == old(self).layout.data_bitmap.with_bit(
                old(self).disk(),
                block_id - old(self).layout.data_area_start_block,
                false,
            ),
    {
        proof {
            self.layout.lemma_regions(self.disk());
        }
        if block_id < self.layout.data_area_start_block {
            return Err(FsError::DoubleFree);
        }
        let u = block_id - self.layout.data_area_start_block;
        if u >= self.layout.data_area_blocks {
            return Err(FsError::DoubleFree);
        }
        self.layout.data_bitmap.dealloc(&mut self.cache, u as usize)
    }

    /// Whether the data area has at least `want` free blocks.
    pub fn has_free_data(&mut self, want: usize) -> (r: bool)
        requires
            old(self).valid(),
        ensures
            old(self).stepped(final(self)),
            final(self).disk() == old(self).disk(),
            r == (old(self).layout.free_blocks(old(self).disk()) >= want),
    {
        proof {
            self.layout.lemma_regions(self.disk());
        }
        self.layout.data_bitmap.free_at_least(
            &mut self.cache,
            self.layout.data_area_blocks as usize,
            want,
        )
    }

    /// Whether inode `inode_id` is allocated.
    pub fn inode_is_live(&mut self, inode_id: u32) -> (r: bool)
        requires
            old(self).valid(),
        ensures
            old(self).stepped(final(self)),
            final(self).disk() == old(self).disk(),
            r == old(self).layout.live(old(self).disk(), inode_id as int),
    {
        proof {
            self.layout.lemma_regions(self.disk());
        }
        self.layout.inode_bitmap.is_allocated(&mut self.cache, inode_id as usize)
    }

    /// Reads the record of inode `inode_id`.
    pub fn read_inode(&mut self, inode_id: u32) -> (d: DiskInode)
        requires
            old(self).valid(),
            inode_id < old(self).layout.inode_count(),
        ensures
            old(self).stepped(final(self)),
            final(self).disk() == old(self).disk(),
            d@ == old(self).layout.inode(old(self).disk(), inode_id as int),
    {
        let (block, offset) = self.get_disk_inode_pos(inode_id);
        let bytes = self.cache.read(block as usize, offset, INODE_SZ);
        DiskInode::decode(bytes.as_slice())
    }

    /// Writes the record of inode `inode_id`.
    pub fn write_inode(&mut self, inode_id: u32, inode: &DiskInode)
        requires
            old(self).valid(),
            inode_id < old(self).layout.inode_count(),
        ensures
            old(self).stepped(final(self)),
            final(self).disk() == old(self).layout.with_inode(
                old(self).disk(),
                inode_id as int,
                inode@,
            ),
            final(self).valid(),
    {
        let (block, offset) = self.get_disk_inode_pos(inode_id);
        let bytes = inode.encode();
        proof {
            self.layout.lemma_with_inode(self.disk(), inode_id as int, inode@);
        }
        self.cache.modify(block as usize, offset, bytes.as_slice());
    }

    /// Writes every changed block to the device.
    pub fn sync_all(&mut self)
        requires
            old(self).cache.inv(),
        ensures
            old(self).stepped(final(self)),
            final(self).disk() == old(self).disk(),
            final(self).cache.synced(),
    {
        self.cache.sync_all();
    }
}

/// Where the lowest free unit is not among the first `n`, none of them is
/// free.
pub proof fn lemma_none_free(bm: Bitmap, disk: Seq<Seq<u8>>, n: int)
    requires
        0 <= n <= bm.capacity(),
        match bm.lowest_free(disk) {
            Some(u) => u >= n,
            None => true,
        },
    ensures
        bm.free_below(disk, n) == 0,
    decreases n,
{
    bm.lemma_lowest_free(disk);
    if n > 0 {
        match bm.lowest_free(disk) {
            Some(u) => {
                assert(bm.is_lowest_free(disk, u));
                assert(bm.is_set(disk, n - 1));
            },
            None => {
                assert(bm.is_set(disk, n - 1));
            },
        }
        lemma_none_free(bm, disk, n - 1);
    }
}

} // verus!
