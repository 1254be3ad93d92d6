//! Making a filesystem on a device, and taking up one that is there.
//!
//! Block 0 is the super block. It holds six little-endian words: a magic
//! number, the number of blocks of the filesystem, and the numbers of blocks
//! of the inode bitmap, the inode area, the data bitmap and the data area.

use crate::bitmap::Bitmap;
use crate::block_cache::BlockCacheManager;
use crate::block_dev::BlockDevice;
use crate::codec::{disk_wf, splice, u32_at, zeros};
use crate::efs::{EasyFileSystem, Layout};
use crate::layout::{DiskInode, DiskInodeType, InodeView};
use crate::vfs::Inode;
use crate::BLOCK_SZ;
use vstd::bytes::{
    lemma_auto_spec_u32_to_from_le_bytes, spec_u32_to_le_bytes, u32_from_le_bytes,
    u32_to_le_bytes,
};
use vstd::prelude::*;
use vstd::slice::slice_subrange;

verus! {

/// The magic number of the super block.
pub const EFS_MAGIC: u32 = 0x3b800001;

/// The number of blocks that are left for the data bitmap and the data area.
pub open spec fn data_total(total: int, inode_bitmap_blocks: int) -> int {
    total - 1 - inode_bitmap_blocks * 1025
}

/// The number of blocks of the data bitmap: one for every 4096 data blocks.
pub open spec fn data_bitmap_blocks(total: int, inode_bitmap_blocks: int) -> int {
    (data_total(total, inode_bitmap_blocks) + 4096) / 4097
}

/// Whether a filesystem of `total` blocks with `inode_bitmap_blocks` blocks of
/// inode bitmap can be made: there is at least one block of inode bitmap, and
/// the super block, the inode bitmap and the inode area fit.
pub open spec fn can_format(total: int, inode_bitmap_blocks: int) -> bool {
    &&& 1 <= inode_bitmap_blocks
    &&& inode_bitmap_blocks * 4096 <= u32::MAX
    &&& 1 + inode_bitmap_blocks * 1025 <= total
    &&& data_bitmap_blocks(total, inode_bitmap_blocks) * 4096 <= u32::MAX
}

/// The `w`-th word of block 0 of `disk`.
pub open spec fn word_at(disk: Seq<Seq<u8>>, w: int) -> u32 {
    u32_at(disk[0], 4 * w)
}

/// The record of an empty directory.
pub open spec fn empty_dir() -> InodeView {
    InodeView { size: 0, is_dir: true, direct: Seq::new(28, |k: int| 0u32), indirect1: 0 }
}

impl Layout {
    /// The regions follow one another from block 1 on.
    pub open spec fn tied(&self) -> bool {
        &&& self.inode_bitmap.start() == 1
        &&& self.inode_bitmap.block_count() >= 0
        &&& self.inode_area_start_block == 1 + self.inode_bitmap.block_count()
        &&& self.data_bitmap.start() == 1 + self.inode_bitmap.block_count() * 1025
        &&& self.data_bitmap.block_count() >= 0
        &&& self.data_area_start_block == self.data_bitmap.start() + self.data_bitmap.block_count()
    }

    /// The layout is the layout of a filesystem of `total` blocks with
    /// `inode_bitmap_blocks` blocks of inode bitmap.
    pub open spec fn formatted(&self, total: int, inode_bitmap_blocks: int) -> bool {
        &&& self.tied()
        &&& self.inode_bitmap.block_count() == inode_bitmap_blocks
        &&& self.data_bitmap.block_count() == data_bitmap_blocks(total, inode_bitmap_blocks)
        &&& self.data_area_blocks == data_total(total, inode_bitmap_blocks) - data_bitmap_blocks(
            total,
            inode_bitmap_blocks,
        )
    }

    /// The `w`-th word of the super block.
    pub open spec fn super_word(&self, w: int) -> u32 {
        if w == 0 {
            EFS_MAGIC
        } else if w == 1 {
            (self.data_area_start_block + self.data_area_blocks) as u32
        } else if w == 2 {
            self.inode_bitmap.block_count() as u32
        } else if w == 3 {
            (self.inode_bitmap.block_count() * 1024) as u32
        } else if w == 4 {
            self.data_bitmap.block_count() as u32
        } else {
            self.data_area_blocks
        }
    }

    /// The 24 bytes of the six words of the super block.
    pub open spec fn super_bytes(&self) -> Seq<u8> {
        Seq::new(24, |i: int| spec_u32_to_le_bytes(self.super_word(i / 4))[i % 4])
    }

    /// The super block on `disk` describes this layout.
    pub open spec fn stored(&self, disk: Seq<Seq<u8>>) -> bool {
        &&& self.tied()
        &&& self.inode_bitmap.capacity() <= u32::MAX
        &&& self.data_area_start_block + self.data_area_blocks <= u32::MAX
        &&& forall|w: int| 0 <= w < 6 ==> #[trigger] word_at(disk, w) == self.super_word(w)
    }

    /// The disk of a filesystem that was just made on a device that held
    /// `device`: its first `total` blocks are zero but for the super block,
    /// the record of inode 0, which is an empty directory, and the bit of
    /// inode 0 in the inode bitmap.
    pub open spec fn fresh_disk(&self, device: Seq<Seq<u8>>, total: int) -> Seq<Seq<u8>> {
        let wiped = Seq::new(
            device.len(),
            |b: int|
                if b < total {
                    zeros(512)
                } else {
                    device[b]
                },
        );
        let labelled = wiped.update(0, splice(wiped[0], 0, self.super_bytes()));
        self.with_new_inode(labelled, 0, empty_dir())
    }

    /// A block that holds the bytes of the super block holds its words.
    pub proof fn lemma_super_bytes(&self, block: Seq<u8>)
        requires
            block.len() >= 24,
        ensures
            forall|w: int|
                0 <= w < 6 ==> #[trigger] u32_at(splice(block, 0, self.super_bytes()), 4 * w)
                    == self.super_word(w),
    {
        let b = splice(block, 0, self.super_bytes());
        lemma_auto_spec_u32_to_from_le_bytes();
        assert forall|w: int| 0 <= w < 6 implies #[trigger] u32_at(b, 4 * w) == self.super_word(
            w,
        ) by {
            let part = b.subrange(4 * w, 4 * w + 4);
            let want = spec_u32_to_le_bytes(self.super_word(w));
            assert forall|j: int| 0 <= j < 4 implies part[j] == want[j] by {
                let i = 4 * w + j;
                assert(i / 4 == w && i % 4 == j);
                assert(part[j] == self.super_bytes()[i]);
            }
            assert(part =~= want);
        }
    }

    /// Two layouts that the same super block describes are the same.
    pub proof fn lemma_stored_once(&self, other: Layout, disk: Seq<Seq<u8>>)
        requires
            self.stored(disk),
            other.stored(disk),
        ensures
            *self == other,
    {
        assert(word_at(disk, 2) == self.super_word(2));
        assert(word_at(disk, 2) == other.super_word(2));
        assert(word_at(disk, 4) == self.super_word(4));
        assert(word_at(disk, 4) == other.super_word(4));
        assert(word_at(disk, 5) == self.super_word(5));
        assert(word_at(disk, 5) == other.super_word(5));
        assert(self.inode_bitmap.block_count() * 4096 <= u32::MAX);
        assert(other.inode_bitmap.block_count() * 4096 <= u32::MAX);
        Bitmap::lemma_same(self.inode_bitmap, other.inode_bitmap);
        Bitmap::lemma_same(self.data_bitmap, other.data_bitmap);
    }

    /// A disk on which no inode is allocated but inode 0, which is an empty
    /// directory, holds a sound filesystem.
    pub proof fn lemma_only_root(&self, disk: Seq<Seq<u8>>)
        requires
            self.wf(disk),
            forall|i: int| self.live(disk, i) <==> i == 0,
            self.inode(disk, 0) == empty_dir(),
        ensures
            self.sound(disk),
    {
        reveal(Layout::tidy);
        assert(self.entries(disk, 0) =~= Seq::<Seq<u8>>::empty());
    }
}

impl<D: BlockDevice> EasyFileSystem<D> {
    /// Makes a filesystem of `total_blocks` blocks, with
    /// `inode_bitmap_blocks` blocks of inode bitmap, on the first blocks of
    /// the device: wipes them, writes the super block and makes inode 0 an
    /// empty directory, the root. Returns nothing where the numbers leave no
    /// room for the inode area.
    pub fn create(block_device: D, total_blocks: u32, inode_bitmap_blocks: u32) -> (r: Option<
        EasyFileSystem<D>,
    >)
        requires
            block_device.blocks().len() <= u32::MAX,
            total_blocks <= block_device.blocks().len(),
        ensures
            r is Some <==> can_format(total_blocks as int, inode_bitmap_blocks as int),
            match r {
                Some(fs) => {
                    &&& fs.cache.ready()
                    &&& fs.cache.synced()
                    &&& forall|b: usize| fs.cache.pins(b) == 0
                    &&& fs.layout.formatted(total_blocks as int, inode_bitmap_blocks as int)
                    &&& fs.layout.stored(fs.disk())
                    &&& fs.layout.sound(fs.disk())
                    &&& fs.disk() == fs.layout.fresh_disk(
                        block_device.blocks(),
                        total_blocks as int,
                    )
                    &&& forall|i: int| fs.layout.live(fs.disk(), i) <==> i == 0
                    &&& fs.layout.inode(fs.disk(), 0) == empty_dir()
                    &&& forall|b: int| !fs.layout.used(fs.disk(), b)
                    &&& fs.layout.free_blocks(fs.disk()) == fs.layout.data_area_blocks
                },
                None => true,
            },
    {
        let total = total_blocks as u64;
        let ib = inode_bitmap_blocks as u64;
        if ib < 1 || ib * 4096 > u32::MAX as u64 || 1 + ib * 1025 > total {
            return None;
        }
        let data_total = total - 1 - ib * 1025;
        let db = (data_total + 4096) / 4097;
        if db * 4096 > u32::MAX as u64 {
            return None;
        }
        let dab = data_total - db;
        let layout = Layout {
            inode_bitmap: Bitmap::new(1, ib as usize),
            data_bitmap: Bitmap::new((1 + ib * 1025) as usize, db as usize),
            inode_area_start_block: (1 + ib) as u32,
            data_area_start_block: (1 + ib * 1025 + db) as u32,
            data_area_blocks: dab as u32,
        };
        let ghost device = block_device.blocks();
        let mut cache = BlockCacheManager::new(block_device);
        proof {
            cache.lemma_disk_wf();
        }
        // Wipe.
        let zero = [0u8; BLOCK_SZ];
        let mut b: usize = 0;
        while b < total_blocks as usize
            invariant
                b <= total_blocks,
                total_blocks <= device.len(),
                device.len() <= u32::MAX,
                zero@ == zeros(512),
                cache.ready(),
                cache.disk().len() == device.len(),
                disk_wf(cache.disk()),
                forall|x: usize| cache.pins(x) == 0,
                forall|x: int| 0 <= x < b ==> #[trigger] cache.disk()[x] == zeros(512),
                forall|x: int| b <= x < device.len() ==> #[trigger] cache.disk()[x] == device[x],
            decreases total_blocks - b,
        {
            let ghost cur = cache.disk();
            cache.modify(b, 0, zero.as_slice());
            proof {
                assert(splice(cur[b as int], 0, zero@) =~= zeros(512));
            }
            b += 1;
        }
        let ghost wiped = cache.disk();
        // The super block.
        let mut words: Vec<u8> = Vec::new();
        let mut w: usize = 0;
        while w < 6
            invariant
                w <= 6,
                words@.len() == 4 * w,
                total == total_blocks,
                ib == inode_bitmap_blocks,
                layout.formatted(total_blocks as int, inode_bitmap_blocks as int),
                can_format(total_blocks as int, inode_bitmap_blocks as int),
                db == data_bitmap_blocks(total_blocks as int, inode_bitmap_blocks as int),
                dab == layout.data_area_blocks,
                forall|i: int| 0 <= i < 4 * w ==> words@[i] == layout.super_bytes()[i],
            decreases 6 - w,
        {
            let x: u32 = if w == 0 {
                EFS_MAGIC
            } else if w == 1 {
                total_blocks
            } else if w == 2 {
                inode_bitmap_blocks
            } else if w == 3 {
                (ib * 1024) as u32
            } else if w == 4 {
                db as u32
            } else {
                dab as u32
            };
            let bytes = u32_to_le_bytes(x);
            let mut j: usize = 0;
            while j < 4
                invariant
                    j <= 4,
                    w < 6,
                    x == layout.super_word(w as int),
                    bytes@ == spec_u32_to_le_bytes(x),
                    bytes@.len() == 4,
                    words@.len() == 4 * w + j,
                    forall|i: int| 0 <= i < 4 * w + j ==> words@[i] == layout.super_bytes()[i],
                decreases 4 - j,
            {
                words.push(bytes[j]);
                proof {
                    let i = 4 * w + j;
                    assert(i / 4 == w && i % 4 == j);
                }
                j += 1;
            }
            w += 1;
        }
        proof {
            assert(words@ =~= layout.super_bytes());
        }
        cache.modify(0, 0, words.as_slice());
        let ghost labelled = cache.disk();
        let mut fs = EasyFileSystem { cache, layout };
        proof {
            assert(wiped =~= Seq::new(
                device.len(),
                |b: int|
                    if b < total_blocks {
                        zeros(512)
                    } else {
                        device[b]
                    },
            ));
            layout.lemma_super_bytes(wiped[0]);
            assert forall|w: int| 0 <= w < 6 implies #[trigger] word_at(labelled, w)
                == layout.super_word(w) by {
                assert(u32_at(splice(wiped[0], 0, layout.super_bytes()), 4 * w)
                    == layout.super_word(w));
            }
            assert(disk_wf(labelled));
            assert(layout.wf(labelled));
            layout.lemma_regions(labelled);
            layout.inode_bitmap.lemma_zero_is_vacant(labelled);
            layout.data_bitmap.lemma_zero_is_vacant(labelled);
            assert(layout.consistent(labelled)) by {
                reveal(Layout::tidy);
            }
            layout.lemma_inode_created(labelled, 0, empty_dir());
            layout.lemma_with_inode(labelled, 0, empty_dir());
            layout.inode_bitmap.lemma_lowest_free(layout.with_inode(labelled, 0, empty_dir()));
            assert(layout.inode_bitmap.is_lowest_free(layout.with_inode(labelled, 0, empty_dir()), 0));
        }
        let root = DiskInode::empty(DiskInodeType::Directory);
        fs.write_inode(0, &root);
        let got = fs.alloc_inode();
        proof {
            let d = fs.disk();
            assert(got == Ok::<u32, crate::error::FsError>(0u32));
            assert(d == layout.fresh_disk(device, total_blocks as int));
            assert forall|i: int| layout.live(d, i) <==> i == 0 by {
                if i != 0 {
                    assert(layout.live(d, i) == layout.live(labelled, i));
                }
            }
            layout.lemma_only_root(d);
            assert(d[0] == labelled[0]) by {
                layout.lemma_regions(labelled);
            }
            assert forall|x: int| !layout.used(d, x) by {
                assert(layout.used(d, x) == layout.used(labelled, x));
            }
            lemma_all_free(layout.data_bitmap, labelled, layout.data_area_blocks as int);
        }
        fs.sync_all();
        Some(fs)
    }

    /// Takes up the filesystem that the device holds. Returns nothing where
    /// the super block has not the magic number.
    ///
    /// What the device holds under the magic number must be a sound
    /// filesystem, as `create` and the operations on it leave one.
    pub fn open(block_device: D) -> (r: Option<EasyFileSystem<D>>)
        requires
            0 < block_device.blocks().len() <= u32::MAX,
            word_at(block_device.blocks(), 0) == EFS_MAGIC ==> exists|l: Layout|
                l.stored(block_device.blocks()) && #[trigger] l.sound(block_device.blocks()),
        ensures
            r is Some <==> word_at(block_device.blocks(), 0) == EFS_MAGIC,
            match r {
                Some(fs) => {
                    &&& fs.cache.ready()
                    &&& fs.cache.synced()
                    &&& forall|b: usize| fs.cache.pins(b) == 0
                    &&& fs.disk() == block_device.blocks()
                    &&& fs.layout.stored(fs.disk())
                    &&& fs.layout.sound(fs.disk())
                },
                None => true,
            },
    {
        let ghost device = block_device.blocks();
        let mut cache = BlockCacheManager::new(block_device);
        let sb = cache.read(0, 0, 24);
        proof {
            assert(sb@.subrange(0, 4) =~= device[0].subrange(0, 4));
            assert(sb@.subrange(8, 12) =~= device[0].subrange(8, 12));
            assert(sb@.subrange(16, 20) =~= device[0].subrange(16, 20));
            assert(sb@.subrange(20, 24) =~= device[0].subrange(20, 24));
        }
        let magic = u32_from_le_bytes(slice_subrange(sb.as_slice(), 0, 4));
        if magic != EFS_MAGIC {
            return None;
        }
        let ib = u32_from_le_bytes(slice_subrange(sb.as_slice(), 8, 12));
        let db = u32_from_le_bytes(slice_subrange(sb.as_slice(), 16, 20));
        let dab = u32_from_le_bytes(slice_subrange(sb.as_slice(), 20, 24));
        let ghost l = choose|l: Layout| l.stored(device) && #[trigger] l.sound(device);
        proof {
            assert(word_at(device, 0) == l.super_word(0));
            assert(word_at(device, 2) == l.super_word(2));
            assert(word_at(device, 4) == l.super_word(4));
            assert(word_at(device, 5) == l.super_word(5));
            assert(l.inode_bitmap.block_count() * 4096 <= u32::MAX);
            assert(ib == l.inode_bitmap.block_count());
            assert(db == l.data_bitmap.block_count());
            assert(dab == l.data_area_blocks);
        }
        let layout = Layout {
            inode_bitmap: Bitmap::new(1, ib as usize),
            data_bitmap: Bitmap::new((1 + ib as u64 * 1025) as usize, db as usize),
            inode_area_start_block: 1 + ib,
            data_area_start_block: (1 + ib as u64 * 1025 + db as u64) as u32,
            data_area_blocks: dab,
        };
        proof {
            assert forall|w: int| 0 <= w < 6 implies #[trigger] word_at(device, w)
                == layout.super_word(w) by {
                assert(word_at(device, w) == l.super_word(w));
            }
            assert(layout.stored(device));
            layout.lemma_stored_once(l, device);
        }
        Some(EasyFileSystem { cache, layout })
    }

    /// The handle of inode 0, the root directory.
    pub fn root_inode(&self) -> (h: Inode)
        requires
            self.valid(),
            0 < self.layout.inode_count(),
        ensures
            h == self.layout.handle_of(0),
            self.layout.is_handle(h),
            self.layout.id_of(h) == 0,
    {
        proof {
            self.layout.lemma_handle(self.disk(), 0);
        }
        let (block_id, block_offset) = self.get_disk_inode_pos(0);
        Inode::new(block_id, block_offset)
    }

    /// Writes every changed block to the device and gives the device back.
    pub fn into_device(self) -> (dev: D)
        requires
            self.cache.inv(),
        ensures
            dev.blocks() == self.disk(),
    {
        self.cache.into_device()
    }
}

/// Where none of the first `n` units is allocated, all of them are free.
pub proof fn lemma_all_free(bm: Bitmap, disk: Seq<Seq<u8>>, n: int)
    requires
        0 <= n,
        forall|v: int| 0 <= v < n ==> !bm.is_set(disk, v),
    ensures
        bm.free_below(disk, n) == n,
    decreases n,
{
    if n > 0 {
        lemma_all_free(bm, disk, n - 1);
    }
}

} // verus!
