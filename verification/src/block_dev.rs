//! The block device that the engine stands on, and a device held in memory.

use crate::BLOCK_SZ;
use vstd::prelude::*;

verus! {

/// What a device holds: one sequence of bytes for each block.
pub type Disk = Seq<Seq<u8>>;

/// A device that reads and writes whole blocks of `BLOCK_SZ` bytes by index.
///
/// The contracts below are what the engine relies on; an implementation must
/// meet them. `blocks` is the device's content, one byte sequence per block.
pub trait BlockDevice {
    /// What the device holds, block by block.
    spec fn blocks(&self) -> Disk;

    /// Every block of the device has `BLOCK_SZ` bytes.
    proof fn lemma_block_size(&self)
        ensures
            forall|i: int|
                0 <= i < self.blocks().len() ==> (#[trigger] self.blocks()[i]).len() == BLOCK_SZ,
    ;

    /// Copies block `block_id` into `buf`.
    fn read_block(&self, block_id: usize, buf: &mut [u8])
        requires
            block_id < self.blocks().len(),
            old(buf)@.len() == BLOCK_SZ,
        ensures
            final(buf)@ == self.blocks()[block_id as int],
    ;

    /// Replaces block `block_id` by the bytes of `buf`.
    fn write_block(&mut self, block_id: usize, buf: &[u8])
        requires
            block_id < old(self).blocks().len(),
            buf@.len() == BLOCK_SZ,
        ensures
            final(self).blocks() == old(self).blocks().update(block_id as int, buf@),
    ;
}

/// A block device whose blocks live in memory.
pub struct RamDisk {
    data: Vec<[u8; BLOCK_SZ]>,
}

impl RamDisk {
    /// A device of `n` blocks, every byte zero.
    pub fn new(n: usize) -> (disk: RamDisk)
        ensures
            disk.blocks().len() == n,
            forall|i: int, j: int|
                0 <= i < n && 0 <= j < BLOCK_SZ ==> #[trigger] disk.blocks()[i][j] == 0,
            forall|i: int| 0 <= i < n ==> (#[trigger] disk.blocks()[i]).len() == BLOCK_SZ,
    {
        let mut data: Vec<[u8; BLOCK_SZ]> = Vec::new();
        let mut i: usize = 0;
        while i < n
            invariant
                i <= n,
                data@.len() == i,
                forall|a: int, j: int|
                    0 <= a < i && 0 <= j < BLOCK_SZ ==> #[trigger] data@[a]@[j] == 0,
            decreases n - i,
        {
            data.push([0u8; BLOCK_SZ]);
            i += 1;
        }
        RamDisk { data }
    }

    /// The number of blocks of the device.
    pub fn num_blocks(&self) -> (n: usize)
        ensures
            n == self.blocks().len(),
    {
        self.data.len()
    }
}

impl BlockDevice for RamDisk {
    closed spec fn blocks(&self) -> Disk {
        Seq::new(self.data@.len(), |i: int| self.data@[i]@)
    }

    proof fn lemma_block_size(&self) {
    }

    fn read_block(&self, block_id: usize, buf: &mut [u8]) {
        let src = &self.data[block_id];
        let mut j: usize = 0;
        while j < BLOCK_SZ
            invariant
                j <= BLOCK_SZ,
                buf@.len() == BLOCK_SZ,
                block_id < self.data@.len(),
                *src == self.data@[block_id as int],
                forall|k: int| 0 <= k < j ==> buf@[k] == src@[k],
            decreases BLOCK_SZ - j,
        {
            buf[j] = src[j];
            j += 1;
        }
        assert(buf@ =~= self.blocks()[block_id as int]);
    }

    fn write_block(&mut self, block_id: usize, buf: &[u8]) {
        let mut blk = [0u8; BLOCK_SZ];
        let mut j: usize = 0;
        while j < BLOCK_SZ
            invariant
                j <= BLOCK_SZ,
                buf@.len() == BLOCK_SZ,
                forall|k: int| 0 <= k < j ==> blk@[k] == buf@[k],
            decreases BLOCK_SZ - j,
        {
            blk[j] = buf[j];
            j += 1;
        }
        assert(blk@ =~= buf@);
        self.data[block_id] = blk;
        assert(self.blocks() =~= old(self).blocks().update(block_id as int, buf@));
    }
}

} // verus!
