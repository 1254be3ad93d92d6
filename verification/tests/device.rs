use std::cell::Cell;

use easy_fs::block_cache::BlockCacheManager;
use easy_fs::block_dev::{BlockDevice, Disk};
use easy_fs::efs::EasyFileSystem;

/// A device that counts its reads and writes.
struct CountingDisk {
    blocks: Vec<[u8; 512]>,
    reads: Cell<usize>,
    writes: usize,
}

impl CountingDisk {
    fn new(n: usize) -> Self {
        CountingDisk { blocks: vec![[0u8; 512]; n], reads: Cell::new(0), writes: 0 }
    }
}

impl BlockDevice for CountingDisk {
    // What the device holds is spoken of in contracts only.
    fn blocks(&self) -> Disk {
        unreachable!()
    }

    fn lemma_block_size(&self) {}

    fn read_block(&self, block_id: usize, buf: &mut [u8]) {
        self.reads.set(self.reads.get() + 1);
        buf.copy_from_slice(&self.blocks[block_id]);
    }

    fn write_block(&mut self, block_id: usize, buf: &[u8]) {
        self.writes += 1;
        self.blocks[block_id].copy_from_slice(buf);
    }
}

#[test]
fn a_resident_block_is_not_read_from_the_device_again() {
    let mut cache = BlockCacheManager::new(CountingDisk::new(64));
    cache.read(3, 0, 4);
    cache.read(3, 100, 4);
    cache.modify(3, 0, &[1]);
    cache.get_block_cache(3).unwrap();
    let disk = cache.into_device();
    assert_eq!(disk.reads.get(), 1);
    assert_eq!(disk.writes, 1);
    assert_eq!(disk.blocks[3][0], 1);
}

#[test]
fn an_unchanged_block_is_not_written() {
    let mut cache = BlockCacheManager::new(CountingDisk::new(64));
    for b in 0..40usize {
        cache.read(b, 0, 1);
    }
    cache.sync_all();
    let disk = cache.into_device();
    assert_eq!(disk.reads.get(), 40);
    assert_eq!(disk.writes, 0);
}

#[test]
fn a_changed_block_is_written_once_for_each_change_that_is_synced() {
    let mut cache = BlockCacheManager::new(CountingDisk::new(64));
    cache.modify(5, 0, &[1]);
    cache.modify(5, 1, &[2]);
    cache.sync_all();
    cache.sync_all();
    cache.modify(5, 2, &[3]);
    // Evict block 5.
    for b in 10..26usize {
        cache.read(b, 0, 1);
    }
    let disk = cache.into_device();
    assert_eq!(disk.writes, 2);
    assert_eq!(&disk.blocks[5][0..3], &[1u8, 2, 3]);
}

#[test]
fn a_filesystem_runs_on_a_device_of_the_caller() {
    let mut fs = EasyFileSystem::create(CountingDisk::new(1100), 1100, 1).unwrap();
    let root = fs.root_inode();
    let f = root.create("f", &mut fs).unwrap().unwrap();
    assert_eq!(f.write_at(0, b"abc", &mut fs), Ok(3));
    let disk = fs.into_device();
    // Block 0 of the data area holds the directory, block 1 the file.
    assert_eq!(&disk.blocks[1027][0..1], b"f");
    assert_eq!(&disk.blocks[1028][0..3], b"abc");
}
