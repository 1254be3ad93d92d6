use easy_fs::block_cache::{BlockCache, BlockCacheManager, BLOCK_CACHE_SIZE};
use easy_fs::block_dev::{BlockDevice, RamDisk};
use easy_fs::error::FsError;

fn numbered_disk(blocks: usize) -> RamDisk {
    let mut disk = RamDisk::new(blocks);
    for b in 0..blocks {
        let mut buf = [0u8; 512];
        buf[0] = b as u8;
        buf[511] = (b + 1) as u8;
        disk.write_block(b, &buf);
    }
    disk
}

#[test]
fn ram_disk_reads_what_was_written() {
    let mut disk = RamDisk::new(3);
    assert_eq!(disk.num_blocks(), 3);
    let mut buf = [7u8; 512];
    disk.read_block(1, &mut buf);
    assert_eq!(buf, [0u8; 512]);
    let mut data = [0u8; 512];
    for (i, byte) in data.iter_mut().enumerate() {
        *byte = (i % 251) as u8;
    }
    disk.write_block(2, &data);
    disk.read_block(2, &mut buf);
    assert_eq!(buf, data);
    disk.read_block(0, &mut buf);
    assert_eq!(buf, [0u8; 512]);
}

#[test]
fn a_block_copy_is_loaded_changed_and_written_back() {
    let mut disk = numbered_disk(4);
    let mut copy = BlockCache::new(3, &disk);
    assert_eq!(copy.get_ref(0, 2), &[3u8, 0]);
    assert_eq!(copy.read(510, 2), vec![0u8, 4]);
    copy.modify(1, &[9, 8, 7]);
    assert_eq!(copy.read(0, 5), vec![3u8, 9, 8, 7, 0]);
    let mut buf = [0u8; 512];
    disk.read_block(3, &mut buf);
    assert_eq!(&buf[0..5], &[3u8, 0, 0, 0, 0]);
    copy.sync(&mut disk);
    disk.read_block(3, &mut buf);
    assert_eq!(&buf[0..5], &[3u8, 9, 8, 7, 0]);
    assert_eq!(buf[511], 4);
}

#[test]
fn a_block_copy_is_changed_in_place() {
    let mut disk = numbered_disk(4);
    let mut copy = BlockCache::new(2, &disk);
    {
        let part = copy.get_mut(510, 2);
        assert_eq!(part, &[0u8, 3]);
        part[0] = 0x11;
        part[1] = 0x22;
    }
    assert_eq!(copy.read(508, 4), vec![0u8, 0, 0x11, 0x22]);
    assert_eq!(copy.get_mut(0, 0).len(), 0);
    copy.sync(&mut disk);
    let mut buf = [0u8; 512];
    disk.read_block(2, &mut buf);
    assert_eq!(&buf[509..], &[0u8, 0x11, 0x22]);
    assert_eq!(buf[0], 2);
}

#[test]
fn the_pool_holds_sixteen_pinned_blocks_and_no_more() {
    let mut cache = BlockCacheManager::new(numbered_disk(40));
    assert_eq!(BLOCK_CACHE_SIZE, 16);
    for b in 0..16usize {
        assert_eq!(cache.get_block_cache(b), Ok(()));
    }
    assert!(!cache.can_admit());
    assert_eq!(cache.get_block_cache(16), Err(FsError::CacheExhausted));
    assert!(!cache.is_resident(16));
    for b in 0..16usize {
        assert!(cache.is_resident(b));
    }
    // A resident block is still found.
    assert_eq!(cache.get_block_cache(5), Ok(()));
    assert_eq!(cache.read(5, 0, 1), vec![5u8]);
}

#[test]
fn only_a_block_without_a_pin_is_evicted() {
    let mut cache = BlockCacheManager::new(numbered_disk(40));
    for b in 0..16usize {
        cache.get_block_cache(b).unwrap();
    }
    cache.release(7);
    assert!(cache.can_admit());
    assert_eq!(cache.get_block_cache(20), Ok(()));
    assert!(!cache.is_resident(7));
    assert!(cache.is_resident(20));
    for b in 0..16usize {
        if b != 7 {
            assert!(cache.is_resident(b));
        }
    }
    assert_eq!(cache.get_block_cache(21), Err(FsError::CacheExhausted));
}

#[test]
fn the_first_admitted_block_without_a_pin_leaves() {
    let mut cache = BlockCacheManager::new(numbered_disk(40));
    for b in 0..16usize {
        cache.get_block_cache(b).unwrap();
    }
    cache.release(9);
    cache.release(4);
    cache.release(12);
    assert_eq!(cache.read(30, 0, 1), vec![30u8]);
    assert!(!cache.is_resident(4));
    assert!(cache.is_resident(9));
    assert!(cache.is_resident(12));
    assert!(cache.is_resident(30));
    assert_eq!(cache.read(31, 0, 1), vec![31u8]);
    assert!(!cache.is_resident(9));
    assert!(cache.is_resident(12));
    // 30 has no pin and was admitted after 12.
    assert_eq!(cache.read(32, 0, 1), vec![32u8]);
    assert!(!cache.is_resident(12));
    assert!(cache.is_resident(30));
}

#[test]
fn a_pin_counts_every_holder() {
    let mut cache = BlockCacheManager::new(numbered_disk(40));
    cache.get_block_cache(0).unwrap();
    cache.get_block_cache(0).unwrap();
    for b in 1..16usize {
        cache.get_block_cache(b).unwrap();
        cache.release(b);
    }
    cache.release(0);
    // One pin is left on block 0: block 1 leaves.
    cache.read(20, 0, 1);
    assert!(cache.is_resident(0));
    assert!(!cache.is_resident(1));
    cache.release(0);
    cache.release(0);
    cache.read(21, 0, 1);
    assert!(!cache.is_resident(0));
}

#[test]
fn a_changed_block_is_written_when_it_is_evicted() {
    let mut cache = BlockCacheManager::new(numbered_disk(40));
    cache.modify(2, 100, &[1, 2, 3]);
    for b in 10..26usize {
        cache.read(b, 0, 1);
    }
    assert!(!cache.is_resident(2));
    assert_eq!(cache.read(2, 100, 3), vec![1u8, 2, 3]);
    let disk = cache.into_device();
    let mut buf = [0u8; 512];
    disk.read_block(2, &mut buf);
    assert_eq!(&buf[100..103], &[1u8, 2, 3]);
    assert_eq!(buf[0], 2);
}

#[test]
fn sync_all_writes_and_evicts_nothing() {
    let mut cache = BlockCacheManager::new(numbered_disk(8));
    cache.modify(1, 0, &[0xaa]);
    cache.modify(3, 511, &[0xbb]);
    cache.sync_all();
    assert!(cache.is_resident(1));
    assert!(cache.is_resident(3));
    assert_eq!(cache.read(1, 0, 1), vec![0xaau8]);
    let disk = cache.into_device();
    let mut buf = [0u8; 512];
    disk.read_block(1, &mut buf);
    assert_eq!(buf[0], 0xaa);
    assert_eq!(buf[511], 2);
    disk.read_block(3, &mut buf);
    assert_eq!(buf[0], 3);
    assert_eq!(buf[511], 0xbb);
}

#[test]
fn the_device_is_not_written_before_a_sync() {
    let mut cache = BlockCacheManager::new(numbered_disk(8));
    cache.modify(1, 0, &[0xaa]);
    assert_eq!(cache.read(1, 0, 1), vec![0xaau8]);
    // Sixteen blocks fit: nothing was evicted, so into_device writes it.
    let disk = cache.into_device();
    let mut buf = [0u8; 512];
    disk.read_block(1, &mut buf);
    assert_eq!(buf[0], 0xaa);
}

#[test]
fn releasing_a_block_without_a_pin_changes_nothing() {
    let mut cache = BlockCacheManager::new(numbered_disk(8));
    cache.release(3);
    assert!(!cache.is_resident(3));
    cache.read(3, 0, 1);
    cache.release(3);
    assert!(cache.is_resident(3));
    assert!(cache.can_admit());
}
