use easy_fs::bitmap::{decomposition, Bitmap};
use easy_fs::block_cache::BlockCacheManager;
use easy_fs::block_dev::RamDisk;
use easy_fs::error::FsError;

fn pool(blocks: usize) -> BlockCacheManager<RamDisk> {
    BlockCacheManager::new(RamDisk::new(blocks))
}

#[test]
fn allocations_come_in_increasing_order() {
    let mut cache = pool(4);
    let bm = Bitmap::new(1, 2);
    for k in 0..200usize {
        assert_eq!(bm.allocate(&mut cache), Some(k));
    }
}

#[test]
fn a_freed_unit_is_allocated_next() {
    let mut cache = pool(4);
    let bm = Bitmap::new(1, 2);
    for k in 0..100usize {
        assert_eq!(bm.allocate(&mut cache), Some(k));
    }
    assert_eq!(bm.dealloc(&mut cache, 37), Ok(()));
    assert_eq!(bm.allocate(&mut cache), Some(37));
    assert_eq!(bm.allocate(&mut cache), Some(100));
}

#[test]
fn the_lower_of_two_freed_units_comes_first() {
    let mut cache = pool(4);
    let bm = Bitmap::new(0, 1);
    for _ in 0..70usize {
        bm.allocate(&mut cache);
    }
    assert_eq!(bm.dealloc(&mut cache, 65), Ok(()));
    assert_eq!(bm.dealloc(&mut cache, 3), Ok(()));
    assert_eq!(bm.first_free(&mut cache), Some(3));
    assert_eq!(bm.allocate(&mut cache), Some(3));
    assert_eq!(bm.allocate(&mut cache), Some(65));
    assert_eq!(bm.allocate(&mut cache), Some(70));
}

#[test]
fn a_full_bitmap_allocates_nothing() {
    let mut cache = pool(3);
    let bm = Bitmap::new(1, 2);
    assert_eq!(bm.maximum(), 8192);
    for k in 0..8192usize {
        assert_eq!(bm.allocate(&mut cache), Some(k));
    }
    assert_eq!(bm.allocate(&mut cache), None);
    assert_eq!(bm.allocate(&mut cache), None);
    assert_eq!(bm.first_free(&mut cache), None);
}

#[test]
fn allocation_crosses_words_and_blocks() {
    let mut cache = pool(3);
    let bm = Bitmap::new(1, 2);
    for _ in 0..4096usize {
        bm.allocate(&mut cache);
    }
    assert_eq!(bm.allocate(&mut cache), Some(4096));
    assert!(bm.is_allocated(&mut cache, 63));
    assert!(bm.is_allocated(&mut cache, 64));
    assert!(bm.is_allocated(&mut cache, 4096));
    assert!(!bm.is_allocated(&mut cache, 4097));
}

#[test]
fn freeing_a_free_unit_is_a_double_free() {
    let mut cache = pool(2);
    let bm = Bitmap::new(0, 1);
    assert_eq!(bm.dealloc(&mut cache, 0), Err(FsError::DoubleFree));
    assert_eq!(bm.allocate(&mut cache), Some(0));
    assert_eq!(bm.dealloc(&mut cache, 0), Ok(()));
    assert_eq!(bm.dealloc(&mut cache, 0), Err(FsError::DoubleFree));
    assert!(!bm.is_allocated(&mut cache, 0));
}

#[test]
fn freeing_beyond_the_capacity_is_a_double_free() {
    let mut cache = pool(2);
    let bm = Bitmap::new(0, 1);
    assert_eq!(bm.dealloc(&mut cache, 4096), Err(FsError::DoubleFree));
    assert_eq!(bm.dealloc(&mut cache, usize::MAX), Err(FsError::DoubleFree));
}

#[test]
fn a_failed_free_changes_nothing() {
    let mut cache = pool(2);
    let bm = Bitmap::new(0, 1);
    bm.allocate(&mut cache);
    bm.allocate(&mut cache);
    assert_eq!(bm.dealloc(&mut cache, 5), Err(FsError::DoubleFree));
    assert_eq!(cache.read(0, 0, 8), vec![3u8, 0, 0, 0, 0, 0, 0, 0]);
}

#[test]
fn bits_lie_in_little_endian_words() {
    let mut cache = pool(2);
    let bm = Bitmap::new(1, 1);
    for _ in 0..9usize {
        bm.allocate(&mut cache);
    }
    assert_eq!(cache.read(1, 0, 8), vec![0xffu8, 0x01, 0, 0, 0, 0, 0, 0]);
    bm.set(&mut cache, 64 + 63, true);
    assert_eq!(cache.read(1, 8, 8), vec![0u8, 0, 0, 0, 0, 0, 0, 0x80]);
    assert_eq!(cache.read(0, 0, 16), vec![0u8; 16]);
}

#[test]
fn decomposition_gives_block_word_and_bit() {
    assert_eq!(decomposition(0), (0, 0, 0));
    assert_eq!(decomposition(63), (0, 0, 63));
    assert_eq!(decomposition(64), (0, 1, 0));
    assert_eq!(decomposition(4095), (0, 63, 63));
    assert_eq!(decomposition(4096), (1, 0, 0));
    assert_eq!(decomposition(3 * 4096 + 5 * 64 + 7), (3, 5, 7));
}

#[test]
fn maximum_is_4096_units_for_each_block() {
    assert_eq!(Bitmap::new(5, 0).maximum(), 0);
    assert_eq!(Bitmap::new(5, 1).maximum(), 4096);
    assert_eq!(Bitmap::new(5, 3).maximum(), 12288);
}

#[test]
fn free_units_are_counted_among_the_first() {
    let mut cache = pool(2);
    let bm = Bitmap::new(0, 1);
    for _ in 0..10usize {
        bm.allocate(&mut cache);
    }
    assert!(bm.free_at_least(&mut cache, 10, 0));
    assert!(!bm.free_at_least(&mut cache, 10, 1));
    assert!(bm.free_at_least(&mut cache, 12, 2));
    assert!(!bm.free_at_least(&mut cache, 12, 3));
    bm.dealloc(&mut cache, 4).unwrap();
    assert!(bm.free_at_least(&mut cache, 12, 3));
    assert!(bm.free_at_least(&mut cache, 4096, 4087));
    assert!(!bm.free_at_least(&mut cache, 4096, 4088));
}
