use easy_fs::block_cache::BlockCacheManager;
use easy_fs::block_dev::RamDisk;
use easy_fs::layout::{DiskInode, DiskInodeType, MAX_FILE_SIZE};

fn pool(blocks: usize) -> BlockCacheManager<RamDisk> {
    BlockCacheManager::new(RamDisk::new(blocks))
}

fn pattern(len: usize, seed: usize) -> Vec<u8> {
    (0..len).map(|i| ((i * 7 + seed) % 253) as u8).collect()
}

#[test]
fn total_blocks_counts_data_blocks_and_the_indirect_block() {
    assert_eq!(DiskInode::total_blocks(0), 0);
    assert_eq!(DiskInode::total_blocks(1), 1);
    assert_eq!(DiskInode::total_blocks(512), 1);
    assert_eq!(DiskInode::total_blocks(513), 2);
    assert_eq!(DiskInode::total_blocks(28 * 512), 28);
    assert_eq!(DiskInode::total_blocks(28 * 512 + 1), 30);
    assert_eq!(DiskInode::total_blocks(29 * 512 + 1), 31);
    assert_eq!(DiskInode::total_blocks(MAX_FILE_SIZE), 157);
    assert_eq!(MAX_FILE_SIZE, 156 * 512);
}

#[test]
fn data_blocks_round_the_size_up() {
    assert_eq!(DiskInode::data_blocks_of(0), 0);
    assert_eq!(DiskInode::data_blocks_of(511), 1);
    assert_eq!(DiskInode::data_blocks_of(1024), 2);
    assert_eq!(DiskInode::data_blocks_of(1025), 3);
    assert_eq!(DiskInode::data_blocks_of(u32::MAX), 8388608);
}

#[test]
fn blocks_needed_is_the_difference_of_the_totals() {
    let mut d = DiskInode::empty(DiskInodeType::File);
    assert_eq!(d.blocks_num_needed(0), 0);
    assert_eq!(d.blocks_num_needed(1), 1);
    assert_eq!(d.blocks_num_needed(28 * 512 + 1), 30);
    d.size = 600;
    assert_eq!(d.blocks_num_needed(600), 0);
    assert_eq!(d.blocks_num_needed(1024), 0);
    assert_eq!(d.blocks_num_needed(1025), 1);
    assert_eq!(d.blocks_num_needed(28 * 512 + 1), 28);
    assert_eq!(d.blocks_num_needed(100), 0);
    d.size = 29 * 512;
    assert_eq!(d.blocks_num_needed(30 * 512), 1);
}

#[test]
fn an_inode_record_is_decoded_as_it_was_encoded() {
    let mut d = DiskInode::empty(DiskInodeType::Directory);
    d.size = 0x01020304;
    for k in 0..28 {
        d.direct[k] = 1000 + k as u32;
    }
    d.indirect1 = 0xdeadbeef;
    let bytes = d.encode();
    assert_eq!(bytes.len(), 128);
    assert_eq!(&bytes[0..4], &[4u8, 3, 2, 1]);
    assert_eq!(&bytes[4..8], &1000u32.to_le_bytes());
    assert_eq!(&bytes[112..116], &1027u32.to_le_bytes());
    assert_eq!(&bytes[116..120], &0xdeadbeefu32.to_le_bytes());
    assert_eq!(&bytes[120..124], &[0u8; 4]);
    assert_eq!(&bytes[124..128], &[1u8, 0, 0, 0]);
    let back = DiskInode::decode(&bytes);
    assert_eq!(back.size, d.size);
    assert_eq!(back.direct, d.direct);
    assert_eq!(back.indirect1, d.indirect1);
    assert!(back.is_dir());
    assert!(!back.is_file());
}

#[test]
fn an_empty_file_record_is_all_zero() {
    let d = DiskInode::empty(DiskInodeType::File);
    assert_eq!(d.encode(), vec![0u8; 128]);
    assert!(d.is_file());
    let mut e = DiskInode::decode(&[0xffu8; 128]);
    assert!(e.is_file());
    e.initialize(DiskInodeType::Directory);
    assert_eq!(e.size, 0);
    assert_eq!(e.direct, [0u32; 28]);
    assert!(e.is_dir());
}

#[test]
fn growing_takes_the_blocks_in_slot_order() {
    let mut cache = pool(400);
    let mut d = DiskInode::empty(DiskInodeType::File);
    d.increase_size(1025, vec![10, 11, 12], &mut cache);
    assert_eq!(d.size, 1025);
    assert_eq!(&d.direct[0..3], &[10, 11, 12]);
    assert_eq!(d.get_block_id(2, &mut cache), 12);
    // Crossing into the indirect block: 25 direct, the indirect block, 2 listed.
    let more: Vec<u32> = (100..128).collect();
    d.increase_size(30 * 512, more, &mut cache);
    assert_eq!(d.direct[3], 100);
    assert_eq!(d.direct[27], 124);
    assert_eq!(d.indirect1, 125);
    assert_eq!(d.get_block_id(28, &mut cache), 126);
    assert_eq!(d.get_block_id(29, &mut cache), 127);
    assert_eq!(cache.read(125, 0, 8), [126u32.to_le_bytes(), 127u32.to_le_bytes()].concat());
    // Growing within the indirect block keeps what is listed.
    d.increase_size(31 * 512, vec![200], &mut cache);
    assert_eq!(d.indirect1, 125);
    assert_eq!(d.get_block_id(28, &mut cache), 126);
    assert_eq!(d.get_block_id(30, &mut cache), 200);
}

#[test]
fn growing_to_a_smaller_size_does_nothing() {
    let mut cache = pool(40);
    let mut d = DiskInode::empty(DiskInodeType::File);
    d.increase_size(600, vec![5, 6], &mut cache);
    d.increase_size(10, vec![], &mut cache);
    assert_eq!(d.size, 600);
    assert_eq!(&d.direct[0..2], &[5, 6]);
}

#[test]
fn what_is_written_is_read_across_blocks() {
    let mut cache = pool(400);
    let mut d = DiskInode::empty(DiskInodeType::File);
    let blocks: Vec<u32> = (50..50 + 31).collect();
    d.increase_size(30 * 512, blocks, &mut cache);
    let data = pattern(30 * 512 - 700, 3);
    assert_eq!(d.write_at(700, &data, &mut cache), data.len());
    let mut buf = vec![0u8; data.len()];
    assert_eq!(d.read_at(700, &mut buf, &mut cache), data.len());
    assert_eq!(buf, data);
    // The bytes lie in the blocks of the inode.
    assert_eq!(cache.read(51, 188, 4), data[0..4].to_vec());
    assert_eq!(cache.read(52, 0, 3), data[324..327].to_vec());
    // Block 28 of the content is the first that the indirect block lists.
    assert_eq!(cache.read(79, 0, 2), data[28 * 512 - 700..28 * 512 - 698].to_vec());
}

#[test]
fn reads_are_clipped_to_the_size() {
    let mut cache = pool(40);
    let mut d = DiskInode::empty(DiskInodeType::File);
    d.increase_size(1000, vec![7, 8], &mut cache);
    let data = pattern(1000, 1);
    assert_eq!(d.write_at(0, &data, &mut cache), 1000);
    let mut buf = [0xeeu8; 64];
    assert_eq!(d.read_at(990, &mut buf, &mut cache), 10);
    assert_eq!(&buf[0..10], &data[990..1000]);
    assert_eq!(&buf[10..], &[0xeeu8; 54]);
    assert_eq!(d.read_at(1000, &mut buf, &mut cache), 0);
    assert_eq!(d.read_at(5000, &mut buf, &mut cache), 0);
    assert_eq!(d.read_at(usize::MAX, &mut buf, &mut cache), 0);
    let mut none: [u8; 0] = [];
    assert_eq!(d.read_at(10, &mut none, &mut cache), 0);
}

#[test]
fn writes_do_not_grow_the_inode() {
    let mut cache = pool(40);
    let mut d = DiskInode::empty(DiskInodeType::File);
    d.increase_size(100, vec![7], &mut cache);
    assert_eq!(d.write_at(90, &[1u8; 20], &mut cache), 10);
    assert_eq!(d.size, 100);
    assert_eq!(d.write_at(100, &[1u8; 20], &mut cache), 0);
    assert_eq!(d.write_at(200, &[1u8; 20], &mut cache), 0);
    // The bytes beyond the size were not written.
    assert_eq!(cache.read(7, 88, 14), vec![0u8, 0, 1, 1, 1, 1, 1, 1, 1, 1, 1, 1, 0, 0]);
}

#[test]
fn a_write_leaves_the_bytes_around_it() {
    let mut cache = pool(40);
    let mut d = DiskInode::empty(DiskInodeType::File);
    d.increase_size(1024, vec![7, 9], &mut cache);
    d.write_at(0, &pattern(1024, 5), &mut cache);
    d.write_at(510, &[0xaa, 0xbb, 0xcc], &mut cache);
    let mut buf = vec![0u8; 1024];
    d.read_at(0, &mut buf, &mut cache);
    let mut want = pattern(1024, 5);
    want[510] = 0xaa;
    want[511] = 0xbb;
    want[512] = 0xcc;
    assert_eq!(buf, want);
}

#[test]
fn clearing_returns_every_block_in_slot_order() {
    let mut cache = pool(400);
    let mut d = DiskInode::empty(DiskInodeType::Directory);
    let blocks: Vec<u32> = (50..50 + 31).collect();
    d.increase_size(30 * 512, blocks.clone(), &mut cache);
    let freed = d.clear_size(&mut cache);
    assert_eq!(freed, blocks);
    assert_eq!(freed.len() as u32, DiskInode::total_blocks(30 * 512));
    assert_eq!(d.size, 0);
    assert_eq!(d.direct, [0u32; 28]);
    assert_eq!(d.indirect1, 0);
    assert!(d.is_dir());
    assert_eq!(d.clear_size(&mut cache), Vec::<u32>::new());
}

#[test]
fn clearing_a_small_inode_returns_its_direct_blocks() {
    let mut cache = pool(40);
    let mut d = DiskInode::empty(DiskInodeType::File);
    d.increase_size(513, vec![20, 30], &mut cache);
    assert_eq!(d.clear_size(&mut cache), vec![20, 30]);
}
