use easy_fs::block_dev::{BlockDevice, RamDisk};
use easy_fs::dir_entry::DirEntry;
use easy_fs::efs::EasyFileSystem;
use easy_fs::error::FsError;
use easy_fs::layout::{DiskInode, MAX_FILE_SIZE};
use easy_fs::mount::EFS_MAGIC;
use easy_fs::vfs::Inode;

// One block of inode bitmap: the super block, 1 + 1024 blocks of inodes.
const META: u32 = 1026;

fn mount(total: u32) -> (EasyFileSystem<RamDisk>, Inode) {
    let fs = EasyFileSystem::create(RamDisk::new(total as usize), total, 1).unwrap();
    let root = fs.root_inode();
    (fs, root)
}

fn pattern(len: usize, seed: usize) -> Vec<u8> {
    (0..len).map(|i| ((i * 13 + seed) % 251) as u8).collect()
}

fn read_all(h: &Inode, fs: &mut EasyFileSystem<RamDisk>) -> Vec<u8> {
    let size = h.size(fs) as usize;
    let mut buf = vec![0u8; size];
    assert_eq!(h.read_at(0, &mut buf, fs), size);
    buf
}

fn free_data(fs: &mut EasyFileSystem<RamDisk>) -> usize {
    let mut n = 0;
    while fs.has_free_data(n + 1) {
        n += 1;
    }
    n
}

#[test]
fn end_to_end_scenario() {
    let (mut fs, root) = mount(4096);
    let a = root.create("a", &mut fs).unwrap().expect("created");
    assert_eq!(root.create("a", &mut fs), Ok(None));
    assert_eq!(a.write_at(0, b"hello", &mut fs), Ok(5));
    let mut buf = [0u8; 5];
    assert_eq!(a.read_at(0, &mut buf, &mut fs), 5);
    assert_eq!(&buf, b"hello");
    let b = root.link("a", "b", &mut fs).unwrap().expect("linked");
    assert_eq!(b, a);
    assert_eq!(root.get_link_num(a.block_id, a.block_offset, &mut fs), 2);
    assert_eq!(root.unlink("a", &mut fs), 0);
    let found = root.find("b", &mut fs).expect("b is still there");
    assert_eq!(found, a);
    let mut again = [0u8; 5];
    assert_eq!(found.read_at(0, &mut again, &mut fs), 5);
    assert_eq!(&again, b"hello");
    assert_eq!(root.find("a", &mut fs), None);
    assert_eq!(root.ls(&mut fs), Ok(vec![String::from("b")]));
}

#[test]
fn a_fresh_filesystem_has_an_empty_root_directory() {
    let (mut fs, root) = mount(2000);
    assert!(root.is_live(&mut fs));
    assert!(root.is_dir(&mut fs));
    assert_eq!(root.size(&mut fs), 0);
    assert_eq!(root.ls(&mut fs), Ok(Vec::<String>::new()));
    assert_eq!(root.find("a", &mut fs), None);
    assert_eq!(root.inode_id(&fs), 0);
    assert_eq!(root, Inode::new(2, 0));
    assert_eq!(fs.get_disk_inode_pos(0), (2, 0));
    assert_eq!(fs.get_disk_inode_pos(5), (3, 128));
    assert_eq!(fs.get_disk_inode_pos(4095), (1025, 384));
    assert!(fs.inode_is_live(0));
    assert!(!fs.inode_is_live(1));
}

#[test]
fn create_refuses_impossible_layouts() {
    assert!(EasyFileSystem::create(RamDisk::new(1025), 1025, 1).is_none());
    assert!(EasyFileSystem::create(RamDisk::new(4096), 4096, 0).is_none());
    assert!(EasyFileSystem::create(RamDisk::new(4096), 2050, 2).is_none());
    assert!(EasyFileSystem::create(RamDisk::new(1026), 1026, 1).is_some());
    assert!(EasyFileSystem::create(RamDisk::new(2051), 2051, 2).is_some());
}

#[test]
fn the_layout_follows_from_the_numbers() {
    let (fs, _) = mount(META + 1 + 4096 + 7);
    // 4104 blocks are left: two blocks of bitmap for 4102 data blocks.
    assert_eq!(fs.layout.inode_area_start_block, 2);
    assert_eq!(fs.layout.data_area_start_block, 1026 + 2);
    assert_eq!(fs.layout.data_area_blocks, 4102);
    let (small, _) = mount(META + 5);
    assert_eq!(small.layout.data_area_start_block, 1027);
    assert_eq!(small.layout.data_area_blocks, 4);
    let (none, _) = mount(META);
    assert_eq!(none.layout.data_area_start_block, 1026);
    assert_eq!(none.layout.data_area_blocks, 0);
}

#[test]
fn create_writes_the_super_block_and_wipes_the_rest() {
    let mut disk = RamDisk::new(1100);
    for b in 0..1100 {
        disk.write_block(b, &[0x5au8; 512]);
    }
    let fs = EasyFileSystem::create(disk, 1090, 1).unwrap();
    let disk = fs.into_device();
    let mut buf = [0u8; 512];
    disk.read_block(0, &mut buf);
    let words: Vec<u32> = (0..6)
        .map(|w| u32::from_le_bytes([buf[4 * w], buf[4 * w + 1], buf[4 * w + 2], buf[4 * w + 3]]))
        .collect();
    assert_eq!(words, vec![EFS_MAGIC, 1090, 1, 1024, 1, 63]);
    assert_eq!(&buf[24..], &[0u8; 488][..]);
    // The bit of inode 0.
    disk.read_block(1, &mut buf);
    assert_eq!(buf[0], 1);
    assert_eq!(&buf[1..], &[0u8; 511][..]);
    // The record of inode 0: an empty directory.
    disk.read_block(2, &mut buf);
    assert_eq!(&buf[124..128], &[1u8, 0, 0, 0]);
    assert_eq!(&buf[0..124], &[0u8; 124][..]);
    disk.read_block(1089, &mut buf);
    assert_eq!(buf, [0u8; 512]);
    // Beyond the filesystem the device is as it was.
    disk.read_block(1090, &mut buf);
    assert_eq!(buf, [0x5au8; 512]);
}

#[test]
fn a_filesystem_is_taken_up_again() {
    let (mut fs, root) = mount(3000);
    let f = root.create("kept", &mut fs).unwrap().unwrap();
    let data = pattern(20000, 9);
    assert_eq!(f.write_at(0, &data, &mut fs), Ok(20000));
    let disk = fs.into_device();
    let mut fs = EasyFileSystem::open(disk).expect("magic");
    let root = fs.root_inode();
    assert_eq!(root.ls(&mut fs), Ok(vec![String::from("kept")]));
    let f = root.find("kept", &mut fs).unwrap();
    assert_eq!(read_all(&f, &mut fs), data);
    assert_eq!(fs.layout.data_area_blocks, 3000 - 1026 - 1);
    let g = root.create("more", &mut fs).unwrap().unwrap();
    assert_eq!(g.inode_id(&fs), 2);
}

#[test]
fn a_device_without_the_magic_number_is_not_taken_up() {
    assert!(EasyFileSystem::open(RamDisk::new(2000)).is_none());
    let mut disk = RamDisk::new(2000);
    let mut block = [0u8; 512];
    block[0..4].copy_from_slice(&(EFS_MAGIC + 1).to_le_bytes());
    disk.write_block(0, &block);
    assert!(EasyFileSystem::open(disk).is_none());
}

#[test]
fn files_get_the_lowest_free_inode() {
    let (mut fs, root) = mount(2000);
    let a = root.create("a", &mut fs).unwrap().unwrap();
    let b = root.create("b", &mut fs).unwrap().unwrap();
    let c = root.create("c", &mut fs).unwrap().unwrap();
    assert_eq!((a.inode_id(&fs), b.inode_id(&fs), c.inode_id(&fs)), (1, 2, 3));
    assert_eq!(a, Inode::new(2, 128));
    assert_eq!(c, Inode::new(2, 384));
    assert!(!a.is_dir(&mut fs));
    assert_eq!(a.size(&mut fs), 0);
    assert_eq!(root.size(&mut fs), 96);
    assert_eq!(root.find("b", &mut fs), Some(b));
    assert_eq!(root.ls(&mut fs), Ok(vec!["a".to_string(), "b".to_string(), "c".to_string()]));
}

#[test]
fn create_fails_on_a_name_that_exists_and_changes_nothing() {
    let (mut fs, root) = mount(2000);
    root.create("x", &mut fs).unwrap().unwrap();
    let before = free_data(&mut fs);
    assert_eq!(root.create("x", &mut fs), Ok(None));
    assert_eq!(root.size(&mut fs), 32);
    assert_eq!(free_data(&mut fs), before);
    assert!(!fs.inode_is_live(2));
}

#[test]
fn find_returns_the_first_entry_of_a_name() {
    let (mut fs, root) = mount(2000);
    let a = root.create("a", &mut fs).unwrap().unwrap();
    let b = root.create("b", &mut fs).unwrap().unwrap();
    // Two entries of the name "n": the first is bound to b.
    root.link("b", "n", &mut fs).unwrap().unwrap();
    root.link("a", "n", &mut fs).unwrap().unwrap();
    assert_eq!(root.find("n", &mut fs), Some(b));
    assert_eq!(root.find("", &mut fs), None);
    assert_eq!(root.find("nn", &mut fs), None);
    assert_eq!(root.get_link_num(a.block_id, a.block_offset, &mut fs), 2);
    assert_eq!(root.get_link_num(b.block_id, b.block_offset, &mut fs), 2);
    assert_eq!(root.get_link_num(root.block_id, root.block_offset, &mut fs), 0);
}

#[test]
fn link_adds_one_to_the_link_number() {
    let (mut fs, root) = mount(2000);
    let a = root.create("a", &mut fs).unwrap().unwrap();
    let other = root.create("other", &mut fs).unwrap().unwrap();
    assert_eq!(root.get_link_num(a.block_id, a.block_offset, &mut fs), 1);
    for n in 0..5u32 {
        let name = format!("l{}", n);
        assert_eq!(root.link("a", &name, &mut fs), Ok(Some(a)));
        assert_eq!(root.get_link_num(a.block_id, a.block_offset, &mut fs), n + 2);
        assert_eq!(root.get_link_num(other.block_id, other.block_offset, &mut fs), 1);
    }
    // A link of a link.
    assert_eq!(root.link("l3", "deep", &mut fs), Ok(Some(a)));
    assert_eq!(root.get_link_num(a.block_id, a.block_offset, &mut fs), 7);
}

#[test]
fn no_entry_is_bound_to_what_is_no_inode() {
    let (mut fs, root) = mount(2000);
    let a = root.create("a", &mut fs).unwrap().unwrap();
    assert_eq!(root.get_link_num(a.block_id, a.block_offset, &mut fs), 1);
    assert_eq!(root.get_link_num(a.block_id, a.block_offset + 1, &mut fs), 0);
    assert_eq!(root.get_link_num(a.block_id, 512, &mut fs), 0);
    assert_eq!(root.get_link_num(1, 0, &mut fs), 0);
    assert_eq!(root.get_link_num(1026, 0, &mut fs), 0);
    assert_eq!(root.get_link_num(usize::MAX, 0, &mut fs), 0);
    // An inode that is not allocated has no link.
    assert_eq!(root.get_link_num(a.block_id, 256, &mut fs), 0);
    // A file has no entries.
    assert_eq!(a.get_link_num(a.block_id, a.block_offset, &mut fs), 0);
    assert!(a.is_handle(&fs));
    assert!(Inode::new(2, 256).is_handle(&fs));
    assert!(Inode::new(1025, 384).is_handle(&fs));
    assert!(!Inode::new(1026, 0).is_handle(&fs));
    assert!(!Inode::new(2, 130).is_handle(&fs));
}

#[test]
fn link_of_a_missing_name_does_nothing() {
    let (mut fs, root) = mount(2000);
    root.create("a", &mut fs).unwrap().unwrap();
    assert_eq!(root.link("zzz", "b", &mut fs), Ok(None));
    assert_eq!(root.size(&mut fs), 32);
    assert_eq!(root.find("b", &mut fs), None);
}

#[test]
fn link_does_not_look_for_the_new_name() {
    let (mut fs, root) = mount(2000);
    let a = root.create("a", &mut fs).unwrap().unwrap();
    assert_eq!(root.link("a", "a", &mut fs), Ok(Some(a)));
    assert_eq!(root.ls(&mut fs), Ok(vec!["a".to_string(), "a".to_string()]));
    assert_eq!(root.get_link_num(a.block_id, a.block_offset, &mut fs), 2);
}

#[test]
fn unlink_puts_the_last_entry_in_the_place_of_the_removed() {
    let (mut fs, root) = mount(2000);
    for name in ["a", "b", "c", "d", "e"] {
        root.create(name, &mut fs).unwrap().unwrap();
    }
    assert_eq!(root.unlink("b", &mut fs), 0);
    assert_eq!(root.size(&mut fs), 4 * 32);
    assert_eq!(
        root.ls(&mut fs),
        Ok(vec!["a".to_string(), "e".to_string(), "c".to_string(), "d".to_string()])
    );
    for (name, id) in [("a", 1u32), ("c", 3), ("d", 4), ("e", 5)] {
        let h = root.find(name, &mut fs).expect("still there");
        assert_eq!(h.inode_id(&fs), id);
    }
    assert_eq!(root.find("b", &mut fs), None);
    // The last entry.
    assert_eq!(root.unlink("d", &mut fs), 0);
    assert_eq!(root.ls(&mut fs), Ok(vec!["a".to_string(), "e".to_string(), "c".to_string()]));
    assert_eq!(root.unlink("a", &mut fs), 0);
    assert_eq!(root.unlink("c", &mut fs), 0);
    assert_eq!(root.unlink("e", &mut fs), 0);
    assert_eq!(root.ls(&mut fs), Ok(Vec::<String>::new()));
    assert_eq!(root.size(&mut fs), 0);
}

#[test]
fn unlink_of_a_missing_name_returns_minus_one() {
    let (mut fs, root) = mount(2000);
    assert_eq!(root.unlink("a", &mut fs), -1);
    root.create("a", &mut fs).unwrap().unwrap();
    assert_eq!(root.unlink("b", &mut fs), -1);
    assert_eq!(root.ls(&mut fs), Ok(vec!["a".to_string()]));
    assert_eq!(root.unlink("a", &mut fs), 0);
    assert_eq!(root.unlink("a", &mut fs), -1);
}

#[test]
fn unlink_removes_only_the_first_entry_of_the_name() {
    let (mut fs, root) = mount(2000);
    let a = root.create("a", &mut fs).unwrap().unwrap();
    let b = root.create("b", &mut fs).unwrap().unwrap();
    root.link("b", "a", &mut fs).unwrap().unwrap();
    assert_eq!(root.find("a", &mut fs), Some(a));
    assert_eq!(root.unlink("a", &mut fs), 0);
    assert_eq!(root.ls(&mut fs), Ok(vec!["a".to_string(), "b".to_string()]));
    assert_eq!(root.find("a", &mut fs), Some(b));
}

#[test]
fn unlink_reclaims_neither_the_inode_nor_its_blocks() {
    let (mut fs, root) = mount(2000);
    let a = root.create("a", &mut fs).unwrap().unwrap();
    a.write_at(0, &pattern(3000, 1), &mut fs).unwrap();
    let free = free_data(&mut fs);
    assert_eq!(root.unlink("a", &mut fs), 0);
    assert_eq!(free_data(&mut fs), free);
    assert!(a.is_live(&mut fs));
    assert_eq!(read_all(&a, &mut fs), pattern(3000, 1));
    // The next file does not get inode 1 again.
    let b = root.create("b", &mut fs).unwrap().unwrap();
    assert_eq!(b.inode_id(&fs), 2);
}

#[test]
fn a_write_past_the_size_grows_the_file() {
    let (mut fs, root) = mount(2000);
    let f = root.create("f", &mut fs).unwrap().unwrap();
    assert_eq!(f.write_at(0, b"0123456789", &mut fs), Ok(10));
    assert_eq!(f.size(&mut fs), 10);
    // Within the size: the size stays.
    assert_eq!(f.write_at(2, b"ab", &mut fs), Ok(2));
    assert_eq!(f.size(&mut fs), 10);
    assert_eq!(read_all(&f, &mut fs), b"01ab456789".to_vec());
    // Across the end.
    assert_eq!(f.write_at(8, b"wxyz", &mut fs), Ok(4));
    assert_eq!(f.size(&mut fs), 12);
    assert_eq!(read_all(&f, &mut fs), b"01ab4567wxyz".to_vec());
    // Past the end: the gap holds what the block held, zero here.
    assert_eq!(f.write_at(600, b"!", &mut fs), Ok(1));
    assert_eq!(f.size(&mut fs), 601);
    let all = read_all(&f, &mut fs);
    assert_eq!(&all[0..12], b"01ab4567wxyz");
    assert_eq!(&all[12..600], &[0u8; 588][..]);
    assert_eq!(all[600], b'!');
}

#[test]
fn an_empty_write_past_the_size_grows_the_file_too() {
    let (mut fs, root) = mount(2000);
    let f = root.create("f", &mut fs).unwrap().unwrap();
    assert_eq!(f.write_at(100, b"", &mut fs), Ok(0));
    assert_eq!(f.size(&mut fs), 100);
    assert_eq!(f.write_at(10, b"", &mut fs), Ok(0));
    assert_eq!(f.size(&mut fs), 100);
}

#[test]
fn a_large_file_uses_the_indirect_block() {
    let (mut fs, root) = mount(2000);
    let f = root.create("big", &mut fs).unwrap().unwrap();
    let free = free_data(&mut fs);
    let data = pattern(MAX_FILE_SIZE as usize, 4);
    assert_eq!(f.write_at(0, &data, &mut fs), Ok(data.len()));
    assert_eq!(f.size(&mut fs), MAX_FILE_SIZE);
    assert_eq!(free_data(&mut fs), free - 157);
    assert_eq!(read_all(&f, &mut fs), data);
    let mut buf = [0u8; 1000];
    assert_eq!(f.read_at(28 * 512 - 300, &mut buf, &mut fs), 1000);
    assert_eq!(&buf[..], &data[28 * 512 - 300..28 * 512 + 700]);
    assert_eq!(f.read_at(MAX_FILE_SIZE as usize - 10, &mut buf, &mut fs), 10);
    assert_eq!(f.read_at(MAX_FILE_SIZE as usize, &mut buf, &mut fs), 0);
}

#[test]
fn a_write_beyond_the_largest_size_is_refused() {
    let (mut fs, root) = mount(2000);
    let f = root.create("f", &mut fs).unwrap().unwrap();
    f.write_at(0, b"abc", &mut fs).unwrap();
    let free = free_data(&mut fs);
    assert_eq!(f.write_at(MAX_FILE_SIZE as usize, b"x", &mut fs), Err(FsError::FileTooLarge));
    assert_eq!(f.write_at(MAX_FILE_SIZE as usize + 1, b"", &mut fs), Err(FsError::FileTooLarge));
    assert_eq!(f.write_at(usize::MAX, b"xy", &mut fs), Err(FsError::FileTooLarge));
    assert_eq!(f.write_at(0, &vec![0u8; MAX_FILE_SIZE as usize + 1], &mut fs), Err(FsError::FileTooLarge));
    assert_eq!(f.size(&mut fs), 3);
    assert_eq!(free_data(&mut fs), free);
    assert_eq!(f.write_at(MAX_FILE_SIZE as usize - 1, b"x", &mut fs), Ok(1));
}

#[test]
fn a_write_without_space_is_refused_and_changes_nothing() {
    // Four data blocks.
    let (mut fs, root) = mount(META + 5);
    let f = root.create("f", &mut fs).unwrap().unwrap();
    assert_eq!(free_data(&mut fs), 3);
    assert_eq!(f.write_at(0, &pattern(1024, 1), &mut fs), Ok(1024));
    assert_eq!(free_data(&mut fs), 1);
    assert_eq!(f.write_at(1024, &pattern(513, 2), &mut fs), Err(FsError::NoSpace));
    assert_eq!(f.size(&mut fs), 1024);
    assert_eq!(free_data(&mut fs), 1);
    assert_eq!(read_all(&f, &mut fs), pattern(1024, 1));
    assert_eq!(f.write_at(1024, &pattern(512, 2), &mut fs), Ok(512));
    assert_eq!(free_data(&mut fs), 0);
    assert_eq!(f.write_at(1536, b"x", &mut fs), Err(FsError::NoSpace));
    assert_eq!(fs.alloc_data(), Err(FsError::NoSpace));
    // Within the blocks that the file has, writing goes on.
    assert_eq!(f.write_at(0, b"zz", &mut fs), Ok(2));
}

#[test]
fn create_without_space_for_the_entry_is_refused() {
    let (mut fs, root) = mount(META);
    assert_eq!(root.create("a", &mut fs), Err(FsError::NoSpace));
    assert_eq!(root.size(&mut fs), 0);
    assert!(!fs.inode_is_live(1));
    assert_eq!(fs.alloc_inode(), Ok(1));
}

#[test]
fn create_without_a_free_inode_is_refused() {
    let (mut fs, root) = mount(2000);
    for i in 1..4096u32 {
        assert_eq!(fs.alloc_inode(), Ok(i));
    }
    assert_eq!(fs.alloc_inode(), Err(FsError::InodeExhausted));
    assert_eq!(root.create("a", &mut fs), Err(FsError::InodeExhausted));
    assert_eq!(root.size(&mut fs), 0);
}

#[test]
fn a_full_directory_takes_no_more_entry() {
    let (mut fs, root) = mount(2000);
    let a = root.create("a", &mut fs).unwrap().unwrap();
    // Fill the directory with entries bound to inode 1.
    let mut bytes = Vec::new();
    for n in 1..(MAX_FILE_SIZE / 32) {
        bytes.extend_from_slice(DirEntry::new(&format!("n{}", n), 1).as_bytes());
    }
    assert_eq!(root.write_at(32, &bytes, &mut fs), Ok(bytes.len()));
    assert_eq!(root.size(&mut fs), MAX_FILE_SIZE);
    assert_eq!(root.create("b", &mut fs), Err(FsError::FileTooLarge));
    assert_eq!(root.link("a", "b", &mut fs), Err(FsError::FileTooLarge));
    assert!(!fs.inode_is_live(2));
    assert_eq!(root.get_link_num(a.block_id, a.block_offset, &mut fs), MAX_FILE_SIZE / 32);
    assert_eq!(root.find("n2495", &mut fs), Some(a));
    assert_eq!(root.unlink("n7", &mut fs), 0);
    assert_eq!(root.link("a", "b", &mut fs), Ok(Some(a)));
}

#[test]
fn clear_frees_the_blocks_of_the_size() {
    let (mut fs, root) = mount(2000);
    let f = root.create("f", &mut fs).unwrap().unwrap();
    let g = root.create("g", &mut fs).unwrap().unwrap();
    g.write_at(0, &pattern(700, 8), &mut fs).unwrap();
    for size in [1u32, 512, 513, 28 * 512, 28 * 512 + 1, 40 * 512 + 7, MAX_FILE_SIZE] {
        let free = free_data(&mut fs);
        f.write_at(size as usize - 1, b"x", &mut fs).unwrap();
        let blocks = DiskInode::total_blocks(size) as usize;
        assert_eq!(free_data(&mut fs), free - blocks);
        f.clear(&mut fs);
        assert_eq!(free_data(&mut fs), free);
        assert_eq!(f.size(&mut fs), 0);
        let mut buf = [0u8; 16];
        assert_eq!(f.read_at(0, &mut buf, &mut fs), 0);
        assert_eq!(f.read_at(size as usize - 1, &mut buf, &mut fs), 0);
        assert_eq!(f.read_at(usize::MAX, &mut buf, &mut fs), 0);
    }
    assert_eq!(read_all(&g, &mut fs), pattern(700, 8));
    assert!(f.is_live(&mut fs));
    assert_eq!(root.find("f", &mut fs), Some(f));
}

#[test]
fn clear_of_an_empty_file_frees_nothing() {
    let (mut fs, root) = mount(2000);
    let f = root.create("f", &mut fs).unwrap().unwrap();
    let free = free_data(&mut fs);
    f.clear(&mut fs);
    f.clear(&mut fs);
    assert_eq!(free_data(&mut fs), free);
}

#[test]
fn freed_blocks_are_used_again_lowest_first() {
    let (mut fs, root) = mount(2000);
    let f = root.create("f", &mut fs).unwrap().unwrap();
    let g = root.create("g", &mut fs).unwrap().unwrap();
    let base = fs.layout.data_area_start_block;
    // The root directory has block 0 of the data area.
    f.write_at(0, &pattern(1024, 1), &mut fs).unwrap();
    g.write_at(0, &pattern(512, 2), &mut fs).unwrap();
    assert_eq!(fs.read_inode(1).direct[0..2], [base + 1, base + 2]);
    assert_eq!(fs.read_inode(2).direct[0], base + 3);
    f.clear(&mut fs);
    g.write_at(512, &pattern(1024, 3), &mut fs).unwrap();
    assert_eq!(fs.read_inode(2).direct[0..3], [base + 3, base + 1, base + 2]);
    assert_eq!(fs.alloc_data(), Ok(base + 4));
    assert_eq!(fs.dealloc_data(base + 1), Ok(()));
    assert_eq!(fs.alloc_data(), Ok(base + 1));
}

#[test]
fn freeing_a_free_data_block_is_a_double_free() {
    let (mut fs, _) = mount(2000);
    let base = fs.layout.data_area_start_block;
    assert_eq!(fs.dealloc_data(base), Err(FsError::DoubleFree));
    assert_eq!(fs.alloc_data(), Ok(base));
    assert_eq!(fs.dealloc_data(base), Ok(()));
    assert_eq!(fs.dealloc_data(base), Err(FsError::DoubleFree));
    // Not a block of the data area.
    assert_eq!(fs.dealloc_data(0), Err(FsError::DoubleFree));
    assert_eq!(fs.dealloc_data(base - 1), Err(FsError::DoubleFree));
    assert_eq!(fs.dealloc_data(2000), Err(FsError::DoubleFree));
    assert_eq!(fs.dealloc_data(u32::MAX), Err(FsError::DoubleFree));
}

#[test]
fn files_do_not_disturb_each_other() {
    let (mut fs, root) = mount(3000);
    let names = ["one", "two", "three", "four"];
    let mut handles = Vec::new();
    for name in names {
        handles.push(root.create(name, &mut fs).unwrap().unwrap());
    }
    // Interleaved growth.
    for round in 0..6usize {
        for (i, h) in handles.iter().enumerate() {
            let chunk = pattern(3000 + 100 * i, 10 * i + round);
            let at = round * (3000 + 100 * i);
            assert_eq!(h.write_at(at, &chunk, &mut fs), Ok(chunk.len()));
        }
    }
    for (i, h) in handles.iter().enumerate() {
        let mut want = Vec::new();
        for round in 0..6usize {
            want.extend(pattern(3000 + 100 * i, 10 * i + round));
        }
        assert_eq!(read_all(h, &mut fs), want);
    }
    handles[1].clear(&mut fs);
    handles[1].write_at(0, b"again", &mut fs).unwrap();
    assert_eq!(read_all(&handles[1], &mut fs), b"again".to_vec());
    let mut want = Vec::new();
    for round in 0..6usize {
        want.extend(pattern(3000, round));
    }
    assert_eq!(read_all(&handles[0], &mut fs), want);
    assert_eq!(
        root.ls(&mut fs),
        Ok(names.iter().map(|n| n.to_string()).collect::<Vec<String>>())
    );
}

#[test]
fn a_directory_grows_over_many_blocks() {
    let (mut fs, root) = mount(3000);
    for n in 0..600u32 {
        let h = root.create(&format!("file{}", n), &mut fs).unwrap().unwrap();
        assert_eq!(h.inode_id(&fs), n + 1);
    }
    assert_eq!(root.size(&mut fs), 600 * 32);
    let h = root.find("file599", &mut fs).unwrap();
    assert_eq!(h.inode_id(&fs), 600);
    assert_eq!(root.find("file600", &mut fs), None);
    assert_eq!(root.unlink("file0", &mut fs), 0);
    let names = root.ls(&mut fs).unwrap();
    assert_eq!(names.len(), 599);
    assert_eq!(names[0], "file599");
    assert_eq!(names[598], "file598");
}

#[test]
fn every_write_reaches_the_device() {
    let (mut fs, root) = mount(2000);
    let f = root.create("f", &mut fs).unwrap().unwrap();
    f.write_at(0, b"durable", &mut fs).unwrap();
    let block = fs.read_inode(1).direct[0] as usize;
    // Take the device without a sync of our own.
    let EasyFileSystem { cache, layout: _ } = fs;
    assert!(cache.is_resident(block));
    let disk = cache.into_device();
    let mut buf = [0u8; 512];
    disk.read_block(block, &mut buf);
    assert_eq!(&buf[0..7], b"durable");
}

#[test]
fn names_are_kept_byte_for_byte() {
    let (mut fs, root) = mount(2000);
    let a = root.create("søren.txt", &mut fs).unwrap().unwrap();
    let b = root.create("名前", &mut fs).unwrap().unwrap();
    assert_eq!(root.find("søren.txt", &mut fs), Some(a));
    assert_eq!(root.find("名前", &mut fs), Some(b));
    assert_eq!(root.ls(&mut fs), Ok(vec!["søren.txt".to_string(), "名前".to_string()]));
}

#[test]
fn a_name_is_stored_up_to_27_bytes() {
    let (mut fs, root) = mount(2000);
    let long = "abcdefghijklmnopqrstuvwxyz0123456789";
    let a = root.create(long, &mut fs).unwrap().unwrap();
    // What is stored is the name cut short: the long name is not found.
    assert_eq!(root.find(long, &mut fs), None);
    assert_eq!(root.find(&long[0..27], &mut fs), Some(a));
    assert_eq!(root.ls(&mut fs), Ok(vec![long[0..27].to_string()]));
    let exact = "123456789012345678901234567";
    let b = root.create(exact, &mut fs).unwrap().unwrap();
    assert_eq!(root.find(exact, &mut fs), Some(b));
    assert_eq!(root.create(exact, &mut fs), Ok(None));
}

#[test]
fn ls_reports_a_name_that_is_not_utf8() {
    let (mut fs, root) = mount(2000);
    let a = root.create("fine", &mut fs).unwrap().unwrap();
    let bad = DirEntry::from_name_bytes(&[b'a', 0xff, b'b'], a.inode_id(&fs));
    assert_eq!(root.write_at(32, bad.as_bytes(), &mut fs), Ok(32));
    assert_eq!(root.ls(&mut fs), Err(FsError::BadName));
    assert_eq!(root.unlink("fine", &mut fs), 0);
    assert_eq!(root.ls(&mut fs), Err(FsError::BadName));
    // A multibyte character cut in two is no name either.
    let (mut fs, root) = mount(2000);
    root.create("12345678901234567890123456é", &mut fs).unwrap().unwrap();
    assert_eq!(root.ls(&mut fs), Err(FsError::BadName));
}

#[test]
fn a_handle_that_is_no_inode_is_not_live() {
    let (mut fs, root) = mount(2000);
    assert!(root.is_live(&mut fs));
    assert!(!Inode::new(2, 128).is_live(&mut fs));
    assert!(!Inode::new(2, 64).is_live(&mut fs));
    assert!(!Inode::new(2, 512).is_live(&mut fs));
    assert!(!Inode::new(1, 0).is_live(&mut fs));
    assert!(!Inode::new(1026, 0).is_live(&mut fs));
    assert!(!Inode::new(u32::MAX, 0).is_live(&mut fs));
    root.create("a", &mut fs).unwrap().unwrap();
    assert!(Inode::new(2, 128).is_live(&mut fs));
}
