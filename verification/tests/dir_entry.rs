use easy_fs::dir_entry::{DirEntry, DIRENT_SZ, NAME_LENGTH_LIMIT};

#[test]
fn an_entry_holds_its_name_and_its_inode() {
    let e = DirEntry::new("hello.txt", 0x01020304);
    assert_eq!(e.name(), b"hello.txt".to_vec());
    assert_eq!(e.inode_id(), 0x01020304);
    assert!(e.name_is(b"hello.txt"));
    assert!(!e.name_is(b"hello.tx"));
    assert!(!e.name_is(b"hello.txt2"));
    assert!(!e.name_is(b"Hello.txt"));
}

#[test]
fn the_bytes_of_an_entry_are_name_padding_and_number() {
    let e = DirEntry::new("ab", 258);
    let bytes = e.as_bytes();
    assert_eq!(bytes.len(), DIRENT_SZ);
    let mut want = [0u8; 32];
    want[0] = b'a';
    want[1] = b'b';
    want[28] = 2;
    want[29] = 1;
    assert_eq!(bytes, &want);
}

#[test]
fn bytes_and_entry_round_trip() {
    let e = DirEntry::new("some name", 77);
    let back = DirEntry::from_bytes(e.as_bytes());
    assert_eq!(back.as_bytes(), e.as_bytes());
    assert_eq!(back.name(), b"some name".to_vec());
    assert_eq!(back.inode_id(), 77);
    let raw: Vec<u8> = (1..=32).collect();
    assert_eq!(DirEntry::from_bytes(&raw).as_bytes(), &raw[..]);
}

#[test]
fn a_long_name_is_cut_after_27_bytes() {
    assert_eq!(NAME_LENGTH_LIMIT, 27);
    let long = "abcdefghijklmnopqrstuvwxyz0123456789";
    let e = DirEntry::new(long, 5);
    assert_eq!(e.name(), long.as_bytes()[0..27].to_vec());
    assert_eq!(e.as_bytes()[27], 0);
    assert_eq!(e.inode_id(), 5);
    assert!(!e.name_is(long.as_bytes()));
    let exact = &long[0..27];
    let f = DirEntry::new(exact, 6);
    assert!(f.name_is(exact.as_bytes()));
}

#[test]
fn a_name_ends_at_its_first_zero_byte() {
    let e = DirEntry::from_name_bytes(b"ab\0cd", 1);
    assert_eq!(e.name(), b"ab".to_vec());
    assert!(e.name_is(b"ab"));
    assert!(!e.name_is(b"ab\0cd"));
    assert_eq!(&e.as_bytes()[0..6], b"ab\0cd\0");
}

#[test]
fn the_empty_entry_has_the_empty_name() {
    let e = DirEntry::empty();
    assert_eq!(e.as_bytes(), &[0u8; 32]);
    assert_eq!(e.name(), Vec::<u8>::new());
    assert_eq!(e.inode_id(), 0);
    assert!(e.name_is(b""));
    assert!(DirEntry::new("", 9).name_is(b""));
}

#[test]
fn a_name_field_without_a_zero_byte_is_the_whole_field() {
    let raw = [b'x'; 32];
    let e = DirEntry::from_bytes(&raw);
    assert_eq!(e.name(), vec![b'x'; 28]);
    assert_eq!(e.inode_id(), u32::from_le_bytes([b'x'; 4]));
}
