use easy_fs::page_table::{
    page_chunks, root_of_token, token_of, walk_step, Chunk, PageTableEntry, Step, PTE_R, PTE_U,
    PTE_V, PTE_W, PTE_X,
};

#[test]
fn an_entry_holds_page_number_and_flags() {
    let e = PageTableEntry::new(0x12345, PTE_V | PTE_R | PTE_X);
    assert_eq!(e.bits, (0x12345 << 10) | 0b1011);
    assert_eq!(e.ppn(), 0x12345);
    assert_eq!(e.flags(), PTE_V | PTE_R | PTE_X);
    assert!(e.is_valid());
    assert!(e.readable());
    assert!(!e.writable());
    assert!(e.executable());
    let top = PageTableEntry::new(0xfff_ffff_ffff, 0xff);
    assert_eq!(top.ppn(), 0xfff_ffff_ffff);
    assert_eq!(top.flags(), 0xff);
}

#[test]
fn the_page_number_is_44_bits_of_the_entry() {
    let e = PageTableEntry { bits: u64::MAX };
    assert_eq!(e.ppn(), 0xfff_ffff_ffff);
    assert_eq!(e.flags(), 0xff);
    let f = PageTableEntry { bits: 0x300 };
    assert_eq!(f.ppn(), 0);
    assert_eq!(f.flags(), 0);
    assert!(!f.is_valid());
}

#[test]
fn the_empty_entry_is_not_valid() {
    let e = PageTableEntry::empty();
    assert_eq!(e.bits, 0);
    assert!(!e.is_valid());
    assert!(!e.readable() && !e.writable() && !e.executable());
    assert_eq!(e.ppn(), 0);
}

#[test]
fn a_walk_ends_at_level_two_and_stops_at_an_entry_that_is_not_valid() {
    let valid = PageTableEntry::new(77, PTE_V);
    let invalid = PageTableEntry::new(77, PTE_R | PTE_W | PTE_U);
    assert_eq!(walk_step(0, valid), Step::Down(77));
    assert_eq!(walk_step(1, valid), Step::Down(77));
    assert_eq!(walk_step(2, valid), Step::Leaf);
    assert_eq!(walk_step(0, invalid), Step::Absent);
    assert_eq!(walk_step(1, invalid), Step::Absent);
    assert_eq!(walk_step(2, invalid), Step::Leaf);
}

#[test]
fn the_token_names_the_root_page_in_mode_eight() {
    assert_eq!(token_of(0x80abc), 0x8000_0000_0008_0abc);
    assert_eq!(root_of_token(0x8000_0000_0008_0abc), 0x80abc);
    assert_eq!(root_of_token(u64::MAX), 0xfff_ffff_ffff);
    assert_eq!(root_of_token(token_of(0xfff_ffff_ffff)), 0xfff_ffff_ffff);
}

#[test]
fn a_range_is_cut_at_the_page_boundaries() {
    assert_eq!(page_chunks(0x1000, 0), Vec::<Chunk>::new());
    assert_eq!(page_chunks(0x1234, 0), Vec::<Chunk>::new());
    assert_eq!(page_chunks(0x1000, 1), vec![Chunk { vpn: 1, start: 0, end: 1 }]);
    assert_eq!(page_chunks(0x1000, 4096), vec![Chunk { vpn: 1, start: 0, end: 4096 }]);
    assert_eq!(page_chunks(0x1ffe, 1), vec![Chunk { vpn: 1, start: 4094, end: 4095 }]);
    assert_eq!(page_chunks(0x1ffe, 2), vec![Chunk { vpn: 1, start: 4094, end: 4096 }]);
    assert_eq!(
        page_chunks(0x1ffe, 3),
        vec![Chunk { vpn: 1, start: 4094, end: 4096 }, Chunk { vpn: 2, start: 0, end: 1 }]
    );
    assert_eq!(
        page_chunks(0x3f00, 0x2200),
        vec![
            Chunk { vpn: 3, start: 0xf00, end: 4096 },
            Chunk { vpn: 4, start: 0, end: 4096 },
            Chunk { vpn: 5, start: 0, end: 4096 },
            Chunk { vpn: 6, start: 0, end: 0x100 },
        ]
    );
    let total: usize = page_chunks(12345, 100_000).iter().map(|c| c.end - c.start).sum();
    assert_eq!(total, 100_000);
}
