//! Page table entries, and the decisions of a walk through a page table of
//! three levels.
//!
//! An entry holds the number of a physical page in its bits 10 to 53 and
//! eight flags in its bits 0 to 7. The tables themselves lie in physical
//! memory: reading and writing them is left to the kernel, which asks here
//! what an entry means and where a walk goes next.

use vstd::prelude::*;

verus! {

/// The entry is valid.
pub const PTE_V: u8 = 1;

/// The page may be read.
pub const PTE_R: u8 = 2;

/// The page may be written.
pub const PTE_W: u8 = 4;

/// The page may be executed.
pub const PTE_X: u8 = 8;

/// The page may be used in user mode.
pub const PTE_U: u8 = 16;

/// The mapping is global.
pub const PTE_G: u8 = 32;

/// The page was accessed.
pub const PTE_A: u8 = 64;

/// The page was written.
pub const PTE_D: u8 = 128;

/// The largest number of a physical page: 44 bits.
pub const PPN_MASK: u64 = 0xfff_ffff_ffff;

/// A page table entry.
#[derive(Debug, Clone, Copy, PartialEq, Eq, Structural)]
pub struct PageTableEntry {
    pub bits: u64,
}

/// Where a walk goes after it has read an entry.
#[derive(Debug, Clone, Copy, PartialEq, Eq, Structural)]
pub enum Step {
    /// The entry is the entry of the page: the walk ends.
    Leaf,
    /// The entry points to the table of the next level, in this page.
    Down(u64),
    /// The entry is not valid: there is no table of the next level.
    Absent,
}

/// Some bytes of one page: the bytes from offset `start` up to `end` of page
/// `vpn`.
#[derive(Debug, Clone, Copy, PartialEq, Eq, Structural)]
pub struct Chunk {
    pub vpn: usize,
    pub start: usize,
    pub end: usize,
}

/// The page number that the entry of bits `bits` holds.
pub open spec fn ppn_of(bits: u64) -> u64 {
    (bits >> 10) & PPN_MASK
}

/// The flags that the entry of bits `bits` holds.
pub open spec fn flags_of(bits: u64) -> u8 {
    (bits & 0xff) as u8
}

/// Whether the flag `flag` is set in `flags`.
pub open spec fn has_flag(flags: u8, flag: u8) -> bool {
    flags & flag != 0
}

/// An entry holds the page number and the flags that it was made of, where
/// the page number has no more than 44 bits.
pub proof fn lemma_entry_holds(ppn: u64, flags: u8)
    requires
        ppn <= PPN_MASK,
    ensures
        ppn_of((ppn << 10) | (flags as u64)) == ppn,
        flags_of((ppn << 10) | (flags as u64)) == flags,
{
    let f = flags as u64;
    assert((((ppn << 10) | f) >> 10) & 0xfff_ffff_ffff == ppn) by (bit_vector)
        requires
            ppn <= 0xfff_ffff_ffff,
            f <= 0xff,
    ;
    assert(((ppn << 10) | f) & 0xff == f) by (bit_vector)
        requires
            f <= 0xff,
    ;
}

impl PageTableEntry {
    /// The entry that points to page `ppn`, with the flags `flags`.
    pub fn new(ppn: u64, flags: u8) -> (e: PageTableEntry)
        ensures
            e.bits == (ppn << 10) | (flags as u64),
            ppn <= PPN_MASK ==> ppn_of(e.bits) == ppn && flags_of(e.bits) == flags,
    {
        proof {
            if ppn <= PPN_MASK {
                lemma_entry_holds(ppn, flags);
            }
        }
        PageTableEntry { bits: (ppn << 10) | (flags as u64) }
    }

    /// The entry of no bit: it is not valid.
    pub fn empty() -> (e: PageTableEntry)
        ensures
            e.bits == 0,
            !has_flag(flags_of(e.bits), PTE_V),
    {
        proof {
            assert(0u64 & 0xff == 0) by (bit_vector);
            assert(0u8 & 1u8 == 0) by (bit_vector);
        }
        PageTableEntry { bits: 0 }
    }

    /// The number of the physical page that the entry points to.
    pub fn ppn(&self) -> (r: u64)
        ensures
            r == ppn_of(self.bits),
            r <= PPN_MASK,
    {
        let bits = self.bits;
        proof {
            assert((bits >> 10) & 0xfff_ffff_ffff <= 0xfff_ffff_ffff) by (bit_vector);
        }
        (self.bits >> 10) & PPN_MASK
    }

    /// The flags of the entry.
    pub fn flags(&self) -> (r: u8)
        ensures
            r == flags_of(self.bits),
    {
        (self.bits & 0xff) as u8
    }

    /// Whether the entry is valid.
    pub fn is_valid(&self) -> (r: bool)
        ensures
            r == has_flag(flags_of(self.bits), PTE_V),
    {
        self.flags() & PTE_V != 0
    }

    /// Whether the page may be read.
    pub fn readable(&self) -> (r: bool)
        ensures
            r == has_flag(flags_of(self.bits), PTE_R),
    {
        self.flags() & PTE_R != 0
    }

    /// Whether the page may be written.
    pub fn writable(&self) -> (r: bool)
        ensures
            r == has_flag(flags_of(self.bits), PTE_W),
    {
        self.flags() & PTE_W != 0
    }

    /// Whether the page may be executed.
    pub fn executable(&self) -> (r: bool)
        ensures
            r == has_flag(flags_of(self.bits), PTE_X),
    {
        self.flags() & PTE_X != 0
    }
}

/// Where a walk goes after it has read the entry `pte` in a table of level
/// `level`: at level 2 the entry is the entry of the page; above, a valid
/// entry points to the table of the next level.
pub fn walk_step(level: usize, pte: PageTableEntry) -> (s: Step)
    ensures
        s == (if level == 2 {
            Step::Leaf
        } else if has_flag(flags_of(pte.bits), PTE_V) {
            Step::Down(ppn_of(pte.bits))
        } else {
            Step::Absent
        }),
{
    if level == 2 {
        Step::Leaf
    } else if pte.is_valid() {
        Step::Down(pte.ppn())
    } else {
        Step::Absent
    }
}

/// The value of the `satp` register for a page table whose root table lies in
/// page `root_ppn`: mode 8, which is the mode of three levels.
pub fn token_of(root_ppn: u64) -> (r: u64)
    ensures
        r == (8u64 << 60) | root_ppn,
{
    (8u64 << 60) | root_ppn
}

/// The page of the root table that the value `satp` of the register names:
/// its low 44 bits.
pub fn root_of_token(satp: u64) -> (r: u64)
    ensures
        r == satp & PPN_MASK,
        r <= PPN_MASK,
{
    proof {
        assert(satp & 0xfff_ffff_ffff <= 0xfff_ffff_ffff) by (bit_vector);
    }
    satp & PPN_MASK
}

/// The token of a root page names that page.
pub proof fn lemma_token_names_root(root_ppn: u64)
    requires
        root_ppn <= PPN_MASK,
    ensures
        ((8u64 << 60) | root_ppn) & PPN_MASK == root_ppn,
{
    assert(((8u64 << 60) | root_ppn) & 0xfff_ffff_ffff == root_ppn) by (bit_vector)
        requires
            root_ppn <= 0xfff_ffff_ffff,
    ;
}

/// The number of pages that the addresses from `start` up to `end` lie in.
pub open spec fn chunk_count(start: int, end: int) -> int {
    if start >= end {
        0
    } else {
        (end - 1) / 4096 - start / 4096 + 1
    }
}

/// The `i`-th of the chunks that the addresses from `start` up to `end` fall
/// into, page by page.
pub open spec fn chunk_at(start: int, end: int, i: int) -> Chunk {
    let page = start / 4096 + i;
    Chunk {
        vpn: page as usize,
        start: (if i == 0 {
            start % 4096
        } else {
            0
        }) as usize,
        end: (if (page + 1) * 4096 <= end {
            4096
        } else {
            end % 4096
        }) as usize,
    }
}

/// Cuts the `len` bytes from address `start` on into chunks that lie in one
/// page each, in the order of the addresses.
pub fn page_chunks(start: usize, len: usize) -> (v: Vec<Chunk>)
    requires
        start + len <= usize::MAX,
    ensures
        v@.len() == chunk_count(start as int, start + len),
        forall|i: int| 0 <= i < v@.len() ==> #[trigger] v@[i] == chunk_at(start as int, start + len, i),
        forall|i: int| 0 <= i < v@.len() ==> (#[trigger] v@[i]).start < v@[i].end <= 4096,
{
    let end = start + len;
    let mut v: Vec<Chunk> = Vec::new();
    let mut at = start;
    while at < end
        invariant
            start <= at <= end,
            end == start + len,
            at == start ==> v@.len() == 0,
            start < at < end ==> at % 4096 == 0 && at / 4096 == start / 4096 + v@.len(),
            at < end ==> v@.len() < chunk_count(start as int, end as int),
            at == end ==> v@.len() == chunk_count(start as int, end as int),
            forall|i: int| 0 <= i < v@.len() ==> #[trigger] v@[i] == chunk_at(start as int, end as int, i),
            forall|i: int| 0 <= i < v@.len() ==> (#[trigger] v@[i]).start < v@[i].end <= 4096,
        decreases end - at,
    {
        let vpn = at / 4096;
        let room = 4096 - at % 4096;
        let stop = if end - at < room {
            end
        } else {
            at + room
        };
        let last = if stop % 4096 == 0 {
            4096
        } else {
            stop % 4096
        };
        let ghost had = v@;
        v.push(Chunk { vpn, start: at % 4096, end: last });
        proof {
            let i = had.len() as int;
            assert(vpn == start / 4096 + i);
            assert(v@[i] == chunk_at(start as int, end as int, i));
            assert forall|j: int| 0 <= j < v@.len() implies #[trigger] v@[j] == chunk_at(
                start as int,
                end as int,
                j,
            ) by {
                if j < i {
                    assert(v@[j] == had[j]);
                }
            }
            assert forall|j: int| 0 <= j < v@.len() implies (#[trigger] v@[j]).start < v@[j].end
                <= 4096 by {
                if j < i {
                    assert(v@[j] == had[j]);
                }
            }
        }
        at = stop;
    }
    v
}

} // verus!
