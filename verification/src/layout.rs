//! The on-disk inode: a record of 128 bytes that gives the size, the type and
//! the backing blocks of one file or directory.
//!
//! The record holds 28 direct block indices and the index of one indirect
//! block, which holds up to 128 further indices. The blocks of an inode are
//! counted in slots: slots 0 to 27 are the direct blocks, slot 28 is the
//! indirect block itself, slot 29 and up are the blocks that it lists.

use crate::block_cache::BlockCacheManager;
use crate::block_dev::BlockDevice;
use crate::codec::{
    disk_wf, lemma_put_get_u32, lemma_put_u32_other, put_u32, splice, u32_at,
};
use crate::BLOCK_SZ;
use vstd::bytes::{
    lemma_auto_spec_u32_to_from_le_bytes, spec_u32_to_le_bytes, u32_from_le_bytes,
    u32_to_le_bytes,
};
use vstd::prelude::*;
use vstd::slice::slice_subrange;

verus! {

/// The number of direct block indices in an inode.
pub const INODE_DIRECT_COUNT: usize = 28;

/// The largest size in bytes of one inode's content.
pub const MAX_FILE_SIZE: u32 = 79872;

/// The number of bytes of an inode record.
pub const INODE_SZ: usize = 128;

/// The type of an inode.
#[derive(Debug, Clone, Copy, PartialEq, Eq, Structural)]
pub enum DiskInodeType {
    File,
    Directory,
}

/// An inode record, decoded.
pub struct DiskInode {
    pub size: u32,
    pub direct: [u32; 28],
    pub indirect1: u32,
    pub type_: DiskInodeType,
}

/// What an inode record says.
pub struct InodeView {
    pub size: u32,
    pub is_dir: bool,
    pub direct: Seq<u32>,
    pub indirect1: u32,
}

/// The number of data blocks that hold `size` bytes.
pub open spec fn data_blocks(size: int) -> int {
    (size + 511) / 512
}

/// The number of blocks that an inode of `size` bytes occupies: its data
/// blocks, and the indirect block where it has more than 28 of them.
pub open spec fn blocks_for(size: int) -> int {
    if data_blocks(size) > 28 {
        data_blocks(size) + 1
    } else {
        data_blocks(size)
    }
}

/// The slot of the `k`-th data block.
pub open spec fn slot_of(k: int) -> int {
    if k < 28 {
        k
    } else {
        k + 1
    }
}

/// The number of bytes that a read of `len` bytes at `offset` yields from
/// content of `size` bytes.
pub open spec fn clip(size: int, offset: int, len: int) -> int {
    if offset >= size {
        0
    } else if len < size - offset {
        len
    } else {
        size - offset
    }
}

/// What the record `rec` says.
pub open spec fn decode_inode(rec: Seq<u8>) -> InodeView {
    InodeView {
        size: u32_at(rec, 0),
        is_dir: u32_at(rec, 124) == 1,
        direct: Seq::new(28, |k: int| u32_at(rec, 4 + 4 * k)),
        indirect1: u32_at(rec, 116),
    }
}

/// The `w`-th of the 32 words of the record of `v`: the size, the 28 direct
/// indices, the indirect index, a word that is not used, and the type.
pub open spec fn word_of(v: InodeView, w: int) -> u32 {
    if w == 0 {
        v.size
    } else if w <= 28 {
        v.direct[w - 1]
    } else if w == 29 {
        v.indirect1
    } else if w == 30 {
        0
    } else if v.is_dir {
        1
    } else {
        0
    }
}

/// The `i`-th byte of the record of `v`.
pub open spec fn field_byte(v: InodeView, i: int) -> u8 {
    spec_u32_to_le_bytes(word_of(v, i / 4))[i % 4]
}

/// The record of `v`.
pub open spec fn encode_inode(v: InodeView) -> Seq<u8> {
    Seq::new(128, |i: int| field_byte(v, i))
}

/// A record says what it was made of.
pub proof fn lemma_decode_encode(v: InodeView)
    requires
        v.direct.len() == 28,
    ensures
        decode_inode(encode_inode(v)) == v,
        encode_inode(v).len() == 128,
{
    let rec = encode_inode(v);
    lemma_auto_spec_u32_to_from_le_bytes();
    assert forall|w: int| 0 <= w < 32 implies u32_at(rec, 4 * w) == word_of(v, w) by {
        let part = rec.subrange(4 * w, 4 * w + 4);
        let want = spec_u32_to_le_bytes(word_of(v, w));
        assert forall|j: int| 0 <= j < 4 implies part[j] == want[j] by {
            let i = 4 * w + j;
            assert(i / 4 == w && i % 4 == j);
            assert(part[j] == rec[i]);
        }
        assert(part =~= want);
    }
    assert(u32_at(rec, 0) == word_of(v, 0));
    assert(u32_at(rec, 116) == word_of(v, 29)) by {
        assert(116 == 4 * 29);
    }
    assert(u32_at(rec, 124) == word_of(v, 31)) by {
        assert(124 == 4 * 31);
    }
    assert forall|k: int| 0 <= k < 28 implies u32_at(rec, 4 + 4 * k) == v.direct[k] by {
        assert(4 + 4 * k == 4 * (k + 1));
        assert(u32_at(rec, 4 * (k + 1)) == word_of(v, k + 1));
    }
    assert(decode_inode(rec).direct =~= v.direct);
}

impl InodeView {
    /// The index of the block in slot `s`.
    pub open spec fn owned(self, disk: Seq<Seq<u8>>, s: int) -> int {
        if s < 28 {
            self.direct[s] as int
        } else if s == 28 {
            self.indirect1 as int
        } else {
            u32_at(disk[self.indirect1 as int], (s - 29) * 4) as int
        }
    }

    /// The index of the `k`-th data block.
    pub open spec fn block_at(self, disk: Seq<Seq<u8>>, k: int) -> int {
        self.owned(disk, slot_of(k))
    }

    /// The number of slots in use.
    pub open spec fn slots(self) -> int {
        blocks_for(self.size as int)
    }

    /// The blocks in use, in the order of their slots.
    pub open spec fn owned_blocks(self, disk: Seq<Seq<u8>>) -> Seq<u32> {
        Seq::new(self.slots() as nat, |s: int| self.owned(disk, s) as u32)
    }

    /// The `i`-th byte of the inode's content.
    pub open spec fn byte_at(self, disk: Seq<Seq<u8>>, i: int) -> u8 {
        disk[self.block_at(disk, i / 512)][i % 512]
    }

    /// The bytes of the inode's content.
    pub open spec fn content(self, disk: Seq<Seq<u8>>) -> Seq<u8> {
        Seq::new(self.size as nat, |i: int| self.byte_at(disk, i))
    }

    /// The inode is well formed on `disk`: its size is within the limit, the
    /// blocks in use are blocks of the disk, and no block is in use twice.
    pub open spec fn wf(self, disk: Seq<Seq<u8>>) -> bool {
        &&& disk_wf(disk)
        &&& disk.len() <= usize::MAX
        &&& self.direct.len() == 28
        &&& self.size <= MAX_FILE_SIZE
        &&& forall|s: int| 0 <= s < self.slots() ==> 0 <= #[trigger] self.owned(disk, s) < disk.len()
        &&& forall|s: int, t: int|
            0 <= s < t < self.slots() ==> #[trigger] self.owned(disk, s) != #[trigger] self.owned(
                disk,
                t,
            )
    }

    /// Every slot in use holds the same block on `disk` and on `later`.
    pub open spec fn same_blocks(self, disk: Seq<Seq<u8>>, later: Seq<Seq<u8>>) -> bool {
        forall|s: int| 0 <= s < self.slots() ==> #[trigger] self.owned(later, s) == self.owned(disk, s)
    }

    /// Whether `b` is one of the data blocks.
    pub open spec fn holds_data(self, disk: Seq<Seq<u8>>, b: int) -> bool {
        exists|k: int| 0 <= k < data_blocks(self.size as int) && #[trigger] self.block_at(disk, k) == b
    }

    /// `later` is `disk` after `data` was written into the content from
    /// `offset` on, and nothing else was changed.
    pub open spec fn wrote(
        self,
        disk: Seq<Seq<u8>>,
        later: Seq<Seq<u8>>,
        offset: int,
        data: Seq<u8>,
    ) -> bool {
        &&& later.len() == disk.len()
        &&& forall|b: int| 0 <= b < disk.len() && !self.holds_data(disk, b) ==> #[trigger] later[b] == disk[b]
        &&& forall|k: int|
            #![trigger self.block_at(disk, k)]
            0 <= k < data_blocks(self.size as int) ==> later[self.block_at(disk, k)] == Seq::new(
                BLOCK_SZ as nat,
                |j: int|
                    if offset <= k * 512 + j < offset + data.len() {
                        data[k * 512 + j - offset]
                    } else {
                        disk[self.block_at(disk, k)][j]
                    },
            )
    }

    /// Growing `self` to `new_size` bytes with the blocks `fresh` gave `after`
    /// and `later`: the slots in use before are as they were, the slots that
    /// came into use hold `fresh` in order, and only the indirect block was
    /// written.
    pub open spec fn grew(
        self,
        after: InodeView,
        disk: Seq<Seq<u8>>,
        later: Seq<Seq<u8>>,
        new_size: u32,
        fresh: Seq<u32>,
    ) -> bool {
        &&& after.size == new_size
        &&& after.is_dir == self.is_dir
        &&& after.direct.len() == 28
        &&& later.len() == disk.len()
        &&& disk_wf(later)
        &&& forall|s: int| 0 <= s < self.slots() ==> #[trigger] after.owned(later, s) == self.owned(disk, s)
        &&& forall|s: int|
            self.slots() <= s < after.slots() ==> #[trigger] after.owned(later, s) == fresh[s
                - self.slots()]
        &&& forall|s: int| after.slots() <= s < 28 ==> #[trigger] after.direct[s] == self.direct[s]
        &&& after.slots() <= 28 ==> after.indirect1 == self.indirect1
        &&& after.slots() <= 29 || after.slots() == self.slots() ==> later == disk
        &&& forall|b: int| 0 <= b < disk.len() && b != after.indirect1 ==> #[trigger] later[b] == disk[b]
        &&& after.slots() > 28 ==> forall|e: int|
            0 <= e < 128 && !(self.slots() - 29 <= e < after.slots() - 29) ==> #[trigger] u32_at(
                later[after.indirect1 as int],
                e * 4,
            ) == u32_at(disk[after.indirect1 as int], e * 4)
    }
}

/// Blocks that were not written hold the same blocks of an inode whose
/// indirect block is among them.
pub proof fn lemma_same_blocks(v: InodeView, disk: Seq<Seq<u8>>, later: Seq<Seq<u8>>)
    requires
        v.slots() > 28 ==> later[v.indirect1 as int] == disk[v.indirect1 as int],
    ensures
        v.same_blocks(disk, later),
{
}

/// An inode that is well formed stays so where its blocks are listed alike
/// and the disk has kept its shape.
pub proof fn lemma_wf_kept(v: InodeView, disk: Seq<Seq<u8>>, later: Seq<Seq<u8>>)
    requires
        v.wf(disk),
        v.same_blocks(disk, later),
        disk_wf(later),
        later.len() == disk.len(),
    ensures
        v.wf(later),
{
    assert forall|s: int| 0 <= s < v.slots() implies 0 <= #[trigger] v.owned(later, s)
        < later.len() by {
        assert(v.owned(later, s) == v.owned(disk, s));
    }
    assert forall|s: int, t: int| 0 <= s < t < v.slots() implies #[trigger] v.owned(later, s)
        != #[trigger] v.owned(later, t) by {
        assert(v.owned(later, s) == v.owned(disk, s));
        assert(v.owned(later, t) == v.owned(disk, t));
    }
}

/// The content is the same where the data blocks and their list are.
pub proof fn lemma_content_kept(v: InodeView, disk: Seq<Seq<u8>>, later: Seq<Seq<u8>>)
    requires
        v.same_blocks(disk, later),
        forall|k: int|
            0 <= k < data_blocks(v.size as int) ==> later[#[trigger] v.block_at(disk, k)]
                == disk[v.block_at(disk, k)],
    ensures
        v.content(later) == v.content(disk),
{
    assert forall|i: int| 0 <= i < v.size implies #[trigger] v.byte_at(later, i) == v.byte_at(
        disk,
        i,
    ) by {
        let k = i / 512;
        assert(0 <= slot_of(k) < v.slots());
        assert(v.owned(later, slot_of(k)) == v.owned(disk, slot_of(k)));
        assert(later[v.block_at(disk, k)] == disk[v.block_at(disk, k)]);
    }
    assert(v.content(later) =~= v.content(disk));
}

/// After a write into the content, the content is what it was with the
/// written bytes in their place, and the inode lists the same blocks.
pub proof fn lemma_wrote(
    v: InodeView,
    disk: Seq<Seq<u8>>,
    later: Seq<Seq<u8>>,
    offset: int,
    data: Seq<u8>,
)
    requires
        v.wf(disk),
        v.wrote(disk, later, offset, data),
        0 <= offset,
        offset + data.len() <= v.size,
    ensures
        v.same_blocks(disk, later),
        v.wf(later),
        v.content(later) == splice(v.content(disk), offset, data),
{
    lemma_data_is_not_index(v, disk);
    if v.slots() > 28 {
        assert(!v.holds_data(disk, v.indirect1 as int));
        assert(v.owned(disk, 28) == v.indirect1);
    }
    lemma_same_blocks(v, disk, later);
    assert(disk_wf(later)) by {
        assert forall|b: int| 0 <= b < later.len() implies (#[trigger] later[b]).len()
            == BLOCK_SZ by {
            if v.holds_data(disk, b) {
                let k = choose|k: int|
                    0 <= k < data_blocks(v.size as int) && #[trigger] v.block_at(disk, k) == b;
                assert(later[v.block_at(disk, k)].len() == BLOCK_SZ);
            }
        }
    }
    lemma_wf_kept(v, disk, later);
    assert forall|i: int| 0 <= i < v.size implies #[trigger] v.byte_at(later, i) == splice(
        v.content(disk),
        offset,
        data,
    )[i] by {
        let k = i / 512;
        assert(0 <= slot_of(k) < v.slots());
        assert(v.owned(later, slot_of(k)) == v.owned(disk, slot_of(k)));
        assert(later[v.block_at(disk, k)][i % 512] == if offset <= k * 512 + i % 512 < offset
            + data.len() {
            data[k * 512 + i % 512 - offset]
        } else {
            disk[v.block_at(disk, k)][i % 512]
        });
    }
    assert(v.content(later) =~= splice(v.content(disk), offset, data));
}

/// In a well-formed inode the indirect block is none of the data blocks, and
/// no two data blocks are the same.
pub proof fn lemma_data_is_not_index(v: InodeView, disk: Seq<Seq<u8>>)
    requires
        v.wf(disk),
    ensures
        v.slots() > 28 ==> !v.holds_data(disk, v.indirect1 as int),
        forall|k: int, l: int|
            0 <= k < data_blocks(v.size as int) && 0 <= l < data_blocks(v.size as int) && k != l
                ==> #[trigger] v.block_at(disk, k) != #[trigger] v.block_at(disk, l),
        forall|k: int|
            0 <= k < data_blocks(v.size as int) ==> 0 <= #[trigger] v.block_at(disk, k)
                < disk.len(),
{
    if v.slots() > 28 {
        if v.holds_data(disk, v.indirect1 as int) {
            let k = choose|k: int|
                0 <= k < data_blocks(v.size as int) && #[trigger] v.block_at(disk, k)
                    == v.indirect1 as int;
            let s = slot_of(k);
            assert(v.owned(disk, 28) == v.indirect1);
            if s < 28 {
                assert(v.owned(disk, s) != v.owned(disk, 28));
            } else {
                assert(v.owned(disk, 28) != v.owned(disk, s));
            }
        }
    }
    assert forall|k: int, l: int|
        0 <= k < data_blocks(v.size as int) && 0 <= l < data_blocks(v.size as int) && k
            != l implies #[trigger] v.block_at(disk, k) != #[trigger] v.block_at(disk, l) by {
        let s = slot_of(k);
        let t = slot_of(l);
        if s < t {
            assert(v.owned(disk, s) != v.owned(disk, t));
        } else {
            assert(v.owned(disk, t) != v.owned(disk, s));
        }
    }
    assert forall|k: int| 0 <= k < data_blocks(v.size as int) implies 0 <= #[trigger] v.block_at(
        disk,
        k,
    ) < disk.len() by {
        assert(0 <= v.owned(disk, slot_of(k)) < disk.len());
    }
}

impl View for DiskInode {
    type V = InodeView;

    open spec fn view(&self) -> InodeView {
        InodeView {
            size: self.size,
            is_dir: self.type_ is Directory,
            direct: self.direct@,
            indirect1: self.indirect1,
        }
    }
}

/// Reads the little-endian `u32` at `off`.
fn load_u32(buf: &[u8], off: usize) -> (x: u32)
    requires
        off + 4 <= buf@.len(),
    ensures
        x == u32_at(buf@, off as int),
{
    let len = buf.len();
    u32_from_le_bytes(slice_subrange(buf, off, off + 4))
}

impl DiskInode {
    /// Makes the inode an empty inode of type `type_`.
    pub fn initialize(&mut self, type_: DiskInodeType)
        ensures
            final(self)@.size == 0,
            final(self)@.is_dir == (type_ is Directory),
            final(self)@.direct == Seq::new(28, |k: int| 0u32),
            final(self)@.indirect1 == 0,
            final(self)@.slots() == 0,
    {
        self.size = 0;
        self.direct = [0u32; 28];
        self.indirect1 = 0;
        self.type_ = type_;
        assert(self.direct@ =~= Seq::new(28, |k: int| 0u32));
    }

    /// An empty inode of type `type_`.
    pub fn empty(type_: DiskInodeType) -> (d: DiskInode)
        ensures
            d@.size == 0,
            d@.is_dir == (type_ is Directory),
            d@.direct == Seq::new(28, |k: int| 0u32),
            d@.indirect1 == 0,
            d@.slots() == 0,
    {
        let d = DiskInode { size: 0, direct: [0u32; 28], indirect1: 0, type_ };
        assert(d.direct@ =~= Seq::new(28, |k: int| 0u32));
        d
    }

    /// Whether the inode is a directory.
    pub fn is_dir(&self) -> (r: bool)
        ensures
            r == self@.is_dir,
    {
        match self.type_ {
            DiskInodeType::Directory => true,
            DiskInodeType::File => false,
        }
    }

    /// Whether the inode is a file.
    pub fn is_file(&self) -> (r: bool)
        ensures
            r == !self@.is_dir,
    {
        !self.is_dir()
    }

    /// Decodes a record.
    pub fn decode(bytes: &[u8]) -> (d: DiskInode)
        requires
            bytes@.len() == INODE_SZ,
        ensures
            d@ == decode_inode(bytes@),
    {
        let mut direct = [0u32; 28];
        let mut k: usize = 0;
        while k < 28
            invariant
                k <= 28,
                bytes@.len() == INODE_SZ,
                forall|j: int| 0 <= j < k ==> direct@[j] == u32_at(bytes@, 4 + 4 * j),
            decreases 28 - k,
        {
            direct[k] = load_u32(bytes, 4 + 4 * k);
            k += 1;
        }
        let t = load_u32(bytes, 124);
        let d = DiskInode {
            size: load_u32(bytes, 0),
            direct,
            indirect1: load_u32(bytes, 116),
            type_: if t == 1 {
                DiskInodeType::Directory
            } else {
                DiskInodeType::File
            },
        };
        assert(d@.direct =~= decode_inode(bytes@).direct);
        d
    }

    /// Encodes the inode as a record.
    pub fn encode(&self) -> (r: Vec<u8>)
        ensures
            r@ == encode_inode(self@),
            r@.len() == INODE_SZ,
            decode_inode(r@) == self@,
    {
        let mut out: Vec<u8> = Vec::new();
        let mut w: usize = 0;
        while w < 32
            invariant
                w <= 32,
                out@.len() == 4 * w,
                forall|i: int| 0 <= i < 4 * w ==> out@[i] == field_byte(self@, i),
            decreases 32 - w,
        {
            let x: u32 = if w == 0 {
                self.size
            } else if w <= 28 {
                self.direct[w - 1]
            } else if w == 29 {
                self.indirect1
            } else if w == 30 {
                0
            } else if self.is_dir() {
                1
            } else {
                0
            };
            let bytes = u32_to_le_bytes(x);
            let mut j: usize = 0;
            while j < 4
                invariant
                    j <= 4,
                    w < 32,
                    x == word_of(self@, w as int),
                    bytes@ == spec_u32_to_le_bytes(x),
                    bytes@.len() == 4,
                    out@.len() == 4 * w + j,
                    forall|i: int| 0 <= i < 4 * w + j ==> out@[i] == field_byte(self@, i),
                decreases 4 - j,
            {
                out.push(bytes[j]);
                proof {
                    let i = 4 * w + j;
                    assert(i / 4 == w && i % 4 == j);
                }
                j += 1;
            }
            w += 1;
        }
        proof {
            assert(out@ =~= encode_inode(self@));
            lemma_decode_encode(self@);
        }
        out
    }

    /// The number of data blocks that hold `size` bytes.
    pub fn data_blocks_of(size: u32) -> (n: u32)
        ensures
            n == data_blocks(size as int),
    {
        let s = size as u64;
        ((s + 511) / 512) as u32
    }

    /// The number of blocks that an inode of `size` bytes occupies: its data
    /// blocks, and the indirect block where it has more than 28 of them.
    pub fn total_blocks(size: u32) -> (n: u32)
        ensures
            n == blocks_for(size as int),
    {
        let n = Self::data_blocks_of(size);
        if n > 28 {
            n + 1
        } else {
            n
        }
    }

    /// The number of blocks that it takes more to hold `new_size` bytes; zero
    /// where the inode holds as many already.
    pub fn blocks_num_needed(&self, new_size: u32) -> (n: u32)
        ensures
            n == (if new_size >= self.size {
                blocks_for(new_size as int) - blocks_for(self.size as int)
            } else {
                0
            }),
    {
        if new_size < self.size {
            return 0;
        }
        Self::total_blocks(new_size) - Self::total_blocks(self.size)
    }

    /// The index of the `inner_id`-th data block.
    pub fn get_block_id<D: BlockDevice>(
        &self,
        inner_id: u32,
        cache: &mut BlockCacheManager<D>,
    ) -> (r: u32)
        requires
            old(cache).ready(),
            self@.wf(old(cache).disk()),
            inner_id < data_blocks(self.size as int),
        ensures
            old(cache).accessed(final(cache)),
            final(cache).disk() == old(cache).disk(),
            r == self@.block_at(old(cache).disk(), inner_id as int),
            r < old(cache).disk().len(),
    {
        proof {
            lemma_data_is_not_index(self@, cache.disk());
            assert(0 <= self@.block_at(cache.disk(), inner_id as int) < cache.disk().len());
        }
        let k = inner_id as usize;
        if k < INODE_DIRECT_COUNT {
            self.direct[k]
        } else {
            proof {
                assert(0 <= self@.owned(cache.disk(), 28) < cache.disk().len());
            }
            let bytes = cache.read(self.indirect1 as usize, (k - INODE_DIRECT_COUNT) * 4, 4);
            u32_from_le_bytes(bytes.as_slice())
        }
    }

    /// Reads content from `offset` on into `buf`, as much as there is and as
    /// `buf` takes, and returns the number of bytes read. The rest of `buf`
    /// stays as it was.
    pub fn read_at<D: BlockDevice>(
        &self,
        offset: usize,
        buf: &mut [u8],
        cache: &mut BlockCacheManager<D>,
    ) -> (n: usize)
        requires
            old(cache).ready(),
            self@.wf(old(cache).disk()),
        ensures
            old(cache).accessed(final(cache)),
            final(cache).disk() == old(cache).disk(),
            n == clip(self.size as int, offset as int, old(buf)@.len() as int),
            final(buf)@.len() == old(buf)@.len(),
            forall|i: int|
                0 <= i < n ==> final(buf)@[i] == self@.content(old(cache).disk())[offset + i],
            forall|i: int| n <= i < old(buf)@.len() ==> final(buf)@[i] == old(buf)@[i],
    {
        let size = self.size as usize;
        if offset >= size {
            return 0;
        }
        let avail = size - offset;
        let n = if buf.len() < avail {
            buf.len()
        } else {
            avail
        };
        let ghost disk = cache.disk();
        let mut done: usize = 0;
        while done < n
            invariant
                done <= n,
                offset + n <= size,
                size == self.size,
                n <= buf@.len(),
                buf@.len() == old(buf)@.len(),
                cache.ready(),
                cache.disk() == disk,
                disk == old(cache).disk(),
                old(cache).accessed(cache),
                self@.wf(disk),
                forall|i: int| 0 <= i < done ==> buf@[i] == self@.content(disk)[offset + i],
                forall|i: int| done <= i < buf@.len() ==> buf@[i] == old(buf)@[i],
            decreases n - done,
        {
            let pos = offset + done;
            let k = pos / BLOCK_SZ;
            let inner = pos % BLOCK_SZ;
            let room = BLOCK_SZ - inner;
            let chunk = if n - done < room {
                n - done
            } else {
                room
            };
            let block_id = self.get_block_id(k as u32, cache);
            let bytes = cache.read(block_id as usize, inner, chunk);
            let mut j: usize = 0;
            while j < chunk
                invariant
                    j <= chunk,
                    done + chunk <= n,
                    n <= buf@.len(),
                    buf@.len() == old(buf)@.len(),
                    bytes@.len() == chunk,
                    forall|i: int| 0 <= i < done ==> buf@[i] == self@.content(disk)[offset + i],
                    forall|i: int| done <= i < done + j ==> buf@[i] == bytes@[i - done],
                    forall|i: int| done + j <= i < buf@.len() ==> buf@[i] == old(buf)@[i],
                decreases chunk - j,
            {
                buf[done + j] = bytes[j];
                j += 1;
            }
            proof {
                assert forall|i: int| done <= i < done + chunk implies buf@[i] == self@.content(
                    disk,
                )[offset + i] by {
                    let p = offset + i;
                    assert(p / 512 == k);
                    assert(p % 512 == inner + (i - done));
                    assert(bytes@[i - done] == disk[block_id as int][inner + (i - done)]);
                }
            }
            done += chunk;
        }
        n
    }

    /// Writes `buf` into the content from `offset` on, as far as the content
    /// reaches, and returns the number of bytes written. The inode is not
    /// grown: bytes that would lie beyond its size are not written.
    pub fn write_at<D: BlockDevice>(
        &self,
        offset: usize,
        buf: &[u8],
        cache: &mut BlockCacheManager<D>,
    ) -> (n: usize)
        requires
            old(cache).ready(),
            self@.wf(old(cache).disk()),
        ensures
            old(cache).accessed(final(cache)),
            n == clip(self.size as int, offset as int, buf@.len() as int),
            self@.wrote(old(cache).disk(), final(cache).disk(), offset as int, buf@.subrange(0, n as int)),
            self@.wf(final(cache).disk()),
            self@.same_blocks(old(cache).disk(), final(cache).disk()),
            n > 0 ==> self@.content(final(cache).disk()) == splice(
                self@.content(old(cache).disk()),
                offset as int,
                buf@.subrange(0, n as int),
            ),
            n == 0 ==> final(cache).disk() == old(cache).disk(),
    {
        let size = self.size as usize;
        let ghost disk = cache.disk();
        proof {
            cache.lemma_disk_wf();
            lemma_data_is_not_index(self@, disk);
        }
        if offset >= size {
            proof {
                lemma_wrote_nothing(self@, disk, offset as int);
                assert(buf@.subrange(0, 0) =~= Seq::<u8>::empty());
            }
            return 0;
        }
        let avail = size - offset;
        let n = if buf.len() < avail {
            buf.len()
        } else {
            avail
        };
        let mut done: usize = 0;
        proof {
            lemma_wrote_nothing(self@, disk, offset as int);
            assert(buf@.subrange(0, 0) =~= Seq::<u8>::empty());
        }
        while done < n
            invariant
                done <= n,
                offset + n <= size,
                size == self.size,
                n <= buf@.len(),
                cache.ready(),
                disk == old(cache).disk(),
                old(cache).accessed(cache),
                self@.wf(disk),
                self@.wrote(disk, cache.disk(), offset as int, buf@.subrange(0, done as int)),
            decreases n - done,
        {
            let ghost cur = cache.disk();
            proof {
                lemma_wrote(self@, disk, cur, offset as int, buf@.subrange(0, done as int));
            }
            let pos = offset + done;
            let k = pos / BLOCK_SZ;
            let inner = pos % BLOCK_SZ;
            let room = BLOCK_SZ - inner;
            let chunk = if n - done < room {
                n - done
            } else {
                room
            };
            let block_id = self.get_block_id(k as u32, cache);
            proof {
                assert(self@.owned(cur, slot_of(k as int)) == self@.owned(disk, slot_of(k as int)));
            }
            cache.modify(block_id as usize, inner, slice_subrange(buf, done, done + chunk));
            proof {
                lemma_wrote_more(
                    self@,
                    disk,
                    cur,
                    cache.disk(),
                    offset as int,
                    buf@,
                    done as int,
                    chunk as int,
                );
            }
            done += chunk;
        }
        proof {
            lemma_wrote(self@, disk, cache.disk(), offset as int, buf@.subrange(0, n as int));
        }
        n
    }

    /// Grows the inode to `new_size` bytes, taking the blocks that it needs
    /// more from `new_blocks` in order. Nothing happens where `new_size` is
    /// less than the size.
    pub fn increase_size<D: BlockDevice>(
        &mut self,
        new_size: u32,
        new_blocks: Vec<u32>,
        cache: &mut BlockCacheManager<D>,
    )
        requires
            old(cache).ready(),
            old(self)@.wf(old(cache).disk()),
            new_size <= MAX_FILE_SIZE,
            new_size >= old(self).size ==> new_blocks@.len() == blocks_for(new_size as int)
                - blocks_for(old(self).size as int),
            forall|i: int| 0 <= i < new_blocks@.len() ==> new_blocks@[i] < old(cache).disk().len(),
        ensures
            old(cache).accessed(final(cache)),
            new_size < old(self).size ==> *final(self) == *old(self) && final(cache).disk() == old(
                cache,
            ).disk(),
            new_size >= old(self).size ==> old(self)@.grew(
                final(self)@,
                old(cache).disk(),
                final(cache).disk(),
                new_size,
                new_blocks@,
            ),
    {
        if new_size < self.size {
            return ;
        }
        let ghost disk = cache.disk();
        let ghost before = self@;
        proof {
            cache.lemma_disk_wf();
        }
        let first = Self::total_blocks(self.size);
        let target = Self::total_blocks(new_size);
        let mut cur = first;
        proof {
            if first > 28 {
                assert(0 <= before.owned(disk, 28) < disk.len());
            }
        }
        while cur < target
            invariant
                first <= cur <= target,
                first == before.slots(),
                target == blocks_for(new_size as int),
                target <= 157,
                new_blocks@.len() == target - first,
                cache.ready(),
                old(cache).accessed(cache),
                disk == old(cache).disk(),
                before == old(self)@,
                before.wf(disk),
                disk_wf(cache.disk()),
                cache.disk().len() == disk.len(),
                forall|i: int| 0 <= i < new_blocks@.len() ==> new_blocks@[i] < disk.len(),
                self.size == before.size,
                self@.is_dir == before.is_dir,
                cur <= 28 ==> self.indirect1 == before.indirect1,
                cur > 28 ==> self.indirect1 < disk.len(),
                forall|s: int| 0 <= s < first ==> #[trigger] self@.owned(cache.disk(), s)
                    == before.owned(disk, s),
                forall|s: int| first <= s < cur ==> #[trigger] self@.owned(cache.disk(), s)
                    == new_blocks@[s - first],
                forall|s: int| cur <= s < 28 ==> #[trigger] self.direct@[s] == before.direct[s],
                cur <= 29 || cur == first ==> cache.disk() == disk,
                forall|b: int|
                    0 <= b < disk.len() && b != self.indirect1 ==> #[trigger] cache.disk()[b]
                        == disk[b],
                cur > 28 ==> forall|e: int|
                    0 <= e < 128 && !(first - 29 <= e < cur - 29) ==> #[trigger] u32_at(
                        cache.disk()[self.indirect1 as int],
                        e * 4,
                    ) == u32_at(disk[self.indirect1 as int], e * 4),
            decreases target - cur,
        {
            let b = new_blocks[(cur - first) as usize];
            let ghost prev_self = self@;
            let ghost prev_disk = cache.disk();
            if cur < 28 {
                self.direct[cur as usize] = b;
                proof {
                    assert forall|s: int| 0 <= s < cur + 1 implies #[trigger] self@.owned(
                        cache.disk(),
                        s,
                    ) == (if s < first {
                        before.owned(disk, s)
                    } else {
                        new_blocks@[s - first] as int
                    }) by {
                        if s < cur {
                            assert(self@.owned(cache.disk(), s) == prev_self.owned(prev_disk, s));
                        }
                    }
                }
            } else if cur == 28 {
                self.indirect1 = b;
                proof {
                    assert forall|s: int| 0 <= s < cur + 1 implies #[trigger] self@.owned(
                        cache.disk(),
                        s,
                    ) == (if s < first {
                        before.owned(disk, s)
                    } else {
                        new_blocks@[s - first] as int
                    }) by {
                        if s < cur {
                            assert(self@.owned(cache.disk(), s) == prev_self.owned(prev_disk, s));
                        }
                    }
                }
            } else {
                proof {
                    if first > 28 {
                        assert(before.owned(disk, 28) == before.indirect1);
                        assert(self@.owned(cache.disk(), 28) == before.owned(disk, 28));
                    }
                }
                let out = u32_to_le_bytes(b);
                let e = (cur - 29) as usize;
                cache.modify(self.indirect1 as usize, e * 4, out.as_slice());
                proof {
                    let ind = self.indirect1 as int;
                    let blk = prev_disk[ind];
                    assert(cache.disk()[ind] == put_u32(blk, e * 4, b));
                    lemma_put_get_u32(blk, e * 4, b);
                    assert forall|x: int| 0 <= x < 128 && x != e implies #[trigger] u32_at(
                        cache.disk()[ind],
                        x * 4,
                    ) == u32_at(prev_disk[ind], x * 4) by {
                        lemma_put_u32_other(blk, e * 4, b, x * 4);
                    }
                    assert forall|s: int| 0 <= s < cur + 1 implies #[trigger] self@.owned(
                        cache.disk(),
                        s,
                    ) == (if s < first {
                        before.owned(disk, s)
                    } else {
                        new_blocks@[s - first] as int
                    }) by {
                        if s < cur {
                            assert(prev_self.owned(prev_disk, s) == (if s < first {
                                before.owned(disk, s)
                            } else {
                                new_blocks@[s - first] as int
                            }));
                            if s > 28 {
                                assert(u32_at(cache.disk()[ind], (s - 29) * 4) == u32_at(
                                    prev_disk[ind],
                                    (s - 29) * 4,
                                ));
                            }
                        }
                    }
                    assert(disk_wf(cache.disk()));
                    assert forall|x: int|
                        0 <= x < 128 && !(first - 29 <= x < cur + 1 - 29) implies #[trigger] u32_at(
                        cache.disk()[ind],
                        x * 4,
                    ) == u32_at(disk[ind], x * 4) by {
                        assert(u32_at(prev_disk[ind], x * 4) == u32_at(disk[ind], x * 4));
                    }
                }
            }
            cur += 1;
        }
        let ghost grown = self@;
        self.size = new_size;
        proof {
            let after = self@;
            let later = cache.disk();
            assert(after.slots() == target);
            assert forall|s: int| 0 <= s < before.slots() implies #[trigger] after.owned(later, s)
                == before.owned(disk, s) by {
                assert(after.owned(later, s) == grown.owned(later, s));
            }
            assert forall|s: int| before.slots() <= s < after.slots() implies #[trigger] after.owned(
                later,
                s,
            ) == new_blocks@[s - before.slots()] by {
                assert(after.owned(later, s) == grown.owned(later, s));
            }
            assert forall|s: int| after.slots() <= s < 28 implies #[trigger] after.direct[s]
                == before.direct[s] by {
                assert(after.direct[s] == grown.direct[s]);
            }
            assert(after.slots() <= 28 ==> after.indirect1 == before.indirect1);
            assert(after.slots() <= 29 || after.slots() == before.slots() ==> later == disk);
            assert(forall|b: int|
                0 <= b < disk.len() && b != after.indirect1 ==> #[trigger] later[b] == disk[b]);
            assert(after.direct.len() == 28);
        }
    }

    /// Empties the inode and returns the blocks that were in use, in the
    /// order of their slots. The blocks themselves are not written.
    pub fn clear_size<D: BlockDevice>(&mut self, cache: &mut BlockCacheManager<D>) -> (v: Vec<u32>)
        requires
            old(cache).ready(),
            old(self)@.wf(old(cache).disk()),
        ensures
            old(cache).accessed(final(cache)),
            final(cache).disk() == old(cache).disk(),
            v@ == old(self)@.owned_blocks(old(cache).disk()),
            v@.len() == blocks_for(old(self).size as int),
            final(self)@.size == 0,
            final(self)@.is_dir == old(self)@.is_dir,
            final(self)@.direct == Seq::new(28, |k: int| 0u32),
            final(self)@.indirect1 == 0,
    {
        let ghost disk = cache.disk();
        let ghost before = self@;
        let total = Self::total_blocks(self.size);
        let mut v: Vec<u32> = Vec::new();
        let mut s: u32 = 0;
        while s < total
            invariant
                s <= total,
                total == before.slots(),
                before == self@,
                before.wf(disk),
                cache.ready(),
                cache.disk() == disk,
                disk == old(cache).disk(),
                old(cache).accessed(cache),
                v@.len() == s,
                forall|t: int| 0 <= t < s ==> v@[t] == before.owned(disk, t) as u32,
            decreases total - s,
        {
            proof {
                assert(0 <= before.owned(disk, s as int) < disk.len());
            }
            let b = if s < 28 {
                self.direct[s as usize]
            } else if s == 28 {
                self.indirect1
            } else {
                proof {
                    assert(0 <= before.owned(disk, 28) < disk.len());
                }
                let bytes = cache.read(self.indirect1 as usize, ((s - 29) as usize) * 4, 4);
                u32_from_le_bytes(bytes.as_slice())
            };
            v.push(b);
            s += 1;
        }
        self.size = 0;
        self.direct = [0u32; 28];
        self.indirect1 = 0;
        proof {
            assert(self.direct@ =~= Seq::new(28, |k: int| 0u32));
            assert(v@ =~= before.owned_blocks(disk));
        }
        v
    }
}

/// A write of no bytes leaves the disk as it is.
pub proof fn lemma_wrote_nothing(v: InodeView, disk: Seq<Seq<u8>>, offset: int)
    requires
        v.wf(disk),
    ensures
        v.wrote(disk, disk, offset, Seq::<u8>::empty()),
{
    lemma_data_is_not_index(v, disk);
    assert forall|k: int|
        #![trigger v.block_at(disk, k)]
        0 <= k < data_blocks(v.size as int) implies disk[v.block_at(disk, k)] == Seq::new(
        BLOCK_SZ as nat,
        |j: int|
            if offset <= k * 512 + j < offset + Seq::<u8>::empty().len() {
                Seq::<u8>::empty()[k * 512 + j - offset]
            } else {
                disk[v.block_at(disk, k)][j]
            },
    ) by {
        let b = v.block_at(disk, k);
        assert(disk[b].len() == BLOCK_SZ);
        assert(disk[b] =~= Seq::new(
            BLOCK_SZ as nat,
            |j: int|
                if offset <= k * 512 + j < offset + Seq::<u8>::empty().len() {
                    Seq::<u8>::empty()[k * 512 + j - offset]
                } else {
                    disk[b][j]
                },
        ));
    }
}

/// Writing the next run of bytes into the block that holds their place
/// extends what was written.
pub proof fn lemma_wrote_more(
    v: InodeView,
    disk: Seq<Seq<u8>>,
    cur: Seq<Seq<u8>>,
    next: Seq<Seq<u8>>,
    offset: int,
    data: Seq<u8>,
    done: int,
    chunk: int,
)
    requires
        v.wf(disk),
        0 <= offset,
        0 <= done,
        0 < chunk,
        done + chunk <= data.len(),
        offset + done + chunk <= v.size,
        (offset + done) % 512 + chunk <= 512,
        v.wrote(disk, cur, offset, data.subrange(0, done)),
        next == cur.update(
            v.block_at(disk, (offset + done) / 512),
            splice(
                cur[v.block_at(disk, (offset + done) / 512)],
                (offset + done) % 512,
                data.subrange(done, done + chunk),
            ),
        ),
    ensures
        v.wrote(disk, next, offset, data.subrange(0, done + chunk)),
{
    lemma_data_is_not_index(v, disk);
    let kc = (offset + done) / 512;
    let inner = (offset + done) % 512;
    let bc = v.block_at(disk, kc);
    let d0 = data.subrange(0, done);
    let d1 = data.subrange(0, done + chunk);
    assert(0 <= kc < data_blocks(v.size as int));
    assert(v.holds_data(disk, bc));
    assert forall|k: int|
        #![trigger v.block_at(disk, k)]
        0 <= k < data_blocks(v.size as int) implies next[v.block_at(disk, k)] == Seq::new(
        BLOCK_SZ as nat,
        |j: int|
            if offset <= k * 512 + j < offset + d1.len() {
                d1[k * 512 + j - offset]
            } else {
                disk[v.block_at(disk, k)][j]
            },
    ) by {
        let b = v.block_at(disk, k);
        let want = Seq::new(
            BLOCK_SZ as nat,
            |j: int|
                if offset <= k * 512 + j < offset + d1.len() {
                    d1[k * 512 + j - offset]
                } else {
                    disk[b][j]
                },
        );
        let had = Seq::new(
            BLOCK_SZ as nat,
            |j: int|
                if offset <= k * 512 + j < offset + d0.len() {
                    d0[k * 512 + j - offset]
                } else {
                    disk[b][j]
                },
        );
        assert(cur[b] == had);
        if k == kc {
            assert forall|j: int| 0 <= j < 512 implies next[b][j] == want[j] by {
                if inner <= j < inner + chunk {
                    assert(next[b][j] == data.subrange(done, done + chunk)[j - inner]);
                } else {
                    assert(next[b][j] == cur[b][j]);
                }
            }
            assert(next[b] =~= want);
        } else {
            assert(b != bc);
            assert forall|j: int| 0 <= j < 512 implies had[j] == want[j] by {
                if k < kc {
                    assert(k * 512 + j < offset + done);
                } else {
                    assert(k * 512 + j >= offset + done + chunk);
                }
            }
            assert(had =~= want);
        }
    }
}

} // verus!
