//! Inode handles and the operations on files and directories.
//!
//! A handle is the address of an inode record: a block and an offset in it.
//! It owns nothing; every operation takes the filesystem that the handle
//! belongs to. A directory's content is a packed array of directory entries.

use crate::block_dev::BlockDevice;
use crate::dir_entry::{
    count_links, entries_of, entry_bytes, entry_inode, entry_name, first_match, has_name,
    lemma_entry_inode, DirEntry, DIRENT_SZ,
};
use crate::efs::{inode_offset, EasyFileSystem, Layout};
use crate::error::FsError;
use crate::layout::{blocks_for, clip, DiskInode, DiskInodeType, InodeView, MAX_FILE_SIZE};
use vstd::prelude::*;
use vstd::string::StringSliceAdditionalSpecFns;
use vstd::utf8::{decode_utf8, valid_utf8};

verus! {

/// The address of an inode record.
#[derive(Debug, Clone, Copy, PartialEq, Eq, Structural)]
pub struct Inode {
    pub block_id: usize,
    pub block_offset: usize,
}

impl Layout {
    /// The address `h` is the address of an inode record.
    pub open spec fn is_handle(&self, h: Inode) -> bool {
        &&& self.inode_area_start_block <= h.block_id
        &&& h.block_offset % 128 == 0
        &&& h.block_offset < 512
        &&& self.id_of(h) < self.inode_count()
    }

    /// The number of the inode at address `h`.
    pub open spec fn id_of(&self, h: Inode) -> int {
        (h.block_id - self.inode_area_start_block) * 4 + h.block_offset / 128
    }

    /// The address of inode `i`.
    pub open spec fn handle_of(&self, i: int) -> Inode {
        Inode { block_id: self.inode_block(i) as usize, block_offset: inode_offset(i) as usize }
    }

    /// The address of an inode and its number determine each other.
    pub proof fn lemma_handle(&self, disk: Seq<Seq<u8>>, i: int)
        requires
            self.wf(disk),
            0 <= i < self.inode_count(),
        ensures
            self.is_handle(self.handle_of(i)),
            self.id_of(self.handle_of(i)) == i,
            self.handle_of(i).block_id == self.inode_block(i),
            self.handle_of(i).block_offset == inode_offset(i),
    {
        self.lemma_regions(disk);
        assert(self.inode_area_start_block <= self.inode_block(i) < self.data_bitmap.start());
    }

    /// The address of an inode and its number determine each other.
    pub proof fn lemma_handle_id(&self, h: Inode)
        requires
            self.is_handle(h),
        ensures
            0 <= self.id_of(h) < self.inode_count(),
            self.inode_block(self.id_of(h)) == h.block_id,
            inode_offset(self.id_of(h)) == h.block_offset,
            self.handle_of(self.id_of(h)) == h,
    {
    }

}

/// The string that the bytes `bytes` encode, by `String::from_utf8` of the
/// standard library. It is not verified here that the call returns a string
/// exactly when the bytes are valid UTF-8, and that the string is then made of
/// the characters that the bytes encode.
#[verifier::external_body]
fn string_from_utf8(bytes: Vec<u8>) -> (r: Option<String>)
    ensures
        r is Some <==> valid_utf8(bytes@),
        r is Some ==> r.unwrap()@ == decode_utf8(bytes@),
{
    String::from_utf8(bytes).ok()
}

impl Inode {
    /// The handle at block `block_id`, offset `block_offset`.
    pub fn new(block_id: u32, block_offset: usize) -> (h: Inode)
        ensures
            h.block_id == block_id,
            h.block_offset == block_offset,
    {
        Inode { block_id: block_id as usize, block_offset }
    }

    /// The handle is the address of an allocated inode of `fs`.
    pub open spec fn live<D: BlockDevice>(&self, fs: &EasyFileSystem<D>) -> bool {
        fs.layout.is_handle(*self) && fs.layout.live(fs.disk(), fs.layout.id_of(*self))
    }

    /// The number of the inode.
    pub open spec fn id<D: BlockDevice>(&self, fs: &EasyFileSystem<D>) -> int {
        fs.layout.id_of(*self)
    }

    /// What the inode's record says.
    pub open spec fn record<D: BlockDevice>(&self, fs: &EasyFileSystem<D>) -> InodeView {
        fs.layout.inode(fs.disk(), self.id(fs))
    }

    /// The inode's content.
    pub open spec fn content<D: BlockDevice>(&self, fs: &EasyFileSystem<D>) -> Seq<u8> {
        fs.layout.content(fs.disk(), self.id(fs))
    }

    /// The inode's entries, read as a directory.
    pub open spec fn entries<D: BlockDevice>(&self, fs: &EasyFileSystem<D>) -> Seq<Seq<u8>> {
        fs.layout.entries(fs.disk(), self.id(fs))
    }

    /// The number of the inode.
    pub fn inode_id<D: BlockDevice>(&self, fs: &EasyFileSystem<D>) -> (i: u32)
        requires
            fs.valid(),
            fs.layout.is_handle(*self),
        ensures
            i == self.id(fs),
            i < fs.layout.inode_count(),
    {
        proof {
            fs.layout.lemma_handle_id(*self);
        }
        let b = (self.block_id - fs.layout.inode_area_start_block as usize) as u32;
        b * 4 + (self.block_offset / 128) as u32
    }

    /// Whether the handle is the address of an inode record of `fs`.
    pub fn is_handle<D: BlockDevice>(&self, fs: &EasyFileSystem<D>) -> (r: bool)
        requires
            fs.valid(),
        ensures
            r == fs.layout.is_handle(*self),
    {
        proof {
            fs.layout.lemma_regions(fs.disk());
        }
        let start = fs.layout.inode_area_start_block as usize;
        if self.block_id < start || self.block_offset % 128 != 0 || self.block_offset >= 512 {
            return false;
        }
        self.block_id - start < fs.layout.inode_bitmap.maximum() / 4
    }

    /// Whether the handle is the address of an allocated inode of `fs`.
    pub fn is_live<D: BlockDevice>(&self, fs: &mut EasyFileSystem<D>) -> (r: bool)
        requires
            old(fs).valid(),
        ensures
            old(fs).stepped(final(fs)),
            final(fs).disk() == old(fs).disk(),
            r == self.live(old(fs)),
    {
        if !self.is_handle(fs) {
            return false;
        }
        let id = self.inode_id(fs);
        fs.inode_is_live(id)
    }

    /// Whether the inode is a directory.
    pub fn is_dir<D: BlockDevice>(&self, fs: &mut EasyFileSystem<D>) -> (r: bool)
        requires
            old(fs).valid(),
            old(fs).layout.is_handle(*self),
        ensures
            old(fs).stepped(final(fs)),
            final(fs).disk() == old(fs).disk(),
            r == self.record(old(fs)).is_dir,
    {
        let id = self.inode_id(fs);
        let d = fs.read_inode(id);
        d.is_dir()
    }

    /// The size in bytes of the inode's content.
    pub fn size<D: BlockDevice>(&self, fs: &mut EasyFileSystem<D>) -> (r: u32)
        requires
            old(fs).valid(),
            old(fs).layout.is_handle(*self),
        ensures
            old(fs).stepped(final(fs)),
            final(fs).disk() == old(fs).disk(),
            r == self.record(old(fs)).size,
    {
        let id = self.inode_id(fs);
        let d = fs.read_inode(id);
        d.size
    }

    /// Reads entry `k` of the directory `dir`.
    fn read_entry<D: BlockDevice>(dir: &DiskInode, k: usize, fs: &mut EasyFileSystem<D>) -> (e:
        DirEntry)
        requires
            old(fs).valid(),
            dir@.wf(old(fs).disk()),
            k < dir.size / 32,
        ensures
            old(fs).stepped(final(fs)),
            final(fs).disk() == old(fs).disk(),
            e@ == entries_of(dir@.content(old(fs).disk()))[k as int],
    {
        let mut buf = [0u8; 32];
        let n = dir.read_at(DIRENT_SZ * k, &mut buf, &mut fs.cache);
        let e = DirEntry::from_bytes(&buf);
        proof {
            assert(e@ =~= entries_of(dir@.content(old(fs).disk()))[k as int]);
        }
        e
    }

    /// The position and the inode number of the first entry of `dir` that has
    /// the name `name`.
    fn find_inode_id<D: BlockDevice>(name: &[u8], dir: &DiskInode, fs: &mut EasyFileSystem<D>) -> (r:
        Option<(usize, u32)>)
        requires
            old(fs).valid(),
            dir@.wf(old(fs).disk()),
        ensures
            old(fs).stepped(final(fs)),
            final(fs).disk() == old(fs).disk(),
            match r {
                Some((k, id)) => first_match(
                    entries_of(dir@.content(old(fs).disk())),
                    name@,
                    k as int,
                ) && id == entry_inode(entries_of(dir@.content(old(fs).disk()))[k as int]),
                None => !has_name(entries_of(dir@.content(old(fs).disk())), name@),
            },
    {
        let ghost entries = entries_of(dir@.content(fs.disk()));
        let file_count = (dir.size as usize) / DIRENT_SZ;
        let mut k: usize = 0;
        while k < file_count
            invariant
                k <= file_count,
                file_count == dir.size / 32,
                entries == entries_of(dir@.content(old(fs).disk())),
                entries.len() == file_count,
                fs.valid(),
                fs.disk() == old(fs).disk(),
                old(fs).stepped(fs),
                dir@.wf(fs.disk()),
                forall|j: int| 0 <= j < k ==> entry_name(#[trigger] entries[j]) != name@,
            decreases file_count - k,
        {
            let e = Self::read_entry(dir, k, fs);
            if e.name_is(name) {
                return Some((k, e.inode_id()));
            }
            k += 1;
        }
        None
    }

    /// Looks `name` up in the directory and returns the handle of the inode
    /// that the first entry of that name is bound to; nothing where no entry
    /// has the name.
    pub fn find<D: BlockDevice>(&self, name: &str, fs: &mut EasyFileSystem<D>) -> (r: Option<Inode>)
        requires
            old(fs).cache.ready(),
            old(fs).layout.sound(old(fs).disk()),
            self.live(old(fs)),
            self.record(old(fs)).is_dir,
        ensures
            old(fs).stepped(final(fs)),
            final(fs).disk() == old(fs).disk(),
            r is Some <==> has_name(self.entries(old(fs)), name.spec_bytes()),
            match r {
                Some(h) => h.live(final(fs)) && exists|k: int|
                    first_match(self.entries(old(fs)), name.spec_bytes(), k) && h.id(final(fs))
                        == entry_inode(#[trigger] self.entries(old(fs))[k]),
                None => true,
            },
    {
        let id = self.inode_id(fs);
        let dir = fs.read_inode(id);
        proof {
            fs.layout.lemma_inode_wf(fs.disk(), id as int);
        }
        match Self::find_inode_id(name.as_bytes(), &dir, fs) {
            Some((k, inode_id)) => {
                proof {
                    assert(fs.layout.live(fs.disk(), fs.layout.target(fs.disk(), id as int, k as int)));
                    fs.layout.lemma_regions(fs.disk());
                    fs.layout.lemma_handle(fs.disk(), inode_id as int);
                }
                let (block_id, block_offset) = fs.get_disk_inode_pos(inode_id);
                let h = Inode::new(block_id, block_offset);
                proof {
                    assert(h == fs.layout.handle_of(inode_id as int));
                    assert(first_match(self.entries(old(fs)), name.spec_bytes(), k as int)
                        && h.id(fs) == entry_inode(self.entries(old(fs))[k as int]));
                }
                Some(h)
            },
            None => None,
        }
    }

    /// The number of entries of the inode, read as a directory, that are bound
    /// to the inode at block `block_id`, offset `block_offset`; zero where
    /// that is not the address of an inode record.
    pub fn get_link_num<D: BlockDevice>(
        &self,
        block_id: usize,
        block_offset: usize,
        fs: &mut EasyFileSystem<D>,
    ) -> (r: u32)
        requires
            old(fs).cache.ready(),
            old(fs).layout.consistent(old(fs).disk()),
            self.live(old(fs)),
        ensures
            old(fs).stepped(final(fs)),
            final(fs).disk() == old(fs).disk(),
            r == (if old(fs).layout.is_handle(Inode { block_id, block_offset }) {
                count_links(
                    self.entries(old(fs)),
                    old(fs).layout.id_of(Inode { block_id, block_offset }),
                    self.entries(old(fs)).len() as int,
                )
            } else {
                0
            }),
    {
        let address = Inode { block_id, block_offset };
        if !address.is_handle(fs) {
            return 0;
        }
        let want = address.inode_id(fs);
        let id = self.inode_id(fs);
        let dir = fs.read_inode(id);
        let ghost entries = self.entries(fs);
        proof {
            fs.layout.lemma_inode_wf(fs.disk(), id as int);
        }
        let file_count = (dir.size as usize) / DIRENT_SZ;
        let mut count: u32 = 0;
        let mut k: usize = 0;
        while k < file_count
            invariant
                k <= file_count,
                file_count == dir.size / 32,
                entries == entries_of(dir@.content(old(fs).disk())),
                entries == self.entries(old(fs)),
                entries.len() == file_count,
                fs.valid(),
                fs.disk() == old(fs).disk(),
                old(fs).stepped(fs),
                dir@.wf(fs.disk()),
                count == count_links(entries, want as int, k as int),
                count <= k,
            decreases file_count - k,
        {
            let e = Self::read_entry(&dir, k, fs);
            if e.inode_id() == want {
                count += 1;
            }
            k += 1;
        }
        count
    }

    /// Reads content from `offset` on into `buf`, as much as there is and as
    /// `buf` takes, and returns the number of bytes read. The rest of `buf`
    /// stays as it was.
    pub fn read_at<D: BlockDevice>(
        &self,
        offset: usize,
        buf: &mut [u8],
        fs: &mut EasyFileSystem<D>,
    ) -> (n: usize)
        requires
            old(fs).cache.ready(),
            old(fs).layout.consistent(old(fs).disk()),
            self.live(old(fs)),
        ensures
            old(fs).stepped(final(fs)),
            final(fs).disk() == old(fs).disk(),
            n == clip(self.content(old(fs)).len() as int, offset as int, old(buf)@.len() as int),
            final(buf)@.len() == old(buf)@.len(),
            forall|i: int| 0 <= i < n ==> final(buf)@[i] == self.content(old(fs))[offset + i],
            forall|i: int| n <= i < old(buf)@.len() ==> final(buf)@[i] == old(buf)@[i],
    {
        let id = self.inode_id(fs);
        let d = fs.read_inode(id);
        proof {
            fs.layout.lemma_inode_wf(fs.disk(), id as int);
        }
        d.read_at(offset, buf, &mut fs.cache)
    }

    /// Allocates `n` blocks of the data area.
    fn alloc_blocks<D: BlockDevice>(fs: &mut EasyFileSystem<D>, n: u32) -> (v: Vec<u32>)
        requires
            old(fs).cache.ready(),
            old(fs).layout.consistent(old(fs).disk()),
            old(fs).layout.free_blocks(old(fs).disk()) >= n,
        ensures
            old(fs).stepped(final(fs)),
            v@.len() == n,
            old(fs).layout.took(old(fs).disk(), final(fs).disk(), v@),
    {
        let ghost l = fs.layout;
        let ghost disk = fs.disk();
        let mut v: Vec<u32> = Vec::new();
        let mut k: u32 = 0;
        proof {
            l.lemma_regions(disk);
            assert(!l.live(disk, -1));
            assert(l.others_kept(disk, disk, -1));
        }
        while k < n
            invariant
                k <= n,
                v@.len() == k,
                l == old(fs).layout,
                disk == old(fs).disk(),
                old(fs).stepped(fs),
                fs.cache.ready(),
                l.consistent(disk),
                l.free_blocks(disk) >= n,
                l.took(disk, fs.disk(), v@),
            decreases n - k,
        {
            let ghost cur = fs.disk();
            let ghost had = v@;
            let r = fs.alloc_data();
            match r {
                Ok(b) => {
                    v.push(b);
                    proof {
                        l.lemma_took_more(disk, cur, had, b as int);
                    }
                },
                Err(_) => {
                    proof {
                        assert(false);
                    }
                },
            }
            k += 1;
        }
        v
    }

    /// Grows inode `id`, whose record is `d`, to `new_size` bytes: allocates
    /// the blocks that it takes, wires them in and writes the record.
    fn grow<D: BlockDevice>(fs: &mut EasyFileSystem<D>, id: u32, d: &mut DiskInode, new_size: u32)
        requires
            old(fs).cache.ready(),
            old(fs).layout.consistent(old(fs).disk()),
            old(fs).layout.live(old(fs).disk(), id as int),
            old(d)@ == old(fs).layout.inode(old(fs).disk(), id as int),
            old(d).size <= new_size <= MAX_FILE_SIZE,
            old(fs).layout.free_blocks(old(fs).disk()) >= blocks_for(new_size as int) - blocks_for(
                old(d).size as int,
            ),
        ensures
            old(fs).stepped(final(fs)),
            final(d)@ == final(fs).layout.inode(final(fs).disk(), id as int),
            old(fs).layout.grown(old(fs).disk(), final(fs).disk(), id as int, new_size),
            old(fs).layout.dirs_ok(old(fs).disk()) && !old(d)@.is_dir ==> old(fs).layout.dirs_ok(
                final(fs).disk(),
            ),
    {
        let ghost l = fs.layout;
        let ghost disk = fs.disk();
        let needed = d.blocks_num_needed(new_size);
        let blocks = Self::alloc_blocks(fs, needed);
        let ghost taken = fs.disk();
        let ghost fresh = blocks@;
        proof {
            assert(l.live(taken, id as int) == l.live(disk, id as int));
            assert(l.kept(disk, taken, id as int));
            l.lemma_inode_wf(taken, id as int);
            assert forall|i: int| 0 <= i < fresh.len() implies fresh[i] < taken.len() by {
                assert(l.used(taken, fresh[i] as int));
            }
        }
        d.increase_size(new_size, blocks, &mut fs.cache);
        let ghost mid = fs.disk();
        proof {
            l.lemma_took_then_grown(disk, taken, mid, id as int, d@, new_size, fresh);
        }
        fs.write_inode(id, d);
        proof {
            let later = fs.disk();
            if l.dirs_ok(disk) && !old(d)@.is_dir {
                l.lemma_dirs_kept(disk, later, id as int);
            }
        }
    }

    /// Why a write of `len` bytes at `offset` into inode `m` cannot be done,
    /// if it cannot: the write would reach beyond the largest size, or the
    /// data area has not the blocks that it takes.
    pub open spec fn write_error(
        l: &Layout,
        disk: Seq<Seq<u8>>,
        m: int,
        offset: int,
        len: int,
    ) -> Option<FsError> {
        if offset + len > MAX_FILE_SIZE {
            Some(FsError::FileTooLarge)
        } else if offset + len > l.inode(disk, m).size && l.free_blocks(disk) < blocks_for(
            offset + len,
        ) - l.slots(disk, m) {
            Some(FsError::NoSpace)
        } else {
            None
        }
    }

    /// Grows the inode as far as the write reaches, and writes.
    fn write_inner<D: BlockDevice>(&self, offset: usize, buf: &[u8], fs: &mut EasyFileSystem<D>) -> (r:
        Result<usize, FsError>)
        requires
            old(fs).cache.ready(),
            old(fs).layout.consistent(old(fs).disk()),
            self.live(old(fs)),
        ensures
            old(fs).stepped(final(fs)),
            match r {
                Ok(n) => n == buf@.len() && Self::write_error(
                    &old(fs).layout,
                    old(fs).disk(),
                    self.id(old(fs)),
                    offset as int,
                    buf@.len() as int,
                ) is None && old(fs).layout.written(
                    old(fs).disk(),
                    final(fs).disk(),
                    self.id(old(fs)),
                    offset as int,
                    buf@,
                ),
                Err(e) => Self::write_error(
                    &old(fs).layout,
                    old(fs).disk(),
                    self.id(old(fs)),
                    offset as int,
                    buf@.len() as int,
                ) == Some(e) && final(fs).disk() == old(fs).disk(),
            },
            old(fs).layout.dirs_ok(old(fs).disk()) && !self.record(old(fs)).is_dir
                ==> old(fs).layout.dirs_ok(final(fs).disk()),
    {
        let ghost l = fs.layout;
        let ghost disk = fs.disk();
        let id = self.inode_id(fs);
        let mut d = fs.read_inode(id);
        let len = buf.len();
        if offset > MAX_FILE_SIZE as usize || len > MAX_FILE_SIZE as usize - offset {
            return Err(FsError::FileTooLarge);
        }
        let end = (offset + len) as u32;
        if end > d.size {
            let needed = d.blocks_num_needed(end);
            if !fs.has_free_data(needed as usize) {
                return Err(FsError::NoSpace);
            }
            Self::grow(fs, id, &mut d, end);
        }
        let ghost mid = fs.disk();
        proof {
            assert(l.live(mid, id as int));
            l.lemma_inode_wf(mid, id as int);
        }
        let n = d.write_at(offset, buf, &mut fs.cache);
        proof {
            let later = fs.disk();
            assert(buf@.subrange(0, n as int) =~= buf@);
            l.lemma_grown_then_written(disk, mid, later, id as int, offset as int, buf@);
            if l.dirs_ok(disk) && !self.record(old(fs)).is_dir {
                assert(l.dirs_ok(mid));
                l.lemma_content_written(mid, later, id as int, offset as int, buf@);
                l.lemma_dirs_kept(mid, later, id as int);
            }
        }
        Ok(n)
    }

    /// Writes `buf` into the content from `offset` on, growing the inode
    /// first as far as the write reaches, and writes every changed block to
    /// the device. Returns the number of bytes written, which is the length
    /// of `buf`.
    ///
    /// The write is refused, and nothing changes, where it would reach beyond
    /// the largest size of an inode (`FileTooLarge`) or the data area has not
    /// the free blocks that it takes (`NoSpace`).
    pub fn write_at<D: BlockDevice>(&self, offset: usize, buf: &[u8], fs: &mut EasyFileSystem<D>) -> (r:
        Result<usize, FsError>)
        requires
            old(fs).cache.ready(),
            old(fs).layout.consistent(old(fs).disk()),
            self.live(old(fs)),
        ensures
            old(fs).stepped(final(fs)),
            match r {
                Ok(n) => n == buf@.len() && Self::write_error(
                    &old(fs).layout,
                    old(fs).disk(),
                    self.id(old(fs)),
                    offset as int,
                    buf@.len() as int,
                ) is None && old(fs).layout.written(
                    old(fs).disk(),
                    final(fs).disk(),
                    self.id(old(fs)),
                    offset as int,
                    buf@,
                ) && final(fs).cache.synced(),
                Err(e) => Self::write_error(
                    &old(fs).layout,
                    old(fs).disk(),
                    self.id(old(fs)),
                    offset as int,
                    buf@.len() as int,
                ) == Some(e) && final(fs).disk() == old(fs).disk(),
            },
            old(fs).layout.dirs_ok(old(fs).disk()) && !self.record(old(fs)).is_dir
                ==> old(fs).layout.dirs_ok(final(fs).disk()),
    {
        match self.write_inner(offset, buf, fs) {
            Ok(n) => {
                fs.sync_all();
                Ok(n)
            },
            Err(e) => Err(e),
        }
    }

    /// Why a file cannot be created in directory `m`, if it cannot: no inode
    /// is free, or the entry cannot be written.
    pub open spec fn create_error(l: &Layout, disk: Seq<Seq<u8>>, m: int) -> Option<FsError> {
        if l.inode_bitmap.full(disk) {
            Some(FsError::InodeExhausted)
        } else {
            Self::write_error(l, disk, m, l.tail(disk, m), 32)
        }
    }

    /// Whether a write of `len` bytes at `offset` can be done, and why not.
    fn check_write<D: BlockDevice>(&self, offset: usize, len: usize, fs: &mut EasyFileSystem<D>) -> (r:
        Option<FsError>)
        requires
            old(fs).cache.ready(),
            old(fs).layout.consistent(old(fs).disk()),
            self.live(old(fs)),
        ensures
            old(fs).stepped(final(fs)),
            final(fs).disk() == old(fs).disk(),
            r == Self::write_error(
                &old(fs).layout,
                old(fs).disk(),
                self.id(old(fs)),
                offset as int,
                len as int,
            ),
    {
        let id = self.inode_id(fs);
        let d = fs.read_inode(id);
        if offset > MAX_FILE_SIZE as usize || len > MAX_FILE_SIZE as usize - offset {
            return Some(FsError::FileTooLarge);
        }
        let end = (offset + len) as u32;
        if end > d.size {
            let needed = d.blocks_num_needed(end);
            if !fs.has_free_data(needed as usize) {
                return Some(FsError::NoSpace);
            }
        }
        None
    }

    /// Creates an empty file under the name `name` in the directory and
    /// returns its handle; returns nothing, and changes nothing, where the
    /// directory has an entry of that name already. Every changed block is
    /// written to the device.
    ///
    /// The file gets the free inode of lowest number. Nothing changes where
    /// no inode is free (`InodeExhausted`) or the directory cannot take one
    /// more entry (`FileTooLarge`, `NoSpace`).
    pub fn create<D: BlockDevice>(&self, name: &str, fs: &mut EasyFileSystem<D>) -> (r: Result<
        Option<Inode>,
        FsError,
    >)
        requires
            old(fs).cache.ready(),
            old(fs).layout.sound(old(fs).disk()),
            self.live(old(fs)),
            self.record(old(fs)).is_dir,
        ensures
            old(fs).stepped(final(fs)),
            match r {
                Ok(None) => has_name(self.entries(old(fs)), name.spec_bytes()) && final(fs).disk()
                    == old(fs).disk(),
                Ok(Some(h)) => {
                    &&& !has_name(self.entries(old(fs)), name.spec_bytes())
                    &&& Self::create_error(&old(fs).layout, old(fs).disk(), self.id(old(fs))) is None
                    &&& h.live(final(fs))
                    &&& old(fs).layout.created(
                        old(fs).disk(),
                        final(fs).disk(),
                        self.id(old(fs)),
                        name.spec_bytes(),
                        h.id(final(fs)),
                    )
                    &&& final(fs).cache.synced()
                },
                Err(e) => !has_name(self.entries(old(fs)), name.spec_bytes()) && Self::create_error(
                    &old(fs).layout,
                    old(fs).disk(),
                    self.id(old(fs)),
                ) == Some(e) && final(fs).disk() == old(fs).disk(),
            },
    {
        let ghost l = fs.layout;
        let ghost disk = fs.disk();
        let id = self.inode_id(fs);
        let dir = fs.read_inode(id);
        proof {
            l.lemma_inode_wf(disk, id as int);
            l.lemma_regions(disk);
        }
        if Self::find_inode_id(name.as_bytes(), &dir, fs).is_some() {
            return Ok(None);
        }
        let new_id = match fs.layout.inode_bitmap.first_free(&mut fs.cache) {
            Some(i) => i as u32,
            None => {
                proof {
                    l.inode_bitmap.lemma_lowest_free(disk);
                }
                return Err(FsError::InodeExhausted);
            },
        };
        proof {
            l.inode_bitmap.lemma_lowest_free(disk);
        }
        let offset = (dir.size as usize / DIRENT_SZ) * DIRENT_SZ;
        match self.check_write(offset, DIRENT_SZ, fs) {
            Some(e) => {
                return Err(e);
            },
            None => {},
        }
        let file = DiskInode::empty(DiskInodeType::File);
        let ghost v = Layout::empty_file();
        proof {
            assert(file@ == v);
            assert(l.inode_bitmap.is_lowest_free(disk, new_id as int));
            l.lemma_with_inode(disk, new_id as int, v);
            l.lemma_inode_created(disk, new_id as int, v);
            l.inode_bitmap.lemma_lowest_free_same(disk, l.with_inode(disk, new_id as int, v));
        }
        fs.write_inode(new_id, &file);
        let got = fs.alloc_inode();
        let ghost mid = fs.disk();
        proof {
            assert(got == Ok::<u32, FsError>(new_id));
            assert(mid == l.with_new_inode(disk, new_id as int, v));
            assert(l.live(mid, id as int) == l.live(disk, id as int));
            assert(l.kept(disk, mid, id as int));
        }
        let entry = DirEntry::new(name, new_id);
        let wrote = self.write_inner(offset, entry.as_bytes(), fs);
        proof {
            assert(wrote is Ok);
            l.lemma_created(disk, fs.disk(), id as int, name.spec_bytes(), new_id as int);
            l.lemma_handle(fs.disk(), new_id as int);
        }
        let (block_id, block_offset) = fs.get_disk_inode_pos(new_id);
        fs.sync_all();
        Ok(Some(Inode::new(block_id, block_offset)))
    }

    /// Binds the name `new_name` to the inode that `old_name` is bound to in
    /// the directory, by one more entry, and returns the inode's handle;
    /// returns nothing, and changes nothing, where no entry has the name
    /// `old_name`.
    ///
    /// Nothing changes where the directory cannot take one more entry
    /// (`FileTooLarge`, `NoSpace`).
    pub fn link<D: BlockDevice>(&self, old_name: &str, new_name: &str, fs: &mut EasyFileSystem<D>) -> (r:
        Result<Option<Inode>, FsError>)
        requires
            old(fs).cache.ready(),
            old(fs).layout.sound(old(fs).disk()),
            self.live(old(fs)),
            self.record(old(fs)).is_dir,
        ensures
            old(fs).stepped(final(fs)),
            match r {
                Ok(None) => !has_name(self.entries(old(fs)), old_name.spec_bytes())
                    && final(fs).disk() == old(fs).disk(),
                Ok(Some(h)) => {
                    &&& exists|k: int|
                        first_match(self.entries(old(fs)), old_name.spec_bytes(), k) && h.id(
                            final(fs),
                        ) == entry_inode(#[trigger] self.entries(old(fs))[k])
                    &&& h.live(final(fs))
                    &&& Self::write_error(
                        &old(fs).layout,
                        old(fs).disk(),
                        self.id(old(fs)),
                        old(fs).layout.tail(old(fs).disk(), self.id(old(fs))),
                        32,
                    ) is None
                    &&& old(fs).layout.appended(
                        old(fs).disk(),
                        final(fs).disk(),
                        self.id(old(fs)),
                        entry_bytes(new_name.spec_bytes(), h.id(final(fs)) as u32),
                    )
                    &&& old(fs).layout.sound(final(fs).disk())
                },
                Err(e) => has_name(self.entries(old(fs)), old_name.spec_bytes())
                    && Self::write_error(
                    &old(fs).layout,
                    old(fs).disk(),
                    self.id(old(fs)),
                    old(fs).layout.tail(old(fs).disk(), self.id(old(fs))),
                    32,
                ) == Some(e) && final(fs).disk() == old(fs).disk(),
            },
    {
        let ghost l = fs.layout;
        let ghost disk = fs.disk();
        let id = self.inode_id(fs);
        let dir = fs.read_inode(id);
        proof {
            l.lemma_inode_wf(disk, id as int);
            l.lemma_regions(disk);
        }
        let (k, target) = match Self::find_inode_id(old_name.as_bytes(), &dir, fs) {
            Some(found) => found,
            None => {
                return Ok(None);
            },
        };
        proof {
            assert(l.live(disk, l.target(disk, id as int, k as int)));
            l.lemma_handle(disk, target as int);
        }
        let (block_id, block_offset) = fs.get_disk_inode_pos(target);
        let offset = (dir.size as usize / DIRENT_SZ) * DIRENT_SZ;
        let entry = DirEntry::new(new_name, target);
        match self.write_inner(offset, entry.as_bytes(), fs) {
            Ok(_) => {
                let h = Inode::new(block_id, block_offset);
                proof {
                    let rec = entry_bytes(new_name.spec_bytes(), target);
                    lemma_entry_inode(new_name.spec_bytes(), target);
                    l.lemma_written_appends(disk, fs.disk(), id as int, rec);
                    l.lemma_linked(disk, fs.disk(), id as int, rec);
                    assert(h == l.handle_of(target as int));
                    assert(first_match(self.entries(old(fs)), old_name.spec_bytes(), k as int)
                        && h.id(fs) == entry_inode(self.entries(old(fs))[k as int]));
                }
                Ok(Some(h))
            },
            Err(e) => Err(e),
        }
    }

    /// Removes the first entry of the name `name` from the directory: the
    /// last entry is written over it and the directory is shortened by one
    /// entry. Returns 0, or -1 where no entry has the name; nothing has
    /// changed then. The inode that the entry was bound to is not touched.
    pub fn unlink<D: BlockDevice>(&self, name: &str, fs: &mut EasyFileSystem<D>) -> (r: isize)
        requires
            old(fs).cache.ready(),
            old(fs).layout.sound(old(fs).disk()),
            self.live(old(fs)),
            self.record(old(fs)).is_dir,
        ensures
            old(fs).stepped(final(fs)),
            r == 0 || r == -1,
            r == 0 <==> has_name(self.entries(old(fs)), name.spec_bytes()),
            r == -1 ==> final(fs).disk() == old(fs).disk(),
            r == 0 ==> exists|k: int|
                first_match(self.entries(old(fs)), name.spec_bytes(), k)
                    && #[trigger] old(fs).layout.removed(
                    old(fs).disk(),
                    final(fs).disk(),
                    self.id(old(fs)),
                    k,
                ),
    {
        let ghost l = fs.layout;
        let ghost disk = fs.disk();
        let id = self.inode_id(fs);
        let mut dir = fs.read_inode(id);
        proof {
            l.lemma_inode_wf(disk, id as int);
            l.lemma_regions(disk);
        }
        let k = match Self::find_inode_id(name.as_bytes(), &dir, fs) {
            Some((k, _)) => k,
            None => {
                return -1;
            },
        };
        let file_count = (dir.size as usize) / DIRENT_SZ;
        let last = Self::read_entry(&dir, file_count - 1, fs);
        let n = dir.write_at(DIRENT_SZ * k, last.as_bytes(), &mut fs.cache);
        let ghost mid = fs.disk();
        proof {
            assert(last@.subrange(0, n as int) =~= last@);
            assert(last@ == self.entries(old(fs)).last());
            l.lemma_content_written(disk, mid, id as int, 32 * k, last@);
            l.lemma_with_inode(mid, id as int, dir@);
        }
        dir.size = dir.size - DIRENT_SZ as u32;
        fs.write_inode(id, &dir);
        proof {
            l.lemma_entry_removed(disk, mid, id as int, k as int, dir@);
        }
        0
    }

    /// Frees the blocks `blocks`, which no inode has in use.
    fn release_blocks<D: BlockDevice>(fs: &mut EasyFileSystem<D>, blocks: &Vec<u32>)
        requires
            old(fs).cache.ready(),
            old(fs).layout.consistent(old(fs).disk()),
            old(fs).layout.spare(old(fs).disk(), blocks@),
        ensures
            old(fs).stepped(final(fs)),
            old(fs).layout.gave(old(fs).disk(), final(fs).disk(), blocks@),
    {
        let ghost l = fs.layout;
        let ghost disk = fs.disk();
        let ghost gone = blocks@;
        let n = blocks.len();
        let mut k: usize = 0;
        proof {
            assert(!l.live(disk, -1));
            assert(l.others_kept(disk, disk, -1));
        }
        while k < n
            invariant
                k <= n,
                n == gone.len(),
                gone == blocks@,
                l == old(fs).layout,
                disk == old(fs).disk(),
                old(fs).stepped(fs),
                fs.cache.ready(),
                l.consistent(disk),
                l.spare(disk, gone),
                l.gave(disk, fs.disk(), gone.subrange(0, k as int)),
                forall|j: int|
                    k <= j < n ==> l.used(fs.disk(), #[trigger] gone[j] as int) && l.unowned(
                        fs.disk(),
                        gone[j] as int,
                    ),
            decreases n - k,
        {
            let ghost cur = fs.disk();
            let ghost done = gone.subrange(0, k as int);
            let b = blocks[k];
            let r = fs.dealloc_data(b);
            proof {
                assert(r is Ok);
                assert(gone.subrange(0, k + 1) =~= done.push(b));
                l.lemma_gave_more(disk, cur, done, b as int);
                assert forall|j: int| k + 1 <= j < n implies l.used(
                    fs.disk(),
                    #[trigger] gone[j] as int,
                ) && l.unowned(fs.disk(), gone[j] as int) by {
                    assert(gone[k as int] != gone[j]);
                    l.lemma_data_bit(cur, b as int, false);
                    l.lemma_data_freed(cur, b as int);
                    l.lemma_unowned_kept(cur, fs.disk(), gone[j] as int);
                }
            }
            k += 1;
        }
        proof {
            assert(gone.subrange(0, n as int) =~= gone);
        }
    }

    /// Empties the inode and frees every block that it had in use, the
    /// indirect block among them. Every changed block is written to the
    /// device.
    pub fn clear<D: BlockDevice>(&self, fs: &mut EasyFileSystem<D>)
        requires
            old(fs).cache.ready(),
            old(fs).layout.consistent(old(fs).disk()),
            self.live(old(fs)),
        ensures
            old(fs).stepped(final(fs)),
            old(fs).layout.cleared(old(fs).disk(), final(fs).disk(), self.id(old(fs))),
            final(fs).cache.synced(),
    {
        let ghost l = fs.layout;
        let ghost disk = fs.disk();
        let id = self.inode_id(fs);
        let mut d = fs.read_inode(id);
        proof {
            l.lemma_inode_wf(disk, id as int);
            l.lemma_emptied(disk, id as int);
        }
        let blocks = d.clear_size(&mut fs.cache);
        proof {
            assert(d@ == Layout::empty_like(l.inode(disk, id as int)));
        }
        fs.write_inode(id, &d);
        Self::release_blocks(fs, &blocks);
        proof {
            l.lemma_cleared(disk, fs.disk(), id as int);
        }
        fs.sync_all();
    }

    /// The names of the entries of the directory, in the order of the
    /// entries. Fails with `BadName` where the name of an entry is not
    /// UTF-8.
    pub fn ls<D: BlockDevice>(&self, fs: &mut EasyFileSystem<D>) -> (r: Result<Vec<String>, FsError>)
        requires
            old(fs).cache.ready(),
            old(fs).layout.consistent(old(fs).disk()),
            self.live(old(fs)),
        ensures
            old(fs).stepped(final(fs)),
            final(fs).disk() == old(fs).disk(),
            match r {
                Ok(v) => {
                    &&& v@.len() == self.entries(old(fs)).len()
                    &&& forall|k: int|
                        0 <= k < v@.len() ==> valid_utf8(
                            entry_name(#[trigger] self.entries(old(fs))[k]),
                        )
                    &&& forall|k: int|
                        0 <= k < v@.len() ==> (#[trigger] v@[k])@ == decode_utf8(
                            entry_name(self.entries(old(fs))[k]),
                        )
                },
                Err(e) => e == FsError::BadName && exists|k: int|
                    0 <= k < self.entries(old(fs)).len() && !valid_utf8(
                        entry_name(#[trigger] self.entries(old(fs))[k]),
                    ),
            },
    {
        let id = self.inode_id(fs);
        let dir = fs.read_inode(id);
        let ghost entries = self.entries(fs);
        proof {
            fs.layout.lemma_inode_wf(fs.disk(), id as int);
        }
        let file_count = (dir.size as usize) / DIRENT_SZ;
        let mut v: Vec<String> = Vec::new();
        let mut k: usize = 0;
        while k < file_count
            invariant
                k <= file_count,
                file_count == dir.size / 32,
                entries == entries_of(dir@.content(old(fs).disk())),
                entries == self.entries(old(fs)),
                entries.len() == file_count,
                fs.valid(),
                fs.disk() == old(fs).disk(),
                old(fs).stepped(fs),
                dir@.wf(fs.disk()),
                v@.len() == k,
                forall|j: int| 0 <= j < k ==> valid_utf8(entry_name(#[trigger] entries[j])),
                forall|j: int|
                    0 <= j < k ==> (#[trigger] v@[j])@ == decode_utf8(entry_name(entries[j])),
            decreases file_count - k,
        {
            let e = Self::read_entry(&dir, k, fs);
            let ghost had = v@;
            match string_from_utf8(e.name()) {
                Some(s) => {
                    v.push(s);
                    proof {
                        assert forall|j: int| 0 <= j < k + 1 implies (#[trigger] v@[j])@
                            == decode_utf8(entry_name(entries[j])) by {
                            if j < k {
                                assert(v@[j] == had[j]);
                            }
                        }
                    }
                },
                None => {
                    return Err(FsError::BadName);
                },
            }
            k += 1;
        }
        Ok(v)
    }
}

} // verus!
