//! What a change of the disk leaves as it was.
//!
//! The operations on files and directories change a few blocks at a time.
//! The lemmas here say which inodes keep their record and their content
//! through such a change, and that the filesystem stays consistent.

use crate::codec::splice;
use crate::dir_entry::{entries_of, entry_inode};
use crate::efs::Layout;
use crate::layout::{
    data_blocks, lemma_content_kept, lemma_data_is_not_index, lemma_same_blocks, lemma_wrote,
    slot_of, InodeView, MAX_FILE_SIZE,
};
use vstd::prelude::*;

verus! {

impl Layout {
    /// The content of inode `i`.
    pub open spec fn content(&self, disk: Seq<Seq<u8>>, i: int) -> Seq<u8> {
        self.inode(disk, i).content(disk)
    }

    /// The entries of inode `i`, read as a directory.
    pub open spec fn entries(&self, disk: Seq<Seq<u8>>, i: int) -> Seq<Seq<u8>> {
        entries_of(self.content(disk, i))
    }

    /// The inode that entry `k` of inode `i` is bound to.
    pub open spec fn target(&self, disk: Seq<Seq<u8>>, i: int, k: int) -> int {
        entry_inode(self.entries(disk, i)[k]) as int
    }

    /// Inode 0 is an allocated directory, and every entry of every allocated
    /// directory is bound to an allocated inode.
    pub open spec fn dirs_ok(&self, disk: Seq<Seq<u8>>) -> bool {
        &&& self.live(disk, 0)
        &&& self.inode(disk, 0).is_dir
        &&& forall|i: int, k: int|
            self.live(disk, i) && self.inode(disk, i).is_dir && 0 <= k < self.entries(
                disk,
                i,
            ).len() ==> self.live(disk, #[trigger] self.target(disk, i, k))
    }

    /// The filesystem on `disk` is consistent and its directories are in
    /// order.
    pub open spec fn sound(&self, disk: Seq<Seq<u8>>) -> bool {
        self.consistent(disk) && self.dirs_ok(disk)
    }

    /// Inode `i` says the same and has the same content on `later` as on
    /// `disk`.
    pub open spec fn kept(&self, disk: Seq<Seq<u8>>, later: Seq<Seq<u8>>, i: int) -> bool {
        &&& self.inode(later, i) == self.inode(disk, i)
        &&& self.content(later, i) == self.content(disk, i)
    }

    /// The same inodes but `m` are allocated on `later` as on `disk`, and
    /// each of them is kept.
    pub open spec fn others_kept(&self, disk: Seq<Seq<u8>>, later: Seq<Seq<u8>>, m: int) -> bool {
        forall|i: int|
            #![trigger self.live(later, i)]
            #![trigger self.live(disk, i)]
            i != m ==> self.live(later, i) == self.live(disk, i) && (self.live(disk, i)
                ==> self.kept(disk, later, i))
    }

    /// Whether inode `m` has block `b` in use.
    pub open spec fn owns(&self, disk: Seq<Seq<u8>>, m: int, b: int) -> bool {
        exists|s: int| 0 <= s < self.slots(disk, m) && #[trigger] self.slot(disk, m, s) == b
    }

    /// Whether block `b` is one that a change of inode `m` may write: the
    /// block of its record, a block of the data bitmap, or a block that the
    /// inode has in use on `later`.
    pub open spec fn about(&self, later: Seq<Seq<u8>>, m: int, b: int) -> bool {
        b == self.inode_block(m) || self.data_bitmap.covers(b) || self.owns(later, m, b)
    }

    /// `later` is `disk` but for the record of inode `m`, the blocks that the
    /// inode has in use on `later`, and the data bitmap. The super block is
    /// none of these.
    pub open spec fn confined(&self, disk: Seq<Seq<u8>>, later: Seq<Seq<u8>>, m: int) -> bool {
        &&& later.len() == disk.len()
        &&& later[0] == disk[0]
        &&& forall|b: int|
            0 <= b < disk.len() && !self.about(later, m, b) ==> #[trigger] later[b] == disk[b]
        &&& forall|j: int|
            0 <= j < self.inode_count() && j != m ==> #[trigger] self.record(later, j)
                == self.record(disk, j)
    }

    /// `later` is `disk` but for the data bitmap.
    pub open spec fn bitmap_only(&self, disk: Seq<Seq<u8>>, later: Seq<Seq<u8>>) -> bool {
        &&& later.len() == disk.len()
        &&& forall|b: int|
            0 <= b < disk.len() && !self.data_bitmap.covers(b) ==> #[trigger] later[b] == disk[b]
    }

    /// The blocks `fresh` are blocks of the data area, allocated, distinct,
    /// and in use by no inode.
    pub open spec fn spare(&self, disk: Seq<Seq<u8>>, fresh: Seq<u32>) -> bool {
        &&& forall|k: int|
            0 <= k < fresh.len() ==> self.used(disk, #[trigger] fresh[k] as int) && self.unowned(
                disk,
                fresh[k] as int,
            )
        &&& forall|k: int, l: int| 0 <= k < l < fresh.len() ==> fresh[k] != fresh[l]
    }

    /// An inode whose record and whose blocks are the same on two disks is
    /// kept, and lists its blocks alike.
    pub proof fn lemma_untouched(&self, disk: Seq<Seq<u8>>, later: Seq<Seq<u8>>, i: int)
        requires
            self.record(later, i) == self.record(disk, i),
            forall|s: int|
                0 <= s < self.slots(disk, i) ==> later[#[trigger] self.slot(disk, i, s)]
                    == disk[self.slot(disk, i, s)],
        ensures
            self.kept(disk, later, i),
            forall|s: int|
                0 <= s < self.slots(disk, i) ==> #[trigger] self.slot(later, i, s) == self.slot(
                    disk,
                    i,
                    s,
                ),
    {
        let v = self.inode(disk, i);
        if v.slots() > 28 {
            assert(self.slot(disk, i, 28) == v.indirect1);
        }
        lemma_same_blocks(v, disk, later);
        assert forall|k: int| 0 <= k < data_blocks(v.size as int) implies later[#[trigger] v.block_at(
            disk,
            k,
        )] == disk[v.block_at(disk, k)] by {
            let s = slot_of(k);
            assert(v.block_at(disk, k) == self.slot(disk, i, s));
        }
        lemma_content_kept(v, disk, later);
    }

    /// A change that leaves the record and the blocks of an inode alone
    /// leaves every such inode as it was. Where that holds of every allocated
    /// inode but `m`, whose blocks all stay allocated, and inode `m`
    /// afterwards meets what consistency asks of it, the filesystem stays
    /// consistent.
    pub proof fn lemma_step(&self, disk: Seq<Seq<u8>>, later: Seq<Seq<u8>>, m: int)
        requires
            self.consistent(disk),
            self.wf(later),
            forall|i: int| i != m ==> self.live(later, i) == self.live(disk, i),
            forall|i: int|
                i != m && self.live(disk, i) ==> #[trigger] self.record(later, i) == self.record(
                    disk,
                    i,
                ),
            forall|i: int, s: int|
                i != m && self.live(disk, i) && 0 <= s < self.slots(disk, i) ==> later[#[trigger] self.slot(
                    disk,
                    i,
                    s,
                )] == disk[self.slot(disk, i, s)],
            forall|i: int, s: int|
                i != m && self.live(disk, i) && 0 <= s < self.slots(disk, i) ==> self.used(
                    later,
                    #[trigger] self.slot(disk, i, s),
                ),
            self.live(later, m) ==> {
                &&& self.inode(later, m).size <= MAX_FILE_SIZE
                &&& forall|s: int|
                    0 <= s < self.slots(later, m) ==> self.used(
                        later,
                        #[trigger] self.slot(later, m, s),
                    )
                &&& forall|s: int, t: int|
                    0 <= s < t < self.slots(later, m) ==> #[trigger] self.slot(later, m, s)
                        != #[trigger] self.slot(later, m, t)
                &&& forall|s: int, j: int, t: int|
                    0 <= s < self.slots(later, m) && j != m && self.live(disk, j) && 0 <= t
                        < self.slots(disk, j) ==> #[trigger] self.slot(later, m, s)
                        != #[trigger] self.slot(disk, j, t)
            },
        ensures
            self.consistent(later),
            self.others_kept(disk, later, m),
            forall|i: int, s: int|
                i != m && self.live(disk, i) && 0 <= s < self.slots(disk, i) ==> #[trigger] self.slot(
                    later,
                    i,
                    s,
                ) == self.slot(disk, i, s),
    {
        assert forall|i: int| i != m && self.live(disk, i) implies self.kept(disk, later, i) && (
        forall|s: int|
            0 <= s < self.slots(disk, i) ==> #[trigger] self.slot(later, i, s) == self.slot(
                disk,
                i,
                s,
            )) by {
            self.lemma_untouched(disk, later, i);
        }
        self.lemma_consistent_step(disk, later, m);
    }

    /// Where every inode but `m` is kept, inode `m` stays allocated and inode
    /// 0 a directory, and the entries of `m`, if it is a directory, are bound
    /// to allocated inodes, the directories stay in order.
    pub proof fn lemma_dirs_kept(&self, disk: Seq<Seq<u8>>, later: Seq<Seq<u8>>, m: int)
        requires
            self.dirs_ok(disk),
            self.others_kept(disk, later, m),
            self.live(disk, m) ==> self.live(later, m),
            m == 0 ==> self.inode(later, 0).is_dir,
            self.live(later, m) && self.inode(later, m).is_dir ==> forall|k: int|
                0 <= k < self.entries(later, m).len() ==> self.live(
                    later,
                    #[trigger] self.target(later, m, k),
                ),
        ensures
            self.dirs_ok(later),
    {
        assert forall|i: int, k: int|
            self.live(later, i) && self.inode(later, i).is_dir && 0 <= k < self.entries(
                later,
                i,
            ).len() implies self.live(later, #[trigger] self.target(later, i, k)) by {
            if i != m {
                assert(self.live(disk, i));
                assert(self.kept(disk, later, i));
                let t = self.target(disk, i, k);
                assert(self.live(disk, t));
                assert(self.target(later, i, k) == t);
                if t != m {
                    assert(self.live(later, t) == self.live(disk, t));
                }
            }
        }
        if m != 0 {
            assert(self.live(later, 0) == self.live(disk, 0));
            assert(self.kept(disk, later, 0));
        }
    }

    /// A block that no inode has in use stays so while every inode is kept.
    pub proof fn lemma_unowned_kept(&self, disk: Seq<Seq<u8>>, later: Seq<Seq<u8>>, b: int)
        requires
            self.unowned(disk, b),
            self.others_kept(disk, later, -1),
            forall|i: int, s: int|
                self.live(disk, i) && 0 <= s < self.slots(disk, i) ==> #[trigger] self.slot(
                    later,
                    i,
                    s,
                ) == self.slot(disk, i, s),
        ensures
            self.unowned(later, b),
    {
        assert forall|i: int, s: int|
            self.live(later, i) && 0 <= s < self.slots(later, i) implies #[trigger] self.slot(
            later,
            i,
            s,
        ) != b by {
            assert(self.live(disk, i));
            assert(self.kept(disk, later, i));
            assert(self.slot(later, i, s) == self.slot(disk, i, s));
        }
    }

    /// A change that touches no inode record, no inode's allocation and no
    /// block that an inode has in use, and leaves those blocks allocated,
    /// leaves every inode as it was.
    pub proof fn lemma_quiet(&self, disk: Seq<Seq<u8>>, later: Seq<Seq<u8>>)
        requires
            self.consistent(disk),
            self.wf(later),
            later.len() == disk.len(),
            forall|i: int| self.live(later, i) == self.live(disk, i),
            forall|i: int|
                0 <= i < self.inode_count() ==> #[trigger] self.record(later, i) == self.record(
                    disk,
                    i,
                ),
            forall|b: int| self.in_data_area(b) ==> #[trigger] later[b] == disk[b],
            forall|i: int, s: int|
                self.live(disk, i) && 0 <= s < self.slots(disk, i) ==> self.used(
                    later,
                    #[trigger] self.slot(disk, i, s),
                ),
        ensures
            self.consistent(later),
            self.others_kept(disk, later, -1),
            self.dirs_ok(disk) ==> self.dirs_ok(later),
            forall|i: int, s: int|
                self.live(disk, i) && 0 <= s < self.slots(disk, i) ==> #[trigger] self.slot(
                    later,
                    i,
                    s,
                ) == self.slot(disk, i, s),
    {
        reveal(Layout::tidy);
        self.lemma_regions(disk);
        assert forall|i: int, s: int|
            self.live(disk, i) && 0 <= s < self.slots(disk, i) implies later[#[trigger] self.slot(
            disk,
            i,
            s,
        )] == disk[self.slot(disk, i, s)] by {
            assert(self.used(disk, self.slot(disk, i, s)));
        }
        assert(!self.live(later, -1));
        self.lemma_step(disk, later, -1);
        if self.dirs_ok(disk) {
            self.lemma_dirs_kept(disk, later, -1);
        }
    }

    /// Allocating a free block of the data area leaves every inode as it
    /// was; the block is in use by none.
    pub proof fn lemma_data_allocated(&self, disk: Seq<Seq<u8>>, b: int)
        requires
            self.consistent(disk),
            self.in_data_area(b),
            !self.used(disk, b),
        ensures
            self.consistent(self.data_bitmap.with_bit(disk, b - self.data_area_start_block, true)),
            self.others_kept(
                disk,
                self.data_bitmap.with_bit(disk, b - self.data_area_start_block, true),
                -1,
            ),
            self.unowned(self.data_bitmap.with_bit(disk, b - self.data_area_start_block, true), b),
            self.dirs_ok(disk) ==> self.dirs_ok(
                self.data_bitmap.with_bit(disk, b - self.data_area_start_block, true),
            ),
            forall|i: int, s: int|
                self.live(disk, i) && 0 <= s < self.slots(disk, i) ==> #[trigger] self.slot(
                    self.data_bitmap.with_bit(disk, b - self.data_area_start_block, true),
                    i,
                    s,
                ) == self.slot(disk, i, s),
    {
        reveal(Layout::tidy);
        let later = self.data_bitmap.with_bit(disk, b - self.data_area_start_block, true);
        self.lemma_data_bit(disk, b, true);
        self.lemma_quiet(disk, later);
        self.lemma_free_is_unowned(disk, b);
        assert forall|i: int, s: int|
            self.live(later, i) && 0 <= s < self.slots(later, i) implies #[trigger] self.slot(
            later,
            i,
            s,
        ) != b by {
            assert(self.live(disk, i));
            assert(self.kept(disk, later, i));
            assert(self.slot(later, i, s) == self.slot(disk, i, s));
        }
    }

    /// Freeing an allocated block that no inode has in use leaves every inode
    /// as it was.
    pub proof fn lemma_data_freed(&self, disk: Seq<Seq<u8>>, b: int)
        requires
            self.consistent(disk),
            self.used(disk, b),
            self.unowned(disk, b),
        ensures
            self.consistent(self.data_bitmap.with_bit(disk, b - self.data_area_start_block, false)),
            self.others_kept(
                disk,
                self.data_bitmap.with_bit(disk, b - self.data_area_start_block, false),
                -1,
            ),
            self.dirs_ok(disk) ==> self.dirs_ok(
                self.data_bitmap.with_bit(disk, b - self.data_area_start_block, false),
            ),
            forall|i: int, s: int|
                self.live(disk, i) && 0 <= s < self.slots(disk, i) ==> #[trigger] self.slot(
                    self.data_bitmap.with_bit(disk, b - self.data_area_start_block, false),
                    i,
                    s,
                ) == self.slot(disk, i, s),
    {
        reveal(Layout::tidy);
        let later = self.data_bitmap.with_bit(disk, b - self.data_area_start_block, false);
        self.lemma_data_bit(disk, b, false);
        self.lemma_quiet(disk, later);
    }

    /// A write into the content of inode `m` changes that content as the
    /// write says and leaves every other inode as it was.
    pub proof fn lemma_content_written(
        &self,
        disk: Seq<Seq<u8>>,
        later: Seq<Seq<u8>>,
        m: int,
        offset: int,
        data: Seq<u8>,
    )
        requires
            self.consistent(disk),
            self.live(disk, m),
            self.inode(disk, m).wrote(disk, later, offset, data),
            0 <= offset,
            offset + data.len() <= self.inode(disk, m).size,
        ensures
            self.consistent(later),
            self.others_kept(disk, later, m),
            self.live(later, m),
            self.inode(later, m) == self.inode(disk, m),
            self.content(later, m) == splice(self.content(disk, m), offset, data),
            forall|b: int| self.used(later, b) == self.used(disk, b),
            self.free_blocks(later) == self.free_blocks(disk),
            forall|i: int| self.live(later, i) == self.live(disk, i),
    {
        reveal(Layout::tidy);
        let v = self.inode(disk, m);
        self.lemma_inode_wf(disk, m);
        self.lemma_regions(disk);
        lemma_wrote(v, disk, later, offset, data);
        lemma_data_is_not_index(v, disk);
        assert forall|b: int| 0 <= b < disk.len() && v.holds_data(disk, b) implies self.used(
            disk,
            b,
        ) && exists|s: int| 0 <= s < self.slots(disk, m) && self.slot(disk, m, s) == b by {
            let k = choose|k: int|
                0 <= k < data_blocks(v.size as int) && #[trigger] v.block_at(disk, k) == b;
            assert(self.slot(disk, m, slot_of(k)) == b);
            assert(self.used(disk, self.slot(disk, m, slot_of(k))));
        }
        assert forall|b: int| 0 <= b < self.data_area_start_block implies #[trigger] later[b]
            == disk[b] by {
            if v.holds_data(disk, b) {
                assert(self.used(disk, b));
            }
        }
        self.lemma_meta_same(disk, later);
        assert forall|i: int, s: int|
            i != m && self.live(disk, i) && 0 <= s < self.slots(disk, i) implies later[#[trigger] self.slot(
            disk,
            i,
            s,
        )] == disk[self.slot(disk, i, s)] by {
            let b = self.slot(disk, i, s);
            assert(self.used(disk, b));
            if v.holds_data(disk, b) {
                let t = choose|t: int| 0 <= t < self.slots(disk, m) && self.slot(disk, m, t) == b;
                assert(self.slot(disk, i, s) != self.slot(disk, m, t));
            }
        }
        assert(self.record(later, m) == self.record(disk, m));
        assert forall|s: int| 0 <= s < self.slots(later, m) implies #[trigger] self.slot(later, m, s)
            == self.slot(disk, m, s) by {
            assert(v.owned(later, s) == v.owned(disk, s));
        }
        assert forall|s: int| 0 <= s < self.slots(later, m) implies self.used(
            later,
            #[trigger] self.slot(later, m, s),
        ) by {
            assert(self.used(disk, self.slot(disk, m, s)));
        }
        assert forall|s: int, t: int| 0 <= s < t < self.slots(later, m) implies #[trigger] self.slot(
            later,
            m,
            s,
        ) != #[trigger] self.slot(later, m, t) by {
            assert(self.slot(disk, m, s) != self.slot(disk, m, t));
        }
        assert forall|s: int, j: int, t: int|
            0 <= s < self.slots(later, m) && j != m && self.live(disk, j) && 0 <= t < self.slots(
                disk,
                j,
            ) implies #[trigger] self.slot(later, m, s) != #[trigger] self.slot(disk, j, t) by {
            assert(self.slot(disk, m, s) != self.slot(disk, j, t));
        }
        self.lemma_step(disk, later, m);
    }

    /// A new record for inode `m` whose blocks are allocated, each in use
    /// once and by no other inode, leaves the filesystem consistent and every
    /// other inode as it was.
    pub proof fn lemma_record_written(&self, disk: Seq<Seq<u8>>, m: int, v: InodeView)
        requires
            self.consistent(disk),
            0 <= m < self.inode_count(),
            v.direct.len() == 28,
            v.size <= MAX_FILE_SIZE,
            forall|s: int| 0 <= s < v.slots() ==> self.used(disk, #[trigger] v.owned(disk, s)),
            forall|s: int, t: int|
                0 <= s < t < v.slots() ==> #[trigger] v.owned(disk, s) != #[trigger] v.owned(
                    disk,
                    t,
                ),
            forall|s: int, j: int, t: int|
                0 <= s < v.slots() && j != m && self.live(disk, j) && 0 <= t < self.slots(disk, j)
                    ==> #[trigger] v.owned(disk, s) != #[trigger] self.slot(disk, j, t),
        ensures
            self.consistent(self.with_inode(disk, m, v)),
            self.others_kept(disk, self.with_inode(disk, m, v), m),
            self.live(self.with_inode(disk, m, v), m) == self.live(disk, m),
            self.inode(self.with_inode(disk, m, v), m) == v,
            forall|s: int|
                0 <= s < v.slots() ==> #[trigger] self.slot(self.with_inode(disk, m, v), m, s)
                    == v.owned(disk, s),
            forall|b: int| self.in_data_area(b) ==> #[trigger] self.with_inode(disk, m, v)[b] == disk[b],
            forall|b: int| self.used(self.with_inode(disk, m, v), b) == self.used(disk, b),
            self.free_blocks(self.with_inode(disk, m, v)) == self.free_blocks(disk),
            self.content(self.with_inode(disk, m, v), m) == v.content(disk),
            forall|i: int, s: int|
                i != m && self.live(disk, i) && 0 <= s < self.slots(disk, i) ==> #[trigger] self.slot(
                    self.with_inode(disk, m, v),
                    i,
                    s,
                ) == self.slot(disk, i, s),
    {
        reveal(Layout::tidy);
        let later = self.with_inode(disk, m, v);
        self.lemma_regions(disk);
        self.lemma_with_inode(disk, m, v);
        assert(self.inode_area_start_block <= self.inode_block(m) < self.data_bitmap.start());
        assert forall|b: int| self.in_data_area(b) implies #[trigger] later[b] == disk[b] by {}
        if v.slots() > 28 {
            assert(self.used(disk, v.owned(disk, 28)));
        }
        lemma_same_blocks(v, disk, later);
        assert forall|s: int| 0 <= s < v.slots() implies #[trigger] self.slot(later, m, s)
            == v.owned(disk, s) by {
            assert(v.owned(later, s) == v.owned(disk, s));
        }
        assert forall|k: int| 0 <= k < data_blocks(v.size as int) implies later[#[trigger] v.block_at(
            disk,
            k,
        )] == disk[v.block_at(disk, k)] by {
            assert(self.used(disk, v.owned(disk, slot_of(k))));
        }
        lemma_content_kept(v, disk, later);
        assert forall|i: int, s: int|
            i != m && self.live(disk, i) && 0 <= s < self.slots(disk, i) implies later[#[trigger] self.slot(
            disk,
            i,
            s,
        )] == disk[self.slot(disk, i, s)] by {
            assert(self.used(disk, self.slot(disk, i, s)));
        }
        assert forall|s: int| 0 <= s < self.slots(later, m) implies self.used(
            later,
            #[trigger] self.slot(later, m, s),
        ) by {
            assert(self.used(disk, v.owned(disk, s)));
        }
        assert forall|s: int, t: int| 0 <= s < t < self.slots(later, m) implies #[trigger] self.slot(
            later,
            m,
            s,
        ) != #[trigger] self.slot(later, m, t) by {
            assert(v.owned(disk, s) != v.owned(disk, t));
        }
        assert forall|s: int, j: int, t: int|
            0 <= s < self.slots(later, m) && j != m && self.live(disk, j) && 0 <= t < self.slots(
                disk,
                j,
            ) implies #[trigger] self.slot(later, m, s) != #[trigger] self.slot(disk, j, t) by {
            assert(v.owned(disk, s) != self.slot(disk, j, t));
        }
        self.lemma_step(disk, later, m);
    }
}

} // verus!
