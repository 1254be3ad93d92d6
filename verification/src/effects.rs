//! What the operations on files and directories do to the disk.
//!
//! Each operation is a few steps: blocks are allocated or freed, an inode
//! record is written, content is written. The predicates here say what the
//! disk is after an operation, in terms of the disk before; the lemmas put
//! the steps together; and some say what follows for the next operation.

use crate::codec::u32_at;
use crate::dir_entry::{
    count_links, entry_bytes, entry_inode, lemma_appended, lemma_count_links_push,
    lemma_entry_inode, lemma_removed,
};
use crate::efs::Layout;
use crate::layout::{
    blocks_for, clip, data_blocks, encode_inode, lemma_data_is_not_index, lemma_wrote, slot_of,
    InodeView, MAX_FILE_SIZE,
};
use vstd::prelude::*;

verus! {

impl Layout {
    /// The block that the `k`-th of a row of allocations on `disk` yields: the
    /// free block of lowest index after the `k` allocations before it.
    pub open spec fn nth_free(&self, disk: Seq<Seq<u8>>, k: int) -> Option<int> {
        match self.data_bitmap.lowest_free(self.data_bitmap.after_allocs(disk, k as nat)) {
            Some(u) => Some(self.data_area_start_block + u),
            None => None,
        }
    }

    /// `later` is `disk` after the blocks `fresh` were allocated, one after
    /// the other, each the free block of lowest index at its time: nothing
    /// but the data bitmap has changed, and the filesystem is consistent.
    pub open spec fn took(&self, disk: Seq<Seq<u8>>, later: Seq<Seq<u8>>, fresh: Seq<u32>) -> bool {
        &&& later == self.data_bitmap.after_allocs(disk, fresh.len())
        &&& self.bitmap_only(disk, later)
        &&& self.consistent(later)
        &&& self.spare(later, fresh)
        &&& self.others_kept(disk, later, -1)
        &&& self.dirs_ok(disk) ==> self.dirs_ok(later)
        &&& self.free_blocks(later) == self.free_blocks(disk) - fresh.len()
        &&& forall|k: int| 0 <= k < fresh.len() ==> !self.used(disk, #[trigger] fresh[k] as int)
        &&& forall|k: int| 0 <= k < fresh.len() ==> self.nth_free(disk, k) == Some(#[trigger] fresh[k] as int)
        &&& forall|b: int|
            self.used(later, b) <==> self.used(disk, b) || exists|k: int|
                0 <= k < fresh.len() && #[trigger] fresh[k] == b
        &&& forall|b: int| self.in_data_area(b) ==> #[trigger] later[b] == disk[b]
        &&& forall|i: int, s: int|
            self.live(disk, i) && 0 <= s < self.slots(disk, i) ==> #[trigger] self.slot(
                later,
                i,
                s,
            ) == self.slot(disk, i, s)
    }

    /// One more allocation, of the free block `b` of lowest index, after the
    /// blocks `had` were allocated.
    pub proof fn lemma_took_more(&self, disk: Seq<Seq<u8>>, cur: Seq<Seq<u8>>, had: Seq<u32>, b: int)
        requires
            self.consistent(disk),
            self.took(disk, cur, had),
            self.in_data_area(b),
            !self.used(cur, b),
            self.data_bitmap.lowest_free(cur) == Some(b - self.data_area_start_block),
        ensures
            self.took(
                disk,
                self.data_bitmap.with_bit(cur, b - self.data_area_start_block, true),
                had.push(b as u32),
            ),
    {
        let next = self.data_bitmap.with_bit(cur, b - self.data_area_start_block, true);
        let got = had.push(b as u32);
        self.lemma_regions(disk);
        self.lemma_data_allocated(cur, b);
        self.lemma_data_bit(cur, b, true);
        self.data_bitmap.lemma_lowest_free(cur);
        assert(next == self.data_bitmap.after_alloc(cur));
        assert forall|j: int| 0 <= j < got.len() implies self.nth_free(disk, j) == Some(
            #[trigger] got[j] as int,
        ) by {
            if j < had.len() {
                assert(self.nth_free(disk, j) == Some(had[j] as int));
            }
        }
        assert forall|j: int| 0 <= j < got.len() implies self.used(next, #[trigger] got[j] as int)
            && self.unowned(next, got[j] as int) && !self.used(disk, got[j] as int) by {
            if j < had.len() {
                assert(self.used(cur, had[j] as int));
                self.lemma_unowned_kept(cur, next, had[j] as int);
            } else if self.used(disk, b) {
                assert(self.used(cur, b));
            }
        }
        assert forall|i: int, j: int| 0 <= i < j < got.len() implies got[i] != got[j] by {
            if j == had.len() {
                assert(self.used(cur, had[i] as int));
            }
        }
        assert forall|i: int|
            #![trigger self.live(next, i)]
            #![trigger self.live(disk, i)]
            i != -1 implies self.live(next, i) == self.live(disk, i) && (self.live(disk, i)
            ==> self.kept(disk, next, i)) by {
            assert(self.live(cur, i) == self.live(disk, i));
            if self.live(disk, i) {
                assert(self.kept(disk, cur, i));
                assert(self.kept(cur, next, i));
            }
        }
        assert forall|x: int|
            self.used(next, x) <==> self.used(disk, x) || exists|j: int|
                0 <= j < got.len() && #[trigger] got[j] == x by {
            if x == b {
                assert(got[had.len() as int] == x);
            } else {
                assert(self.used(next, x) == self.used(cur, x));
                if self.used(cur, x) && !self.used(disk, x) {
                    let j = choose|j: int| 0 <= j < had.len() && #[trigger] had[j] == x;
                    assert(got[j] == x);
                }
                if exists|j: int| 0 <= j < got.len() && #[trigger] got[j] == x {
                    let j = choose|j: int| 0 <= j < got.len() && #[trigger] got[j] == x;
                    assert(had[j] == x);
                }
            }
        }
        assert forall|i: int, s: int|
            self.live(disk, i) && 0 <= s < self.slots(disk, i) implies #[trigger] self.slot(
            next,
            i,
            s,
        ) == self.slot(disk, i, s) by {
            assert(self.live(cur, i));
            assert(self.kept(disk, cur, i));
            assert(self.slot(cur, i, s) == self.slot(disk, i, s));
            assert(self.slot(next, i, s) == self.slot(cur, i, s));
        }
    }

    /// Between `disk` and `later` the record of inode `m` is as it was or was
    /// written anew, the fields of the record that are not in use are as they
    /// were, and so are the entries of the indirect block but for those of
    /// the slots that came into use.
    pub open spec fn rewired(&self, disk: Seq<Seq<u8>>, later: Seq<Seq<u8>>, m: int) -> bool {
        &&& self.record(later, m) == self.record(disk, m) || self.record(later, m) == encode_inode(
            self.inode(later, m),
        )
        &&& forall|s: int|
            self.slots(later, m) <= s < 28 ==> #[trigger] self.inode(later, m).direct[s]
                == self.inode(disk, m).direct[s]
        &&& self.slots(later, m) <= 28 ==> self.inode(later, m).indirect1 == self.inode(
            disk,
            m,
        ).indirect1
        &&& self.slots(later, m) > 28 ==> forall|e: int|
            0 <= e < 128 && !(self.slots(disk, m) - 29 <= e < self.slots(later, m) - 29)
                ==> #[trigger] u32_at(later[self.inode(later, m).indirect1 as int], e * 4)
                == u32_at(disk[self.inode(later, m).indirect1 as int], e * 4)
    }

    /// Between `disk` and `later` inode `m` has kept the blocks that it had,
    /// in their slots, and may have taken blocks that were free, each the free
    /// block of lowest index at its time; every other inode is as it was, no
    /// inode was allocated or freed, no other block was allocated or freed,
    /// and the filesystem is consistent. Nothing was written but the record
    /// of `m`, its blocks and the data bitmap.
    pub open spec fn extended(&self, disk: Seq<Seq<u8>>, later: Seq<Seq<u8>>, m: int) -> bool {
        &&& self.consistent(later)
        &&& self.others_kept(disk, later, m)
        &&& forall|i: int| self.live(later, i) == self.live(disk, i)
        &&& self.inode(later, m).is_dir == self.inode(disk, m).is_dir
        &&& self.slots(disk, m) <= self.slots(later, m)
        &&& forall|s: int|
            0 <= s < self.slots(disk, m) ==> #[trigger] self.slot(later, m, s) == self.slot(
                disk,
                m,
                s,
            )
        &&& forall|s: int|
            self.slots(disk, m) <= s < self.slots(later, m) ==> !self.used(
                disk,
                #[trigger] self.slot(later, m, s),
            )
        &&& forall|s: int|
            self.slots(disk, m) <= s < self.slots(later, m) ==> self.nth_free(
                disk,
                s - self.slots(disk, m),
            ) == Some(#[trigger] self.slot(later, m, s))
        &&& forall|b: int|
            self.used(later, b) <==> self.used(disk, b) || exists|s: int|
                self.slots(disk, m) <= s < self.slots(later, m) && #[trigger] self.slot(later, m, s)
                    == b
        &&& self.free_blocks(later) == self.free_blocks(disk) - (self.slots(later, m) - self.slots(
            disk,
            m,
        ))
        &&& forall|b: int|
            self.in_data_area(b) && !self.owns(later, m, b) ==> #[trigger] later[b] == disk[b]
        &&& self.confined(disk, later, m)
        &&& self.rewired(disk, later, m)
        &&& forall|b: int|
            self.data_bitmap.covers(b) ==> #[trigger] later[b] == self.data_bitmap.after_allocs(
                disk,
                (self.slots(later, m) - self.slots(disk, m)) as nat,
            )[b]
    }

    /// `later` is `disk` after inode `m` was grown to `new_size` bytes with
    /// blocks that were free. No data block was written: the bytes of the
    /// content are the bytes that its blocks held before.
    pub open spec fn grown(&self, disk: Seq<Seq<u8>>, later: Seq<Seq<u8>>, m: int, new_size: u32) -> bool {
        &&& self.extended(disk, later, m)
        &&& self.inode(later, m).size == new_size
        &&& forall|i: int|
            0 <= i < new_size ==> #[trigger] self.inode(later, m).byte_at(later, i)
                == disk[self.inode(later, m).block_at(later, i / 512)][i % 512]
        &&& forall|i: int|
            0 <= i < self.inode(disk, m).size ==> #[trigger] self.inode(later, m).byte_at(later, i)
                == self.content(disk, m)[i]
        &&& forall|k: int|
            0 <= k < data_blocks(new_size as int) ==> later[#[trigger] self.inode(
                later,
                m,
            ).block_at(later, k)] == disk[self.inode(later, m).block_at(later, k)]
    }

    /// Growing inode `m` with spare blocks, and writing its new record,
    /// leaves the filesystem consistent and every other inode as it was. The
    /// inode keeps the blocks it had, in their slots, and has the spare
    /// blocks in the slots that came into use. No data block was written: the
    /// bytes of the content are the bytes that its blocks held before.
    pub proof fn lemma_grown(
        &self,
        disk: Seq<Seq<u8>>,
        mid: Seq<Seq<u8>>,
        m: int,
        v: InodeView,
        new_size: u32,
        fresh: Seq<u32>,
    )
        requires
            self.consistent(disk),
            self.live(disk, m),
            self.inode(disk, m).grew(v, disk, mid, new_size, fresh),
            self.inode(disk, m).size <= new_size <= MAX_FILE_SIZE,
            fresh.len() == blocks_for(new_size as int) - self.slots(disk, m),
            self.spare(disk, fresh),
        ensures
            self.consistent(self.with_inode(mid, m, v)),
            self.others_kept(disk, self.with_inode(mid, m, v), m),
            self.live(self.with_inode(mid, m, v), m),
            self.inode(self.with_inode(mid, m, v), m) == v,
            forall|i: int| self.live(self.with_inode(mid, m, v), i) == self.live(disk, i),
            forall|b: int| self.used(self.with_inode(mid, m, v), b) == self.used(disk, b),
            self.free_blocks(self.with_inode(mid, m, v)) == self.free_blocks(disk),
            forall|s: int|
                0 <= s < self.slots(disk, m) ==> #[trigger] self.slot(
                    self.with_inode(mid, m, v),
                    m,
                    s,
                ) == self.slot(disk, m, s),
            forall|s: int|
                self.slots(disk, m) <= s < v.slots() ==> #[trigger] self.slot(
                    self.with_inode(mid, m, v),
                    m,
                    s,
                ) == fresh[s - self.slots(disk, m)],
            forall|i: int|
                0 <= i < new_size ==> #[trigger] v.byte_at(self.with_inode(mid, m, v), i)
                    == disk[v.block_at(self.with_inode(mid, m, v), i / 512)][i % 512],
            forall|i: int|
                0 <= i < self.inode(disk, m).size ==> #[trigger] v.byte_at(
                    self.with_inode(mid, m, v),
                    i,
                ) == self.content(disk, m)[i],
            self.confined(disk, self.with_inode(mid, m, v), m),
            self.rewired(disk, self.with_inode(mid, m, v), m),
            forall|b: int|
                self.data_bitmap.covers(b) ==> #[trigger] self.with_inode(mid, m, v)[b] == disk[b],
            forall|k: int|
                0 <= k < data_blocks(new_size as int) ==> self.with_inode(
                    mid,
                    m,
                    v,
                )[#[trigger] v.block_at(self.with_inode(mid, m, v), k)] == disk[v.block_at(
                    self.with_inode(mid, m, v),
                    k,
                )],
    {
        reveal(Layout::tidy);
        let old_v = self.inode(disk, m);
        let later = self.with_inode(mid, m, v);
        let first = old_v.slots();
        self.lemma_regions(disk);
        self.lemma_inode_wf(disk, m);
        lemma_data_is_not_index(old_v, disk);
        let x = v.indirect1 as int;
        // The one block that growing may have written is in the data area and
        // in use by no other inode.
        if mid != disk {
            assert(v.slots() > 29);
            assert(v.owned(mid, 28) == x);
            if first > 28 {
                assert(v.owned(mid, 28) == old_v.owned(disk, 28));
                assert(self.used(disk, self.slot(disk, m, 28)));
            } else {
                assert(v.owned(mid, 28) == fresh[28 - first]);
                assert(self.used(disk, fresh[28 - first] as int));
            }
            assert(self.in_data_area(x));
        }
        assert forall|b: int| 0 <= b < self.data_area_start_block implies #[trigger] mid[b]
            == disk[b] by {}
        self.lemma_meta_same(disk, mid);
        // The slots of `v` on the disk as it is after growing.
        assert forall|s: int| 0 <= s < v.slots() implies #[trigger] v.owned(mid, s) == (if s
            < first {
            self.slot(disk, m, s)
        } else {
            fresh[s - first] as int
        }) by {}
        assert forall|i: int, s: int|
            i != m && self.live(disk, i) && 0 <= s < self.slots(disk, i) implies mid[#[trigger] self.slot(
            disk,
            i,
            s,
        )] == disk[self.slot(disk, i, s)] by {
            let b = self.slot(disk, i, s);
            if mid != disk && b == x {
                if first > 28 {
                    assert(self.slot(disk, i, s) != self.slot(disk, m, 28));
                } else {
                    assert(self.unowned(disk, fresh[28 - first] as int));
                }
            }
        }
        assert forall|s: int| 0 <= s < self.slots(mid, m) implies #[trigger] self.slot(mid, m, s)
            == self.slot(disk, m, s) by {
            if s > 28 {
                assert(v.owned(mid, 28) == old_v.owned(disk, 28));
                assert(v.owned(mid, s) == old_v.owned(disk, s));
            }
        }
        assert forall|s: int| 0 <= s < self.slots(mid, m) implies self.used(
            mid,
            #[trigger] self.slot(mid, m, s),
        ) by {
            assert(self.used(disk, self.slot(disk, m, s)));
        }
        assert forall|s: int, t: int| 0 <= s < t < self.slots(mid, m) implies #[trigger] self.slot(
            mid,
            m,
            s,
        ) != #[trigger] self.slot(mid, m, t) by {
            assert(self.slot(disk, m, s) != self.slot(disk, m, t));
        }
        assert forall|s: int, j: int, t: int|
            0 <= s < self.slots(mid, m) && j != m && self.live(disk, j) && 0 <= t < self.slots(
                disk,
                j,
            ) implies #[trigger] self.slot(mid, m, s) != #[trigger] self.slot(disk, j, t) by {
            assert(self.slot(disk, m, s) != self.slot(disk, j, t));
        }
        self.lemma_step(disk, mid, m);
        // Now the record.
        assert forall|s: int| 0 <= s < v.slots() implies self.used(
            mid,
            #[trigger] v.owned(mid, s),
        ) by {
            if s < first {
                assert(self.used(disk, self.slot(disk, m, s)));
            } else {
                assert(self.used(disk, fresh[s - first] as int));
            }
        }
        assert forall|s: int, t: int| 0 <= s < t < v.slots() implies #[trigger] v.owned(mid, s)
            != #[trigger] v.owned(mid, t) by {
            if t < first {
                assert(self.slot(disk, m, s) != self.slot(disk, m, t));
            } else if s < first {
                assert(self.unowned(disk, fresh[t - first] as int));
            } else {
                assert(fresh[s - first] != fresh[t - first]);
            }
        }
        assert forall|s: int, j: int, t: int|
            0 <= s < v.slots() && j != m && self.live(mid, j) && 0 <= t < self.slots(
                mid,
                j,
            ) implies #[trigger] v.owned(mid, s) != #[trigger] self.slot(mid, j, t) by {
            assert(self.live(disk, j));
            assert(self.kept(disk, mid, j));
            assert(self.slot(mid, j, t) == self.slot(disk, j, t));
            if s < first {
                assert(self.slot(disk, m, s) != self.slot(disk, j, t));
            } else {
                assert(self.unowned(disk, fresh[s - first] as int));
            }
        }
        self.lemma_record_written(mid, m, v);
        assert forall|i: int| i != m && self.live(disk, i) implies self.kept(disk, later, i) by {
            assert(self.kept(disk, mid, i));
            assert(self.live(mid, i));
            assert(self.kept(mid, later, i));
        }
        assert forall|s: int| 0 <= s < v.slots() implies #[trigger] self.slot(later, m, s) == (if s
            < first {
            self.slot(disk, m, s)
        } else {
            fresh[s - first] as int
        }) by {
            assert(self.slot(later, m, s) == v.owned(mid, s));
        }
        assert forall|i: int| 0 <= i < new_size implies #[trigger] v.byte_at(later, i)
            == disk[v.block_at(later, i / 512)][i % 512] by {
            let s = slot_of(i / 512);
            let b = v.block_at(later, i / 512);
            assert(0 <= s < v.slots() && s != 28);
            assert(b == self.slot(later, m, s));
            assert(later[b] == mid[b]) by {
                assert(self.used(mid, v.owned(mid, s)));
            }
            if mid != disk {
                assert(v.owned(mid, 28) == x);
                if s < 28 {
                    assert(v.owned(mid, s) != v.owned(mid, 28));
                } else {
                    assert(v.owned(mid, 28) != v.owned(mid, s));
                }
            }
        }
        assert forall|i: int| 0 <= i < old_v.size implies #[trigger] v.byte_at(later, i)
            == self.content(disk, m)[i] by {
            let s = slot_of(i / 512);
            assert(0 <= s < first);
            assert(self.slot(later, m, s) == self.slot(disk, m, s));
            assert(old_v.byte_at(disk, i) == disk[old_v.block_at(disk, i / 512)][i % 512]);
        }
        self.lemma_with_inode(mid, m, v);
        assert(self.inode_area_start_block <= self.inode_block(m) < self.data_bitmap.start());
        if mid != disk {
            assert(self.slot(later, m, 28) == x);
            assert(self.owns(later, m, x));
        }
        assert forall|b: int| 0 <= b < disk.len() && !self.about(later, m, b) implies #[trigger] later[b]
            == disk[b] by {
            assert(later[b] == mid[b]);
        }
        assert forall|j: int| 0 <= j < self.inode_count() && j != m implies #[trigger] self.record(
            later,
            j,
        ) == self.record(disk, j) by {
            assert(self.record(later, j) == self.record(mid, j));
            assert(self.record(mid, j) == self.record(disk, j));
        }
        assert forall|b: int| self.data_bitmap.covers(b) implies #[trigger] later[b] == disk[b] by {
            assert(later[b] == mid[b]);
        }
        assert forall|k: int| 0 <= k < data_blocks(new_size as int) implies later[#[trigger] v.block_at(
            later,
            k,
        )] == disk[v.block_at(later, k)] by {
            let i = k * 512;
            assert(i / 512 == k && 0 <= i < new_size);
            let s = slot_of(k);
            let b = v.block_at(later, k);
            assert(0 <= s < v.slots() && s != 28);
            assert(b == self.slot(later, m, s));
            assert(self.used(mid, v.owned(mid, s)));
            assert(later[b] == mid[b]);
            if mid != disk {
                assert(v.owned(mid, 28) == x);
                if s < 28 {
                    assert(v.owned(mid, s) != v.owned(mid, 28));
                } else {
                    assert(v.owned(mid, 28) != v.owned(mid, s));
                }
            }
        }
        if v.slots() > 28 {
            assert(self.slot(later, m, 28) == x);
            assert(self.used(later, self.slot(later, m, 28)));
            assert(later[x] == mid[x]);
        }
    }

    /// Allocating blocks and then growing inode `m` with them.
    pub proof fn lemma_took_then_grown(
        &self,
        disk: Seq<Seq<u8>>,
        taken: Seq<Seq<u8>>,
        mid: Seq<Seq<u8>>,
        m: int,
        v: InodeView,
        new_size: u32,
        fresh: Seq<u32>,
    )
        requires
            self.consistent(disk),
            self.live(disk, m),
            self.took(disk, taken, fresh),
            self.inode(taken, m).grew(v, taken, mid, new_size, fresh),
            self.inode(disk, m).size <= new_size <= MAX_FILE_SIZE,
            fresh.len() == blocks_for(new_size as int) - self.slots(disk, m),
        ensures
            self.grown(disk, self.with_inode(mid, m, v), m, new_size),
            self.inode(self.with_inode(mid, m, v), m) == v,
    {
        reveal(Layout::tidy);
        let later = self.with_inode(mid, m, v);
        assert(self.live(taken, m) == self.live(disk, m));
        assert(self.kept(disk, taken, m));
        self.lemma_grown(taken, mid, m, v, new_size, fresh);
        assert forall|i: int| i != m && self.live(disk, i) implies self.kept(disk, later, i) by {
            assert(self.live(taken, i) == self.live(disk, i));
            assert(self.kept(disk, taken, i));
            assert(self.kept(taken, later, i));
        }
        assert forall|i: int| self.live(later, i) == self.live(disk, i) by {
            assert(self.live(taken, i) == self.live(disk, i));
        }
        let first = self.slots(disk, m);
        assert forall|s: int| 0 <= s < first implies #[trigger] self.slot(later, m, s)
            == self.slot(disk, m, s) by {
            assert(self.slot(later, m, s) == self.slot(taken, m, s));
        }
        assert forall|s: int| first <= s < self.slots(later, m) implies !self.used(
            disk,
            #[trigger] self.slot(later, m, s),
        ) by {
            assert(self.slot(later, m, s) == fresh[s - first]);
        }
        assert forall|s: int| first <= s < self.slots(later, m) implies self.nth_free(
            disk,
            s - first,
        ) == Some(#[trigger] self.slot(later, m, s)) by {
            assert(self.slot(later, m, s) == fresh[s - first]);
        }
        assert forall|b: int| self.in_data_area(b) && !self.owns(later, m, b) implies #[trigger] later[b]
            == disk[b] by {
            assert(taken[b] == disk[b]);
            assert(later[b] == mid[b]) by {
                self.lemma_regions(disk);
                self.lemma_with_inode(mid, m, v);
            }
            if mid[b] != taken[b] {
                assert(b == v.indirect1);
                assert(v.slots() > 29);
                assert(self.slot(later, m, 28) == b);
            }
        }
        assert forall|b: int|
            self.used(later, b) <==> self.used(disk, b) || exists|s: int|
                first <= s < self.slots(later, m) && #[trigger] self.slot(later, m, s) == b by {
            assert(self.used(later, b) == self.used(taken, b));
            if self.used(taken, b) && !self.used(disk, b) {
                let k = choose|k: int| 0 <= k < fresh.len() && #[trigger] fresh[k] == b;
                assert(self.slot(later, m, first + k) == fresh[k]);
            }
            if exists|s: int|
                first <= s < self.slots(later, m) && #[trigger] self.slot(later, m, s) == b {
                let s = choose|s: int|
                    first <= s < self.slots(later, m) && #[trigger] self.slot(later, m, s) == b;
                assert(fresh[s - first] == b);
            }
        }
        assert forall|i: int| 0 <= i < new_size implies #[trigger] self.inode(later, m).byte_at(
            later,
            i,
        ) == disk[self.inode(later, m).block_at(later, i / 512)][i % 512] by {
            let b = v.block_at(later, i / 512);
            let s = slot_of(i / 512);
            assert(b == self.slot(later, m, s));
            assert(self.used(later, self.slot(later, m, s)));
            assert(v.byte_at(later, i) == taken[b][i % 512]);
        }
        assert forall|i: int| 0 <= i < self.inode(disk, m).size implies #[trigger] self.inode(
            later,
            m,
        ).byte_at(later, i) == self.content(disk, m)[i] by {
            assert(v.byte_at(later, i) == self.content(taken, m)[i]);
        }
        self.lemma_regions(disk);
        assert forall|b: int| 0 <= b < disk.len() && !self.about(later, m, b) implies #[trigger] later[b]
            == disk[b] by {
            assert(later[b] == taken[b]);
        }
        assert forall|j: int| 0 <= j < self.inode_count() && j != m implies #[trigger] self.record(
            later,
            j,
        ) == self.record(disk, j) by {
            assert(self.record(later, j) == self.record(taken, j));
            assert(taken[self.inode_block(j)] == disk[self.inode_block(j)]);
        }
        assert forall|b: int| self.data_bitmap.covers(b) implies #[trigger] later[b]
            == self.data_bitmap.after_allocs(
            disk,
            (self.slots(later, m) - self.slots(disk, m)) as nat,
        )[b] by {
            assert(later[b] == taken[b]);
        }
        assert(self.inode_area_start_block <= self.inode_block(m) < self.data_bitmap.start());
        assert(taken[self.inode_block(m)] == disk[self.inode_block(m)]);
        assert(self.record(taken, m) == self.record(disk, m));
        if v.slots() > 28 {
            let x = v.indirect1 as int;
            assert(self.slot(later, m, 28) == x);
            assert(self.used(later, self.slot(later, m, 28))) by {
                reveal(Layout::tidy);
            }
            assert(taken[x] == disk[x]);
        }
        assert forall|k: int| 0 <= k < data_blocks(new_size as int) implies later[#[trigger] v.block_at(
            later,
            k,
        )] == disk[v.block_at(later, k)] by {
            let b = v.block_at(later, k);
            assert(b == self.slot(later, m, slot_of(k)));
            assert(self.used(later, self.slot(later, m, slot_of(k)))) by {
                reveal(Layout::tidy);
            }
            assert(taken[b] == disk[b]);
        }
    }

    /// `later` is `disk` after `data` was written into the content of inode
    /// `m` from `offset` on, the inode grown before as far as the write
    /// reaches. A byte of the content that was not written is the byte that
    /// its block held before.
    pub open spec fn written(
        &self,
        disk: Seq<Seq<u8>>,
        later: Seq<Seq<u8>>,
        m: int,
        offset: int,
        data: Seq<u8>,
    ) -> bool {
        &&& self.extended(disk, later, m)
        &&& self.inode(later, m).size == (if offset + data.len() > self.inode(disk, m).size {
            offset + data.len()
        } else {
            self.inode(disk, m).size as int
        })
        &&& self.content(later, m).len() == self.inode(later, m).size
        &&& forall|i: int|
            0 <= i < self.inode(later, m).size ==> #[trigger] self.content(later, m)[i] == (
            if offset <= i < offset + data.len() {
                data[i - offset]
            } else {
                disk[self.inode(later, m).block_at(later, i / 512)][i % 512]
            })
        &&& forall|i: int|
            0 <= i < self.inode(disk, m).size && !(offset <= i < offset + data.len())
                ==> #[trigger] self.content(later, m)[i] == self.content(disk, m)[i]
        &&& forall|k: int|
            #![trigger self.inode(later, m).block_at(later, k)]
            0 <= k < data_blocks(self.inode(later, m).size as int) ==> later[self.inode(
                later,
                m,
            ).block_at(later, k)] == Seq::new(
                512,
                |j: int|
                    if offset <= k * 512 + j < offset + data.len() {
                        data[k * 512 + j - offset]
                    } else {
                        disk[self.inode(later, m).block_at(later, k)][j]
                    },
            )
    }

    /// Growing inode `m` and then writing into its content.
    pub proof fn lemma_grown_then_written(
        &self,
        disk: Seq<Seq<u8>>,
        mid: Seq<Seq<u8>>,
        later: Seq<Seq<u8>>,
        m: int,
        offset: int,
        data: Seq<u8>,
    )
        requires
            self.consistent(disk),
            self.live(disk, m),
            mid == disk || self.grown(disk, mid, m, (offset + data.len()) as u32),
            mid == disk ==> offset + data.len() <= self.inode(disk, m).size,
            mid != disk ==> self.inode(disk, m).size <= offset + data.len() <= MAX_FILE_SIZE,
            0 <= offset,
            self.inode(mid, m).wrote(mid, later, offset, data),
        ensures
            self.written(disk, later, m, offset, data),
            self.inode(later, m) == self.inode(mid, m),
    {
        let v = self.inode(mid, m);
        if mid == disk {
            assert(!self.live(disk, -1));
            assert(self.extended(disk, disk, m)) by {
                assert(self.others_kept(disk, disk, m));
            }
            assert forall|i: int| 0 <= i < v.size implies #[trigger] v.byte_at(mid, i)
                == disk[v.block_at(mid, i / 512)][i % 512] by {}
        }
        assert(self.extended(disk, mid, m));
        assert(self.live(mid, m));
        self.lemma_content_written(mid, later, m, offset, data);
        self.lemma_inode_wf(mid, m);
        lemma_wrote(v, mid, later, offset, data);
        assert forall|i: int| i != m && self.live(disk, i) implies self.kept(disk, later, i) by {
            assert(self.live(mid, i) == self.live(disk, i));
            assert(self.kept(disk, mid, i));
            assert(self.kept(mid, later, i));
        }
        assert forall|s: int| 0 <= s < self.slots(later, m) implies #[trigger] self.slot(later, m, s)
            == self.slot(mid, m, s) by {
            assert(v.owned(later, s) == v.owned(mid, s));
        }
        assert forall|b: int|
            self.used(later, b) <==> self.used(disk, b) || exists|s: int|
                self.slots(disk, m) <= s < self.slots(later, m) && #[trigger] self.slot(later, m, s)
                    == b by {
            assert(self.used(later, b) == self.used(mid, b));
            if exists|s: int|
                self.slots(disk, m) <= s < self.slots(mid, m) && #[trigger] self.slot(mid, m, s)
                    == b {
                let s = choose|s: int|
                    self.slots(disk, m) <= s < self.slots(mid, m) && #[trigger] self.slot(mid, m, s)
                        == b;
                assert(self.slot(later, m, s) == b);
            }
            if exists|s: int|
                self.slots(disk, m) <= s < self.slots(later, m) && #[trigger] self.slot(later, m, s)
                    == b {
                let s = choose|s: int|
                    self.slots(disk, m) <= s < self.slots(later, m) && #[trigger] self.slot(
                        later,
                        m,
                        s,
                    ) == b;
                assert(self.slot(mid, m, s) == b);
            }
        }
        assert forall|s: int| self.slots(disk, m) <= s < self.slots(later, m) implies !self.used(
            disk,
            #[trigger] self.slot(later, m, s),
        ) by {
            assert(self.slot(later, m, s) == self.slot(mid, m, s));
        }
        assert forall|s: int| self.slots(disk, m) <= s < self.slots(later, m) implies self.nth_free(
            disk,
            s - self.slots(disk, m),
        ) == Some(#[trigger] self.slot(later, m, s)) by {
            assert(self.slot(later, m, s) == self.slot(mid, m, s));
        }
        assert forall|b: int| self.in_data_area(b) && !self.owns(later, m, b) implies #[trigger] later[b]
            == disk[b] by {
            if v.holds_data(mid, b) {
                let k = choose|k: int|
                    0 <= k < data_blocks(v.size as int) && #[trigger] v.block_at(mid, k) == b;
                assert(self.slot(later, m, slot_of(k)) == self.slot(mid, m, slot_of(k)));
                assert(self.slot(mid, m, slot_of(k)) == b);
            }
            assert(later[b] == mid[b]);
            if self.owns(mid, m, b) {
                let s = choose|s: int|
                    0 <= s < self.slots(mid, m) && #[trigger] self.slot(mid, m, s) == b;
                assert(self.slot(later, m, s) == b);
            }
        }
        assert forall|s: int| 0 <= s < self.slots(disk, m) implies #[trigger] self.slot(later, m, s)
            == self.slot(disk, m, s) by {
            assert(self.slot(later, m, s) == self.slot(mid, m, s));
        }
        assert forall|i: int| 0 <= i < v.size implies #[trigger] self.content(later, m)[i] == (
        if offset <= i < offset + data.len() {
            data[i - offset]
        } else {
            disk[v.block_at(later, i / 512)][i % 512]
        }) by {
            assert(v.owned(later, slot_of(i / 512)) == v.owned(mid, slot_of(i / 512)));
            assert(self.content(mid, m)[i] == v.byte_at(mid, i));
        }
        assert forall|i: int|
            0 <= i < self.inode(disk, m).size && !(offset <= i < offset + data.len())
            implies #[trigger] self.content(later, m)[i] == self.content(disk, m)[i] by {
            assert(self.content(mid, m)[i] == v.byte_at(mid, i));
        }
        self.lemma_regions(mid);
        assert forall|b: int|
            #![trigger v.holds_data(mid, b)]
            v.holds_data(mid, b) implies self.in_data_area(b) && self.owns(later, m, b) by {
            reveal(Layout::tidy);
            let k = choose|k: int|
                0 <= k < data_blocks(v.size as int) && #[trigger] v.block_at(mid, k) == b;
            assert(self.slot(mid, m, slot_of(k)) == b);
            assert(self.used(mid, self.slot(mid, m, slot_of(k))));
            assert(self.slot(later, m, slot_of(k)) == b);
        }
        assert forall|b: int| 0 <= b < disk.len() && !self.about(later, m, b) implies #[trigger] later[b]
            == disk[b] by {
            assert(later[b] == mid[b]);
            if self.owns(mid, m, b) {
                let s = choose|s: int|
                    0 <= s < self.slots(mid, m) && #[trigger] self.slot(mid, m, s) == b;
                assert(self.slot(later, m, s) == b);
            }
            assert(!self.about(mid, m, b));
        }
        assert forall|j: int| 0 <= j < self.inode_count() && j != m implies #[trigger] self.record(
            later,
            j,
        ) == self.record(disk, j) by {
            assert(self.inode_area_start_block <= self.inode_block(j) < self.data_bitmap.start());
            assert(!v.holds_data(mid, self.inode_block(j)));
            assert(later[self.inode_block(j)] == mid[self.inode_block(j)]);
            assert(self.record(mid, j) == self.record(disk, j));
        }
        assert forall|b: int| self.data_bitmap.covers(b) implies #[trigger] later[b]
            == self.data_bitmap.after_allocs(
            disk,
            (self.slots(later, m) - self.slots(disk, m)) as nat,
        )[b] by {
            assert(!v.holds_data(mid, b));
            assert(later[b] == mid[b]);
        }
        lemma_data_is_not_index(v, mid);
        assert(self.inode_area_start_block <= self.inode_block(m) < self.data_bitmap.start());
        assert(!v.holds_data(mid, self.inode_block(m)));
        assert(self.record(later, m) == self.record(mid, m));
        if v.slots() > 28 {
            assert(!v.holds_data(mid, v.indirect1 as int));
            assert(self.slot(mid, m, 28) == v.indirect1);
            assert(self.used(mid, self.slot(mid, m, 28))) by {
                reveal(Layout::tidy);
            }
            assert(later[v.indirect1 as int] == mid[v.indirect1 as int]);
        }
        assert(self.rewired(disk, mid, m));
        assert forall|k: int|
            #![trigger v.block_at(later, k)]
            0 <= k < data_blocks(v.size as int) implies later[v.block_at(later, k)] == Seq::new(
            512,
            |j: int|
                if offset <= k * 512 + j < offset + data.len() {
                    data[k * 512 + j - offset]
                } else {
                    disk[v.block_at(later, k)][j]
                },
        ) by {
            let b = v.block_at(mid, k);
            assert(v.owned(later, slot_of(k)) == v.owned(mid, slot_of(k)));
            assert(mid[b] == disk[b]);
            assert(later[b] =~= Seq::new(
                512,
                |j: int|
                    if offset <= k * 512 + j < offset + data.len() {
                        data[k * 512 + j - offset]
                    } else {
                        disk[b][j]
                    },
            ));
        }
    }

    /// What was written is read back: after a write of `data` at `offset`,
    /// the content reaches to the end of what was written, and holds `data`
    /// there. The size is the end of the write where that lies beyond the
    /// size before, and the size before otherwise.
    pub proof fn lemma_read_back(
        &self,
        disk: Seq<Seq<u8>>,
        later: Seq<Seq<u8>>,
        m: int,
        offset: int,
        data: Seq<u8>,
    )
        requires
            0 <= offset,
            self.written(disk, later, m, offset, data),
        ensures
            clip(self.content(later, m).len() as int, offset, data.len() as int) == data.len(),
            data.len() > 0 ==> self.content(later, m).subrange(offset, offset + data.len()) == data,
            self.content(later, m).len() == (if offset + data.len() > self.content(disk, m).len() {
                offset + data.len()
            } else {
                self.content(disk, m).len() as int
            }),
    {
        if data.len() > 0 {
            assert(self.content(later, m).subrange(offset, offset + data.len()) =~= data);
        }
    }

    /// `disk` after inode `n` was given the record of `v` and allocated.
    pub open spec fn with_new_inode(&self, disk: Seq<Seq<u8>>, n: int, v: InodeView) -> Seq<Seq<u8>> {
        self.inode_bitmap.with_bit(self.with_inode(disk, n, v), n, true)
    }

    /// Giving a free inode the record of an empty inode and allocating it
    /// leaves every other inode as it was.
    pub proof fn lemma_inode_created(&self, disk: Seq<Seq<u8>>, n: int, v: InodeView)
        requires
            self.consistent(disk),
            0 <= n < self.inode_count(),
            !self.live(disk, n),
            v.size == 0,
            v.direct.len() == 28,
        ensures
            self.consistent(self.with_new_inode(disk, n, v)),
            self.others_kept(disk, self.with_new_inode(disk, n, v), n),
            self.live(self.with_new_inode(disk, n, v), n),
            self.inode(self.with_new_inode(disk, n, v), n) == v,
            self.content(self.with_new_inode(disk, n, v), n) == Seq::<u8>::empty(),
            forall|b: int| self.used(self.with_new_inode(disk, n, v), b) == self.used(disk, b),
            self.free_blocks(self.with_new_inode(disk, n, v)) == self.free_blocks(disk),
            forall|i: int, s: int|
                self.live(disk, i) && 0 <= s < self.slots(disk, i) ==> #[trigger] self.slot(
                    self.with_new_inode(disk, n, v),
                    i,
                    s,
                ) == self.slot(disk, i, s),
            forall|b: int| self.in_data_area(b) ==> #[trigger] self.with_new_inode(disk, n, v)[b] == disk[b],
            self.dirs_ok(disk) && !v.is_dir ==> self.dirs_ok(self.with_new_inode(disk, n, v)),
    {
        reveal(Layout::tidy);
        let mid = self.with_inode(disk, n, v);
        let later = self.with_new_inode(disk, n, v);
        self.lemma_regions(disk);
        self.lemma_with_inode(disk, n, v);
        assert(self.inode_area_start_block <= self.inode_block(n) < self.data_bitmap.start());
        assert forall|i: int, s: int|
            i != n && self.live(disk, i) && 0 <= s < self.slots(disk, i) implies mid[#[trigger] self.slot(
            disk,
            i,
            s,
        )] == disk[self.slot(disk, i, s)] by {
            assert(self.used(disk, self.slot(disk, i, s)));
        }
        self.lemma_step(disk, mid, n);
        self.lemma_inode_bit(mid, n, true);
        assert forall|i: int, s: int|
            i != n && self.live(mid, i) && 0 <= s < self.slots(mid, i) implies later[#[trigger] self.slot(
            mid,
            i,
            s,
        )] == mid[self.slot(mid, i, s)] by {
            assert(self.used(mid, self.slot(mid, i, s)));
        }
        assert(self.record(later, n) == self.record(mid, n));
        assert(self.slots(later, n) == 0);
        self.lemma_step(mid, later, n);
        assert forall|i: int| i != n && self.live(disk, i) implies self.kept(disk, later, i) by {
            assert(self.live(mid, i) == self.live(disk, i));
            assert(self.kept(disk, mid, i));
            assert(self.kept(mid, later, i));
        }
        assert forall|i: int, s: int|
            self.live(disk, i) && 0 <= s < self.slots(disk, i) implies #[trigger] self.slot(
            later,
            i,
            s,
        ) == self.slot(disk, i, s) by {
            assert(self.live(mid, i));
            assert(self.kept(disk, mid, i));
            assert(self.slot(mid, i, s) == self.slot(disk, i, s));
            assert(self.slot(later, i, s) == self.slot(mid, i, s));
        }
        assert(self.content(later, n) =~= Seq::<u8>::empty());
        assert forall|b: int| self.in_data_area(b) implies #[trigger] later[b] == disk[b] by {
            assert(mid[b] == disk[b]);
        }
        if self.dirs_ok(disk) && !v.is_dir {
            self.lemma_dirs_kept(disk, later, n);
        }
    }

    /// The offset at which the next entry of directory `m` is written: the
    /// end of its last whole entry.
    pub open spec fn tail(&self, disk: Seq<Seq<u8>>, m: int) -> int {
        32 * (self.inode(disk, m).size / 32)
    }

    /// `later` is `disk` after the entry `rec` was written at the tail of
    /// directory `m`: the directory has the entries that it had, and `rec`
    /// after them.
    pub open spec fn appended(&self, disk: Seq<Seq<u8>>, later: Seq<Seq<u8>>, m: int, rec: Seq<u8>) -> bool {
        &&& self.written(disk, later, m, self.tail(disk, m), rec)
        &&& self.entries(later, m) == self.entries(disk, m).push(rec)
    }

    /// A record written at the tail of a directory is one more entry.
    pub proof fn lemma_written_appends(
        &self,
        disk: Seq<Seq<u8>>,
        later: Seq<Seq<u8>>,
        m: int,
        rec: Seq<u8>,
    )
        requires
            self.written(disk, later, m, self.tail(disk, m), rec),
            rec.len() == 32,
        ensures
            self.appended(disk, later, m, rec),
    {
        let content = self.content(disk, m);
        let after = self.content(later, m);
        let t = self.tail(disk, m);
        assert(content.len() == self.inode(disk, m).size);
        assert forall|i: int| 0 <= i < t implies after[i] == content[i] by {}
        assert forall|i: int| t <= i < after.len() implies after[i] == rec[i - t] by {}
        lemma_appended(content, after, rec);
    }

    /// A name more for an inode is a link more to it: after an entry was
    /// written at the tail of directory `m`, the inode that the entry is bound
    /// to has one link more in `m`, and every other inode as many as before.
    pub proof fn lemma_link_counts(
        &self,
        disk: Seq<Seq<u8>>,
        later: Seq<Seq<u8>>,
        m: int,
        rec: Seq<u8>,
        id: int,
    )
        requires
            self.appended(disk, later, m, rec),
        ensures
            count_links(self.entries(later, m), id, self.entries(later, m).len() as int)
                == count_links(self.entries(disk, m), id, self.entries(disk, m).len() as int) + (
            if entry_inode(rec) == id {
                1int
            } else {
                0int
            }),
    {
        lemma_count_links_push(self.entries(disk, m), rec, id);
    }

    /// One more entry in directory `m`, bound to an allocated inode, leaves
    /// the directories in order.
    pub proof fn lemma_linked(&self, disk: Seq<Seq<u8>>, later: Seq<Seq<u8>>, m: int, rec: Seq<u8>)
        requires
            self.sound(disk),
            self.live(disk, m),
            self.inode(disk, m).is_dir,
            self.appended(disk, later, m, rec),
            self.live(disk, entry_inode(rec) as int),
        ensures
            self.sound(later),
    {
        assert forall|k: int| 0 <= k < self.entries(later, m).len() implies self.live(
            later,
            #[trigger] self.target(later, m, k),
        ) by {
            if k < self.entries(disk, m).len() {
                assert(self.target(later, m, k) == self.target(disk, m, k));
                assert(self.live(disk, self.target(disk, m, k)));
            }
        }
        self.lemma_dirs_kept(disk, later, m);
    }

    /// The record of an empty file.
    pub open spec fn empty_file() -> InodeView {
        InodeView { size: 0, is_dir: false, direct: Seq::new(28, |k: int| 0u32), indirect1: 0 }
    }

    /// `later` is `disk` after a file was created in directory `m` under the
    /// name `name`, with `n` as its inode: `n` was the free inode of lowest
    /// number; it was made an empty file and allocated; then an entry that
    /// binds `name` to it was written at the tail of the directory.
    pub open spec fn created(
        &self,
        disk: Seq<Seq<u8>>,
        later: Seq<Seq<u8>>,
        m: int,
        name: Seq<u8>,
        n: int,
    ) -> bool {
        &&& self.inode_bitmap.lowest_free(disk) == Some(n)
        &&& 0 <= n <= u32::MAX
        &&& self.appended(
            self.with_new_inode(disk, n, Self::empty_file()),
            later,
            m,
            entry_bytes(name, n as u32),
        )
        &&& self.entries(later, m) == self.entries(disk, m).push(entry_bytes(name, n as u32))
        &&& self.inode(later, m).is_dir
        &&& self.inode(later, m).size == self.tail(disk, m) + 32
        &&& n != m
        &&& later[0] == disk[0]
        &&& self.sound(later)
        &&& self.inode(later, n) == Self::empty_file()
        &&& self.content(later, n) == Seq::<u8>::empty()
        &&& forall|i: int| self.live(later, i) <==> self.live(disk, i) || i == n
        &&& forall|i: int|
            #![trigger self.live(disk, i)]
            i != m && self.live(disk, i) ==> self.kept(disk, later, i)
    }

    /// Creating an inode and then writing an entry for it at the tail of
    /// directory `m`.
    pub proof fn lemma_created(
        &self,
        disk: Seq<Seq<u8>>,
        later: Seq<Seq<u8>>,
        m: int,
        name: Seq<u8>,
        n: int,
    )
        requires
            self.sound(disk),
            self.live(disk, m),
            self.inode(disk, m).is_dir,
            self.inode_bitmap.lowest_free(disk) == Some(n),
            self.written(
                self.with_new_inode(disk, n, Self::empty_file()),
                later,
                m,
                self.tail(disk, m),
                entry_bytes(name, n as u32),
            ),
        ensures
            self.created(disk, later, m, name, n),
    {
        let v = Self::empty_file();
        let mid = self.with_new_inode(disk, n, v);
        let rec = entry_bytes(name, n as u32);
        self.lemma_regions(disk);
        self.inode_bitmap.lemma_lowest_free(disk);
        assert(self.inode_bitmap.is_lowest_free(disk, n));
        self.lemma_inode_created(disk, n, v);
        assert(self.live(mid, m) == self.live(disk, m));
        assert(self.kept(disk, mid, m));
        lemma_entry_inode(name, n as u32);
        self.lemma_written_appends(mid, later, m, rec);
        assert(self.entries(mid, m) == self.entries(disk, m));
        assert(self.kept(mid, later, n)) by {
            assert(self.live(mid, n));
        }
        assert forall|i: int| self.live(later, i) <==> self.live(disk, i) || i == n by {
            assert(self.live(later, i) == self.live(mid, i));
            if i != n {
                assert(self.live(mid, i) == self.live(disk, i));
            }
        }
        assert forall|i: int|
            #![trigger self.live(disk, i)]
            i != m && self.live(disk, i) implies self.kept(disk, later, i) by {
            assert(self.kept(disk, mid, i));
            assert(self.live(mid, i) == self.live(disk, i));
            assert(self.kept(mid, later, i));
        }
        assert forall|k: int| 0 <= k < self.entries(later, m).len() implies self.live(
            later,
            #[trigger] self.target(later, m, k),
        ) by {
            if k < self.entries(disk, m).len() {
                assert(self.target(later, m, k) == self.target(disk, m, k));
                assert(self.live(disk, self.target(disk, m, k)));
            }
        }
        self.lemma_dirs_kept(mid, later, m);
    }

    /// `later` is `disk` after entry `k` of directory `m` was removed: the
    /// last entry was written over it and the directory shortened by one
    /// entry. No block was freed.
    pub open spec fn removed(&self, disk: Seq<Seq<u8>>, later: Seq<Seq<u8>>, m: int, k: int) -> bool {
        &&& self.sound(later)
        &&& self.others_kept(disk, later, m)
        &&& forall|i: int| self.live(later, i) == self.live(disk, i)
        &&& self.inode(later, m).size == self.inode(disk, m).size - 32
        &&& self.inode(later, m).is_dir
        &&& self.inode(later, m).direct == self.inode(disk, m).direct
        &&& self.inode(later, m).indirect1 == self.inode(disk, m).indirect1
        &&& self.entries(later, m) == self.entries(disk, m).update(
            k,
            self.entries(disk, m).last(),
        ).drop_last()
        &&& forall|i: int|
            0 <= i < self.inode(later, m).size ==> #[trigger] self.content(later, m)[i] == (if 32
                * k <= i < 32 * k + 32 {
                self.content(disk, m)[self.tail(disk, m) - 32 + (i - 32 * k)]
            } else {
                self.content(disk, m)[i]
            })
        &&& forall|b: int| self.used(later, b) == self.used(disk, b)
        &&& self.free_blocks(later) == self.free_blocks(disk)
        &&& self.confined(disk, later, m)
        &&& forall|b: int| self.data_bitmap.covers(b) ==> #[trigger] later[b] == disk[b]
        &&& self.record(later, m) == encode_inode(self.inode(later, m))
        &&& forall|b: int|
            self.in_data_area(b) && !self.inode(disk, m).holds_data(disk, b) ==> #[trigger] later[b]
                == disk[b]
        &&& forall|x: int|
            #![trigger self.inode(disk, m).block_at(disk, x)]
            0 <= x < data_blocks(self.inode(disk, m).size as int) ==> later[self.inode(
                disk,
                m,
            ).block_at(disk, x)] == Seq::new(
                512,
                |j: int|
                    if 32 * k <= x * 512 + j < 32 * k + 32 {
                        self.entries(disk, m).last()[x * 512 + j - 32 * k]
                    } else {
                        disk[self.inode(disk, m).block_at(disk, x)][j]
                    },
            )
    }

    /// Writing the last entry of directory `m` over entry `k` and then
    /// shortening the directory by one entry.
    pub proof fn lemma_entry_removed(
        &self,
        disk: Seq<Seq<u8>>,
        mid: Seq<Seq<u8>>,
        m: int,
        k: int,
        v: InodeView,
    )
        requires
            self.sound(disk),
            self.live(disk, m),
            self.inode(disk, m).is_dir,
            0 <= k < self.entries(disk, m).len(),
            self.inode(disk, m).wrote(disk, mid, 32 * k, self.entries(disk, m).last()),
            v.size == self.inode(disk, m).size - 32,
            v.is_dir,
            v.direct == self.inode(disk, m).direct,
            v.indirect1 == self.inode(disk, m).indirect1,
        ensures
            self.removed(disk, self.with_inode(mid, m, v), m, k),
    {
        reveal(Layout::tidy);
        let had = self.inode(disk, m);
        let later = self.with_inode(mid, m, v);
        let last = self.entries(disk, m).last();
        let content = self.content(disk, m);
        let q = self.entries(disk, m).len() as int;
        assert(content.len() == had.size);
        self.lemma_inode_wf(disk, m);
        self.lemma_content_written(disk, mid, m, 32 * k, last);
        assert forall|s: int| 0 <= s < v.slots() implies #[trigger] v.owned(mid, s) == self.slot(
            mid,
            m,
            s,
        ) by {}
        assert forall|s: int| 0 <= s < v.slots() implies self.used(mid, #[trigger] v.owned(mid, s)) by {
            assert(self.used(mid, self.slot(mid, m, s)));
        }
        assert forall|s: int, t: int| 0 <= s < t < v.slots() implies #[trigger] v.owned(mid, s)
            != #[trigger] v.owned(mid, t) by {
            assert(self.slot(mid, m, s) != self.slot(mid, m, t));
        }
        assert forall|s: int, j: int, t: int|
            0 <= s < v.slots() && j != m && self.live(mid, j) && 0 <= t < self.slots(
                mid,
                j,
            ) implies #[trigger] v.owned(mid, s) != #[trigger] self.slot(mid, j, t) by {
            assert(self.slot(mid, m, s) != self.slot(mid, j, t));
        }
        self.lemma_record_written(mid, m, v);
        let after = self.content(later, m);
        assert forall|i: int| 0 <= i < after.len() implies after[i] == (if 32 * k <= i < 32 * k
            + 32 {
            content[32 * (content.len() / 32 - 1) + (i - 32 * k)]
        } else {
            content[i]
        }) by {
            assert(after[i] == v.byte_at(mid, i));
            assert(v.byte_at(mid, i) == had.byte_at(mid, i));
            assert(self.content(mid, m)[i] == had.byte_at(mid, i));
            if 32 * k <= i < 32 * k + 32 {
                assert(last[i - 32 * k] == content[32 * (q - 1) + (i - 32 * k)]);
            }
        }
        lemma_removed(content, after, k);
        assert forall|i: int| i != m && self.live(disk, i) implies self.kept(disk, later, i) by {
            assert(self.live(mid, i) == self.live(disk, i));
            assert(self.kept(disk, mid, i));
            assert(self.kept(mid, later, i));
        }
        assert forall|j: int| 0 <= j < self.entries(later, m).len() implies self.live(
            later,
            #[trigger] self.target(later, m, j),
        ) by {
            let t = if j == k {
                q - 1
            } else {
                j
            };
            assert(self.target(later, m, j) == self.target(disk, m, t));
            assert(self.live(disk, self.target(disk, m, t)));
        }
        self.lemma_dirs_kept(disk, later, m);
        // What the inode has no more in use was not written.
        self.lemma_regions(disk);
        self.lemma_with_inode(mid, m, v);
        lemma_data_is_not_index(had, disk);
        assert forall|b: int|
            #![trigger had.holds_data(disk, b)]
            had.holds_data(disk, b) implies self.in_data_area(b) by {
            let x = choose|x: int|
                0 <= x < data_blocks(had.size as int) && #[trigger] had.block_at(disk, x) == b;
            assert(self.slot(disk, m, slot_of(x)) == b);
            assert(self.used(disk, self.slot(disk, m, slot_of(x))));
        }
        assert(self.inode_area_start_block <= self.inode_block(m) < self.data_bitmap.start());
        assert forall|b: int| self.data_bitmap.covers(b) implies #[trigger] later[b] == disk[b] by {
            assert(!had.holds_data(disk, b));
            assert(later[b] == mid[b]);
        }
        assert forall|b: int|
            self.in_data_area(b) && !had.holds_data(disk, b) implies #[trigger] later[b]
            == disk[b] by {
            assert(later[b] == mid[b]);
        }
        assert forall|x: int|
            #![trigger had.block_at(disk, x)]
            0 <= x < data_blocks(had.size as int) implies later[had.block_at(disk, x)] == Seq::new(
            512,
            |j: int|
                if 32 * k <= x * 512 + j < 32 * k + 32 {
                    last[x * 512 + j - 32 * k]
                } else {
                    disk[had.block_at(disk, x)][j]
                },
        ) by {
            let b = had.block_at(disk, x);
            assert(had.holds_data(disk, b));
            assert(later[b] == mid[b]);
            assert(mid[b] =~= Seq::new(
                512,
                |j: int|
                    if 32 * k <= x * 512 + j < 32 * k + 32 {
                        last[x * 512 + j - 32 * k]
                    } else {
                        disk[b][j]
                    },
            ));
        }
        assert forall|b: int| 0 <= b < disk.len() && !self.about(later, m, b) implies #[trigger] later[b]
            == disk[b] by {
            assert(later[b] == mid[b]);
            if had.holds_data(disk, b) {
                let kb = choose|kb: int|
                    0 <= kb < data_blocks(had.size as int) && #[trigger] had.block_at(disk, kb)
                        == b;
                // The block is beyond the new size: no byte of it was changed.
                if slot_of(kb) < v.slots() {
                    lemma_wrote(had, disk, mid, 32 * k, last);
                    assert(self.slot(later, m, slot_of(kb)) == v.owned(mid, slot_of(kb)));
                    assert(v.owned(mid, slot_of(kb)) == had.owned(mid, slot_of(kb)));
                    assert(had.owned(mid, slot_of(kb)) == had.owned(disk, slot_of(kb)));
                    assert(self.owns(later, m, b));
                }
                assert(mid[b].len() == 512);
                assert forall|j: int| 0 <= j < 512 implies mid[b][j] == disk[b][j] by {
                    let p = kb * 512 + j;
                    if 32 * k <= p < 32 * k + 32 {
                        assert(k == q - 1);
                        assert(last[p - 32 * k] == content[32 * (q - 1) + (p - 32 * k)]);
                        assert(content[p] == had.byte_at(disk, p));
                    }
                }
                assert(mid[b] =~= disk[b]);
            }
        }
        assert forall|j: int| 0 <= j < self.inode_count() && j != m implies #[trigger] self.record(
            later,
            j,
        ) == self.record(disk, j) by {
            assert(self.inode_area_start_block <= self.inode_block(j) < self.data_bitmap.start());
            assert(self.record(later, j) == self.record(mid, j));
            if had.holds_data(disk, self.inode_block(j)) {
                let kb = choose|kb: int|
                    0 <= kb < data_blocks(had.size as int) && #[trigger] had.block_at(disk, kb)
                        == self.inode_block(j);
                assert(self.slot(disk, m, slot_of(kb)) == self.inode_block(j));
                assert(self.used(disk, self.slot(disk, m, slot_of(kb))));
            }
            assert(mid[self.inode_block(j)] == disk[self.inode_block(j)]);
        }
    }

    /// `disk` after the blocks `gone` were freed, one after the other.
    pub open spec fn after_frees(&self, disk: Seq<Seq<u8>>, gone: Seq<u32>) -> Seq<Seq<u8>>
        decreases gone.len(),
    {
        if gone.len() == 0 {
            disk
        } else {
            self.data_bitmap.with_bit(
                self.after_frees(disk, gone.drop_last()),
                gone.last() - self.data_area_start_block,
                false,
            )
        }
    }

    /// `later` is `disk` after the blocks `gone`, which no inode had in use,
    /// were freed: nothing but the data bitmap has changed.
    pub open spec fn gave(&self, disk: Seq<Seq<u8>>, later: Seq<Seq<u8>>, gone: Seq<u32>) -> bool {
        &&& later == self.after_frees(disk, gone)
        &&& self.bitmap_only(disk, later)
        &&& self.consistent(later)
        &&& self.others_kept(disk, later, -1)
        &&& self.dirs_ok(disk) ==> self.dirs_ok(later)
        &&& self.free_blocks(later) == self.free_blocks(disk) + gone.len()
        &&& forall|b: int|
            self.used(later, b) <==> self.used(disk, b) && !exists|k: int|
                0 <= k < gone.len() && #[trigger] gone[k] == b
        &&& forall|b: int| self.in_data_area(b) ==> #[trigger] later[b] == disk[b]
        &&& forall|i: int, s: int|
            self.live(disk, i) && 0 <= s < self.slots(disk, i) ==> #[trigger] self.slot(
                later,
                i,
                s,
            ) == self.slot(disk, i, s)
    }

    /// One more block freed, which is allocated and in use by no inode, after
    /// the blocks `done` were freed.
    pub proof fn lemma_gave_more(&self, disk: Seq<Seq<u8>>, cur: Seq<Seq<u8>>, done: Seq<u32>, b: int)
        requires
            self.consistent(disk),
            self.gave(disk, cur, done),
            self.used(cur, b),
            self.unowned(cur, b),
            0 <= b <= u32::MAX,
        ensures
            self.gave(
                disk,
                self.data_bitmap.with_bit(cur, b - self.data_area_start_block, false),
                done.push(b as u32),
            ),
    {
        let next = self.data_bitmap.with_bit(cur, b - self.data_area_start_block, false);
        let more = done.push(b as u32);
        self.lemma_regions(cur);
        self.lemma_data_freed(cur, b);
        self.lemma_data_bit(cur, b, false);
        assert(more.drop_last() =~= done);
        assert(next == self.after_frees(disk, more));
        assert forall|i: int|
            #![trigger self.live(next, i)]
            #![trigger self.live(disk, i)]
            i != -1 implies self.live(next, i) == self.live(disk, i) && (self.live(disk, i)
            ==> self.kept(disk, next, i)) by {
            assert(self.live(cur, i) == self.live(disk, i));
            if self.live(disk, i) {
                assert(self.kept(disk, cur, i));
                assert(self.kept(cur, next, i));
            }
        }
        assert forall|x: int|
            self.used(next, x) <==> self.used(disk, x) && !exists|j: int|
                0 <= j < more.len() && #[trigger] more[j] == x by {
            if x == b {
                assert(more[done.len() as int] == x);
            } else {
                assert(self.used(next, x) == self.used(cur, x));
                if exists|j: int| 0 <= j < done.len() && #[trigger] done[j] == x {
                    let j = choose|j: int| 0 <= j < done.len() && #[trigger] done[j] == x;
                    assert(more[j] == x);
                }
                if exists|j: int| 0 <= j < more.len() && #[trigger] more[j] == x {
                    let j = choose|j: int| 0 <= j < more.len() && #[trigger] more[j] == x;
                    assert(done[j] == x);
                }
            }
        }
        assert forall|i: int, s: int|
            self.live(disk, i) && 0 <= s < self.slots(disk, i) implies #[trigger] self.slot(
            next,
            i,
            s,
        ) == self.slot(disk, i, s) by {
            assert(self.live(cur, i));
            assert(self.kept(disk, cur, i));
            assert(self.slot(cur, i, s) == self.slot(disk, i, s));
            assert(self.slot(next, i, s) == self.slot(cur, i, s));
        }
        assert forall|x: int| self.in_data_area(x) implies #[trigger] next[x] == disk[x] by {
            assert(cur[x] == disk[x]);
        }
    }

    /// What the record of an inode says after the inode was emptied: no size,
    /// no block, and the type that it had.
    pub open spec fn empty_like(v: InodeView) -> InodeView {
        InodeView { size: 0, is_dir: v.is_dir, direct: Seq::new(28, |k: int| 0u32), indirect1: 0 }
    }

    /// `later` is `disk` after inode `m` was cleared: it is empty, the blocks
    /// that it had in use are free, and nothing else has changed. No data
    /// block was written.
    pub open spec fn cleared(&self, disk: Seq<Seq<u8>>, later: Seq<Seq<u8>>, m: int) -> bool {
        &&& self.consistent(later)
        &&& self.others_kept(disk, later, m)
        &&& forall|i: int| self.live(later, i) == self.live(disk, i)
        &&& self.inode(later, m) == Self::empty_like(self.inode(disk, m))
        &&& self.content(later, m) == Seq::<u8>::empty()
        &&& forall|b: int| self.used(later, b) <==> self.used(disk, b) && !self.owns(disk, m, b)
        &&& self.free_blocks(later) == self.free_blocks(disk) + blocks_for(
            self.inode(disk, m).size as int,
        )
        &&& forall|b: int| self.in_data_area(b) ==> #[trigger] later[b] == disk[b]
        &&& self.confined(disk, later, m)
        &&& self.dirs_ok(disk) ==> self.dirs_ok(later)
        &&& later == self.after_frees(
            self.with_inode(disk, m, Self::empty_like(self.inode(disk, m))),
            self.inode(disk, m).owned_blocks(disk),
        )
    }

    /// Emptying the record of inode `m` leaves the blocks that it had in use
    /// allocated and in use by no inode.
    pub proof fn lemma_emptied(&self, disk: Seq<Seq<u8>>, m: int)
        requires
            self.consistent(disk),
            self.live(disk, m),
        ensures
            self.consistent(self.with_inode(disk, m, Self::empty_like(self.inode(disk, m)))),
            self.spare(
                self.with_inode(disk, m, Self::empty_like(self.inode(disk, m))),
                self.inode(disk, m).owned_blocks(disk),
            ),
            self.others_kept(
                disk,
                self.with_inode(disk, m, Self::empty_like(self.inode(disk, m))),
                m,
            ),
            self.live(self.with_inode(disk, m, Self::empty_like(self.inode(disk, m))), m),
            self.inode(self.with_inode(disk, m, Self::empty_like(self.inode(disk, m))), m)
                == Self::empty_like(self.inode(disk, m)),
            self.content(self.with_inode(disk, m, Self::empty_like(self.inode(disk, m))), m)
                == Seq::<u8>::empty(),
            forall|b: int|
                self.used(self.with_inode(disk, m, Self::empty_like(self.inode(disk, m))), b)
                    == self.used(disk, b),
            self.free_blocks(self.with_inode(disk, m, Self::empty_like(self.inode(disk, m))))
                == self.free_blocks(disk),
            forall|b: int|
                self.in_data_area(b) ==> #[trigger] self.with_inode(
                    disk,
                    m,
                    Self::empty_like(self.inode(disk, m)),
                )[b] == disk[b],
            self.dirs_ok(disk) ==> self.dirs_ok(
                self.with_inode(disk, m, Self::empty_like(self.inode(disk, m))),
            ),
    {
        reveal(Layout::tidy);
        let had = self.inode(disk, m);
        let v = Self::empty_like(had);
        let later = self.with_inode(disk, m, v);
        let gone = had.owned_blocks(disk);
        self.lemma_regions(disk);
        self.lemma_inode_wf(disk, m);
        self.lemma_record_written(disk, m, v);
        assert(self.content(later, m) =~= Seq::<u8>::empty());
        assert forall|k: int| 0 <= k < gone.len() implies self.used(
            later,
            #[trigger] gone[k] as int,
        ) && self.unowned(later, gone[k] as int) by {
            assert(gone[k] == self.slot(disk, m, k));
            assert(self.used(disk, self.slot(disk, m, k)));
            assert forall|i: int, s: int|
                self.live(later, i) && 0 <= s < self.slots(later, i) implies #[trigger] self.slot(
                later,
                i,
                s,
            ) != gone[k] as int by {
                if i != m {
                    assert(self.live(disk, i));
                    assert(self.kept(disk, later, i));
                    assert(self.slot(later, i, s) == self.slot(disk, i, s));
                    assert(self.slot(disk, i, s) != self.slot(disk, m, k));
                }
            }
        }
        assert forall|k: int, j: int| 0 <= k < j < gone.len() implies gone[k] != gone[j] by {
            assert(self.slot(disk, m, k) != self.slot(disk, m, j));
            assert(self.used(disk, self.slot(disk, m, k)));
            assert(self.used(disk, self.slot(disk, m, j)));
        }
        if self.dirs_ok(disk) {
            assert(self.entries(later, m) =~= Seq::<Seq<u8>>::empty());
            self.lemma_dirs_kept(disk, later, m);
        }
    }

    /// Emptying inode `m` and then freeing the blocks that it had in use.
    pub proof fn lemma_cleared(&self, disk: Seq<Seq<u8>>, later: Seq<Seq<u8>>, m: int)
        requires
            self.consistent(disk),
            self.live(disk, m),
            self.gave(
                self.with_inode(disk, m, Self::empty_like(self.inode(disk, m))),
                later,
                self.inode(disk, m).owned_blocks(disk),
            ),
        ensures
            self.cleared(disk, later, m),
    {
        let had = self.inode(disk, m);
        let mid = self.with_inode(disk, m, Self::empty_like(had));
        let gone = had.owned_blocks(disk);
        self.lemma_emptied(disk, m);
        assert forall|i: int|
            #![trigger self.live(later, i)]
            #![trigger self.live(disk, i)]
            i != m implies self.live(later, i) == self.live(disk, i) && (self.live(disk, i)
            ==> self.kept(disk, later, i)) by {
            assert(self.live(mid, i) == self.live(disk, i));
            assert(self.live(later, i) == self.live(mid, i));
            if self.live(disk, i) {
                assert(self.kept(disk, mid, i));
                assert(self.kept(mid, later, i));
            }
        }
        assert(self.live(later, m) == self.live(mid, m));
        assert(self.kept(mid, later, m));
        assert forall|b: int|
            self.used(later, b) <==> self.used(disk, b) && !self.owns(disk, m, b) by {
            if self.owns(disk, m, b) {
                let s = choose|s: int|
                    0 <= s < self.slots(disk, m) && #[trigger] self.slot(disk, m, s) == b;
                assert(gone[s] == b);
            }
            if exists|k: int| 0 <= k < gone.len() && #[trigger] gone[k] == b {
                let k = choose|k: int| 0 <= k < gone.len() && #[trigger] gone[k] == b;
                assert(self.slot(disk, m, k) == b);
                assert(self.used(disk, self.slot(disk, m, k)));
            }
        }
        assert forall|b: int| self.in_data_area(b) implies #[trigger] later[b] == disk[b] by {
            assert(mid[b] == disk[b]);
        }
        self.lemma_regions(disk);
        self.lemma_with_inode(disk, m, Self::empty_like(had));
        assert forall|b: int| 0 <= b < disk.len() && !self.about(later, m, b) implies #[trigger] later[b]
            == disk[b] by {
            assert(later[b] == mid[b]);
        }
        assert forall|j: int| 0 <= j < self.inode_count() && j != m implies #[trigger] self.record(
            later,
            j,
        ) == self.record(disk, j) by {
            assert(self.inode_area_start_block <= self.inode_block(j) < self.data_bitmap.start());
            assert(later[self.inode_block(j)] == mid[self.inode_block(j)]);
            assert(self.record(mid, j) == self.record(disk, j));
        }
    }

    /// Nothing is read from an inode that was cleared, at whatever offset,
    /// and exactly the blocks that it had in use were freed, as many as an
    /// inode of its size occupies.
    pub proof fn lemma_cleared_is_empty(
        &self,
        disk: Seq<Seq<u8>>,
        later: Seq<Seq<u8>>,
        m: int,
        offset: int,
        len: int,
    )
        requires
            self.consistent(disk),
            self.live(disk, m),
            self.cleared(disk, later, m),
            0 <= offset,
        ensures
            clip(self.content(later, m).len() as int, offset, len) == 0,
            self.free_blocks(later) - self.free_blocks(disk) == blocks_for(
                self.content(disk, m).len() as int,
            ),
            self.inode(disk, m).owned_blocks(disk).len() == blocks_for(
                self.content(disk, m).len() as int,
            ),
            self.inode(disk, m).owned_blocks(disk).no_duplicates(),
            forall|k: int|
                0 <= k < self.inode(disk, m).owned_blocks(disk).len() ==> self.used(
                    disk,
                    #[trigger] self.inode(disk, m).owned_blocks(disk)[k] as int,
                ) && !self.used(later, self.inode(disk, m).owned_blocks(disk)[k] as int),
    {
        reveal(Layout::tidy);
        let gone = self.inode(disk, m).owned_blocks(disk);
        assert forall|k: int| 0 <= k < gone.len() implies self.used(disk, #[trigger] gone[k] as int)
            && !self.used(later, gone[k] as int) by {
            assert(gone[k] == self.slot(disk, m, k));
            assert(self.used(disk, self.slot(disk, m, k)));
            assert(self.owns(disk, m, gone[k] as int));
        }
        assert forall|k: int, j: int| 0 <= k < gone.len() && 0 <= j < gone.len() && k != j implies gone[k]
            != gone[j] by {
            assert(self.used(disk, self.slot(disk, m, k)));
            assert(self.used(disk, self.slot(disk, m, j)));
            assert(self.slot(disk, m, k) != self.slot(disk, m, j));
        }
    }
}

} // verus!
