//! A run of blocks read as a vector of bits, one bit per allocatable unit.
//!
//! Each block holds 64 little-endian words of 64 bits. Unit `u` is bit
//! `u % 64` of word `(u % 4096) / 64` of block `u / 4096` of the run; a set bit
//! means that the unit is allocated.

use crate::block_cache::BlockCacheManager;
use crate::block_dev::BlockDevice;
use crate::codec::{
    disk_wf, lemma_put_get_u64, lemma_put_u64_other, put_u64, u64_at,
};
use crate::error::FsError;
use crate::BLOCK_SZ;
use vstd::bytes::{u64_from_le_bytes, u64_to_le_bytes};
use vstd::prelude::*;
use vstd::slice::slice_subrange;
use vstd::std_specs::bits::axiom_u64_trailing_ones;

verus! {

/// Number of bits in a block.
pub const BLOCK_BITS: usize = 4096;

/// A bitmap: the index of its first block and the number of its blocks.
pub struct Bitmap {
    start_block_id: usize,
    blocks: usize,
}

/// Whether bit `k` of `word` is set.
pub open spec fn bit_of(word: u64, k: int) -> bool {
    (word >> (k as u64)) & 1u64 == 1u64
}

/// Whether bit `k` of word `w` of `block` is set.
pub open spec fn block_bit(block: Seq<u8>, w: int, k: int) -> bool {
    bit_of(u64_at(block, w * 8), k)
}

/// `word` with bit `k` set or cleared.
pub open spec fn word_with(word: u64, k: int, value: bool) -> u64 {
    if value {
        word | (1u64 << (k as u64))
    } else {
        word & !(1u64 << (k as u64))
    }
}

proof fn lemma_word_with(word: u64, k: int, value: bool)
    requires
        0 <= k < 64,
    ensures
        bit_of(word_with(word, k, value), k) == value,
        forall|j: int| 0 <= j < 64 && j != k ==> bit_of(word_with(word, k, value), j) == bit_of(word, j),
        bit_of(word, k) == value ==> word_with(word, k, value) == word,
{
    let kk = k as u64;
    assert(((word | (1u64 << kk)) >> kk) & 1u64 == 1u64) by (bit_vector)
        requires
            kk < 64,
    ;
    assert(((word & !(1u64 << kk)) >> kk) & 1u64 == 0u64) by (bit_vector)
        requires
            kk < 64,
    ;
    assert((word >> kk) & 1u64 == 1u64 ==> word | (1u64 << kk) == word) by (bit_vector)
        requires
            kk < 64,
    ;
    assert((word >> kk) & 1u64 != 1u64 ==> word & !(1u64 << kk) == word) by (bit_vector)
        requires
            kk < 64,
    ;
    assert forall|j: int| 0 <= j < 64 && j != k implies bit_of(word_with(word, k, value), j)
        == bit_of(word, j) by {
        let jj = j as u64;
        assert(((word | (1u64 << kk)) >> jj) & 1u64 == (word >> jj) & 1u64) by (bit_vector)
            requires
                kk < 64,
                jj < 64,
                jj != kk,
        ;
        assert(((word & !(1u64 << kk)) >> jj) & 1u64 == (word >> jj) & 1u64) by (bit_vector)
            requires
                kk < 64,
                jj < 64,
                jj != kk,
        ;
    }
}

proof fn lemma_full_word(word: u64, j: int)
    requires
        0 <= j < 64,
        word == u64::MAX,
    ensures
        bit_of(word, j),
{
    let jj = j as u64;
    assert((0xffff_ffff_ffff_ffffu64 >> jj) & 1u64 == 1u64) by (bit_vector)
        requires
            jj < 64,
    ;
}

/// The parts of a unit's index: its block in the run, its word in the block,
/// its bit in the word.
pub fn decomposition(bit: usize) -> (r: (usize, usize, usize))
    ensures
        r.0 == bit / 4096,
        r.1 == (bit % 4096) / 64,
        r.2 == bit % 64,
        r.1 < 64,
        r.2 < 64,
        bit == r.0 * 4096 + r.1 * 64 + r.2,
{
    let block_pos = bit / BLOCK_BITS;
    let rest = bit % BLOCK_BITS;
    (block_pos, rest / 64, rest % 64)
}

/// A unit is made of its parts.
pub proof fn lemma_parts(v: int)
    requires
        0 <= v,
    ensures
        v == (v / 4096) * 4096 + ((v % 4096) / 64) * 64 + v % 64,
        0 <= v / 4096,
        0 <= (v % 4096) / 64 < 64,
        0 <= v % 64 < 64,
{
}

/// The unit made of block `b`, word `w` and bit `k` has these parts.
pub proof fn lemma_compose(b: int, w: int, k: int)
    requires
        0 <= b,
        0 <= w < 64,
        0 <= k < 64,
    ensures
        (b * 4096 + w * 64 + k) / 4096 == b,
        ((b * 4096 + w * 64 + k) % 4096) / 64 == w,
        (b * 4096 + w * 64 + k) % 64 == k,
{
}

impl Bitmap {
    /// The index of the first block of the run.
    pub closed spec fn start(&self) -> int {
        self.start_block_id as int
    }

    /// The number of blocks of the run.
    pub closed spec fn block_count(&self) -> int {
        self.blocks as int
    }

    /// The number of units: 4096 for each block.
    pub open spec fn capacity(&self) -> int {
        self.block_count() * 4096
    }

    /// The run lies on `disk`, and its capacity is a `usize`.
    pub open spec fn fits(&self, disk: Seq<Seq<u8>>) -> bool {
        &&& disk_wf(disk)
        &&& 0 <= self.start()
        &&& 0 <= self.block_count()
        &&& self.start() + self.block_count() <= disk.len()
        &&& disk.len() <= usize::MAX
        &&& self.capacity() <= usize::MAX
    }

    /// Whether block `b` of the disk belongs to the run.
    pub open spec fn covers(&self, b: int) -> bool {
        self.start() <= b < self.start() + self.block_count()
    }

    /// Whether unit `unit` is allocated on `disk`. A unit beyond the capacity
    /// is not.
    pub open spec fn is_set(&self, disk: Seq<Seq<u8>>, unit: int) -> bool {
        &&& 0 <= unit < self.capacity()
        &&& bit_of(
            u64_at(disk[self.start() + unit / 4096], ((unit % 4096) / 64) * 8),
            unit % 64,
        )
    }

    /// Every unit is allocated.
    pub open spec fn full(&self, disk: Seq<Seq<u8>>) -> bool {
        forall|v: int| 0 <= v < self.capacity() ==> self.is_set(disk, v)
    }

    /// No unit is allocated.
    pub open spec fn vacant(&self, disk: Seq<Seq<u8>>) -> bool {
        forall|v: int| 0 <= v < self.capacity() ==> !self.is_set(disk, v)
    }

    /// `unit` is free and every unit below it is allocated.
    pub open spec fn is_lowest_free(&self, disk: Seq<Seq<u8>>, unit: int) -> bool {
        &&& 0 <= unit < self.capacity()
        &&& !self.is_set(disk, unit)
        &&& forall|v: int| 0 <= v < unit ==> self.is_set(disk, v)
    }

    /// The free unit of lowest index, if any unit is free.
    pub open spec fn lowest_free(&self, disk: Seq<Seq<u8>>) -> Option<int> {
        if exists|u: int| self.is_lowest_free(disk, u) {
            Some(choose|u: int| self.is_lowest_free(disk, u))
        } else {
            None
        }
    }

    /// The number of free units among the first `n`.
    pub open spec fn free_below(&self, disk: Seq<Seq<u8>>, n: int) -> int
        decreases n,
    {
        if n <= 0 {
            0
        } else {
            self.free_below(disk, n - 1) + (if self.is_set(disk, n - 1) {
                0int
            } else {
                1int
            })
        }
    }

    /// `disk` with the bit of `unit` set to `value`.
    pub open spec fn with_bit(&self, disk: Seq<Seq<u8>>, unit: int, value: bool) -> Seq<Seq<u8>> {
        let b = self.start() + unit / 4096;
        let off = ((unit % 4096) / 64) * 8;
        disk.update(b, put_u64(disk[b], off, word_with(u64_at(disk[b], off), unit % 64, value)))
    }

    /// `disk` after one allocation: the lowest free unit is set; a full bitmap
    /// stays as it is.
    pub open spec fn after_alloc(&self, disk: Seq<Seq<u8>>) -> Seq<Seq<u8>> {
        match self.lowest_free(disk) {
            Some(u) => self.with_bit(disk, u, true),
            None => disk,
        }
    }

    /// `disk` after `n` allocations in a row.
    pub open spec fn after_allocs(&self, disk: Seq<Seq<u8>>, n: nat) -> Seq<Seq<u8>>
        decreases n,
    {
        if n == 0 {
            disk
        } else {
            self.after_alloc(self.after_allocs(disk, (n - 1) as nat))
        }
    }

    /// Setting the bit of one unit changes that unit and no other, touches one
    /// block of the run and nothing else.
    pub proof fn lemma_with_bit(&self, disk: Seq<Seq<u8>>, unit: int, value: bool)
        requires
            self.fits(disk),
            0 <= unit < self.capacity(),
        ensures
            self.fits(self.with_bit(disk, unit, value)),
            self.with_bit(disk, unit, value).len() == disk.len(),
            self.is_set(self.with_bit(disk, unit, value), unit) == value,
            forall|v: int|
                #![trigger self.is_set(self.with_bit(disk, unit, value), v)]
                #![trigger self.is_set(disk, v)]
                v != unit ==> self.is_set(self.with_bit(disk, unit, value), v) == self.is_set(
                    disk,
                    v,
                ),
            forall|b: int|
                0 <= b < disk.len() && b != self.start() + unit / 4096 ==> self.with_bit(
                    disk,
                    unit,
                    value,
                )[b] == disk[b],
            self.covers(self.start() + unit / 4096),
            self.is_set(disk, unit) == value ==> self.with_bit(disk, unit, value) == disk,
    {
        let b = self.start() + unit / 4096;
        let off = ((unit % 4096) / 64) * 8;
        let w = u64_at(disk[b], off);
        let nw = word_with(w, unit % 64, value);
        let after = self.with_bit(disk, unit, value);
        lemma_parts(unit);
        assert(disk[b].len() == BLOCK_SZ);
        lemma_put_get_u64(disk[b], off, nw);
        lemma_word_with(w, unit % 64, value);
        assert(disk_wf(after));
        assert forall|v: int| v != unit implies self.is_set(after, v) == self.is_set(disk, v) by {
            if 0 <= v < self.capacity() {
                lemma_parts(v);
                let vb = self.start() + v / 4096;
                let voff = ((v % 4096) / 64) * 8;
                if vb == b {
                    if voff == off {
                        assert(v % 64 != unit % 64);
                    } else {
                        lemma_put_u64_other(disk[b], off, nw, voff);
                    }
                }
            }
        }
        if self.is_set(disk, unit) == value {
            crate::codec::lemma_put_same_u64(disk[b], off);
            assert(after =~= disk);
        }
    }

    /// While a unit is free there is a lowest one, and only one.
    pub proof fn lemma_lowest_free(&self, disk: Seq<Seq<u8>>)
        requires
            0 <= self.capacity(),
        ensures
            self.lowest_free(disk) is None <==> self.full(disk),
            match self.lowest_free(disk) {
                Some(u) => self.is_lowest_free(disk, u) && forall|v: int|
                    self.is_lowest_free(disk, v) ==> v == u,
                None => true,
            },
    {
        if !self.full(disk) {
            let v = choose|v: int| 0 <= v < self.capacity() && !self.is_set(disk, v);
            self.lemma_lowest_below(disk, v);
        }
        if self.lowest_free(disk) is Some {
            let u = self.lowest_free(disk).unwrap();
            assert(self.is_lowest_free(disk, u));
            assert forall|v: int| self.is_lowest_free(disk, v) implies v == u by {
                if v < u {
                    assert(self.is_set(disk, v));
                } else if u < v {
                    assert(self.is_set(disk, u));
                }
            }
        }
    }

    proof fn lemma_lowest_below(&self, disk: Seq<Seq<u8>>, v: int)
        requires
            0 <= v < self.capacity(),
            !self.is_set(disk, v),
        ensures
            exists|u: int| 0 <= u <= v && self.is_lowest_free(disk, u),
        decreases v,
    {
        if forall|x: int| 0 <= x < v ==> self.is_set(disk, x) {
            assert(self.is_lowest_free(disk, v));
        } else {
            let x = choose|x: int| 0 <= x < v && !self.is_set(disk, x);
            self.lemma_lowest_below(disk, x);
        }
    }

    /// Two bitmaps over the same run of blocks are the same.
    pub proof fn lemma_same(a: Bitmap, b: Bitmap)
        requires
            a.start() == b.start(),
            a.block_count() == b.block_count(),
        ensures
            a == b,
    {
    }

    /// No unit is allocated where every block of the run is zero.
    pub proof fn lemma_zero_is_vacant(&self, disk: Seq<Seq<u8>>)
        requires
            self.fits(disk),
            forall|b: int, j: int|
                self.covers(b) && 0 <= j < BLOCK_SZ ==> #[trigger] disk[b][j] == 0,
        ensures
            self.vacant(disk),
    {
        assert forall|v: int| 0 <= v < self.capacity() implies !self.is_set(disk, v) by {
            lemma_parts(v);
            let b = self.start() + v / 4096;
            let off = ((v % 4096) / 64) * 8;
            assert(self.covers(b));
            assert(disk[b].len() == BLOCK_SZ);
            assert forall|i: int| off <= i < off + 8 implies disk[b][i] == 0 by {}
            crate::codec::lemma_zero_u64(disk[b], off);
            let kk = (v % 64) as u64;
            assert((0u64 >> kk) & 1u64 != 1u64) by (bit_vector)
                requires
                    kk < 64,
            ;
        }
    }

    /// Two disks on which the units are allocated alike have the same lowest
    /// free unit.
    pub proof fn lemma_lowest_free_same(&self, disk: Seq<Seq<u8>>, later: Seq<Seq<u8>>)
        requires
            0 <= self.capacity(),
            forall|v: int| self.is_set(later, v) == self.is_set(disk, v),
        ensures
            self.lowest_free(later) == self.lowest_free(disk),
            self.full(later) == self.full(disk),
    {
        self.lemma_lowest_free(disk);
        self.lemma_lowest_free(later);
        if self.lowest_free(disk) is Some {
            let u = self.lowest_free(disk).unwrap();
            assert(self.is_lowest_free(later, u));
        }
        if self.lowest_free(later) is Some {
            let u = self.lowest_free(later).unwrap();
            assert(self.is_lowest_free(disk, u));
        }
    }

    /// Allocations from a vacant bitmap hand out the units `0, 1, 2, ...` in
    /// this order: after `n` of them exactly the units below `n` are
    /// allocated, and the next allocation yields `n`, or nothing once `n` is
    /// the capacity.
    pub proof fn lemma_allocs_in_order(&self, disk: Seq<Seq<u8>>, n: nat)
        requires
            self.fits(disk),
            self.vacant(disk),
            n <= self.capacity(),
        ensures
            self.fits(self.after_allocs(disk, n)),
            forall|v: int| self.is_set(self.after_allocs(disk, n), v) <==> 0 <= v < n,
            n < self.capacity() ==> self.lowest_free(self.after_allocs(disk, n)) == Some(n as int),
            n == self.capacity() ==> self.lowest_free(self.after_allocs(disk, n)) is None,
        decreases n,
    {
        let d = self.after_allocs(disk, n);
        if n > 0 {
            let p = self.after_allocs(disk, (n - 1) as nat);
            self.lemma_allocs_in_order(disk, (n - 1) as nat);
            self.lemma_with_bit(p, n - 1, true);
            assert(d == self.after_alloc(p));
            assert(d == self.with_bit(p, n - 1, true));
            assert forall|v: int| self.is_set(d, v) <==> 0 <= v < n by {
                if v != n - 1 {
                    assert(self.is_set(d, v) == self.is_set(p, v));
                }
            }
        } else {
            assert forall|v: int| self.is_set(d, v) <==> 0 <= v < n by {
                if self.is_set(d, v) {
                    assert(0 <= v < self.capacity());
                }
            }
        }
        self.lemma_lowest_free(d);
        if n < self.capacity() {
            assert(self.is_lowest_free(d, n as int));
        } else {
            assert(self.full(d));
        }
    }

    /// A unit that is freed is the next to be allocated, unless a unit of
    /// lower index was free already, which then still comes first.
    pub proof fn lemma_freed_comes_next(&self, disk: Seq<Seq<u8>>, unit: int)
        requires
            self.fits(disk),
            self.is_set(disk, unit),
        ensures
            self.lowest_free(self.with_bit(disk, unit, false)) == Some(
                match self.lowest_free(disk) {
                    Some(l) => if l < unit {
                        l
                    } else {
                        unit
                    },
                    None => unit,
                },
            ),
    {
        let d = self.with_bit(disk, unit, false);
        self.lemma_with_bit(disk, unit, false);
        self.lemma_lowest_free(disk);
        self.lemma_lowest_free(d);
        assert forall|v: int| v != unit implies self.is_set(d, v) == self.is_set(disk, v) by {}
        match self.lowest_free(disk) {
            Some(l) => {
                assert(self.is_lowest_free(disk, l));
                if l < unit {
                    assert forall|v: int| 0 <= v < l implies self.is_set(d, v) by {
                        assert(self.is_set(disk, v));
                    }
                    assert(self.is_lowest_free(d, l));
                } else {
                    assert forall|v: int| 0 <= v < unit implies self.is_set(d, v) by {
                        assert(self.is_set(disk, v));
                    }
                    assert(self.is_lowest_free(d, unit));
                }
            },
            None => {
                assert(self.full(disk));
                assert forall|v: int| 0 <= v < unit implies self.is_set(d, v) by {
                    assert(self.is_set(disk, v));
                }
                assert(self.is_lowest_free(d, unit));
            },
        }
    }

    /// The count of free units is not negative and grows with the range.
    pub proof fn lemma_free_below_grows(&self, disk: Seq<Seq<u8>>, m: int, n: int)
        requires
            m <= n,
        ensures
            0 <= self.free_below(disk, m) <= self.free_below(disk, n),
            self.free_below(disk, n) <= (if n < 0 {
                0
            } else {
                n
            }),
        decreases n - m, n,
    {
        if m < n {
            self.lemma_free_below_grows(disk, m, n - 1);
            if n > 0 {
                self.lemma_free_below_grows(disk, n - 1, n - 1);
            }
        } else if m > 0 {
            self.lemma_free_below_grows(disk, m - 1, m - 1);
        }
    }

    /// Two disks on which the first `n` units are allocated alike have as
    /// many free units among them.
    pub proof fn lemma_free_below_same(&self, disk: Seq<Seq<u8>>, later: Seq<Seq<u8>>, n: int)
        requires
            forall|v: int| 0 <= v < n ==> self.is_set(later, v) == self.is_set(disk, v),
        ensures
            self.free_below(later, n) == self.free_below(disk, n),
        decreases n,
    {
        if n > 0 {
            self.lemma_free_below_same(disk, later, n - 1);
        }
    }

    /// Where only the allocation of `unit` differs between two disks, the
    /// counts of free units differ by that one.
    pub proof fn lemma_free_below_flip(
        &self,
        disk: Seq<Seq<u8>>,
        later: Seq<Seq<u8>>,
        unit: int,
        n: int,
    )
        requires
            0 <= unit,
            forall|v: int| 0 <= v < n && v != unit ==> self.is_set(later, v) == self.is_set(disk, v),
        ensures
            self.free_below(later, n) == self.free_below(disk, n) + (if unit < n && self.is_set(
                disk,
                unit,
            ) && !self.is_set(later, unit) {
                1int
            } else if unit < n && !self.is_set(disk, unit) && self.is_set(later, unit) {
                -1int
            } else {
                0int
            }),
        decreases n,
    {
        if n > 0 {
            self.lemma_free_below_flip(disk, later, unit, n - 1);
        }
    }

    /// While a unit among the first `n` is free, the lowest free unit is among
    /// them.
    pub proof fn lemma_free_below_some(&self, disk: Seq<Seq<u8>>, n: int)
        requires
            0 <= n <= self.capacity(),
            self.free_below(disk, n) > 0,
        ensures
            self.lowest_free(disk) is Some,
            self.lowest_free(disk).unwrap() < n,
        decreases n,
    {
        if n > 0 {
            if self.is_set(disk, n - 1) {
                self.lemma_free_below_some(disk, n - 1);
            } else {
                self.lemma_lowest_below(disk, n - 1);
                self.lemma_lowest_free(disk);
            }
        }
    }

    /// A bitmap over `blocks` blocks from block `start_block_id` on.
    pub fn new(start_block_id: usize, blocks: usize) -> (bm: Bitmap)
        ensures
            bm.start() == start_block_id,
            bm.block_count() == blocks,
    {
        Bitmap { start_block_id, blocks }
    }

    /// The first free word of a block and the first free bit in it.
    fn scan_block(block: &Vec<u8>) -> (r: Option<(usize, usize)>)
        requires
            block@.len() == BLOCK_SZ,
        ensures
            match r {
                Some((w, k)) => {
                    &&& w < 64
                    &&& k < 64
                    &&& !block_bit(block@, w as int, k as int)
                    &&& forall|j: int| 0 <= j < k ==> #[trigger] block_bit(block@, w as int, j)
                    &&& forall|i: int, j: int|
                        0 <= i < w && 0 <= j < 64 ==> #[trigger] block_bit(block@, i, j)
                },
                None => forall|i: int, j: int|
                    0 <= i < 64 && 0 <= j < 64 ==> #[trigger] block_bit(block@, i, j),
            },
    {
        let mut w: usize = 0;
        while w < 64
            invariant
                w <= 64,
                block@.len() == BLOCK_SZ,
                forall|i: int, j: int|
                    0 <= i < w && 0 <= j < 64 ==> #[trigger] block_bit(block@, i, j),
            decreases 64 - w,
        {
            let word = u64_from_le_bytes(slice_subrange(block.as_slice(), w * 8, w * 8 + 8));
            if word != u64::MAX {
                let ones = word.trailing_ones();
                proof {
                    axiom_u64_trailing_ones(word);
                    assert forall|j: int| 0 <= j < ones implies block_bit(block@, w as int, j) by {
                        let jj = j as u64;
                        assert((word >> jj) & 1u64 == 1u64);
                    }
                }
                return Some((w, ones as usize));
            }
            proof {
                assert forall|j: int| 0 <= j < 64 implies block_bit(block@, w as int, j) by {
                    lemma_full_word(word, j);
                }
            }
            w += 1;
        }
        None
    }

    /// The free unit of lowest index, if any unit is free. Nothing is
    /// allocated.
    pub fn first_free<D: BlockDevice>(&self, cache: &mut BlockCacheManager<D>) -> (r: Option<
        usize,
    >)
        requires
            old(cache).ready(),
            self.fits(old(cache).disk()),
        ensures
            old(cache).accessed(final(cache)),
            final(cache).disk() == old(cache).disk(),
            match r {
                Some(u) => self.lowest_free(old(cache).disk()) == Some(u as int),
                None => self.lowest_free(old(cache).disk()) is None,
            },
    {
        let ghost disk = cache.disk();
        let mut block_id: usize = 0;
        while block_id < self.blocks
            invariant
                block_id <= self.blocks,
                self.fits(disk),
                cache.ready(),
                cache.disk() == disk,
                disk == old(cache).disk(),
                old(cache).accessed(cache),
                forall|v: int| 0 <= v < block_id * 4096 ==> self.is_set(disk, v),
            decreases self.blocks - block_id,
        {
            let block = cache.read(block_id + self.start_block_id, 0, BLOCK_SZ);
            proof {
                assert(block@ =~= disk[self.start() + block_id]);
            }
            match Self::scan_block(&block) {
                Some((w, k)) => {
                    let unit = block_id * BLOCK_BITS + w * 64 + k;
                    proof {
                        lemma_compose(block_id as int, w as int, k as int);
                        assert forall|v: int| 0 <= v < unit implies self.is_set(disk, v) by {
                            if v >= block_id * 4096 {
                                let i = (v % 4096) / 64;
                                let j = v % 64;
                                lemma_parts(v);
                                assert(v / 4096 == block_id);
                                assert(v == block_id * 4096 + i * 64 + j);
                                assert(v < self.capacity());
                                assert(disk[self.start() + v / 4096] == block@);
                                assert(self.is_set(disk, v) == block_bit(block@, i, j));
                                if i < w {
                                    assert(block_bit(block@, i, j));
                                } else {
                                    assert(i == w && j < k);
                                }
                            }
                        }
                        assert(self.is_lowest_free(disk, unit as int));
                        self.lemma_lowest_free(disk);
                    }
                    return Some(unit);
                },
                None => {
                    proof {
                        assert forall|v: int| 0 <= v < (block_id + 1) * 4096 implies self.is_set(
                            disk,
                            v,
                        ) by {
                            if v >= block_id * 4096 {
                                let i = (v % 4096) / 64;
                                let j = v % 64;
                                assert(v / 4096 == block_id);
                                assert(block_bit(block@, i, j));
                            }
                        }
                    }
                },
            }
            block_id += 1;
        }
        proof {
            assert(self.full(disk));
            self.lemma_lowest_free(disk);
        }
        None
    }

    /// Whether at least `want` of the first `limit` units are free.
    pub fn free_at_least<D: BlockDevice>(
        &self,
        cache: &mut BlockCacheManager<D>,
        limit: usize,
        want: usize,
    ) -> (r: bool)
        requires
            old(cache).ready(),
            self.fits(old(cache).disk()),
            limit <= self.capacity(),
        ensures
            old(cache).accessed(final(cache)),
            final(cache).disk() == old(cache).disk(),
            r == (self.free_below(old(cache).disk(), limit as int) >= want),
    {
        let ghost disk = cache.disk();
        if want == 0 {
            proof {
                self.lemma_free_below_grows(disk, limit as int, limit as int);
            }
            return true;
        }
        let mut count: usize = 0;
        let mut unit: usize = 0;
        while unit < limit
            invariant
                unit <= limit,
                limit <= self.capacity(),
                self.fits(disk),
                cache.ready(),
                cache.disk() == disk,
                disk == old(cache).disk(),
                old(cache).accessed(cache),
                count == self.free_below(disk, unit as int),
                count < want,
            decreases limit - unit,
        {
            let block_pos = unit / BLOCK_BITS;
            let block = cache.read(block_pos + self.start_block_id, 0, BLOCK_SZ);
            proof {
                assert(block@ =~= disk[self.start() + block_pos]);
            }
            let stop = if limit - unit < BLOCK_BITS - unit % BLOCK_BITS {
                limit
            } else {
                unit + (BLOCK_BITS - unit % BLOCK_BITS)
            };
            while unit < stop
                invariant
                    unit <= stop <= limit,
                    limit <= self.capacity(),
                    self.fits(disk),
                    cache.ready(),
                    cache.disk() == disk,
                    disk == old(cache).disk(),
                    old(cache).accessed(cache),
                    block@ == disk[self.start() + block_pos],
                    block@.len() == BLOCK_SZ,
                    unit < stop ==> unit / 4096 == block_pos,
                    stop <= (block_pos + 1) * 4096,
                    count == self.free_below(disk, unit as int),
                    count < want,
                decreases stop - unit,
            {
                let (_, w, k) = decomposition(unit);
                let word = u64_from_le_bytes(slice_subrange(block.as_slice(), w * 8, w * 8 + 8));
                let set = (word >> (k as u64)) & 1u64 == 1u64;
                proof {
                    assert(set == self.is_set(disk, unit as int));
                    self.lemma_free_below_grows(disk, unit as int, unit as int);
                }
                if !set {
                    count += 1;
                    if count >= want {
                        proof {
                            self.lemma_free_below_grows(disk, unit + 1, limit as int);
                        }
                        return true;
                    }
                }
                unit += 1;
                proof {
                    if unit < stop {
                        lemma_parts(unit as int);
                    }
                }
            }
        }
        false
    }

    /// Whether unit `unit` is allocated.
    pub fn is_allocated<D: BlockDevice>(&self, cache: &mut BlockCacheManager<D>, unit: usize) -> (r:
        bool)
        requires
            old(cache).ready(),
            self.fits(old(cache).disk()),
        ensures
            old(cache).accessed(final(cache)),
            final(cache).disk() == old(cache).disk(),
            r == self.is_set(old(cache).disk(), unit as int),
    {
        if unit / BLOCK_BITS >= self.blocks {
            return false;
        }
        let (block_pos, bits64_pos, inner_pos) = decomposition(unit);
        let bytes = cache.read(block_pos + self.start_block_id, bits64_pos * 8, 8);
        let word = u64_from_le_bytes(bytes.as_slice());
        (word >> (inner_pos as u64)) & 1u64 == 1u64
    }

    /// Sets the bit of `unit` to `value`.
    pub fn set<D: BlockDevice>(&self, cache: &mut BlockCacheManager<D>, unit: usize, value: bool)
        requires
            old(cache).ready(),
            self.fits(old(cache).disk()),
            unit < self.capacity(),
        ensures
            old(cache).accessed(final(cache)),
            final(cache).disk() == self.with_bit(old(cache).disk(), unit as int, value),
    {
        let (block_pos, bits64_pos, inner_pos) = decomposition(unit);
        let block_id = block_pos + self.start_block_id;
        let bytes = cache.read(block_id, bits64_pos * 8, 8);
        let word = u64_from_le_bytes(bytes.as_slice());
        let mask = 1u64 << (inner_pos as u64);
        let new_word = if value {
            word | mask
        } else {
            word & !mask
        };
        let out = u64_to_le_bytes(new_word);
        cache.modify(block_id, bits64_pos * 8, out.as_slice());
    }

    /// Allocates the free unit of lowest index and returns it; returns
    /// nothing, and changes nothing, when every unit is allocated.
    pub fn allocate<D: BlockDevice>(&self, cache: &mut BlockCacheManager<D>) -> (r: Option<usize>)
        requires
            old(cache).ready(),
            self.fits(old(cache).disk()),
        ensures
            old(cache).accessed(final(cache)),
            match r {
                Some(u) => self.lowest_free(old(cache).disk()) == Some(u as int),
                None => self.lowest_free(old(cache).disk()) is None,
            },
            final(cache).disk() == self.after_alloc(old(cache).disk()),
            r is None <==> self.full(old(cache).disk()),
    {
        proof {
            self.lemma_lowest_free(cache.disk());
        }
        match self.first_free(cache) {
            Some(unit) => {
                self.set(cache, unit, true);
                Some(unit)
            },
            None => None,
        }
    }

    /// Frees unit `bit`. Freeing a unit that is not allocated is reported as
    /// `DoubleFree` and changes nothing.
    pub fn dealloc<D: BlockDevice>(&self, cache: &mut BlockCacheManager<D>, bit: usize) -> (r:
        Result<(), FsError>)
        requires
            old(cache).ready(),
            self.fits(old(cache).disk()),
        ensures
            old(cache).accessed(final(cache)),
            r is Err <==> !self.is_set(old(cache).disk(), bit as int),
            r is Err ==> r == Err::<(), FsError>(FsError::DoubleFree) && final(cache).disk() == old(
                cache,
            ).disk(),
            r is Ok ==> final(cache).disk() == self.with_bit(old(cache).disk(), bit as int, false),
    {
        if !self.is_allocated(cache, bit) {
            return Err(FsError::DoubleFree);
        }
        self.set(cache, bit, false);
        Ok(())
    }

    /// The number of units of the bitmap.
    pub fn maximum(&self) -> (n: usize)
        requires
            self.capacity() <= usize::MAX,
        ensures
            n == self.capacity(),
    {
        self.blocks * BLOCK_BITS
    }
}

} // verus!
