//! A bounded pool of in-memory copies of blocks, over one block device.
//!
//! The pool owns its entries. Whoever wants an entry to stay registers a pin
//! on it and takes the pin back when done; only an entry without pins is ever
//! evicted. What the pool and the device hold together is one logical disk:
//! a block is what its entry holds, and what the device holds where it has no
//! entry.

use crate::block_dev::BlockDevice;
use crate::codec::{disk_wf, splice};
use crate::error::FsError;
use crate::BLOCK_SZ;
use vstd::prelude::*;
use vstd::slice::{slice_subrange, slice_to_vec};

verus! {

/// The number of entries that the pool can hold.
pub const BLOCK_CACHE_SIZE: usize = 16;

/// The copy of one block in memory.
pub struct BlockCache {
    cache: [u8; BLOCK_SZ],
    block_id: usize,
    modified: bool,
    pins: usize,
}

impl BlockCache {
    /// The bytes of the copy.
    pub closed spec fn data(&self) -> Seq<u8> {
        self.cache@
    }

    /// The index of the block that the entry mirrors.
    pub closed spec fn id(&self) -> usize {
        self.block_id
    }

    /// Whether the copy was changed since it was last written to the device.
    pub closed spec fn dirty(&self) -> bool {
        self.modified
    }

    /// The number of pins registered on the entry.
    pub closed spec fn pin_count(&self) -> usize {
        self.pins
    }

    /// Loads block `block_id` from the device.
    pub fn new<D: BlockDevice>(block_id: usize, block_device: &D) -> (c: BlockCache)
        requires
            block_id < block_device.blocks().len(),
        ensures
            c.data() == block_device.blocks()[block_id as int],
            c.data().len() == BLOCK_SZ,
            c.id() == block_id,
            !c.dirty(),
            c.pin_count() == 0,
    {
        let mut cache = [0u8; BLOCK_SZ];
        block_device.read_block(block_id, &mut cache);
        BlockCache { cache, block_id, modified: false, pins: 0 }
    }

    /// The `len` bytes that start at `offset`.
    pub fn get_ref(&self, offset: usize, len: usize) -> (r: &[u8])
        requires
            offset + len <= BLOCK_SZ,
        ensures
            r@ == self.data().subrange(offset as int, offset + len),
    {
        slice_subrange(self.cache.as_slice(), offset, offset + len)
    }

    /// The `len` bytes that start at `offset`, to be changed in place. The
    /// copy is marked changed.
    pub fn get_mut(&mut self, offset: usize, len: usize) -> (r: &mut [u8])
        requires
            offset + len <= BLOCK_SZ,
        ensures
            r@ == old(self).data().subrange(offset as int, offset + len),
            final(r)@.len() == len ==> final(self).data() == splice(
                old(self).data(),
                offset as int,
                final(r)@,
            ),
            final(self).dirty(),
            final(self).id() == old(self).id(),
            final(self).pin_count() == old(self).pin_count(),
    {
        self.modified = true;
        let whole: &mut [u8] = &mut self.cache;
        let (_, rest) = whole.split_at_mut(offset);
        let (part, _) = rest.split_at_mut(len);
        part
    }

    /// A copy of the `len` bytes that start at `offset`.
    pub fn read(&self, offset: usize, len: usize) -> (r: Vec<u8>)
        requires
            offset + len <= BLOCK_SZ,
        ensures
            r@ == self.data().subrange(offset as int, offset + len),
    {
        slice_to_vec(self.get_ref(offset, len))
    }

    /// Writes `bytes` over the copy from `offset` on and marks it changed.
    pub fn modify(&mut self, offset: usize, bytes: &[u8])
        requires
            offset + bytes@.len() <= BLOCK_SZ,
        ensures
            final(self).data() == splice(old(self).data(), offset as int, bytes@),
            final(self).dirty(),
            final(self).id() == old(self).id(),
            final(self).pin_count() == old(self).pin_count(),
    {
        let n = bytes.len();
        let mut i: usize = 0;
        while i < n
            invariant
                i <= n,
                n == bytes@.len(),
                offset + n <= BLOCK_SZ,
                self.block_id == old(self).block_id,
                self.pins == old(self).pins,
                forall|k: int|
                    0 <= k < BLOCK_SZ ==> self.cache@[k] == (if offset <= k < offset + i {
                        bytes@[k - offset]
                    } else {
                        old(self).cache@[k]
                    }),
            decreases n - i,
        {
            self.cache[offset + i] = bytes[i];
            i += 1;
        }
        self.modified = true;
        assert(self.cache@ =~= splice(old(self).cache@, offset as int, bytes@));
    }

    /// Writes the copy back to the device if it was changed.
    pub fn sync<D: BlockDevice>(&mut self, block_device: &mut D)
        requires
            old(self).id() < old(block_device).blocks().len(),
        ensures
            !final(self).dirty(),
            final(self).data() == old(self).data(),
            final(self).id() == old(self).id(),
            final(self).pin_count() == old(self).pin_count(),
            final(block_device).blocks() == (if old(self).dirty() {
                old(block_device).blocks().update(old(self).id() as int, old(self).data())
            } else {
                old(block_device).blocks()
            }),
    {
        if self.modified {
            self.modified = false;
            block_device.write_block(self.block_id, self.cache.as_slice());
        }
    }
}

/// The pool of block copies, together with the device below it.
pub struct BlockCacheManager<D: BlockDevice> {
    dev: D,
    queue: Vec<BlockCache>,
}

impl<D: BlockDevice> BlockCacheManager<D> {
    /// The blocks as the device holds them now.
    pub closed spec fn device(&self) -> Seq<Seq<u8>> {
        self.dev.blocks()
    }

    /// The indices of the resident blocks, in the order of their admission.
    pub closed spec fn order(&self) -> Seq<usize> {
        Seq::new(self.queue@.len(), |i: int| self.queue@[i].block_id)
    }

    /// Whether block `block_id` has an entry in the pool.
    pub open spec fn resident(&self, block_id: usize) -> bool {
        self.order().contains(block_id)
    }

    spec fn index_of(&self, block_id: usize) -> Option<int> {
        if exists|i: int| 0 <= i < self.queue@.len() && self.queue@[i].block_id == block_id {
            Some(
                choose|i: int| 0 <= i < self.queue@.len() && self.queue@[i].block_id == block_id,
            )
        } else {
            None
        }
    }

    /// The number of pins on block `block_id`; zero where it is not resident.
    pub closed spec fn pins(&self, block_id: usize) -> nat {
        match self.index_of(block_id) {
            Some(i) => self.queue@[i].pins as nat,
            None => 0,
        }
    }

    /// The logical disk: each block as its entry holds it, or as the device
    /// holds it where it has no entry.
    pub closed spec fn disk(&self) -> Seq<Seq<u8>> {
        Seq::new(
            self.dev.blocks().len(),
            |b: int|
                match self.index_of(b as usize) {
                    Some(i) => self.queue@[i].cache@,
                    None => self.dev.blocks()[b],
                },
        )
    }

    /// The pool is well formed: it holds at most `BLOCK_CACHE_SIZE` entries,
    /// no block twice, only blocks of the device, and an unchanged entry
    /// equals its block on the device.
    pub closed spec fn inv(&self) -> bool {
        &&& self.queue@.len() <= BLOCK_CACHE_SIZE
        &&& self.dev.blocks().len() <= usize::MAX
        &&& forall|i: int|
            0 <= i < self.queue@.len() ==> (#[trigger] self.queue@[i]).block_id
                < self.dev.blocks().len()
        &&& forall|i: int, j: int|
            0 <= i < self.queue@.len() && 0 <= j < self.queue@.len() && i != j
                ==> self.queue@[i].block_id != self.queue@[j].block_id
        &&& forall|i: int|
            0 <= i < self.queue@.len() && !(#[trigger] self.queue@[i]).modified
                ==> self.queue@[i].cache@ == self.dev.blocks()[self.queue@[i].block_id as int]
    }

    /// Whether a block that is not resident can be admitted: the pool is not
    /// full, or some entry has no pin.
    pub open spec fn has_room(&self) -> bool {
        self.order().len() < BLOCK_CACHE_SIZE || exists|k: int|
            0 <= k < self.order().len() && self.pins(#[trigger] self.order()[k]) == 0
    }

    /// The position, in admission order, of the first entry without a pin.
    pub open spec fn victim(&self) -> int {
        choose|k: int|
            0 <= k < self.order().len() && self.pins(#[trigger] self.order()[k]) == 0 && forall|
                j: int,
            |
                0 <= j < k ==> self.pins(#[trigger] self.order()[j]) > 0
    }

    /// The pool is well formed and can admit a block.
    pub open spec fn ready(&self) -> bool {
        self.inv() && self.has_room()
    }

    /// Every block has the same number of pins in `self` and in `later`.
    pub open spec fn same_pins(&self, later: &Self) -> bool {
        forall|b: usize| self.pins(b) == later.pins(b)
    }

    /// `later` is what the pool and the device are after block `block_id` was
    /// looked up in `self`, and admitted where it was not resident: on a miss
    /// the block joins at the tail; on a miss in a full pool the first entry
    /// without a pin leaves before, and the device holds its content.
    pub open spec fn admits(&self, later: &Self, block_id: usize) -> bool {
        if self.resident(block_id) {
            later.order() == self.order() && later.device() == self.device()
        } else if self.order().len() < BLOCK_CACHE_SIZE {
            later.order() == self.order().push(block_id) && later.device() == self.device()
        } else {
            let k = self.victim();
            let out = self.order()[k] as int;
            later.order() == self.order().remove(k).push(block_id) && later.device()
                == self.device().update(out, self.disk()[out])
        }
    }

    /// `later` is reached from `self` by accesses to blocks: the pool is well
    /// formed, no pin was added or taken, the device has as many blocks, and
    /// the pool can admit a block exactly if it could before.
    pub open spec fn accessed(&self, later: &Self) -> bool {
        &&& later.inv()
        &&& self.same_pins(later)
        &&& later.has_room() == self.has_room()
        &&& later.disk().len() == self.disk().len()
    }

    /// The device holds all that the logical disk holds.
    pub open spec fn synced(&self) -> bool {
        self.device() == self.disk()
    }

    proof fn lemma_index_of(&self, i: int)
        requires
            self.inv(),
            0 <= i < self.queue@.len(),
        ensures
            self.index_of(self.queue@[i].block_id) == Some(i),
            self.order()[i] == self.queue@[i].block_id,
            self.pins(self.queue@[i].block_id) == self.queue@[i].pins,
            self.resident(self.queue@[i].block_id),
    {
        assert(self.order()[i] == self.queue@[i].block_id);
    }

    proof fn lemma_not_resident(&self, block_id: usize)
        requires
            forall|i: int| 0 <= i < self.queue@.len() ==> self.queue@[i].block_id != block_id,
        ensures
            self.index_of(block_id) is None,
            !self.resident(block_id),
            self.pins(block_id) == 0,
    {
    }

    /// The pool never holds more than `BLOCK_CACHE_SIZE` entries, and the
    /// logical disk has the blocks of the device.
    pub proof fn lemma_bounded(&self)
        requires
            self.inv(),
        ensures
            self.order().len() <= BLOCK_CACHE_SIZE,
            self.order().no_duplicates(),
            self.disk().len() == self.device().len(),
            self.disk().len() <= usize::MAX,
            forall|b: usize| self.pins(b) > 0 ==> self.resident(b),
    {
        assert forall|b: usize| self.pins(b) > 0 implies self.resident(b) by {
            let i = self.index_of(b).unwrap();
            assert(self.order()[i] == b);
        }
    }

    /// Accesses to blocks evict no block that has a pin: such a block is
    /// resident afterwards, with the pins that it had.
    pub proof fn lemma_pinned_stay(&self, later: &Self, block_id: usize)
        requires
            self.inv(),
            self.accessed(later),
            self.pins(block_id) > 0,
        ensures
            later.resident(block_id),
            later.pins(block_id) == self.pins(block_id),
            later.order().len() <= BLOCK_CACHE_SIZE,
    {
        later.lemma_bounded();
    }

    /// Every block of the logical disk has `BLOCK_SZ` bytes.
    pub proof fn lemma_disk_wf(&self)
        requires
            self.inv(),
        ensures
            disk_wf(self.disk()),
            disk_wf(self.device()),
    {
        self.dev.lemma_block_size();
    }

    /// A block without an entry is on the logical disk what it is on the
    /// device.
    pub proof fn lemma_disk_of_absent(&self, block_id: usize)
        requires
            self.inv(),
            block_id < self.disk().len(),
            !self.resident(block_id),
        ensures
            self.disk()[block_id as int] == self.device()[block_id as int],
    {
        if self.index_of(block_id) is Some {
            let i = self.index_of(block_id).unwrap();
            assert(self.order()[i] == block_id);
        }
    }

    /// An empty pool over `dev`.
    pub fn new(dev: D) -> (m: Self)
        requires
            dev.blocks().len() <= usize::MAX,
        ensures
            m.inv(),
            m.has_room(),
            m.order() == Seq::<usize>::empty(),
            m.disk() == dev.blocks(),
            m.device() == dev.blocks(),
            forall|b: usize| m.pins(b) == 0,
    {
        let m = BlockCacheManager { dev, queue: Vec::new() };
        proof {
            assert(m.order() =~= Seq::<usize>::empty());
            assert(m.disk() =~= dev.blocks());
        }
        m
    }

    /// Gives the device back, after writing every changed entry to it.
    pub fn into_device(self) -> (dev: D)
        requires
            self.inv(),
        ensures
            dev.blocks() == self.disk(),
    {
        let mut m = self;
        m.sync_all();
        m.dev
    }

    fn position(&self, block_id: usize) -> (r: Option<usize>)
        requires
            self.inv(),
        ensures
            match r {
                Some(i) => i < self.queue@.len() && self.queue@[i as int].block_id == block_id,
                None => forall|i: int|
                    0 <= i < self.queue@.len() ==> self.queue@[i].block_id != block_id,
            },
            r is Some <==> self.resident(block_id),
    {
        let mut i: usize = 0;
        while i < self.queue.len()
            invariant
                self.inv(),
                i <= self.queue@.len(),
                forall|k: int| 0 <= k < i ==> self.queue@[k].block_id != block_id,
            decreases self.queue@.len() - i,
        {
            if self.queue[i].block_id == block_id {
                proof {
                    self.lemma_index_of(i as int);
                }
                return Some(i);
            }
            i += 1;
        }
        proof {
            self.lemma_not_resident(block_id);
        }
        None
    }

    fn first_unpinned(&self) -> (r: Option<usize>)
        requires
            self.inv(),
        ensures
            match r {
                Some(k) => k < self.queue@.len() && self.queue@[k as int].pins == 0 && k
                    == self.victim(),
                None => forall|i: int| 0 <= i < self.queue@.len() ==> self.queue@[i].pins > 0,
            },
            r is Some <==> exists|k: int|
                0 <= k < self.order().len() && self.pins(#[trigger] self.order()[k]) == 0,
    {
        let mut i: usize = 0;
        while i < self.queue.len()
            invariant
                self.inv(),
                i <= self.queue@.len(),
                forall|k: int| 0 <= k < i ==> self.queue@[k].pins > 0,
            decreases self.queue@.len() - i,
        {
            if self.queue[i].pins == 0 {
                proof {
                    self.lemma_index_of(i as int);
                    assert forall|j: int| 0 <= j < i implies self.pins(
                        #[trigger] self.order()[j],
                    ) > 0 by {
                        self.lemma_index_of(j);
                    }
                    let v = self.victim();
                    self.lemma_index_of(v);
                    assert(v == i);
                }
                return Some(i);
            }
            i += 1;
        }
        proof {
            assert forall|k: int| 0 <= k < self.order().len() implies self.pins(
                #[trigger] self.order()[k],
            ) != 0 by {
                self.lemma_index_of(k);
            }
        }
        None
    }

    /// Takes entry `k`, which has no pin, out of the pool, writing it to the
    /// device if it was changed.
    fn evict(&mut self, k: usize)
        requires
            old(self).inv(),
            k < old(self).queue@.len(),
            old(self).queue@[k as int].pins == 0,
        ensures
            final(self).inv(),
            final(self).queue@.len() == old(self).queue@.len() - 1,
            final(self).order() == old(self).order().remove(k as int),
            final(self).disk() == old(self).disk(),
            final(self).device() == old(self).device().update(
                old(self).order()[k as int] as int,
                old(self).disk()[old(self).order()[k as int] as int],
            ),
            old(self).same_pins(final(self)),
            forall|i: int|
                0 <= i < final(self).queue@.len() ==> final(self).queue@[i].block_id != old(
                    self,
                ).queue@[k as int].block_id,
            forall|b: usize|
                #![trigger final(self).index_of(b)]
                old(self).index_of(b) is None ==> final(self).index_of(b) is None,
    {
        let ghost before = *self;
        let mut out = self.queue.remove(k);
        proof {
            before.lemma_index_of(k as int);
        }
        out.sync(&mut self.dev);
        proof {
            let mid = *self;
            assert(mid.queue@ == before.queue@.remove(k as int));
            assert forall|i: int| 0 <= i < mid.queue@.len() implies mid.queue@[i]
                == before.queue@[if i < k { i } else { i + 1 }] by {}
            assert(mid.inv()) by {
                assert forall|i: int|
                    0 <= i < mid.queue@.len() && !(#[trigger] mid.queue@[i]).modified
                    implies mid.queue@[i].cache@
                    == mid.dev.blocks()[mid.queue@[i].block_id as int] by {
                    let i0 = if i < k { i } else { i + 1 };
                    assert(mid.queue@[i] == before.queue@[i0]);
                    assert(before.queue@[i0].block_id != before.queue@[k as int].block_id);
                }
                assert forall|i: int, j: int|
                    0 <= i < mid.queue@.len() && 0 <= j < mid.queue@.len() && i != j
                    implies mid.queue@[i].block_id != mid.queue@[j].block_id by {
                    let i0 = if i < k { i } else { i + 1 };
                    let j0 = if j < k { j } else { j + 1 };
                    assert(mid.queue@[i] == before.queue@[i0]);
                    assert(mid.queue@[j] == before.queue@[j0]);
                }
                assert forall|i: int| 0 <= i < mid.queue@.len() implies (
                #[trigger] mid.queue@[i]).block_id < mid.dev.blocks().len() by {
                    let i0 = if i < k { i } else { i + 1 };
                    assert(mid.queue@[i] == before.queue@[i0]);
                }
            }
            assert(mid.order() =~= before.order().remove(k as int));
            lemma_evicted(before, mid, k as int);
            assert forall|b: usize| before.index_of(b) is None implies mid.index_of(
                b,
            ) is None by {
                if mid.index_of(b) is Some {
                    let i = mid.index_of(b).unwrap();
                    let i0 = if i < k { i } else { i + 1 };
                    assert(mid.queue@[i] == before.queue@[i0]);
                }
            }
        }
    }

    /// Loads block `block_id`, which is not resident, into a pool that is not
    /// full.
    fn load(&mut self, block_id: usize) -> (i: usize)
        requires
            old(self).inv(),
            old(self).queue@.len() < BLOCK_CACHE_SIZE,
            block_id < old(self).disk().len(),
            forall|i: int|
                0 <= i < old(self).queue@.len() ==> old(self).queue@[i].block_id != block_id,
        ensures
            final(self).inv(),
            i < final(self).queue@.len(),
            final(self).queue@[i as int].block_id == block_id,
            final(self).queue@[i as int].cache@ == old(self).disk()[block_id as int],
            final(self).queue@[i as int].cache@.len() == BLOCK_SZ,
            final(self).order() == old(self).order().push(block_id),
            final(self).disk() == old(self).disk(),
            final(self).device() == old(self).device(),
            old(self).same_pins(final(self)),
            final(self).has_room(),
    {
        let ghost mid = *self;
        let entry = BlockCache::new(block_id, &self.dev);
        proof {
            mid.lemma_not_resident(block_id);
            mid.lemma_disk_of_absent(block_id);
        }
        self.queue.push(entry);
        let i = self.queue.len() - 1;
        proof {
            let fin = *self;
            assert(fin.queue@ == mid.queue@.push(entry));
            assert forall|a: int| 0 <= a < mid.queue@.len() implies fin.queue@[a]
                == mid.queue@[a] by {}
            assert(fin.inv());
            fin.lemma_index_of(i as int);
            assert(fin.order() =~= mid.order().push(block_id));
            lemma_admitted(mid, fin, block_id);
            assert(fin.pins(fin.order()[i as int]) == 0);
        }
        i
    }

    /// Finds the entry of `block_id`, admitting the block where it has none.
    fn fetch(&mut self, block_id: usize) -> (r: Option<usize>)
        requires
            old(self).inv(),
            block_id < old(self).disk().len(),
        ensures
            r is None <==> !old(self).resident(block_id) && !old(self).has_room(),
            r is None ==> *final(self) == *old(self),
            match r {
                Some(i) => {
                    &&& final(self).inv()
                    &&& i < final(self).queue@.len()
                    &&& final(self).queue@[i as int].block_id == block_id
                    &&& final(self).queue@[i as int].cache@ == old(self).disk()[block_id as int]
                    &&& final(self).queue@[i as int].cache@.len() == BLOCK_SZ
                    &&& old(self).admits(final(self), block_id)
                    &&& final(self).disk() == old(self).disk()
                    &&& old(self).same_pins(final(self))
                    &&& final(self).has_room() == old(self).has_room()
                    &&& final(self).disk().len() == old(self).disk().len()
                },
                None => true,
            },
    {
        proof {
            self.lemma_bounded();
        }
        match self.position(block_id) {
            Some(i) => {
                proof {
                    self.lemma_index_of(i as int);
                }
                return Some(i);
            },
            None => {},
        }
        proof {
            self.lemma_not_resident(block_id);
        }
        if self.queue.len() == BLOCK_CACHE_SIZE {
            match self.first_unpinned() {
                Some(k) => {
                    self.evict(k);
                    proof {
                        assert(self.index_of(block_id) is None);
                    }
                },
                None => {
                    return None;
                },
            }
        }
        let i = self.load(block_id);
        Some(i)
    }

    /// Looks block `block_id` up, admits it where it is not resident, and
    /// registers one more pin on it. The pin keeps the entry in the pool until
    /// `release` takes it back.
    ///
    /// The call fails exactly when the block is not resident, the pool is
    /// full and every entry is pinned; nothing has changed then.
    pub fn get_block_cache(&mut self, block_id: usize) -> (r: Result<(), FsError>)
        requires
            old(self).inv(),
            block_id < old(self).disk().len(),
            old(self).pins(block_id) < usize::MAX,
        ensures
            r is Err <==> !old(self).resident(block_id) && !old(self).has_room(),
            r is Err ==> r == Err::<(), FsError>(FsError::CacheExhausted) && *final(self) == *old(
                self,
            ),
            r is Ok ==> {
                &&& final(self).inv()
                &&& old(self).admits(final(self), block_id)
                &&& final(self).disk() == old(self).disk()
                &&& final(self).resident(block_id)
                &&& final(self).pins(block_id) == old(self).pins(block_id) + 1
                &&& forall|b: usize| b != block_id ==> final(self).pins(b) == old(self).pins(b)
                &&& forall|b: usize| old(self).pins(b) > 0 ==> final(self).resident(b)
            },
    {
        match self.fetch(block_id) {
            None => Err(FsError::CacheExhausted),
            Some(i) => {
                let ghost mid = *self;
                proof {
                    mid.lemma_index_of(i as int);
                }
                self.queue[i].pins = self.queue[i].pins + 1;
                proof {
                    let fin = *self;
                    assert(fin.queue@ == mid.queue@.update(i as int, fin.queue@[i as int]));
                    lemma_same_but_pins(mid, fin, i as int);
                    fin.lemma_index_of(i as int);
                    assert forall|b: usize| old(self).pins(b) > 0 implies fin.resident(b) by {
                        if b != block_id {
                            fin.lemma_bounded();
                        }
                    }
                }
                Ok(())
            },
        }
    }

    /// Takes one pin on block `block_id` back. Where the block has no pin,
    /// nothing changes.
    pub fn release(&mut self, block_id: usize)
        requires
            old(self).inv(),
        ensures
            final(self).inv(),
            final(self).disk() == old(self).disk(),
            final(self).device() == old(self).device(),
            final(self).order() == old(self).order(),
            final(self).pins(block_id) == (if old(self).pins(block_id) > 0 {
                old(self).pins(block_id) - 1
            } else {
                0
            }),
            forall|b: usize| b != block_id ==> final(self).pins(b) == old(self).pins(b),
    {
        match self.position(block_id) {
            None => {
                proof {
                    self.lemma_not_resident(block_id);
                }
            },
            Some(i) => {
                let ghost mid = *self;
                proof {
                    mid.lemma_index_of(i as int);
                }
                if self.queue[i].pins > 0 {
                    self.queue[i].pins = self.queue[i].pins - 1;
                    proof {
                        let fin = *self;
                        assert(fin.queue@ == mid.queue@.update(i as int, fin.queue@[i as int]));
                        lemma_same_but_pins(mid, fin, i as int);
                        fin.lemma_index_of(i as int);
                    }
                }
            },
        }
    }

    /// Whether a block that is not resident can be admitted.
    pub fn can_admit(&self) -> (r: bool)
        requires
            self.inv(),
        ensures
            r == self.has_room(),
    {
        proof {
            self.lemma_bounded();
        }
        if self.queue.len() < BLOCK_CACHE_SIZE {
            return true;
        }
        self.first_unpinned().is_some()
    }

    /// Whether block `block_id` has an entry in the pool.
    pub fn is_resident(&self, block_id: usize) -> (r: bool)
        requires
            self.inv(),
        ensures
            r == self.resident(block_id),
    {
        self.position(block_id).is_some()
    }

    /// A copy of `len` bytes of block `block_id`, from `offset` on. The block
    /// is admitted where it is not resident; no pin is left on it.
    pub fn read(&mut self, block_id: usize, offset: usize, len: usize) -> (r: Vec<u8>)
        requires
            old(self).inv(),
            old(self).resident(block_id) || old(self).has_room(),
            block_id < old(self).disk().len(),
            offset + len <= BLOCK_SZ,
        ensures
            old(self).accessed(final(self)),
            old(self).admits(final(self), block_id),
            final(self).disk() == old(self).disk(),
            r@ == old(self).disk()[block_id as int].subrange(offset as int, offset + len),
            old(self).disk()[block_id as int].len() == BLOCK_SZ,
    {
        match self.fetch(block_id) {
            Some(i) => self.queue[i].read(offset, len),
            None => Vec::new(),
        }
    }

    /// Writes `bytes` into block `block_id` from `offset` on. The block is
    /// admitted where it is not resident; no pin is left on it. The device is
    /// not written before the entry is evicted or synced.
    pub fn modify(&mut self, block_id: usize, offset: usize, bytes: &[u8])
        requires
            old(self).inv(),
            old(self).resident(block_id) || old(self).has_room(),
            block_id < old(self).disk().len(),
            offset + bytes@.len() <= BLOCK_SZ,
        ensures
            old(self).accessed(final(self)),
            old(self).admits(final(self), block_id),
            final(self).disk() == old(self).disk().update(
                block_id as int,
                splice(old(self).disk()[block_id as int], offset as int, bytes@),
            ),
            old(self).disk()[block_id as int].len() == BLOCK_SZ,
    {
        match self.fetch(block_id) {
            Some(i) => {
                let ghost mid = *self;
                proof {
                    mid.lemma_index_of(i as int);
                }
                self.queue[i].modify(offset, bytes);
                proof {
                    let fin = *self;
                    assert(fin.queue@ == mid.queue@.update(i as int, fin.queue@[i as int]));
                    assert(fin.inv());
                    fin.lemma_index_of(i as int);
                    assert forall|b: usize| b != block_id implies fin.index_of(b) == mid.index_of(
                        b,
                    ) by {
                        if mid.index_of(b) is Some {
                            fin.lemma_index_of(mid.index_of(b).unwrap());
                        }
                        if fin.index_of(b) is Some {
                            mid.lemma_index_of(fin.index_of(b).unwrap());
                        }
                    }
                    assert(fin.order() =~= mid.order());
                    assert(fin.disk() =~= mid.disk().update(
                        block_id as int,
                        splice(mid.disk()[block_id as int], offset as int, bytes@),
                    ));
                    assert forall|b: usize| mid.pins(b) == fin.pins(b) by {}
                    lemma_has_room_same(mid, fin);
                }
            },
            None => {},
        }
    }

    /// Writes every changed entry to the device. Nothing is evicted.
    pub fn sync_all(&mut self)
        requires
            old(self).inv(),
        ensures
            old(self).accessed(final(self)),
            final(self).disk() == old(self).disk(),
            final(self).order() == old(self).order(),
            final(self).synced(),
    {
        let n = self.queue.len();
        let mut i: usize = 0;
        while i < n
            invariant
                i <= n,
                n == self.queue@.len(),
                self.inv(),
                self.queue@.len() == old(self).queue@.len(),
                self.dev.blocks().len() == old(self).dev.blocks().len(),
                forall|k: int|
                    0 <= k < n ==> (#[trigger] self.queue@[k]).block_id == old(
                        self,
                    ).queue@[k].block_id && self.queue@[k].cache@ == old(self).queue@[k].cache@
                        && self.queue@[k].pins == old(self).queue@[k].pins,
                forall|k: int| 0 <= k < i ==> !(#[trigger] self.queue@[k]).modified,
                forall|b: int|
                    0 <= b < self.dev.blocks().len() && self.index_of(b as usize) is None
                        ==> self.dev.blocks()[b] == old(self).dev.blocks()[b],
            decreases n - i,
        {
            let ghost mid = *self;
            proof {
                mid.lemma_index_of(i as int);
            }
            let mut entry = self.queue.remove(i);
            entry.sync(&mut self.dev);
            self.queue.insert(i, entry);
            proof {
                let fin = *self;
                assert(fin.queue@ =~= mid.queue@.update(i as int, entry));
                assert forall|b: usize| fin.index_of(b) is Some <==> mid.index_of(b) is Some by {
                    if mid.index_of(b) is Some {
                        let j = mid.index_of(b).unwrap();
                        assert(fin.queue@[j].block_id == b);
                    }
                    if fin.index_of(b) is Some {
                        let j = fin.index_of(b).unwrap();
                        assert(mid.queue@[j].block_id == b);
                    }
                }
                assert(fin.inv()) by {
                    assert forall|k: int|
                        0 <= k < fin.queue@.len() && !(#[trigger] fin.queue@[k]).modified
                        implies fin.queue@[k].cache@ == fin.dev.blocks()[fin.queue@[k].block_id as int] by {
                        if k != i {
                            assert(fin.queue@[k] == mid.queue@[k]);
                        }
                    }
                }
            }
            i += 1;
        }
        proof {
            let fin = *self;
            let was = *old(self);
            assert forall|b: usize| fin.index_of(b) is Some <==> was.index_of(b) is Some by {
                if was.index_of(b) is Some {
                    let j = was.index_of(b).unwrap();
                    assert(fin.queue@[j].block_id == b);
                }
                if fin.index_of(b) is Some {
                    let j = fin.index_of(b).unwrap();
                    assert(was.queue@[j].block_id == b);
                }
            }
            assert forall|b: usize| fin.index_of(b) is Some implies fin.queue@[fin.index_of(
                b,
            ).unwrap()].cache@ == was.queue@[was.index_of(b).unwrap()].cache@
                && fin.queue@[fin.index_of(b).unwrap()].pins == was.queue@[was.index_of(
                b,
            ).unwrap()].pins by {
                let j = fin.index_of(b).unwrap();
                assert(was.queue@[j].block_id == b);
                was.lemma_index_of(j);
            }
            assert(fin.order() =~= was.order());
            assert(fin.disk() =~= was.disk());
            assert(fin.dev.blocks() =~= fin.disk()) by {
                assert forall|b: int| 0 <= b < fin.dev.blocks().len() implies fin.dev.blocks()[b]
                    == fin.disk()[b] by {
                    if fin.index_of(b as usize) is Some {
                        let j = fin.index_of(b as usize).unwrap();
                        assert(!fin.queue@[j].modified);
                    }
                }
            }
            assert forall|b: usize| was.pins(b) == fin.pins(b) by {}
            lemma_has_room_same(was, fin);
        }
    }
}

/// What stays the same when entry `k`, without a pin, has left the pool and
/// its content is on the device.
proof fn lemma_evicted<D: BlockDevice>(a: BlockCacheManager<D>, b: BlockCacheManager<D>, k: int)
    requires
        a.inv(),
        b.inv(),
        0 <= k < a.queue@.len(),
        a.queue@[k].pins == 0,
        b.queue@ == a.queue@.remove(k),
        b.dev.blocks().len() == a.dev.blocks().len(),
        forall|x: int|
            0 <= x < a.dev.blocks().len() && x != a.queue@[k].block_id ==> b.dev.blocks()[x]
                == a.dev.blocks()[x],
        b.dev.blocks()[a.queue@[k].block_id as int] == a.queue@[k].cache@,
    ensures
        b.disk() == a.disk(),
        a.same_pins(&b),
        b.dev.blocks() == a.dev.blocks().update(
            a.queue@[k].block_id as int,
            a.disk()[a.queue@[k].block_id as int],
        ),
{
    let out = a.queue@[k].block_id;
    a.lemma_index_of(k);
    assert forall|i: int| 0 <= i < b.queue@.len() implies b.queue@[i] == a.queue@[if i < k {
        i
    } else {
        i + 1
    }] by {}
    assert forall|x: usize| x != out implies (a.index_of(x) is Some <==> b.index_of(x) is Some)
        && (a.index_of(x) is Some ==> a.queue@[a.index_of(x).unwrap()] == b.queue@[b.index_of(
        x,
    ).unwrap()]) by {
        if a.index_of(x) is Some {
            let i0 = a.index_of(x).unwrap();
            let i = if i0 < k { i0 } else { i0 - 1 };
            assert(b.queue@[i] == a.queue@[i0]);
            b.lemma_index_of(i);
        }
        if b.index_of(x) is Some {
            let i = b.index_of(x).unwrap();
            let i0 = if i < k { i } else { i + 1 };
            assert(b.queue@[i] == a.queue@[i0]);
            a.lemma_index_of(i0);
        }
    }
    assert(b.index_of(out) is None) by {
        if b.index_of(out) is Some {
            let i = b.index_of(out).unwrap();
            let i0 = if i < k { i } else { i + 1 };
            assert(b.queue@[i] == a.queue@[i0]);
        }
    }
    assert(b.disk() =~= a.disk());
    assert(b.dev.blocks() =~= a.dev.blocks().update(out as int, a.disk()[out as int]));
}

/// What stays the same when block `block_id` has joined at the tail.
proof fn lemma_admitted<D: BlockDevice>(
    a: BlockCacheManager<D>,
    b: BlockCacheManager<D>,
    block_id: usize,
)
    requires
        a.inv(),
        b.inv(),
        a.index_of(block_id) is None,
        block_id < a.dev.blocks().len(),
        b.queue@.len() == a.queue@.len() + 1,
        forall|i: int| 0 <= i < a.queue@.len() ==> b.queue@[i] == a.queue@[i],
        b.queue@[a.queue@.len() as int].block_id == block_id,
        b.queue@[a.queue@.len() as int].pins == 0,
        b.queue@[a.queue@.len() as int].cache@ == a.dev.blocks()[block_id as int],
        b.dev == a.dev,
    ensures
        b.disk() == a.disk(),
        a.same_pins(&b),
{
    b.lemma_index_of(a.queue@.len() as int);
    assert forall|x: usize| x != block_id implies (a.index_of(x) is Some <==> b.index_of(x) is Some)
        && (a.index_of(x) is Some ==> a.queue@[a.index_of(x).unwrap()] == b.queue@[b.index_of(
        x,
    ).unwrap()]) by {
        if a.index_of(x) is Some {
            let j = a.index_of(x).unwrap();
            assert(b.queue@[j] == a.queue@[j]);
            b.lemma_index_of(j);
        }
        if b.index_of(x) is Some {
            let j = b.index_of(x).unwrap();
            assert(b.queue@[j] == a.queue@[j]);
            a.lemma_index_of(j);
        }
    }
    assert(b.disk() =~= a.disk());
}

/// Two pools with the same order and the same pins can admit a block alike.
proof fn lemma_has_room_same<D: BlockDevice>(a: BlockCacheManager<D>, b: BlockCacheManager<D>)
    requires
        a.order() == b.order(),
        a.same_pins(&b),
    ensures
        a.has_room() == b.has_room(),
{
    if a.has_room() && a.order().len() >= BLOCK_CACHE_SIZE {
        let k = choose|k: int| 0 <= k < a.order().len() && a.pins(#[trigger] a.order()[k]) == 0;
        assert(b.pins(b.order()[k]) == 0);
    }
    if b.has_room() && b.order().len() >= BLOCK_CACHE_SIZE {
        let k = choose|k: int| 0 <= k < b.order().len() && b.pins(#[trigger] b.order()[k]) == 0;
        assert(a.pins(a.order()[k]) == 0);
    }
}

/// Changing the pins of entry `i` alone leaves the pool well formed, with the
/// same blocks, the same order and the same pins on every other block.
proof fn lemma_same_but_pins<D: BlockDevice>(
    a: BlockCacheManager<D>,
    b: BlockCacheManager<D>,
    i: int,
)
    requires
        a.inv(),
        0 <= i < a.queue@.len(),
        a.dev == b.dev,
        b.queue@ == a.queue@.update(i, b.queue@[i]),
        b.queue@[i].block_id == a.queue@[i].block_id,
        b.queue@[i].cache == a.queue@[i].cache,
        b.queue@[i].modified == a.queue@[i].modified,
    ensures
        b.inv(),
        b.disk() == a.disk(),
        b.device() == a.device(),
        b.order() == a.order(),
        forall|x: usize| x != a.queue@[i].block_id ==> b.pins(x) == a.pins(x),
        forall|x: usize| a.resident(x) <==> b.resident(x),
{
    assert(b.order() =~= a.order());
    assert forall|x: usize| a.index_of(x) == b.index_of(x) by {
        if a.index_of(x) is Some {
            b.lemma_index_of(a.index_of(x).unwrap());
        }
        if b.index_of(x) is Some {
            a.lemma_index_of(b.index_of(x).unwrap());
        }
    }
    assert(b.disk() =~= a.disk());
}

} // verus!
