//! The directory entry: a record of 32 bytes that binds a name to an inode.
//!
//! The first 28 bytes hold the name, padded with zero bytes; a name of more
//! than 27 bytes is cut after the 27th. The last four bytes hold the inode's
//! number, little-endian. The name of an entry is what stands before the
//! first zero byte of its name field.

use crate::codec::u32_at;
use vstd::bytes::{
    lemma_auto_spec_u32_to_from_le_bytes, spec_u32_to_le_bytes, u32_from_le_bytes,
    u32_to_le_bytes,
};
use vstd::prelude::*;
use vstd::slice::{slice_subrange, slice_to_vec};
use vstd::string::StringSliceAdditionalSpecFns;

verus! {

/// The largest number of bytes of a name.
pub const NAME_LENGTH_LIMIT: usize = 27;

/// The number of bytes of a directory entry.
pub const DIRENT_SZ: usize = 32;

/// A directory entry, as its 32 bytes.
pub struct DirEntry {
    raw: [u8; 32],
}

/// `n` is the number of bytes of `field` before its first zero byte, or its
/// length where it has none.
pub open spec fn is_name_len(field: Seq<u8>, n: int) -> bool {
    &&& 0 <= n <= field.len()
    &&& forall|i: int| 0 <= i < n ==> field[i] != 0
    &&& n < field.len() ==> field[n] == 0
}

/// The number of bytes of `field` before its first zero byte.
pub open spec fn name_len(field: Seq<u8>) -> int {
    choose|n: int| is_name_len(field, n)
}

/// The name that the entry `rec` holds.
pub open spec fn entry_name(rec: Seq<u8>) -> Seq<u8> {
    rec.subrange(0, name_len(rec.subrange(0, 28)))
}

/// The inode number that the entry `rec` holds.
pub open spec fn entry_inode(rec: Seq<u8>) -> u32 {
    u32_at(rec, 28)
}

/// The entry that binds `name` to `inode`.
pub open spec fn entry_bytes(name: Seq<u8>, inode: u32) -> Seq<u8> {
    Seq::new(
        32,
        |i: int|
            if i < 28 {
                if i < name.len() && i < 27 {
                    name[i]
                } else {
                    0u8
                }
            } else {
                spec_u32_to_le_bytes(inode)[i - 28]
            },
    )
}

/// Whether `name` can be stored and read back as it is: it has at most 27
/// bytes and no zero byte.
pub open spec fn storable(name: Seq<u8>) -> bool {
    name.len() <= 27 && forall|i: int| 0 <= i < name.len() ==> name[i] != 0
}

/// There is one length of a name field, and `name_len` is it.
pub proof fn lemma_name_len(field: Seq<u8>, n: int)
    requires
        is_name_len(field, n),
    ensures
        name_len(field) == n,
{
    let m = name_len(field);
    assert(is_name_len(field, m));
    if m < n {
        assert(field[m] != 0);
    } else if n < m {
        assert(field[n] != 0);
    }
}

/// An entry made of a storable name and an inode number holds that name and
/// that number.
pub proof fn lemma_entry_holds(name: Seq<u8>, inode: u32)
    requires
        storable(name),
    ensures
        entry_bytes(name, inode).len() == 32,
        entry_name(entry_bytes(name, inode)) == name,
        entry_inode(entry_bytes(name, inode)) == inode,
{
    let rec = entry_bytes(name, inode);
    let field = rec.subrange(0, 28);
    assert(is_name_len(field, name.len() as int));
    lemma_name_len(field, name.len() as int);
    assert(rec.subrange(0, name.len() as int) =~= name);
    lemma_auto_spec_u32_to_from_le_bytes();
    assert(rec.subrange(28, 32) =~= spec_u32_to_le_bytes(inode));
}

/// Whatever the name, an entry holds the inode number that it was made with.
pub proof fn lemma_entry_inode(name: Seq<u8>, inode: u32)
    ensures
        entry_bytes(name, inode).len() == 32,
        entry_inode(entry_bytes(name, inode)) == inode,
{
    let rec = entry_bytes(name, inode);
    lemma_auto_spec_u32_to_from_le_bytes();
    assert(rec.subrange(28, 32) =~= spec_u32_to_le_bytes(inode));
}

impl View for DirEntry {
    type V = Seq<u8>;

    closed spec fn view(&self) -> Seq<u8> {
        self.raw@
    }
}

impl DirEntry {
    /// The entry has 32 bytes.
    pub proof fn lemma_len(&self)
        ensures
            self@.len() == 32,
    {
    }

    /// An entry of zero bytes: the empty name, bound to inode 0.
    pub fn empty() -> (e: DirEntry)
        ensures
            e@ == Seq::new(32, |i: int| 0u8),
    {
        let e = DirEntry { raw: [0u8; 32] };
        assert(e.raw@ =~= Seq::new(32, |i: int| 0u8));
        e
    }

    /// The entry that binds `name` to `inode_id`.
    pub fn new(name: &str, inode_id: u32) -> (e: DirEntry)
        ensures
            e@ == entry_bytes(name.spec_bytes(), inode_id),
    {
        Self::from_name_bytes(name.as_bytes(), inode_id)
    }

    /// The entry that binds the name of bytes `name` to `inode_id`.
    pub fn from_name_bytes(name: &[u8], inode_id: u32) -> (e: DirEntry)
        ensures
            e@ == entry_bytes(name@, inode_id),
    {
        let mut raw = [0u8; 32];
        let n = if name.len() < NAME_LENGTH_LIMIT {
            name.len()
        } else {
            NAME_LENGTH_LIMIT
        };
        let mut i: usize = 0;
        while i < n
            invariant
                i <= n,
                n <= 27,
                n <= name@.len(),
                forall|k: int| 0 <= k < i ==> raw@[k] == name@[k],
                forall|k: int| i <= k < 32 ==> raw@[k] == 0,
            decreases n - i,
        {
            raw[i] = name[i];
            i += 1;
        }
        let id = u32_to_le_bytes(inode_id);
        let mut j: usize = 0;
        while j < 4
            invariant
                j <= 4,
                n <= 27,
                n <= name@.len(),
                id@ == spec_u32_to_le_bytes(inode_id),
                id@.len() == 4,
                forall|k: int| 0 <= k < n ==> raw@[k] == name@[k],
                forall|k: int| n <= k < 28 ==> raw@[k] == 0,
                forall|k: int| 28 <= k < 28 + j ==> raw@[k] == id@[k - 28],
            decreases 4 - j,
        {
            raw[28 + j] = id[j];
            j += 1;
        }
        assert(raw@ =~= entry_bytes(name@, inode_id));
        DirEntry { raw }
    }

    /// The bytes of the entry.
    pub fn as_bytes(&self) -> (r: &[u8])
        ensures
            r@ == self@,
            r@.len() == 32,
    {
        self.raw.as_slice()
    }

    /// The entry of the bytes `bytes`.
    pub fn from_bytes(bytes: &[u8]) -> (e: DirEntry)
        requires
            bytes@.len() == DIRENT_SZ,
        ensures
            e@ == bytes@,
    {
        let mut raw = [0u8; 32];
        let mut i: usize = 0;
        while i < 32
            invariant
                i <= 32,
                bytes@.len() == 32,
                forall|k: int| 0 <= k < i ==> raw@[k] == bytes@[k],
            decreases 32 - i,
        {
            raw[i] = bytes[i];
            i += 1;
        }
        assert(raw@ =~= bytes@);
        DirEntry { raw }
    }

    /// The number of bytes of the name.
    fn name_length(&self) -> (n: usize)
        ensures
            n <= 28,
            n == name_len(self@.subrange(0, 28)),
            is_name_len(self@.subrange(0, 28), n as int),
    {
        let mut n: usize = 0;
        while n < 28 && self.raw[n] != 0
            invariant
                n <= 28,
                forall|i: int| 0 <= i < n ==> self.raw@[i] != 0,
            decreases 28 - n,
        {
            n += 1;
        }
        proof {
            let field = self@.subrange(0, 28);
            assert(is_name_len(field, n as int));
            lemma_name_len(field, n as int);
        }
        n
    }

    /// The name of the entry.
    pub fn name(&self) -> (r: Vec<u8>)
        ensures
            r@ == entry_name(self@),
    {
        let n = self.name_length();
        slice_to_vec(slice_subrange(self.raw.as_slice(), 0, n))
    }

    /// Whether the name of the entry is `name`.
    pub fn name_is(&self, name: &[u8]) -> (r: bool)
        ensures
            r == (entry_name(self@) == name@),
    {
        let n = self.name_length();
        if name.len() != n {
            return false;
        }
        let mut i: usize = 0;
        while i < n
            invariant
                i <= n,
                n <= 28,
                n == name@.len(),
                n == name_len(self@.subrange(0, 28)),
                forall|k: int| 0 <= k < i ==> self.raw@[k] == name@[k],
            decreases n - i,
        {
            if self.raw[i] != name[i] {
                assert(entry_name(self@)[i as int] != name@[i as int]);
                return false;
            }
            i += 1;
        }
        assert(entry_name(self@) =~= name@);
        true
    }

    /// The inode number of the entry.
    pub fn inode_id(&self) -> (r: u32)
        ensures
            r == entry_inode(self@),
    {
        u32_from_le_bytes(slice_subrange(self.raw.as_slice(), 28, 32))
    }
}

/// An entry that was turned into bytes and back is the same entry.
pub proof fn lemma_bytes_round_trip(e: DirEntry, back: DirEntry, bytes: Seq<u8>)
    requires
        bytes == e@,
        back@ == bytes,
    ensures
        back@ == e@,
        entry_name(back@) == entry_name(e@),
        entry_inode(back@) == entry_inode(e@),
{
}

/// The entries that a directory of content `content` holds: its consecutive
/// records of 32 bytes.
pub open spec fn entries_of(content: Seq<u8>) -> Seq<Seq<u8>> {
    Seq::new((content.len() / 32) as nat, |k: int| content.subrange(32 * k, 32 * k + 32))
}

/// Entry `k` is the first of `entries` that has the name `name`.
pub open spec fn first_match(entries: Seq<Seq<u8>>, name: Seq<u8>, k: int) -> bool {
    &&& 0 <= k < entries.len()
    &&& entry_name(entries[k]) == name
    &&& forall|j: int| 0 <= j < k ==> entry_name(#[trigger] entries[j]) != name
}

/// Some entry of `entries` has the name `name`.
pub open spec fn has_name(entries: Seq<Seq<u8>>, name: Seq<u8>) -> bool {
    exists|k: int| 0 <= k < entries.len() && entry_name(#[trigger] entries[k]) == name
}

/// The number of entries among the first `n` of `entries` that are bound to
/// inode `id`.
pub open spec fn count_links(entries: Seq<Seq<u8>>, id: int, n: int) -> int
    decreases n,
{
    if n <= 0 {
        0
    } else {
        count_links(entries, id, n - 1) + (if entry_inode(entries[n - 1]) == id {
            1int
        } else {
            0int
        })
    }
}

/// The entries of a directory whose content ends with the record `rec`,
/// written where the last whole record ended: the entries that it had, and
/// `rec`.
pub proof fn lemma_appended(content: Seq<u8>, later: Seq<u8>, rec: Seq<u8>)
    requires
        rec.len() == 32,
        later.len() == 32 * (content.len() / 32) + 32,
        forall|i: int| 0 <= i < 32 * (content.len() / 32) ==> later[i] == content[i],
        forall|i: int| 32 * (content.len() / 32) <= i < later.len() ==> later[i] == rec[i - 32 * (
        content.len() / 32)],
    ensures
        entries_of(later) == entries_of(content).push(rec),
{
    let q = (content.len() / 32) as int;
    assert(later.len() / 32 == q + 1);
    assert forall|k: int| 0 <= k < q + 1 implies entries_of(later)[k] == entries_of(content).push(
        rec,
    )[k] by {
        if k < q {
            assert(later.subrange(32 * k, 32 * k + 32) =~= content.subrange(32 * k, 32 * k + 32));
        } else {
            assert(later.subrange(32 * k, 32 * k + 32) =~= rec);
        }
    }
    assert(entries_of(later) =~= entries_of(content).push(rec));
}

/// The entries of a directory after entry `k` was overwritten with the last
/// entry and the content shortened by one record: the entries that it had,
/// with the last in the place of entry `k`, and without the last.
pub proof fn lemma_removed(content: Seq<u8>, later: Seq<u8>, k: int)
    requires
        0 <= k < content.len() / 32,
        later.len() == content.len() - 32,
        forall|i: int|
            0 <= i < later.len() ==> later[i] == (if 32 * k <= i < 32 * k + 32 {
                content[32 * (content.len() / 32 - 1) + (i - 32 * k)]
            } else {
                content[i]
            }),
    ensures
        entries_of(later) == entries_of(content).update(k, entries_of(content).last()).drop_last(),
{
    let q = (content.len() / 32) as int;
    let had = entries_of(content);
    let want = had.update(k, had.last()).drop_last();
    assert(later.len() / 32 == q - 1);
    assert forall|j: int| 0 <= j < q - 1 implies entries_of(later)[j] == want[j] by {
        if j == k {
            assert(later.subrange(32 * j, 32 * j + 32) =~= content.subrange(
                32 * (q - 1),
                32 * (q - 1) + 32,
            ));
        } else {
            assert(later.subrange(32 * j, 32 * j + 32) =~= content.subrange(32 * j, 32 * j + 32));
        }
    }
    assert(entries_of(later) =~= want);
}

/// The count of links among the first entries does not depend on the
/// entries that follow.
pub proof fn lemma_count_links_prefix(a: Seq<Seq<u8>>, b: Seq<Seq<u8>>, id: int, n: int)
    requires
        n <= a.len(),
        n <= b.len(),
        forall|k: int| 0 <= k < n ==> a[k] == b[k],
    ensures
        count_links(a, id, n) == count_links(b, id, n),
    decreases n,
{
    if n > 0 {
        lemma_count_links_prefix(a, b, id, n - 1);
    }
}

/// One more entry bound to an inode is one more link to it, and no more
/// link to any other inode.
pub proof fn lemma_count_links_push(entries: Seq<Seq<u8>>, rec: Seq<u8>, id: int)
    ensures
        count_links(entries.push(rec), id, entries.len() as int + 1) == count_links(
            entries,
            id,
            entries.len() as int,
        ) + (if entry_inode(rec) == id {
            1int
        } else {
            0int
        }),
{
    lemma_count_links_prefix(entries.push(rec), entries, id, entries.len() as int);
}

/// After an entry was removed by putting the last entry in its place, there
/// is one entry less, and every other entry is still there, so that its name
/// is still found.
pub proof fn lemma_removed_keeps_others(entries: Seq<Seq<u8>>, k: int)
    requires
        0 <= k < entries.len(),
    ensures
        entries.update(k, entries.last()).drop_last().len() == entries.len() - 1,
        forall|j: int|
            0 <= j < entries.len() && j != k ==> has_name(
                entries.update(k, entries.last()).drop_last(),
                entry_name(#[trigger] entries[j]),
            ),
        forall|name: Seq<u8>|
            has_name(entries.update(k, entries.last()).drop_last(), name) ==> has_name(entries, name),
{
    let after = entries.update(k, entries.last()).drop_last();
    let n = entries.len() as int;
    assert forall|j: int| 0 <= j < n && j != k implies has_name(
        after,
        entry_name(#[trigger] entries[j]),
    ) by {
        if j == n - 1 {
            assert(after[k] == entries[j]);
        } else {
            assert(after[j] == entries[j]);
        }
    }
    assert forall|name: Seq<u8>| has_name(after, name) implies has_name(entries, name) by {
        let j = choose|j: int| 0 <= j < after.len() && entry_name(#[trigger] after[j]) == name;
        if j == k {
            assert(entry_name(entries[n - 1]) == name);
        } else {
            assert(entry_name(entries[j]) == name);
        }
    }
}

/// No two entries of `entries` have the same name.
pub open spec fn names_unique(entries: Seq<Seq<u8>>) -> bool {
    forall|i: int, j: int|
        0 <= i < j < entries.len() ==> entry_name(#[trigger] entries[i]) != entry_name(
            #[trigger] entries[j],
        )
}

/// Names stay unique when an entry is added whose name no entry has, and when
/// an entry is removed by putting the last entry in its place.
pub proof fn lemma_names_stay_unique(entries: Seq<Seq<u8>>, rec: Seq<u8>, k: int)
    requires
        names_unique(entries),
    ensures
        !has_name(entries, entry_name(rec)) ==> names_unique(entries.push(rec)),
        0 <= k < entries.len() ==> names_unique(entries.update(k, entries.last()).drop_last()),
{
    if !has_name(entries, entry_name(rec)) {
        let after = entries.push(rec);
        assert forall|i: int, j: int| 0 <= i < j < after.len() implies entry_name(
            #[trigger] after[i],
        ) != entry_name(#[trigger] after[j]) by {
            if j < entries.len() {
                assert(after[i] == entries[i] && after[j] == entries[j]);
            } else {
                assert(after[i] == entries[i]);
            }
        }
    }
    if 0 <= k < entries.len() {
        let after = entries.update(k, entries.last()).drop_last();
        let n = entries.len() as int;
        assert forall|i: int, j: int| 0 <= i < j < after.len() implies entry_name(
            #[trigger] after[i],
        ) != entry_name(#[trigger] after[j]) by {
            let i0 = if i == k {
                n - 1
            } else {
                i
            };
            let j0 = if j == k {
                n - 1
            } else {
                j
            };
            assert(after[i] == entries[i0] && after[j] == entries[j0]);
            if i0 < j0 {
                assert(entry_name(entries[i0]) != entry_name(entries[j0]));
            } else {
                assert(entry_name(entries[j0]) != entry_name(entries[i0]));
            }
        }
    }
}

} // verus!
