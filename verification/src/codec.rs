//! Integers and byte runs inside a block.

use vstd::bytes::{
    lemma_auto_spec_u32_to_from_le_bytes, lemma_auto_spec_u64_to_from_le_bytes,
    spec_u32_from_le_bytes, spec_u32_to_le_bytes, spec_u64_from_le_bytes, spec_u64_to_le_bytes,
};
use crate::BLOCK_SZ;
use vstd::prelude::*;

verus! {

/// Every block of `disk` has `BLOCK_SZ` bytes.
pub open spec fn disk_wf(disk: Seq<Seq<u8>>) -> bool {
    forall|b: int| 0 <= b < disk.len() ==> (#[trigger] disk[b]).len() == BLOCK_SZ
}

/// `block` with `bytes` written over it from position `off` on.
pub open spec fn splice(block: Seq<u8>, off: int, bytes: Seq<u8>) -> Seq<u8> {
    Seq::new(
        block.len(),
        |i: int|
            if off <= i < off + bytes.len() {
                bytes[i - off]
            } else {
                block[i]
            },
    )
}

/// The little-endian `u32` stored at `off`.
pub open spec fn u32_at(block: Seq<u8>, off: int) -> u32 {
    spec_u32_from_le_bytes(block.subrange(off, off + 4))
}

/// The little-endian `u64` stored at `off`.
pub open spec fn u64_at(block: Seq<u8>, off: int) -> u64 {
    spec_u64_from_le_bytes(block.subrange(off, off + 8))
}

/// `block` with `x` stored at `off` as a little-endian `u32`.
pub open spec fn put_u32(block: Seq<u8>, off: int, x: u32) -> Seq<u8> {
    splice(block, off, spec_u32_to_le_bytes(x))
}

/// `block` with `x` stored at `off` as a little-endian `u64`.
pub open spec fn put_u64(block: Seq<u8>, off: int, x: u64) -> Seq<u8> {
    splice(block, off, spec_u64_to_le_bytes(x))
}

/// A run that was written is read back.
pub proof fn lemma_splice_same(block: Seq<u8>, off: int, bytes: Seq<u8>)
    requires
        0 <= off,
        off + bytes.len() <= block.len(),
    ensures
        splice(block, off, bytes).subrange(off, off + bytes.len()) == bytes,
        splice(block, off, bytes).len() == block.len(),
{
    assert(splice(block, off, bytes).subrange(off, off + bytes.len()) =~= bytes);
}

/// A run that lies apart from what was written is unchanged.
pub proof fn lemma_splice_other(block: Seq<u8>, off: int, bytes: Seq<u8>, lo: int, hi: int)
    requires
        0 <= lo <= hi <= block.len(),
        hi <= off || off + bytes.len() <= lo,
    ensures
        splice(block, off, bytes).subrange(lo, hi) == block.subrange(lo, hi),
{
    assert(splice(block, off, bytes).subrange(lo, hi) =~= block.subrange(lo, hi));
}

/// Writing back what is already there changes nothing.
pub proof fn lemma_splice_noop(block: Seq<u8>, off: int, len: int)
    requires
        0 <= off,
        0 <= len,
        off + len <= block.len(),
    ensures
        splice(block, off, block.subrange(off, off + len)) == block,
{
    assert(splice(block, off, block.subrange(off, off + len)) =~= block);
}

/// A stored `u32` is read back.
pub proof fn lemma_put_get_u32(block: Seq<u8>, off: int, x: u32)
    requires
        0 <= off,
        off + 4 <= block.len(),
    ensures
        u32_at(put_u32(block, off, x), off) == x,
        put_u32(block, off, x).len() == block.len(),
{
    lemma_auto_spec_u32_to_from_le_bytes();
    lemma_splice_same(block, off, spec_u32_to_le_bytes(x));
}

/// A `u32` that lies apart from what was written is unchanged.
pub proof fn lemma_splice_keeps_u32(block: Seq<u8>, off: int, bytes: Seq<u8>, at: int)
    requires
        0 <= at,
        at + 4 <= block.len(),
        at + 4 <= off || off + bytes.len() <= at,
    ensures
        u32_at(splice(block, off, bytes), at) == u32_at(block, at),
{
    lemma_splice_other(block, off, bytes, at, at + 4);
}

/// A stored `u64` is read back.
pub proof fn lemma_put_get_u64(block: Seq<u8>, off: int, x: u64)
    requires
        0 <= off,
        off + 8 <= block.len(),
    ensures
        u64_at(put_u64(block, off, x), off) == x,
        put_u64(block, off, x).len() == block.len(),
{
    lemma_auto_spec_u64_to_from_le_bytes();
    lemma_splice_same(block, off, spec_u64_to_le_bytes(x));
}

/// A `u64` that lies apart from what was written is unchanged.
pub proof fn lemma_splice_keeps_u64(block: Seq<u8>, off: int, bytes: Seq<u8>, at: int)
    requires
        0 <= at,
        at + 8 <= block.len(),
        at + 8 <= off || off + bytes.len() <= at,
    ensures
        u64_at(splice(block, off, bytes), at) == u64_at(block, at),
{
    lemma_splice_other(block, off, bytes, at, at + 8);
}

/// Storing a `u64` leaves a `u64` that lies apart from it unchanged.
pub proof fn lemma_put_u64_other(block: Seq<u8>, off: int, x: u64, at: int)
    requires
        0 <= at,
        at + 8 <= block.len(),
        at + 8 <= off || off + 8 <= at,
    ensures
        u64_at(put_u64(block, off, x), at) == u64_at(block, at),
{
    lemma_auto_spec_u64_to_from_le_bytes();
    lemma_splice_keeps_u64(block, off, spec_u64_to_le_bytes(x), at);
}

/// Storing a `u32` leaves a `u32` that lies apart from it unchanged.
pub proof fn lemma_put_u32_other(block: Seq<u8>, off: int, x: u32, at: int)
    requires
        0 <= at,
        at + 4 <= block.len(),
        at + 4 <= off || off + 4 <= at,
    ensures
        u32_at(put_u32(block, off, x), at) == u32_at(block, at),
{
    lemma_auto_spec_u32_to_from_le_bytes();
    lemma_splice_keeps_u32(block, off, spec_u32_to_le_bytes(x), at);
}

/// Storing the `u64` that is already there changes nothing.
pub proof fn lemma_put_same_u64(block: Seq<u8>, off: int)
    requires
        0 <= off,
        off + 8 <= block.len(),
    ensures
        put_u64(block, off, u64_at(block, off)) == block,
{
    lemma_auto_spec_u64_to_from_le_bytes();
    lemma_splice_noop(block, off, 8);
}

/// `n` zero bytes.
pub open spec fn zeros(n: nat) -> Seq<u8> {
    Seq::new(n, |i: int| 0u8)
}

/// The `u64` stored in zero bytes is zero.
pub proof fn lemma_zero_u64(block: Seq<u8>, off: int)
    requires
        0 <= off,
        off + 8 <= block.len(),
        forall|i: int| off <= i < off + 8 ==> block[i] == 0,
    ensures
        u64_at(block, off) == 0,
{
    lemma_auto_spec_u64_to_from_le_bytes();
    vstd::bytes::spec_u64_to_le_bytes_to_open(0u64);
    assert(0u64 & 0xff == 0 && (0u64 >> 8) & 0xff == 0 && (0u64 >> 16) & 0xff == 0 && (0u64 >> 24)
        & 0xff == 0 && (0u64 >> 32) & 0xff == 0 && (0u64 >> 40) & 0xff == 0 && (0u64 >> 48) & 0xff
        == 0 && (0u64 >> 56) & 0xff == 0) by (bit_vector);
    assert(block.subrange(off, off + 8) =~= spec_u64_to_le_bytes(0u64));
}

} // verus!
