//! Little-endian integers inside byte buffers.
//!
//! Every multi-byte integer of the log, index and time-index records is
//! little-endian. The functions here read one integer at a position of a
//! buffer, or append one to its end.

use vstd::bytes::*;
use vstd::prelude::*;
use vstd::slice::slice_subrange;

verus! {

/// The `u32` held by the four bytes of `bytes` that start at `pos`.
pub open spec fn u32_at(bytes: Seq<u8>, pos: int) -> u32 {
    spec_u32_from_le_bytes(bytes.subrange(pos, pos + 4))
}

/// The `u64` held by the eight bytes of `bytes` that start at `pos`.
pub open spec fn u64_at(bytes: Seq<u8>, pos: int) -> u64 {
    spec_u64_from_le_bytes(bytes.subrange(pos, pos + 8))
}

/// The `u128` held by the sixteen bytes of `bytes` that start at `pos`.
pub open spec fn u128_at(bytes: Seq<u8>, pos: int) -> u128 {
    spec_u128_from_le_bytes(bytes.subrange(pos, pos + 16))
}

/// Reads the little-endian `u32` at `pos`.
pub fn read_u32(bytes: &[u8], pos: usize) -> (value: u32)
    requires
        pos + 4 <= bytes@.len(),
    ensures
        value == u32_at(bytes@, pos as int),
{
    // A slice's length fits `usize`, and so does the end of the read.
    let _ = bytes.len();
    u32_from_le_bytes(slice_subrange(bytes, pos, pos + 4))
}

/// Reads the little-endian `u64` at `pos`.
pub fn read_u64(bytes: &[u8], pos: usize) -> (value: u64)
    requires
        pos + 8 <= bytes@.len(),
    ensures
        value == u64_at(bytes@, pos as int),
{
    // A slice's length fits `usize`, and so does the end of the read.
    let _ = bytes.len();
    u64_from_le_bytes(slice_subrange(bytes, pos, pos + 8))
}

/// Reads the little-endian `u128` at `pos`.
pub fn read_u128(bytes: &[u8], pos: usize) -> (value: u128)
    requires
        pos + 16 <= bytes@.len(),
    ensures
        value == u128_at(bytes@, pos as int),
{
    // A slice's length fits `usize`, and so does the end of the read.
    let _ = bytes.len();
    u128_from_le_bytes(slice_subrange(bytes, pos, pos + 16))
}

/// Appends `value` to `buf` as four little-endian bytes.
pub fn put_u32(buf: &mut Vec<u8>, value: u32)
    ensures
        final(buf)@ == old(buf)@ + spec_u32_to_le_bytes(value),
{
    let mut encoded = u32_to_le_bytes(value);
    buf.append(&mut encoded);
}

/// Appends `value` to `buf` as eight little-endian bytes.
pub fn put_u64(buf: &mut Vec<u8>, value: u64)
    ensures
        final(buf)@ == old(buf)@ + spec_u64_to_le_bytes(value),
{
    let mut encoded = u64_to_le_bytes(value);
    buf.append(&mut encoded);
}

/// Appends `value` to `buf` as sixteen little-endian bytes.
pub fn put_u128(buf: &mut Vec<u8>, value: u128)
    ensures
        final(buf)@ == old(buf)@ + spec_u128_to_le_bytes(value),
{
    let mut encoded = u128_to_le_bytes(value);
    buf.append(&mut encoded);
}

} // verus!
