//! Little-endian reads from a byte buffer.
use byteorder::{ByteOrder, LittleEndian};
use vstd::prelude::*;

verus! {

/// The unsigned 16-bit little-endian value stored at `pos` in `s`.
pub open spec fn le_u16(s: Seq<u8>, pos: int) -> int {
    s[pos] as int + 256 * (s[pos + 1] as int)
}

/// The unsigned 32-bit little-endian value stored at `pos` in `s`.
pub open spec fn le_u32(s: Seq<u8>, pos: int) -> int {
    le_u16(s, pos) + 65536 * le_u16(s, pos + 2)
}

/// The number of bytes of `s` from `pos` on (none when `pos` is past the end).
pub open spec fn remaining(s: Seq<u8>, pos: int) -> int {
    if 0 <= pos <= s.len() {
        s.len() - pos
    } else {
        0
    }
}

/// `byteorder`'s `LittleEndian::read_u16`: the first two bytes of `buf` read
/// as a little-endian `u16`.  It panics on a shorter buffer, which `requires`
/// rules out.
#[verifier::external_body]
fn read_le_u16(buf: &[u8]) -> (r: u16)
    requires
        buf@.len() >= 2,
    ensures
        r == le_u16(buf@, 0),
{
    LittleEndian::read_u16(buf)
}

/// `byteorder`'s `LittleEndian::read_u32`: the first four bytes of `buf` read
/// as a little-endian `u32`.  It panics on a shorter buffer, which `requires`
/// rules out.
#[verifier::external_body]
fn read_le_u32(buf: &[u8]) -> (r: u32)
    requires
        buf@.len() >= 4,
    ensures
        r == le_u32(buf@, 0),
{
    LittleEndian::read_u32(buf)
}

/// The number of bytes of `data` from `pos` on.
pub fn remaining_from(data: &[u8], pos: usize) -> (r: usize)
    ensures
        r == remaining(data@, pos as int),
        r > 0 ==> pos + r == data.len(),
{
    if pos <= data.len() {
        data.len() - pos
    } else {
        0
    }
}

/// Reads the little-endian `u16` at `pos`.
pub fn u16_at(data: &[u8], pos: usize) -> (r: u16)
    requires
        pos + 2 <= data.len(),
    ensures
        r == le_u16(data@, pos as int),
{
    let s = &data[pos..pos + 2];
    assert(s@ =~= data@.subrange(pos as int, pos + 2));
    read_le_u16(s)
}

/// Reads the little-endian `u32` at `pos`.
pub fn u32_at(data: &[u8], pos: usize) -> (r: u32)
    requires
        pos + 4 <= data.len(),
    ensures
        r == le_u32(data@, pos as int),
{
    let s = &data[pos..pos + 4];
    assert(s@ =~= data@.subrange(pos as int, pos + 4));
    read_le_u32(s)
}

} // verus!
