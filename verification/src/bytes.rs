//! Fixed-width integers read out of byte buffers, in both byte orders.
//!
//! On-disk and on-wire structures are read field by field at explicit byte
//! offsets, never by overlaying a struct.
use vstd::prelude::*;

verus! {

/// Little-endian 16-bit value of the two bytes at `off`.
pub open spec fn le16(s: Seq<u8>, off: int) -> int {
    s[off] + 0x100 * s[off + 1]
}

/// Little-endian 32-bit value of the four bytes at `off`.
pub open spec fn le32(s: Seq<u8>, off: int) -> int {
    le16(s, off) + 0x1_0000 * le16(s, off + 2)
}

/// Little-endian 64-bit value of the eight bytes at `off`.
pub open spec fn le64(s: Seq<u8>, off: int) -> int {
    le32(s, off) + 0x1_0000_0000 * le32(s, off + 4)
}

/// Big-endian 16-bit value of the two bytes at `off`.
pub open spec fn be16(s: Seq<u8>, off: int) -> int {
    0x100 * s[off] + s[off + 1]
}

/// The two bytes of `v`, most significant first.
pub open spec fn be16_bytes(v: u16) -> Seq<u8> {
    seq![(v / 0x100) as u8, (v % 0x100) as u8]
}

pub fn u16_at(buf: &[u8], off: usize) -> (r: u16)
    requires
        off + 2 <= buf.len(),
    ensures
        r == le16(buf@, off as int),
{
    buf[off] as u16 + 0x100 * (buf[off + 1] as u16)
}

pub fn u32_at(buf: &[u8], off: usize) -> (r: u32)
    requires
        off + 4 <= buf.len(),
    ensures
        r == le32(buf@, off as int),
{
    u16_at(buf, off) as u32 + 0x1_0000 * (u16_at(buf, off + 2) as u32)
}

pub fn u64_at(buf: &[u8], off: usize) -> (r: u64)
    requires
        off + 8 <= buf.len(),
    ensures
        r == le64(buf@, off as int),
{
    u32_at(buf, off) as u64 + 0x1_0000_0000 * (u32_at(buf, off + 4) as u64)
}

/// Reads the big-endian 16-bit value at `off`.
pub fn be16_at(buf: &[u8], off: usize) -> (r: u16)
    requires
        off + 2 <= buf.len(),
    ensures
        r == be16(buf@, off as int),
{
    0x100 * (buf[off] as u16) + buf[off + 1] as u16
}

/// Appends `v` to `buf`, most significant byte first.
pub fn push_be16(buf: &mut Vec<u8>, v: u16)
    ensures
        final(buf)@ == old(buf)@ + be16_bytes(v),
{
    buf.push((v / 0x100) as u8);
    buf.push((v % 0x100) as u8);
    assert(buf@ =~= old(buf)@ + be16_bytes(v));
}

/// Appends every byte of `data` to `buf`.
pub fn push_all(buf: &mut Vec<u8>, data: &[u8])
    ensures
        final(buf)@ == old(buf)@ + data@,
{
    buf.extend_from_slice(data);
    assert(buf@ =~= old(buf)@ + data@);
}

/// The least significant byte comes first, and each byte counts 256 times as much
/// as the one before it.
pub proof fn law_little_endian_is_positional(s: Seq<u8>, off: int)
    ensures
        le16(s, off) == s[off] + 0x100 * s[off + 1],
        le32(s, off) == s[off] + 0x100 * s[off + 1] + 0x1_0000 * s[off + 2] + 0x100_0000 * s[off
            + 3],
        le64(s, off) == s[off] + 0x100 * s[off + 1] + 0x1_0000 * s[off + 2] + 0x100_0000 * s[off
            + 3] + 0x1_0000_0000 * s[off + 4] + 0x100_0000_0000 * s[off + 5] + 0x1_0000_0000_0000
            * s[off + 6] + 0x100_0000_0000_0000 * s[off + 7],
{
}

/// A number stored most significant byte first is read back.
pub proof fn law_big_endian_reads_back(s: Seq<u8>, off: int, v: u16)
    requires
        0 <= off,
        off + 2 <= s.len(),
        s.subrange(off, off + 2) == be16_bytes(v),
    ensures
        be16(s, off) == v,
        s[off] == v / 0x100,
        s[off + 1] == v % 0x100,
{
    let t = s.subrange(off, off + 2);
    assert(t[0] == s[off] && t[1] == s[off + 1]);
}

} // verus!
