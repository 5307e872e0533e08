//! Little-endian integers inside byte sequences.

use vstd::prelude::*;

verus! {

/// The 16-bit value stored little-endian at offset `o` of `s`.
pub open spec fn le16(s: Seq<u8>, o: int) -> int {
    s[o] as int + 0x100 * (s[o + 1] as int)
}

/// The 32-bit value stored little-endian at offset `o` of `s`.
pub open spec fn le32(s: Seq<u8>, o: int) -> int {
    le16(s, o) + 0x1_0000 * le16(s, o + 2)
}

/// The 64-bit value stored little-endian at offset `o` of `s`.
pub open spec fn le64(s: Seq<u8>, o: int) -> int {
    le32(s, o) + 0x1_0000_0000 * le32(s, o + 4)
}

/// Reads the little-endian `u16` at offset `o`.
pub fn read_le16(b: &[u8], o: usize) -> (r: u16)
    requires
        o + 2 <= b.len(),
    ensures
        r as int == le16(b@, o as int),
{
    let lo: u16 = b[o] as u16;
    let hi: u16 = b[o + 1] as u16;
    lo + 0x100 * hi
}

/// Reads the little-endian `u32` at offset `o`.
pub fn read_le32(b: &[u8], o: usize) -> (r: u32)
    requires
        o + 4 <= b.len(),
    ensures
        r as int == le32(b@, o as int),
{
    let lo: u32 = read_le16(b, o) as u32;
    let hi: u32 = read_le16(b, o + 2) as u32;
    lo + 0x1_0000 * hi
}

/// Reads the little-endian `u64` at offset `o`.
pub fn read_le64(b: &[u8], o: usize) -> (r: u64)
    requires
        o + 8 <= b.len(),
    ensures
        r as int == le64(b@, o as int),
{
    let lo: u64 = read_le32(b, o) as u64;
    let hi: u64 = read_le32(b, o + 4) as u64;
    lo + 0x1_0000_0000 * hi
}

} // verus!
