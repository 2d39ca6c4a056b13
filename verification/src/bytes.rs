//! Little-endian integers inside byte buffers.

use vstd::prelude::*;

verus! {

/// The 16-bit little-endian value at `at`.
pub open spec fn le16(s: Seq<u8>, at: int) -> nat {
    (s[at] + 0x100 * s[at + 1]) as nat
}

/// The 32-bit little-endian value at `at`.
pub open spec fn le32(s: Seq<u8>, at: int) -> nat {
    le16(s, at) + 0x1_0000 * le16(s, at + 2)
}

/// The 64-bit little-endian value at `at`.
pub open spec fn le64(s: Seq<u8>, at: int) -> nat {
    le32(s, at) + 0x1_0000_0000 * le32(s, at + 4)
}

/// Reads the 16-bit little-endian value at `offset`.
pub fn u16_at(buf: &[u8], offset: usize) -> (value: u16)
    requires
        offset + 2 <= buf.len(),
    ensures
        value == le16(buf@, offset as int),
{
    buf[offset] as u16 + 0x100 * (buf[offset + 1] as u16)
}

/// Reads the 32-bit little-endian value at `offset`.
pub fn u32_at(buf: &[u8], offset: usize) -> (value: u32)
    requires
        offset + 4 <= buf.len(),
    ensures
        value == le32(buf@, offset as int),
{
    u16_at(buf, offset) as u32 + 0x1_0000 * (u16_at(buf, offset + 2) as u32)
}

/// Reads the 64-bit little-endian value at `offset`.
pub fn u64_at(buf: &[u8], offset: usize) -> (value: u64)
    requires
        offset + 8 <= buf.len(),
    ensures
        value == le64(buf@, offset as int),
{
    u32_at(buf, offset) as u64 + 0x1_0000_0000 * (u32_at(buf, offset + 4) as u64)
}

/// The four bytes at `at` are those of `value`, the least significant first.
pub open spec fn stores32(s: Seq<u8>, at: int, value: u32) -> bool {
    &&& s[at] == value % 256
    &&& s[at + 1] == value / 0x100 % 256
    &&& s[at + 2] == value / 0x1_0000 % 256
    &&& s[at + 3] == value / 0x100_0000
}

/// The two bytes at `at` are those of `value`, the least significant first.
pub open spec fn stores16(s: Seq<u8>, at: int, value: u16) -> bool {
    s[at] == value % 256 && s[at + 1] == value / 256
}

/// The eight bytes at `at` are those of `value`, the least significant first.
pub open spec fn stores64(s: Seq<u8>, at: int, value: u64) -> bool {
    &&& stores32(s, at, (value % 0x1_0000_0000) as u32)
    &&& stores32(s, at + 4, (value / 0x1_0000_0000) as u32)
}

/// A number that is stored least significant byte first is read back as the same
/// number, and what is read is always what is stored.
pub proof fn law_numbers_are_read_as_stored(s: Seq<u8>, at: int, a: u16, b: u32, c: u64)
    ensures
        stores16(s, at, a) <==> le16(s, at) == a,
        stores32(s, at, b) <==> le32(s, at) == b,
        stores64(s, at, c) <==> le64(s, at) == c,
        le16(s, at) < 0x1_0000,
        le32(s, at) < 0x1_0000_0000,
        le64(s, at) < 0x1_0000_0000_0000_0000,
{
    let low = le32(s, at);
    let high = le32(s, at + 4);
    lemma_split32(s, at, b);
    lemma_split32(s, at, (c % 0x1_0000_0000) as u32);
    lemma_split32(s, at + 4, (c / 0x1_0000_0000) as u32);
    assert(le64(s, at) == c <==> low == c % 0x1_0000_0000 && high == c / 0x1_0000_0000);
}

proof fn lemma_split32(s: Seq<u8>, at: int, value: u32)
    ensures
        stores32(s, at, value) <==> le32(s, at) == value,
        le32(s, at) < 0x1_0000_0000,
{
    assert(le32(s, at) == value <==> le16(s, at) == value % 0x1_0000 && le16(s, at + 2) == value
        / 0x1_0000);
}

} // verus!
