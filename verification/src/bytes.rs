//! Fixed-width integers as bytes, and pieces of byte slices.
use vstd::prelude::*;

verus! {

/// Two bytes, least significant first.
pub open spec fn le16(x: int) -> Seq<u8> {
    seq![(x % 256) as u8, (x / 256 % 256) as u8]
}

/// Four bytes, least significant first.
pub open spec fn le32(x: int) -> Seq<u8> {
    le16(x % 0x1_0000) + le16(x / 0x1_0000)
}

/// The number in the two bytes at `i`, least significant first.
pub open spec fn u16_at(s: Seq<u8>, i: int) -> int {
    s[i] + 256 * s[i + 1]
}

/// The number in the four bytes at `i`, least significant first.
pub open spec fn u32_at(s: Seq<u8>, i: int) -> int {
    u16_at(s, i) + 0x1_0000 * u16_at(s, i + 2)
}

/// The number in the eight bytes at `i`, least significant first.
pub open spec fn u64_at(s: Seq<u8>, i: int) -> int {
    u32_at(s, i) + 0x1_0000_0000 * u32_at(s, i + 4)
}

/// The number in four bytes, most significant first.
pub open spec fn be32(a: u8, b: u8, c: u8, d: u8) -> int {
    0x100_0000 * a + 0x1_0000 * b + 0x100 * c + d
}

/// `s` holds `part` at position `i`.
pub open spec fn holds_at(s: Seq<u8>, i: int, part: Seq<u8>) -> bool {
    0 <= i && i + part.len() <= s.len() && s.subrange(i, i + part.len()) == part
}

/// Numbers have their least significant byte first; the number in four bytes with the most
/// significant first has its bytes the other way round.
pub proof fn law_numbers_have_low_bytes_first(s: Seq<u8>, i: int)
    ensures
        u16_at(s, i) == s[i] + 0x100 * s[i + 1],
        u32_at(s, i) == s[i] + 0x100 * s[i + 1] + 0x1_0000 * s[i + 2] + 0x100_0000 * s[i + 3],
        u64_at(s, i) == s[i] + 0x100 * s[i + 1] + 0x1_0000 * s[i + 2] + 0x100_0000 * s[i + 3]
            + 0x1_0000_0000 * s[i + 4] + 0x100_0000_0000 * s[i + 5] + 0x1_0000_0000_0000 * s[i + 6]
            + 0x100_0000_0000_0000 * s[i + 7],
        be32(s[i], s[i + 1], s[i + 2], s[i + 3]) == 0x100_0000 * s[i] + 0x1_0000 * s[i + 1] + 0x100
            * s[i + 2] + s[i + 3],
{
}

/// Reading two bytes gives back what was written in them.
pub proof fn lemma_u16_back(s: Seq<u8>, i: int, x: int)
    requires
        holds_at(s, i, le16(x)),
        0 <= x < 0x1_0000,
    ensures
        u16_at(s, i) == x,
{
    let part = s.subrange(i, i + 2);
    assert(part[0] == s[i] && part[1] == s[i + 1]);
}

/// Reading four bytes gives back what was written in them.
pub proof fn lemma_u32_back(s: Seq<u8>, i: int, x: int)
    requires
        holds_at(s, i, le32(x)),
        0 <= x < 0x1_0000_0000,
    ensures
        u32_at(s, i) == x,
{
    let part = s.subrange(i, i + 4);
    assert(part.subrange(0, 2) =~= le16(x % 0x1_0000));
    assert(part.subrange(2, 4) =~= le16(x / 0x1_0000));
    assert(s.subrange(i, i + 2) =~= part.subrange(0, 2));
    assert(s.subrange(i + 2, i + 4) =~= part.subrange(2, 4));
    lemma_u16_back(s, i, x % 0x1_0000);
    lemma_u16_back(s, i + 2, x / 0x1_0000);
}

/// The number in the two bytes at `i`, least significant first.
pub fn read_u16(s: &[u8], i: usize) -> (x: u16)
    requires
        i + 2 <= s@.len(),
    ensures
        x == u16_at(s@, i as int),
{
    s[i] as u16 + 256 * (s[i + 1] as u16)
}

/// The number in the four bytes at `i`, least significant first.
pub fn read_u32(s: &[u8], i: usize) -> (x: u32)
    requires
        i + 4 <= s@.len(),
    ensures
        x == u32_at(s@, i as int),
{
    assert(i + 4 <= s.len());
    read_u16(s, i) as u32 + 0x1_0000 * (read_u16(s, i + 2) as u32)
}

/// The number in the eight bytes at `i`, least significant first.
pub fn read_u64(s: &[u8], i: usize) -> (x: u64)
    requires
        i + 8 <= s@.len(),
    ensures
        x == u64_at(s@, i as int),
{
    assert(i + 8 <= s.len());
    read_u32(s, i) as u64 + 0x1_0000_0000 * (read_u32(s, i + 4) as u64)
}

/// The number in four bytes, most significant first.
pub fn join_be32(a: u8, b: u8, c: u8, d: u8) -> (x: u32)
    ensures
        x == be32(a, b, c, d),
{
    0x100_0000 * (a as u32) + 0x1_0000 * (b as u32) + 0x100 * (c as u32) + d as u32
}

/// Appends two bytes, least significant first.
pub fn push_u16(buf: &mut Vec<u8>, x: u16)
    ensures
        final(buf)@ == old(buf)@ + le16(x as int),
{
    buf.push((x % 256) as u8);
    buf.push((x / 256) as u8);
    assert(buf@ =~= old(buf)@ + le16(x as int));
}

/// Appends four bytes, least significant first.
pub fn push_u32(buf: &mut Vec<u8>, x: u32)
    ensures
        final(buf)@ == old(buf)@ + le32(x as int),
{
    push_u16(buf, (x % 0x1_0000) as u16);
    push_u16(buf, (x / 0x1_0000) as u16);
    assert(buf@ =~= old(buf)@ + le32(x as int));
}

/// Appends a slice.
pub fn push_slice(buf: &mut Vec<u8>, s: &[u8])
    ensures
        final(buf)@ == old(buf)@ + s@,
{
    buf.extend_from_slice(s);
    assert(buf@ =~= old(buf)@ + s@);
}

/// Whether `s` begins with `part`.
pub fn starts_with(s: &[u8], part: &[u8]) -> (r: bool)
    ensures
        r == holds_at(s@, 0, part@),
{
    if s.len() < part.len() {
        return false;
    }
    for k in 0..part.len()
        invariant
            part@.len() <= s@.len(),
            forall|j: int| 0 <= j < k ==> s@[j] == part@[j],
    {
        if s[k] != part[k] {
            assert(s@.subrange(0, part@.len() as int)[k as int] != part@[k as int]);
            return false;
        }
    }
    assert(s@.subrange(0, part@.len() as int) =~= part@);
    true
}

} // verus!
