//! The CRC-32 checksum (IEEE 802.3, reflected), whole and in pieces.
use vstd::prelude::*;

verus! {

/// One bit of the division by the reflected polynomial.
pub open spec fn crc_bit(c: u32) -> u32 {
    if c & 1 == 1 {
        (c >> 1) ^ 0xEDB8_8320u32
    } else {
        c >> 1
    }
}

/// Eight bits of the division.
pub open spec fn crc_bits(c: u32) -> u32 {
    crc_bit(crc_bit(crc_bit(crc_bit(crc_bit(crc_bit(crc_bit(crc_bit(c))))))))
}

/// The remainder after `data`, from the remainder `c` before it.
pub open spec fn crc_remainder(c: u32, data: Seq<u8>) -> u32
    decreases data.len(),
{
    if data.len() == 0 {
        c
    } else {
        crc_bits(crc_remainder(c, data.drop_last()) ^ (data.last() as u32))
    }
}

/// The checksum of what had the checksum `state`, followed by `data`.
pub open spec fn crc32_after(state: u32, data: Seq<u8>) -> u32 {
    !crc_remainder(!state, data)
}

/// The checksum of `data`.
pub open spec fn crc32_of(data: Seq<u8>) -> u32 {
    crc32_after(0, data)
}

/// Taking the checksum of a stream piece by piece gives the checksum of the whole.
pub proof fn law_checksum_in_pieces(state: u32, a: Seq<u8>, b: Seq<u8>)
    ensures
        crc32_after(state, a + b) == crc32_after(crc32_after(state, a), b),
        crc32_after(state, Seq::<u8>::empty()) == state,
{
    lemma_remainder_in_pieces(!state, a, b);
    let c = crc_remainder(!state, a);
    assert(!(!c) == c) by (bit_vector);
    assert(!(!state) == state) by (bit_vector);
}

proof fn lemma_remainder_in_pieces(c: u32, a: Seq<u8>, b: Seq<u8>)
    ensures
        crc_remainder(c, a + b) == crc_remainder(crc_remainder(c, a), b),
    decreases b.len(),
{
    if b.len() == 0 {
        assert(a + b =~= a);
    } else {
        lemma_remainder_in_pieces(c, a, b.drop_last());
        assert((a + b).drop_last() =~= a + b.drop_last());
        assert((a + b).last() == b.last());
    }
}

/// Calls `crc32fast::Hasher`: a hasher made by `new_with_initial(state)` and fed
/// `data` by `update` finalizes to the CRC-32 (IEEE) of the bytes behind `state`
/// followed by `data`.
#[verifier::external_body]
pub(crate) fn crc32_continue(state: u32, data: &[u8]) -> (crc: u32)
    ensures
        crc == crc32_after(state, data@),
{
    let mut hasher = crc32fast::Hasher::new_with_initial(state);
    hasher.update(data);
    hasher.finalize()
}

} // verus!
