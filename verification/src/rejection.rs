//! Which bytes the PNG validator rejects, and which candidates the known first bytes of a file
//! leave in the beam.
use vstd::prelude::*;

use crate::beam;
use crate::beam::SectionModel;
use crate::candidate::CandidateModel;
use crate::png::PngModel;
use crate::prune;
use crate::unpack;

verus! {

/// A byte is rejected at once: one that is not in its place in the signature, the fourth byte
/// of a length of 2 GiB or more, a byte of a type that is not an ASCII letter, the fourth byte
/// of a checksum that is not that of type and data, and any byte behind the end chunk. Any
/// other byte is taken.
pub proof fn law_wrong_bytes_are_rejected(m: PngModel, b: u8)
    requires
        m.wf(),
    ensures
        m.phase is Signature ==> (m.step(b).1 <==> b == seq![
            0x89u8, 0x50, 0x4E, 0x47, 0x0D, 0x0A, 0x1A, 0x0A,
        ][m.sig_pos]),
        m.phase is ChunkLen ==> (m.step(b).1 <==> m.filled < 3 || m.buf[0] < 0x80),
        m.phase is ChunkType ==> (m.step(b).1 <==> ('A' as u8 <= b <= 'Z' as u8 || 'a' as u8 <= b
            <= 'z' as u8)),
        m.phase is ChunkData ==> m.step(b).1,
        m.phase is ChunkCrc ==> (m.step(b).1 <==> m.filled < 3 || 0x100_0000 * m.buf[0] + 0x1_0000
            * m.buf[1] + 0x100 * m.buf[2] + b == m.crc),
        m.phase is PostIend ==> !m.step(b).1,
{
}

/// Whoever goes on behind a line feed has had the first bytes checked that are known of the
/// contents, or has put out fewer.
pub proof fn law_beam_has_first_bytes_checked(s: SectionModel, i: nat, cands: Seq<CandidateModel>)
    requires
        s.prefix.len() > 0,
    ensures
        forall|k: int|
            #![trigger s.spread(i, cands)[k]]
            0 <= k < s.spread(i, cands).len() ==> s.spread(i, cands)[k].prefix_ok || s.spread(
                i,
                cands,
            )[k].output.total_out < s.prefix.len(),
{
    let lf = s.lfs[i as int];
    let has_more = lf + 1 < s.base.len() || i + 1 < s.lfs.len();
    let forks = beam::forked(s.advanced(i, cands), lf, s.base[lf as int], has_more);
    lemma_first_bytes(forks, s.prefix);
}

proof fn lemma_first_bytes(cands: Seq<CandidateModel>, prefix: Seq<u8>)
    requires
        prefix.len() > 0,
    ensures
        ({
            let kept = beam::prefix_kept(cands, prefix);
            forall|k: int|
                0 <= k < kept.len() ==> (#[trigger] kept[k]).prefix_ok || kept[k].output.total_out
                    < prefix.len()
        }),
    decreases cands.len(),
{
    if cands.len() > 0 {
        lemma_first_bytes(cands.drop_last(), prefix);
    }
}

/// The search passes from one line feed to the next with the beam that it has spread and cut,
/// until a beam is empty; the last one is what it ends with.
pub proof fn law_search_spreads_and_cuts(
    s: SectionModel,
    i: nat,
    cands: Seq<CandidateModel>,
    attempts: u64,
)
    ensures
        i >= s.lfs.len() ==> s.searched(i, cands, attempts).0 == Some(cands),
        i < s.lfs.len() && s.spread(i, cands).len() == 0 ==> s.searched(
            i,
            cands,
            attempts,
        ).0 is None,
        i < s.lfs.len() && s.spread(i, cands).len() > 0 ==> s.searched(i, cands, attempts).0
            == s.searched(
            i + 1,
            prune::pruned(s.spread(i, cands), s.cap, i as usize),
            beam::wrap64(attempts + 2 * s.advanced(i, cands).len()),
        ).0,
{
    if i < s.lfs.len() && s.advanced(i, cands).len() == 0 {
        assert(s.spread(i, cands).len() == 0);
    }
}

/// A section that unpacks as it is to the expected checksum is left as it is.
pub proof fn law_section_in_order_is_left(
    s: SectionModel,
    validator: Option<crate::png::PngModel>,
    attempts: u64,
)
    requires
        unpack::inflates_to(s.base, s.crc),
    ensures
        s.beam_fixed(validator, attempts) == (Some(Seq::<usize>::empty()), attempts),
{
}

} // verus!
