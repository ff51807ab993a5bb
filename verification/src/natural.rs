//! Carriage returns in front of line feeds that were in the archive all along: how
//! recovery keeps those in packed contents and in headers and gives the archive back.
//!
//! An entry that lacks some of its carriage returns is shorter than its header says, so that
//! the entries behind it are not found where they are looked for. In one round of fixing
//! there is thus at most one entry that lacks carriage returns of its own; the next round
//! goes on behind it.
use vstd::arithmetic::power2;
use vstd::prelude::*;

use crate::beam;
use crate::candidate;
use crate::corrupt;
use crate::follow;
use crate::keep;
use crate::leader;
use crate::mask;
use crate::oracle;
use crate::per_file;
use crate::png;
use crate::positions;
use crate::recover;
use crate::recover::DamageModel;
use crate::splice;
use crate::undo;
use crate::unpack;
use crate::zip_util;

verus! {

/// The line feed behind the carriage return of index `k` is in reach of the search that
/// goes from the candidate back to the damaged data.
pub open spec fn pair_in_reach(d: DamageModel, k: int) -> bool {
    mask::in_reach(d.crlf[k] + 1, d.crlf, d.mask())
}

/// A line feed is never dropped.
proof fn lemma_lf_kept(d: DamageModel, k: int)
    requires
        d.wf(),
        0 <= k < d.crlf.len(),
    ensures
        d.crlf[k] + 1 < d.data.len(),
        !mask::dropped(d.crlf, d.mask(), d.crlf[k] + 1),
{
    let q = d.crlf[k] + 1;
    recover::lemma_crlfs(d.data);
    assert(zip_util::crlf_at(d.data, d.crlf[k] as int));
    if mask::dropped(d.crlf, d.mask(), q) {
        let m = choose|m: int| 0 <= m < d.crlf.len() && #[trigger] d.crlf[m] == q && d.mask()[m];
        assert(zip_util::crlf_at(d.data, d.crlf[m] as int));
    }
}

/// A carriage return that was dropped is put back: from the place of its line feed in the
/// candidate its own index is found, as that of one that was kept is.
pub proof fn law_dropped_is_put_back(d: DamageModel, k: int)
    requires
        d.wf(),
        0 <= k < d.crlf.len(),
        pair_in_reach(d, k),
    ensures
        d.restored_at(d.lf_place(k)) == Some(k as usize),
        mask::corr_of(d.lf_place(k), d.crlf, mask::removed_counts(d.mask())) == d.crlf[k] + 1,
{
    recover::lemma_crlfs(d.data);
    let q = d.crlf[k] + 1;
    lemma_lf_kept(d, k);
    mask::law_there_and_back(d.crlf, d.mask(), q);
    assert(d.crlf.contains(d.crlf[k]));
    assert((q - 1) as usize == d.crlf[k]);
    assert forall|m: int| 0 <= m < k implies #[trigger] d.crlf[m] < d.crlf[k] by {}
    assert forall|m: int| k <= m < d.crlf.len() implies #[trigger] d.crlf[m] >= d.crlf[k] by {
        if k < m {
            assert(d.crlf[k] < d.crlf[m]);
        }
    }
    positions::lemma_rank_is(d.crlf, d.crlf[k] as int, k);
}

/// In a candidate of at most 2^18 bytes every pair is in reach, however many carriage
/// returns are dropped.
pub proof fn law_small_candidates_are_in_reach(d: DamageModel, k: int)
    requires
        d.wf(),
        0 <= k < d.crlf.len(),
        d.candidate().len() <= 0x4_0000,
    ensures
        pair_in_reach(d, k),
{
    recover::lemma_crlfs(d.data);
    let q = d.crlf[k] + 1;
    lemma_lf_kept(d, k);
    mask::law_kept_byte_found(d.data, d.crlf, d.mask(), q);
    mask::law_near_is_in_reach(d.crlf, d.mask(), q);
}

/// The carriage returns of indices `ks` are in reach, and their line feeds stand in the
/// packed contents of the `j`-th entry that needs a fix.
pub open spec fn lie_in(d: DamageModel, j: int, ks: Seq<usize>) -> bool {
    forall|i: int|
        #![trigger ks[i]]
        0 <= i < ks.len() ==> {
            &&& ks[i] < d.crlf.len()
            &&& pair_in_reach(d, ks[i] as int)
            &&& d.bad_record(j).start <= d.lf_place(ks[i] as int) < d.bad_record(j).end
        }
}

/// Where these line feeds stand in the packed contents.
pub open spec fn offsets(d: DamageModel, j: int, ks: Seq<usize>) -> Seq<usize> {
    Seq::new(ks.len(), |i: int| (d.lf_place(ks[i] as int) - d.bad_record(j).start) as usize)
}

/// The kept indices and those of the first `n` entries that need a fix.
pub open spec fn kept_with(kept: Seq<usize>, natural: Seq<Seq<usize>>, n: nat) -> Seq<usize>
    decreases n,
{
    if n == 0 {
        kept
    } else {
        kept_with(kept, natural, (n - 1) as nat) + natural[n - 1]
    }
}

/// The carriage returns that are kept for headers and those named for the entries that
/// need a fix are just the ones that the damage did not put there.
pub open spec fn account_for(data: Seq<u8>, d: DamageModel, natural: Seq<Seq<usize>>) -> bool {
    forall|k: int|
        #![trigger undo::undoing(data)[k]]
        0 <= k < d.crlf.len() ==> ((d.kept.contains(k as usize) || exists|j: int|
            0 <= j < natural.len() && (#[trigger] natural[j]).contains(k as usize))
            <==> !undo::undoing(data)[k])
}

proof fn lemma_offset(d: DamageModel, j: int, ks: Seq<usize>, i: int)
    requires
        d.wf(),
        d.fixable(),
        0 <= j < d.bad_count(),
        lie_in(d, j, ks),
        0 <= i < ks.len(),
    ensures
        d.bad_record(j).start + offsets(d, j, ks)[i] == d.lf_place(ks[i] as int),
{
    recover::lemma_crlfs(d.data);
    mask::lemma_left_len(d.data, d.crlf, d.mask(), d.data.len() as int);
    lemma_bad_record_inside(d, j);
    assert(ks[i] < d.crlf.len());
}

proof fn lemma_bad_record_inside(d: DamageModel, j: int)
    requires
        d.wf(),
        d.fixable(),
        0 <= j < d.bad_count(),
    ensures
        0 <= d.bad_record(j).start <= d.bad_record(j).end <= d.candidate().len(),
        d.candidate().len() <= d.data.len(),
{
    let records = d.records()->Ok_0;
    recover::lemma_crlfs(d.data);
    mask::lemma_left_len(d.data, d.crlf, d.mask(), d.data.len() as int);
    per_file::lemma_records_inside(d.candidate(), 0);
    per_file::lemma_record_count(d.candidate(), 0);
    positions::lemma_positions(records.len(), |i: int| !records[i].entry.crc_ok());
    assert(per_file::bad_of(records)[j] < records.len());
}

proof fn lemma_restored(d: DamageModel, kept: Seq<usize>, j: int, ks: Seq<usize>, n: nat)
    requires
        d.wf(),
        d.fixable(),
        0 <= j < d.bad_count(),
        lie_in(d, j, ks),
        n <= ks.len(),
    ensures
        d.restored(kept, d.bad_record(j).start, offsets(d, j, ks), n) == Some(
            kept + ks.take(n as int),
        ),
    decreases n,
{
    if n == 0 {
        assert(kept + ks.take(0) =~= kept);
    } else {
        lemma_restored(d, kept, j, ks, (n - 1) as nat);
        lemma_offset(d, j, ks, n - 1);
        assert(ks[n - 1] < d.crlf.len());
        law_dropped_is_put_back(d, ks[n - 1] as int);
        assert((kept + ks.take(n - 1)).push(ks[n - 1]) =~= kept + ks.take(n as int));
    }
}

proof fn lemma_gathered(
    d: DamageModel,
    fixes: Seq<(Option<Seq<usize>>, u64)>,
    natural: Seq<Seq<usize>>,
    n: nat,
)
    requires
        d.wf(),
        d.fixable(),
        natural.len() == d.bad_count(),
        fixes.len() == natural.len(),
        forall|j: int| 0 <= j < natural.len() ==> lie_in(d, j, #[trigger] natural[j]),
        forall|j: int|
            0 <= j < natural.len() ==> (#[trigger] fixes[j]).0 == Some(offsets(d, j, natural[j])),
        n <= natural.len(),
    ensures
        d.gathered(fixes, n) == Some(kept_with(d.kept, natural, n)),
    decreases n,
{
    if n > 0 {
        lemma_gathered(d, fixes, natural, (n - 1) as nat);
        let ks = natural[n - 1];
        assert(lie_in(d, n - 1, ks));
        assert(fixes[n - 1].0 == Some(offsets(d, n - 1, ks)));
        lemma_restored(d, kept_with(d.kept, natural, (n - 1) as nat), n - 1, ks, ks.len());
        assert(ks.take(ks.len() as int) =~= ks);
    }
}

proof fn lemma_kept_with(kept: Seq<usize>, natural: Seq<Seq<usize>>, n: nat, x: usize)
    requires
        n <= natural.len(),
    ensures
        kept_with(kept, natural, n).contains(x) <==> kept.contains(x) || exists|j: int|
            0 <= j < n && (#[trigger] natural[j]).contains(x),
    decreases n,
{
    if n > 0 {
        let before = kept_with(kept, natural, (n - 1) as nat);
        let more = natural[n - 1];
        let all = before + more;
        lemma_kept_with(kept, natural, (n - 1) as nat, x);
        if before.contains(x) {
            let i = choose|i: int| 0 <= i < before.len() && before[i] == x;
            assert(all[i] == x);
        }
        if more.contains(x) {
            let i = choose|i: int| 0 <= i < more.len() && more[i] == x;
            assert(all[before.len() + i] == x);
        }
        if all.contains(x) {
            let i = choose|i: int| 0 <= i < all.len() && all[i] == x;
            if i < before.len() {
                assert(before[i] == x);
            } else {
                assert(more[i - before.len()] == x);
                assert(natural[n - 1].contains(x));
            }
        }
        if exists|j: int| 0 <= j < n && (#[trigger] natural[j]).contains(x) {
            let j = choose|j: int| 0 <= j < n && (#[trigger] natural[j]).contains(x);
            if j < n - 1 {
                assert(natural[j].contains(x));
            }
        }
    }
}

/// The state in which the files of damaged data are fixed: no cheap strategy has helped,
/// the headers are settled, and the carriage returns named for the entries that need a fix
/// are, with those kept for headers, just the ones that were there before the damage.
pub open spec fn left_to_files(data: Seq<u8>, natural: Seq<Seq<usize>>) -> bool {
    let c = corrupt::corrupted(data);
    let d = recover::headers_settled(c);
    &&& zip_util::valid_zip(data)
    &&& recover::removed_all(c) is None
    &&& d.fixable()
    &&& natural.len() == d.bad_count()
    &&& forall|j: int| 0 <= j < natural.len() ==> lie_in(d, j, #[trigger] natural[j])
    &&& account_for(data, d, natural)
}

/// Keeping the carriage returns that are kept for headers and those named for the entries
/// gives the data back.
proof fn lemma_account(data: Seq<u8>, d: DamageModel, natural: Seq<Seq<usize>>)
    requires
        corrupt::corrupted(data).len() <= usize::MAX,
        d.data == corrupt::corrupted(data),
        d.wf(),
        account_for(data, d, natural),
    ensures
        (DamageModel { kept: kept_with(d.kept, natural, natural.len()), ..d }).candidate() == data,
{
    let fixed = DamageModel { kept: kept_with(d.kept, natural, natural.len()), ..d };
    recover::lemma_crlfs(d.data);
    assert forall|k: int| 0 <= k < d.crlf.len() implies #[trigger] fixed.mask()[k]
        == undo::undoing(data)[k] by {
        lemma_kept_with(d.kept, natural, natural.len(), k as usize);
    }
    assert(fixed.mask() =~= undo::undoing(data));
    undo::law_original_is_a_candidate(data);
}

/// An archive whose natural pairs all stand in headers and in the packed contents of entries
/// that the first round of fixing sees is recovered, byte for byte, from its damaged form if
/// the search finds in each of these the places of its natural pairs.
pub proof fn law_natural_pairs_come_back(data: Seq<u8>, cap: nat, natural: Seq<Seq<usize>>)
    requires
        corrupt::corrupted(data).len() <= usize::MAX,
    ensures
        ({
            let c = corrupt::corrupted(data);
            let d = recover::headers_settled(c);
            left_to_files(data, natural) && (forall|j: int|
                0 <= j < natural.len() ==> (#[trigger] d.fixes(cap)[j]).0 == Some(
                    offsets(d, j, natural[j]),
                )) ==> (recover::recovered(c, cap) matches Ok(r) && r.data == data)
        }),
{
    let c = corrupt::corrupted(data);
    let d = recover::headers_settled(c);
    let fixes = d.fixes(cap);
    if left_to_files(data, natural) && (forall|j: int|
        0 <= j < natural.len() ==> (#[trigger] fixes[j]).0 == Some(offsets(d, j, natural[j]))) {
        recover::lemma_headers_settled(c);
        lemma_gathered(d, fixes, natural, natural.len());
        let kept = kept_with(d.kept, natural, natural.len());
        let fixed = DamageModel { kept, ..d };
        lemma_account(data, d, natural);
        if d.crlf.len() == 0 {
            undo::lemma_nothing_to_drop(c);
            assert(d.crlf =~= Seq::empty());
            assert(fixed.mask() =~= recover::all_removed(c).mask());
        }
    }
}

/// The searches are sure to come upon something in the section if `f` solves it: `f` is a
/// single line feed, or a pair in a section that has not too many, or some choice leads to the
/// end and the beam has room for every choice or does not drop that one.
pub open spec fn findable(s: beam::SectionModel, validator: Option<png::PngModel>, f: Seq<usize>) -> bool {
    let start = candidate::CandidateModel::start(s.prefix.len() > 0, validator);
    let unpacks = unpack::inflates_to(splice::with_crs(s.base, f), s.crc);
    ||| unpacks && exists|j: int| 0 <= j < s.lfs.len() && f == seq![#[trigger] s.lfs[j]]
    ||| unpacks && s.lfs.len() <= 2000 && exists|i: int, j: int|
        0 <= i < j < s.lfs.len() && f == seq![#[trigger] s.lfs[i], #[trigger] s.lfs[j]]
    ||| power2::pow2(s.lfs.len()) <= s.cap && exists|choices: Seq<bool>|
        (#[trigger] s.walked(0, start, choices)) matches Some(end) && s.solved_by(end)
    ||| exists|choices: Seq<bool>|
        s.never_cut(0, seq![start], start, choices) && ((#[trigger] s.walked(
            0,
            start,
            choices,
        )) matches Some(end) && s.solved_by(end))
}

/// What solves a section and can be found is found if nothing else solves it.
pub proof fn law_only_solution_is_found(
    base: Seq<u8>,
    record: zip_util::RecordModel,
    cap: nat,
    f: Seq<usize>,
)
    requires
        base.len() <= usize::MAX,
        0 <= record.start <= record.end <= base.len(),
    ensures
        ({
            let s = per_file::section_model(base, record, cap);
            findable(s, oracle::validator_for(record.entry.name), f) && follow::only_solution(s, f)
                ==> per_file::section_fix(base, record, cap).0 == Some(f)
        }),
{
    let s = per_file::section_model(base, record, cap);
    let validator = oracle::validator_for(record.entry.name);
    if findable(s, validator, f) && follow::only_solution(s, f) {
        let start = candidate::CandidateModel::start(s.prefix.len() > 0, validator);
        let (found, attempts) = s.beam_fixed(validator, 0);
        positions::lemma_positions(s.base.len(), |i: int| s.base[i] == corrupt::LF);
        assert(s.wf());
        beam::law_beam_is_sound(s, validator, 0);
        if found is None {
            keep::law_keep_fixed_is_sound(s.base, s.crc, s.lfs, attempts);
            let unpacks = unpack::inflates_to(splice::with_crs(s.base, f), s.crc);
            if unpacks && exists|j: int| 0 <= j < s.lfs.len() && f == seq![#[trigger] s.lfs[j]] {
                let j = choose|j: int| 0 <= j < s.lfs.len() && f == seq![#[trigger] s.lfs[j]];
                keep::law_single_is_found(s.base, s.crc, s.lfs, attempts, j);
            } else if unpacks && s.lfs.len() <= 2000 && exists|i: int, j: int|
                0 <= i < j < s.lfs.len() && f == seq![#[trigger] s.lfs[i], #[trigger] s.lfs[j]] {
                let (i, j) = choose|i: int, j: int|
                    0 <= i < j < s.lfs.len() && f == seq![#[trigger] s.lfs[i], #[trigger] s.lfs[j]];
                keep::law_pair_is_found(s.base, s.crc, s.lfs, attempts, i, j);
            } else if power2::pow2(s.lfs.len()) <= s.cap {
                let choices = choose|choices: Seq<bool>|
                    (#[trigger] s.walked(0, start, choices)) matches Some(end) && s.solved_by(end);
                beam::law_wide_beam_misses_nothing(s, validator, 0, choices);
            } else {
                let choices = choose|choices: Seq<bool>|
                    s.never_cut(0, seq![start], start, choices) && ((#[trigger] s.walked(
                        0,
                        start,
                        choices,
                    )) matches Some(end) && s.solved_by(end));
                leader::law_uncut_choice_is_found(s, validator, 0, choices);
            }
        }
        let fix = per_file::section_fix(base, record, cap).0;
        assert(fix is Some);
        assert(s.solves(fix->0));
    }
}

/// An archive whose natural pairs all stand in headers and in the packed contents of entries
/// that the first round of fixing sees is recovered, byte for byte, from its damaged form if
/// in each of these the natural pairs can be found and nothing else solves its packed
/// contents.
pub proof fn law_findable_pairs_come_back(data: Seq<u8>, cap: nat, natural: Seq<Seq<usize>>)
    requires
        corrupt::corrupted(data).len() <= usize::MAX,
    ensures
        ({
            let c = corrupt::corrupted(data);
            let d = recover::headers_settled(c);
            left_to_files(data, natural) && (forall|j: int|
                0 <= j < natural.len() ==> {
                    let s = per_file::section_model(d.candidate(), #[trigger] d.bad_record(j), cap);
                    let f = offsets(d, j, natural[j]);
                    findable(s, oracle::validator_for(d.bad_record(j).entry.name), f)
                        && follow::only_solution(s, f)
                }) ==> (recover::recovered(c, cap) matches Ok(r) && r.data == data)
        }),
{
    let c = corrupt::corrupted(data);
    let d = recover::headers_settled(c);
    if left_to_files(data, natural) && (forall|j: int|
        0 <= j < natural.len() ==> {
            let s = per_file::section_model(d.candidate(), #[trigger] d.bad_record(j), cap);
            let f = offsets(d, j, natural[j]);
            findable(s, oracle::validator_for(d.bad_record(j).entry.name), f) && follow::only_solution(s, f)
        }) {
        recover::lemma_headers_settled(c);
        assert forall|j: int| 0 <= j < natural.len() implies (#[trigger] d.fixes(cap)[j]).0 == Some(
            offsets(d, j, natural[j]),
        ) by {
            lemma_bad_record_inside(d, j);
            law_only_solution_is_found(
                d.candidate(),
                d.bad_record(j),
                cap,
                offsets(d, j, natural[j]),
            );
        }
        law_natural_pairs_come_back(data, cap, natural);
    }
}

/// The search in the `j`-th entry that needs a fix finds the places `f`, or they are in plain
/// sight and nothing else solves the entry's packed contents.
pub open spec fn comes_upon(d: DamageModel, cap: nat, j: int, f: Seq<usize>) -> bool {
    let s = per_file::section_model(d.candidate(), d.bad_record(j), cap);
    ||| d.fixes(cap)[j].0 == Some(f)
    ||| follow::in_plain_sight(s, oracle::validator_for(d.bad_record(j).entry.name), f)
        && follow::only_solution(s, f)
}

/// The rounds of fixing lead back to the data: in each of them the searches come, in the
/// entries that need a fix, upon the places of the natural pairs that `rounds` names for
/// them, and after the last one just those carriage returns are kept that were there before
/// the damage.
pub open spec fn leads_back(
    data: Seq<u8>,
    d: DamageModel,
    cap: nat,
    rounds: Seq<Seq<Seq<usize>>>,
) -> bool
    decreases rounds.len(),
{
    let natural = rounds[0];
    let fixed = DamageModel { kept: kept_with(d.kept, natural, natural.len()), ..d };
    &&& rounds.len() > 0
    &&& d.fixable()
    &&& natural.len() == d.bad_count()
    &&& forall|j: int| 0 <= j < natural.len() ==> lie_in(d, j, #[trigger] natural[j])
    &&& forall|j: int|
        0 <= j < natural.len() ==> comes_upon(d, cap, j, offsets(d, j, #[trigger] natural[j]))
    &&& if rounds.len() == 1 {
        account_for(data, d, natural)
    } else {
        fixed.dropped_count() < d.dropped_count() && leads_back(data, fixed, cap, rounds.skip(1))
    }
}

proof fn lemma_kept_with_inside(d: DamageModel, natural: Seq<Seq<usize>>, n: nat)
    requires
        d.wf(),
        n <= natural.len(),
        forall|j: int| 0 <= j < natural.len() ==> lie_in(d, j, #[trigger] natural[j]),
    ensures
        (DamageModel { kept: kept_with(d.kept, natural, n), ..d }).wf(),
    decreases n,
{
    if n > 0 {
        lemma_kept_with_inside(d, natural, (n - 1) as nat);
        let before = kept_with(d.kept, natural, (n - 1) as nat);
        let more = natural[n - 1];
        assert(lie_in(d, n - 1, more));
        assert forall|i: int| 0 <= i < (before + more).len() implies #[trigger] (before + more)[i]
            < d.crlf.len() by {
            if i >= before.len() {
                assert(more[i - before.len()] < d.crlf.len());
            } else {
                assert((DamageModel { kept: before, ..d }).kept[i] < d.crlf.len());
            }
        }
    }
}

proof fn lemma_leads_back(
    data: Seq<u8>,
    d: DamageModel,
    cap: nat,
    spent: u64,
    rounds: Seq<Seq<Seq<usize>>>,
)
    requires
        corrupt::corrupted(data).len() <= usize::MAX,
        d.data == corrupt::corrupted(data),
        d.wf(),
    ensures
        zip_util::valid_zip(data) && leads_back(data, d, cap, rounds) && d.all_search_well(
            cap,
            spent,
        ) ==> d.files_fixed(cap, spent) is Some,
    decreases rounds.len(),
{
    if zip_util::valid_zip(data) && leads_back(data, d, cap, rounds) && d.all_search_well(
        cap,
        spent,
    ) {
        let natural = rounds[0];
        let fixes = d.fixes(cap);
        let fixed = DamageModel { kept: kept_with(d.kept, natural, natural.len()), ..d };
        per_file::lemma_files_fixed(d, cap, spent);
        assert forall|j: int| 0 <= j < natural.len() implies (#[trigger] fixes[j]).0 == Some(
            offsets(d, j, natural[j]),
        ) by {
            assert(comes_upon(d, cap, j, offsets(d, j, natural[j])));
            assert(per_file::misses_nothing(d.candidate(), d.bad_record(j), cap));
        }
        lemma_gathered(d, fixes, natural, natural.len());
        if rounds.len() == 1 {
            lemma_account(data, d, natural);
            assert(d.finished(fixes, spent) is Some);
        } else {
            lemma_kept_with_inside(d, natural, natural.len());
            assert(leads_back(data, fixed, cap, rounds.skip(1)));
            assert(fixed.fixable()) by {
                reveal_with_fuel(leads_back, 2);
            }
            assert(d.next_round(fixes) == Some(fixed));
            lemma_leads_back(
                data,
                fixed,
                cap,
                per_file::attempts_after(spent, fixes, fixes.len()),
                rounds.skip(1),
            );
        }
    }
}

/// An archive with natural pairs in several files is recovered, byte for byte, from its
/// damaged form if the rounds of fixing lead back to it and it is the only archive among the
/// candidates. An entry that lacks some of its carriage returns hides the entries behind it,
/// so that each round deals with the entries up to the next one that does. That the searches
/// miss nothing that is in plain sight, every recovery shows.
pub proof fn law_pairs_in_several_files_come_back(
    data: Seq<u8>,
    cap: nat,
    rounds: Seq<Seq<Seq<usize>>>,
)
    requires
        corrupt::corrupted(data).len() <= usize::MAX,
    ensures
        ({
            let c = corrupt::corrupted(data);
            zip_util::valid_zip(data) && undo::only_archive(data) && leads_back(
                data,
                recover::headers_settled(c),
                cap,
                rounds,
            ) && recover::headers_settled(c).all_search_well(cap, 0) ==> (recover::recovered(
                c,
                cap,
            ) matches Ok(r) && r.data == data)
        }),
{
    let c = corrupt::corrupted(data);
    let d = recover::headers_settled(c);
    if zip_util::valid_zip(data) && undo::only_archive(data) && leads_back(data, d, cap, rounds)
        && d.all_search_well(cap, 0) {
        undo::law_recovery_is_unambiguous(data, cap);
        if zip_util::crlfs(c).len() == 0 {
            undo::law_pairs_of_damage(data);
            undo::law_recovery_undoes_damage(data, cap);
        } else {
            recover::lemma_headers_settled(c);
            lemma_leads_back(data, d, cap, 0, rounds);
        }
    }
}

/// Whatever archive the damaged data stems from: if it is the only one among the candidates
/// and the rounds of fixing lead back to it, it is what was recovered, byte for byte.
pub open spec fn keeps_pairs(
    damaged: Seq<u8>,
    cap: nat,
    result: Result<recover::ResultModel, recover::RecoverError>,
) -> bool {
    forall|data: Seq<u8>, rounds: Seq<Seq<Seq<usize>>>|
        #![trigger leads_back(data, recover::headers_settled(damaged), cap, rounds)]
        damaged == corrupt::corrupted(data) && zip_util::valid_zip(data) && undo::only_archive(data)
            && leads_back(data, recover::headers_settled(damaged), cap, rounds) ==> (result matches Ok(
            r,
        ) && r.data == data)
}

/// Recovery keeps natural pairs: the cheap strategies give nothing but the only archive, and
/// the searches in the files miss nothing that is in plain sight.
pub proof fn lemma_recovery_keeps_pairs(damaged: Seq<u8>, cap: nat)
    requires
        damaged.len() <= usize::MAX,
        zip_util::crlfs(damaged).len() > 0 && recover::removed_all(damaged) is None
            && recover::headers_settled(damaged).fixable() ==> recover::headers_settled(
            damaged,
        ).all_search_well(cap, 0),
    ensures
        keeps_pairs(damaged, cap, recover::recovered(damaged, cap)),
{
    let d = recover::headers_settled(damaged);
    assert forall|data: Seq<u8>, rounds: Seq<Seq<Seq<usize>>>|
        #![trigger leads_back(data, d, cap, rounds)]
        damaged == corrupt::corrupted(data) && zip_util::valid_zip(data) && undo::only_archive(data)
            && leads_back(data, d, cap, rounds) implies (recover::recovered(damaged, cap) matches Ok(
        r,
    ) && r.data == data) by {
        undo::law_recovery_is_unambiguous(data, cap);
        if zip_util::crlfs(damaged).len() == 0 {
            undo::law_pairs_of_damage(data);
            undo::law_recovery_undoes_damage(data, cap);
        } else if recover::removed_all(damaged) is None {
            law_pairs_in_several_files_come_back(data, cap, rounds);
        }
    }
}

/// If without its one natural pair an archive's headers cannot be followed, an archive is
/// recovered all the same: the original if no other candidate is one.
pub proof fn law_single_pair_comes_back(data: Seq<u8>, cap: nat, k: nat)
    requires
        corrupt::corrupted(data).len() <= usize::MAX,
    ensures
        ({
            let c = corrupt::corrupted(data);
            &&& zip_util::valid_zip(data)
            &&& recover::headers_settled(c).records() is Err
            &&& k < zip_util::crlfs(c).len()
            &&& recover::all_removed(c).also(k as usize).mask() == undo::undoing(data)
        }) ==> (recover::recovered(corrupt::corrupted(data), cap) matches Ok(r) && (undo::only_archive(data)
            ==> r.data == data)),
{
    let c = corrupt::corrupted(data);
    undo::law_original_is_a_candidate(data);
    undo::law_recovery_is_sound(c, cap);
    if k < zip_util::crlfs(c).len() {
        undo::law_single_kept_is_found(c, k);
    }
}

/// Natural pairs that the searches in the files did not come upon, one or two, are patched
/// in: an archive is recovered, the original if no other candidate is one.
pub proof fn law_missed_pairs_are_patched_in(data: Seq<u8>, cap: nat, i: nat, j: nat)
    requires
        corrupt::corrupted(data).len() <= 200_000_000,
    ensures
        ({
            let c = corrupt::corrupted(data);
            let d = recover::headers_settled(c);
            let fixes = d.fixes(cap);
            zip_util::valid_zip(data) && zip_util::crlfs(c).len() > 0 && d.fixable() && (d.gathered(
                fixes,
                fixes.len(),
            ) matches Some(kept) && {
                let fixed = DamageModel { kept, ..d };
                ||| j < fixed.remaining().len() && fixed.also(fixed.remaining()[j as int]).mask()
                    == undo::undoing(data)
                ||| i < j < fixed.insertable().len() && fixed.also(
                    fixed.insertable()[i as int],
                ).also(fixed.insertable()[j as int]).mask() == undo::undoing(data)
            }) ==> (recover::recovered(c, cap) matches Ok(r) && (undo::only_archive(data) ==> r.data
                == data))
        }),
{
    let c = corrupt::corrupted(data);
    let d = recover::headers_settled(c);
    let fixes = d.fixes(cap);
    undo::law_original_is_a_candidate(data);
    undo::law_recovery_is_sound(c, cap);
    if let Some(kept) = d.gathered(fixes, fixes.len()) {
        let fixed = DamageModel { kept, ..d };
        if j < fixed.remaining().len() {
            undo::law_one_more_is_found(fixed, j);
        }
        if i < j < fixed.insertable().len() {
            undo::law_two_more_is_found(fixed, i, j);
        }
    }
}

} // verus!
