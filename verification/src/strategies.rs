//! What the strategies try, and what a result tells of how it was found.
use vstd::prelude::*;

use crate::beam;
use crate::candidate;
use crate::directory;
use crate::keep;
use crate::mask;
use crate::oracle;
use crate::per_file;
use crate::positions;
use crate::recover;
use crate::recover::{DamageModel, RecoverError, ResultModel};
use crate::splice;
use crate::text;
use crate::undo;
use crate::unpack;
use crate::zip_util;

verus! {

/// The pairs that are listed are just the places with a carriage return and a line feed
/// behind it, in order.
pub proof fn law_pairs_are_listed(data: Seq<u8>)
    requires
        data.len() <= usize::MAX,
    ensures
        forall|a: int, b: int|
            0 <= a < b < zip_util::crlfs(data).len() ==> zip_util::crlfs(data)[a]
                < zip_util::crlfs(data)[b],
        forall|i: usize| #[trigger]
            zip_util::crlfs(data).contains(i) <==> i + 1 < data.len() && data[i as int] == 0x0D
                && data[i + 1] == 0x0A,
{
    let crlf = zip_util::crlfs(data);
    recover::lemma_crlfs(data);
    assert forall|i: usize| #[trigger] crlf.contains(i) <==> i + 1 < data.len() && data[i as int]
        == 0x0D && data[i + 1] == 0x0A by {
        if crlf.contains(i) {
            let k = choose|k: int| 0 <= k < crlf.len() && crlf[k] == i;
            assert(zip_util::crlf_at(data, crlf[k] as int));
        } else if i + 1 < data.len() && data[i as int] == 0x0D && data[i + 1] == 0x0A {
            assert(zip_util::crlf_at(data, i as int));
        }
    }
}

/// Data is an archive just if it begins with a local header, its entries can be followed, and
/// the contents of every one of them have the checksum that its header states.
pub proof fn law_archive_has_no_bad_entry(data: Seq<u8>)
    ensures
        zip_util::valid_zip(data) <==> {
            &&& directory::mark_at(data, 0, 3, 4)
            &&& zip_util::records_from(data, 0) matches Ok(records)
            &&& forall|i: int|
                0 <= i < records.len() ==> (#[trigger] records[i]).entry.crc32_actual == Some(
                    records[i].entry.crc32_expected,
                )
        },
{
    directory::law_local_header_mark(data, 0);
    if let Ok(records) = zip_util::records_from(data, 0) {
        let entries = records.map_values(|r: zip_util::RecordModel| r.entry);
        assert forall|i: int| 0 <= i < records.len() implies #[trigger] entries[i]
            == records[i].entry by {}
        if zip_util::valid_zip(data) {
            assert forall|i: int| 0 <= i < records.len() implies (
            #[trigger] records[i]).entry.crc32_actual == Some(records[i].entry.crc32_expected) by {
                assert(entries[i].crc_ok());
            }
        }
        if forall|i: int|
            0 <= i < records.len() ==> (#[trigger] records[i]).entry.crc32_actual == Some(
                records[i].entry.crc32_expected,
            ) {
            assert forall|i: int| 0 <= i < entries.len() implies (#[trigger] entries[i]).crc_ok() by {
                assert(records[i].entry.crc32_actual == Some(records[i].entry.crc32_expected));
            }
        }
    }
}

/// The entries that need a fix are all those whose contents could not be unpacked or do not
/// have the checksum that the header states, in order; files are fixed just if the entries
/// can be followed and there is one such.
pub proof fn law_bad_entries_need_a_fix(d: DamageModel)
    requires
        d.wf(),
    ensures
        d.fixable() <==> (d.records() matches Ok(records) && exists|i: int|
            0 <= i < records.len() && (#[trigger] records[i]).entry.crc32_actual != Some(
                records[i].entry.crc32_expected,
            )),
        d.records() matches Ok(records) ==> {
            let bad = per_file::bad_of(records);
            &&& forall|a: int, b: int| 0 <= a < b < bad.len() ==> bad[a] < bad[b]
            &&& forall|i: usize| #[trigger]
                bad.contains(i) <==> i < records.len() && records[i as int].entry.crc32_actual
                    != Some(records[i as int].entry.crc32_expected)
        },
{
    recover::lemma_crlfs(d.data);
    mask::lemma_left_len(d.data, d.crlf, d.mask(), d.data.len() as int);
    if let Ok(records) = d.records() {
        let hit = |i: int| !records[i].entry.crc_ok();
        let bad = per_file::bad_of(records);
        per_file::lemma_record_count(d.candidate(), 0);
        positions::lemma_positions(records.len(), hit);
        assert forall|i: usize| #[trigger] bad.contains(i) <==> i < records.len()
            && records[i as int].entry.crc32_actual != Some(
            records[i as int].entry.crc32_expected,
        ) by {
            if bad.contains(i) {
                let k = choose|k: int| 0 <= k < bad.len() && bad[k] == i;
                assert(hit(bad[k] as int));
            } else if i < records.len() && !records[i as int].entry.crc_ok() {
                assert(hit(i as int));
                assert(bad.contains((i as int) as usize));
            }
        }
        if bad.len() > 0 {
            assert(bad.contains(bad[0]));
            assert(!records[bad[0] as int].entry.crc_ok());
        }
        if exists|i: int|
            0 <= i < records.len() && (#[trigger] records[i]).entry.crc32_actual != Some(
                records[i].entry.crc32_expected,
            ) {
            let i = choose|i: int|
                0 <= i < records.len() && (#[trigger] records[i]).entry.crc32_actual != Some(
                    records[i].entry.crc32_expected,
                );
            assert(bad.contains(i as usize));
        }
    }
}

/// The line feeds that a section is searched at are all that it has, in order.
pub proof fn law_every_line_feed_is_searched_at(section: Seq<u8>)
    requires
        section.len() <= usize::MAX,
    ensures
        ({
            let lfs = per_file::lfs_of(section);
            &&& forall|a: int, b: int| 0 <= a < b < lfs.len() ==> lfs[a] < lfs[b]
            &&& forall|i: usize| #[trigger]
                lfs.contains(i) <==> i < section.len() && section[i as int] == 0x0A
        }),
{
    let lfs = per_file::lfs_of(section);
    let hit = |i: int| section[i] == crate::corrupt::LF;
    positions::lemma_positions(section.len(), hit);
    assert forall|i: usize| #[trigger] lfs.contains(i) <==> i < section.len() && section[i as int]
        == 0x0A by {
        if lfs.contains(i) {
            let k = choose|k: int| 0 <= k < lfs.len() && lfs[k] == i;
            assert(hit(lfs[k] as int));
        } else if i < section.len() && section[i as int] == 0x0A {
            assert(hit(i as int));
            assert(lfs.contains((i as int) as usize));
        }
    }
}

/// The line feed of a pair that does not stand at the front of the data does not stand at the
/// front of a candidate.
proof fn lemma_place_behind_front(d: DamageModel, k: int)
    requires
        d.wf(),
        0 <= k < d.crlf.len(),
        d.crlf[k] > 0,
    ensures
        d.lf_place(k) > 0,
{
    let m = d.mask();
    recover::lemma_crlfs(d.data);
    assert(zip_util::crlf_at(d.data, d.crlf[k] as int));
    let q = if mask::dropped(d.crlf, m, 0) {
        1int
    } else {
        0int
    };
    if mask::dropped(d.crlf, m, 0) && mask::dropped(d.crlf, m, 1) {
        let a = choose|a: int| 0 <= a < d.crlf.len() && #[trigger] d.crlf[a] == 0 && m[a];
        let b = choose|b: int| 0 <= b < d.crlf.len() && #[trigger] d.crlf[b] == 1 && m[b];
        assert(zip_util::crlf_at(d.data, d.crlf[a] as int));
        assert(zip_util::crlf_at(d.data, d.crlf[b] as int));
    }
    assert(!mask::dropped(d.crlf, m, q));
    mask::lemma_left_prefix(d.data, d.crlf, m, q + 1, d.crlf[k] + 1);
    mask::lemma_left_len(d.data, d.crlf, m, d.crlf[k] + 1);
    let n = positions::rank(d.crlf, d.crlf[k] + 1);
    positions::lemma_rank(d.crlf, d.crlf[k] + 1);
    mask::lemma_removed_upto(m, n, m.len());
}

/// Every pair that is dropped is tried: if keeping it too gives an archive, patching finds
/// one in data of up to two hundred million bytes.
pub proof fn law_every_dropped_pair_is_tried(d: DamageModel, k: usize)
    requires
        d.wf(),
        d.data.len() <= 200_000_000,
        k < d.crlf.len(),
        !d.kept.contains(k),
    ensures
        zip_util::valid_zip(d.also(k).candidate()) ==> d.patched() is Some,
{
    let hit = |i: int| d.mask()[i];
    recover::lemma_crlfs(d.data);
    positions::lemma_positions(d.crlf.len(), hit);
    assert(hit(k as int));
    let rest = d.remaining();
    assert(rest.contains((k as int) as usize));
    let j = choose|j: int| 0 <= j < rest.len() && rest[j] == k;
    undo::law_one_more_is_found(d, j as nat);
}

/// Every two pairs that are dropped are tried together: if keeping both gives an archive,
/// patching finds one in data of up to two hundred million bytes. Only a pair at the very
/// front of the data is tried alone.
pub proof fn law_every_two_dropped_pairs_are_tried(d: DamageModel, k: usize, m: usize)
    requires
        d.wf(),
        d.data.len() <= 200_000_000,
        k < m < d.crlf.len(),
        d.crlf[k as int] > 0,
        !d.kept.contains(k),
        !d.kept.contains(m),
    ensures
        zip_util::valid_zip(d.also(k).also(m).candidate()) ==> d.patched() is Some,
{
    let hit = |i: int| d.mask()[i] && d.lf_place(i) > 0;
    recover::lemma_crlfs(d.data);
    positions::lemma_positions(d.crlf.len(), hit);
    assert(d.crlf[k as int] < d.crlf[m as int]);
    lemma_place_behind_front(d, k as int);
    lemma_place_behind_front(d, m as int);
    assert(hit(k as int) && hit(m as int));
    let places = d.insertable();
    assert(places.contains((k as int) as usize) && places.contains((m as int) as usize));
    let i = choose|i: int| 0 <= i < places.len() && places[i] == k;
    let j = choose|j: int| 0 <= j < places.len() && places[j] == m;
    if j < i {
        assert(places[j] < places[i]);
    }
    undo::law_two_more_is_found(d, i as nat, j as nat);
}

/// Longer data is not patched.
pub proof fn law_long_data_is_not_patched(d: DamageModel)
    requires
        d.data.len() > 200_000_000,
    ensures
        d.patched() is None,
{
}

/// Data without a pair is an archive or cannot be recovered; from data with pairs, nothing
/// can be recovered only when all strategies have failed, and the error then says how many
/// pairs there are.
pub proof fn law_what_cannot_be_recovered(data: Seq<u8>, cap: nat)
    requires
        data.len() <= usize::MAX,
    ensures
        recover::recovered(data, cap) == Err::<ResultModel, _>(RecoverError::NotAZip)
            <==> zip_util::crlfs(data).len() == 0 && !zip_util::valid_zip(data),
        recover::recovered(data, cap) matches Err(RecoverError::Exhausted { crlfs }) ==> crlfs
            == zip_util::crlfs(data).len() && crlfs > 0,
        zip_util::crlfs(data).len() == 0 && zip_util::valid_zip(data) ==> (recover::recovered(
            data,
            cap,
        ) matches Ok(r) && r.data == data),
{
    recover::lemma_crlfs(data);
}

/// If settling the headers is enough to make an archive, something is recovered.
pub proof fn law_settled_headers_suffice(data: Seq<u8>, cap: nat)
    requires
        data.len() <= usize::MAX,
        zip_util::crlfs(data).len() > 0,
        zip_util::valid_zip(recover::headers_settled(data).candidate()),
    ensures
        recover::recovered(data, cap) matches Ok(r) && (r.data == recover::headers_settled(
            data,
        ).candidate() || r.data == recover::all_removed(data).candidate()),
{
    let d = recover::headers_settled(data);
    recover::lemma_headers_settled(data);
    law_archive_has_no_bad_entry(d.candidate());
    law_bad_entries_need_a_fix(d);
}

/// The data with just the pairs of the given indices kept.
pub open spec fn keeping_just(data: Seq<u8>, kept: Seq<usize>) -> Seq<u8> {
    (DamageModel { data, crlf: zip_util::crlfs(data), kept }).candidate()
}

/// What a result says of how it was found is so: that the data was not damaged, that all
/// pairs were dropped, which one was kept or how many were, and how many more were patched
/// in.
pub open spec fn tells_how(data: Seq<u8>, r: ResultModel) -> bool {
    ||| r.strategy == "no_corruption"@ && r.attempts == 0 && r.data == data && zip_util::crlfs(
        data,
    ).len() == 0
    ||| r.strategy == "remove_all"@ && r.attempts == 1 && exists|kept: Seq<usize>|
        kept.len() == 0 && r.data == #[trigger] keeping_just(data, kept)
    ||| exists|k: usize|
        r.strategy == text::framed("keep_one_global_"@, k as nat, ""@) && r.attempts == k + 1
            && r.data == #[trigger] keeping_just(data, seq![k])
    ||| exists|kept: Seq<usize>|
        r.strategy == text::framed("header_stabilized("@, kept.len(), "_kept)"@) && r.attempts == 1
            && r.data == #[trigger] keeping_just(data, kept)
    ||| exists|kept: Seq<usize>|
        r.strategy == text::framed("per_file_dfs("@, kept.len(), "_kept)"@) && r.data
            == #[trigger] keeping_just(data, kept)
    ||| exists|kept: Seq<usize>, k: usize|
        r.strategy == text::framed("patched("@, kept.len(), "_+1)"@) && r.attempts == 1 && r.data
            == #[trigger] keeping_just(data, kept.push(k))
    ||| exists|kept: Seq<usize>, k: usize, m: usize|
        r.strategy == text::framed("patched("@, kept.len(), "_+2fast)"@) && r.data
            == #[trigger] keeping_just(data, kept.push(k).push(m))
}

/// The single pair that is kept is the first that gives an archive, and each one tried is an
/// attempt.
pub proof fn law_first_single_is_kept(data: Seq<u8>)
    requires
        data.len() <= usize::MAX,
    ensures
        recover::one_kept(data, 0) matches Some(r) ==> exists|k: usize|
            #![trigger keeping_just(data, seq![k])]
            {
                &&& k < zip_util::crlfs(data).len()
                &&& r.data == keeping_just(data, seq![k])
                &&& r.attempts == k + 1
                &&& r.strategy == text::framed("keep_one_global_"@, k as nat, ""@)
                &&& zip_util::valid_zip(r.data)
                &&& forall|m: usize|
                    m < k ==> !zip_util::valid_zip(#[trigger] keeping_just(data, seq![m]))
            },
{
    recover::lemma_crlfs(data);
    if recover::one_kept(data, 0) is Some {
        let k = lemma_one_kept_first(data, 0);
        assert(keeping_just(data, seq![k]) == recover::one_kept(data, 0)->0.data);
    }
}

proof fn lemma_one_kept_first(data: Seq<u8>, i: nat) -> (k: usize)
    requires
        data.len() <= usize::MAX,
        recover::one_kept(data, i) is Some,
    ensures
        i <= k < zip_util::crlfs(data).len(),
        ({
            let r = recover::one_kept(data, i)->0;
            &&& r.data == keeping_just(data, seq![k])
            &&& r.attempts == k + 1
            &&& r.strategy == text::framed("keep_one_global_"@, k as nat, ""@)
            &&& zip_util::valid_zip(r.data)
            &&& forall|m: usize|
                i <= m < k ==> !zip_util::valid_zip(#[trigger] keeping_just(data, seq![m]))
        }),
    decreases zip_util::crlfs(data).len() - i,
{
    recover::lemma_crlfs(data);
    assert(Seq::<usize>::empty().push(i as usize) =~= seq![i as usize]);
    let c = recover::all_removed(data).also(i as usize).candidate();
    assert(c == keeping_just(data, seq![i as usize]));
    if zip_util::valid_zip(c) {
        i as usize
    } else {
        lemma_one_kept_first(data, i + 1)
    }
}

proof fn lemma_one_more_tells(d: DamageModel, j: nat)
    requires
        d.crlf == zip_util::crlfs(d.data),
    ensures
        d.one_more(j) matches Some(r) ==> tells_how(d.data, r),
    decreases d.remaining().len() - j,
{
    if j < d.remaining().len() {
        let k = d.remaining()[j as int];
        let c = d.also(k).candidate();
        assert(c == keeping_just(d.data, d.kept.push(k)));
        lemma_one_more_tells(d, j + 1);
    }
}

proof fn lemma_two_more_tells(d: DamageModel, i: nat, j: nat, tested: u64)
    requires
        d.crlf == zip_util::crlfs(d.data),
    ensures
        d.two_more(i, j, tested) matches Some(r) ==> tells_how(d.data, r),
    decreases d.insertable().len() - i, d.insertable().len() - j,
{
    let places = d.insertable();
    if i < places.len() {
        if j < places.len() {
            let k = places[i as int];
            let m = places[j as int];
            assert(d.also(k).also(m).candidate() == keeping_just(
                d.data,
                d.kept.push(k).push(m),
            ));
            lemma_two_more_tells(d, i, j + 1, beam::wrap64(tested + 1));
        } else {
            lemma_two_more_tells(d, i + 1, i + 2, tested);
        }
    }
}

proof fn lemma_files_fixed_tells(d: DamageModel, cap: nat, spent: u64)
    requires
        d.crlf == zip_util::crlfs(d.data),
    ensures
        d.files_fixed(cap, spent) matches Some(r) ==> tells_how(d.data, r),
    decreases d.dropped_count(),
{
    let fixes = d.fixes(cap);
    per_file::lemma_files_fixed(d, cap, spent);
    if let Some(kept) = d.gathered(fixes, fixes.len()) {
        let fixed = DamageModel { kept, ..d };
        assert(fixed.candidate() == keeping_just(d.data, kept));
        lemma_one_more_tells(fixed, 0);
        lemma_two_more_tells(fixed, 0, 1, 0);
    }
    if let Some(next) = d.next_round(fixes) {
        lemma_files_fixed_tells(next, cap, per_file::attempts_after(spent, fixes, fixes.len()));
    }
}

/// Every result says truly how it was found.
pub proof fn law_results_tell_how(data: Seq<u8>, cap: nat)
    requires
        data.len() <= usize::MAX,
    ensures
        recover::recovered(data, cap) matches Ok(r) ==> tells_how(data, r),
{
    let none = recover::all_removed(data);
    assert(none.candidate() == keeping_just(data, Seq::empty()));
    if zip_util::crlfs(data).len() > 0 && recover::removed_all(data) is None {
        let d = recover::headers_settled(data);
        assert(d.candidate() == keeping_just(data, d.kept));
        if d.fixable() {
            lemma_files_fixed_tells(d, cap, 0);
        } else if recover::one_kept(data, 0) is Some {
            let k = lemma_one_kept_first(data, 0);
            assert(keeping_just(data, seq![k]) == recover::one_kept(data, 0)->0.data);
        }
    }
}

/// The search in an entry's packed contents goes by what its header and its name tell: it is
/// made over all of the packed contents and at every line feed in them.
pub proof fn law_search_knows_the_entry(
    archive: Seq<u8>,
    record: zip_util::RecordModel,
    cap: nat,
)
    requires
        0 <= record.start <= record.end <= archive.len() <= usize::MAX,
    ensures
        ({
            let s = per_file::section_model(archive, record, cap);
            &&& s.base.len() == record.end - record.start
            &&& forall|i: int|
                0 <= i < s.base.len() ==> #[trigger] s.base[i] == archive[record.start + i]
            &&& forall|i: usize| #[trigger]
                s.lfs.contains(i) <==> i < s.base.len() && s.base[i as int] == 0x0A
            &&& s.wf()
            &&& s.crc == record.entry.crc32_expected
            &&& s.size == record.entry.uncompressed_size
            &&& s.prefix == oracle::known_signature(record.entry.name)
            &&& s.trailer == oracle::known_trailer(record.entry.name)
            &&& s.cap == cap
        }),
{
    let s = per_file::section_model(archive, record, cap);
    law_every_line_feed_is_searched_at(s.base);
    assert forall|i: int| 0 <= i < s.lfs.len() implies #[trigger] s.lfs[i] < s.base.len() by {
        assert(s.lfs.contains(s.lfs[i]));
    }
}

/// A fix of an entry is right by its header: with the carriage returns put back, the packed
/// contents unpack to the stated checksum, or a candidate that put them back has read all of
/// the packed contents and put out as much as is stated, with the stated checksum and, as far
/// as its name tells, the right end. It puts them back in front of line feeds only.
pub proof fn law_fix_is_right_by_the_header(
    archive: Seq<u8>,
    record: zip_util::RecordModel,
    cap: nat,
)
    requires
        0 <= record.start <= record.end <= archive.len() <= usize::MAX,
    ensures
        ({
            let section = archive.subrange(record.start, record.end);
            let e = record.entry;
            per_file::section_fix(archive, record, cap).0 matches Some(f) ==> {
                ||| unpack::inflates_to(splice::with_crs(section, f), e.crc32_expected)
                ||| exists|c: candidate::CandidateModel|
                    #![trigger c.has_read(splice::with_crs(section, f))]
                    {
                        &&& c.has_read(splice::with_crs(section, f))
                        &&& c.inserts == f
                        &&& c.done
                        &&& c.output.total_out == e.uncompressed_size
                        &&& c.output.crc == e.crc32_expected
                        &&& c.ends_with(oracle::known_trailer(e.name))
                    }
            }
        }),
{
    let s = per_file::section_model(archive, record, cap);
    let validator = oracle::validator_for(record.entry.name);
    law_search_knows_the_entry(archive, record, cap);
    beam::law_beam_is_sound(s, validator, 0);
    let (found, attempts) = s.beam_fixed(validator, 0);
    keep::law_keep_fixed_is_sound(s.base, s.crc, s.lfs, attempts);
    if let Some(f) = found {
        if !unpack::inflates_to(splice::with_crs(s.base, f), s.crc) {
            let c = choose|c: candidate::CandidateModel| #[trigger]
                s.solved_by(c) && s.tracked_by(c, s.base.len() as int, s.lfs.len()) && c.inserts
                    == f;
            assert(c.has_read(splice::with_crs(s.base, f)));
        }
    }
}

/// The exhaustive search is made only where the beam search has found nothing, and goes on
/// counting attempts.
pub proof fn law_beam_search_comes_first(
    archive: Seq<u8>,
    record: zip_util::RecordModel,
    cap: nat,
)
    ensures
        ({
            let s = per_file::section_model(archive, record, cap);
            let beam = s.beam_fixed(oracle::validator_for(record.entry.name), 0);
            let fix = per_file::section_fix(archive, record, cap);
            &&& beam.0 is Some ==> fix == beam
            &&& beam.0 is None ==> fix == keep::keep_fixed(s.base, s.crc, s.lfs, beam.1)
        }),
{
}

/// Patching keeps the first of the dropped pairs that gives an archive with it, if there is
/// one.
pub proof fn law_first_dropped_pair_is_patched_in(d: DamageModel)
    requires
        d.wf(),
        d.data.len() <= 200_000_000,
        exists|k: usize|
            k < d.crlf.len() && !d.kept.contains(k) && zip_util::valid_zip(
                #[trigger] keeping_just(d.data, d.kept.push(k)),
            ),
    ensures
        d.patched() matches Some(r) && exists|k: usize|
            {
                &&& k < d.crlf.len()
                &&& !d.kept.contains(k)
                &&& r.data == #[trigger] keeping_just(d.data, d.kept.push(k))
                &&& zip_util::valid_zip(r.data)
                &&& forall|m: usize|
                    m < k && !d.kept.contains(m) ==> !zip_util::valid_zip(
                        #[trigger] keeping_just(d.data, d.kept.push(m)),
                    )
            },
{
    let some = choose|k: usize|
        k < d.crlf.len() && !d.kept.contains(k) && zip_util::valid_zip(
            #[trigger] keeping_just(d.data, d.kept.push(k)),
        );
    let hit = |k: int| d.mask()[k];
    recover::lemma_crlfs(d.data);
    positions::lemma_positions(d.crlf.len(), hit);
    let rest = d.remaining();
    assert(hit(some as int));
    assert(rest.contains((some as int) as usize));
    let at = choose|at: int| 0 <= at < rest.len() && rest[at] == some;
    let j = lemma_one_more_first(d, 0, at as nat);
    let k = rest[j as int];
    assert(hit(k as int));
    assert(keeping_just(d.data, d.kept.push(k)) == d.one_more(0)->0.data);
    assert forall|m: usize| m < k && !d.kept.contains(m) implies !zip_util::valid_zip(
        #[trigger] keeping_just(d.data, d.kept.push(m)),
    ) by {
        assert(hit(m as int));
        assert(rest.contains((m as int) as usize));
        let i = choose|i: int| 0 <= i < rest.len() && rest[i] == m;
        if j <= i {
            if j < i {
                assert(rest[j as int] < rest[i]);
            }
        }
        assert(!zip_util::valid_zip(keeping_just(d.data, d.kept.push(rest[i]))));
    }
}

proof fn lemma_one_more_first(d: DamageModel, i: nat, at: nat) -> (j: nat)
    requires
        d.wf(),
        i <= at < d.remaining().len(),
        zip_util::valid_zip(keeping_just(d.data, d.kept.push(d.remaining()[at as int]))),
    ensures
        i <= j < d.remaining().len(),
        d.one_more(i) matches Some(r) && r.data == keeping_just(
            d.data,
            d.kept.push(d.remaining()[j as int]),
        ) && zip_util::valid_zip(r.data),
        forall|m: int|
            i <= m < j ==> !zip_util::valid_zip(
                keeping_just(d.data, d.kept.push(#[trigger] d.remaining()[m])),
            ),
    decreases at - i,
{
    let c = d.also(d.remaining()[i as int]).candidate();
    assert(c == keeping_just(d.data, d.kept.push(d.remaining()[i as int])));
    if zip_util::valid_zip(c) {
        i
    } else {
        lemma_one_more_first(d, i + 1, at)
    }
}

/// Where no single pair will do, the pairs that are patched in together are the first two that
/// give an archive, in the order of the first and then of the second, and the attempts are
/// those made before them. Twice the number of twos up to those of index `i` and `j` among
/// `n` is `i * (2 * n - 1 - i) + 2 * (j - i)`.
pub proof fn law_first_two_are_patched_in(d: DamageModel)
    requires
        d.wf(),
        d.one_more(0) is None,
        d.patched() is Some,
    ensures
        ({
            let r = d.patched()->0;
            let places = d.insertable();
            let n = places.len() as int;
            let two = |i: int, j: int| keeping_just(d.data, d.kept.push(places[i]).push(places[j]));
            exists|i: int, j: int|
                {
                    &&& 0 <= i < j < n
                    &&& r.data == #[trigger] two(i, j)
                    &&& zip_util::valid_zip(r.data)
                    &&& forall|a: int, b: int|
                        0 <= a < b < n && (a < i || a == i && b < j) ==> !zip_util::valid_zip(
                            #[trigger] two(a, b),
                        )
                    &&& exists|c: int|
                        2 * c == i * (2 * n - 1 - i) + 2 * (j - i) - 2 && r.attempts
                            == #[trigger] beam::wrap64(c)
                }
        }),
{
    let places = d.insertable();
    let n = places.len() as int;
    let two = |i: int, j: int| keeping_just(d.data, d.kept.push(places[i]).push(places[j]));
    if n > 0 {
        assert(0 * (2 * n - 1 - 0) == 0);
        lemma_two_more_first(d, 0, 1, 0, 0, two);
    }
}

proof fn lemma_two_more_first(
    d: DamageModel,
    a: nat,
    b: nat,
    tested: u64,
    c: int,
    two: spec_fn(int, int) -> Seq<u8>,
)
    requires
        d.wf(),
        a < b <= d.insertable().len(),
        two == (|i: int, j: int|
            keeping_just(d.data, d.kept.push(d.insertable()[i]).push(d.insertable()[j]))),
        0 <= c,
        tested == beam::wrap64(c),
        2 * c == a * (2 * d.insertable().len() - 1 - a) + 2 * (b - a) - 2,
        forall|i: int, j: int|
            0 <= i < j < d.insertable().len() && (i < a || i == a && j < b)
                ==> !zip_util::valid_zip(#[trigger] two(i, j)),
        d.two_more(a, b, tested) is Some,
    ensures
        ({
            let r = d.two_more(a, b, tested)->0;
            let n = d.insertable().len() as int;
            exists|i: int, j: int|
                {
                    &&& 0 <= i < j < n
                    &&& r.data == #[trigger] two(i, j)
                    &&& zip_util::valid_zip(r.data)
                    &&& forall|x: int, y: int|
                        0 <= x < y < n && (x < i || x == i && y < j) ==> !zip_util::valid_zip(
                            #[trigger] two(x, y),
                        )
                    &&& exists|c: int|
                        2 * c == i * (2 * n - 1 - i) + 2 * (j - i) - 2 && r.attempts
                            == #[trigger] beam::wrap64(c)
                }
        }),
    decreases d.insertable().len() - a, d.insertable().len() - b,
{
    let n = d.insertable().len() as int;
    let places = d.insertable();
    if b >= n {
        assert((a + 1) * (2 * n - 1 - (a + 1)) + 2 == a * (2 * n - 1 - a) + 2 * (n - a))
            by (nonlinear_arith);
        if a + 1 < n {
            lemma_two_more_first(d, a + 1, a + 2, tested, c, two);
        }
    } else {
        let out = d.also(places[a as int]).also(places[b as int]).candidate();
        assert(out == two(a as int, b as int));
        let next = beam::wrap64(tested + 1);
        assert(next == beam::wrap64(c + 1));
        if zip_util::valid_zip(out) {
            let r = d.two_more(a, b, tested)->0;
            assert(r.attempts == beam::wrap64(c));
        } else {
            lemma_two_more_first(d, a, b + 1, next, c + 1, two);
        }
    }
}

/// The attempts of the fixes add up, counted modulo 2^64.
pub proof fn law_attempts_add_up(
    spent: u64,
    fixes: Seq<(Option<Seq<usize>>, u64)>,
    n: nat,
)
    requires
        n <= fixes.len(),
    ensures
        per_file::attempts_after(spent, fixes, n) == (spent + fixes.take(n as int).fold_left(
            0int,
            |sum: int, fix: (Option<Seq<usize>>, u64)| sum + fix.1,
        )) % 0x1_0000_0000_0000_0000,
    decreases n,
{
    let f = |sum: int, fix: (Option<Seq<usize>>, u64)| sum + fix.1;
    let part = fixes.take(n as int);
    reveal_with_fuel(Seq::fold_left, 2);
    if n > 0 {
        law_attempts_add_up(spent, fixes, (n - 1) as nat);
        assert(part.drop_last() =~= fixes.take(n - 1));
        let before = fixes.take(n - 1).fold_left(0int, f);
        let last = fixes[n - 1].1;
        assert(part.fold_left(0int, f) == before + last);
        assert(((spent + before) % 0x1_0000_0000_0000_0000 + last) % 0x1_0000_0000_0000_0000 == (
        spent + before + last) % 0x1_0000_0000_0000_0000);
    } else {
        assert(part.len() == 0);
    }
}

/// Unless a setting asks for a width of at least one, the beam is two thousand candidates
/// wide.
pub proof fn law_width_of_the_beam(setting: Option<Seq<char>>, n: nat)
    ensures
        recover::beam_width(None) == 2000,
        setting matches Some(s) ==> recover::beam_width(setting) == match text::number_of(s) {
            Some(w) => if w >= 1 {
                w as int
            } else {
                2000
            },
            None => 2000,
        },
        1 <= n <= usize::MAX ==> recover::beam_width(Some(text::decimal(n))) == n,
        recover::beam_width(setting) >= 1,
{
    text::law_number_is_read_back(n);
}

/// What an error says.
pub proof fn law_errors_in_words(e: RecoverError, fault: zip_util::ParseFault)
    ensures
        e is NotAZip ==> e.words() == "No CRLF sequences found and data is not a valid ZIP"@,
        e matches RecoverError::Exhausted { crlfs } ==> e.words() == "Recovery failed. "@
            + text::decimal(crlfs as nat) + " CRLF positions, tried all strategies."@,
        fault matches zip_util::ParseFault::HeaderTruncated { offset } ==> fault.message()
            == "Local header truncated at offset "@ + text::decimal(offset as nat),
        fault matches zip_util::ParseFault::HeaderBeyondData { offset } ==> fault.message()
            == "Header extends beyond data at offset "@ + text::decimal(offset as nat),
        fault matches zip_util::ParseFault::DataBeyondFile { name, need, offset, have }
            ==> fault.message() == "Compressed data extends beyond file for '"@ + name
            + "' (need "@ + text::decimal(need as nat) + " bytes from offset "@ + text::decimal(
            offset as nat,
        ) + ", have "@ + text::decimal(have as nat) + ")"@,
{
    reveal_strlit("");
    match fault {
        zip_util::ParseFault::HeaderTruncated { offset } => {
            assert(fault.message() =~= "Local header truncated at offset "@ + text::decimal(
                offset as nat,
            ));
        },
        zip_util::ParseFault::HeaderBeyondData { offset } => {
            assert(fault.message() =~= "Header extends beyond data at offset "@ + text::decimal(
                offset as nat,
            ));
        },
        zip_util::ParseFault::DataBeyondFile { name, need, offset, have } => {
            assert(fault.message() =~= "Compressed data extends beyond file for '"@ + name
                + "' (need "@ + text::decimal(need as nat) + " bytes from offset "@ + text::decimal(
                offset as nat,
            ) + ", have "@ + text::decimal(have as nat) + ")"@);
        },
    }
}

/// The pair that stands in front of the byte of the damaged data which a place of the candidate
/// comes from.
proof fn lemma_pair_in_front(d: DamageModel, place: int)
    requires
        d.wf(),
        0 < mask::corr_of(place, d.crlf, mask::removed_counts(d.mask())) <= usize::MAX,
    ensures
        ({
            let from = mask::corr_of(place, d.crlf, mask::removed_counts(d.mask()));
            match d.restored_at(place) {
                Some(k) => k < d.crlf.len() && d.crlf[k as int] + 1 == from,
                None => !(d.data[from - 1] == 0x0D && d.data[from] == 0x0A && from < d.data.len()),
            }
        }),
{
    let from = mask::corr_of(place, d.crlf, mask::removed_counts(d.mask()));
    recover::lemma_crlfs(d.data);
    let k = (from - 1) as usize;
    if d.crlf.contains(k) {
        let j = choose|j: int| 0 <= j < d.crlf.len() && d.crlf[j] == k;
        positions::lemma_rank_is_index(d.crlf, j);
    } else if d.data[from - 1] == 0x0D && d.data[from] == 0x0A && from < d.data.len() {
        assert(zip_util::crlf_at(d.data, k as int));
    }
}

/// The byte of the damaged data that the `i`-th place of a fix comes from.
pub open spec fn comes_from(d: DamageModel, start: int, inserts: Seq<usize>, i: int) -> int {
    mask::corr_of(start + inserts[i], d.crlf, mask::removed_counts(d.mask()))
}

/// The carriage returns that a fix puts back into an entry are found in the damaged data: what
/// is kept with them is what was kept before, followed by pairs whose line feeds the fix puts
/// them back in front of. Every place that comes from the line feed of a pair adds that pair,
/// any other place adds nothing; only a place that comes from the very front of the data makes
/// the fix fail.
pub proof fn law_fix_is_restored(
    d: DamageModel,
    kept: Seq<usize>,
    start: int,
    inserts: Seq<usize>,
    n: nat,
)
    requires
        d.wf(),
        n <= inserts.len(),
        forall|i: int|
            0 <= i < n ==> 0 <= #[trigger] comes_from(d, start, inserts, i) <= usize::MAX,
    ensures
        match d.restored(kept, start, inserts, n) {
            None => exists|i: int| 0 <= i < n && #[trigger] comes_from(d, start, inserts, i) == 0,
            Some(all) => {
                &&& forall|i: int| 0 <= i < n ==> #[trigger] comes_from(d, start, inserts, i) != 0
                &&& kept.len() <= all.len() <= kept.len() + n
                &&& all.take(kept.len() as int) == kept
                &&& forall|m: int|
                    kept.len() <= m < all.len() ==> exists|i: int|
                        0 <= i < n && d.crlf[(#[trigger] all[m]) as int] + 1
                            == #[trigger] comes_from(d, start, inserts, i)
                &&& forall|i: int|
                    0 <= i < n ==> puts_back(d, all, #[trigger] comes_from(d, start, inserts, i))
            },
        },
    decreases n,
{
    if n == 0 {
        assert(kept.take(kept.len() as int) =~= kept);
    } else {
        law_fix_is_restored(d, kept, start, inserts, (n - 1) as nat);
        let last = comes_from(d, start, inserts, n - 1);
        if let Some(before) = d.restored(kept, start, inserts, (n - 1) as nat) {
            if last != 0 {
                lemma_pair_in_front(d, start + inserts[n - 1]);
                let all = d.restored(kept, start, inserts, n)->0;
                assert(before.len() <= all.len());
                assert forall|m: int| 0 <= m < before.len() implies all[m] == #[trigger] before[m] by {}
                assert(all.take(kept.len() as int) =~= before.take(kept.len() as int));
                assert forall|m: int| kept.len() <= m < all.len() implies exists|i: int|
                    0 <= i < n && d.crlf[(#[trigger] all[m]) as int] + 1 == #[trigger] comes_from(
                        d,
                        start,
                        inserts,
                        i,
                    ) by {
                    if m < before.len() {
                        assert(all[m] == before[m]);
                    }
                }
                assert forall|i: int| 0 <= i < n implies puts_back(
                    d,
                    all,
                    #[trigger] comes_from(d, start, inserts, i),
                ) by {
                    let from = comes_from(d, start, inserts, i);
                    if i < n - 1 {
                        assert(puts_back(d, before, from));
                        if pair_at(d.data, from) {
                            let m = choose|m: int|
                                0 <= m < before.len() && d.crlf[(#[trigger] before[m]) as int] + 1
                                    == from;
                            assert(all[m] == before[m]);
                        }
                    } else if pair_at(d.data, from) {
                        assert(all[before.len() as int] == d.restored_at(start + inserts[n - 1])->0);
                    }
                }
            }
        }
    }
}

/// A pair's line feed stands at `q`.
pub open spec fn pair_at(data: Seq<u8>, q: int) -> bool {
    0 < q < data.len() && data[q - 1] == 0x0D && data[q] == 0x0A
}

/// The pair whose line feed stands at `q` of the damaged data, if there is one, is in `kept`.
pub open spec fn puts_back(d: DamageModel, kept: Seq<usize>, q: int) -> bool {
    pair_at(d.data, q) ==> exists|m: int|
        0 <= m < kept.len() && d.crlf[(#[trigger] kept[m]) as int] + 1 == q
}

/// The fixes of a round are gathered only if all of them were found; without that nothing comes
/// of the round.
pub proof fn law_every_fix_must_be_found(
    d: DamageModel,
    fixes: Seq<(Option<Seq<usize>>, u64)>,
    spent: u64,
    j: int,
)
    requires
        0 <= j < fixes.len(),
        fixes[j].0 is None,
    ensures
        d.finished(fixes, spent) is None,
        d.next_round(fixes) is None,
{
    lemma_not_gathered(d, fixes, fixes.len(), j);
}

proof fn lemma_not_gathered(
    d: DamageModel,
    fixes: Seq<(Option<Seq<usize>>, u64)>,
    n: nat,
    j: int,
)
    requires
        0 <= j < n <= fixes.len(),
        fixes[j].0 is None,
    ensures
        d.gathered(fixes, n) is None,
    decreases n,
{
    if j < n - 1 {
        lemma_not_gathered(d, fixes, (n - 1) as nat, j);
    }
}

/// The attempts that the fixes took.
pub open spec fn taken_by(fixes: Seq<(Option<Seq<usize>>, u64)>) -> int {
    fixes.fold_left(0int, |sum: int, fix: (Option<Seq<usize>>, u64)| sum + fix.1)
}

/// A round of fixing that gives an archive tells all the attempts made so far: those before the
/// round and those of its fixes. A round that does not hands them on to the next one.
pub proof fn law_rounds_count_on(
    d: DamageModel,
    fixes: Seq<(Option<Seq<usize>>, u64)>,
    spent: u64,
    cap: nat,
)
    ensures
        d.gathered(fixes, fixes.len()) matches Some(kept) ==> {
            let fixed = DamageModel { kept, ..d };
            zip_util::valid_zip(fixed.candidate()) ==> (d.finished(fixes, spent) matches Some(r)
                && r.data == fixed.candidate() && r.strategy == text::framed(
                "per_file_dfs("@,
                kept.len(),
                "_kept)"@,
            ) && r.attempts == (spent + taken_by(fixes)) % 0x1_0000_0000_0000_0000)
        },
        d.fixes(cap) == fixes && d.finished(fixes, spent) is None ==> match d.next_round(fixes) {
            Some(next) => d.files_fixed(cap, spent) == next.files_fixed(
                cap,
                ((spent + taken_by(fixes)) % 0x1_0000_0000_0000_0000) as u64,
            ),
            None => d.files_fixed(cap, spent) is None,
        },
        d.fixes(cap) == fixes && d.finished(fixes, spent) is Some ==> d.files_fixed(cap, spent)
            == d.finished(fixes, spent),
{
    law_attempts_add_up(spent, fixes, fixes.len());
    assert(fixes.take(fixes.len() as int) =~= fixes);
    per_file::lemma_files_fixed(d, cap, spent);
}

} // verus!
