//! Fixing the files of an archive one by one: which ones need it, the search in each,
//! and putting the carriage returns that were found back into the whole.
use vstd::prelude::*;
use vstd::string::StringExecFns;

use crate::beam;
use crate::corrupt::LF;
use crate::follow;
use crate::keep;
use crate::mask;
use crate::oracle;
use crate::png::PngValidator;
use crate::positions;
use crate::recover;
use crate::recover::{DamageModel, RecoveryResult, ResultModel};
use crate::text;
use crate::zip_util;
use crate::zip_util::Record;

verus! {

/// The entries whose contents do not have the checksum that their header gives.
pub open spec fn bad_of(records: Seq<zip_util::RecordModel>) -> Seq<usize> {
    positions::positions(records.len(), |i: int| !records[i].entry.crc_ok())
}

/// An entry's packed contents.
pub open spec fn section_of(candidate: Seq<u8>, record: zip_util::RecordModel) -> Seq<u8> {
    candidate.subrange(record.start, record.end)
}

/// The line feeds in a section.
pub open spec fn lfs_of(section: Seq<u8>) -> Seq<usize> {
    positions::positions(section.len(), |i: int| section[i] == LF)
}

/// An entry's packed contents and what its header and its name tell of the contents.
pub open spec fn section_model(
    candidate: Seq<u8>,
    record: zip_util::RecordModel,
    cap: nat,
) -> beam::SectionModel {
    let section = section_of(candidate, record);
    beam::SectionModel {
        base: section,
        crc: record.entry.crc32_expected,
        size: record.entry.uncompressed_size,
        lfs: lfs_of(section),
        prefix: oracle::known_signature(record.entry.name),
        trailer: oracle::known_trailer(record.entry.name),
        cap,
    }
}

/// Where carriage returns are put back into an entry's packed contents, if that can be
/// found, and the attempts that it took: by the beam search, with what the entry's name
/// tells of its contents, or else by the exhaustive one.
pub open spec fn section_fix(
    candidate: Seq<u8>,
    record: zip_util::RecordModel,
    cap: nat,
) -> (Option<Seq<usize>>, u64) {
    let s = section_model(candidate, record, cap);
    let (found, attempts) = s.beam_fixed(oracle::validator_for(record.entry.name), 0);
    if found is Some {
        (found, attempts)
    } else {
        keep::keep_fixed(s.base, s.crc, s.lfs, attempts)
    }
}

/// The search in an entry's packed contents misses nothing that is in plain sight.
pub open spec fn misses_nothing(
    candidate: Seq<u8>,
    record: zip_util::RecordModel,
    cap: nat,
) -> bool {
    follow::nothing_missed(
        section_model(candidate, record, cap),
        oracle::validator_for(record.entry.name),
        section_fix(candidate, record, cap).0,
    )
}

/// What was found for one file: where carriage returns are put back into its packed
/// contents, if that was found, and the attempts that it took.
pub struct FileFix {
    pub inserts: Option<Vec<usize>>,
    pub attempts: u64,
}

impl View for FileFix {
    type V = (Option<Seq<usize>>, u64);

    open spec fn view(&self) -> (Option<Seq<usize>>, u64) {
        (beam::listed(self.inserts), self.attempts)
    }
}

/// The fixes' models.
pub open spec fn fix_models(fixes: Seq<FileFix>) -> Seq<(Option<Seq<usize>>, u64)> {
    fixes.map_values(|f: FileFix| f@)
}

/// The places that a fix names lie inside the entry's packed contents.
pub open spec fn inside(fix: (Option<Seq<usize>>, u64), record: zip_util::RecordModel) -> bool {
    match fix.0 {
        Some(inserts) => forall|i: int|
            0 <= i < inserts.len() ==> #[trigger] inserts[i] < record.end - record.start,
        None => true,
    }
}

/// Every record's packed contents lie inside the data.
pub proof fn lemma_records_inside(data: Seq<u8>, pos: int)
    ensures
        zip_util::records_from(data, pos) matches Ok(records) ==> forall|i: int|
            0 <= i < records.len() ==> 0 <= (#[trigger] records[i]).start <= records[i].end
                <= data.len(),
    decreases data.len() - pos,
{
    if zip_util::header_at(data, pos) {
        if let Ok(record) = zip_util::record_at(data, pos) {
            if pos < record.end <= data.len() {
                lemma_records_inside(data, record.end);
            }
        }
    }
}

/// There are no more entries than bytes.
pub proof fn lemma_record_count(data: Seq<u8>, pos: int)
    requires
        0 <= pos <= data.len(),
    ensures
        zip_util::records_from(data, pos) matches Ok(records) ==> records.len() <= data.len() - pos,
    decreases data.len() - pos,
{
    if zip_util::header_at(data, pos) {
        if let Ok(record) = zip_util::record_at(data, pos) {
            if pos < record.end <= data.len() {
                lemma_record_count(data, record.end);
            }
        }
    }
}

/// Searches for the carriage returns to put back into an entry's packed contents.
fn fix_section(candidate: &[u8], record: &Record, beam_cap: usize) -> (fix: FileFix)
    requires
        record.start <= record.end <= candidate@.len(),
    ensures
        fix@ == section_fix(candidate@, record@, beam_cap as nat),
        inside(fix@, record@),
        misses_nothing(candidate@, record@, beam_cap as nat),
{
    let section: &[u8] = &candidate[record.start..record.end];
    assert(section@ == section_of(candidate@, record@));
    assert(section.len() == section@.len());
    let mut lfs: Vec<usize> = Vec::new();
    let ghost hit = |i: int| section@[i] == LF;
    for i in 0..section.len()
        invariant
            hit == (|i: int| section@[i] == LF),
            lfs@ == positions::positions(i as nat, hit),
    {
        if section[i] == LF {
            lfs.push(i);
        }
    }
    proof {
        positions::lemma_positions(section@.len(), hit);
    }
    let entry: &zip_util::ParsedEntry = &record.entry;
    let prefix: Vec<u8> = oracle::known_signature_for(entry.name.as_str());
    let trailer: Vec<u8> = oracle::known_trailer_for(entry.name.as_str());
    let validator: Option<PngValidator> = oracle::new_validator_for(entry.name.as_str());
    let mut attempts: u64 = 0;
    let found: Option<Vec<usize>> = beam::beam_search_fix_section(
        section,
        entry.crc32_expected,
        entry.uncompressed_size,
        lfs.as_slice(),
        prefix.as_slice(),
        trailer.as_slice(),
        validator,
        beam_cap,
        &mut attempts,
    );
    proof {
        if found is Some {
            let inserts = found->0@;
            assert forall|i: int| 0 <= i < inserts.len() implies #[trigger] inserts[i]
                < section@.len() by {
                assert(inserts.contains(inserts[i]));
            }
        }
        let s = section_model(candidate@, record@, beam_cap as nat);
        let v = oracle::validator_for(entry@.name);
        beam::law_beam_is_sound(s, v, 0);
        assert forall|f: Seq<usize>| #[trigger] follow::in_plain_sight(s, v, f) implies (beam::listed(
            found,
        ) matches Some(g) && g.len() <= f.len() && (follow::only_solution(s, f) ==> g == f)) by {
            assert(s.opened_by(f, v));
        }
    }
    match found {
        Some(inserts) => FileFix { inserts: Some(inserts), attempts },
        None => {
            let ghost counted = attempts;
            let found: Option<Vec<usize>> = keep::dfs_fix_section_fallback(
                section,
                entry.crc32_expected,
                lfs.as_slice(),
                &mut attempts,
            );
            proof {
                keep::law_keep_fixed_is_sound(
                    section@,
                    entry.crc32_expected,
                    lfs@,
                    counted,
                );
                if found is Some {
                    let inserts = found->0@;
                    assert forall|i: int| 0 <= i < inserts.len() implies #[trigger] inserts[i]
                        < section@.len() by {
                        assert(lfs@.contains(inserts[i]));
                    }
                }
            }
            FileFix { inserts: found, attempts }
        },
    }
}

impl DamageModel {
    /// The entries of the candidate.
    pub open spec fn records(self) -> Result<Seq<zip_util::RecordModel>, zip_util::ParseFault> {
        zip_util::records_from(self.candidate(), 0)
    }

    /// The candidate's entries can be followed, and some need a fix.
    pub open spec fn fixable(self) -> bool {
        self.records() matches Ok(records) && bad_of(records).len() > 0
    }

    /// The record of the `j`-th entry that needs a fix.
    pub open spec fn bad_record(self, j: int) -> zip_util::RecordModel {
        let records = self.records()->Ok_0;
        records[bad_of(records)[j] as int]
    }

    /// How many entries need a fix.
    pub open spec fn bad_count(self) -> nat {
        bad_of(self.records()->Ok_0).len()
    }

    /// What the searches find for the entries that need a fix.
    pub open spec fn fixes(self, cap: nat) -> Seq<(Option<Seq<usize>>, u64)> {
        Seq::new(
            self.bad_count(),
            |j: int| section_fix(self.candidate(), self.bad_record(j), cap),
        )
    }

    /// The searches in the entries that need a fix miss nothing that is in plain sight.
    pub open spec fn searches_well(self, cap: nat) -> bool {
        forall|j: int|
            0 <= j < self.bad_count() ==> misses_nothing(
                self.candidate(),
                #[trigger] self.bad_record(j),
                cap,
            )
    }

    /// There is a fix for each entry that needs one, and it lies inside its section.
    pub open spec fn accepts(self, fixes: Seq<(Option<Seq<usize>>, u64)>) -> bool {
        &&& fixes.len() == self.bad_count()
        &&& forall|j: int|
            0 <= j < fixes.len() ==> inside(#[trigger] fixes[j], self.bad_record(j))
    }

    /// The index of the carriage return that was dropped in front of the candidate's
    /// byte at `place`; none if the byte before it is no such carriage return.
    pub open spec fn restored_at(self, place: int) -> Option<usize> {
        let corr = mask::corr_of(place, self.crlf, mask::removed_counts(self.mask()));
        if self.crlf.contains((corr - 1) as usize) {
            Some(positions::rank(self.crlf, corr - 1) as usize)
        } else {
            None
        }
    }

    /// The kept indices with those added that the first `n` of a section's `inserts`
    /// stand for; none if an insert comes from the very front of the data.
    pub open spec fn restored(self, kept: Seq<usize>, start: int, inserts: Seq<usize>, n: nat) -> Option<
        Seq<usize>,
    >
        decreases n,
    {
        if n == 0 {
            Some(kept)
        } else {
            let place = start + inserts[n - 1];
            match self.restored(kept, start, inserts, (n - 1) as nat) {
                None => None,
                Some(kept) => if mask::corr_of(
                    place,
                    self.crlf,
                    mask::removed_counts(self.mask()),
                ) == 0 {
                    None
                } else {
                    match self.restored_at(place) {
                        Some(k) => Some(kept.push(k)),
                        None => Some(kept),
                    }
                },
            }
        }
    }

    /// The kept indices with those added that the first `n` fixes stand for; none if one
    /// of the fixes was not found.
    pub open spec fn gathered(self, fixes: Seq<(Option<Seq<usize>>, u64)>, n: nat) -> Option<
        Seq<usize>,
    >
        decreases n,
    {
        if n == 0 {
            Some(self.kept)
        } else {
            match (self.gathered(fixes, (n - 1) as nat), fixes[n - 1].0) {
                (Some(kept), Some(inserts)) => self.restored(
                    kept,
                    self.bad_record(n - 1).start,
                    inserts,
                    inserts.len(),
                ),
                _ => None,
            }
        }
    }

    /// The archive that the fixes give: with the carriage returns kept that they stand
    /// for, or, if that is no archive, with more of them kept. `spent` attempts were made
    /// before.
    pub open spec fn finished(self, fixes: Seq<(Option<Seq<usize>>, u64)>, spent: u64) -> Option<
        ResultModel,
    > {
        match self.gathered(fixes, fixes.len()) {
            None => None,
            Some(kept) => {
                let fixed = DamageModel { kept, ..self };
                if zip_util::valid_zip(fixed.candidate()) {
                    Some(
                        ResultModel {
                            data: fixed.candidate(),
                            strategy: text::framed("per_file_dfs("@, kept.len(), "_kept)"@),
                            attempts: attempts_after(spent, fixes, fixes.len()),
                        },
                    )
                } else {
                    fixed.patched()
                }
            },
        }
    }

    /// How many carriage returns are dropped.
    pub open spec fn dropped_count(self) -> nat {
        mask::removed_upto(self.mask(), self.crlf.len())
    }

    /// What is left to do after the fixes: with the carriage returns kept that they stand
    /// for, the candidate can be followed past the fixed entries, and some of the entries
    /// that it now shows need a fix. Nothing is left if a fix was not found, or if nothing
    /// more is kept.
    pub open spec fn next_round(self, fixes: Seq<(Option<Seq<usize>>, u64)>) -> Option<DamageModel> {
        match self.gathered(fixes, fixes.len()) {
            None => None,
            Some(kept) => {
                let fixed = DamageModel { kept, ..self };
                if fixed.fixable() && fixed.dropped_count() < self.dropped_count() {
                    Some(fixed)
                } else {
                    None
                }
            },
        }
    }

    /// The archive that fixing the files gives, round after round until one is found or
    /// nothing is left to do; `spent` attempts were made before.
    pub open spec fn files_fixed(self, cap: nat, spent: u64) -> Option<ResultModel>
        decreases self.dropped_count(),
    {
        let fixes = self.fixes(cap);
        if let Some(result) = self.finished(fixes, spent) {
            Some(result)
        } else {
            match self.next_round(fixes) {
                Some(next) => if next.dropped_count() < self.dropped_count() {
                    next.files_fixed(cap, attempts_after(spent, fixes, fixes.len()))
                } else {
                    None
                },
                None => None,
            }
        }
    }

    /// The searches in all the rounds of fixing miss nothing that is in plain sight.
    pub open spec fn all_search_well(self, cap: nat, spent: u64) -> bool
        decreases self.dropped_count(),
    {
        let fixes = self.fixes(cap);
        &&& self.searches_well(cap)
        &&& self.finished(fixes, spent) is None ==> match self.next_round(fixes) {
            Some(next) => next.dropped_count() < self.dropped_count() ==> next.all_search_well(
                cap,
                attempts_after(spent, fixes, fixes.len()),
            ),
            None => true,
        }
    }

    /// What comes of data whose entries need no fix or cannot be followed: the candidate if
    /// it is an archive, or one with a single carriage return kept.
    pub open spec fn unfixable(self) -> Option<ResultModel> {
        match self.records() {
            Err(_) => recover::one_kept(self.data, 0),
            Ok(_) => if zip_util::valid_zip(self.candidate()) {
                Some(
                    ResultModel {
                        data: self.candidate(),
                        strategy: if self.kept.len() == 0 {
                            "remove_all"@
                        } else {
                            text::framed("header_stabilized("@, self.kept.len(), "_kept)"@)
                        },
                        attempts: 1,
                    },
                )
            } else {
                None
            },
        }
    }

    /// The archive that fixing the files one by one gives.
    pub open spec fn per_file_fixed(self, cap: nat) -> Option<ResultModel> {
        if self.fixable() {
            self.files_fixed(cap, 0)
        } else {
            self.unfixable()
        }
    }
}

/// The attempts made when `spent` were made before and the first `n` fixes took theirs.
pub open spec fn attempts_after(spent: u64, fixes: Seq<(Option<Seq<usize>>, u64)>, n: nat) -> u64
    decreases n,
{
    if n == 0 {
        spent
    } else {
        beam::wrap64(attempts_after(spent, fixes, (n - 1) as nat) + fixes[n - 1].1)
    }
}

/// Files that need a fix, in a candidate with the carriage returns of its headers and of
/// the files that were fixed before settled.
pub struct FixPlan<'a> {
    data: &'a [u8],
    crlf: Vec<usize>,
    kept: Vec<usize>,
    candidate: Vec<u8>,
    records: Vec<Record>,
    bad: Vec<usize>,
    spent: u64,
}

/// What a look at the candidate comes to: an outcome, or files that need a fix.
pub enum FixStart<'a> {
    Settled(Option<RecoveryResult>),
    Files(FixPlan<'a>),
}

impl<'a> FixPlan<'a> {
    /// The damaged data, its carriage returns, and those kept so far. The candidate, its
    /// entries and those of them that need a fix follow from these.
    pub closed spec fn damage(self) -> DamageModel {
        DamageModel { data: self.data@, crlf: self.crlf@, kept: self.kept@ }
    }

    /// The attempts that were made before.
    pub closed spec fn spent(self) -> u64 {
        self.spent
    }

    /// The plan holds what its damaged data gives.
    pub closed spec fn wf(self) -> bool {
        let d = self.damage();
        &&& d.wf()
        &&& d.fixable()
        &&& self.candidate@ == d.candidate()
        &&& d.records() == Ok::<Seq<zip_util::RecordModel>, zip_util::ParseFault>(
            zip_util::record_models(self.records@),
        )
        &&& self.bad@ == bad_of(zip_util::record_models(self.records@))
    }

    proof fn lemma_bad(self, j: int)
        requires
            self.wf(),
            0 <= j < self.bad@.len(),
        ensures
            self.bad@.len() == self.damage().bad_count(),
            self.bad@[j] < self.records@.len(),
            self.records@[self.bad@[j] as int]@ == self.damage().bad_record(j),
            self.records@[self.bad@[j] as int].start <= self.records@[self.bad@[j] as int].end
                <= self.candidate@.len(),
    {
        let records = zip_util::record_models(self.records@);
        assert(self.records@.len() == self.records.len());
        positions::lemma_positions(records.len(), |i: int| !records[i].entry.crc_ok());
        lemma_records_inside(self.candidate@, 0);
        assert(records[self.bad@[j] as int] == self.records@[self.bad@[j] as int]@);
    }

    /// How many carriage returns with a line feed behind them the damaged data has.
    pub fn crlf_count(&self) -> (n: usize)
        requires
            self.wf(),
        ensures
            n == self.damage().crlf.len(),
    {
        self.crlf.len()
    }

    /// How many files need a fix.
    pub fn file_count(&self) -> (n: usize)
        requires
            self.wf(),
        ensures
            n == self.damage().bad_count(),
    {
        self.bad.len()
    }

    /// The name of the `j`-th file that needs a fix.
    pub fn file_name(&self, j: usize) -> (name: &str)
        requires
            self.wf(),
            j < self.damage().bad_count(),
        ensures
            name@ == self.damage().bad_record(j as int).entry.name,
    {
        proof {
            self.lemma_bad(j as int);
        }
        self.records[self.bad[j]].entry.name.as_str()
    }

    /// Searches for the carriage returns of the `j`-th file that needs a fix.
    pub fn fix_file(&self, j: usize, beam_cap: usize) -> (fix: FileFix)
        requires
            self.wf(),
            j < self.damage().bad_count(),
        ensures
            fix@ == section_fix(
                self.damage().candidate(),
                self.damage().bad_record(j as int),
                beam_cap as nat,
            ),
            inside(fix@, self.damage().bad_record(j as int)),
            misses_nothing(
                self.damage().candidate(),
                self.damage().bad_record(j as int),
                beam_cap as nat,
            ),
    {
        proof {
            self.lemma_bad(j as int);
        }
        fix_section(self.candidate.as_slice(), &self.records[self.bad[j]], beam_cap)
    }

    /// Adds the indices of the carriage returns that a section's `inserts` stand for;
    /// `false` if an insert comes from the very front of the data.
    fn restore(
        &self,
        removed_prefix: &[usize],
        start: usize,
        inserts: &[usize],
        kept: &mut Vec<usize>,
    ) -> (r: bool)
        requires
            self.wf(),
            removed_prefix@ == mask::removed_counts(self.damage().mask()),
            forall|i: int|
                0 <= i < inserts@.len() ==> start + #[trigger] inserts@[i] < self.candidate@.len(),
            forall|i: int|
                0 <= i < old(kept)@.len() ==> #[trigger] old(kept)@[i] < self.crlf@.len(),
        ensures
            forall|i: int|
                0 <= i < final(kept)@.len() ==> #[trigger] final(kept)@[i] < self.crlf@.len(),
            (if r {
                Some(final(kept)@)
            } else {
                None
            }) == self.damage().restored(
                old(kept)@,
                start as int,
                inserts@,
                inserts@.len(),
            ),
    {
        let ghost d = self.damage();
        let ghost before = kept@;
        assert(self.data.len() == self.data@.len());
        proof {
            recover::lemma_crlfs(d.data);
            let m = d.mask();
            mask::lemma_left_len(d.data, d.crlf, m, d.data.len() as int);
            positions::lemma_rank(d.crlf, d.data.len() as int);
            let all = positions::rank(d.crlf, d.data.len() as int);
            if all < d.crlf.len() {
                assert(zip_util::crlf_at(d.data, d.crlf[all as int] as int));
            }
            assert forall|k: int| 0 <= k < removed_prefix@.len() implies
                #[trigger] removed_prefix@[k] <= d.data.len() - d.candidate().len() by {
                mask::lemma_removed_upto(m, k as nat, m.len());
            }
        }
        for i in 0..inserts.len()
            invariant
                self.wf(),
                d == self.damage(),
                before == old(kept)@,
                self.data.len() == self.data@.len(),
                positions::ascending(d.crlf),
                d.crlf.len() <= d.data.len(),
                removed_prefix@ == mask::removed_counts(d.mask()),
                forall|k: int|
                    0 <= k < removed_prefix@.len() ==> #[trigger] removed_prefix@[k] <= d.data.len()
                        - d.candidate().len(),
                forall|i: int|
                    0 <= i < inserts@.len() ==> start + #[trigger] inserts@[i]
                        < self.candidate@.len(),
                forall|i: int| 0 <= i < kept@.len() ==> #[trigger] kept@[i] < d.crlf.len(),
                d.restored(before, start as int, inserts@, i as nat) == Some(kept@),
        {
            assert(start + inserts@[i as int] < self.candidate.len());
            let place: usize = start + inserts[i];
            let corr: usize = mask::cand_to_corr(place, self.crlf.as_slice(), removed_prefix);
            if corr == 0 {
                proof {
                    lemma_restored_none(d, before, start as int, inserts@, (i + 1) as nat, inserts@.len());
                }
                return false;
            }
            if let Some(k) = positions::find(self.crlf.as_slice(), corr - 1) {
                assert(d.crlf.contains((corr - 1) as usize));
                kept.push(k);
            }
        }
        true
    }
}

impl<'a> FixPlan<'a> {
    /// The indices that are kept with those that the fixes stand for, if all were found,
    /// and the attempts made.
    fn gather(&self, fixes: &[FileFix]) -> (r: (Option<Vec<usize>>, u64))
        requires
            self.wf(),
            self.damage().accepts(fix_models(fixes@)),
        ensures
            ({
                let models = fix_models(fixes@);
                let gathered = self.damage().gathered(models, models.len());
                &&& beam::listed(r.0) == gathered
                &&& gathered matches Some(kept) ==> (DamageModel { kept, ..self.damage() }).wf()
                    && r.1 == attempts_after(self.spent(), models, models.len())
            }),
    {
        let ghost d = self.damage();
        let ghost models = fix_models(fixes@);
        let base_mask: Vec<bool> = mask::mask_keeping(self.crlf.len(), self.kept.as_slice());
        let removed_prefix: Vec<usize> = mask::build_removed_prefix(base_mask.as_slice());
        let mut kept: Vec<usize> = self.kept.clone();
        assert(kept@ =~= self.kept@);
        let mut total: u64 = self.spent;
        for j in 0..fixes.len()
            invariant
                self.wf(),
                d == self.damage(),
                models == fix_models(fixes@),
                d.accepts(models),
                removed_prefix@ == mask::removed_counts(d.mask()),
                forall|i: int| 0 <= i < kept@.len() ==> #[trigger] kept@[i] < self.crlf@.len(),
                d.gathered(models, j as nat) == Some(kept@),
                total == attempts_after(self.spent(), models, j as nat),
        {
            let fix: &FileFix = &fixes[j];
            assert(models[j as int] == fix@);
            total = total.wrapping_add(fix.attempts);
            proof {
                self.lemma_bad(j as int);
            }
            let restored: bool = match &fix.inserts {
                None => false,
                Some(inserts) => {
                    let start: usize = self.records[self.bad[j]].start;
                    assert forall|i: int| 0 <= i < inserts@.len() implies start
                        + #[trigger] inserts@[i] < self.candidate@.len() by {
                        let rel = models[j as int].0->0[i];
                        assert(rel < d.bad_record(j as int).end - d.bad_record(j as int).start);
                    }
                    self.restore(
                        removed_prefix.as_slice(),
                        start,
                        inserts.as_slice(),
                        &mut kept,
                    )
                },
            };
            if !restored {
                proof {
                    lemma_gathered_none(d, models, (j + 1) as nat, models.len());
                }
                return (None, total);
            }
        }
        (Some(kept), total)
    }

    /// Puts the carriage returns that the fixes stand for back into the whole, and
    /// checks the outcome; if that does not help, goes on with the entries that can be
    /// followed now.
    pub fn finish(self, fixes: Vec<FileFix>) -> (r: FixStart<'a>)
        requires
            self.wf(),
            self.damage().accepts(fix_models(fixes@)),
        ensures
            ({
                let d = self.damage();
                let models = fix_models(fixes@);
                match r {
                    FixStart::Settled(result) => {
                        &&& recover::outcome(result) == d.finished(models, self.spent())
                        &&& result is None ==> d.next_round(models) is None
                    },
                    FixStart::Files(next) => {
                        &&& d.finished(models, self.spent()) is None
                        &&& d.next_round(models) == Some(next.damage())
                        &&& next.wf()
                        &&& next.spent() == attempts_after(self.spent(), models, models.len())
                    },
                }
            }),
    {
        let ghost d = self.damage();
        let (gathered, spent) = self.gather(fixes.as_slice());
        let kept: Vec<usize> = match gathered {
            None => {
                return FixStart::Settled(None);
            },
            Some(kept) => kept,
        };
        let ghost fixed = DamageModel { kept: kept@, ..d };
        proof {
            recover::lemma_crlfs(d.data);
        }
        let final_mask: Vec<bool> = mask::mask_keeping(self.crlf.len(), kept.as_slice());
        let candidate: Vec<u8> = mask::build_candidate(
            self.data,
            self.crlf.as_slice(),
            final_mask.as_slice(),
        );
        if recover::validate_as_zip(candidate.as_slice()) {
            return FixStart::Settled(
                Some(
                    RecoveryResult {
                        data: candidate,
                        strategy: text::frame("per_file_dfs(", kept.len() as u64, "_kept)"),
                        attempts: spent,
                    },
                ),
            );
        }
        if let Some(result) = recover::try_patch_remaining(
            self.data,
            self.crlf.as_slice(),
            kept.as_slice(),
        ) {
            return FixStart::Settled(Some(result));
        }
        let base_mask: Vec<bool> = mask::mask_keeping(self.crlf.len(), self.kept.as_slice());
        if mask::count_removed(final_mask.as_slice()) >= mask::count_removed(base_mask.as_slice()) {
            return FixStart::Settled(None);
        }
        let records: Vec<Record> = match zip_util::parse_records(candidate.as_slice()) {
            Err(_) => {
                return FixStart::Settled(None);
            },
            Ok(records) => records,
        };
        let bad: Vec<usize> = bad_entries(records.as_slice());
        if bad.len() == 0 {
            return FixStart::Settled(None);
        }
        FixStart::Files(
            FixPlan { data: self.data, crlf: self.crlf, kept, candidate, records, bad, spent },
        )
    }
}

/// The indices of the entries whose contents do not have the checksum that their header
/// gives.
fn bad_entries(records: &[Record]) -> (bad: Vec<usize>)
    ensures
        bad@ == bad_of(zip_util::record_models(records@)),
{
    let ghost models = zip_util::record_models(records@);
    let ghost hit = |i: int| !models[i].entry.crc_ok();
    let mut bad: Vec<usize> = Vec::new();
    for i in 0..records.len()
        invariant
            models == zip_util::record_models(records@),
            hit == (|i: int| !models[i].entry.crc_ok()),
            bad@ == positions::positions(i as nat, hit),
    {
        assert(models[i as int] == records@[i as int]@);
        if !records[i].entry.crc_ok() {
            bad.push(i);
        }
    }
    bad
}

proof fn lemma_gathered_none(
    d: DamageModel,
    fixes: Seq<(Option<Seq<usize>>, u64)>,
    j: nat,
    n: nat,
)
    requires
        j <= n,
        d.gathered(fixes, j) is None,
    ensures
        d.gathered(fixes, n) is None,
    decreases n,
{
    if j < n {
        lemma_gathered_none(d, fixes, j, (n - 1) as nat);
    }
}

proof fn lemma_restored_none(
    d: DamageModel,
    kept: Seq<usize>,
    start: int,
    inserts: Seq<usize>,
    i: nat,
    n: nat,
)
    requires
        i <= n,
        d.restored(kept, start, inserts, i) is None,
    ensures
        d.restored(kept, start, inserts, n) is None,
    decreases n,
{
    if i < n {
        lemma_restored_none(d, kept, start, inserts, i, (n - 1) as nat);
    }
}

/// Data whose entries can be followed and need no fix is intact.
proof fn lemma_none_bad(data: Seq<u8>, records: Seq<zip_util::RecordModel>)
    requires
        zip_util::records_from(data, 0) == Ok::<Seq<zip_util::RecordModel>, zip_util::ParseFault>(
            records,
        ),
        records.len() <= usize::MAX,
        bad_of(records).len() == 0,
    ensures
        zip_util::intact(data),
{
    let hit = |i: int| !records[i].entry.crc_ok();
    let entries = records.map_values(|r: zip_util::RecordModel| r.entry);
    positions::lemma_positions(records.len(), hit);
    assert forall|i: int| 0 <= i < entries.len() implies (#[trigger] entries[i]).crc_ok() by {
        if hit(i) {
            assert(bad_of(records).contains(i as usize));
        }
    }
}

/// Follows the entries of the candidate that keeps the carriage returns of the given
/// indices, and finds the files that need a fix.
pub fn plan_per_file_fix<'a>(data: &'a [u8], crlf: Vec<usize>, kept: Vec<usize>) -> (r: FixStart<'a>)
    requires
        (DamageModel { data: data@, crlf: crlf@, kept: kept@ }).wf(),
    ensures
        ({
            let d = DamageModel { data: data@, crlf: crlf@, kept: kept@ };
            match r {
                FixStart::Settled(result) => !d.fixable() && recover::outcome(result)
                    == d.unfixable(),
                FixStart::Files(plan) => plan.wf() && plan.damage() == d && d.fixable()
                    && plan.spent() == 0,
            }
        }),
{
    let ghost d = DamageModel { data: data@, crlf: crlf@, kept: kept@ };
    proof {
        recover::lemma_crlfs(data@);
    }
    let base_mask: Vec<bool> = mask::mask_keeping(crlf.len(), kept.as_slice());
    let candidate: Vec<u8> = mask::build_candidate(data, crlf.as_slice(), base_mask.as_slice());
    let records: Vec<Record> = match zip_util::parse_records(candidate.as_slice()) {
        Err(_) => {
            return FixStart::Settled(recover::try_fix_global(data, crlf.as_slice()));
        },
        Ok(records) => records,
    };
    let ghost models = zip_util::record_models(records@);
    let bad: Vec<usize> = bad_entries(records.as_slice());
    if bad.len() == 0 {
        proof {
            lemma_none_bad(candidate@, models);
        }
        if !zip_util::is_valid_zip_signature(candidate.as_slice()) {
            return FixStart::Settled(None);
        }
        let strategy: String = if kept.len() == 0 {
            String::from_str("remove_all")
        } else {
            text::frame("header_stabilized(", kept.len() as u64, "_kept)")
        };
        return FixStart::Settled(
            Some(RecoveryResult { data: candidate, strategy, attempts: 1 }),
        );
    }
    FixStart::Files(FixPlan { data, crlf, kept, candidate, records, bad, spent: 0 })
}

impl<'a> FixPlan<'a> {
    /// Searches all the files that need a fix.
    fn fix_all(&self, beam_cap: usize) -> (fixes: Vec<FileFix>)
        requires
            self.wf(),
        ensures
            fix_models(fixes@) == self.damage().fixes(beam_cap as nat),
            self.damage().accepts(fix_models(fixes@)),
            self.damage().searches_well(beam_cap as nat),
    {
        let n: usize = self.file_count();
        let mut fixes: Vec<FileFix> = Vec::new();
        let ghost d = self.damage();
        let ghost want = d.fixes(beam_cap as nat);
        for j in 0..n
            invariant
                self.wf(),
                self.damage() == d,
                n == d.bad_count(),
                want == d.fixes(beam_cap as nat),
                fixes@.len() == j,
                forall|i: int| 0 <= i < j ==> #[trigger] fixes@[i]@ == want[i],
                forall|i: int| 0 <= i < j ==> inside(#[trigger] want[i], d.bad_record(i)),
                forall|i: int|
                    0 <= i < j ==> misses_nothing(
                        d.candidate(),
                        #[trigger] d.bad_record(i),
                        beam_cap as nat,
                    ),
        {
            let fix: FileFix = self.fix_file(j, beam_cap);
            fixes.push(fix);
        }
        assert(fix_models(fixes@) =~= want);
        fixes
    }
}

/// What a start leads to.
spec fn leads_to(start: FixStart, cap: nat) -> Option<ResultModel> {
    match start {
        FixStart::Settled(result) => recover::outcome(result),
        FixStart::Files(plan) => plan.damage().files_fixed(cap, plan.spent()),
    }
}

impl<'a> FixPlan<'a> {
    /// Fixes the files that need it, and sees what that leads to.
    fn round(self, beam_cap: usize) -> (next: FixStart<'a>)
        requires
            self.wf(),
        ensures
            next matches FixStart::Files(plan) ==> plan.wf() && plan.damage().dropped_count()
                < self.damage().dropped_count(),
            leads_to(next, beam_cap as nat) == self.damage().files_fixed(
                beam_cap as nat,
                self.spent(),
            ),
            (next matches FixStart::Files(plan) ==> plan.damage().all_search_well(
                beam_cap as nat,
                plan.spent(),
            )) ==> self.damage().all_search_well(beam_cap as nat, self.spent()),
    {
        let ghost cap = beam_cap as nat;
        let ghost d = self.damage();
        let ghost spent = self.spent();
        let fixes: Vec<FileFix> = self.fix_all(beam_cap);
        let next: FixStart = self.finish(fixes);
        proof {
            lemma_files_fixed(d, cap, spent);
        }
        next
    }
}

impl<'a> FixPlan<'a> {
    /// Fixes files, round after round.
    fn go_on(self, beam_cap: usize) -> (r: Option<RecoveryResult>)
        requires
            self.wf(),
        ensures
            recover::outcome(r) == self.damage().files_fixed(beam_cap as nat, self.spent()),
            self.damage().all_search_well(beam_cap as nat, self.spent()),
        decreases self.damage().dropped_count(),
    {
        match self.round(beam_cap) {
            FixStart::Settled(result) => result,
            FixStart::Files(next) => next.go_on(beam_cap),
        }
    }
}

/// A round gives an archive or leads to the next one.
pub proof fn lemma_files_fixed(d: DamageModel, cap: nat, spent: u64)
    ensures
        ({
            let fixes = d.fixes(cap);
            d.files_fixed(cap, spent) == if d.finished(fixes, spent) is Some {
                d.finished(fixes, spent)
            } else {
                match d.next_round(fixes) {
                    Some(next) => next.files_fixed(
                        cap,
                        attempts_after(spent, fixes, fixes.len()),
                    ),
                    None => None,
                }
            }
        }),
        d.next_round(d.fixes(cap)) matches Some(next) ==> next.dropped_count() < d.dropped_count(),
{
}

/// Fixes the files of the candidate one by one: in each, the carriage returns to put
/// back are searched for, and the whole is put together from what was found. An entry that
/// lacks some of its carriage returns hides the ones behind it, so that this goes on with
/// those as long as more carriage returns are found.
pub fn try_per_file_fix(
    data: &[u8],
    crlf_positions: Vec<usize>,
    initial_kept: Vec<usize>,
    beam_cap: usize,
) -> (r: Option<RecoveryResult>)
    requires
        (DamageModel { data: data@, crlf: crlf_positions@, kept: initial_kept@ }).wf(),
    ensures
        recover::outcome(r) == (DamageModel {
            data: data@,
            crlf: crlf_positions@,
            kept: initial_kept@,
        }).per_file_fixed(beam_cap as nat),
        ({
            let d = DamageModel { data: data@, crlf: crlf_positions@, kept: initial_kept@ };
            d.fixable() ==> d.all_search_well(beam_cap as nat, 0)
        }),
{
    match plan_per_file_fix(data, crlf_positions, initial_kept) {
        FixStart::Settled(result) => result,
        FixStart::Files(plan) => plan.go_on(beam_cap),
    }
}

} // verus!
