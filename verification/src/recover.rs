//! Recovering an archive: the strategies, from the cheapest to the most thorough.
use vstd::prelude::*;
use vstd::string::StringExecFns;

use crate::beam;
use crate::corrupt::CR;
use crate::headers;
use crate::mask;
use crate::natural;
use crate::per_file;
use crate::per_file::{FileFix, FixPlan, FixStart};
use crate::positions;
use crate::text;
use crate::undo;
use crate::zip_util;

verus! {

/// Patching is tried on data of at most this many bytes.
pub const MAX_PATCH_LEN: usize = 200_000_000;

/// The width of the beam search unless another one is set.
pub const DEFAULT_MAX_BEAM_WIDTH: usize = 2000;

/// A recovered archive, the strategy that found it, and the attempts that it took.
pub struct RecoveryResult {
    pub data: Vec<u8>,
    pub strategy: String,
    pub attempts: u64,
}

/// A recovered archive's bytes, its strategy as text, and its attempts.
#[verifier::ext_equal]
pub struct ResultModel {
    pub data: Seq<u8>,
    pub strategy: Seq<char>,
    pub attempts: u64,
}

impl View for RecoveryResult {
    type V = ResultModel;

    open spec fn view(&self) -> ResultModel {
        ResultModel { data: self.data@, strategy: self.strategy@, attempts: self.attempts }
    }
}

/// What a strategy came to, as a model.
pub open spec fn outcome(r: Option<RecoveryResult>) -> Option<ResultModel> {
    match r {
        Some(result) => Some(result@),
        None => None,
    }
}

/// Whether `data` is an archive all of whose entries can be unpacked to contents with
/// the expected checksums.
pub fn validate_as_zip(data: &[u8]) -> (r: bool)
    ensures
        r == zip_util::valid_zip(data@),
{
    if !zip_util::is_valid_zip_signature(data) {
        return false;
    }
    match zip_util::parse_and_validate(data) {
        Err(_) => false,
        Ok(parsed) => {
            let ghost entries = parsed@;
            for i in 0..parsed.entries.len()
                invariant
                    entries == parsed@,
                    zip_util::entries_of(data@) == Ok::<
                        Seq<zip_util::EntryModel>,
                        zip_util::ParseFault,
                    >(entries),
                    forall|k: int| 0 <= k < i ==> (#[trigger] entries[k]).crc_ok(),
            {
                assert(entries[i as int] == parsed.entries@[i as int]@);
                if !parsed.entries[i].crc_ok() {
                    assert(!entries[i as int].crc_ok());
                    return false;
                }
            }
            true
        },
    }
}

/// Damaged data, the carriage returns in it that have a line feed behind them, and the
/// indices of those that are kept.
pub struct DamageModel {
    pub data: Seq<u8>,
    pub crlf: Seq<usize>,
    pub kept: Seq<usize>,
}

impl DamageModel {
    /// The carriage returns are those of the data, and the indices are among theirs.
    pub open spec fn wf(self) -> bool {
        &&& self.data.len() <= usize::MAX
        &&& self.crlf == zip_util::crlfs(self.data)
        &&& forall|i: int|
            0 <= i < self.kept.len() ==> #[trigger] self.kept[i] < self.crlf.len()
    }

    /// The mask that drops all carriage returns but the kept ones.
    pub open spec fn mask(self) -> Seq<bool> {
        mask::keeping(self.crlf.len(), self.kept)
    }

    /// The data without the carriage returns that are not kept.
    pub open spec fn candidate(self) -> Seq<u8> {
        mask::candidate(self.data, self.crlf, self.mask())
    }

    /// The same data with one more carriage return kept.
    pub open spec fn also(self, k: usize) -> DamageModel {
        DamageModel { kept: self.kept.push(k), ..self }
    }
}

/// All carriage returns that have a line feed behind them are dropped.
pub open spec fn all_removed(data: Seq<u8>) -> DamageModel {
    DamageModel { data, crlf: zip_util::crlfs(data), kept: Seq::empty() }
}

/// The candidate without any of the carriage returns, if it is an archive.
pub open spec fn removed_all(data: Seq<u8>) -> Option<ResultModel> {
    let candidate = all_removed(data).candidate();
    if zip_util::valid_zip(candidate) {
        Some(ResultModel { data: candidate, strategy: "remove_all"@, attempts: 1 })
    } else {
        None
    }
}

/// The first candidate that is an archive among those with a single carriage return
/// kept, from the one of index `i` on.
pub open spec fn one_kept(data: Seq<u8>, i: nat) -> Option<ResultModel>
    decreases zip_util::crlfs(data).len() - i,
{
    if i >= zip_util::crlfs(data).len() {
        None
    } else {
        let candidate = all_removed(data).also(i as usize).candidate();
        if zip_util::valid_zip(candidate) {
            Some(
                ResultModel {
                    data: candidate,
                    strategy: text::framed("keep_one_global_"@, i, ""@),
                    attempts: (i + 1) as u64,
                },
            )
        } else {
            one_kept(data, i + 1)
        }
    }
}

/// Keeping one more is clearing its place in the mask.
proof fn lemma_also(d: DamageModel, k: usize)
    requires
        k < d.crlf.len() <= usize::MAX,
    ensures
        d.also(k).mask() == d.mask().update(k as int, false),
{
    let more = d.kept.push(k);
    assert forall|x: usize| more.contains(x) <==> d.kept.contains(x) || x == k by {
        if d.kept.contains(x) {
            let i = choose|i: int| 0 <= i < d.kept.len() && d.kept[i] == x;
            assert(more[i] == x);
        }
        if x == k {
            assert(more[d.kept.len() as int] == x);
        }
        if more.contains(x) && x != k {
            let i = choose|i: int| 0 <= i < more.len() && more[i] == x;
            assert(d.kept[i] == x);
        }
    }
    assert(d.also(k).mask() =~= d.mask().update(k as int, false));
}

/// The listed carriage returns are in order, and each has its line feed behind it.
pub proof fn lemma_crlfs(data: Seq<u8>)
    requires
        data.len() <= usize::MAX,
    ensures
        positions::ascending(zip_util::crlfs(data)),
        mask::spaced(zip_util::crlfs(data)),
        zip_util::crlfs(data).len() <= data.len(),
        forall|k: int|
            0 <= k < zip_util::crlfs(data).len() ==> zip_util::crlf_at(
                data,
                #[trigger] zip_util::crlfs(data)[k] as int,
            ),
        forall|i: int| #[trigger]
            zip_util::crlf_at(data, i) ==> zip_util::crlfs(data).contains(i as usize),
{
    let hit = |i: int| zip_util::crlf_at(data, i);
    positions::lemma_positions(data.len(), hit);
    assert forall|k: int| 0 <= k < zip_util::crlfs(data).len() implies zip_util::crlf_at(
        data,
        #[trigger] zip_util::crlfs(data)[k] as int,
    ) by {
        assert(hit(zip_util::crlfs(data)[k] as int));
    }
    assert forall|i: int, j: int| 0 <= i < j < zip_util::crlfs(data).len() implies zip_util::crlfs(
        data,
    )[i] + 2 <= zip_util::crlfs(data)[j] by {
        assert(zip_util::crlf_at(data, zip_util::crlfs(data)[i] as int));
        assert(zip_util::crlf_at(data, zip_util::crlfs(data)[j] as int));
    }
    assert forall|i: int| #[trigger] zip_util::crlf_at(data, i) implies zip_util::crlfs(
        data,
    ).contains(i as usize) by {
        assert(hit(i));
    }
}

/// Drops every carriage return that has a line feed behind it, and checks the outcome.
pub fn try_remove_all(data: &[u8], crlf_positions: &[usize]) -> (r: Option<RecoveryResult>)
    requires
        crlf_positions@ == zip_util::crlfs(data@),
    ensures
        outcome(r) == removed_all(data@),
{
    assert(data.len() == data@.len());
    proof {
        lemma_crlfs(data@);
    }
    let none: Vec<usize> = Vec::new();
    let remove_all: Vec<bool> = mask::mask_keeping(crlf_positions.len(), none.as_slice());
    assert(none@ =~= Seq::empty());
    let candidate: Vec<u8> = mask::build_candidate(data, crlf_positions, remove_all.as_slice());
    if validate_as_zip(candidate.as_slice()) {
        Some(
            RecoveryResult {
                data: candidate,
                strategy: String::from_str("remove_all"),
                attempts: 1,
            },
        )
    } else {
        None
    }
}

/// Keeps a single carriage return, each in turn, and checks the outcome.
pub fn try_fix_global(data: &[u8], crlf_positions: &[usize]) -> (r: Option<RecoveryResult>)
    requires
        crlf_positions@ == zip_util::crlfs(data@),
    ensures
        outcome(r) == one_kept(data@, 0),
{
    assert(data.len() == data@.len());
    assert(crlf_positions.len() == crlf_positions@.len());
    proof {
        lemma_crlfs(data@);
    }
    let ghost d = all_removed(data@);
    let none: Vec<usize> = Vec::new();
    let mut mask: Vec<bool> = mask::mask_keeping(crlf_positions.len(), none.as_slice());
    assert(none@ =~= d.kept);
    for i in 0..crlf_positions.len()
        invariant
            d == all_removed(data@),
            crlf_positions@ == d.crlf,
            positions::ascending(d.crlf),
            mask@ == d.mask(),
            one_kept(data@, 0) == one_kept(data@, i as nat),
    {
        assert(mask@[i as int]);
        mask[i] = false;
        proof {
            lemma_also(d, i);
        }
        let candidate: Vec<u8> = mask::build_candidate(data, crlf_positions, mask.as_slice());
        if validate_as_zip(candidate.as_slice()) {
            return Some(
                RecoveryResult {
                    data: candidate,
                    strategy: text::frame("keep_one_global_", i as u64, ""),
                    attempts: i as u64 + 1,
                },
            );
        }
        mask[i] = true;
        assert(mask@ =~= d.mask());
    }
    None
}

impl DamageModel {
    /// The indices of the carriage returns that are not kept.
    pub open spec fn remaining(self) -> Seq<usize> {
        positions::positions(self.crlf.len(), |k: int| self.mask()[k])
    }

    /// Where the line feed behind the carriage return of index `k` stands in the
    /// candidate.
    pub open spec fn lf_place(self, k: int) -> int {
        mask::cand_of(self.crlf[k] + 1, self.crlf, mask::removed_counts(self.mask()))
    }

    /// The indices of the carriage returns that are not kept and whose line feed is not
    /// the candidate's first byte.
    pub open spec fn insertable(self) -> Seq<usize> {
        positions::positions(self.crlf.len(), |k: int| self.mask()[k] && self.lf_place(k) > 0)
    }

    /// The first candidate that is an archive among those with one more carriage return
    /// kept, from the `j`-th remaining one on.
    pub open spec fn one_more(self, j: nat) -> Option<ResultModel>
        decreases self.remaining().len() - j,
    {
        if j >= self.remaining().len() {
            None
        } else {
            let candidate = self.also(self.remaining()[j as int]).candidate();
            if zip_util::valid_zip(candidate) {
                Some(
                    ResultModel {
                        data: candidate,
                        strategy: text::framed("patched("@, self.kept.len(), "_+1)"@),
                        attempts: 1,
                    },
                )
            } else {
                self.one_more(j + 1)
            }
        }
    }

    /// The first candidate that is an archive among those with two more carriage
    /// returns kept, from the pair of the `i`-th and the `j`-th insertable ones on, in
    /// lexicographic order; `tested` pairs have been tried before.
    pub open spec fn two_more(self, i: nat, j: nat, tested: u64) -> Option<ResultModel>
        decreases self.insertable().len() - i, self.insertable().len() - j,
    {
        let places = self.insertable();
        if i >= places.len() {
            None
        } else if j >= places.len() {
            self.two_more(i + 1, i + 2, tested)
        } else {
            let candidate = self.also(places[i as int]).also(places[j as int]).candidate();
            if zip_util::valid_zip(candidate) {
                Some(
                    ResultModel {
                        data: candidate,
                        strategy: text::framed("patched("@, self.kept.len(), "_+2fast)"@),
                        attempts: tested,
                    },
                )
            } else {
                self.two_more(i, j + 1, beam::wrap64(tested + 1))
            }
        }
    }

    /// Keeps one more carriage return, or two, if the data is not too long for that.
    pub open spec fn patched(self) -> Option<ResultModel> {
        if self.data.len() > MAX_PATCH_LEN {
            None
        } else if self.one_more(0) is Some {
            self.one_more(0)
        } else {
            self.two_more(0, 1, 0)
        }
    }
}

/// What inserting the carriage return of index `k` takes: its place, and that the
/// candidate that also keeps it is the candidate with it inserted there.
proof fn lemma_insert(d: DamageModel, k: usize)
    requires
        d.wf(),
        k < d.crlf.len(),
        d.mask()[k as int],
    ensures
        0 <= d.lf_place(k as int) <= d.candidate().len(),
        d.also(k).candidate() == d.candidate().insert(d.lf_place(k as int), CR),
        d.candidate().len() < d.data.len(),
        d.also(k).wf(),
{
    lemma_crlfs(d.data);
    lemma_also(d, k);
    assert(zip_util::crlf_at(d.data, d.crlf[k as int] as int));
    mask::law_keeping_inserts(d.data, d.crlf, d.mask(), k as int);
    mask::lemma_left_len(d.data, d.crlf, d.mask(), d.data.len() as int);
    let all = positions::rank(d.crlf, d.data.len() as int);
    positions::lemma_rank(d.crlf, d.data.len() as int);
    if all <= k {
        assert(d.crlf[k as int] >= d.data.len());
    }
    mask::lemma_removed_upto(d.mask(), (k + 1) as nat, all);
}

/// With the carriage return of index `k` kept, the places of later ones are one
/// further on.
proof fn lemma_later_place(d: DamageModel, k: usize, m: usize)
    requires
        d.wf(),
        k < m < d.crlf.len(),
        d.mask()[k as int],
    ensures
        d.also(k).lf_place(m as int) == d.lf_place(m as int) + 1,
{
    lemma_crlfs(d.data);
    lemma_also(d, k);
    let n = positions::rank(d.crlf, d.crlf[m as int] + 1);
    positions::lemma_rank(d.crlf, d.crlf[m as int] + 1);
    if n <= m {
        assert(d.crlf[m as int] >= d.crlf[m as int] + 1);
    }
    lemma_one_fewer(d.mask(), k as int, n);
    mask::lemma_removed_upto(d.mask(), n, d.mask().len());
    mask::lemma_removed_upto(d.also(k).mask(), n, d.mask().len());
}

proof fn lemma_one_fewer(mask: Seq<bool>, k: int, n: nat)
    requires
        0 <= k < mask.len(),
        mask[k],
        n <= mask.len(),
    ensures
        mask::removed_upto(mask.update(k, false), n) == mask::removed_upto(mask, n) - (if k < n {
            1int
        } else {
            0int
        }),
    decreases n,
{
    if n > 0 {
        lemma_one_fewer(mask, k, (n - 1) as nat);
    }
}

/// The indices at which `flags` holds.
fn flagged(flags: &[bool]) -> (found: Vec<usize>)
    ensures
        found@ == positions::positions(flags@.len(), |k: int| flags@[k]),
{
    let mut found: Vec<usize> = Vec::new();
    for k in 0..flags.len()
        invariant
            found@ == positions::positions(k as nat, |k: int| flags@[k]),
    {
        if flags[k] {
            found.push(k);
        }
    }
    found
}

/// Keeps one more of the carriage returns that are not kept yet, each in turn, and
/// then two more of them, and checks the outcome.
pub fn try_patch_remaining(
    data: &[u8],
    crlf_positions: &[usize],
    already_kept: &[usize],
) -> (r: Option<RecoveryResult>)
    requires
        (DamageModel { data: data@, crlf: crlf_positions@, kept: already_kept@ }).wf(),
    ensures
        outcome(r) == (DamageModel {
            data: data@,
            crlf: crlf_positions@,
            kept: already_kept@,
        }).patched(),
{
    let ghost d = DamageModel { data: data@, crlf: crlf_positions@, kept: already_kept@ };
    if data.len() > MAX_PATCH_LEN {
        return None;
    }
    assert(crlf_positions.len() == crlf_positions@.len());
    proof {
        lemma_crlfs(data@);
    }
    let mut mask: Vec<bool> = mask::mask_keeping(crlf_positions.len(), already_kept);
    let remaining: Vec<usize> = flagged(mask.as_slice());
    assert(remaining@ == d.remaining()) by {
        assert((|k: int| mask@[k]) =~= (|k: int| d.mask()[k]));
    }
    proof {
        positions::lemma_positions(d.crlf.len(), |k: int| d.mask()[k]);
    }
    for j in 0..remaining.len()
        invariant
            d == (DamageModel { data: data@, crlf: crlf_positions@, kept: already_kept@ }),
            d.wf(),
            d.crlf.len() <= usize::MAX,
            data@.len() <= MAX_PATCH_LEN,
            positions::ascending(d.crlf),
            remaining@ == d.remaining(),
            forall|k: int|
                0 <= k < remaining@.len() ==> #[trigger] remaining@[k] < d.crlf.len()
                    && d.mask()[remaining@[k] as int],
            mask@ == d.mask(),
            d.one_more(0) == d.one_more(j as nat),
    {
        let k: usize = remaining[j];
        assert(d.mask()[k as int]);
        mask[k] = false;
        proof {
            lemma_also(d, k);
        }
        let candidate: Vec<u8> = mask::build_candidate(data, crlf_positions, mask.as_slice());
        if validate_as_zip(candidate.as_slice()) {
            return Some(
                RecoveryResult {
                    data: candidate,
                    strategy: text::frame("patched(", already_kept.len() as u64, "_+1)"),
                    attempts: 1,
                },
            );
        }
        mask[k] = true;
        assert(mask@ =~= d.mask());
    }
    patch_pairs(data, crlf_positions, already_kept)
}

/// The indices of the dropped carriage returns whose line feed is not the candidate's
/// first byte, and the places of these line feeds in the candidate.
fn insert_places(crlf_positions: &[usize], mask: &[bool]) -> (r: (Vec<usize>, Vec<usize>))
    requires
        positions::ascending(crlf_positions@),
        mask@.len() == crlf_positions@.len(),
        forall|k: int|
            0 <= k < crlf_positions@.len() ==> #[trigger] crlf_positions@[k] < usize::MAX,
    ensures
        ({
            let place = |k: int|
                mask::cand_of(crlf_positions@[k] + 1, crlf_positions@, mask::removed_counts(mask@));
            &&& r.0@ == positions::positions(mask@.len(), |k: int| mask@[k] && place(k) > 0)
            &&& r.1@.len() == r.0@.len()
            &&& forall|i: int| 0 <= i < r.0@.len() ==> #[trigger] r.1@[i] == place(r.0@[i] as int)
        }),
{
    let removed_prefix: Vec<usize> = mask::build_removed_prefix(mask);
    let mut indices: Vec<usize> = Vec::new();
    let mut places: Vec<usize> = Vec::new();
    let ghost crlf = crlf_positions@;
    let ghost place = |k: int| mask::cand_of(crlf[k] + 1, crlf, mask::removed_counts(mask@));
    let ghost hit = |k: int| mask@[k] && place(k) > 0;
    assert(mask.len() == mask@.len());
    for k in 0..mask.len()
        invariant
            crlf == crlf_positions@,
            positions::ascending(crlf),
            mask@.len() == crlf.len(),
            mask.len() == mask@.len(),
            forall|k: int| 0 <= k < crlf.len() ==> #[trigger] crlf[k] < usize::MAX,
            place == (|k: int| mask::cand_of(crlf[k] + 1, crlf, mask::removed_counts(mask@))),
            hit == (|k: int| mask@[k] && place(k) > 0),
            removed_prefix@ == mask::removed_counts(mask@),
            indices@ == positions::positions(k as nat, hit),
            places@.len() == indices@.len(),
            forall|i: int|
                0 <= i < indices@.len() ==> #[trigger] places@[i] == place(indices@[i] as int),
    {
        if mask[k] {
            let lf: usize = crlf_positions[k] + 1;
            proof {
                let n = positions::rank(crlf, lf as int);
                positions::lemma_rank(crlf, lf as int);
                mask::lemma_left_len(Seq::empty(), crlf, mask@, lf as int);
                mask::lemma_removed_upto(mask@, n, mask@.len());
            }
            let at: usize = mask::corr_to_cand(lf, crlf_positions, removed_prefix.as_slice());
            if at > 0 {
                indices.push(k);
                places.push(at);
            }
        }
    }
    (indices, places)
}

/// Keeps two more of the carriage returns that are not kept yet, each pair in turn, and
/// checks the outcome.
fn patch_pairs(data: &[u8], crlf_positions: &[usize], already_kept: &[usize]) -> (r: Option<
    RecoveryResult,
>)
    requires
        (DamageModel { data: data@, crlf: crlf_positions@, kept: already_kept@ }).wf(),
    ensures
        outcome(r) == (DamageModel {
            data: data@,
            crlf: crlf_positions@,
            kept: already_kept@,
        }).two_more(0, 1, 0),
{
    let ghost d = DamageModel { data: data@, crlf: crlf_positions@, kept: already_kept@ };
    assert(crlf_positions.len() == crlf_positions@.len());
    assert(data.len() == data@.len());
    proof {
        lemma_crlfs(data@);
    }
    assert forall|k: int| 0 <= k < d.crlf.len() implies #[trigger] d.crlf[k] < usize::MAX by {
        assert(zip_util::crlf_at(data@, d.crlf[k] as int));
    }
    let mask: Vec<bool> = mask::mask_keeping(crlf_positions.len(), already_kept);
    let (indices, places) = insert_places(crlf_positions, mask.as_slice());
    proof {
        let place = |k: int|
            mask::cand_of(d.crlf[k] + 1, d.crlf, mask::removed_counts(mask@));
        assert((|k: int| mask@[k] && place(k) > 0) =~= (|k: int|
            d.mask()[k] && d.lf_place(k) > 0));
        positions::lemma_positions(d.crlf.len(), |k: int| d.mask()[k] && d.lf_place(k) > 0);
    }
    let mut test: Vec<u8> = mask::build_candidate(data, crlf_positions, mask.as_slice());
    let mut tested: u64 = 0;
    for i in 0..indices.len()
        invariant
            d == (DamageModel { data: data@, crlf: crlf_positions@, kept: already_kept@ }),
            d.wf(),
            positions::ascending(indices@),
            indices@ == d.insertable(),
            places@.len() == indices@.len(),
            forall|k: int|
                0 <= k < indices@.len() ==> #[trigger] indices@[k] < d.crlf.len()
                    && d.mask()[indices@[k] as int],
            forall|k: int|
                0 <= k < indices@.len() ==> #[trigger] places@[k] == d.lf_place(indices@[k] as int),
            test@ == d.candidate(),
            d.two_more(0, 1, 0) == d.two_more(i as nat, (i + 1) as nat, tested),
    {
        let a: usize = indices[i];
        let p1: usize = places[i];
        let ghost one = d.also(a);
        proof {
            lemma_crlfs(data@);
            lemma_insert(d, a);
            lemma_also(d, a);
        }
        test.insert(p1, CR);
        for j in i + 1..indices.len()
            invariant
                d == (DamageModel { data: data@, crlf: crlf_positions@, kept: already_kept@ }),
                d.wf(),
                one == d.also(a),
                one.wf(),
                i < indices@.len(),
                a == indices@[i as int],
                one.mask() == d.mask().update(a as int, false),
                positions::ascending(indices@),
                indices@ == d.insertable(),
                places@.len() == indices@.len(),
                forall|k: int|
                    0 <= k < indices@.len() ==> #[trigger] indices@[k] < d.crlf.len()
                        && d.mask()[indices@[k] as int],
                forall|k: int|
                    0 <= k < indices@.len() ==> #[trigger] places@[k] == d.lf_place(
                        indices@[k] as int,
                    ),
                test@ == one.candidate(),
                d.two_more(0, 1, 0) == d.two_more(i as nat, j as nat, tested),
        {
            let b: usize = indices[j];
            let p2: usize = places[j];
            assert(indices@[i as int] < indices@[j as int]);
            proof {
                lemma_later_place(d, a, b);
                lemma_insert(one, b);
                lemma_crlfs(data@);
            }
            assert(data.len() == data@.len());
            test.insert(p2 + 1, CR);
            if validate_as_zip(test.as_slice()) {
                return Some(
                    RecoveryResult {
                        data: test,
                        strategy: text::frame("patched(", already_kept.len() as u64, "_+2fast)"),
                        attempts: tested,
                    },
                );
            }
            let cr: u8 = test.remove(p2 + 1);
            assert(test@ =~= one.candidate());
            tested = tested.wrapping_add(1);
        }
        let cr: u8 = test.remove(p1);
        assert(test@ =~= d.candidate());
    }
    None
}

/// Why nothing could be recovered.
#[derive(Clone, Copy, Debug, PartialEq, Eq, Structural)]
pub enum RecoverError {
    /// There is no carriage return to drop, and the data is no archive.
    NotAZip,
    /// None of the strategies found an archive; the data has this many carriage returns
    /// with a line feed behind them.
    Exhausted { crlfs: usize },
}

impl RecoverError {
    /// The error in words.
    pub open spec fn words(self) -> Seq<char> {
        match self {
            RecoverError::NotAZip => "No CRLF sequences found and data is not a valid ZIP"@,
            RecoverError::Exhausted { crlfs } => text::framed(
                "Recovery failed. "@,
                crlfs as nat,
                " CRLF positions, tried all strategies."@,
            ),
        }
    }

    /// The error in words.
    pub fn message(&self) -> (s: String)
        ensures
            s@ == self.words(),
    {
        match self {
            RecoverError::NotAZip => String::from_str(
                "No CRLF sequences found and data is not a valid ZIP",
            ),
            RecoverError::Exhausted { crlfs } => text::frame(
                "Recovery failed. ",
                *crlfs as u64,
                " CRLF positions, tried all strategies.",
            ),
        }
    }
}

/// The width that a setting asks for: a number of at least one, or else the default.
pub open spec fn beam_width(setting: Option<Seq<char>>) -> usize {
    match setting {
        None => DEFAULT_MAX_BEAM_WIDTH,
        Some(s) => match text::number_of(s) {
            Some(w) => if w >= 1 {
                w
            } else {
                DEFAULT_MAX_BEAM_WIDTH
            },
            None => DEFAULT_MAX_BEAM_WIDTH,
        },
    }
}

/// The width that a setting asks for: a number of at least one, or else the default.
pub fn max_beam_width(setting: Option<&str>) -> (w: usize)
    ensures
        w == beam_width(
            match setting {
                Some(s) => Some(s@),
                None => None,
            },
        ),
        w >= 1,
{
    match setting {
        None => DEFAULT_MAX_BEAM_WIDTH,
        Some(s) => match text::parse_number(s) {
            Some(w) => if w >= 1 {
                w
            } else {
                DEFAULT_MAX_BEAM_WIDTH
            },
            None => DEFAULT_MAX_BEAM_WIDTH,
        },
    }
}

/// What the recovery came to, as a model.
pub open spec fn verdict(r: Result<RecoveryResult, RecoverError>) -> Result<
    ResultModel,
    RecoverError,
> {
    match r {
        Ok(result) => Ok(result@),
        Err(e) => Err(e),
    }
}

/// What is recovered from data without any carriage return to drop: the data itself if
/// it is an archive.
pub open spec fn undamaged(data: Seq<u8>) -> Result<ResultModel, RecoverError> {
    if zip_util::valid_zip(data) {
        Ok(ResultModel { data, strategy: "no_corruption"@, attempts: 0 })
    } else {
        Err(RecoverError::NotAZip)
    }
}

/// The data with those carriage returns kept that local headers need.
pub open spec fn headers_settled(data: Seq<u8>) -> DamageModel {
    let crlf = zip_util::crlfs(data);
    DamageModel { data, crlf, kept: headers::header_kept(data, crlf) }
}

/// The carriage returns kept for headers are among those listed.
pub proof fn lemma_headers_settled(data: Seq<u8>)
    requires
        data.len() <= usize::MAX,
    ensures
        headers_settled(data).wf(),
{
    let crlf = zip_util::crlfs(data);
    lemma_crlfs(data);
    positions::lemma_positions(crlf.len(), |k: int| headers::kept_for_any(data, crlf, k));
}

/// The outcome of the last strategy, or the error that none of them helped.
pub open spec fn concluded(d: DamageModel, result: Option<ResultModel>) -> Result<
    ResultModel,
    RecoverError,
> {
    match result {
        Some(result) => Ok(result),
        None => Err(RecoverError::Exhausted { crlfs: d.crlf.len() as usize }),
    }
}

/// What is recovered from `data`: the data itself, the data without any of the carriage
/// returns, or what fixing the files one by one gives, round after round.
pub open spec fn recovered(data: Seq<u8>, cap: nat) -> Result<ResultModel, RecoverError> {
    if zip_util::crlfs(data).len() == 0 {
        undamaged(data)
    } else if let Some(result) = removed_all(data) {
        Ok(result)
    } else {
        let d = headers_settled(data);
        concluded(d, d.per_file_fixed(cap))
    }
}

/// What the cheap strategies come to.
enum Look {
    Settled(Result<RecoveryResult, RecoverError>),
    Damaged { crlf: Vec<usize>, kept: Vec<usize> },
}

/// Tries the cheap strategies, and settles the headers if they do not help.
fn look(data: &[u8]) -> (r: Look)
    ensures
        match r {
            Look::Settled(result) => {
                &&& forall|cap: nat| #[trigger] recovered(data@, cap) == verdict(result)
                &&& zip_util::crlfs(data@).len() == 0 || removed_all(data@) is Some
            },
            Look::Damaged { crlf, kept } => {
                let d = DamageModel { data: data@, crlf: crlf@, kept: kept@ };
                &&& d == headers_settled(data@)
                &&& d.wf()
                &&& zip_util::crlfs(data@).len() > 0
                &&& removed_all(data@) is None
            },
        },
{
    let crlf: Vec<usize> = zip_util::find_crlf_positions(data);
    if crlf.len() == 0 {
        if validate_as_zip(data) {
            return Look::Settled(
                Ok(
                    RecoveryResult {
                        data: vstd::slice::slice_to_vec(data),
                        strategy: String::from_str("no_corruption"),
                        attempts: 0,
                    },
                ),
            );
        }
        return Look::Settled(Err(RecoverError::NotAZip));
    }
    if let Some(result) = try_remove_all(data, crlf.as_slice()) {
        return Look::Settled(Ok(result));
    }
    let kept: Vec<usize> = headers::stabilize_headers(data, crlf.as_slice());
    assert(data.len() == data@.len());
    Look::Damaged { crlf, kept }
}

/// The start of a recovery: its outcome, or files that need a fix.
pub enum Start<'a> {
    Settled(Result<RecoveryResult, RecoverError>),
    Files(FixPlan<'a>),
}

/// Tries everything that needs no search inside a file.
pub fn begin<'a>(data: &'a [u8]) -> (r: Start<'a>)
    ensures
        match r {
            Start::Settled(result) => forall|cap: nat| #[trigger]
                recovered(data@, cap) == verdict(result),
            Start::Files(plan) => {
                let d = headers_settled(data@);
                &&& plan.wf()
                &&& plan.damage() == d
                &&& plan.spent() == 0
                &&& forall|cap: nat| #[trigger]
                    recovered(data@, cap) == concluded(d, d.files_fixed(cap, 0))
            },
        },
{
    match look(data) {
        Look::Settled(result) => Start::Settled(result),
        Look::Damaged { crlf, kept } => {
            let n: usize = crlf.len();
            match per_file::plan_per_file_fix(data, crlf, kept) {
                FixStart::Settled(Some(result)) => Start::Settled(Ok(result)),
                FixStart::Settled(None) => Start::Settled(
                    Err(RecoverError::Exhausted { crlfs: n }),
                ),
                FixStart::Files(plan) => Start::Files(plan),
            }
        },
    }
}

/// The end of a round of a recovery in which files were fixed: the recovery's outcome, or
/// more files that need a fix.
pub fn conclude<'a>(plan: FixPlan<'a>, fixes: Vec<FileFix>) -> (r: Start<'a>)
    requires
        plan.wf(),
        plan.damage().accepts(per_file::fix_models(fixes@)),
    ensures
        ({
            let d = plan.damage();
            let models = per_file::fix_models(fixes@);
            match r {
                Start::Settled(result) => {
                    &&& verdict(result) == concluded(d, d.finished(models, plan.spent()))
                    &&& result is Err ==> d.next_round(models) is None
                },
                Start::Files(next) => {
                    &&& d.finished(models, plan.spent()) is None
                    &&& d.next_round(models) == Some(next.damage())
                    &&& next.wf()
                    &&& next.spent() == per_file::attempts_after(plan.spent(), models, models.len())
                },
            }
        }),
{
    let n: usize = plan.crlf_count();
    match plan.finish(fixes) {
        FixStart::Settled(Some(result)) => Start::Settled(Ok(result)),
        FixStart::Settled(None) => Start::Settled(Err(RecoverError::Exhausted { crlfs: n })),
        FixStart::Files(next) => Start::Files(next),
    }
}

/// Recovers an archive from damaged data, with a beam search of the given width.
pub fn recover_with_beam_width(data: &[u8], beam_cap: usize) -> (r: Result<
    RecoveryResult,
    RecoverError,
>)
    ensures
        verdict(r) == recovered(data@, beam_cap as nat),
        r matches Ok(result) ==> undo::is_thinned(data@, result.data@) && zip_util::valid_zip(
            result.data@,
        ),
        natural::keeps_pairs(data@, beam_cap as nat, verdict(r)),
{
    assert(data.len() == data@.len());
    proof {
        undo::law_recovery_is_sound(data@, beam_cap as nat);
    }
    match look(data) {
        Look::Settled(result) => {
            proof {
                natural::lemma_recovery_keeps_pairs(data@, beam_cap as nat);
            }
            result
        },
        Look::Damaged { crlf, kept } => {
            let n: usize = crlf.len();
            let found: Option<RecoveryResult> = per_file::try_per_file_fix(
                data,
                crlf,
                kept,
                beam_cap,
            );
            proof {
                natural::lemma_recovery_keeps_pairs(data@, beam_cap as nat);
            }
            match found {
                Some(result) => Ok(result),
                None => Err(RecoverError::Exhausted { crlfs: n }),
            }
        },
    }
}

/// Recovers an archive from data in which a text-mode transfer has put carriage
/// returns in front of line feeds.
pub fn recover(data: &[u8]) -> (r: Result<RecoveryResult, RecoverError>)
    ensures
        verdict(r) == recovered(data@, DEFAULT_MAX_BEAM_WIDTH as nat),
        verdict(r) == recovered(data@, 2000),
        r matches Ok(result) ==> undo::is_thinned(data@, result.data@) && zip_util::valid_zip(
            result.data@,
        ),
        natural::keeps_pairs(data@, DEFAULT_MAX_BEAM_WIDTH as nat, verdict(r)),
{
    recover_with_beam_width(data, DEFAULT_MAX_BEAM_WIDTH)
}

} // verus!
