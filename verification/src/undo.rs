//! What recovery gives back of what a transfer has damaged.
use vstd::prelude::*;

use crate::beam;
use crate::corrupt;
use crate::corrupt::CR;
use crate::mask;
use crate::per_file;
use crate::positions;
use crate::recover;
use crate::recover::DamageModel;
use crate::zip_util;

verus! {

/// The byte at `p` of the damaged data is a carriage return that the damage put there.
pub open spec fn put_at(data: Seq<u8>, p: int) -> bool {
    exists|n: nat|
        corrupt::standalone_lf_at(data, n as int) && #[trigger] corrupt::corrupted_upto(
            data,
            n,
        ).len() == p
}

/// The mask that drops what the damage put there and nothing else.
pub open spec fn undoing(data: Seq<u8>) -> Seq<bool> {
    let crlf = zip_util::crlfs(corrupt::corrupted(data));
    Seq::new(crlf.len(), |k: int| put_at(data, crlf[k] as int))
}

proof fn lemma_one_length(data: Seq<u8>, n: nat, m: nat)
    requires
        corrupt::corrupted_upto(data, n).len() == corrupt::corrupted_upto(data, m).len(),
    ensures
        n == m,
{
    if n < m {
        corrupt::lemma_damage_prefix(data, n, m);
    }
    if m < n {
        corrupt::lemma_damage_prefix(data, m, n);
    }
}

proof fn lemma_undoing_upto(data: Seq<u8>, n: nat)
    requires
        n <= data.len(),
        corrupt::corrupted(data).len() <= usize::MAX,
    ensures
        mask::left_of(
            corrupt::corrupted(data),
            zip_util::crlfs(corrupt::corrupted(data)),
            undoing(data),
            corrupt::corrupted_upto(data, n).len() as int,
        ) == data.take(n as int),
    decreases n,
{
    let c = corrupt::corrupted(data);
    let crlf = zip_util::crlfs(c);
    let m = undoing(data);
    if n == 0 {
        assert(data.take(0) =~= Seq::empty());
    } else {
        let last = (n - 1) as nat;
        let p = corrupt::corrupted_upto(data, last).len() as int;
        lemma_undoing_upto(data, last);
        corrupt::lemma_damage_at(data, last);
        recover::lemma_crlfs(c);
        assert(data.take(n as int) =~= data.take(n - 1).push(data[n - 1]));
        assert forall|q: int| #[trigger] mask::dropped(crlf, m, q) implies c[q] == CR && put_at(
            data,
            q,
        ) by {
            let k = choose|k: int| 0 <= k < crlf.len() && #[trigger] crlf[k] == q && m[k];
            assert(zip_util::crlf_at(c, crlf[k] as int));
        }
        if corrupt::standalone_lf_at(data, last as int) {
            assert(put_at(data, p));
            assert(zip_util::crlf_at(c, p));
            assert(crlf.contains(p as usize));
            let k = choose|k: int| 0 <= k < crlf.len() && crlf[k] == p as usize;
            assert(crlf[k] == p && m[k]);
            assert(mask::dropped(crlf, m, p));
            assert(!mask::dropped(crlf, m, p + 1));
            assert(mask::left_of(c, crlf, m, p + 1) == mask::left_of(c, crlf, m, p));
        } else {
            if mask::dropped(crlf, m, p) {
                let other = choose|o: nat|
                    corrupt::standalone_lf_at(data, o as int) && #[trigger] corrupt::corrupted_upto(
                        data,
                        o,
                    ).len() == p;
                lemma_one_length(data, last, other);
            }
        }
    }
}

/// Whatever the data, it is among the candidates for its damaged form: dropping what
/// the damage put there gives it back.
pub proof fn law_original_is_a_candidate(data: Seq<u8>)
    requires
        corrupt::corrupted(data).len() <= usize::MAX,
    ensures
        mask::candidate(
            corrupt::corrupted(data),
            zip_util::crlfs(corrupt::corrupted(data)),
            undoing(data),
        ) == data,
{
    lemma_undoing_upto(data, data.len());
    assert(data.take(data.len() as int) =~= data);
}

/// Data without a carriage return in front of a line feed is given back by dropping
/// every carriage return in front of a line feed from its damaged form.
pub proof fn law_removing_all_undoes(data: Seq<u8>)
    requires
        corrupt::corrupted(data).len() <= usize::MAX,
        zip_util::crlfs(data).len() == 0,
    ensures
        recover::all_removed(corrupt::corrupted(data)).candidate() == data,
{
    let c = corrupt::corrupted(data);
    let crlf = zip_util::crlfs(c);
    let d = recover::all_removed(c);
    corrupt::law_damage_length(data);
    recover::lemma_crlfs(c);
    recover::lemma_crlfs(data);
    assert forall|k: int| 0 <= k < crlf.len() implies put_at(data, #[trigger] crlf[k] as int) by {
        let p = crlf[k] as int;
        assert(zip_util::crlf_at(c, p));
        let n = corrupt::lemma_damage_origin(data, p);
        corrupt::lemma_damage_at(data, n);
        if !corrupt::standalone_lf_at(data, n as int) {
            let m = corrupt::lemma_damage_origin(data, p + 1);
            corrupt::lemma_damage_prefix(data, n + 1, data.len());
            if m != n + 1 {
                if m < n + 1 {
                    corrupt::lemma_damage_prefix(data, m + 1, n + 1);
                } else {
                    corrupt::lemma_damage_prefix(data, n + 2, m);
                }
            }
            corrupt::lemma_damage_at(data, n + 1);
            assert(zip_util::crlf_at(data, n as int));
            assert(zip_util::crlfs(data).contains(n as usize));
        }
    }
    assert(d.mask() =~= undoing(data));
    law_original_is_a_candidate(data);
}

/// Damaged data has a carriage return in front of a line feed for each one that the
/// data has, and one for each line feed that had none.
pub proof fn law_pairs_of_damage(data: Seq<u8>)
    ensures
        zip_util::crlfs(corrupt::corrupted(data)).len() == zip_util::crlfs(data).len()
            + corrupt::standalone_lfs(data).len(),
{
    lemma_pairs_upto(data, data.len());
}

proof fn lemma_pairs_upto(data: Seq<u8>, n: nat)
    requires
        n <= data.len(),
    ensures
        ({
            let c = corrupt::corrupted(data);
            positions::positions(
                corrupt::corrupted_upto(data, n).len(),
                |i: int| zip_util::crlf_at(c, i),
            ).len() == positions::positions(n, |i: int| zip_util::crlf_at(data, i)).len()
                + positions::positions(n, |i: int| corrupt::standalone_lf_at(data, i)).len()
        }),
    decreases n,
{
    let c = corrupt::corrupted(data);
    let pair = |i: int| zip_util::crlf_at(c, i);
    if n > 0 {
        let last = (n - 1) as nat;
        let p = corrupt::corrupted_upto(data, last).len();
        lemma_pairs_upto(data, last);
        corrupt::lemma_damage_at(data, last);
        if corrupt::standalone_lf_at(data, last as int) {
            assert(pair(p as int) && !pair(p as int + 1));
            assert(positions::positions(p + 1, pair).len() == positions::positions(p, pair).len()
                + 1);
            assert(positions::positions(p + 2, pair) == positions::positions(p + 1, pair));
        } else if n < data.len() {
            corrupt::lemma_damage_at(data, n);
            assert(pair(p as int) == zip_util::crlf_at(data, last as int));
        } else {
            assert(!pair(p as int));
        }
    }
}

/// With nothing to drop the candidate is the data itself.
proof fn lemma_nothing_dropped(data: Seq<u8>, m: Seq<bool>, n: int)
    requires
        0 <= n <= data.len(),
    ensures
        mask::left_of(data, Seq::empty(), m, n) == data.take(n),
    decreases n,
{
    if n > 0 {
        lemma_nothing_dropped(data, m, n - 1);
        assert(!mask::dropped(Seq::empty(), m, n - 1));
        assert(data.take(n) =~= data.take(n - 1).push(data[n - 1]));
    } else {
        assert(data.take(n) =~= Seq::empty());
    }
}

/// Data without a carriage return to drop is its own candidate.
pub proof fn lemma_nothing_to_drop(data: Seq<u8>)
    requires
        zip_util::crlfs(data).len() == 0,
    ensures
        recover::all_removed(data).candidate() == data,
{
    let none = recover::all_removed(data);
    assert(none.crlf =~= Seq::empty());
    lemma_nothing_dropped(data, none.mask(), data.len() as int);
    assert(data.take(data.len() as int) =~= data);
}

/// An archive without a carriage return in front of a line feed is recovered, byte for
/// byte, from its damaged form.
pub proof fn law_recovery_undoes_damage(data: Seq<u8>, cap: nat)
    requires
        corrupt::corrupted(data).len() <= usize::MAX,
        zip_util::crlfs(data).len() == 0,
    ensures
        zip_util::valid_zip(data) ==> (recover::recovered(corrupt::corrupted(data), cap) matches Ok(
            result,
        ) && result.data == data),
{
    let c = corrupt::corrupted(data);
    law_removing_all_undoes(data);
    if zip_util::crlfs(c).len() == 0 {
        lemma_nothing_to_drop(c);
    }
}

/// If dropping every carriage return in front of a line feed gives an archive, that is what
/// is recovered, even if some of those behind the last entry's contents were there before
/// the damage.
pub proof fn law_dropping_all_comes_first(data: Seq<u8>, cap: nat)
    requires
        zip_util::crlfs(data).len() > 0,
    ensures
        zip_util::valid_zip(recover::all_removed(data).candidate()) ==> (recover::recovered(
            data,
            cap,
        ) matches Ok(result) && result.data == recover::all_removed(data).candidate()),
{
}

/// `out` is `data` without some of the carriage returns that have a line feed behind
/// them.
pub open spec fn is_thinned(data: Seq<u8>, out: Seq<u8>) -> bool {
    exists|kept: Seq<usize>|
        out == #[trigger] (DamageModel {
            data,
            crlf: zip_util::crlfs(data),
            kept,
        }).candidate()
}

/// A result that holds nothing but what was there, and is an archive.
pub open spec fn is_sound(data: Seq<u8>, r: Option<recover::ResultModel>) -> bool {
    r matches Some(result) ==> is_thinned(data, result.data) && zip_util::valid_zip(result.data)
}

proof fn lemma_thinned(d: DamageModel)
    requires
        d.crlf == zip_util::crlfs(d.data),
    ensures
        is_thinned(d.data, d.candidate()),
{
    let same = DamageModel { data: d.data, crlf: zip_util::crlfs(d.data), kept: d.kept };
    assert(same == d);
    assert(is_thinned(d.data, same.candidate()));
}

proof fn lemma_one_kept_sound(data: Seq<u8>, i: nat)
    ensures
        is_sound(data, recover::one_kept(data, i)),
    decreases zip_util::crlfs(data).len() - i,
{
    if i < zip_util::crlfs(data).len() {
        lemma_thinned(recover::all_removed(data).also(i as usize));
        lemma_one_kept_sound(data, i + 1);
    }
}

proof fn lemma_one_more_sound(d: DamageModel, j: nat)
    requires
        d.crlf == zip_util::crlfs(d.data),
    ensures
        is_sound(d.data, d.one_more(j)),
    decreases d.remaining().len() - j,
{
    if j < d.remaining().len() {
        lemma_thinned(d.also(d.remaining()[j as int]));
        lemma_one_more_sound(d, j + 1);
    }
}

proof fn lemma_two_more_sound(d: DamageModel, i: nat, j: nat, tested: u64)
    requires
        d.crlf == zip_util::crlfs(d.data),
    ensures
        is_sound(d.data, d.two_more(i, j, tested)),
    decreases d.insertable().len() - i, d.insertable().len() - j,
{
    let places = d.insertable();
    if i < places.len() {
        if j < places.len() {
            lemma_thinned(d.also(places[i as int]).also(places[j as int]));
            lemma_two_more_sound(d, i, j + 1, beam::wrap64(tested + 1));
        } else {
            lemma_two_more_sound(d, i + 1, i + 2, tested);
        }
    }
}

proof fn lemma_finished_sound(
    d: DamageModel,
    fixes: Seq<(Option<Seq<usize>>, u64)>,
    spent: u64,
)
    requires
        d.crlf == zip_util::crlfs(d.data),
    ensures
        is_sound(d.data, d.finished(fixes, spent)),
        d.next_round(fixes) matches Some(next) ==> next.data == d.data && next.crlf == d.crlf,
{
    if let Some(kept) = d.gathered(fixes, fixes.len()) {
        let fixed = DamageModel { kept, ..d };
        lemma_thinned(fixed);
        lemma_one_more_sound(fixed, 0);
        lemma_two_more_sound(fixed, 0, 1, 0);
    }
}

proof fn lemma_files_fixed_sound(d: DamageModel, cap: nat, spent: u64)
    requires
        d.crlf == zip_util::crlfs(d.data),
    ensures
        is_sound(d.data, d.files_fixed(cap, spent)),
    decreases d.dropped_count(),
{
    let fixes = d.fixes(cap);
    per_file::lemma_files_fixed(d, cap, spent);
    lemma_finished_sound(d, fixes, spent);
    if let Some(next) = d.next_round(fixes) {
        lemma_files_fixed_sound(next, cap, per_file::attempts_after(spent, fixes, fixes.len()));
    }
}

/// Whatever is recovered is the damaged data without some of the carriage returns that
/// have a line feed behind them, and it is an archive: it begins with a local header, and
/// every entry in it has the checksum that its header gives.
pub proof fn law_recovery_is_sound(data: Seq<u8>, cap: nat)
    requires
        data.len() <= usize::MAX,
    ensures
        recover::recovered(data, cap) matches Ok(result) ==> is_thinned(data, result.data)
            && zip_util::valid_zip(result.data),
{
    let none = recover::all_removed(data);
    lemma_thinned(none);
    if zip_util::crlfs(data).len() == 0 {
        lemma_nothing_to_drop(data);
    } else if recover::removed_all(data) is None {
        let d = recover::headers_settled(data);
        if d.fixable() {
            lemma_files_fixed_sound(d, cap, 0);
        } else {
            lemma_thinned(d);
            lemma_one_kept_sound(d.data, 0);
        }
    }
}

/// The data is its damaged form without some of the carriage returns that have a line
/// feed behind them.
pub proof fn law_original_is_thinned(data: Seq<u8>)
    requires
        corrupt::corrupted(data).len() <= usize::MAX,
    ensures
        is_thinned(corrupt::corrupted(data), data),
{
    let c = corrupt::corrupted(data);
    let crlf = zip_util::crlfs(c);
    let m = undoing(data);
    let hit = |k: int| !m[k];
    let kept = positions::positions(crlf.len(), hit);
    let d = DamageModel { data: c, crlf, kept };
    recover::lemma_crlfs(c);
    positions::lemma_positions(crlf.len(), hit);
    assert forall|k: int| 0 <= k < crlf.len() implies #[trigger] d.mask()[k] == m[k] by {
        if !m[k] {
            assert(hit(k));
            assert(kept.contains(k as usize));
        }
        if kept.contains(k as usize) {
            let j = choose|j: int| 0 <= j < kept.len() && kept[j] == k as usize;
            assert(hit(kept[j] as int));
        }
    }
    assert(d.mask() =~= m);
    law_original_is_a_candidate(data);
    lemma_thinned(d);
}

/// Of all the candidates for the damaged form of `data` only `data` is an archive.
pub open spec fn only_archive(data: Seq<u8>) -> bool {
    forall|out: Seq<u8>| #[trigger]
        is_thinned(corrupt::corrupted(data), out) && zip_util::valid_zip(out) ==> out == data
}

/// If of all the candidates for damaged data only the original is an archive, whatever is
/// recovered is the original, byte for byte.
pub proof fn law_recovery_is_unambiguous(data: Seq<u8>, cap: nat)
    requires
        corrupt::corrupted(data).len() <= usize::MAX,
    ensures
        only_archive(data) ==> (recover::recovered(corrupt::corrupted(data), cap) matches Ok(result)
            ==> result.data == data),
{
    law_recovery_is_sound(corrupt::corrupted(data), cap);
}

/// If keeping a single carriage return gives an archive, trying each of them in turn
/// finds one.
pub proof fn law_single_kept_is_found(data: Seq<u8>, k: nat)
    requires
        k < zip_util::crlfs(data).len(),
    ensures
        zip_util::valid_zip(recover::all_removed(data).also(k as usize).candidate())
            ==> recover::one_kept(data, 0) is Some,
{
    lemma_one_kept_found(data, 0, k);
}

proof fn lemma_one_kept_found(data: Seq<u8>, i: nat, k: nat)
    requires
        i <= k < zip_util::crlfs(data).len(),
    ensures
        zip_util::valid_zip(recover::all_removed(data).also(k as usize).candidate())
            ==> recover::one_kept(data, i) is Some,
    decreases k - i,
{
    if i < k {
        lemma_one_kept_found(data, i + 1, k);
    }
}

/// If keeping one more carriage return gives an archive, patching finds one, unless the
/// data is too long for it.
pub proof fn law_one_more_is_found(d: DamageModel, j: nat)
    requires
        d.data.len() <= 200_000_000,
        j < d.remaining().len(),
    ensures
        zip_util::valid_zip(d.also(d.remaining()[j as int]).candidate()) ==> d.patched() is Some,
{
    lemma_one_more_found(d, 0, j);
}

proof fn lemma_one_more_found(d: DamageModel, i: nat, j: nat)
    requires
        i <= j < d.remaining().len(),
    ensures
        zip_util::valid_zip(d.also(d.remaining()[j as int]).candidate()) ==> d.one_more(i) is Some,
    decreases j - i,
{
    if i < j {
        lemma_one_more_found(d, i + 1, j);
    }
}

/// If keeping two more carriage returns gives an archive, patching finds one, unless the
/// data is too long for it.
pub proof fn law_two_more_is_found(d: DamageModel, i: nat, j: nat)
    requires
        d.data.len() <= 200_000_000,
        i < j < d.insertable().len(),
    ensures
        zip_util::valid_zip(
            d.also(d.insertable()[i as int]).also(d.insertable()[j as int]).candidate(),
        ) ==> d.patched() is Some,
{
    lemma_two_more_found(d, 0, 1, 0, i, j);
}

proof fn lemma_two_more_found(d: DamageModel, a: nat, b: nat, tested: u64, i: nat, j: nat)
    requires
        a < b <= d.insertable().len(),
        i < j < d.insertable().len(),
        a < i || (a == i && b <= j),
    ensures
        zip_util::valid_zip(
            d.also(d.insertable()[i as int]).also(d.insertable()[j as int]).candidate(),
        ) ==> d.two_more(a, b, tested) is Some,
    decreases d.insertable().len() - a, d.insertable().len() - b,
{
    if b >= d.insertable().len() {
        lemma_two_more_found(d, a + 1, a + 2, tested, i, j);
    } else if a < i || b < j {
        lemma_two_more_found(d, a, b + 1, beam::wrap64(tested + 1), i, j);
    }
}

} // verus!
