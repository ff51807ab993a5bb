//! A candidate that no cut of the beam drops is found, however many line feeds there are;
//! the one that puts every carriage return back is such a candidate.
use vstd::prelude::*;

use crate::beam;
use crate::beam::SectionModel;
use crate::candidate;
use crate::candidate::CandidateModel;
use crate::corrupt::CR;
use crate::png;
use crate::positions;
use crate::prune;
use crate::survive;

verus! {

impl SectionModel {
    /// The candidate, which stands before the `i`-th line feed in the beam `cands` and
    /// decides as `choices` say, is not dropped by any cut of the beam.
    pub open spec fn never_cut(
        self,
        i: nat,
        cands: Seq<CandidateModel>,
        c: CandidateModel,
        choices: Seq<bool>,
    ) -> bool
        decreases self.lfs.len() - i,
    {
        if i >= self.lfs.len() {
            true
        } else {
            match self.stepped(i, c, choices[i as int]) {
                None => true,
                Some(next) => {
                    let cut = prune::pruned(self.spread(i, cands), self.cap, i as usize);
                    cut.contains(next) && self.never_cut(i + 1, cut, next, choices)
                },
            }
        }
    }
}

proof fn lemma_stays_in_beam(
    s: SectionModel,
    i: nat,
    cands: Seq<CandidateModel>,
    attempts: u64,
    c: CandidateModel,
    choices: Seq<bool>,
)
    requires
        i <= s.lfs.len(),
        cands.contains(c),
        s.never_cut(i, cands, c, choices),
    ensures
        s.walked(i, c, choices) matches Some(end) ==> (s.searched(i, cands, attempts).0 matches Some(
            last,
        ) && beam::survivors(last, s.base.skip(s.fed_to(s.lfs.len())), false).contains(end)),
    decreases s.lfs.len() - i,
{
    if i >= s.lfs.len() {
        let k = choose|k: int| 0 <= k < cands.len() && cands[k] == c;
        beam::lemma_survivor(cands, s.base.skip(s.fed_to(s.lfs.len())), false, k);
    } else if s.stepped(i, c, choices[i as int]) is Some {
        let kept = s.spread(i, cands);
        let next = s.stepped(i, c, choices[i as int])->0;
        let cut = prune::pruned(kept, s.cap, i as usize);
        beam::lemma_step_in_beam(s, i, cands, c, choices[i as int]);
        lemma_stays_in_beam(
            s,
            i + 1,
            cut,
            beam::wrap64(attempts + 2 * s.advanced(i, cands).len()),
            next,
            choices,
        );
    }
}

/// Whatever the number of line feeds: if some choice of carriage returns to put back takes a
/// candidate to the end, no cut of the beam drops it on the way, and it solves the section,
/// then the search finds a solution with no more of them.
pub proof fn law_uncut_choice_is_found(
    s: SectionModel,
    validator: Option<png::PngModel>,
    attempts: u64,
    choices: Seq<bool>,
)
    requires
        ({
            let start = CandidateModel::start(s.prefix.len() > 0, validator);
            &&& s.never_cut(0, seq![start], start, choices)
            &&& s.walked(0, start, choices) matches Some(end)
            &&& s.solved_by(end)
        }),
    ensures
        ({
            let start = CandidateModel::start(s.prefix.len() > 0, validator);
            s.beam_fixed(validator, attempts).0 matches Some(found) && found.len() <= s.walked(
                0,
                start,
                choices,
            )->0.inserts.len()
        }),
{
    let start = CandidateModel::start(s.prefix.len() > 0, validator);
    let cands = seq![start];
    assert(cands[0] == start);
    let end = s.walked(0, start, choices)->0;
    lemma_stays_in_beam(s, 0, cands, attempts, start, choices);
    let last = s.searched(0, cands, attempts).0->0;
    let all = beam::survivors(last, s.base.skip(s.fed_to(s.lfs.len())), false);
    let k = choose|k: int| 0 <= k < all.len() && all[k] == end;
    beam::lemma_best_found(s, all, k);
}

/// No candidate has put back more than `i` carriage returns, and at most one that many.
pub open spec fn led(cands: Seq<CandidateModel>, i: nat) -> bool {
    &&& forall|k: int| 0 <= k < cands.len() ==> (#[trigger] cands[k]).inserts.len() <= i
    &&& survive::alike(cands, i).len() <= 1
}

proof fn lemma_survivors_led(cands: Seq<CandidateModel>, chunk: Seq<u8>, has_more: bool, i: nat)
    requires
        forall|k: int| 0 <= k < cands.len() ==> (#[trigger] cands[k]).inserts.len() <= i,
    ensures
        ({
            let after = beam::survivors(cands, chunk, has_more);
            &&& forall|k: int| 0 <= k < after.len() ==> (#[trigger] after[k]).inserts.len() <= i
            &&& survive::alike(after, i).len() <= survive::alike(cands, i).len()
        }),
    decreases cands.len(),
{
    if cands.len() > 0 {
        let front = cands.drop_last();
        let c = cands.last();
        assert(cands =~= front.push(c));
        assert(cands[cands.len() - 1] == c);
        assert forall|k: int| 0 <= k < front.len() implies (#[trigger] front[k]).inserts.len()
            <= i by {
            assert(front[k] == cands[k]);
        }
        lemma_survivors_led(front, chunk, has_more, i);
        survive::lemma_alike_push(front, c, i);
        candidate::lemma_feeding_keeps_inserts(c, chunk, has_more);
        if let Ok(next) = c.fed(chunk, has_more) {
            survive::lemma_alike_push(beam::survivors(front, chunk, has_more), next, i);
        }
    } else {
        assert(beam::survivors(cands, chunk, has_more) =~= cands);
    }
}

/// Only those that have put back as many as anyone can have can have put back one more.
proof fn lemma_forked_led(
    cands: Seq<CandidateModel>,
    lf: usize,
    byte: u8,
    has_more: bool,
    i: nat,
)
    requires
        forall|k: int| 0 <= k < cands.len() ==> (#[trigger] cands[k]).inserts.len() <= i,
    ensures
        ({
            let after = beam::forked(cands, lf, byte, has_more);
            &&& forall|k: int| 0 <= k < after.len() ==> (#[trigger] after[k]).inserts.len() <= i + 1
            &&& survive::alike(after, i + 1).len() <= survive::alike(cands, i).len()
        }),
    decreases cands.len(),
{
    if cands.len() > 0 {
        let front = cands.drop_last();
        let c = cands.last();
        let noted = CandidateModel { inserts: c.inserts.push(lf), ..c };
        let alone = c.fed(seq![byte], has_more);
        let pair = noted.fed(seq![CR, byte], has_more);
        assert(cands =~= front.push(c));
        assert(cands[cands.len() - 1] == c);
        assert forall|k: int| 0 <= k < front.len() implies (#[trigger] front[k]).inserts.len()
            <= i by {
            assert(front[k] == cands[k]);
        }
        lemma_forked_led(front, lf, byte, has_more, i);
        survive::lemma_alike_push(front, c, i);
        candidate::lemma_feeding_keeps_inserts(c, seq![byte], has_more);
        candidate::lemma_feeding_keeps_inserts(noted, seq![CR, byte], has_more);
        let before = beam::forked(front, lf, byte, has_more);
        let mid = before + beam::if_ok(alone);
        if let Ok(next) = alone {
            assert(mid =~= before.push(next));
            survive::lemma_alike_push(before, next, i + 1);
        } else {
            assert(mid =~= before);
        }
        let after = beam::forked(cands, lf, byte, has_more);
        if let Ok(next) = pair {
            assert(after =~= mid.push(next));
            survive::lemma_alike_push(mid, next, i + 1);
        } else {
            assert(after =~= mid);
        }
    } else {
        assert(beam::forked(cands, lf, byte, has_more) =~= cands);
        survive::lemma_alike_bounds(cands, i + 1);
    }
}

proof fn lemma_prefix_led(cands: Seq<CandidateModel>, prefix: Seq<u8>, i: nat)
    requires
        forall|k: int| 0 <= k < cands.len() ==> (#[trigger] cands[k]).inserts.len() <= i,
    ensures
        ({
            let after = beam::prefix_kept(cands, prefix);
            &&& forall|k: int| 0 <= k < after.len() ==> (#[trigger] after[k]).inserts.len() <= i
            &&& survive::alike(after, i).len() <= survive::alike(cands, i).len()
        }),
    decreases cands.len(),
{
    if cands.len() > 0 {
        let front = cands.drop_last();
        let c = cands.last();
        assert(cands =~= front.push(c));
        assert(cands[cands.len() - 1] == c);
        assert forall|k: int| 0 <= k < front.len() implies (#[trigger] front[k]).inserts.len()
            <= i by {
            assert(front[k] == cands[k]);
        }
        lemma_prefix_led(front, prefix, i);
        survive::lemma_alike_push(front, c, i);
        survive::lemma_alike_push(
            beam::prefix_kept(front, prefix),
            c.prefix_checked(prefix).0,
            i,
        );
    } else {
        assert(beam::prefix_kept(cands, prefix) =~= cands);
    }
}

/// One round leaves one leader.
pub proof fn lemma_round_led(s: SectionModel, cands: Seq<CandidateModel>, i: nat)
    requires
        i < s.lfs.len(),
        led(cands, i),
    ensures
        led(s.spread(i, cands), i + 1),
{
    let lf = s.lfs[i as int];
    let start = s.fed_to(i);
    let byte = s.base[lf as int];
    let has_more = lf + 1 < s.base.len() || i + 1 < s.lfs.len();
    let fed = s.advanced(i, cands);
    if lf > start {
        lemma_survivors_led(cands, s.base.subrange(start, lf as int), true, i);
    }
    lemma_forked_led(fed, lf, byte, has_more, i);
    lemma_prefix_led(beam::forked(fed, lf, byte, has_more), s.prefix, i + 1);
}

/// A cut leaves the leader in a beam that has more places than line feeds were passed.
pub proof fn lemma_leader_stays(
    all: Seq<CandidateModel>,
    cap: nat,
    i: usize,
    n: nat,
    c: CandidateModel,
)
    requires
        led(all, n),
        n < cap,
        n <= usize::MAX,
    ensures
        led(prune::pruned(all, cap, i), n),
        all.contains(c) && c.inserts.len() == n ==> prune::pruned(all, cap, i).contains(c),
{
    let cut = prune::pruned(all, cap, i);
    survive::law_cut_adds_none_of_a_kind(all, cap, i, n);
    prune::law_pruning_only_drops(all, cap, i);
    assert forall|k: int| 0 <= k < cut.len() implies (#[trigger] cut[k]).inserts.len() <= n by {
        let m = choose|m: int| 0 <= m < all.len() && all[m] == cut[k];
        assert(all[m].inserts.len() <= n);
    }
    if all.contains(c) && c.inserts.len() == n {
        let kinds = Seq::new(n + 1, |j: int| j as usize);
        assert forall|d: CandidateModel| #![trigger all.contains(d)] all.contains(d) implies exists|
            j: int,
        | 0 <= j < kinds.len() && #[trigger] kinds[j] == d.inserts.len() by {
            let m = choose|m: int| 0 <= m < all.len() && all[m] == d;
            assert(all[m].inserts.len() <= n);
            assert(kinds[d.inserts.len() as int] == d.inserts.len());
        }
        let size = survive::alike(all, n).len();
        assert(size * kinds.len() <= cap) by (nonlinear_arith)
            requires
                size <= 1,
                kinds.len() <= cap,
        ;
        survive::law_small_groups_are_kept(all, cap, i, kinds, c);
    }
}

/// Line feeds in order are no more than the bytes that they stand among.
pub proof fn lemma_fewer_than_bytes(s: SectionModel)
    requires
        s.wf(),
    ensures
        s.lfs.len() <= s.base.len(),
{
    if s.lfs.len() > 0 {
        lemma_at_least_index(s.lfs, s.lfs.len() - 1);
        assert(s.lfs[s.lfs.len() - 1] < s.base.len());
    }
}

proof fn lemma_at_least_index(list: Seq<usize>, k: int)
    requires
        positions::ascending(list),
        0 <= k < list.len(),
    ensures
        list[k] >= k,
    decreases k,
{
    if k > 0 {
        lemma_at_least_index(list, k - 1);
        assert(list[k - 1] < list[k]);
    }
}

/// Feeding and checking leave what a candidate has decided.
proof fn lemma_stepped_inserts(s: SectionModel, i: nat, c: CandidateModel, put: bool)
    ensures
        s.stepped(i, c, put) matches Some(next) ==> next.inserts == if put {
            c.inserts.push(s.lfs[i as int])
        } else {
            c.inserts
        },
{
    let lf = s.lfs[i as int];
    let byte = s.base[lf as int];
    let start = s.fed_to(i);
    let has_more = lf + 1 < s.base.len() || i + 1 < s.lfs.len();
    let chunk = s.base.subrange(start, lf as int);
    candidate::lemma_feeding_keeps_inserts(c, chunk, true);
    let before = if lf > start {
        c.fed(chunk, true)
    } else {
        Ok(c)
    };
    if let Ok(d) = before {
        let noted = CandidateModel { inserts: d.inserts.push(lf), ..d };
        candidate::lemma_feeding_keeps_inserts(noted, seq![CR, byte], has_more);
        candidate::lemma_feeding_keeps_inserts(d, seq![byte], has_more);
    }
}

/// A candidate has put carriage returns back just where it decided to.
proof fn lemma_walked_inserts(s: SectionModel, i: nat, c: CandidateModel, choices: Seq<bool>)
    requires
        i <= s.lfs.len(),
        forall|j: int| i <= j < s.lfs.len() ==> #[trigger] choices[j],
    ensures
        s.walked(i, c, choices) matches Some(end) ==> end.inserts.len() == c.inserts.len() + (
        s.lfs.len() - i),
    decreases s.lfs.len() - i,
{
    if i >= s.lfs.len() {
        candidate::lemma_feeding_keeps_inserts(
            c,
            s.base.skip(s.fed_to(s.lfs.len())),
            false,
        );
    } else {
        lemma_stepped_inserts(s, i, c, true);
        assert(choices[i as int]);
        if let Some(next) = s.stepped(i, c, true) {
            lemma_walked_inserts(s, i + 1, next, choices);
        }
    }
}

proof fn lemma_leader_never_cut(
    s: SectionModel,
    i: nat,
    cands: Seq<CandidateModel>,
    c: CandidateModel,
    choices: Seq<bool>,
)
    requires
        s.wf(),
        i <= s.lfs.len(),
        s.lfs.len() < s.cap,
        led(cands, i),
        cands.contains(c),
        c.inserts.len() == i,
        forall|j: int| 0 <= j < s.lfs.len() ==> #[trigger] choices[j],
    ensures
        s.never_cut(i, cands, c, choices),
    decreases s.lfs.len() - i,
{
    if i < s.lfs.len() {
        assert(choices[i as int]);
        if let Some(next) = s.stepped(i, c, true) {
            let all = s.spread(i, cands);
            let cut = prune::pruned(all, s.cap, i as usize);
            lemma_fewer_than_bytes(s);
            lemma_round_led(s, cands, i);
            lemma_stepped_inserts(s, i, c, true);
            beam::lemma_step_in_beam(s, i, cands, c, true);
            lemma_leader_stays(all, s.cap, i as usize, i + 1, next);
            lemma_leader_never_cut(s, i + 1, cut, next, choices);
        }
    }
}

/// A section in which every line feed lacks its carriage return is solved if there are fewer
/// line feeds than places in the beam: if putting every one back takes a candidate to the
/// end and solves the section, the search finds a solution with no more of them.
pub proof fn law_all_put_back_is_found(
    s: SectionModel,
    validator: Option<png::PngModel>,
    attempts: u64,
    choices: Seq<bool>,
)
    requires
        s.wf(),
        s.lfs.len() < s.cap,
        forall|j: int| 0 <= j < s.lfs.len() ==> #[trigger] choices[j],
        ({
            let start = CandidateModel::start(s.prefix.len() > 0, validator);
            s.walked(0, start, choices) matches Some(end) && s.solved_by(end)
        }),
    ensures
        s.beam_fixed(validator, attempts).0 matches Some(found) && found.len() <= s.lfs.len(),
{
    let start = CandidateModel::start(s.prefix.len() > 0, validator);
    let cands = seq![start];
    assert(cands[0] == start);
    survive::lemma_alike_bounds(cands, 0);
    lemma_leader_never_cut(s, 0, cands, start, choices);
    lemma_walked_inserts(s, 0, start, choices);
    law_uncut_choice_is_found(s, validator, attempts, choices);
}

impl SectionModel {
    /// The candidate, which stands before the `i`-th line feed in the beam `cands` and
    /// decides as `choices` say, is behind every line feed the only one that has put back as
    /// many carriage returns as it has.
    pub open spec fn stays_alone(
        self,
        i: nat,
        cands: Seq<CandidateModel>,
        c: CandidateModel,
        choices: Seq<bool>,
    ) -> bool
        decreases self.lfs.len() - i,
    {
        if i >= self.lfs.len() {
            true
        } else {
            match self.stepped(i, c, choices[i as int]) {
                None => true,
                Some(next) => {
                    let all = self.spread(i, cands);
                    &&& survive::alike(all, next.inserts.len()).len() == 1
                    &&& self.stays_alone(
                        i + 1,
                        prune::pruned(all, self.cap, i as usize),
                        next,
                        choices,
                    )
                },
            }
        }
    }
}

/// One round puts back one carriage return at most.
proof fn lemma_round_bounds(s: SectionModel, cands: Seq<CandidateModel>, i: nat)
    requires
        i < s.lfs.len(),
        forall|k: int| 0 <= k < cands.len() ==> (#[trigger] cands[k]).inserts.len() <= i,
    ensures
        ({
            let all = s.spread(i, cands);
            forall|k: int| 0 <= k < all.len() ==> (#[trigger] all[k]).inserts.len() <= i + 1
        }),
{
    let lf = s.lfs[i as int];
    let start = s.fed_to(i);
    let byte = s.base[lf as int];
    let has_more = lf + 1 < s.base.len() || i + 1 < s.lfs.len();
    let fed = s.advanced(i, cands);
    if lf > start {
        lemma_survivors_led(cands, s.base.subrange(start, lf as int), true, i);
    }
    lemma_forked_led(fed, lf, byte, has_more, i);
    lemma_prefix_led(beam::forked(fed, lf, byte, has_more), s.prefix, i + 1);
}

proof fn lemma_alone_is_never_cut(
    s: SectionModel,
    i: nat,
    cands: Seq<CandidateModel>,
    c: CandidateModel,
    choices: Seq<bool>,
)
    requires
        s.wf(),
        i <= s.lfs.len(),
        s.lfs.len() < s.cap,
        forall|k: int| 0 <= k < cands.len() ==> (#[trigger] cands[k]).inserts.len() <= i,
        cands.contains(c),
        s.stays_alone(i, cands, c, choices),
    ensures
        s.never_cut(i, cands, c, choices),
    decreases s.lfs.len() - i,
{
    if i < s.lfs.len() {
        if let Some(next) = s.stepped(i, c, choices[i as int]) {
            let all = s.spread(i, cands);
            let cut = prune::pruned(all, s.cap, i as usize);
            let kinds = Seq::new(i + 2, |j: int| j as usize);
            lemma_fewer_than_bytes(s);
            lemma_round_bounds(s, cands, i);
            beam::lemma_step_in_beam(s, i, cands, c, choices[i as int]);
            assert forall|d: CandidateModel|
                #![trigger all.contains(d)]
                all.contains(d) implies exists|j: int|
                0 <= j < kinds.len() && #[trigger] kinds[j] == d.inserts.len() by {
                let m = choose|m: int| 0 <= m < all.len() && all[m] == d;
                assert(all[m].inserts.len() <= i + 1);
                assert(kinds[d.inserts.len() as int] == d.inserts.len());
            }
            survive::law_small_groups_are_kept(all, s.cap, i as usize, kinds, next);
            prune::law_pruning_only_drops(all, s.cap, i as usize);
            assert forall|k: int| 0 <= k < cut.len() implies (#[trigger] cut[k]).inserts.len()
                <= i + 1 by {
                let m = choose|m: int| 0 <= m < all.len() && all[m] == cut[k];
                assert(all[m].inserts.len() <= i + 1);
            }
            lemma_alone_is_never_cut(s, i + 1, cut, next, choices);
        }
    }
}

/// With more places in the beam than line feeds, a choice whose candidate stays alone with the
/// number of carriage returns that it has put back is never cut: if it solves the section, the
/// search finds a solution with no more of them.
pub proof fn law_lone_choice_is_found(
    s: SectionModel,
    validator: Option<png::PngModel>,
    attempts: u64,
    choices: Seq<bool>,
)
    requires
        s.wf(),
        s.lfs.len() < s.cap,
        ({
            let start = CandidateModel::start(s.prefix.len() > 0, validator);
            &&& s.stays_alone(0, seq![start], start, choices)
            &&& s.walked(0, start, choices) matches Some(end)
            &&& s.solved_by(end)
        }),
    ensures
        ({
            let start = CandidateModel::start(s.prefix.len() > 0, validator);
            s.beam_fixed(validator, attempts).0 matches Some(found) && found.len() <= s.walked(
                0,
                start,
                choices,
            )->0.inserts.len()
        }),
{
    let start = CandidateModel::start(s.prefix.len() > 0, validator);
    let cands = seq![start];
    assert(cands[0] == start);
    lemma_alone_is_never_cut(s, 0, cands, start, choices);
    law_uncut_choice_is_found(s, validator, attempts, choices);
}

} // verus!
