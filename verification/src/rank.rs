//! The order of a beam: candidates that have put out more come first.
use vstd::prelude::*;

use crate::beam;
use crate::candidate;
use crate::candidate::BeamCandidate;

verus! {

/// The first candidate comes before the second: it has put out more, or as much with fewer
/// carriage returns put back.
pub open spec fn ahead(a: candidate::CandidateModel, b: candidate::CandidateModel) -> bool {
    a.output.total_out > b.output.total_out || (a.output.total_out == b.output.total_out
        && a.inserts.len() < b.inserts.len())
}

/// No candidate comes before one that stands in front of it.
pub open spec fn in_rank(cands: Seq<candidate::CandidateModel>) -> bool {
    forall|i: int, j: int|
        0 <= i < j < cands.len() ==> !ahead(#[trigger] cands[j], #[trigger] cands[i])
}

/// `c` put in its place among candidates that stand in their order: behind those that it
/// does not come before.
pub open spec fn placed(cands: Seq<candidate::CandidateModel>, c: candidate::CandidateModel) -> Seq<
    candidate::CandidateModel,
>
    decreases cands.len(),
{
    if cands.len() > 0 && ahead(c, cands.last()) {
        placed(cands.drop_last(), c).push(cands.last())
    } else {
        cands.push(c)
    }
}

/// The candidates in their order; those that are equal in it stay as they stood.
pub open spec fn ranked(cands: Seq<candidate::CandidateModel>) -> Seq<candidate::CandidateModel>
    decreases cands.len(),
{
    if cands.len() == 0 {
        Seq::empty()
    } else {
        placed(ranked(cands.drop_last()), cands.last())
    }
}

proof fn lemma_placed(cands: Seq<candidate::CandidateModel>, c: candidate::CandidateModel)
    ensures
        placed(cands, c).len() == cands.len() + 1,
        placed(cands, c).to_multiset() == cands.to_multiset().insert(c),
        in_rank(cands) ==> in_rank(placed(cands, c)),
    decreases cands.len(),
{
    broadcast use vstd::seq_lib::group_to_multiset_ensures;

    let all = placed(cands, c);
    if cands.len() > 0 && ahead(c, cands.last()) {
        let last = cands.last();
        let front = cands.drop_last();
        let before = placed(front, c);
        lemma_placed(front, c);
        assert(cands =~= front.push(last));
        assert(front.to_multiset().insert(c).insert(last) =~= front.to_multiset().insert(
            last,
        ).insert(c));
        if in_rank(cands) {
            assert(in_rank(front)) by {
                assert forall|i: int, j: int| 0 <= i < j < front.len() implies !ahead(
                    #[trigger] front[j],
                    #[trigger] front[i],
                ) by {
                    assert(!ahead(cands[j], cands[i]));
                }
            }
            assert forall|i: int, j: int| 0 <= i < j < all.len() implies !ahead(
                #[trigger] all[j],
                #[trigger] all[i],
            ) by {
                if j < before.len() {
                    assert(!ahead(before[j], before[i]));
                } else {
                    assert(before.contains(before[i]));
                    assert(front.to_multiset().insert(c).count(before[i]) > 0);
                    if before[i] != c {
                        assert(front.contains(before[i]));
                        let k = choose|k: int| 0 <= k < front.len() && front[k] == before[i];
                        assert(!ahead(cands[cands.len() - 1], cands[k]));
                    }
                }
            }
        }
    } else if in_rank(cands) {
        assert forall|i: int, j: int| 0 <= i < j < all.len() implies !ahead(
            #[trigger] all[j],
            #[trigger] all[i],
        ) by {
            if j < cands.len() {
                assert(!ahead(cands[j], cands[i]));
            } else if i < cands.len() - 1 {
                assert(!ahead(cands[cands.len() - 1], cands[i]));
            }
        }
    }
}

/// Ranking candidates loses none and doubles none, and puts each in its place.
pub proof fn law_ranking_orders(cands: Seq<candidate::CandidateModel>)
    ensures
        in_rank(ranked(cands)),
        ranked(cands).len() == cands.len(),
        ranked(cands).to_multiset() == cands.to_multiset(),
    decreases cands.len(),
{
    broadcast use vstd::seq_lib::group_to_multiset_ensures;

    if cands.len() > 0 {
        let front = cands.drop_last();
        law_ranking_orders(front);
        lemma_placed(ranked(front), cands.last());
        assert(cands =~= front.push(cands.last()));
    } else {
        assert(ranked(cands) =~= cands);
    }
}

/// What stands in the ranking was there before.
pub proof fn lemma_ranked_from(cands: Seq<candidate::CandidateModel>, k: int)
    requires
        0 <= k < cands.len(),
    ensures
        cands.contains(ranked(cands)[k]),
{
    broadcast use vstd::seq_lib::group_to_multiset_ensures;

    law_ranking_orders(cands);
    assert(ranked(cands).contains(ranked(cands)[k]));
    assert(ranked(cands).to_multiset().count(ranked(cands)[k]) > 0);
}

proof fn lemma_placed_at(
    cands: Seq<candidate::CandidateModel>,
    c: candidate::CandidateModel,
    at: int,
)
    requires
        0 <= at <= cands.len(),
        forall|j: int| at <= j < cands.len() ==> ahead(c, #[trigger] cands[j]),
        at > 0 ==> !ahead(c, cands[at - 1]),
    ensures
        placed(cands, c) == cands.insert(at, c),
    decreases cands.len() - at,
{
    if at < cands.len() {
        let front = cands.drop_last();
        assert forall|j: int| at <= j < front.len() implies ahead(c, #[trigger] front[j]) by {
            assert(ahead(c, cands[j]));
        }
        lemma_placed_at(front, c, at);
        assert(ahead(c, cands[cands.len() - 1]));
        assert(front.insert(at, c).push(cands.last()) =~= cands.insert(at, c));
    } else {
        assert(cands.push(c) =~= cands.insert(at, c));
    }
}

/// Puts the candidates in their order.
pub(crate) fn rank(cands: Vec<BeamCandidate>) -> (sorted: Vec<BeamCandidate>)
    ensures
        beam::models(sorted@) == ranked(beam::models(cands@)),
{
    let mut sorted: Vec<BeamCandidate> = Vec::new();
    let ghost all = beam::models(cands@);
    assert(beam::models(sorted@) =~= ranked(all.take(0)));
    for c in it: cands
        invariant
            all == beam::models(it.seq()),
            beam::models(sorted@) == ranked(all.take(it.index() as int)),
    {
        let ghost i = it.index() as int;
        let ghost before = beam::models(sorted@);
        let mut at: usize = sorted.len();
        while at > 0 && c.is_ahead_of(&sorted[at - 1])
            invariant
                at <= sorted@.len(),
                before == beam::models(sorted@),
                forall|j: int| at <= j < before.len() ==> ahead(c@, #[trigger] before[j]),
            decreases at,
        {
            at = at - 1;
        }
        proof {
            assert(all.take(i + 1).drop_last() =~= all.take(i));
            lemma_placed_at(before, c@, at as int);
        }
        sorted.insert(at, c);
        assert(beam::models(sorted@) =~= before.insert(at as int, all[i]));
    }
    assert(all.take(all.len() as int) =~= all);
    sorted
}

/// Candidates that have put out as much and put back as many stay as they stood.
pub proof fn law_equals_stay_as_they_stood(
    cands: Seq<candidate::CandidateModel>,
    out: int,
    count: nat,
)
    ensures
        ranked(cands).filter(
            |c: candidate::CandidateModel| c.output.total_out == out && c.inserts.len() == count,
        ) == cands.filter(
            |c: candidate::CandidateModel| c.output.total_out == out && c.inserts.len() == count,
        ),
    decreases cands.len(),
{
    reveal(Seq::filter);
    let equal = |c: candidate::CandidateModel|
        c.output.total_out == out && c.inserts.len() == count;
    if cands.len() > 0 {
        let front = cands.drop_last();
        law_equals_stay_as_they_stood(front, out, count);
        lemma_placed_last(ranked(front), cands.last(), equal, out, count);
    }
}

/// One that is put in its place stands behind its equals.
proof fn lemma_placed_last(
    cands: Seq<candidate::CandidateModel>,
    c: candidate::CandidateModel,
    equal: spec_fn(candidate::CandidateModel) -> bool,
    out: int,
    count: nat,
)
    requires
        equal == (|c: candidate::CandidateModel|
            c.output.total_out == out && c.inserts.len() == count),
    ensures
        placed(cands, c).filter(equal) == if equal(c) {
            cands.filter(equal).push(c)
        } else {
            cands.filter(equal)
        },
    decreases cands.len(),
{
    reveal(Seq::filter);
    if cands.len() > 0 && ahead(c, cands.last()) {
        let front = cands.drop_last();
        let last = cands.last();
        lemma_placed_last(front, c, equal, out, count);
        assert(placed(front, c).push(last).drop_last() =~= placed(front, c));
        if equal(c) {
            assert(!equal(last));
        }
    } else {
        assert(cands.push(c).drop_last() =~= cands);
    }
}

} // verus!
