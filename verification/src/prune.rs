//! Cutting a beam down to its width.
//!
//! The candidates are put in buckets by how many carriage returns they have put
//! back. Every bucket gets an equal share of the room; what a small bucket leaves
//! over goes to the larger ones. A bucket that does not fit is sampled. Where there are
//! more buckets than places, the candidates that have put out the most keep the places.
//! A beam that was cut stands in the order of what its candidates have put out.
use vstd::prelude::*;

use crate::beam;
use crate::candidate;
use crate::candidate::BeamCandidate;
use crate::positions;
use crate::rank;
use crate::sampling;

verus! {

/// The candidates that have put back `count` carriage returns.
pub open spec fn bucket(all: Seq<candidate::CandidateModel>, count: usize) -> Seq<
    candidate::CandidateModel,
> {
    all.filter(|c: candidate::CandidateModel| c.inserts.len() == count)
}

/// Smaller buckets come first; among equals the one with fewer carriage returns.
pub open spec fn earlier_bucket(all: Seq<candidate::CandidateModel>) -> spec_fn(usize, usize) -> bool {
    |a: usize, b: usize|
        bucket(all, a).len() < bucket(all, b).len() || (bucket(all, a).len() == bucket(
            all,
            b,
        ).len() && a < b)
}

/// `counts` names the buckets that are not empty.
pub open spec fn lists(counts: Seq<usize>, all: Seq<candidate::CandidateModel>) -> bool {
    forall|k: usize| counts.contains(k) <==> #[trigger] bucket(all, k).len() > 0
}

/// `counts` names the buckets that are not empty, in their order.
pub open spec fn is_bucket_order(all: Seq<candidate::CandidateModel>, counts: Seq<usize>) -> bool {
    positions::ordered_by(counts, earlier_bucket(all)) && lists(counts, all)
}

/// The buckets that are not empty, in their order.
pub open spec fn bucket_order(all: Seq<candidate::CandidateModel>) -> Seq<usize> {
    choose|counts: Seq<usize>| is_bucket_order(all, counts)
}

/// The share of a bucket when `budget` places are left for `left` buckets.
pub open spec fn share(budget: nat, left: nat) -> nat {
    budget / left
}

/// The last `room` of the members after they were put in the given order: a partial
/// shuffle draws the items for the last places.
pub open spec fn sampled(
    members: Seq<candidate::CandidateModel>,
    order: Seq<int>,
    room: nat,
) -> Seq<candidate::CandidateModel> {
    if sampling::is_arrangement(order, members.len()) {
        Seq::new(room, |k: int| members[order[members.len() - room + k]])
    } else {
        // a shuffle loses and doubles nothing
        members.take(room as int)
    }
}

/// What is kept of the buckets from the `idx`-th on, with `budget` places left
/// and after the partial shuffles `draws`.
pub open spec fn selected(
    all: Seq<candidate::CandidateModel>,
    counts: Seq<usize>,
    idx: nat,
    budget: nat,
    seed: u64,
    draws: Seq<(nat, nat)>,
) -> Seq<candidate::CandidateModel>
    decreases counts.len() - idx,
{
    if idx >= counts.len() {
        Seq::empty()
    } else {
        let members = bucket(all, counts[idx as int]);
        let room = share(budget, (counts.len() - idx) as nat);
        if members.len() > room {
            let draws = draws.push((members.len(), room));
            let order = sampling::shuffle_order(seed, draws);
            sampled(members, order, room) + selected(all, counts, idx + 1, (budget - room) as nat, seed, draws)
        } else {
            members + selected(all, counts, idx + 1, (budget - members.len()) as nat, seed, draws)
        }
    }
}

/// The seed of the sampling at the `i`-th line feed.
pub open spec fn step_seed(i: usize) -> u64 {
    0xC0DE_F00Du64 ^ (i as u64)
}

/// The beam at the `i`-th line feed after it has been cut down to `cap`.
pub open spec fn pruned(all: Seq<candidate::CandidateModel>, cap: nat, i: usize) -> Seq<
    candidate::CandidateModel,
> {
    if all.len() <= cap {
        all
    } else if bucket_order(all).len() <= cap {
        rank::ranked(selected(all, bucket_order(all), 0, cap, step_seed(i), Seq::empty()))
    } else {
        rank::ranked(all).take(cap as int)
    }
}

/// A cut beam is no wider than its cap.
pub proof fn law_beam_width_is_capped(all: Seq<candidate::CandidateModel>, cap: nat, i: usize)
    ensures
        pruned(all, cap, i).len() <= cap,
{
    let part = selected(all, bucket_order(all), 0, cap, step_seed(i), Seq::empty());
    rank::law_ranking_orders(part);
    rank::law_ranking_orders(all);
    if all.len() > cap && bucket_order(all).len() <= cap {
        lemma_selected_len(all, bucket_order(all), 0, cap, step_seed(i), Seq::empty());
    }
}

/// In a cut beam those that have put out more come first, and among those that have put out
/// as much the ones with fewer carriage returns put back.
pub proof fn law_cut_beam_is_ranked(all: Seq<candidate::CandidateModel>, cap: nat, i: usize)
    ensures
        all.len() > cap ==> rank::in_rank(pruned(all, cap, i)),
        all.len() > cap ==> forall|x: int, y: int|
            0 <= x < y < pruned(all, cap, i).len() ==> {
                let a = #[trigger] pruned(all, cap, i)[x];
                let b = #[trigger] pruned(all, cap, i)[y];
                a.output.total_out > b.output.total_out || (a.output.total_out
                    == b.output.total_out && a.inserts.len() <= b.inserts.len())
            },
{
    let part = selected(all, bucket_order(all), 0, cap, step_seed(i), Seq::empty());
    rank::law_ranking_orders(part);
    rank::law_ranking_orders(all);
    if all.len() > cap && bucket_order(all).len() > cap {
        let cut = pruned(all, cap, i);
        assert forall|x: int, y: int| 0 <= x < y < cut.len() implies !rank::ahead(
            #[trigger] cut[y],
            #[trigger] cut[x],
        ) by {
            assert(!rank::ahead(rank::ranked(all)[y], rank::ranked(all)[x]));
        }
    }
}

proof fn lemma_selected_len(
    all: Seq<candidate::CandidateModel>,
    counts: Seq<usize>,
    idx: nat,
    budget: nat,
    seed: u64,
    draws: Seq<(nat, nat)>,
)
    requires
        counts.len() - idx <= budget,
    ensures
        selected(all, counts, idx, budget, seed, draws).len() <= budget,
    decreases counts.len() - idx,
{
    if idx < counts.len() {
        let members = bucket(all, counts[idx as int]);
        let left = (counts.len() - idx) as nat;
        let room = share(budget, left);
        assert(budget / left >= 1 && budget - budget / left >= left - 1 && budget / left <= budget)
            by (nonlinear_arith)
            requires
                budget >= left,
                left >= 1,
        ;
        if members.len() > room {
            lemma_selected_len(
                all,
                counts,
                idx + 1,
                (budget - room) as nat,
                seed,
                draws.push((members.len(), room)),
            );
        } else {
            lemma_selected_len(
                all,
                counts,
                idx + 1,
                (budget - members.len()) as nat,
                seed,
                draws,
            );
        }
    }
}

/// A cut beam holds nothing that was not in the beam.
pub proof fn law_pruning_only_drops(all: Seq<candidate::CandidateModel>, cap: nat, i: usize)
    ensures
        drawn_from(pruned(all, cap, i), all),
{
    let part = selected(all, bucket_order(all), 0, cap, step_seed(i), Seq::empty());
    let cut = pruned(all, cap, i);
    rank::law_ranking_orders(part);
    rank::law_ranking_orders(all);
    if all.len() > cap {
        lemma_selected_drawn(all, bucket_order(all), 0, cap, step_seed(i), Seq::empty());
        assert forall|k: int| 0 <= k < cut.len() implies all.contains(#[trigger] cut[k]) by {
            if bucket_order(all).len() <= cap {
                rank::lemma_ranked_from(part, k);
                let m = choose|m: int| 0 <= m < part.len() && part[m] == cut[k];
                assert(all.contains(part[m]));
            } else {
                rank::lemma_ranked_from(all, k);
            }
        }
    }
}

proof fn lemma_selected_drawn(
    all: Seq<candidate::CandidateModel>,
    counts: Seq<usize>,
    idx: nat,
    budget: nat,
    seed: u64,
    draws: Seq<(nat, nat)>,
)
    ensures
        drawn_from(selected(all, counts, idx, budget, seed, draws), all),
    decreases counts.len() - idx,
{
    if idx < counts.len() {
        let members = bucket(all, counts[idx as int]);
        let room = share(budget, (counts.len() - idx) as nat);
        lemma_bucket_drawn(all, counts[idx as int]);
        if members.len() > room {
            let draws = draws.push((members.len(), room));
            let part = sampled(members, sampling::shuffle_order(seed, draws), room);
            let rest = selected(all, counts, idx + 1, (budget - room) as nat, seed, draws);
            lemma_selected_drawn(all, counts, idx + 1, (budget - room) as nat, seed, draws);
            assert forall|i: int| 0 <= i < (part + rest).len() implies all.contains(
                #[trigger] (part + rest)[i],
            ) by {
                if i >= part.len() {
                    assert((part + rest)[i] == rest[i - part.len()]);
                }
            }
        } else {
            let rest = selected(all, counts, idx + 1, (budget - members.len()) as nat, seed, draws);
            lemma_selected_drawn(all, counts, idx + 1, (budget - members.len()) as nat, seed, draws);
            assert forall|i: int| 0 <= i < (members + rest).len() implies all.contains(
                #[trigger] (members + rest)[i],
            ) by {
                if i >= members.len() {
                    assert((members + rest)[i] == rest[i - members.len()]);
                }
            }
        }
    }
}

/// Candidates with the same number of carriage returns put back.
struct Bucket {
    count: usize,
    members: Vec<BeamCandidate>,
}

spec fn counts(buckets: Seq<Bucket>) -> Seq<usize> {
    Seq::new(buckets.len(), |j: int| buckets[j].count)
}

/// `buckets` holds each candidate of `all` in the bucket where it belongs.
spec fn holds(buckets: Seq<Bucket>, all: Seq<candidate::CandidateModel>) -> bool {
    &&& forall|j: int|
        0 <= j < buckets.len() ==> beam::models(#[trigger] buckets[j].members@) == bucket(
            all,
            buckets[j].count,
        ) && buckets[j].members@.len() > 0
    &&& lists(counts(buckets), all)
}

/// One more candidate is one more in its own bucket.
pub proof fn lemma_bucket_push(
    all: Seq<candidate::CandidateModel>,
    c: candidate::CandidateModel,
    k: usize,
)
    ensures
        bucket(all.push(c), k) == if c.inserts.len() == k {
            bucket(all, k).push(c)
        } else {
            bucket(all, k)
        },
{
    reveal(Seq::filter);
    assert(all.push(c).drop_last() =~= all);
}

/// Every member of `part` is a member of `all`.
pub open spec fn drawn_from(
    part: Seq<candidate::CandidateModel>,
    all: Seq<candidate::CandidateModel>,
) -> bool {
    forall|i: int| 0 <= i < part.len() ==> all.contains(#[trigger] part[i])
}

/// What is in a bucket is one of the candidates.
pub proof fn lemma_bucket_drawn(all: Seq<candidate::CandidateModel>, k: usize)
    ensures
        drawn_from(bucket(all, k), all),
{
    let pred = |c: candidate::CandidateModel| c.inserts.len() == k;
    assert forall|i: int| 0 <= i < bucket(all, k).len() implies all.contains(
        #[trigger] bucket(all, k)[i],
    ) by {
        assert(all.filter(pred).contains(all.filter(pred)[i]));
        all.lemma_filter_contains_rev(pred, bucket(all, k)[i]);
    }
}

/// Puts the candidates in buckets, ordered by how many carriage returns they have
/// put back.
fn group(cands: Vec<BeamCandidate>) -> (buckets: Vec<Bucket>)
    ensures
        holds(buckets@, beam::models(cands@)),
        positions::ascending(counts(buckets@)),
{
    let mut buckets: Vec<Bucket> = Vec::new();
    let ghost all = beam::models(cands@);
    proof {
        assert forall|k: usize| #[trigger] bucket(all.take(0), k).len() == 0 by {
            reveal(Seq::filter);
        }
    }
    for c in it: cands
        invariant
            all == beam::models(it.seq()),
            holds(buckets@, all.take(it.index() as int)),
            positions::ascending(counts(buckets@)),
    {
        let ghost i = it.index() as int;
        let ghost seen = all.take(i);
        let ghost before = buckets@;
        let k: usize = c.insert_count();
        let mut at: usize = 0;
        while at < buckets.len() && buckets[at].count < k
            invariant
                at <= buckets@.len(),
                buckets@ == before,
                forall|j: int| 0 <= j < at ==> (#[trigger] buckets@[j]).count < k,
            decreases buckets@.len() - at,
        {
            at = at + 1;
        }
        proof {
            assert(all.take(i + 1) =~= seen.push(c@));
            assert forall|q: usize| true implies #[trigger] bucket(all.take(i + 1), q) == if q == k {
                bucket(seen, q).push(c@)
            } else {
                bucket(seen, q)
            } by {
                lemma_bucket_push(seen, c@, q);
            }
        }
        if at < buckets.len() && buckets[at].count == k {
            let ghost ms = buckets@[at as int].members@;
            buckets[at].members.push(c);
            proof {
                assert(counts(buckets@) =~= counts(before));
                assert(beam::models(buckets@[at as int].members@) =~= beam::models(ms).push(c@));
                assert forall|j: int| 0 <= j < buckets@.len() implies beam::models(
                    #[trigger] buckets@[j].members@,
                ) == bucket(all.take(i + 1), buckets@[j].count) && buckets@[j].members@.len()
                    > 0 by {
                    assert(counts(before)[j] == before[j].count);
                    assert(counts(before)[at as int] == before[at as int].count);
                    if j != at {
                        assert(buckets@[j] == before[j]);
                    }
                }
                assert forall|q: usize| counts(buckets@).contains(q) <==> #[trigger] bucket(
                    all.take(i + 1),
                    q,
                ).len() > 0 by {
                    assert(counts(before).contains(q) <==> bucket(seen, q).len() > 0);
                    if q == k {
                        assert(counts(buckets@)[at as int] == k);
                    }
                }
            }
        } else {
            let mut members: Vec<BeamCandidate> = Vec::new();
            members.push(c);
            let fresh = Bucket { count: k, members };
            proof {
                assert(!counts(before).contains(k)) by {
                    if counts(before).contains(k) {
                        let j = choose|j: int| 0 <= j < counts(before).len() && counts(before)[j] == k;
                        assert(before[j].count == k);
                        if j > at {
                            assert(counts(before)[at as int] < counts(before)[j]);
                        }
                    }
                }
                assert(bucket(seen, k).len() == 0);
                assert(beam::models(fresh.members@) =~= bucket(all.take(i + 1), k));
            }
            buckets.insert(at, fresh);
            proof {
                assert(counts(buckets@) =~= counts(before).insert(at as int, k));
                assert forall|j: int| 0 <= j < buckets@.len() implies beam::models(
                    #[trigger] buckets@[j].members@,
                ) == bucket(all.take(i + 1), buckets@[j].count) && buckets@[j].members@.len()
                    > 0 by {
                    if j < at {
                        assert(buckets@[j] == before[j]);
                        assert(before[j].count < k);
                    } else if j > at {
                        assert(buckets@[j] == before[j - 1]);
                        assert(counts(before)[j - 1] != k) by {
                            assert(counts(before).contains(counts(before)[j - 1]));
                        }
                    }
                }
                assert forall|q: usize| counts(buckets@).contains(q) <==> #[trigger] bucket(
                    all.take(i + 1),
                    q,
                ).len() > 0 by {
                    assert(counts(before).contains(q) <==> bucket(seen, q).len() > 0);
                    let a = counts(before);
                    let b = counts(buckets@);
                    if a.contains(q) {
                        let j = choose|j: int| 0 <= j < a.len() && a[j] == q;
                        if j < at {
                            assert(b[j] == q);
                        } else {
                            assert(b[j + 1] == q);
                        }
                    }
                    if b.contains(q) {
                        let j = choose|j: int| 0 <= j < b.len() && b[j] == q;
                        if j < at {
                            assert(a[j] == q);
                        } else if j > at {
                            assert(a[j - 1] == q);
                        }
                    }
                    if q == k {
                        assert(b[at as int] == k);
                    }
                }
                assert(positions::ascending(counts(buckets@))) by {
                    let a = counts(before);
                    let b = counts(buckets@);
                    assert forall|x: int, y: int| 0 <= x < y < b.len() implies b[x] < b[y] by {
                        if y < at {
                            assert(a[x] < a[y]);
                        } else if y == at {
                            assert(before[x].count < k);
                        } else if x < at {
                            assert(before[x].count < k);
                            assert(a[x] < a[y - 1]);
                        } else if x == at {
                            assert(a[at as int] > k);
                            if y - 1 > at {
                                assert(a[at as int] < a[y - 1]);
                            }
                        } else {
                            assert(a[x - 1] < a[y - 1]);
                        }
                    }
                }
            }
        }
    }
    assert(all.take(all.len() as int) =~= all);
    buckets
}

/// Orders buckets from the smallest to the largest; among equals the one with
/// fewer carriage returns comes first.
fn sort_by_size(buckets: Vec<Bucket>, Ghost(all): Ghost<Seq<candidate::CandidateModel>>) -> (sorted:
    Vec<Bucket>)
    requires
        holds(buckets@, all),
        positions::ascending(counts(buckets@)),
    ensures
        holds(sorted@, all),
        is_bucket_order(all, counts(sorted@)),
{
    let mut sorted: Vec<Bucket> = Vec::new();
    let ghost given = buckets@;
    let ghost less = earlier_bucket(all);
    for b in it: buckets
        invariant
            given == it.seq(),
            holds(given, all),
            positions::ascending(counts(given)),
            less == earlier_bucket(all),
            sorted@.len() == it.index(),
            positions::ordered_by(counts(sorted@), less),
            forall|q: usize|
                #[trigger] counts(sorted@).contains(q) <==> counts(given.take(it.index() as int)).contains(q),
            forall|j: int|
                0 <= j < sorted@.len() ==> beam::models(#[trigger] sorted@[j].members@) == bucket(
                    all,
                    sorted@[j].count,
                ) && sorted@[j].members@.len() > 0,
    {
        let ghost i = it.index() as int;
        let ghost before = sorted@;
        let size: usize = b.members.len();
        let ghost k = b.count;
        assert(beam::models(given[i].members@) == bucket(all, given[i].count));
        let mut at: usize = 0;
        while at < sorted.len() && sorted[at].members.len() <= size
            invariant
                at <= sorted@.len(),
                sorted@ == before,
                forall|j: int|
                    0 <= j < at ==> (#[trigger] sorted@[j]).members@.len() <= size,
            decreases sorted@.len() - at,
        {
            at = at + 1;
        }
        sorted.insert(at, b);
        proof {
            let a = counts(before);
            let n = counts(sorted@);
            assert(n =~= a.insert(at as int, k));
            assert forall|j: int| 0 <= j < sorted@.len() implies beam::models(
                #[trigger] sorted@[j].members@,
            ) == bucket(all, sorted@[j].count) && sorted@[j].members@.len() > 0 by {
                if j < at {
                    assert(sorted@[j] == before[j]);
                } else if j > at {
                    assert(sorted@[j] == before[j - 1]);
                }
            }
            assert forall|j: int| 0 <= j < a.len() implies a[j] < k by {
                assert(a.contains(a[j]));
                let g = counts(given.take(i));
                assert(g.contains(a[j]));
                let m = choose|m: int| 0 <= m < g.len() && g[m] == a[j];
                assert(counts(given)[m] < counts(given)[i]);
            }
            assert forall|j: int| 0 <= j < before.len() implies #[trigger] bucket(all, a[j]).len()
                == before[j].members@.len() by {
                assert(beam::models(before[j].members@) == bucket(all, before[j].count));
            }
            assert(positions::ordered_by(n, less)) by {
                assert forall|x: int, y: int| 0 <= x < y < n.len() implies less(
                    #[trigger] n[x],
                    #[trigger] n[y],
                ) by {
                    if y < at {
                        assert(less(a[x], a[y]));
                    } else if y == at {
                        assert(before[x].members@.len() <= size);
                        assert(bucket(all, a[x]).len() == before[x].members@.len());
                    } else if x < at {
                        assert(less(a[x], a[y - 1]));
                    } else if x == at {
                        assert(before[at as int].members@.len() > size);
                        assert(bucket(all, a[at as int]).len() > size);
                        if y - 1 > at {
                            assert(less(a[at as int], a[y - 1]));
                        }
                        assert(bucket(all, a[y - 1]).len() > size);
                    } else {
                        assert(less(a[x - 1], a[y - 1]));
                    }
                }
            }
            let g = counts(given.take(i));
            let h = counts(given.take(i + 1));
            assert(h =~= g.push(k));
            assert forall|q: usize| #[trigger] n.contains(q) <==> h.contains(q) by {
                assert(a.contains(q) <==> g.contains(q));
                if n.contains(q) {
                    let j = choose|j: int| 0 <= j < n.len() && n[j] == q;
                    if j < at {
                        assert(a[j] == q);
                    } else if j > at {
                        assert(a[j - 1] == q);
                    } else {
                        assert(h[i] == k);
                    }
                    if a.contains(q) {
                        let m = choose|m: int| 0 <= m < g.len() && g[m] == q;
                        assert(h[m] == q);
                    }
                }
                if h.contains(q) {
                    let m = choose|m: int| 0 <= m < h.len() && h[m] == q;
                    if m < i {
                        assert(g[m] == q);
                        let j = choose|j: int| 0 <= j < a.len() && a[j] == q;
                        if j < at {
                            assert(n[j] == q);
                        } else {
                            assert(n[j + 1] == q);
                        }
                    } else {
                        assert(n[at as int] == k);
                    }
                }
            }
        }
    }
    assert(given.take(given.len() as int) =~= given);
    proof {
        assert forall|k: usize| counts(sorted@).contains(k) <==> #[trigger] bucket(all, k).len()
            > 0 by {
            assert(counts(given).contains(k) <==> bucket(all, k).len() > 0);
        }
    }
    sorted
}

/// However the buckets that are not empty are listed, putting them in order gives their
/// order.
pub proof fn lemma_bucket_order(all: Seq<candidate::CandidateModel>, list: Seq<usize>)
    requires
        list.no_duplicates(),
        lists(list, all),
    ensures
        is_bucket_order(all, bucket_order(all)),
        bucket_order(all).len() == list.len(),
{
    broadcast use vstd::seq_lib::group_to_multiset_ensures;

    let less = earlier_bucket(all);
    let leq = |a: usize, b: usize| a == b || less(a, b);
    let sorted = list.sort_by(leq);
    assert(vstd::relations::total_ordering(leq));
    list.lemma_sort_by_ensures(leq);
    assert(sorted.to_multiset().len() == list.to_multiset().len());
    assert(sorted.no_duplicates()) by {
        list.lemma_multiset_has_no_duplicates();
        sorted.lemma_multiset_has_no_duplicates_conv();
    }
    assert forall|k: usize| sorted.contains(k) <==> #[trigger] bucket(all, k).len() > 0 by {
        assert(sorted.contains(k) <==> sorted.to_multiset().count(k) > 0);
        assert(list.contains(k) <==> list.to_multiset().count(k) > 0);
    }
    assert forall|i: int, j: int| 0 <= i < j < sorted.len() implies less(
        #[trigger] sorted[i],
        #[trigger] sorted[j],
    ) by {
        assert(leq(sorted[i], sorted[j]));
    }
    assert(is_bucket_order(all, sorted));
    let chosen = bucket_order(all);
    assert forall|k: usize| sorted.contains(k) <==> chosen.contains(k) by {
        assert(sorted.contains(k) <==> bucket(all, k).len() > 0);
        assert(chosen.contains(k) <==> bucket(all, k).len() > 0);
    }
    positions::lemma_ordered_unique(sorted, chosen, less);
}

/// How many buckets there are.
fn count_buckets(cands: &[BeamCandidate]) -> (n: usize)
    ensures
        is_bucket_order(beam::models(cands@), bucket_order(beam::models(cands@))),
        n == bucket_order(beam::models(cands@)).len(),
{
    let mut seen: Vec<usize> = Vec::new();
    let ghost all = beam::models(cands@);
    proof {
        assert forall|k: usize| #[trigger] bucket(all.take(0), k).len() == 0 by {
            reveal(Seq::filter);
        }
    }
    for i in 0..cands.len()
        invariant
            all == beam::models(cands@),
            seen@.no_duplicates(),
            lists(seen@, all.take(i as int)),
    {
        let k: usize = cands[i].insert_count();
        let ghost before = seen@;
        proof {
            assert(all.take(i + 1) =~= all.take(i as int).push(all[i as int]));
            assert forall|q: usize| true implies #[trigger] bucket(all.take(i + 1), q) == if q == k {
                bucket(all.take(i as int), q).push(all[i as int])
            } else {
                bucket(all.take(i as int), q)
            } by {
                lemma_bucket_push(all.take(i as int), all[i as int], q);
            }
        }
        if !listed_in(seen.as_slice(), k) {
            seen.push(k);
            assert(seen@[before.len() as int] == k);
            assert forall|q: usize| before.contains(q) implies seen@.contains(q) by {
                let j = choose|j: int| 0 <= j < before.len() && before[j] == q;
                assert(seen@[j] == q);
            }
        }
        assert forall|q: usize| seen@.contains(q) <==> #[trigger] bucket(all.take(i + 1), q).len()
            > 0 by {
            assert(before.contains(q) <==> bucket(all.take(i as int), q).len() > 0);
        }
    }
    assert(all.take(all.len() as int) =~= all);
    proof {
        lemma_bucket_order(all, seen@);
    }
    seen.len()
}

/// Whether `list` holds `k`.
fn listed_in(list: &[usize], k: usize) -> (r: bool)
    ensures
        r == list@.contains(k),
{
    for i in 0..list.len()
        invariant
            forall|j: int| 0 <= j < i ==> list@[j] != k,
    {
        if list[i] == k {
            return true;
        }
    }
    false
}

/// Cuts the beam at the `i`-th line feed down to `cap`.
pub(crate) fn prune(cands: Vec<BeamCandidate>, cap: usize, i: usize) -> (kept: Vec<BeamCandidate>)
    ensures
        beam::models(kept@) == pruned(beam::models(cands@), cap as nat, i),
{
    if cands.len() <= cap {
        return cands;
    }
    let ghost all = beam::models(cands@);
    let total: usize = count_buckets(cands.as_slice());
    if total > cap {
        let mut kept: Vec<BeamCandidate> = rank::rank(cands);
        proof {
            rank::law_ranking_orders(all);
        }
        kept.truncate(cap);
        assert(beam::models(kept@) =~= rank::ranked(all).take(cap as int));
        return kept;
    }
    let ghost seed = step_seed(i);
    let buckets: Vec<Bucket> = sort_by_size(group(cands), Ghost(all));
    let ghost order = counts(buckets@);
    let ghost given = buckets@;
    proof {
        let chosen = bucket_order(all);
        assert forall|k: usize| order.contains(k) <==> chosen.contains(k) by {
            assert(order.contains(k) <==> bucket(all, k).len() > 0);
            assert(chosen.contains(k) <==> bucket(all, k).len() > 0);
        }
        positions::lemma_ordered_unique(order, chosen, earlier_bucket(all));
    }
    let mut kept: Vec<BeamCandidate> = Vec::new();
    let mut budget: usize = cap;
    let mut rng = sampling::seeded_rng(0xC0DE_F00Du64 ^ (i as u64));
    assert(beam::models(kept@) + selected(all, order, 0, cap as nat, seed, Seq::empty())
        =~= selected(all, order, 0, cap as nat, seed, Seq::empty()));
    let mut idx: usize = 0;
    for b in it: buckets
        invariant
            given == it.seq(),
            idx == it.index(),
            total == given.len(),
            order == counts(given),
            holds(given, all),
            sampling::rng_seed(rng) == seed,
            beam::models(kept@) + selected(
                all,
                order,
                idx as nat,
                budget as nat,
                seed,
                sampling::rng_draws(rng),
            ) == selected(all, order, 0, cap as nat, seed, Seq::empty()),
    {
        let ghost at = it.index() as int;
        let ghost before = beam::models(kept@);
        let ghost draws = sampling::rng_draws(rng);
        let ghost members = bucket(all, order[at]);
        let ghost old_budget = budget as nat;
        proof {
            assert(beam::models(given[at].members@) == bucket(all, given[at].count));
        }
        let mut taken: Vec<BeamCandidate> = b.members;
        let room: usize = budget / (total - idx);
        assert(room == share(budget as nat, (order.len() - at) as nat));
        assert(room <= budget) by (nonlinear_arith)
            requires
                room == budget / ((total - idx) as usize),
                total - idx >= 1,
        ;
        if taken.len() > room {
            sampling::partial_shuffle(&mut rng, &mut taken, room);
            let undrawn: usize = taken.len() - room;
            taken = taken.split_off(undrawn);
            let ghost arranged = sampling::shuffle_order(seed, sampling::rng_draws(rng));
            assert(beam::models(taken@) =~= sampled(members, arranged, room as nat));
        }
        let ghost part = beam::models(taken@);
        budget = budget - taken.len();
        kept.append(&mut taken);
        idx = idx + 1;
        proof {
            assert(beam::models(kept@) =~= before + part);
            let rest = selected(
                all,
                order,
                idx as nat,
                budget as nat,
                seed,
                sampling::rng_draws(rng),
            );
            assert(selected(all, order, at as nat, old_budget, seed, draws) =~= part + rest);
            assert(before + (part + rest) =~= (before + part) + rest);
        }
    }
    assert(beam::models(kept@) + Seq::<candidate::CandidateModel>::empty() =~= beam::models(kept@));
    rank::rank(kept)
}

} // verus!
