//! Which candidates a beam keeps when it is cut.
use vstd::prelude::*;

use crate::candidate::CandidateModel;
use crate::positions;
use crate::prune;
use crate::rank;

verus! {

/// The candidates that have put back `n` carriage returns.
pub open spec fn alike(all: Seq<CandidateModel>, n: nat) -> Seq<CandidateModel> {
    all.filter(|c: CandidateModel| c.inserts.len() == n)
}

/// Every candidate has put back as many carriage returns as one of `kinds` says.
pub open spec fn covers(kinds: Seq<usize>, all: Seq<CandidateModel>) -> bool {
    forall|c: CandidateModel|
        #![trigger all.contains(c)]
        all.contains(c) ==> exists|j: int|
            0 <= j < kinds.len() && #[trigger] kinds[j] == c.inserts.len()
}

proof fn lemma_alike_is_bucket(all: Seq<CandidateModel>, n: usize)
    ensures
        prune::bucket(all, n) == alike(all, n as nat),
{
    let f = |c: CandidateModel| c.inserts.len() == n;
    let g = |c: CandidateModel| c.inserts.len() == n as nat;
    assert(f =~= g);
}

/// One more candidate is one more of its kind.
pub proof fn lemma_alike_push(all: Seq<CandidateModel>, c: CandidateModel, n: nat)
    ensures
        alike(all.push(c), n) == if c.inserts.len() == n {
            alike(all, n).push(c)
        } else {
            alike(all, n)
        },
{
    reveal(Seq::filter);
    assert(all.push(c).drop_last() =~= all);
}

/// Where one candidate has put back `n` there is one that is alike.
proof fn lemma_alike_has(all: Seq<CandidateModel>, c: CandidateModel)
    requires
        all.contains(c),
    ensures
        alike(all, c.inserts.len()).contains(c),
        alike(all, c.inserts.len()).len() > 0,
{
    let n = c.inserts.len();
    all.lemma_filter_contains(|d: CandidateModel| d.inserts.len() == n, all.index_of(c));
}

/// The different numbers of carriage returns that the candidates have put back.
proof fn lemma_listing(all: Seq<CandidateModel>) -> (list: Seq<usize>)
    requires
        forall|k: int| 0 <= k < all.len() ==> (#[trigger] all[k]).inserts.len() <= usize::MAX,
    ensures
        list.no_duplicates(),
        prune::lists(list, all),
    decreases all.len(),
{
    if all.len() == 0 {
        assert forall|k: usize| #[trigger] prune::bucket(all, k).len() == 0 by {
            reveal(Seq::filter);
        }
        Seq::empty()
    } else {
        let front = all.drop_last();
        let c = all.last();
        let n = c.inserts.len() as usize;
        assert(all =~= front.push(c));
        assert(all[all.len() - 1] == c);
        assert forall|k: int| 0 <= k < front.len() implies (#[trigger] front[k]).inserts.len()
            <= usize::MAX by {
            assert(front[k] == all[k]);
        }
        let before = lemma_listing(front);
        let list = if before.contains(n) {
            before
        } else {
            before.push(n)
        };
        assert forall|k: usize| list.contains(k) <==> #[trigger] prune::bucket(all, k).len() > 0 by {
            prune::lemma_bucket_push(front, c, k);
            assert(before.contains(k) <==> prune::bucket(front, k).len() > 0);
            if before.contains(k) {
                let j = choose|j: int| 0 <= j < before.len() && before[j] == k;
                assert(list[j] == k);
            }
            if k == n && !before.contains(n) {
                assert(list[before.len() as int] == n);
            }
        }
        list
    }
}

/// A list without repetitions whose members are all in another is no longer than it.
proof fn lemma_no_longer(list: Seq<usize>, other: Seq<usize>)
    requires
        list.no_duplicates(),
        forall|k: usize| list.contains(k) ==> other.contains(k),
    ensures
        list.len() <= other.len(),
{
    list.unique_seq_to_set();
    other.lemma_cardinality_of_set();
    assert forall|k: usize| list.to_set().contains(k) implies other.to_set().contains(k) by {
        assert(list.contains(k));
    }
    vstd::set_lib::lemma_len_subset(list.to_set(), other.to_set());
}

/// The order of the buckets names every number of carriage returns put back once.
proof fn lemma_order(all: Seq<CandidateModel>)
    requires
        forall|k: int| 0 <= k < all.len() ==> (#[trigger] all[k]).inserts.len() <= usize::MAX,
    ensures
        prune::is_bucket_order(all, prune::bucket_order(all)),
        prune::bucket_order(all).no_duplicates(),
{
    let list = lemma_listing(all);
    prune::lemma_bucket_order(all, list);
    let order = prune::bucket_order(all);
    let less = prune::earlier_bucket(all);
    assert forall|i: int, j: int| 0 <= i < order.len() && 0 <= j < order.len() && i != j implies order[i]
        != order[j] by {
        if i < j {
            assert(less(order[i], order[j]));
        } else {
            assert(less(order[j], order[i]));
        }
    }
}

proof fn lemma_covered(kinds: Seq<usize>, all: Seq<CandidateModel>)
    requires
        covers(kinds, all),
    ensures
        forall|k: int| 0 <= k < all.len() ==> (#[trigger] all[k]).inserts.len() <= usize::MAX,
        prune::bucket_order(all).len() <= kinds.len(),
        prune::is_bucket_order(all, prune::bucket_order(all)),
{
    assert forall|k: int| 0 <= k < all.len() implies (#[trigger] all[k]).inserts.len()
        <= usize::MAX by {
        assert(all.contains(all[k]));
    }
    lemma_order(all);
    let order = prune::bucket_order(all);
    assert forall|n: usize| order.contains(n) implies kinds.contains(n) by {
        assert(prune::bucket(all, n).len() > 0);
        lemma_alike_is_bucket(all, n);
        let c = prune::bucket(all, n)[0];
        prune::lemma_bucket_drawn(all, n);
        assert(all.contains(c));
        let pred = |c: CandidateModel| c.inserts.len() == n;
        assert(all.filter(pred).contains(c));
        all.lemma_filter_pred(pred, 0);
        let j = choose|j: int| 0 <= j < kinds.len() && #[trigger] kinds[j] == c.inserts.len();
        assert(kinds[j] == n);
    }
    lemma_no_longer(order, kinds);
}

/// A bucket with room for as many as it has in every bucket is kept whole.
proof fn lemma_selected_keeps(
    all: Seq<CandidateModel>,
    counts: Seq<usize>,
    idx: nat,
    t: int,
    budget: nat,
    seed: u64,
    draws: Seq<(nat, nat)>,
    c: CandidateModel,
)
    requires
        positions::ordered_by(counts, prune::earlier_bucket(all)),
        idx <= t < counts.len(),
        prune::bucket(all, counts[t]).contains(c),
        budget >= prune::bucket(all, counts[t]).len() * (counts.len() - idx),
    ensures
        prune::selected(all, counts, idx, budget, seed, draws).contains(c),
    decreases t - idx,
{
    let members = prune::bucket(all, counts[idx as int]);
    let size = prune::bucket(all, counts[t]).len();
    let left = (counts.len() - idx) as nat;
    let less = prune::earlier_bucket(all);
    if idx < t {
        assert(less(counts[idx as int], counts[t]));
    }
    assert(members.len() <= size);
    assert(budget / left >= size && budget >= size && budget - size >= size * (left - 1))
        by (nonlinear_arith)
        requires
            budget >= size * left,
            left >= 1,
    ;
    let rest = prune::selected(
        all,
        counts,
        idx + 1,
        (budget - members.len()) as nat,
        seed,
        draws,
    );
    let part = prune::selected(all, counts, idx, budget, seed, draws);
    assert(part == members + rest);
    if idx == t {
        let k = choose|k: int| 0 <= k < members.len() && members[k] == c;
        assert(part[k] == c);
    } else {
        lemma_selected_keeps(
            all,
            counts,
            idx + 1,
            t,
            (budget - members.len()) as nat,
            seed,
            draws,
            c,
        );
        let k = choose|k: int| 0 <= k < rest.len() && rest[k] == c;
        assert(part[members.len() + k] == c);
    }
}

proof fn lemma_ranked_has(cands: Seq<CandidateModel>, c: CandidateModel)
    requires
        cands.contains(c),
    ensures
        rank::ranked(cands).contains(c),
{
    broadcast use vstd::seq_lib::group_to_multiset_ensures;

    rank::law_ranking_orders(cands);
    assert(cands.to_multiset().count(c) > 0);
    assert(rank::ranked(cands).to_multiset().count(c) > 0);
}

/// A candidate is kept if as many places as there are candidates like it could be given to
/// every kind of candidate: with no more kinds than places, one that is alone in its kind is
/// always kept.
pub proof fn law_small_groups_are_kept(
    all: Seq<CandidateModel>,
    cap: nat,
    i: usize,
    kinds: Seq<usize>,
    c: CandidateModel,
)
    requires
        all.contains(c),
        covers(kinds, all),
        alike(all, c.inserts.len()).len() * kinds.len() <= cap,
    ensures
        prune::pruned(all, cap, i).contains(c),
{
    if all.len() > cap {
        let order = prune::bucket_order(all);
        let n = c.inserts.len() as usize;
        let seed = prune::step_seed(i);
        lemma_covered(kinds, all);
        let at = all.index_of(c);
        assert(all[at].inserts.len() <= usize::MAX);
        lemma_alike_has(all, c);
        lemma_alike_is_bucket(all, n);
        let size = prune::bucket(all, n).len();
        assert(order.contains(n));
        let t = choose|t: int| 0 <= t < order.len() && order[t] == n;
        assert(order.len() <= cap && size * order.len() <= cap) by (nonlinear_arith)
            requires
                order.len() <= kinds.len(),
                size >= 1,
                size * kinds.len() <= cap,
        ;
        lemma_selected_keeps(all, order, 0, t, cap, seed, Seq::empty(), c);
        lemma_ranked_has(prune::selected(all, order, 0, cap, seed, Seq::empty()), c);
    }
}

/// There are no more of a kind than there are candidates; all of them if all are of it.
pub proof fn lemma_alike_bounds(part: Seq<CandidateModel>, n: nat)
    ensures
        alike(part, n).len() <= part.len(),
        (forall|k: int| 0 <= k < part.len() ==> (#[trigger] part[k]).inserts.len() != n) ==> alike(
            part,
            n,
        ).len() == 0,
        (forall|k: int| 0 <= k < part.len() ==> (#[trigger] part[k]).inserts.len() == n) ==> alike(
            part,
            n,
        ).len() == part.len(),
    decreases part.len(),
{
    reveal(Seq::filter);
    if part.len() > 0 {
        let front = part.drop_last();
        lemma_alike_bounds(front, n);
        assert(part =~= front.push(part.last()));
        lemma_alike_push(front, part.last(), n);
        assert forall|k: int| 0 <= k < front.len() implies front[k] == #[trigger] part[k] by {}
        if forall|k: int| 0 <= k < part.len() ==> (#[trigger] part[k]).inserts.len() != n {
            assert forall|k: int| 0 <= k < front.len() implies (#[trigger] front[k]).inserts.len()
                != n by {
                assert(part[k].inserts.len() != n);
            }
            assert(part[part.len() - 1].inserts.len() != n);
        }
        if forall|k: int| 0 <= k < part.len() ==> (#[trigger] part[k]).inserts.len() == n {
            assert forall|k: int| 0 <= k < front.len() implies (#[trigger] front[k]).inserts.len()
                == n by {
                assert(part[k].inserts.len() == n);
            }
            assert(part[part.len() - 1].inserts.len() == n);
        }
    }
}

proof fn lemma_alike_add(a: Seq<CandidateModel>, b: Seq<CandidateModel>, n: nat)
    ensures
        alike(a + b, n) == alike(a, n) + alike(b, n),
{
    Seq::<CandidateModel>::filter_distributes_over_add(
        a,
        b,
        |c: CandidateModel| c.inserts.len() == n,
    );
}

proof fn lemma_placed_alike(cands: Seq<CandidateModel>, c: CandidateModel, n: nat)
    ensures
        alike(rank::placed(cands, c), n).len() == alike(cands.push(c), n).len(),
    decreases cands.len(),
{
    lemma_alike_push(cands, c, n);
    if cands.len() > 0 && rank::ahead(c, cands.last()) {
        let front = cands.drop_last();
        lemma_placed_alike(front, c, n);
        lemma_alike_push(front, c, n);
        lemma_alike_push(rank::placed(front, c), cands.last(), n);
        assert(cands =~= front.push(cands.last()));
        lemma_alike_push(front, cands.last(), n);
    }
}

proof fn lemma_ranked_alike(cands: Seq<CandidateModel>, n: nat)
    ensures
        alike(rank::ranked(cands), n).len() == alike(cands, n).len(),
    decreases cands.len(),
{
    if cands.len() > 0 {
        let front = cands.drop_last();
        let sorted = rank::ranked(front);
        lemma_ranked_alike(front, n);
        lemma_placed_alike(sorted, cands.last(), n);
        lemma_alike_push(sorted, cands.last(), n);
        assert(cands =~= front.push(cands.last()));
        lemma_alike_push(front, cands.last(), n);
    }
}

/// The members of one bucket are all alike.
proof fn lemma_members(all: Seq<CandidateModel>, n: usize)
    ensures
        forall|k: int|
            0 <= k < prune::bucket(all, n).len() ==> (#[trigger] prune::bucket(
                all,
                n,
            )[k]).inserts.len() == n,
{
    let pred = |c: CandidateModel| c.inserts.len() == n;
    assert forall|k: int| 0 <= k < prune::bucket(all, n).len() implies (#[trigger] prune::bucket(
        all,
        n,
    )[k]).inserts.len() == n by {
        all.lemma_filter_pred(pred, k);
    }
}

/// What is drawn from a bucket is of its kind.
proof fn lemma_drawn(
    members: Seq<CandidateModel>,
    order: Seq<int>,
    room: nat,
    n: nat,
)
    requires
        room < members.len(),
        forall|k: int| 0 <= k < members.len() ==> (#[trigger] members[k]).inserts.len() == n,
    ensures
        prune::sampled(members, order, room).len() == room,
        forall|k: int|
            0 <= k < room ==> (#[trigger] prune::sampled(members, order, room)[k]).inserts.len()
                == n,
{
}

/// What is kept of the buckets from the `idx`-th on is of their kinds, and of each no more
/// than there is.
proof fn lemma_selected_alike(
    all: Seq<CandidateModel>,
    counts: Seq<usize>,
    idx: nat,
    budget: nat,
    seed: u64,
    draws: Seq<(nat, nat)>,
    n: nat,
)
    requires
        counts.no_duplicates(),
    ensures
        ({
            let part = prune::selected(all, counts, idx, budget, seed, draws);
            &&& alike(part, n).len() <= alike(all, n).len()
            &&& (forall|j: int| idx <= j < counts.len() ==> #[trigger] counts[j] != n) ==> alike(
                part,
                n,
            ).len() == 0
        }),
    decreases counts.len() - idx,
{
    let part = prune::selected(all, counts, idx, budget, seed, draws);
    lemma_alike_bounds(part, n);
    if idx < counts.len() {
        let count = counts[idx as int];
        let members = prune::bucket(all, count);
        let room = prune::share(budget, (counts.len() - idx) as nat);
        let fits = members.len() <= room;
        let drawn = draws.push((members.len(), room));
        let order = crate::sampling::shuffle_order(seed, drawn);
        let first = if fits {
            members
        } else {
            prune::sampled(members, order, room)
        };
        let rest = if fits {
            prune::selected(all, counts, idx + 1, (budget - members.len()) as nat, seed, draws)
        } else {
            prune::selected(all, counts, idx + 1, (budget - room) as nat, seed, drawn)
        };
        assert(part == first + rest);
        lemma_members(all, count);
        if fits {
            lemma_selected_alike(
                all,
                counts,
                idx + 1,
                (budget - members.len()) as nat,
                seed,
                draws,
                n,
            );
        } else {
            lemma_drawn(members, order, room, count as nat);
            lemma_selected_alike(all, counts, idx + 1, (budget - room) as nat, seed, drawn, n);
        }
        lemma_alike_add(first, rest, n);
        lemma_alike_bounds(first, n);
        lemma_alike_is_bucket(all, count);
        if count == n {
            assert forall|j: int| idx + 1 <= j < counts.len() implies #[trigger] counts[j] != n by {
                assert(counts[j] != counts[idx as int]);
            }
        }
    }
}

/// Of no kind are there more candidates after a cut than before it.
pub proof fn law_cut_adds_none_of_a_kind(all: Seq<CandidateModel>, cap: nat, i: usize, n: nat)
    requires
        forall|k: int| 0 <= k < all.len() ==> (#[trigger] all[k]).inserts.len() <= usize::MAX,
    ensures
        alike(prune::pruned(all, cap, i), n).len() <= alike(all, n).len(),
{
    if all.len() > cap {
        let order = prune::bucket_order(all);
        let seed = prune::step_seed(i);
        lemma_order(all);
        if order.len() <= cap {
            let part = prune::selected(all, order, 0, cap, seed, Seq::empty());
            lemma_selected_alike(all, order, 0, cap, seed, Seq::empty(), n);
            lemma_ranked_alike(part, n);
        } else {
            let sorted = rank::ranked(all);
            rank::law_ranking_orders(all);
            lemma_ranked_alike(all, n);
            assert(sorted =~= sorted.take(cap as int) + sorted.skip(cap as int));
            lemma_alike_add(sorted.take(cap as int), sorted.skip(cap as int), n);
        }
    }
}

/// How many candidates the buckets from the `idx`-th on have.
spec fn total(all: Seq<CandidateModel>, counts: Seq<usize>, idx: nat) -> nat
    decreases counts.len() - idx,
{
    if idx >= counts.len() {
        0
    } else {
        prune::bucket(all, counts[idx as int]).len() + total(all, counts, idx + 1)
    }
}

proof fn lemma_total_push(
    all: Seq<CandidateModel>,
    c: CandidateModel,
    counts: Seq<usize>,
    idx: nat,
)
    requires
        counts.no_duplicates(),
    ensures
        total(all.push(c), counts, idx) == total(all, counts, idx) + (if exists|j: int|
            idx <= j < counts.len() && #[trigger] counts[j] == c.inserts.len() {
            1nat
        } else {
            0nat
        }),
    decreases counts.len() - idx,
{
    if idx < counts.len() {
        lemma_total_push(all, c, counts, idx + 1);
        prune::lemma_bucket_push(all, c, counts[idx as int]);
        if counts[idx as int] == c.inserts.len() {
            assert forall|j: int| idx + 1 <= j < counts.len() implies #[trigger] counts[j]
                != c.inserts.len() by {
                assert(counts[j] != counts[idx as int]);
            }
        }
    }
}

proof fn lemma_total(all: Seq<CandidateModel>, counts: Seq<usize>)
    requires
        counts.no_duplicates(),
        forall|k: int|
            0 <= k < all.len() ==> exists|j: int|
                0 <= j < counts.len() && #[trigger] counts[j] == (#[trigger] all[k]).inserts.len(),
    ensures
        total(all, counts, 0) == all.len(),
    decreases all.len(),
{
    if all.len() == 0 {
        lemma_total_empty(all, counts, 0);
    } else {
        let front = all.drop_last();
        let c = all.last();
        assert(all =~= front.push(c));
        assert(all[all.len() - 1] == c);
        assert forall|k: int| 0 <= k < front.len() implies exists|j: int|
            0 <= j < counts.len() && #[trigger] counts[j] == (#[trigger] front[k]).inserts.len() by {
            assert(front[k] == all[k]);
        }
        lemma_total(front, counts);
        lemma_total_push(front, c, counts, 0);
    }
}

proof fn lemma_total_empty(all: Seq<CandidateModel>, counts: Seq<usize>, idx: nat)
    requires
        all.len() == 0,
    ensures
        total(all, counts, idx) == 0,
    decreases counts.len() - idx,
{
    reveal(Seq::filter);
    if idx < counts.len() {
        lemma_total_empty(all, counts, idx + 1);
    }
}

/// Buckets that are no smaller than `size` have at least that many each.
proof fn lemma_total_at_least(
    all: Seq<CandidateModel>,
    counts: Seq<usize>,
    idx: nat,
    size: nat,
)
    requires
        idx <= counts.len(),
        forall|j: int|
            idx <= j < counts.len() ==> prune::bucket(all, #[trigger] counts[j]).len() >= size,
    ensures
        total(all, counts, idx) >= size * (counts.len() - idx),
    decreases counts.len() - idx,
{
    if idx < counts.len() {
        lemma_total_at_least(all, counts, idx + 1, size);
        assert(prune::bucket(all, counts[idx as int]).len() >= size);
        assert(size * (counts.len() - idx) == size + size * (counts.len() - (idx + 1)))
            by (nonlinear_arith);
    } else {
        assert(size * (counts.len() - idx) == 0) by (nonlinear_arith)
            requires
                idx == counts.len(),
        ;
    }
}

proof fn lemma_selected_fills(
    all: Seq<CandidateModel>,
    counts: Seq<usize>,
    idx: nat,
    budget: nat,
    seed: u64,
    draws: Seq<(nat, nat)>,
)
    requires
        positions::ordered_by(counts, prune::earlier_bucket(all)),
        idx <= counts.len(),
    ensures
        prune::selected(all, counts, idx, budget, seed, draws).len() == if total(all, counts, idx)
            <= budget {
            total(all, counts, idx)
        } else {
            budget
        },
    decreases counts.len() - idx,
{
    if idx < counts.len() {
        let count = counts[idx as int];
        let members = prune::bucket(all, count);
        let left = (counts.len() - idx) as nat;
        let room = prune::share(budget, left);
        let less = prune::earlier_bucket(all);
        assert(room <= budget && budget < left * (room + 1)) by (nonlinear_arith)
            requires
                left >= 1,
                room == budget / left,
        ;
        if members.len() > room {
            let drawn = draws.push((members.len(), room));
            let order = crate::sampling::shuffle_order(seed, drawn);
            lemma_members(all, count);
            lemma_drawn(members, order, room, count as nat);
            lemma_selected_fills(all, counts, idx + 1, (budget - room) as nat, seed, drawn);
            assert forall|j: int| idx + 1 <= j < counts.len() implies prune::bucket(
                all,
                #[trigger] counts[j],
            ).len() >= room + 1 by {
                assert(less(counts[idx as int], counts[j]));
            }
            lemma_total_at_least(all, counts, idx + 1, room + 1);
            assert((room + 1) * (counts.len() - (idx + 1)) >= budget - room) by (nonlinear_arith)
                requires
                    budget < left * (room + 1),
                    left == counts.len() - idx,
            ;
        } else {
            lemma_selected_fills(
                all,
                counts,
                idx + 1,
                (budget - members.len()) as nat,
                seed,
                draws,
            );
        }
    }
}

/// A beam that is cut has all its places taken.
pub proof fn law_cut_beam_is_full(all: Seq<CandidateModel>, cap: nat, i: usize)
    requires
        forall|k: int| 0 <= k < all.len() ==> (#[trigger] all[k]).inserts.len() <= usize::MAX,
    ensures
        prune::pruned(all, cap, i).len() == if all.len() <= cap {
            all.len()
        } else {
            cap
        },
{
    if all.len() > cap {
        let order = prune::bucket_order(all);
        let seed = prune::step_seed(i);
        lemma_order(all);
        rank::law_ranking_orders(all);
        if order.len() <= cap {
            let part = prune::selected(all, order, 0, cap, seed, Seq::empty());
            assert forall|k: int| 0 <= k < all.len() implies exists|j: int|
                0 <= j < order.len() && #[trigger] order[j] == (#[trigger] all[k]).inserts.len() by {
                let n = all[k].inserts.len() as usize;
                assert(all.contains(all[k]));
                lemma_alike_has(all, all[k]);
                lemma_alike_is_bucket(all, n);
                assert(order.contains(n));
            }
            lemma_total(all, order);
            lemma_selected_fills(all, order, 0, cap, seed, Seq::empty());
            rank::law_ranking_orders(part);
        }
    }
}

/// With a place for every bucket each keeps one at least.
proof fn lemma_selected_keeps_one(
    all: Seq<CandidateModel>,
    counts: Seq<usize>,
    idx: nat,
    t: int,
    budget: nat,
    seed: u64,
    draws: Seq<(nat, nat)>,
) -> (k: int)
    requires
        idx <= t < counts.len(),
        prune::bucket(all, counts[t]).len() > 0,
        budget >= counts.len() - idx,
    ensures
        0 <= k < prune::selected(all, counts, idx, budget, seed, draws).len(),
        prune::selected(all, counts, idx, budget, seed, draws)[k].inserts.len() == counts[t],
    decreases t - idx,
{
    let count = counts[idx as int];
    let members = prune::bucket(all, count);
    let left = (counts.len() - idx) as nat;
    let room = prune::share(budget, left);
    let fits = members.len() <= room;
    let drawn = draws.push((members.len(), room));
    let order = crate::sampling::shuffle_order(seed, drawn);
    assert(room >= 1 && room <= budget && budget - room >= left - 1) by (nonlinear_arith)
        requires
            left >= 1,
            budget >= left,
            room == budget / left,
    ;
    let first = if fits {
        members
    } else {
        prune::sampled(members, order, room)
    };
    lemma_members(all, count);
    if !fits {
        lemma_drawn(members, order, room, count as nat);
    }
    let part = prune::selected(all, counts, idx, budget, seed, draws);
    if idx == t {
        assert(part[0] == first[0]);
        0
    } else if fits {
        let k = lemma_selected_keeps_one(
            all,
            counts,
            idx + 1,
            t,
            (budget - members.len()) as nat,
            seed,
            draws,
        );
        first.len() + k
    } else {
        let k = lemma_selected_keeps_one(
            all,
            counts,
            idx + 1,
            t,
            (budget - room) as nat,
            seed,
            drawn,
        );
        first.len() + k
    }
}

/// With no more kinds of candidates than places, no kind is lost.
pub proof fn law_no_kind_is_lost(
    all: Seq<CandidateModel>,
    cap: nat,
    i: usize,
    kinds: Seq<usize>,
    c: CandidateModel,
)
    requires
        all.contains(c),
        covers(kinds, all),
        kinds.len() <= cap,
    ensures
        exists|d: CandidateModel| #[trigger]
            prune::pruned(all, cap, i).contains(d) && d.inserts.len() == c.inserts.len(),
{
    if all.len() <= cap {
        assert(prune::pruned(all, cap, i).contains(c));
    } else {
        let order = prune::bucket_order(all);
        let n = c.inserts.len() as usize;
        let seed = prune::step_seed(i);
        lemma_covered(kinds, all);
        let at = all.index_of(c);
        assert(all[at].inserts.len() <= usize::MAX);
        lemma_alike_has(all, c);
        lemma_alike_is_bucket(all, n);
        assert(order.contains(n));
        let t = choose|t: int| 0 <= t < order.len() && order[t] == n;
        let part = prune::selected(all, order, 0, cap, seed, Seq::empty());
        let k = lemma_selected_keeps_one(all, order, 0, t, cap, seed, Seq::empty());
        assert(part.contains(part[k]));
        lemma_ranked_has(part, part[k]);
        assert(prune::pruned(all, cap, i).contains(part[k]));
    }
}

/// With more kinds of candidates than places, those keep the places that have put out the
/// most: whoever is dropped has put out no more than anyone who is kept, and has put back no
/// fewer carriage returns than one who has put out as much.
pub proof fn law_most_output_keeps_the_places(
    all: Seq<CandidateModel>,
    cap: nat,
    i: usize,
    kinds: Seq<usize>,
    c: CandidateModel,
    kept: CandidateModel,
)
    requires
        kinds.no_duplicates(),
        forall|j: int|
            0 <= j < kinds.len() ==> exists|k: int|
                0 <= k < all.len() && (#[trigger] all[k]).inserts.len() == #[trigger] kinds[j],
        kinds.len() > cap,
        forall|k: int| 0 <= k < all.len() ==> (#[trigger] all[k]).inserts.len() <= usize::MAX,
        all.contains(c),
        !prune::pruned(all, cap, i).contains(c),
        prune::pruned(all, cap, i).contains(kept),
    ensures
        c.output.total_out <= kept.output.total_out,
        c.output.total_out == kept.output.total_out ==> c.inserts.len() >= kept.inserts.len(),
{
    let order = prune::bucket_order(all);
    let sorted = rank::ranked(all);
    lemma_order(all);
    assert forall|n: usize| kinds.contains(n) implies order.contains(n) by {
        let j = choose|j: int| 0 <= j < kinds.len() && kinds[j] == n;
        let k = choose|k: int|
            0 <= k < all.len() && (#[trigger] all[k]).inserts.len() == kinds[j];
        assert(all.contains(all[k]));
        lemma_alike_has(all, all[k]);
        lemma_alike_is_bucket(all, n);
    }
    lemma_no_longer(kinds, order);
    rank::law_ranking_orders(all);
    lemma_ranked_has(all, c);
    let x = choose|x: int| 0 <= x < sorted.len() && sorted[x] == c;
    let cut = sorted.take(cap as int);
    if all.len() <= cap {
        assert(prune::pruned(all, cap, i) == all);
    } else {
        assert(prune::pruned(all, cap, i) == cut);
        let y = choose|y: int| 0 <= y < cut.len() && cut[y] == kept;
        if x < cap {
            assert(cut[x] == c);
        }
        assert(sorted[y] == kept);
        assert(!rank::ahead(sorted[x], sorted[y]));
    }
}

/// How many of the `t`-th bucket are kept.
spec fn kept_of(
    all: Seq<CandidateModel>,
    counts: Seq<usize>,
    idx: nat,
    budget: nat,
    seed: u64,
    draws: Seq<(nat, nat)>,
    t: int,
) -> nat {
    alike(prune::selected(all, counts, idx, budget, seed, draws), counts[t] as nat).len()
}

/// The size of the `t`-th bucket.
spec fn size_of(all: Seq<CandidateModel>, counts: Seq<usize>, t: int) -> nat {
    prune::bucket(all, counts[t]).len()
}

/// A bucket keeps as many as it has room for; the later ones share what it leaves.
proof fn lemma_one_share(
    all: Seq<CandidateModel>,
    counts: Seq<usize>,
    idx: nat,
    budget: nat,
    seed: u64,
    draws: Seq<(nat, nat)>,
) -> (r: (nat, Seq<(nat, nat)>))
    requires
        counts.no_duplicates(),
        idx < counts.len(),
    ensures
        ({
            let room = budget / (counts.len() - idx) as nat;
            let size = size_of(all, counts, idx as int);
            &&& r.0 == if size <= room {
                size
            } else {
                room
            }
            &&& kept_of(all, counts, idx, budget, seed, draws, idx as int) == r.0
            &&& forall|t: int|
                idx < t < counts.len() ==> #[trigger] kept_of(
                    all,
                    counts,
                    idx,
                    budget,
                    seed,
                    draws,
                    t,
                ) == kept_of(all, counts, idx + 1, (budget - r.0) as nat, seed, r.1, t)
        }),
{
    let count = counts[idx as int];
    let members = prune::bucket(all, count);
    let room = prune::share(budget, (counts.len() - idx) as nat);
    let fits = members.len() <= room;
    let drawn = draws.push((members.len(), room));
    let order = crate::sampling::shuffle_order(seed, drawn);
    let first = if fits {
        members
    } else {
        prune::sampled(members, order, room)
    };
    let after = if fits {
        draws
    } else {
        drawn
    };
    lemma_members(all, count);
    if !fits {
        lemma_drawn(members, order, room, count as nat);
    }
    let kept = first.len();
    let rest = prune::selected(all, counts, idx + 1, (budget - kept) as nat, seed, after);
    assert(prune::selected(all, counts, idx, budget, seed, draws) == first + rest);
    lemma_alike_add(first, rest, count as nat);
    lemma_alike_bounds(first, count as nat);
    assert forall|j: int| idx + 1 <= j < counts.len() implies #[trigger] counts[j] != count by {
        assert(counts[j] != counts[idx as int]);
    }
    lemma_selected_alike(
        all,
        counts,
        idx + 1,
        (budget - kept) as nat,
        seed,
        after,
        count as nat,
    );
    assert forall|t: int| idx < t < counts.len() implies #[trigger] kept_of(
        all,
        counts,
        idx,
        budget,
        seed,
        draws,
        t,
    ) == kept_of(all, counts, idx + 1, (budget - kept) as nat, seed, after, t) by {
        lemma_alike_add(first, rest, counts[t] as nat);
        assert(counts[t] != counts[idx as int]);
        lemma_alike_bounds(first, counts[t] as nat);
    }
    (kept, after)
}

/// With room for `m` of every bucket each keeps that many, or all that it has.
proof fn lemma_share_at_least(
    all: Seq<CandidateModel>,
    counts: Seq<usize>,
    idx: nat,
    budget: nat,
    seed: u64,
    draws: Seq<(nat, nat)>,
    m: nat,
    t: int,
)
    requires
        counts.no_duplicates(),
        idx <= t < counts.len(),
        budget >= m * (counts.len() - idx),
    ensures
        kept_of(all, counts, idx, budget, seed, draws, t) >= m || kept_of(
            all,
            counts,
            idx,
            budget,
            seed,
            draws,
            t,
        ) == size_of(all, counts, t),
    decreases t - idx,
{
    let left = (counts.len() - idx) as nat;
    let room = budget / left;
    assert(room >= m && budget >= room * left && budget - room >= m * (left - 1) && room <= budget)
        by (nonlinear_arith)
        requires
            left >= 1,
            budget >= m * left,
            room == budget / left,
    ;
    let (kept, after) = lemma_one_share(all, counts, idx, budget, seed, draws);
    if idx < t {
        lemma_share_at_least(
            all,
            counts,
            idx + 1,
            (budget - kept) as nat,
            seed,
            after,
            m,
            t,
        );
        assert(kept_of(all, counts, idx, budget, seed, draws, t) == kept_of(
            all,
            counts,
            idx + 1,
            (budget - kept) as nat,
            seed,
            after,
            t,
        ));
    }
}

/// Buckets that all have more than `m`, with room for `m` of each but not for two more, keep
/// `m` or one more each.
proof fn lemma_share_evenly(
    all: Seq<CandidateModel>,
    counts: Seq<usize>,
    idx: nat,
    budget: nat,
    seed: u64,
    draws: Seq<(nat, nat)>,
    m: nat,
    t: int,
)
    requires
        counts.no_duplicates(),
        idx <= t < counts.len(),
        m * (counts.len() - idx) <= budget <= (m + 1) * (counts.len() - idx),
        forall|j: int| idx <= j < counts.len() ==> #[trigger] size_of(all, counts, j) > m,
    ensures
        m <= kept_of(all, counts, idx, budget, seed, draws, t) <= m + 1,
    decreases t - idx,
{
    let left = (counts.len() - idx) as nat;
    let room = budget / left;
    assert(m <= room <= m + 1 && (room == m + 1 ==> budget == (m + 1) * left) && room <= budget)
        by (nonlinear_arith)
        requires
            left >= 1,
            m * left <= budget <= (m + 1) * left,
            room == budget / left,
    ;
    assert(room == m ==> budget < (m + 1) * left) by (nonlinear_arith)
        requires
            left >= 1,
            room == budget / left,
    ;
    let (kept, after) = lemma_one_share(all, counts, idx, budget, seed, draws);
    assert(size_of(all, counts, idx as int) > m);
    assert(kept == room);
    if idx < t {
        assert(m * (left - 1) <= budget - room <= (m + 1) * (left - 1)) by (nonlinear_arith)
            requires
                left >= 1,
                m * left <= budget,
                m <= room <= m + 1,
                room == m ==> budget + 1 <= (m + 1) * left,
                room == m + 1 ==> budget == (m + 1) * left,
        ;
        lemma_share_evenly(
            all,
            counts,
            idx + 1,
            (budget - kept) as nat,
            seed,
            after,
            m,
            t,
        );
        assert(kept_of(all, counts, idx, budget, seed, draws, t) == kept_of(
            all,
            counts,
            idx + 1,
            (budget - kept) as nat,
            seed,
            after,
            t,
        ));
    }
}

/// A bucket that loses some keeps at most one fewer than any other.
proof fn lemma_fair(
    all: Seq<CandidateModel>,
    counts: Seq<usize>,
    idx: nat,
    budget: nat,
    seed: u64,
    draws: Seq<(nat, nat)>,
    t: int,
    u: int,
)
    requires
        counts.no_duplicates(),
        positions::ordered_by(counts, prune::earlier_bucket(all)),
        idx <= t < counts.len(),
        idx <= u < counts.len(),
        kept_of(all, counts, idx, budget, seed, draws, t) < size_of(all, counts, t),
    ensures
        kept_of(all, counts, idx, budget, seed, draws, u) <= kept_of(
            all,
            counts,
            idx,
            budget,
            seed,
            draws,
            t,
        ) + 1,
    decreases counts.len() - idx,
{
    let left = (counts.len() - idx) as nat;
    let room = budget / left;
    let size = size_of(all, counts, idx as int);
    let less = prune::earlier_bucket(all);
    assert(room * left <= budget < (room + 1) * left) by (nonlinear_arith)
        requires
            left >= 1,
            room == budget / left,
    ;
    if size > room {
        assert forall|j: int| idx <= j < counts.len() implies #[trigger] size_of(all, counts, j)
            > room by {
            if idx < j {
                assert(less(counts[idx as int], counts[j]));
            }
        }
        lemma_share_evenly(all, counts, idx, budget, seed, draws, room, t);
        lemma_share_evenly(all, counts, idx, budget, seed, draws, room, u);
    } else {
        let (kept, after) = lemma_one_share(all, counts, idx, budget, seed, draws);
        assert(idx < t);
        lemma_share_at_least(all, counts, idx, budget, seed, draws, room, t);
        if idx < u {
            let rest = (budget - kept) as nat;
            assert(kept_of(all, counts, idx, budget, seed, draws, t) == kept_of(
                all,
                counts,
                idx + 1,
                rest,
                seed,
                after,
                t,
            ));
            assert(kept_of(all, counts, idx, budget, seed, draws, u) == kept_of(
                all,
                counts,
                idx + 1,
                rest,
                seed,
                after,
                u,
            ));
            lemma_fair(all, counts, idx + 1, rest, seed, after, t, u);
        }
    }
}

/// The places are shared evenly: with no more kinds of candidates than places, a kind that
/// loses some keeps at most one fewer than any other kind.
pub proof fn law_places_are_shared_evenly(
    all: Seq<CandidateModel>,
    cap: nat,
    i: usize,
    kinds: Seq<usize>,
    n: nat,
    m: nat,
)
    requires
        covers(kinds, all),
        kinds.len() <= cap,
        alike(prune::pruned(all, cap, i), n).len() < alike(all, n).len(),
    ensures
        alike(prune::pruned(all, cap, i), m).len() <= alike(prune::pruned(all, cap, i), n).len() + 1,
{
    if all.len() > cap {
        let order = prune::bucket_order(all);
        let seed = prune::step_seed(i);
        let part = prune::selected(all, order, 0, cap, seed, Seq::empty());
        lemma_covered(kinds, all);
        lemma_order(all);
        lemma_ranked_alike(part, n);
        lemma_ranked_alike(part, m);
        lemma_selected_alike(all, order, 0, cap, seed, Seq::empty(), m);
        let t = lemma_place_in_order(all, n);
        if alike(all, m).len() > 0 {
            let u = lemma_place_in_order(all, m);
            lemma_fair(all, order, 0, cap, seed, Seq::empty(), t, u);
        }
    }
}

/// A kind that is there has its place in the order of the buckets.
proof fn lemma_place_in_order(all: Seq<CandidateModel>, n: nat) -> (t: int)
    requires
        forall|k: int| 0 <= k < all.len() ==> (#[trigger] all[k]).inserts.len() <= usize::MAX,
        alike(all, n).len() > 0,
    ensures
        0 <= t < prune::bucket_order(all).len(),
        prune::bucket_order(all)[t] == n,
        size_of(all, prune::bucket_order(all), t) == alike(all, n).len(),
{
    let order = prune::bucket_order(all);
    let pred = |c: CandidateModel| c.inserts.len() == n;
    let c = alike(all, n)[0];
    lemma_order(all);
    assert(all.filter(pred).contains(c));
    all.lemma_filter_pred(pred, 0);
    all.lemma_filter_contains_rev(pred, c);
    let k = choose|k: int| 0 <= k < all.len() && all[k] == c;
    assert(all[k].inserts.len() <= usize::MAX);
    lemma_alike_is_bucket(all, n as usize);
    assert(order.contains(n as usize));
    let t = choose|t: int| 0 <= t < order.len() && order[t] == n as usize;
    t
}

proof fn lemma_bucket_doubles_none(all: Seq<CandidateModel>, n: usize)
    requires
        all.no_duplicates(),
    ensures
        prune::bucket(all, n).no_duplicates(),
    decreases all.len(),
{
    reveal(Seq::filter);
    if all.len() > 0 {
        let front = all.drop_last();
        let c = all.last();
        lemma_bucket_doubles_none(front, n);
        assert(all =~= front.push(c));
        prune::lemma_bucket_push(front, c, n);
        prune::lemma_bucket_drawn(front, n);
        let before = prune::bucket(front, n);
        assert forall|k: int| 0 <= k < before.len() implies #[trigger] before[k] != c by {
            assert(front.contains(before[k]));
            let m = choose|m: int| 0 <= m < front.len() && front[m] == before[k];
            assert(all[m] != all[all.len() - 1]);
        }
    }
}

proof fn lemma_selected_doubles_none(
    all: Seq<CandidateModel>,
    counts: Seq<usize>,
    idx: nat,
    budget: nat,
    seed: u64,
    draws: Seq<(nat, nat)>,
)
    requires
        all.no_duplicates(),
        counts.no_duplicates(),
    ensures
        ({
            let part = prune::selected(all, counts, idx, budget, seed, draws);
            &&& part.no_duplicates()
            &&& forall|k: int|
                0 <= k < part.len() ==> exists|j: int|
                    idx <= j < counts.len() && (#[trigger] part[k]).inserts.len()
                        == #[trigger] counts[j]
        }),
    decreases counts.len() - idx,
{
    if idx < counts.len() {
        let part = prune::selected(all, counts, idx, budget, seed, draws);
        let count = counts[idx as int];
        let members = prune::bucket(all, count);
        let room = prune::share(budget, (counts.len() - idx) as nat);
        let fits = members.len() <= room;
        let drawn = draws.push((members.len(), room));
        let order = crate::sampling::shuffle_order(seed, drawn);
        let first = if fits {
            members
        } else {
            prune::sampled(members, order, room)
        };
        let rest = if fits {
            prune::selected(all, counts, idx + 1, (budget - members.len()) as nat, seed, draws)
        } else {
            prune::selected(all, counts, idx + 1, (budget - room) as nat, seed, drawn)
        };
        assert(part == first + rest);
        lemma_members(all, count);
        lemma_bucket_doubles_none(all, count);
        if fits {
            lemma_selected_doubles_none(
                all,
                counts,
                idx + 1,
                (budget - members.len()) as nat,
                seed,
                draws,
            );
        } else {
            lemma_drawn(members, order, room, count as nat);
            lemma_selected_doubles_none(
                all,
                counts,
                idx + 1,
                (budget - room) as nat,
                seed,
                drawn,
            );
        }
        assert forall|k: int| 0 <= k < first.len() implies (#[trigger] first[k]).inserts.len()
            == count by {}
        assert(first.no_duplicates());
        assert forall|k: int| 0 <= k < rest.len() implies (#[trigger] rest[k]).inserts.len()
            != count by {
            let j = choose|j: int|
                idx + 1 <= j < counts.len() && rest[k].inserts.len() == #[trigger] counts[j];
            assert(counts[j] != counts[idx as int]);
        }
        assert forall|x: int, y: int| 0 <= x < y < part.len() implies part[x] != part[y] by {
            if y < first.len() {
                assert(first[x] != first[y]);
            } else if x >= first.len() {
                assert(rest[x - first.len()] != rest[y - first.len()]);
            } else {
                assert(part[x] == first[x]);
                assert(part[y] == rest[y - first.len()]);
            }
        }
        assert forall|k: int| 0 <= k < part.len() implies exists|j: int|
            idx <= j < counts.len() && (#[trigger] part[k]).inserts.len() == #[trigger] counts[j] by {
            if k < first.len() {
                assert(part[k] == first[k]);
                assert(counts[idx as int] == count);
            } else {
                assert(part[k] == rest[k - first.len()]);
                let j = choose|j: int|
                    idx + 1 <= j < counts.len() && rest[k - first.len()].inserts.len()
                        == #[trigger] counts[j];
                assert(counts[j] == part[k].inserts.len());
            }
        }
    }
}

/// A cut doubles no candidate.
pub proof fn law_cut_doubles_none(all: Seq<CandidateModel>, cap: nat, i: usize)
    requires
        forall|k: int| 0 <= k < all.len() ==> (#[trigger] all[k]).inserts.len() <= usize::MAX,
        all.no_duplicates(),
    ensures
        prune::pruned(all, cap, i).no_duplicates(),
{
    if all.len() > cap {
        let order = prune::bucket_order(all);
        lemma_order(all);
        if order.len() <= cap {
            let part = prune::selected(all, order, 0, cap, prune::step_seed(i), Seq::empty());
            lemma_selected_doubles_none(all, order, 0, cap, prune::step_seed(i), Seq::empty());
            rank::law_ranking_orders(part);
            part.lemma_multiset_has_no_duplicates();
            rank::ranked(part).lemma_multiset_has_no_duplicates_conv();
        } else {
            let sorted = rank::ranked(all);
            rank::law_ranking_orders(all);
            all.lemma_multiset_has_no_duplicates();
            sorted.lemma_multiset_has_no_duplicates_conv();
            let cut = sorted.take(cap as int);
            assert forall|x: int, y: int| 0 <= x < y < cut.len() implies cut[x] != cut[y] by {
                assert(sorted[x] != sorted[y]);
            }
        }
    }
}

/// Every line feed has a seed of its own for the sampling, made of its index and one number
/// for all.
pub proof fn law_seeds_differ(i: usize, j: usize)
    ensures
        prune::step_seed(i) ^ (i as u64) == 0xC0DE_F00D,
        prune::step_seed(i) == prune::step_seed(j) ==> i == j,
{
    let a = i as u64;
    let b = j as u64;
    assert((0xC0DE_F00Du64 ^ a) ^ a == 0xC0DE_F00Du64) by (bit_vector);
    assert(0xC0DE_F00Du64 ^ a == 0xC0DE_F00Du64 ^ b ==> a == b) by (bit_vector);
}

/// Of a bucket that does not fit, what a shuffle has brought to the last places is kept: as
/// many as there is room for, from as many different places.
pub proof fn law_last_places_are_kept(
    members: Seq<CandidateModel>,
    order: Seq<int>,
    room: nat,
)
    requires
        crate::sampling::is_arrangement(order, members.len()),
        room < members.len(),
    ensures
        ({
            let kept = prune::sampled(members, order, room);
            &&& kept.len() == room
            &&& forall|k: int|
                members.len() - room <= k < members.len() ==> kept[k - (members.len() - room)]
                    == members[#[trigger] order[k]]
        }),
{
}

} // verus!
