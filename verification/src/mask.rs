//! Candidates: the damaged data with some of its carriage returns dropped, and how
//! positions in the two relate.
use vstd::arithmetic::power2;
use vstd::prelude::*;

use crate::positions;

verus! {

/// The byte at `i` is one of the listed carriage returns, and the mask drops it.
pub open spec fn dropped(crlf: Seq<usize>, mask: Seq<bool>, i: int) -> bool {
    exists|k: int| 0 <= k < crlf.len() && #[trigger] crlf[k] == i && mask[k]
}

/// The first `n` bytes of `data` without the dropped ones.
pub open spec fn left_of(data: Seq<u8>, crlf: Seq<usize>, mask: Seq<bool>, n: int) -> Seq<u8>
    decreases n,
{
    if n <= 0 {
        Seq::empty()
    } else if dropped(crlf, mask, n - 1) {
        left_of(data, crlf, mask, n - 1)
    } else {
        left_of(data, crlf, mask, n - 1).push(data[n - 1])
    }
}

/// `data` without the dropped carriage returns.
pub open spec fn candidate(data: Seq<u8>, crlf: Seq<usize>, mask: Seq<bool>) -> Seq<u8> {
    left_of(data, crlf, mask, data.len() as int)
}

/// How many of the first `k` carriage returns the mask drops.
pub open spec fn removed_upto(mask: Seq<bool>, k: nat) -> nat
    decreases k,
{
    if k == 0 {
        0
    } else {
        removed_upto(mask, (k - 1) as nat) + (if mask[k - 1] {
            1nat
        } else {
            0nat
        })
    }
}

/// How many of the first 0, 1, 2, ... carriage returns the mask drops.
pub open spec fn removed_counts(mask: Seq<bool>) -> Seq<usize> {
    Seq::new(mask.len() + 1, |k: int| removed_upto(mask, k as nat) as usize)
}

/// The mask over `n` carriage returns that drops all but the kept ones.
pub open spec fn keeping(n: nat, kept: Seq<usize>) -> Seq<bool> {
    Seq::new(n, |k: int| !kept.contains(k as usize))
}

/// Where a position of the damaged data stands in the candidate.
pub open spec fn cand_of(corr_pos: int, crlf: Seq<usize>, counts: Seq<usize>) -> int {
    corr_pos - counts[positions::rank(crlf, corr_pos) as int]
}

/// The position of the damaged data at which a search for candidate position
/// `cand_pos` ends, when `r` bytes are thought to be dropped before it and at most
/// `rounds` rounds are made. A round counts the bytes dropped before the place that
/// `r` gives and goes on with that count, or past that place if it is dropped.
pub open spec fn settle(
    cand_pos: int,
    crlf: Seq<usize>,
    counts: Seq<usize>,
    r: int,
    rounds: nat,
) -> int
    decreases rounds,
{
    let target = cand_pos + r;
    let idx = positions::rank(crlf, target) as int;
    if rounds == 0 {
        target
    } else if counts[idx] != r {
        settle(cand_pos, crlf, counts, counts[idx] as int, (rounds - 1) as nat)
    } else if drops_at(crlf, counts, idx, target) {
        settle(cand_pos, crlf, counts, r + 1, (rounds - 1) as nat)
    } else {
        target
    }
}

/// The carriage return of index `idx` stands at `target` and is dropped.
pub open spec fn drops_at(crlf: Seq<usize>, counts: Seq<usize>, idx: int, target: int) -> bool {
    idx < crlf.len() && crlf[idx] == target && idx + 1 < counts.len() && counts[idx + 1]
        > counts[idx]
}

/// The position `q` of the damaged data is not dropped and stands at `cand_pos` in
/// the candidate.
pub open spec fn stands_at(q: int, cand_pos: int, crlf: Seq<usize>, counts: Seq<usize>) -> bool {
    cand_of(q, crlf, counts) == cand_pos && !drops_at(
        crlf,
        counts,
        positions::rank(crlf, q) as int,
        q,
    )
}

/// The number of rounds that a search makes.
pub const SETTLE_ROUNDS: usize = 20;

/// Where in the damaged data the byte at `cand_pos` of the candidate stands.
pub open spec fn corr_of(cand_pos: int, crlf: Seq<usize>, counts: Seq<usize>) -> int {
    settle(cand_pos, crlf, counts, 0, SETTLE_ROUNDS as nat)
}

proof fn lemma_dropped_at_rank(crlf: Seq<usize>, mask: Seq<bool>, i: int)
    requires
        positions::ascending(crlf),
    ensures
        dropped(crlf, mask, i) <==> {
            let k = positions::rank(crlf, i) as int;
            k < crlf.len() && crlf[k] == i && mask[k]
        },
        ({
            let k = positions::rank(crlf, i) as int;
            positions::rank(crlf, i + 1) == if k < crlf.len() && crlf[k] == i {
                k + 1
            } else {
                k
            }
        }),
{
    positions::lemma_rank(crlf, i);
    let k = positions::rank(crlf, i) as int;
    if dropped(crlf, mask, i) {
        let m = choose|m: int| 0 <= m < crlf.len() && #[trigger] crlf[m] == i && mask[m];
        if k < m {
            assert(crlf[k] < crlf[m]);
        }
    }
    positions::lemma_next_rank(crlf, i);
}

/// The candidate's bytes that come from the first `n` ones of the damaged data are as
/// many as `n` less the carriage returns dropped there.
pub proof fn lemma_left_len(data: Seq<u8>, crlf: Seq<usize>, mask: Seq<bool>, n: int)
    requires
        positions::ascending(crlf),
        0 <= n,
    ensures
        left_of(data, crlf, mask, n).len() == n - removed_upto(
            mask,
            positions::rank(crlf, n),
        ),
    decreases n,
{
    if n > 0 {
        lemma_left_len(data, crlf, mask, n - 1);
        lemma_dropped_at_rank(crlf, mask, n - 1);
    } else {
        positions::lemma_rank(crlf, 0);
        if positions::rank(crlf, 0) > 0 {
            assert(crlf[0] < 0);
        }
    }
}

/// More of the data leaves more of the candidate.
pub proof fn lemma_left_prefix(data: Seq<u8>, crlf: Seq<usize>, mask: Seq<bool>, n: int, m: int)
    requires
        0 <= n <= m,
    ensures
        left_of(data, crlf, mask, n).len() <= left_of(data, crlf, mask, m).len(),
        left_of(data, crlf, mask, m).take(left_of(data, crlf, mask, n).len() as int) == left_of(
            data,
            crlf,
            mask,
            n,
        ),
    decreases m,
{
    let a = left_of(data, crlf, mask, n);
    let b = left_of(data, crlf, mask, m);
    if n < m {
        lemma_left_prefix(data, crlf, mask, n, m - 1);
        let c = left_of(data, crlf, mask, m - 1);
        assert(b.take(a.len() as int) =~= c.take(a.len() as int));
    } else {
        assert(b.take(a.len() as int) =~= a);
    }
}

/// The mask drops at most as many carriage returns as there are, and a count up to a
/// later one is no smaller.
pub proof fn lemma_removed_upto(mask: Seq<bool>, j: nat, k: nat)
    requires
        j <= k,
    ensures
        removed_upto(mask, j) <= removed_upto(mask, k) <= removed_upto(mask, j) + (k - j),
        removed_upto(mask, k) <= k,
    decreases k,
{
    if j < k {
        lemma_removed_upto(mask, j, (k - 1) as nat);
    } else if k > 0 {
        lemma_removed_upto(mask, (k - 1) as nat, (k - 1) as nat);
    }
}

/// `data` without the carriage returns that the mask drops.
pub fn build_candidate(data: &[u8], crlf_positions: &[usize], remove_mask: &[bool]) -> (r: Vec<u8>)
    requires
        positions::ascending(crlf_positions@),
        remove_mask@.len() == crlf_positions@.len(),
    ensures
        r@ == candidate(data@, crlf_positions@, remove_mask@),
{
    let mut result: Vec<u8> = Vec::new();
    let mut ci: usize = 0;
    proof {
        positions::lemma_rank(crlf_positions@, 0);
        if positions::rank(crlf_positions@, 0) > 0 {
            assert(crlf_positions@[0] < 0);
        }
    }
    for i in 0..data.len()
        invariant
            positions::ascending(crlf_positions@),
            remove_mask@.len() == crlf_positions@.len(),
            ci == positions::rank(crlf_positions@, i as int),
            ci <= crlf_positions@.len(),
            result@ == left_of(data@, crlf_positions@, remove_mask@, i as int),
    {
        proof {
            lemma_dropped_at_rank(crlf_positions@, remove_mask@, i as int);
            positions::lemma_rank(crlf_positions@, i + 1);
        }
        if ci < crlf_positions.len() && crlf_positions[ci] == i {
            if !remove_mask[ci] {
                result.push(data[i]);
            }
            ci = ci + 1;
        } else {
            result.push(data[i]);
        }
    }
    result
}

/// How many of the first 0, 1, 2, ... carriage returns the mask drops.
pub fn build_removed_prefix(mask: &[bool]) -> (prefix: Vec<usize>)
    ensures
        prefix@ == removed_counts(mask@),
{
    let mut prefix: Vec<usize> = Vec::new();
    prefix.push(0);
    let mut count: usize = 0;
    for k in 0..mask.len()
        invariant
            count == removed_upto(mask@, k as nat),
            count <= k,
            prefix@.len() == k + 1,
            forall|j: int| 0 <= j <= k ==> #[trigger] prefix@[j] == removed_upto(mask@, j as nat),
    {
        if mask[k] {
            count = count + 1;
        }
        prefix.push(count);
    }
    assert(prefix@ =~= removed_counts(mask@));
    prefix
}

/// How many carriage returns the mask drops.
pub fn count_removed(mask: &[bool]) -> (count: usize)
    ensures
        count == removed_upto(mask@, mask@.len()),
{
    let mut count: usize = 0;
    for k in 0..mask.len()
        invariant
            count == removed_upto(mask@, k as nat),
            count <= k,
    {
        if mask[k] {
            count = count + 1;
        }
    }
    count
}

/// The mask over `n` carriage returns that drops all but the kept ones.
pub fn mask_keeping(n: usize, kept: &[usize]) -> (mask: Vec<bool>)
    ensures
        mask@ == keeping(n as nat, kept@),
{
    let mut mask: Vec<bool> = vec![true; n];
    for i in 0..kept.len()
        invariant
            mask@.len() == n,
            forall|k: int|
                0 <= k < n ==> #[trigger] mask@[k] == !kept@.take(i as int).contains(k as usize),
    {
        let idx: usize = kept[i];
        let ghost before = kept@.take(i as int);
        let ghost after = kept@.take(i + 1);
        assert forall|x: usize| after.contains(x) <==> before.contains(x) || x == idx by {
            if before.contains(x) {
                let m = choose|m: int| 0 <= m < before.len() && before[m] == x;
                assert(after[m] == x);
            }
            if x == idx {
                assert(after[i as int] == x);
            }
            if after.contains(x) && x != idx {
                let m = choose|m: int| 0 <= m < after.len() && after[m] == x;
                assert(before[m] == x);
            }
        }
        if idx < n {
            mask[idx] = false;
        }
    }
    assert(kept@.take(kept@.len() as int) =~= kept@);
    assert(mask@ =~= keeping(n as nat, kept@));
    mask
}

/// At most `SETTLE_ROUNDS` rounds of counting.
fn count_rounds(cand_pos: usize, crlf_positions: &[usize], removed_prefix: &[usize]) -> (r:
    usize)
    requires
        positions::ascending(crlf_positions@),
        removed_prefix@.len() == crlf_positions@.len() + 1,
        forall|k: int|
            0 <= k < removed_prefix@.len() ==> cand_pos + #[trigger] removed_prefix@[k]
                <= usize::MAX,
    ensures
        r == corr_of(cand_pos as int, crlf_positions@, removed_prefix@),
{
    let mut r: usize = 0;
    for round in 0..SETTLE_ROUNDS
        invariant
            positions::ascending(crlf_positions@),
            removed_prefix@.len() == crlf_positions@.len() + 1,
            forall|k: int|
                0 <= k < removed_prefix@.len() ==> cand_pos + #[trigger] removed_prefix@[k]
                    <= usize::MAX,
            cand_pos + r <= usize::MAX,
            corr_of(cand_pos as int, crlf_positions@, removed_prefix@) == settle(
                cand_pos as int,
                crlf_positions@,
                removed_prefix@,
                r as int,
                (SETTLE_ROUNDS - round) as nat,
            ),
    {
        let target: usize = cand_pos + r;
        let idx: usize = positions::partition_point(crlf_positions, target);
        let new_r: usize = removed_prefix[idx];
        if new_r == r {
            if idx < crlf_positions.len() && crlf_positions[idx] == target && removed_prefix[idx + 1]
                > removed_prefix[idx] {
                r = r + 1;
            } else {
                return target;
            }
        } else {
            r = new_r;
        }
    }
    cand_pos + r
}

/// Where in the damaged data the byte at `cand_pos` of the candidate stands, by at
/// most `SETTLE_ROUNDS` rounds of counting.
pub fn cand_to_corr(cand_pos: usize, crlf_positions: &[usize], removed_prefix: &[usize]) -> (r:
    usize)
    requires
        positions::ascending(crlf_positions@),
        removed_prefix@.len() == crlf_positions@.len() + 1,
        forall|k: int|
            0 <= k < removed_prefix@.len() ==> cand_pos + #[trigger] removed_prefix@[k]
                <= usize::MAX,
    ensures
        r == corr_of(cand_pos as int, crlf_positions@, removed_prefix@),
        forall|mask: Seq<bool>, q: int|
            mask.len() == crlf_positions@.len() && removed_prefix@ == removed_counts(mask) && spaced(
                crlf_positions@,
            ) && 0 <= q && stands_at(q, cand_pos as int, crlf_positions@, removed_prefix@)
                && #[trigger] in_reach(q, crlf_positions@, mask) ==> r == q,
{
    let r: usize = count_rounds(cand_pos, crlf_positions, removed_prefix);
    assert(crlf_positions.len() == crlf_positions@.len());
    proof {
        let crlf = crlf_positions@;
        let counts = removed_prefix@;
        assert forall|mask: Seq<bool>, q: int|
            mask.len() == crlf.len() && counts == removed_counts(mask) && spaced(crlf) && 0 <= q
                && stands_at(q, cand_pos as int, crlf, counts) && #[trigger] in_reach(
                q,
                crlf,
                mask,
            ) implies r == q by {
            lemma_counts(crlf, mask, q);
            law_there_and_back(crlf, mask, q);
        }
    }
    r
}

/// Where a position of the damaged data stands in the candidate.
pub fn corr_to_cand(corr_pos: usize, crlf_positions: &[usize], removed_prefix: &[usize]) -> (r:
    usize)
    requires
        positions::ascending(crlf_positions@),
        removed_prefix@.len() == crlf_positions@.len() + 1,
        removed_prefix@[positions::rank(crlf_positions@, corr_pos as int) as int] <= corr_pos,
    ensures
        r == cand_of(corr_pos as int, crlf_positions@, removed_prefix@),
{
    let idx: usize = positions::partition_point(crlf_positions, corr_pos);
    corr_pos - removed_prefix[idx]
}

proof fn lemma_counts(crlf: Seq<usize>, mask: Seq<bool>, q: int)
    requires
        positions::ascending(crlf),
        mask.len() == crlf.len() <= usize::MAX,
    ensures
        cand_of(q, crlf, removed_counts(mask)) == q - removed_upto(mask, positions::rank(crlf, q)),
        drops_at(crlf, removed_counts(mask), positions::rank(crlf, q) as int, q) <==> dropped(
            crlf,
            mask,
            q,
        ),
{
    positions::lemma_rank(crlf, q);
    lemma_dropped_at_rank(crlf, mask, q);
    let k = positions::rank(crlf, q);
    lemma_removed_upto(mask, k, mask.len());
    if k < mask.len() {
        lemma_removed_upto(mask, k + 1, mask.len());
    }
}

/// A byte that is not dropped stands in the candidate where `cand_of` says.
pub proof fn law_kept_byte_found(data: Seq<u8>, crlf: Seq<usize>, mask: Seq<bool>, q: int)
    requires
        positions::ascending(crlf),
        mask.len() == crlf.len() <= usize::MAX,
        0 <= q < data.len(),
        !dropped(crlf, mask, q),
    ensures
        ({
            let at = cand_of(q, crlf, removed_counts(mask));
            &&& 0 <= at < candidate(data, crlf, mask).len()
            &&& candidate(data, crlf, mask)[at] == data[q]
            &&& stands_at(q, at, crlf, removed_counts(mask))
        }),
{
    lemma_counts(crlf, mask, q);
    lemma_left_len(data, crlf, mask, q);
    lemma_left_prefix(data, crlf, mask, q + 1, data.len() as int);
    let upto = left_of(data, crlf, mask, q + 1);
    let all = candidate(data, crlf, mask);
    let at = left_of(data, crlf, mask, q).len() as int;
    assert(all.take(upto.len() as int)[at] == upto[at]);
}

/// Only one position of the damaged data stands at a candidate position.
pub proof fn law_one_origin(crlf: Seq<usize>, mask: Seq<bool>, p: int, q: int, cand_pos: int)
    requires
        positions::ascending(crlf),
        mask.len() == crlf.len() <= usize::MAX,
        0 <= p,
        0 <= q,
        stands_at(p, cand_pos, crlf, removed_counts(mask)),
        stands_at(q, cand_pos, crlf, removed_counts(mask)),
    ensures
        p == q,
{
    let data = Seq::new((if p < q {
        q
    } else {
        p
    } + 1) as nat, |i: int| 0u8);
    lemma_counts(crlf, mask, p);
    lemma_counts(crlf, mask, q);
    lemma_left_len(data, crlf, mask, p);
    lemma_left_len(data, crlf, mask, q);
    if p < q {
        lemma_left_prefix(data, crlf, mask, p + 1, q);
    }
    if q < p {
        lemma_left_prefix(data, crlf, mask, q + 1, p);
    }
}

/// Listed carriage returns that each have a line feed behind them are at least two apart.
pub open spec fn spaced(crlf: Seq<usize>) -> bool {
    forall|i: int, j: int| 0 <= i < j < crlf.len() ==> crlf[i] + 2 <= crlf[j]
}

/// Of the carriage returns dropped before `q`, at most 2^17 stand in that last stretch
/// before it which has as many bytes as there are of them.
pub open spec fn in_reach(q: int, crlf: Seq<usize>, mask: Seq<bool>) -> bool {
    let all = removed_upto(mask, positions::rank(crlf, q));
    all - removed_upto(mask, positions::rank(crlf, q - all)) <= 0x2_0000
}

proof fn lemma_spacing(crlf: Seq<usize>, i: int, k: int)
    requires
        spaced(crlf),
        0 <= i,
        0 <= k,
        i + k < crlf.len(),
    ensures
        crlf[i] + 2 * k <= crlf[i + k],
    decreases k,
{
    if k > 0 {
        lemma_spacing(crlf, i, k - 1);
        assert(crlf[i + k - 1] + 2 <= crlf[i + k]);
    }
}

/// In a stretch of the data at most every other byte is dropped.
proof fn lemma_stretch(crlf: Seq<usize>, mask: Seq<bool>, a: int, b: int)
    requires
        spaced(crlf),
        a <= b,
    ensures
        positions::rank(crlf, a) <= positions::rank(crlf, b),
        removed_upto(mask, positions::rank(crlf, a)) <= removed_upto(
            mask,
            positions::rank(crlf, b),
        ),
        2 * (removed_upto(mask, positions::rank(crlf, b)) - removed_upto(
            mask,
            positions::rank(crlf, a),
        )) <= b - a + 1,
{
    let i = positions::rank(crlf, a);
    let j = positions::rank(crlf, b);
    assert(positions::ascending(crlf));
    positions::lemma_rank_grows(crlf, a, b);
    positions::lemma_rank(crlf, a);
    positions::lemma_rank(crlf, b);
    lemma_removed_upto(mask, i, j);
    if i < j {
        lemma_spacing(crlf, i as int, j - 1 - i);
        assert(crlf[i as int] >= a);
        assert(crlf[j - 1] < b);
    }
}

/// Each round of the search halves what is missing of the number of bytes dropped before
/// `q`, so that it ends at `q` in time.
proof fn lemma_settle(crlf: Seq<usize>, mask: Seq<bool>, q: int, r: int, rounds: nat)
    requires
        spaced(crlf),
        mask.len() == crlf.len() <= usize::MAX,
        0 <= q,
        !dropped(crlf, mask, q),
        ({
            let all = removed_upto(mask, positions::rank(crlf, q));
            &&& 0 <= r <= all
            &&& r <= removed_upto(mask, positions::rank(crlf, q - all + r))
            &&& rounds >= 2
            &&& all - r <= power2::pow2((rounds - 2) as nat)
        }),
    ensures
        ({
            let all = removed_upto(mask, positions::rank(crlf, q));
            settle(q - all, crlf, removed_counts(mask), r, rounds) == q
        }),
    decreases rounds,
{
    let counts = removed_counts(mask);
    let all = removed_upto(mask, positions::rank(crlf, q)) as int;
    let target = q - all + r;
    let idx = positions::rank(crlf, target);
    let more = removed_upto(mask, idx) as int;
    assert(positions::ascending(crlf));
    positions::lemma_rank(crlf, target);
    lemma_stretch(crlf, mask, target, q);
    lemma_counts(crlf, mask, target);
    lemma_counts(crlf, mask, q);
    assert(counts[idx as int] == more);
    if r == all {
        assert(settle(q - all, crlf, counts, r, rounds) == q);
    } else {
        let next = if more != r {
            more
        } else {
            r + 1
        };
        if more == r {
            // the one byte that is missing stands at the target
            lemma_dropped_at_rank(crlf, mask, target);
            lemma_stretch(crlf, mask, target + 1, q);
            lemma_removed_upto(mask, idx, positions::rank(crlf, target + 1));
            assert(target + 1 == q);
            assert(dropped(crlf, mask, target));
        }
        lemma_stretch(crlf, mask, target, q - all + next);
        if rounds == 2 {
            power2::lemma2_to64();
            reveal_with_fuel(settle, 2);
            positions::lemma_rank(crlf, q);
            lemma_removed_upto(mask, positions::rank(crlf, q), mask.len());
        } else {
            power2::lemma_pow2_unfold((rounds - 2) as nat);
            power2::lemma_pow2_pos((rounds - 3) as nat);
            lemma_settle(crlf, mask, q, next, (rounds - 1) as nat);
        }
    }
}

/// Going to the candidate and back ends where it began.
pub proof fn law_there_and_back(crlf: Seq<usize>, mask: Seq<bool>, q: int)
    requires
        spaced(crlf),
        mask.len() == crlf.len() <= usize::MAX,
        0 <= q,
        !dropped(crlf, mask, q),
        in_reach(q, crlf, mask),
    ensures
        corr_of(
            cand_of(q, crlf, removed_counts(mask)),
            crlf,
            removed_counts(mask),
        ) == q,
        // the search makes at most twenty rounds
        forall|p: int, counts: Seq<usize>| #[trigger]
            corr_of(p, crlf, counts) == settle(p, crlf, counts, 0, 20),
{
    let counts = removed_counts(mask);
    let all = removed_upto(mask, positions::rank(crlf, q)) as int;
    assert(positions::ascending(crlf));
    lemma_counts(crlf, mask, q);
    let first = removed_upto(mask, positions::rank(crlf, q - all)) as int;
    power2::lemma2_to64();
    lemma_counts(crlf, mask, q - all);
    lemma_stretch(crlf, mask, q - all, q);
    lemma_stretch(crlf, mask, q - all, q - all + first);
    if first == 0 {
        lemma_settle(crlf, mask, q, 0, SETTLE_ROUNDS as nat);
    } else {
        positions::lemma_rank(crlf, q - all);
        lemma_removed_upto(mask, positions::rank(crlf, q - all), mask.len());
        lemma_settle(crlf, mask, q, first, (SETTLE_ROUNDS - 1) as nat);
    }
}

/// A byte that stands below 2^18 in the candidate is in reach, however many bytes are
/// dropped before it.
pub proof fn law_near_is_in_reach(crlf: Seq<usize>, mask: Seq<bool>, q: int)
    requires
        spaced(crlf),
        mask.len() == crlf.len() <= usize::MAX,
        0 <= q,
        cand_of(q, crlf, removed_counts(mask)) < 0x4_0000,
    ensures
        in_reach(q, crlf, mask),
{
    let all = removed_upto(mask, positions::rank(crlf, q)) as int;
    assert(positions::ascending(crlf));
    lemma_counts(crlf, mask, q);
    lemma_stretch(crlf, mask, 0, q);
    positions::lemma_rank(crlf, 0);
    if positions::rank(crlf, 0) > 0 {
        assert(crlf[0] < 0);
    }
    lemma_stretch(crlf, mask, q - all, q);
}

proof fn lemma_origin(data: Seq<u8>, crlf: Seq<usize>, mask: Seq<bool>, at: int, n: int) -> (q: int)
    requires
        0 <= at < left_of(data, crlf, mask, n).len(),
    ensures
        0 <= q < n,
        !dropped(crlf, mask, q),
        left_of(data, crlf, mask, q).len() == at,
    decreases n,
{
    if at < left_of(data, crlf, mask, n - 1).len() {
        lemma_origin(data, crlf, mask, at, n - 1)
    } else {
        n - 1
    }
}

/// The search finds where a byte of the candidate comes from, for every byte below 2^18,
/// however many are dropped.
pub proof fn law_search_settles(data: Seq<u8>, crlf: Seq<usize>, mask: Seq<bool>, cand_pos: int)
    requires
        spaced(crlf),
        mask.len() == crlf.len() <= usize::MAX,
        0 <= cand_pos < candidate(data, crlf, mask).len(),
        cand_pos < 0x4_0000,
    ensures
        ({
            let q = corr_of(cand_pos, crlf, removed_counts(mask));
            &&& stands_at(q, cand_pos, crlf, removed_counts(mask))
            &&& 0 <= q < data.len()
            &&& data[q] == candidate(data, crlf, mask)[cand_pos]
        }),
{
    assert(positions::ascending(crlf));
    let q = lemma_origin(data, crlf, mask, cand_pos, data.len() as int);
    lemma_left_len(data, crlf, mask, q);
    lemma_counts(crlf, mask, q);
    law_near_is_in_reach(crlf, mask, q);
    law_there_and_back(crlf, mask, q);
    law_kept_byte_found(data, crlf, mask, q);
}

/// Keeping one more carriage return inserts it into the candidate, at the place of
/// the line feed behind it.
pub proof fn law_keeping_inserts(data: Seq<u8>, crlf: Seq<usize>, mask: Seq<bool>, k: int)
    requires
        positions::ascending(crlf),
        mask.len() == crlf.len() <= usize::MAX,
        0 <= k < crlf.len(),
        crlf[k] < data.len(),
        mask[k],
    ensures
        ({
            let at = cand_of(crlf[k] + 1, crlf, removed_counts(mask));
            &&& 0 <= at <= candidate(data, crlf, mask).len()
            &&& candidate(data, crlf, mask.update(k, false)) == candidate(data, crlf, mask).insert(
                at,
                data[crlf[k] as int],
            )
        }),
{
    let more = mask.update(k, false);
    let c = crlf[k] as int;
    let at = left_of(data, crlf, mask, c).len() as int;
    assert forall|i: int| i != c implies #[trigger] dropped(crlf, more, i) == dropped(
        crlf,
        mask,
        i,
    ) by {
        if dropped(crlf, mask, i) {
            let m = choose|m: int| 0 <= m < crlf.len() && #[trigger] crlf[m] == i && mask[m];
            assert(crlf[m] == i && more[m]);
        }
        if dropped(crlf, more, i) {
            let m = choose|m: int| 0 <= m < crlf.len() && #[trigger] crlf[m] == i && more[m];
            assert(crlf[m] == i && mask[m]);
        }
    }
    assert(dropped(crlf, mask, c));
    assert(!dropped(crlf, more, c)) by {
        if dropped(crlf, more, c) {
            let m = choose|m: int| 0 <= m < crlf.len() && #[trigger] crlf[m] == c && more[m];
            if m < k {
                assert(crlf[m] < crlf[k]);
            }
            if k < m {
                assert(crlf[k] < crlf[m]);
            }
        }
    }
    lemma_insert_upto(data, crlf, mask, more, c, data.len() as int);
    lemma_left_len(data, crlf, mask, c + 1);
    lemma_counts(crlf, mask, c + 1);
}

proof fn lemma_insert_upto(
    data: Seq<u8>,
    crlf: Seq<usize>,
    mask: Seq<bool>,
    more: Seq<bool>,
    c: int,
    n: int,
)
    requires
        0 <= c,
        0 <= n,
        forall|i: int| i != c ==> #[trigger] dropped(crlf, more, i) == dropped(crlf, mask, i),
        dropped(crlf, mask, c),
        !dropped(crlf, more, c),
    ensures
        n <= c ==> left_of(data, crlf, more, n) == left_of(data, crlf, mask, n),
        n > c ==> left_of(data, crlf, mask, c).len() <= left_of(data, crlf, mask, n).len()
            && left_of(data, crlf, more, n) == left_of(data, crlf, mask, n).insert(
            left_of(data, crlf, mask, c).len() as int,
            data[c],
        ),
    decreases n,
{
    if n > 0 {
        lemma_insert_upto(data, crlf, mask, more, c, n - 1);
        let at = left_of(data, crlf, mask, c).len() as int;
        let before = left_of(data, crlf, mask, n - 1);
        if n == c + 1 {
            assert(before.push(data[c]) =~= before.insert(at, data[c]));
        } else if n > c + 1 {
            assert(dropped(crlf, more, n - 1) == dropped(crlf, mask, n - 1));
            assert(before.insert(at, data[c]).push(data[n - 1]) =~= before.push(data[n - 1]).insert(
                at,
                data[c],
            ));
        }
    }
}

} // verus!
