//! Putting carriage returns back into a section.
use vstd::prelude::*;

use crate::corrupt::CR;
use crate::positions;

verus! {

/// The first `n` bytes of `base` with a carriage return in front of each position
/// in `inserts`.
pub open spec fn spliced(base: Seq<u8>, n: int, inserts: Seq<usize>) -> Seq<u8>
    decreases n,
{
    if n <= 0 {
        Seq::empty()
    } else {
        let before = spliced(base, n - 1, inserts);
        if inserts.contains((n - 1) as usize) {
            before.push(CR).push(base[n - 1])
        } else {
            before.push(base[n - 1])
        }
    }
}

/// `base` with a carriage return in front of each position in `inserts`.
pub open spec fn with_crs(base: Seq<u8>, inserts: Seq<usize>) -> Seq<u8> {
    spliced(base, base.len() as int, inserts)
}

/// Positions from `n` on make no difference to the first `n` bytes.
pub proof fn lemma_spliced_same(base: Seq<u8>, n: int, a: Seq<usize>, b: Seq<usize>)
    requires
        n <= usize::MAX + 1,
        forall|x: usize| x < n ==> (a.contains(x) <==> b.contains(x)),
    ensures
        spliced(base, n, a) == spliced(base, n, b),
    decreases n,
{
    if n > 0 {
        lemma_spliced_same(base, n - 1, a, b);
        assert(((n - 1) as usize) < n);
    }
}

/// More of the base makes more of the whole, behind what there was before.
pub proof fn lemma_spliced_prefix(base: Seq<u8>, m: int, n: int, inserts: Seq<usize>)
    requires
        0 <= m <= n,
    ensures
        spliced(base, m, inserts).is_prefix_of(spliced(base, n, inserts)),
        spliced(base, m, inserts).len() + (n - m) <= spliced(base, n, inserts).len(),
    decreases n,
{
    if m < n {
        lemma_spliced_prefix(base, m, n - 1, inserts);
    }
}

/// Bytes with no carriage return put in front of them are appended as they are.
pub proof fn lemma_spliced_gap(base: Seq<u8>, from: int, to: int, inserts: Seq<usize>)
    requires
        0 <= from <= to <= base.len(),
        to <= usize::MAX + 1,
        forall|x: usize| from <= x < to ==> !inserts.contains(x),
    ensures
        spliced(base, to, inserts) == spliced(base, from, inserts) + base.subrange(from, to),
    decreases to - from,
{
    if from == to {
        assert(base.subrange(from, to) =~= Seq::empty());
        assert(spliced(base, from, inserts) + base.subrange(from, to) =~= spliced(
            base,
            from,
            inserts,
        ));
    } else {
        lemma_spliced_gap(base, from, to - 1, inserts);
        assert(!inserts.contains((to - 1) as usize));
        assert(base.subrange(from, to) =~= base.subrange(from, to - 1).push(base[to - 1]));
        assert(spliced(base, from, inserts) + base.subrange(from, to) =~= (spliced(
            base,
            from,
            inserts,
        ) + base.subrange(from, to - 1)).push(base[to - 1]));
    }
}

/// One carriage return put back is one byte inserted.
pub proof fn lemma_splice_one(base: Seq<u8>, p: usize)
    requires
        p < base.len() <= usize::MAX,
    ensures
        with_crs(base, seq![p]) == base.insert(p as int, CR),
{
    let one = seq![p];
    assert forall|x: usize| one.contains(x) <==> x == p by {
        if x == p {
            assert(one[0] == p);
        }
    }
    lemma_spliced_gap(base, 0, p as int, one);
    lemma_spliced_gap(base, p + 1, base.len() as int, one);
    assert(with_crs(base, one) =~= base.insert(p as int, CR));
}

/// Two carriage returns put back are two bytes inserted.
pub proof fn lemma_splice_two(base: Seq<u8>, p: usize, q: usize)
    requires
        p < q < base.len() <= usize::MAX,
    ensures
        with_crs(base, seq![p, q]) == base.insert(p as int, CR).insert(q + 1, CR),
{
    let two = seq![p, q];
    assert forall|x: usize| two.contains(x) <==> x == p || x == q by {
        if x == p {
            assert(two[0] == p);
        }
        if x == q {
            assert(two[1] == q);
        }
    }
    lemma_spliced_gap(base, 0, p as int, two);
    lemma_spliced_gap(base, p + 1, q as int, two);
    lemma_spliced_gap(base, q + 1, base.len() as int, two);
    assert(with_crs(base, two) =~= base.insert(p as int, CR).insert(q + 1, CR));
}

proof fn lemma_spliced_len(base: Seq<u8>, n: int, inserts: Seq<usize>)
    requires
        0 <= n <= base.len() <= usize::MAX,
        positions::ascending(inserts),
    ensures
        spliced(base, n, inserts).len() == n + positions::rank(inserts, n),
    decreases n,
{
    if n > 0 {
        lemma_spliced_len(base, n - 1, inserts);
        positions::lemma_next_rank(inserts, n - 1);
        let k = positions::rank(inserts, n - 1) as int;
        if inserts.contains((n - 1) as usize) {
            let j = choose|j: int| 0 <= j < inserts.len() && inserts[j] == (n - 1) as usize;
            positions::lemma_rank_is_index(inserts, j);
        } else if k < inserts.len() && inserts[k] == n - 1 {
            assert(inserts.contains(inserts[k]));
        }
    } else {
        positions::lemma_rank(inserts, 0);
        if positions::rank(inserts, 0) > 0 {
            assert(inserts[0] < 0);
        }
    }
}

/// The carriage returns that are put back are all that is new: every byte stands as many
/// places further on as carriage returns were put back in front of it and the bytes before
/// it, and directly in front of it stands a carriage return if one was put back there.
pub proof fn law_carriage_returns_are_put_back(base: Seq<u8>, inserts: Seq<usize>, i: int)
    requires
        base.len() <= usize::MAX,
        positions::ascending(inserts),
        forall|k: int| 0 <= k < inserts.len() ==> #[trigger] inserts[k] < base.len(),
        0 <= i < base.len(),
    ensures
        ({
            let out = with_crs(base, inserts);
            let at = i + positions::rank(inserts, i + 1);
            &&& out.len() == base.len() + inserts.len()
            &&& at < out.len()
            &&& out[at] == base[i]
            &&& inserts.contains(i as usize) ==> at > 0 && out[at - 1] == 0x0D
        }),
{
    let n = base.len() as int;
    let out = with_crs(base, inserts);
    lemma_spliced_len(base, n, inserts);
    lemma_spliced_len(base, i, inserts);
    lemma_spliced_len(base, i + 1, inserts);
    positions::lemma_rank_is(inserts, n, inserts.len() as int);
    lemma_spliced_prefix(base, i + 1, n, inserts);
    let part = spliced(base, i + 1, inserts);
    let at = i + positions::rank(inserts, i + 1);
    assert(part.len() == at + 1);
    assert(out[at] == part[at]);
    if inserts.contains(i as usize) {
        assert(out[at - 1] == part[at - 1]);
    }
}

} // verus!
