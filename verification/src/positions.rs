//! Ascending lists of positions, and how many of their members lie below a bound.
use vstd::prelude::*;

verus! {

/// The positions below `n` at which `hit` holds, in ascending order.
pub open spec fn positions(n: nat, hit: spec_fn(int) -> bool) -> Seq<usize>
    decreases n,
{
    if n == 0 {
        Seq::empty()
    } else {
        let shorter = positions((n - 1) as nat, hit);
        if hit(n - 1) {
            shorter.push((n - 1) as usize)
        } else {
            shorter
        }
    }
}

/// Every member is smaller than the members after it.
pub open spec fn ascending(s: Seq<usize>) -> bool {
    forall|i: int, j: int| 0 <= i < j < s.len() ==> s[i] < s[j]
}

/// How many members of `s` are smaller than `bound`.
pub open spec fn rank(s: Seq<usize>, bound: int) -> nat
    decreases s.len(),
{
    if s.len() == 0 {
        0
    } else {
        rank(s.drop_last(), bound) + (if s.last() < bound {
            1nat
        } else {
            0nat
        })
    }
}

/// `positions` lists exactly the hits, in ascending order.
pub proof fn lemma_positions(n: nat, hit: spec_fn(int) -> bool)
    requires
        n <= usize::MAX + 1,
    ensures
        ascending(positions(n, hit)),
        positions(n, hit).len() <= n,
        forall|k: int|
            0 <= k < positions(n, hit).len() ==> #[trigger] positions(n, hit)[k] < n && hit(
                positions(n, hit)[k] as int,
            ),
        forall|i: int| 0 <= i < n && hit(i) ==> #[trigger] positions(n, hit).contains(i as usize),
    decreases n,
{
    if n > 0 {
        lemma_positions((n - 1) as nat, hit);
        let shorter = positions((n - 1) as nat, hit);
        let all = positions(n, hit);
        assert forall|i: int| 0 <= i < n && hit(i) implies #[trigger] all.contains(i as usize) by {
            if i < n - 1 {
                assert(shorter.contains(i as usize));
                let k = choose|k: int| 0 <= k < shorter.len() && shorter[k] == i as usize;
                assert(all[k] == i as usize);
            } else {
                assert(all[all.len() - 1] == i as usize);
            }
        }
    }
}

/// Every member comes, by `less`, before the members after it.
pub open spec fn ordered_by(s: Seq<usize>, less: spec_fn(usize, usize) -> bool) -> bool {
    forall|i: int, j: int| 0 <= i < j < s.len() ==> less(#[trigger] s[i], #[trigger] s[j])
}

/// Two lists with the same members in the same order are the same list.
pub proof fn lemma_ordered_unique(a: Seq<usize>, b: Seq<usize>, less: spec_fn(usize, usize) -> bool)
    requires
        ordered_by(a, less),
        ordered_by(b, less),
        forall|x: usize, y: usize| #[trigger] less(x, y) ==> !less(y, x),
        forall|x: usize| a.contains(x) <==> b.contains(x),
    ensures
        a == b,
    decreases a.len(),
{
    if a.len() == 0 {
        if b.len() > 0 {
            assert(b.contains(b[0]));
            assert(a.contains(b[0]));
        }
        assert(a =~= b);
    } else {
        assert(a.contains(a.last()));
        assert(b.contains(a.last()));
        assert(b.contains(b.last()));
        assert(a.contains(b.last()));
        if a.last() != b.last() {
            let k = choose|k: int| 0 <= k < a.len() && a[k] == b.last();
            let m = choose|m: int| 0 <= m < b.len() && b[m] == a.last();
            assert(less(a[k], a[a.len() - 1]));
            assert(less(b[m], b[b.len() - 1]));
        }
        let x = a.drop_last();
        let y = b.drop_last();
        assert forall|v: usize| x.contains(v) <==> y.contains(v) by {
            if x.contains(v) {
                let k = choose|k: int| 0 <= k < x.len() && x[k] == v;
                assert(a[k] == v);
                assert(a.contains(v));
                let m = choose|m: int| 0 <= m < b.len() && b[m] == v;
                assert(less(a[k], a[a.len() - 1]));
                assert(y[m] == v);
            }
            if y.contains(v) {
                let k = choose|k: int| 0 <= k < y.len() && y[k] == v;
                assert(b[k] == v);
                assert(b.contains(v));
                let m = choose|m: int| 0 <= m < a.len() && a[m] == v;
                assert(less(b[k], b[b.len() - 1]));
                assert(x[m] == v);
            }
        }
        assert(ordered_by(x, less)) by {
            assert forall|i: int, j: int| 0 <= i < j < x.len() implies less(
                #[trigger] x[i],
                #[trigger] x[j],
            ) by {
                assert(less(a[i], a[j]));
            }
        }
        assert(ordered_by(y, less)) by {
            assert forall|i: int, j: int| 0 <= i < j < y.len() implies less(
                #[trigger] y[i],
                #[trigger] y[j],
            ) by {
                assert(less(b[i], b[j]));
            }
        }
        lemma_ordered_unique(x, y, less);
        assert(a =~= x.push(a.last()));
        assert(b =~= y.push(b.last()));
    }
}

/// Two ascending lists with the same members are the same list.
pub proof fn lemma_ascending_unique(a: Seq<usize>, b: Seq<usize>)
    requires
        ascending(a),
        ascending(b),
        forall|x: usize| a.contains(x) <==> b.contains(x),
    ensures
        a == b,
{
    lemma_ordered_unique(a, b, |x: usize, y: usize| x < y);
}

/// In an ascending list the members below `bound` are the first `rank` ones.
pub proof fn lemma_rank(s: Seq<usize>, bound: int)
    requires
        ascending(s),
    ensures
        rank(s, bound) <= s.len(),
        forall|k: int| 0 <= k < rank(s, bound) ==> #[trigger] s[k] < bound,
        forall|k: int| rank(s, bound) <= k < s.len() ==> #[trigger] s[k] >= bound,
    decreases s.len(),
{
    if s.len() > 0 {
        let shorter = s.drop_last();
        lemma_rank(shorter, bound);
        if s.last() < bound {
            if rank(shorter, bound) < shorter.len() {
                assert(shorter[rank(shorter, bound) as int] >= bound);
                assert(s[rank(shorter, bound) as int] < s.last());
            }
        }
        assert forall|k: int| 0 <= k < rank(s, bound) implies #[trigger] s[k] < bound by {
            if k < shorter.len() {
                assert(s[k] == shorter[k]);
            }
        }
        assert forall|k: int| rank(s, bound) <= k < s.len() implies #[trigger] s[k] >= bound by {
            if k < shorter.len() {
                assert(s[k] == shorter[k]);
            }
        }
    }
}

/// The index that splits an ascending list at `bound` is the rank.
pub proof fn lemma_rank_is(s: Seq<usize>, bound: int, r: int)
    requires
        ascending(s),
        0 <= r <= s.len(),
        forall|k: int| 0 <= k < r ==> #[trigger] s[k] < bound,
        forall|k: int| r <= k < s.len() ==> #[trigger] s[k] >= bound,
    ensures
        rank(s, bound) == r,
{
    lemma_rank(s, bound);
    let q = rank(s, bound) as int;
    if q < r {
        assert(s[q] < bound);
    }
    if r < q {
        assert(s[r] < bound);
    }
}

/// The rank of a member is its index.
pub proof fn lemma_rank_is_index(s: Seq<usize>, j: int)
    requires
        ascending(s),
        0 <= j < s.len(),
    ensures
        rank(s, s[j] as int) == j,
{
    assert forall|k: int| j <= k < s.len() implies #[trigger] s[k] >= s[j] by {
        if j < k {
            assert(s[j] < s[k]);
        }
    }
    lemma_rank_is(s, s[j] as int, j);
}

/// A larger bound has no smaller rank.
pub proof fn lemma_rank_grows(s: Seq<usize>, a: int, b: int)
    requires
        ascending(s),
        a <= b,
    ensures
        rank(s, a) <= rank(s, b),
{
    lemma_rank(s, a);
    lemma_rank(s, b);
    let m = rank(s, b) as int;
    if m < rank(s, a) {
        assert(s[m] < a);
    }
}

/// Over a stretch without members the rank stays.
pub proof fn lemma_rank_over_gap(s: Seq<usize>, a: int, b: int)
    requires
        ascending(s),
        a <= b,
        forall|x: usize| a <= x < b ==> !#[trigger] s.contains(x),
    ensures
        rank(s, a) == rank(s, b),
{
    lemma_rank(s, a);
    lemma_rank(s, b);
    lemma_rank_grows(s, a, b);
    let k = rank(s, a) as int;
    if k < rank(s, b) {
        assert(s.contains(s[k]));
    }
}

/// One step further the rank grows by one over a member, and stays over anything else.
pub proof fn lemma_next_rank(s: Seq<usize>, p: int)
    requires
        ascending(s),
    ensures
        ({
            let k = rank(s, p) as int;
            rank(s, p + 1) == if k < s.len() && s[k] == p {
                k + 1
            } else {
                k
            }
        }),
{
    lemma_rank(s, p);
    let k = rank(s, p) as int;
    if k < s.len() && s[k] == p {
        assert forall|m: int| k + 1 <= m < s.len() implies #[trigger] s[m] >= p + 1 by {
            assert(s[k] < s[m]);
        }
        lemma_rank_is(s, p + 1, k + 1);
    } else {
        lemma_rank_is(s, p + 1, k);
    }
}

/// The number of members of an ascending list that are smaller than `bound`.
pub fn partition_point(s: &[usize], bound: usize) -> (r: usize)
    requires
        ascending(s@),
    ensures
        r == rank(s@, bound as int),
        r <= s@.len(),
{
    let mut lo: usize = 0;
    let mut hi: usize = s.len();
    while lo < hi
        invariant
            ascending(s@),
            lo <= hi <= s@.len(),
            forall|k: int| 0 <= k < lo ==> #[trigger] s@[k] < bound,
            forall|k: int| hi <= k < s@.len() ==> #[trigger] s@[k] >= bound,
        decreases hi - lo,
    {
        let mid: usize = lo + (hi - lo) / 2;
        if s[mid] < bound {
            lo = mid + 1;
        } else {
            hi = mid;
        }
    }
    proof {
        lemma_rank_is(s@, bound as int, lo as int);
    }
    lo
}

/// The index of `x` in an ascending list, if `x` is a member.
pub fn find(s: &[usize], x: usize) -> (r: Option<usize>)
    requires
        ascending(s@),
    ensures
        match r {
            Some(k) => k < s@.len() && s@[k as int] == x && k == rank(s@, x as int),
            None => !s@.contains(x),
        },
{
    let k: usize = partition_point(s, x);
    proof {
        lemma_rank(s@, x as int);
    }
    if k < s.len() && s[k] == x {
        Some(k)
    } else {
        None
    }
}

} // verus!
