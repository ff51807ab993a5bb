//! The exhaustive search for one or two carriage returns to put back.
use vstd::prelude::*;

use crate::beam;
use crate::corrupt::CR;
use crate::positions;
use crate::splice;
use crate::unpack;

verus! {

/// Pairs are tried in sections of at most this many line feeds.
pub const MAX_PAIR_LFS: usize = 2000;

/// Tries the line feeds from the `j`-th on one by one; counts the attempts.
pub open spec fn keep_one(base: Seq<u8>, crc: u32, lfs: Seq<usize>, j: nat, attempts: u64) -> (
    Option<Seq<usize>>,
    u64,
)
    decreases lfs.len() - j,
{
    if j >= lfs.len() {
        (None, attempts)
    } else {
        let counted = beam::wrap64(attempts + 1);
        let put = seq![lfs[j as int]];
        if unpack::inflates_to(splice::with_crs(base, put), crc) {
            (Some(put), counted)
        } else {
            keep_one(base, crc, lfs, j + 1, counted)
        }
    }
}

/// Tries the pairs of line feeds from the pair of the `i`-th and the `j`-th on, in
/// lexicographic order; counts the attempts.
pub open spec fn keep_two(
    base: Seq<u8>,
    crc: u32,
    lfs: Seq<usize>,
    i: nat,
    j: nat,
    attempts: u64,
) -> (Option<Seq<usize>>, u64)
    decreases lfs.len() - i, lfs.len() - j,
{
    if i >= lfs.len() {
        (None, attempts)
    } else if j >= lfs.len() {
        keep_two(base, crc, lfs, i + 1, i + 2, attempts)
    } else {
        let counted = beam::wrap64(attempts + 1);
        let put = seq![lfs[i as int], lfs[j as int]];
        if unpack::inflates_to(splice::with_crs(base, put), crc) {
            (Some(put), counted)
        } else {
            keep_two(base, crc, lfs, i, j + 1, counted)
        }
    }
}

/// Tries single line feeds first and, in a section that has not too many of them,
/// pairs of line feeds next.
pub open spec fn keep_fixed(base: Seq<u8>, crc: u32, lfs: Seq<usize>, attempts: u64) -> (
    Option<Seq<usize>>,
    u64,
) {
    let (one, counted) = keep_one(base, crc, lfs, 0, attempts);
    if one is Some || lfs.len() > MAX_PAIR_LFS {
        (one, counted)
    } else {
        keep_two(base, crc, lfs, 0, 1, counted)
    }
}

/// What the exhaustive search finds unpacks to the expected checksum.
pub proof fn law_keep_fixed_is_sound(base: Seq<u8>, crc: u32, lfs: Seq<usize>, attempts: u64)
    ensures
        keep_fixed(base, crc, lfs, attempts).0 matches Some(put) ==> unpack::inflates_to(
            splice::with_crs(base, put),
            crc,
        ) && 1 <= put.len() <= 2 && forall|k: int|
            0 <= k < put.len() ==> lfs.contains(#[trigger] put[k]),
{
    lemma_one_sound(base, crc, lfs, 0, attempts);
    lemma_two_sound(base, crc, lfs, 0, 1, keep_one(base, crc, lfs, 0, attempts).1);
}

proof fn lemma_one_sound(base: Seq<u8>, crc: u32, lfs: Seq<usize>, j: nat, attempts: u64)
    ensures
        keep_one(base, crc, lfs, j, attempts).0 matches Some(put) ==> unpack::inflates_to(
            splice::with_crs(base, put),
            crc,
        ) && put.len() == 1 && lfs.contains(put[0]),
    decreases lfs.len() - j,
{
    if j < lfs.len() {
        lemma_one_sound(base, crc, lfs, j + 1, beam::wrap64(attempts + 1));
    }
}

proof fn lemma_two_sound(base: Seq<u8>, crc: u32, lfs: Seq<usize>, i: nat, j: nat, attempts: u64)
    ensures
        keep_two(base, crc, lfs, i, j, attempts).0 matches Some(put) ==> unpack::inflates_to(
            splice::with_crs(base, put),
            crc,
        ) && put.len() == 2 && lfs.contains(put[0]) && lfs.contains(put[1]),
    decreases lfs.len() - i, lfs.len() - j,
{
    if i < lfs.len() {
        if j < lfs.len() {
            lemma_two_sound(base, crc, lfs, i, j + 1, beam::wrap64(attempts + 1));
        } else {
            lemma_two_sound(base, crc, lfs, i + 1, i + 2, attempts);
        }
    }
}

/// The exhaustive search finds something whenever a single line feed would do.
pub proof fn law_single_is_found(base: Seq<u8>, crc: u32, lfs: Seq<usize>, attempts: u64, j: int)
    requires
        0 <= j < lfs.len(),
    ensures
        unpack::inflates_to(splice::with_crs(base, seq![lfs[j]]), crc) ==> keep_fixed(
            base,
            crc,
            lfs,
            attempts,
        ).0 is Some,
{
    lemma_one_complete(base, crc, lfs, 0, attempts, j);
}

/// In a section that has not too many line feeds the exhaustive search finds something
/// whenever a pair of them would do.
pub proof fn law_pair_is_found(
    base: Seq<u8>,
    crc: u32,
    lfs: Seq<usize>,
    attempts: u64,
    i: int,
    j: int,
)
    requires
        0 <= i < j < lfs.len() <= 2000,
    ensures
        unpack::inflates_to(splice::with_crs(base, seq![lfs[i], lfs[j]]), crc) ==> keep_fixed(
            base,
            crc,
            lfs,
            attempts,
        ).0 is Some,
{
    lemma_two_complete(base, crc, lfs, 0, 1, keep_one(base, crc, lfs, 0, attempts).1, i, j);
}

/// A single line feed comes before every pair, the first that will do before the others, and
/// each one tried is an attempt. Where no single one will do, every single one was an attempt;
/// with more than two thousand line feeds nothing else is tried.
pub proof fn law_first_single_is_put_back(base: Seq<u8>, crc: u32, lfs: Seq<usize>, attempts: u64)
    ensures
        ({
            let (found, counted) = keep_fixed(base, crc, lfs, attempts);
            let fits = |j: int| unpack::inflates_to(splice::with_crs(base, seq![lfs[j]]), crc);
            if exists|j: int| 0 <= j < lfs.len() && #[trigger] fits(j) {
                exists|j: int|
                    {
                        &&& 0 <= j < lfs.len()
                        &&& #[trigger] fits(j)
                        &&& forall|k: int| 0 <= k < j ==> !#[trigger] fits(k)
                        &&& found == Some(seq![lfs[j]])
                        &&& counted == beam::wrap64(attempts + j + 1)
                    }
            } else {
                lfs.len() > 2000 ==> found is None && counted == beam::wrap64(
                    attempts + lfs.len(),
                )
            }
        }),
{
    let fits = |j: int| unpack::inflates_to(splice::with_crs(base, seq![lfs[j]]), crc);
    lemma_one_first(base, crc, lfs, 0, attempts, fits);
}

proof fn lemma_one_first(
    base: Seq<u8>,
    crc: u32,
    lfs: Seq<usize>,
    i: nat,
    attempts: u64,
    fits: spec_fn(int) -> bool,
)
    requires
        i <= lfs.len(),
        fits == (|j: int| unpack::inflates_to(splice::with_crs(base, seq![lfs[j]]), crc)),
    ensures
        ({
            let (found, counted) = keep_one(base, crc, lfs, i, attempts);
            if exists|j: int| i <= j < lfs.len() && #[trigger] fits(j) {
                exists|j: int|
                    {
                        &&& i <= j < lfs.len()
                        &&& #[trigger] fits(j)
                        &&& forall|k: int| i <= k < j ==> !#[trigger] fits(k)
                        &&& found == Some(seq![lfs[j]])
                        &&& counted == beam::wrap64(attempts + (j - i) + 1)
                    }
            } else {
                found is None && counted == beam::wrap64(attempts + (lfs.len() - i))
            }
        }),
    decreases lfs.len() - i,
{
    if i < lfs.len() {
        let next = beam::wrap64(attempts + 1);
        assert(fits(i as int) == unpack::inflates_to(
            splice::with_crs(base, seq![lfs[i as int]]),
            crc,
        ));
        if !fits(i as int) {
            lemma_one_first(base, crc, lfs, i + 1, next, fits);
            if exists|j: int| i <= j < lfs.len() && #[trigger] fits(j) {
                let k = choose|k: int| i <= k < lfs.len() && #[trigger] fits(k);
                assert(i + 1 <= k);
                let (found, counted) = keep_one(base, crc, lfs, i + 1, next);
                let j = choose|j: int|
                    {
                        &&& i + 1 <= j < lfs.len()
                        &&& #[trigger] fits(j)
                        &&& forall|k: int| i + 1 <= k < j ==> !#[trigger] fits(k)
                        &&& found == Some(seq![lfs[j]])
                        &&& counted == beam::wrap64(next + (j - (i + 1)) + 1)
                    };
                assert(counted == beam::wrap64(attempts + (j - i) + 1));
            }
        }
    }
}

/// Where no single line feed will do, the pair put back in a section of up to two thousand
/// line feeds is the first that will, in the order of its first line feed and then of its
/// second; every single one and every pair tried was an attempt. Twice the number of pairs up
/// to the pair of the `i`-th and the `j`-th of `n` line feeds is `i * (2 * n - 1 - i) + 2 *
/// (j - i)`.
pub proof fn law_first_pair_is_put_back(base: Seq<u8>, crc: u32, lfs: Seq<usize>, attempts: u64)
    requires
        lfs.len() <= 2000,
        forall|j: int|
            0 <= j < lfs.len() ==> !unpack::inflates_to(
                splice::with_crs(base, seq![#[trigger] lfs[j]]),
                crc,
            ),
    ensures
        ({
            let n = lfs.len() as int;
            let (found, counted) = keep_fixed(base, crc, lfs, attempts);
            let fits = |i: int, j: int|
                unpack::inflates_to(splice::with_crs(base, seq![lfs[i], lfs[j]]), crc);
            if exists|i: int, j: int| 0 <= i < j < n && #[trigger] fits(i, j) {
                exists|i: int, j: int, c: int|
                    {
                        &&& 0 <= i < j < n
                        &&& #[trigger] fits(i, j)
                        &&& forall|a: int, b: int|
                            0 <= a < b < n && (a < i || a == i && b < j) ==> !#[trigger] fits(a, b)
                        &&& found == Some(seq![lfs[i], lfs[j]])
                        &&& 2 * c == i * (2 * n - 1 - i) + 2 * (j - i)
                        &&& counted == #[trigger] beam::wrap64(attempts + n + c)
                    }
            } else {
                found is None
            }
        }),
{
    let n = lfs.len() as int;
    let single = |j: int| unpack::inflates_to(splice::with_crs(base, seq![lfs[j]]), crc);
    let fits = |i: int, j: int|
        unpack::inflates_to(splice::with_crs(base, seq![lfs[i], lfs[j]]), crc);
    lemma_one_first(base, crc, lfs, 0, attempts, single);
    assert forall|j: int| 0 <= j < n implies !#[trigger] single(j) by {
        assert(!unpack::inflates_to(splice::with_crs(base, seq![lfs[j]]), crc));
    }
    let counted = beam::wrap64(attempts + n);
    assert(keep_one(base, crc, lfs, 0, attempts) == (None::<Seq<usize>>, counted));
    if n >= 1 {
        assert(0 * (2 * n - 1 - 0) == 0);
        lemma_two_first(base, crc, lfs, 0, 1, counted, attempts + n, 0, fits);
    }
}

proof fn lemma_two_first(
    base: Seq<u8>,
    crc: u32,
    lfs: Seq<usize>,
    a: nat,
    b: nat,
    attempts: u64,
    spent: int,
    c: int,
    fits: spec_fn(int, int) -> bool,
)
    requires
        a < b <= lfs.len(),
        fits == (|i: int, j: int|
            unpack::inflates_to(splice::with_crs(base, seq![lfs[i], lfs[j]]), crc)),
        0 <= c,
        0 <= spent,
        attempts == beam::wrap64(spent + c),
        2 * c == a * (2 * lfs.len() - 1 - a) + 2 * (b - a) - 2,
        forall|i: int, j: int|
            0 <= i < j < lfs.len() && (i < a || i == a && j < b) ==> !#[trigger] fits(i, j),
    ensures
        ({
            let n = lfs.len() as int;
            let (found, counted) = keep_two(base, crc, lfs, a, b, attempts);
            if exists|i: int, j: int| 0 <= i < j < n && #[trigger] fits(i, j) {
                exists|i: int, j: int, c: int|
                    {
                        &&& 0 <= i < j < n
                        &&& #[trigger] fits(i, j)
                        &&& forall|x: int, y: int|
                            0 <= x < y < n && (x < i || x == i && y < j) ==> !#[trigger] fits(x, y)
                        &&& found == Some(seq![lfs[i], lfs[j]])
                        &&& 2 * c == i * (2 * n - 1 - i) + 2 * (j - i)
                        &&& counted == #[trigger] beam::wrap64(spent + c)
                    }
            } else {
                found is None
            }
        }),
    decreases lfs.len() - a, lfs.len() - b,
{
    let n = lfs.len() as int;
    if b >= n {
        if a + 1 < n {
            assert((a + 1) * (2 * n - 1 - (a + 1)) + 2 == a * (2 * n - 1 - a) + 2 * (n - a))
                by (nonlinear_arith);
            lemma_two_first(base, crc, lfs, a + 1, a + 2, attempts, spent, c, fits);
        } else {
            assert(keep_two(base, crc, lfs, a + 1, a + 2, attempts).0 is None);
        }
    } else {
        assert(fits(a as int, b as int) == unpack::inflates_to(
            splice::with_crs(base, seq![lfs[a as int], lfs[b as int]]),
            crc,
        ));
        let counted = beam::wrap64(attempts + 1);
        assert(counted == beam::wrap64(spent + (c + 1)));
        if !fits(a as int, b as int) {
            lemma_two_first(base, crc, lfs, a, b + 1, counted, spent, c + 1, fits);
        }
    }
}

proof fn lemma_one_complete(base: Seq<u8>, crc: u32, lfs: Seq<usize>, k: nat, attempts: u64, j: int)
    requires
        k <= j < lfs.len(),
    ensures
        unpack::inflates_to(splice::with_crs(base, seq![lfs[j]]), crc) ==> keep_one(
            base,
            crc,
            lfs,
            k,
            attempts,
        ).0 is Some,
    decreases j - k,
{
    if k < j {
        lemma_one_complete(base, crc, lfs, k + 1, beam::wrap64(attempts + 1), j);
    }
}

proof fn lemma_two_complete(
    base: Seq<u8>,
    crc: u32,
    lfs: Seq<usize>,
    a: nat,
    b: nat,
    attempts: u64,
    i: int,
    j: int,
)
    requires
        a < b <= lfs.len(),
        i < j < lfs.len(),
        a < i || (a == i && b <= j),
    ensures
        unpack::inflates_to(splice::with_crs(base, seq![lfs[i], lfs[j]]), crc) ==> keep_two(
            base,
            crc,
            lfs,
            a,
            b,
            attempts,
        ).0 is Some,
    decreases lfs.len() - a, lfs.len() - b,
{
    if b >= lfs.len() {
        lemma_two_complete(base, crc, lfs, a + 1, a + 2, attempts, i, j);
    } else if a < i || b < j {
        lemma_two_complete(base, crc, lfs, a, b + 1, beam::wrap64(attempts + 1), i, j);
    }
}

/// Searches exhaustively for one carriage return, and in smaller sections for two,
/// to put back into a section so that it unpacks to contents with the given
/// checksum.
pub fn dfs_fix_section_fallback(
    base: &[u8],
    expected_crc: u32,
    lf_positions: &[usize],
    total_attempts: &mut u64,
) -> (found: Option<Vec<usize>>)
    requires
        positions::ascending(lf_positions@),
        forall|i: int|
            0 <= i < lf_positions@.len() ==> #[trigger] lf_positions@[i] < base@.len(),
    ensures
        (beam::listed(found), *final(total_attempts)) == keep_fixed(
            base@,
            expected_crc,
            lf_positions@,
            *old(total_attempts),
        ),
{
    let n: usize = lf_positions.len();
    let mut test: Vec<u8> = vstd::slice::slice_to_vec(base);
    assert(base.len() == base@.len());
    let ghost whole = keep_one(base@, expected_crc, lf_positions@, 0, *old(total_attempts));
    for j in 0..n
        invariant
            n == lf_positions@.len(),
            test@ == base@,
            base@.len() <= usize::MAX,
            forall|i: int|
                0 <= i < lf_positions@.len() ==> #[trigger] lf_positions@[i] < base@.len(),
            whole == keep_one(base@, expected_crc, lf_positions@, 0, *old(total_attempts)),
            whole == keep_one(base@, expected_crc, lf_positions@, j as nat, *total_attempts),
    {
        let pos: usize = lf_positions[j];
        *total_attempts = total_attempts.wrapping_add(1);
        test.insert(pos, CR);
        proof {
            splice::lemma_splice_one(base@, pos);
        }
        if unpack::try_decompress_check(test.as_slice(), expected_crc) {
            let put: Vec<usize> = vec![pos];
            assert(put@ =~= seq![pos]);
            return Some(put);
        }
        let cr: u8 = test.remove(pos);
        assert(test@ =~= base@);
    }
    if n > MAX_PAIR_LFS {
        return None;
    }
    let ghost pairs = keep_two(base@, expected_crc, lf_positions@, 0, 1, *total_attempts);
    for i in 0..n
        invariant
            n == lf_positions@.len(),
            n <= MAX_PAIR_LFS,
            test@ == base@,
            base@.len() <= usize::MAX,
            positions::ascending(lf_positions@),
            forall|i: int|
                0 <= i < lf_positions@.len() ==> #[trigger] lf_positions@[i] < base@.len(),
            pairs == keep_fixed(base@, expected_crc, lf_positions@, *old(total_attempts)),
            pairs == keep_two(
                base@,
                expected_crc,
                lf_positions@,
                i as nat,
                (i + 1) as nat,
                *total_attempts,
            ),
    {
        let p1: usize = lf_positions[i];
        test.insert(p1, CR);
        for j in i + 1..n
            invariant
                n == lf_positions@.len(),
                i < n,
                p1 == lf_positions@[i as int],
                base@.len() <= usize::MAX,
                test@ == base@.insert(p1 as int, CR),
                positions::ascending(lf_positions@),
                forall|i: int|
                    0 <= i < lf_positions@.len() ==> #[trigger] lf_positions@[i] < base@.len(),
                pairs == keep_fixed(base@, expected_crc, lf_positions@, *old(total_attempts)),
                pairs == keep_two(
                    base@,
                    expected_crc,
                    lf_positions@,
                    i as nat,
                    j as nat,
                    *total_attempts,
                ),
        {
            let p2: usize = lf_positions[j];
            *total_attempts = total_attempts.wrapping_add(1);
            let ghost before = test@;
            test.insert(p2 + 1, CR);
            proof {
                splice::lemma_splice_two(base@, p1, p2);
            }
            if unpack::try_decompress_check(test.as_slice(), expected_crc) {
                let put: Vec<usize> = vec![p1, p2];
                assert(put@ =~= seq![p1, p2]);
                return Some(put);
            }
            let cr: u8 = test.remove(p2 + 1);
            assert(test@ =~= before);
        }
        let cr: u8 = test.remove(p1);
        assert(test@ =~= base@);
    }
    None
}

} // verus!
