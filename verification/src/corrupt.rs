//! The damage that a text-mode transfer does.
use vstd::prelude::*;

use crate::positions;

verus! {

/// The carriage return.
pub const CR: u8 = 0x0D;

/// The line feed.
pub const LF: u8 = 0x0A;

/// A line feed stands at `i` with no carriage return in front of it.
pub open spec fn standalone_lf_at(data: Seq<u8>, i: int) -> bool {
    0 <= i < data.len() && data[i] == LF && (i == 0 || data[i - 1] != CR)
}

/// The line feeds that have no carriage return in front of them.
pub open spec fn standalone_lfs(data: Seq<u8>) -> Seq<usize> {
    positions::positions(data.len(), |i: int| standalone_lf_at(data, i))
}

/// The first `n` bytes of `data` with a carriage return put in front of each
/// standalone line feed.
pub open spec fn corrupted_upto(data: Seq<u8>, n: nat) -> Seq<u8>
    decreases n,
{
    if n == 0 {
        Seq::empty()
    } else {
        let before = corrupted_upto(data, (n - 1) as nat);
        if standalone_lf_at(data, n - 1) {
            before.push(CR).push(data[n - 1])
        } else {
            before.push(data[n - 1])
        }
    }
}

/// `data` with a carriage return put in front of each standalone line feed.
pub open spec fn corrupted(data: Seq<u8>) -> Seq<u8> {
    corrupted_upto(data, data.len())
}

/// Where the damage to the first `n` bytes ends, the byte of `data` at `n` follows,
/// behind the carriage return put in front of it, if there is one.
pub proof fn lemma_damage_at(data: Seq<u8>, n: nat)
    requires
        n < data.len(),
    ensures
        ({
            let p = corrupted_upto(data, n).len() as int;
            let c = corrupted(data);
            &&& corrupted_upto(data, n + 1).len() <= c.len()
            &&& standalone_lf_at(data, n as int) ==> c[p] == CR && c[p + 1] == data[n as int]
                && corrupted_upto(data, n + 1).len() == p + 2
            &&& !standalone_lf_at(data, n as int) ==> c[p] == data[n as int] && corrupted_upto(
                data,
                n + 1,
            ).len() == p + 1
        }),
{
    lemma_damage_prefix(data, n + 1, data.len());
    let next = corrupted_upto(data, n + 1);
    let p = corrupted_upto(data, n).len() as int;
    assert(corrupted(data).take(next.len() as int)[p] == next[p]);
    if standalone_lf_at(data, n as int) {
        assert(corrupted(data).take(next.len() as int)[p + 1] == next[p + 1]);
    }
}

/// The damage to more bytes continues the damage to fewer.
pub proof fn lemma_damage_prefix(data: Seq<u8>, n: nat, m: nat)
    requires
        n <= m,
    ensures
        corrupted_upto(data, n).len() + (m - n) <= corrupted_upto(data, m).len(),
        corrupted_upto(data, m).take(corrupted_upto(data, n).len() as int) == corrupted_upto(
            data,
            n,
        ),
    decreases m,
{
    let a = corrupted_upto(data, n);
    let b = corrupted_upto(data, m);
    if n < m {
        lemma_damage_prefix(data, n, (m - 1) as nat);
        let c = corrupted_upto(data, (m - 1) as nat);
        assert(b.take(a.len() as int) =~= c.take(a.len() as int));
    } else {
        assert(b.take(a.len() as int) =~= a);
    }
}

/// Every byte of damaged data comes from a byte of the data: it is that byte, or the
/// carriage return put in front of it.
pub proof fn lemma_damage_origin(data: Seq<u8>, p: int) -> (n: nat)
    requires
        0 <= p < corrupted(data).len(),
    ensures
        n < data.len(),
        corrupted_upto(data, n).len() <= p < corrupted_upto(data, n + 1).len(),
{
    lemma_origin_upto(data, p, data.len())
}

proof fn lemma_origin_upto(data: Seq<u8>, p: int, m: nat) -> (n: nat)
    requires
        0 <= p < corrupted_upto(data, m).len(),
    ensures
        n < m,
        corrupted_upto(data, n).len() <= p < corrupted_upto(data, n + 1).len(),
    decreases m,
{
    if p < corrupted_upto(data, (m - 1) as nat).len() {
        lemma_origin_upto(data, p, (m - 1) as nat)
    } else {
        (m - 1) as nat
    }
}

/// Damaged data has no line feed without a carriage return in front of it.
pub proof fn law_damage_is_complete(data: Seq<u8>, i: int)
    ensures
        !standalone_lf_at(corrupted(data), i),
{
    let c = corrupted(data);
    if standalone_lf_at(c, i) {
        let n = lemma_damage_origin(data, i);
        lemma_damage_at(data, n);
        if !standalone_lf_at(data, n as int) {
            lemma_damage_at(data, (n - 1) as nat);
        }
    }
}

/// After the damage every line feed has a carriage return right in front of it.
pub proof fn law_every_line_feed_gets_a_carriage_return(data: Seq<u8>)
    ensures
        forall|i: int|
            0 <= i < corrupted(data).len() && #[trigger] corrupted(data)[i] == 0x0A ==> i > 0
                && corrupted(data)[i - 1] == 0x0D,
{
    let c = corrupted(data);
    assert forall|i: int| 0 <= i < c.len() && #[trigger] c[i] == 0x0A implies i > 0 && c[i - 1]
        == 0x0D by {
        law_damage_is_complete(data, i);
    }
}

/// The listed line feeds are, in order, just the line feeds that stand at the very front or
/// behind another byte than a carriage return.
pub proof fn law_standalone_line_feeds_are_listed(data: Seq<u8>)
    requires
        data.len() <= usize::MAX,
    ensures
        forall|i: int, j: int|
            0 <= i < j < standalone_lfs(data).len() ==> standalone_lfs(data)[i]
                < standalone_lfs(data)[j],
        forall|i: usize|
            #[trigger] standalone_lfs(data).contains(i) <==> i < data.len() && data[i as int] == 0x0A
                && (i == 0 || data[i - 1] != 0x0D),
{
    let hit = |i: int| standalone_lf_at(data, i);
    let all = standalone_lfs(data);
    positions::lemma_positions(data.len(), hit);
    assert forall|i: usize|
        #[trigger] all.contains(i) <==> i < data.len() && data[i as int] == 0x0A && (i == 0
            || data[i - 1] != 0x0D) by {
        if all.contains(i) {
            let k = choose|k: int| 0 <= k < all.len() && all[k] == i;
            assert(hit(all[k] as int));
        }
        if standalone_lf_at(data, i as int) {
            assert(hit(i as int));
            assert(all.contains((i as int) as usize));
        }
    }
}

/// How many of the first `n` bytes are line feeds without a carriage return in front of
/// them.
pub open spec fn bare_line_feeds(data: Seq<u8>, n: nat) -> nat
    decreases n,
{
    if n == 0 {
        0
    } else if data[n - 1] == 0x0A && (n == 1 || data[n - 2] != 0x0D) {
        bare_line_feeds(data, (n - 1) as nat) + 1
    } else {
        bare_line_feeds(data, (n - 1) as nat)
    }
}

/// The damage adds one byte for each line feed without a carriage return in front of it,
/// moves every byte by as many places as it adds in front of it, and changes none.
pub proof fn law_damage_moves_bytes(data: Seq<u8>)
    ensures
        corrupted(data).len() == data.len() + bare_line_feeds(data, data.len()),
        forall|n: int|
            0 <= n < data.len() ==> {
                let at = n + bare_line_feeds(data, (n + 1) as nat);
                0 <= at < corrupted(data).len() && corrupted(data)[at] == #[trigger] data[n]
            },
{
    lemma_moved(data, data.len());
    assert forall|n: int| 0 <= n < data.len() implies {
        let at = n + bare_line_feeds(data, (n + 1) as nat);
        0 <= at < corrupted(data).len() && corrupted(data)[at] == #[trigger] data[n]
    } by {
        lemma_moved(data, n as nat);
        lemma_moved(data, (n + 1) as nat);
        lemma_damage_at(data, n as nat);
    }
}

/// The damage to the first `n` bytes adds as many as there are line feeds without a carriage
/// return in front of them.
pub proof fn lemma_moved(data: Seq<u8>, n: nat)
    requires
        n <= data.len(),
    ensures
        corrupted_upto(data, n).len() == n + bare_line_feeds(data, n),
    decreases n,
{
    if n > 0 {
        lemma_moved(data, (n - 1) as nat);
    }
}

/// A second transfer does no further damage.
pub proof fn law_damage_once(data: Seq<u8>)
    ensures
        corrupted(corrupted(data)) == corrupted(data),
{
    let c = corrupted(data);
    assert forall|i: int| !standalone_lf_at(c, i) by {
        law_damage_is_complete(data, i);
    }
    lemma_undamaged(c, c.len());
}

proof fn lemma_undamaged(data: Seq<u8>, n: nat)
    requires
        n <= data.len(),
        forall|i: int| !standalone_lf_at(data, i),
    ensures
        corrupted_upto(data, n) == data.take(n as int),
    decreases n,
{
    if n > 0 {
        lemma_undamaged(data, (n - 1) as nat);
        assert(data.take(n as int) =~= data.take(n - 1).push(data[n - 1]));
    } else {
        assert(data.take(0) =~= Seq::empty());
    }
    assert(data.take(data.len() as int) =~= data);
}

/// Damaged data is longer by one byte for each line feed without a carriage return in
/// front of it.
pub proof fn law_damage_length(data: Seq<u8>)
    ensures
        corrupted(data).len() == data.len() + standalone_lfs(data).len(),
{
    lemma_damage_length(data, data.len());
}

proof fn lemma_damage_length(data: Seq<u8>, n: nat)
    ensures
        corrupted_upto(data, n).len() == n + positions::positions(
            n,
            |i: int| standalone_lf_at(data, i),
        ).len(),
    decreases n,
{
    if n > 0 {
        lemma_damage_length(data, (n - 1) as nat);
    }
}

/// Puts a carriage return in front of each line feed that has none.
pub fn corrupt(data: &[u8]) -> (result: Vec<u8>)
    ensures
        result@ == corrupted(data@),
        forall|i: int|
            0 <= i < result@.len() && #[trigger] result@[i] == 0x0A ==> i > 0 && result@[i - 1]
                == 0x0D,
{
    proof {
        law_every_line_feed_gets_a_carriage_return(data@);
    }
    let mut result: Vec<u8> = Vec::new();
    for i in 0..data.len()
        invariant
            result@ == corrupted_upto(data@, i as nat),
    {
        if data[i] == LF && (i == 0 || data[i - 1] != CR) {
            result.push(CR);
        }
        result.push(data[i]);
    }
    result
}

/// The positions of the line feeds that have no carriage return in front of them.
pub fn find_standalone_lf(data: &[u8]) -> (found: Vec<usize>)
    ensures
        found@ == standalone_lfs(data@),
        forall|i: usize|
            #[trigger] found@.contains(i) <==> i < data@.len() && data@[i as int] == 0x0A && (i == 0
                || data@[i - 1] != 0x0D),
{
    let mut found: Vec<usize> = Vec::new();
    for i in 0..data.len()
        invariant
            found@ == positions::positions(i as nat, |k: int| standalone_lf_at(data@, k)),
    {
        if data[i] == LF && (i == 0 || data[i - 1] != CR) {
            found.push(i);
        }
    }
    assert(data.len() == data@.len());
    assert(found@ == standalone_lfs(data@));
    proof {
        law_standalone_line_feeds_are_listed(data@);
    }
    found
}

} // verus!
