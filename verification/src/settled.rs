//! What settling the headers does for headers that were sound before the damage.
use vstd::prelude::*;

use crate::bytes;
use crate::corrupt;
use crate::directory;
use crate::headers;
use crate::headers::FieldsModel;
use crate::positions;
use crate::recover;
use crate::zip_util;

verus! {

/// Where in the damaged data the byte of `data` at `n`, or the carriage return put in front
/// of it, stands.
pub open spec fn moved(data: Seq<u8>, n: int) -> int {
    n + corrupt::bare_line_feeds(data, n as nat)
}

/// How far behind the local header at `p` the packed contents begin.
pub open spec fn contents_at(data: Seq<u8>, p: int) -> int {
    p + 30 + bytes::u16_at(data, p + 26) + bytes::u16_at(data, p + 28)
}

/// One of the marks that stand behind an entry's contents stands at `i`.
pub open spec fn next_mark_at(data: Seq<u8>, i: int) -> bool {
    directory::mark_at(data, i, 3, 4) || directory::mark_at(data, i, 1, 2) || directory::mark_at(
        data,
        i,
        7,
        8,
    )
}

/// A sound local header stands at `p`: its version and method are ones that archives have,
/// it has a name, name and extra field are not too long and hold no line feed, and behind
/// its contents stands the next mark.
pub open spec fn sound_header_at(data: Seq<u8>, p: int) -> bool {
    let version = bytes::u16_at(data, p + 4);
    let method = bytes::u16_at(data, p + 8);
    let name_len = bytes::u16_at(data, p + 26);
    let extra_len = bytes::u16_at(data, p + 28);
    let start = contents_at(data, p);
    &&& directory::mark_at(data, p, 3, 4)
    &&& version == 10 || version == 20 || version == 45
    &&& method == 0 || method == 8
    &&& 1 <= name_len <= 512
    &&& extra_len <= 512
    &&& next_mark_at(data, start + bytes::u32_at(data, p + 18))
    &&& forall|i: int| p + 30 <= i < start ==> #[trigger] data[i] != 0x0A
    &&& !(data[start - 1] == 0x0D && data[start] == 0x0A)
}

/// The byte at `q` of the damaged data is a carriage return that stood in front of a line
/// feed in the fields of the header at `p` all along.
pub open spec fn own_pair(data: Seq<u8>, p: int, q: int) -> bool {
    exists|n: int|
        p + 4 <= n < p + 29 && data[n] == 0x0D && data[n + 1] == 0x0A && q == #[trigger] moved(
            data,
            n,
        )
}

/// The fields of the header that stood at `p` before the damage.
pub open spec fn damaged_fields(data: Seq<u8>, p: int) -> FieldsModel {
    let c = corrupt::corrupted(data);
    headers::fields_of(c, zip_util::crlfs(c), moved(data, p))
}

proof fn lemma_moved_is(data: Seq<u8>, n: nat)
    requires
        n <= data.len(),
    ensures
        moved(data, n as int) == corrupt::corrupted_upto(data, n).len(),
{
    corrupt::lemma_moved(data, n);
}

/// One byte further.
proof fn lemma_step(data: Seq<u8>, n: int)
    requires
        0 <= n < data.len(),
    ensures
        ({
            let c = corrupt::corrupted(data);
            let q = moved(data, n);
            if data[n] == 0x0A && (n == 0 || data[n - 1] != 0x0D) {
                &&& moved(data, n + 1) == q + 2
                &&& c[q] == 0x0D && c[q + 1] == 0x0A
            } else {
                &&& moved(data, n + 1) == q + 1
                &&& c[q] == data[n]
            }
        }),
        0 <= moved(data, n) < moved(data, n + 1) <= corrupt::corrupted(data).len(),
{
    corrupt::lemma_damage_at(data, n as nat);
    lemma_moved_is(data, n as nat);
    lemma_moved_is(data, (n + 1) as nat);
}

/// The damaged data has a pair for every carriage return that was put in.
proof fn lemma_put_in_are_counted(data: Seq<u8>, m: int, n: int)
    requires
        0 <= m <= n <= data.len(),
        corrupt::corrupted(data).len() <= usize::MAX,
    ensures
        ({
            let crlf = zip_util::crlfs(corrupt::corrupted(data));
            positions::rank(crlf, moved(data, n)) - positions::rank(crlf, moved(data, m)) >= (moved(
                data,
                n,
            ) - moved(data, m)) - (n - m)
        }),
    decreases n - m,
{
    if m < n {
        let c = corrupt::corrupted(data);
        let crlf = zip_util::crlfs(c);
        let q = moved(data, n - 1);
        lemma_put_in_are_counted(data, m, n - 1);
        lemma_step(data, n - 1);
        recover::lemma_crlfs(c);
        positions::lemma_rank_grows(crlf, q, moved(data, n));
        if moved(data, n) == q + 2 {
            assert(zip_util::crlf_at(c, q));
            assert(crlf.contains(q as usize));
            let k = choose|k: int| 0 <= k < crlf.len() && crlf[k] == q as usize;
            positions::lemma_rank_is_index(crlf, k);
            positions::lemma_next_rank(crlf, q);
            positions::lemma_rank_grows(crlf, q + 1, q + 2);
        }
    }
}

/// Without a line feed nothing is put in.
proof fn lemma_nothing_put_in(data: Seq<u8>, m: int, n: int)
    requires
        0 <= m <= n <= data.len(),
        forall|i: int| m <= i < n ==> #[trigger] data[i] != 0x0A,
    ensures
        moved(data, n) == moved(data, m) + (n - m),
    decreases n - m,
{
    if m < n {
        lemma_nothing_put_in(data, m, n - 1);
        lemma_step(data, n - 1);
        assert(data[n - 1] != 0x0A);
    }
}

/// The choice with the given bits.
pub proof fn lemma_choice(f: spec_fn(int) -> bool, n: nat) -> (choice: u32)
    requires
        n <= 31,
    ensures
        choice < 1u32 << (n as u32),
        forall|b: int| 0 <= b < n ==> #[trigger] headers::bit(choice, b) == f(b),
    decreases n,
{
    if n == 0 {
        assert(0u32 < 1u32 << 0u32) by (bit_vector);
        0
    } else {
        let m = (n - 1) as u32;
        let before = lemma_choice(f, (n - 1) as nat);
        let with = before | (1u32 << m);
        assert(before < (1u32 << m) && m < 31 ==> before < (1u32 << ((m + 1) as u32))) by (bit_vector);
        assert(before < (1u32 << m) && m < 31 ==> (before | (1u32 << m)) < (1u32 << ((m + 1) as u32)))
            by (bit_vector);
        assert(before < (1u32 << m) && m < 31 ==> (before >> m) & 1 == 0) by (bit_vector);
        assert(m < 31 ==> ((before | (1u32 << m)) >> m) & 1 == 1) by (bit_vector);
        let choice = if f(n - 1) {
            with
        } else {
            before
        };
        assert forall|b: int| 0 <= b < n implies #[trigger] headers::bit(choice, b) == f(b) by {
            let c = b as u32;
            if b < n - 1 {
                assert(headers::bit(before, b) == f(b));
                assert(c < m && m < 31 ==> ((before | (1u32 << m)) >> c) & 1 == (before >> c) & 1)
                    by (bit_vector);
            }
        }
        choice
    }
}

/// The pair at `q` of the damaged data, which lies in the header's fields, was put in or is
/// the header's own.
proof fn lemma_pair_in_fields(data: Seq<u8>, p: int, n: int)
    requires
        corrupt::corrupted(data).len() <= usize::MAX,
        sound_header_at(data, p),
        p + 4 <= n < p + 30,
    ensures
        ({
            let c = corrupt::corrupted(data);
            let q = moved(data, n);
            let put_in = moved(data, n + 1) == q + 2;
            &&& n < data.len()
            &&& put_in ==> zip_util::crlf_at(c, q) && !own_pair(data, p, q)
                && !zip_util::crlf_at(c, q + 1)
            &&& !put_in && zip_util::crlf_at(c, q) ==> own_pair(data, p, q)
        }),
{
    let c = corrupt::corrupted(data);
    let q = moved(data, n);
    lemma_step(data, n);
    if moved(data, n + 1) == q + 2 {
        if own_pair(data, p, q) {
            let o = choose|o: int|
                p + 4 <= o < p + 29 && data[o] == 0x0D && data[o + 1] == 0x0A && q
                    == #[trigger] moved(data, o);
            lemma_moved_grows(data, o, n);
            lemma_moved_grows(data, n, o);
        }
    } else if zip_util::crlf_at(c, q) {
        lemma_step(data, n + 1);
        assert(data[p + 30] != 0x0A);
        assert(data[n] == 0x0D);
        assert(data[n + 1] == 0x0A);
        assert(own_pair(data, p, q));
    }
}

proof fn lemma_moved_grows(data: Seq<u8>, m: int, n: int)
    requires
        0 <= m,
        n <= data.len(),
    ensures
        m <= n ==> moved(data, n) - moved(data, m) >= n - m,
    decreases n - m,
{
    if m < n {
        lemma_step(data, n - 1);
        lemma_moved_grows(data, m, n - 1);
    }
}

/// The fields end inside the region that is searched.
proof fn lemma_fields_in_region(data: Seq<u8>, p: int)
    requires
        corrupt::corrupted(data).len() <= usize::MAX,
        sound_header_at(data, p),
        damaged_fields(data, p).hi - damaged_fields(data, p).lo <= 12,
    ensures
        moved(data, p + 4) == moved(data, p) + 4,
        moved(data, p + 30) <= moved(data, p) + 46,
        p + 30 < data.len(),
{
    let c = corrupt::corrupted(data);
    let crlf = zip_util::crlfs(c);
    let at = moved(data, p) + 4;
    assert(data[p + 4 - 4] == 0x50);
    assert forall|i: int| p <= i < p + 4 implies #[trigger] data[i] != 0x0A by {}
    lemma_nothing_put_in(data, p, p + 4);
    recover::lemma_crlfs(c);
    if moved(data, p + 30) > at + 42 {
        let q = at + 41;
        lemma_step(data, p + 29);
        let n = corrupt::lemma_damage_origin(data, q) as int;
        lemma_moved_is(data, n as nat);
        lemma_moved_is(data, (n + 1) as nat);
        lemma_step(data, n);
        lemma_moved_grows(data, n, p + 4);
        lemma_moved_grows(data, n + 1, p + 4);
        lemma_moved_grows(data, p + 30, n);
        assert(p + 4 <= n < p + 30);
        lemma_put_in_are_counted(data, p + 4, n);
        positions::lemma_rank_grows(crlf, moved(data, n), at + 42);
    }
}

/// Under the choice that keeps just the header's own pairs the fields are read as they were.
proof fn lemma_read(data: Seq<u8>, p: int, choice: u32, n: int)
    requires
        corrupt::corrupted(data).len() <= usize::MAX,
        sound_header_at(data, p),
        damaged_fields(data, p).hi - damaged_fields(data, p).lo <= 12,
        keeps_own(data, p, choice),
        p + 4 <= n <= p + 30,
    ensures
        damaged_fields(data, p).read(choice, moved(data, n), data.subrange(p + 4, n)) == (
            data.subrange(p + 4, p + 30),
            moved(data, p + 30),
        ),
    decreases p + 30 - n,
{
    let c = corrupt::corrupted(data);
    let got = data.subrange(p + 4, n);
    let q = moved(data, n);
    lemma_fields_in_region(data, p);
    if n < p + 30 {
        lemma_read(data, p, choice, n + 1);
        lemma_step(data, n);
        lemma_pair_in_fields(data, p, n);
        recover::lemma_crlfs(c);
        assert(got.push(data[n]) =~= data.subrange(p + 4, n + 1));
        lemma_moved_grows(data, n, p + 30);
        lemma_moved_grows(data, p + 4, n);
        lemma_skipped(data, p, choice, q);
        if moved(data, n + 1) == q + 2 {
            lemma_moved_grows(data, n + 1, p + 30);
            lemma_skipped(data, p, choice, q + 1);
        }
        reveal_with_fuel(FieldsModel::read, 3);
    } else {
        assert(got.len() == 26);
    }
}

/// What is passed over when the fields are read.
proof fn lemma_skipped(data: Seq<u8>, p: int, choice: u32, q: int)
    requires
        corrupt::corrupted(data).len() <= usize::MAX,
        keeps_own(data, p, choice),
        moved(data, p) + 4 <= q < moved(data, p) + 46,
        q < corrupt::corrupted(data).len(),
    ensures
        damaged_fields(data, p).skipped(choice, q) <==> zip_util::crlf_at(
            corrupt::corrupted(data),
            q,
        ) && !own_pair(data, p, q),
{
    let c = corrupt::corrupted(data);
    let crlf = zip_util::crlfs(c);
    let fields = damaged_fields(data, p);
    recover::lemma_crlfs(c);
    let k = positions::rank(crlf, q) as int;
    positions::lemma_rank(crlf, q);
    let end = if moved(data, p) + 46 < c.len() {
        moved(data, p) + 46
    } else {
        c.len() as int
    };
    positions::lemma_rank_grows(crlf, fields.start, q);
    positions::lemma_rank_grows(crlf, q + 1, end);
    positions::lemma_next_rank(crlf, q);
    if zip_util::crlf_at(c, q) {
        assert(crlf.contains(q as usize));
        let m = choose|m: int| 0 <= m < crlf.len() && crlf[m] == q as usize;
        positions::lemma_rank_is_index(crlf, m);
        assert(fields.lo <= k < fields.hi);
    }
    if k < crlf.len() && crlf[k] == q {
        assert(zip_util::crlf_at(c, crlf[k] as int));
    }
}

/// The choice keeps just the header's own pairs.
pub open spec fn keeps_own(data: Seq<u8>, p: int, choice: u32) -> bool {
    let fields = damaged_fields(data, p);
    forall|k: int|
        fields.lo <= k < fields.hi ==> (#[trigger] fields.kept(choice, k) <==> own_pair(
            data,
            p,
            fields.crlf[k] as int,
        ))
}

/// A mark stays a mark.
proof fn lemma_mark_moves(data: Seq<u8>, i: int, third: u8, fourth: u8)
    requires
        directory::mark_at(data, i, third, fourth),
        third != 0x0A,
        fourth != 0x0A,
    ensures
        directory::mark_at(corrupt::corrupted(data), moved(data, i), third, fourth),
        headers::pk_at(corrupt::corrupted(data), moved(data, i), third, fourth),
{
    let c = corrupt::corrupted(data);
    let q = moved(data, i);
    lemma_step(data, i);
    lemma_step(data, i + 1);
    lemma_step(data, i + 2);
    lemma_step(data, i + 3);
    assert(c.subrange(q, q + 4) =~= seq![0x50u8, 0x4Bu8, third, fourth]);
}

/// Name and extra field have no pair.
proof fn lemma_no_pair_in_names(data: Seq<u8>, p: int)
    requires
        corrupt::corrupted(data).len() <= usize::MAX,
        sound_header_at(data, p),
    ensures
        ({
            let crlf = zip_util::crlfs(corrupt::corrupted(data));
            let start = contents_at(data, p);
            &&& positions::rank(crlf, moved(data, p + 30)) == positions::rank(
                crlf,
                moved(data, start),
            )
            &&& moved(data, start) == moved(data, p + 30) + (start - (p + 30))
        }),
{
    let c = corrupt::corrupted(data);
    let crlf = zip_util::crlfs(c);
    let start = contents_at(data, p);
    let from = moved(data, p + 30);
    let to = moved(data, start);
    lemma_nothing_put_in(data, p + 30, start);
    recover::lemma_crlfs(c);
    positions::lemma_rank(crlf, from);
    positions::lemma_rank(crlf, to);
    positions::lemma_rank_grows(crlf, from, to);
    let k = positions::rank(crlf, from) as int;
    if k < positions::rank(crlf, to) {
        let q = crlf[k] as int;
        let n = p + 30 + (q - from);
        assert(zip_util::crlf_at(c, q));
        assert(p + 30 <= n < start);
        lemma_nothing_put_in(data, p + 30, n);
        lemma_step(data, n);
        lemma_step(data, n + 1);
        assert(data[n] != 0x0A);
        assert(data[n] == 0x0D);
        if n + 1 < start {
            assert(data[n + 1] != 0x0A);
        }
    }
}

/// The contents of a sound header are followed by a mark, as far behind them as the
/// carriage returns put into them account for.
proof fn lemma_followed(data: Seq<u8>, p: int)
    requires
        corrupt::corrupted(data).len() <= usize::MAX,
        sound_header_at(data, p),
    ensures
        ({
            let c = corrupt::corrupted(data);
            let size = bytes::u32_at(data, p + 18);
            let end = moved(data, contents_at(data, p));
            &&& end + size <= c.len()
            &&& damaged_fields(data, p).followed(end, size)
        }),
{
    let c = corrupt::corrupted(data);
    let start = contents_at(data, p);
    let size = bytes::u32_at(data, p + 18);
    let next = start + size;
    let q = moved(data, next);
    let hit = |i: int| headers::signature_at(c, i);
    if directory::mark_at(data, next, 3, 4) {
        lemma_mark_moves(data, next, 3, 4);
    } else if directory::mark_at(data, next, 1, 2) {
        lemma_mark_moves(data, next, 1, 2);
    } else {
        lemma_mark_moves(data, next, 7, 8);
    }
    lemma_moved_grows(data, start, next);
    assert(hit(q));
    positions::lemma_positions(c.len(), hit);
    let sigs = damaged_fields(data, p).sigs;
    assert(sigs.contains(q as usize));
    let j = choose|j: int| 0 <= j < sigs.len() && sigs[j] == q as usize;
    lemma_put_in_are_counted(data, start, next);
}

/// A sound header is believed after the damage under the choice that keeps just the pairs
/// which its fields had all along, and is read there as it was.
pub proof fn law_sound_header_is_believed(data: Seq<u8>, p: int) -> (choice: u32)
    requires
        corrupt::corrupted(data).len() <= usize::MAX,
        sound_header_at(data, p),
        damaged_fields(data, p).hi - damaged_fields(data, p).lo <= 12,
    ensures
        keeps_own(data, p, choice),
        choice < damaged_fields(data, p).choices(),
        damaged_fields(data, p).believes(choice),
        damaged_fields(data, p).read(choice, moved(data, p) + 4, Seq::empty()).0 == data.subrange(
            p + 4,
            p + 30,
        ),
{
    let fields = damaged_fields(data, p);
    let own = |b: int| own_pair(data, p, fields.crlf[fields.lo + b] as int);
    lemma_fields_in_region(data, p);
    lemma_region(data, p);
    lemma_moved_grows(data, p, p + 30);
    lemma_step(data, p + 29);
    let choice = lemma_choice(own, (fields.hi - fields.lo) as nat);
    assert forall|k: int| fields.lo <= k < fields.hi implies (#[trigger] fields.kept(choice, k)
        <==> own_pair(data, p, fields.crlf[k] as int)) by {
        assert(headers::bit(choice, k - fields.lo) == own(k - fields.lo));
    }
    lemma_read(data, p, choice, p + 4);
    let got = data.subrange(p + 4, p + 30);
    assert(data.subrange(p + 4, p + 4) =~= Seq::<u8>::empty());
    assert(got[0] == data[p + 4] && got[1] == data[p + 5]);
    assert(got[4] == data[p + 8] && got[5] == data[p + 9]);
    assert(got[14] == data[p + 18] && got[15] == data[p + 19] && got[16] == data[p + 20] && got[17]
        == data[p + 21]);
    assert(got[22] == data[p + 26] && got[23] == data[p + 27]);
    assert(got[24] == data[p + 28] && got[25] == data[p + 29]);
    assert forall|k: int| #[trigger]
        fields.kept(choice, k) && k < fields.crlf.len() implies fields.crlf[k] < moved(
        data,
        p + 30,
    ) by {
        assert(own_pair(data, p, fields.crlf[k] as int));
        let n = choose|n: int|
            p + 4 <= n < p + 29 && data[n] == 0x0D && data[n + 1] == 0x0A && fields.crlf[k]
                == #[trigger] moved(data, n);
        lemma_moved_grows(data, n, p + 30);
    }
    lemma_no_pair_in_names(data, p);
    lemma_followed(data, p);
    choice
}

/// The bits of the choice that are set, below `n`.
pub open spec fn set_bits(choice: u32, n: nat) -> Seq<usize> {
    positions::positions(n, |b: int| (choice >> (b as u32)) & 1 == 1)
}

proof fn lemma_ones(choice: u32, n: nat)
    ensures
        headers::ones(choice, n) == set_bits(choice, n).len(),
    decreases n,
{
    if n > 0 {
        lemma_ones(choice, (n - 1) as nat);
    }
}

/// Where a choice is believed there is a first one.
proof fn lemma_first_exists(fields: FieldsModel, choice: u32) -> (first: u32)
    requires
        choice < fields.choices(),
        fields.believes(choice),
    ensures
        fields.is_first(first),
    decreases headers::ones(choice, (fields.hi - fields.lo) as nat), choice,
{
    if exists|other: u32|
        other < fields.choices() && #[trigger] fields.believes(other) && fields.before(
            other,
            choice,
        ) {
        let other = choose|other: u32|
            other < fields.choices() && #[trigger] fields.believes(other) && fields.before(
                other,
                choice,
            );
        lemma_first_exists(fields, other)
    } else {
        assert(fields.is_first(choice));
        choice
    }
}

/// The choice made for a header is one that is believed, and it keeps as few pairs as any
/// that is; among those that keep as few it is the smallest number.
pub proof fn law_fewest_are_kept(fields: FieldsModel, believed: u32)
    requires
        believed < fields.choices(),
        fields.believes(believed),
    ensures
        ({
            let n = (fields.hi - fields.lo) as nat;
            &&& fields.first() matches Some(first)
            &&& first < fields.choices()
            &&& fields.believes(first)
            &&& set_bits(first, n).len() <= set_bits(believed, n).len()
            &&& set_bits(first, n).len() == set_bits(believed, n).len() ==> first <= believed
        }),
{
    let n = (fields.hi - fields.lo) as nat;
    let some = lemma_first_exists(fields, believed);
    assert(fields.is_first(some));
    let first = choose|choice: u32| #[trigger] fields.is_first(choice);
    assert(fields.is_first(first));
    assert(fields.first() == Some(first));
    lemma_ones(first, n);
    lemma_ones(believed, n);
}

/// Without a choice that is believed nothing is kept.
pub proof fn law_nothing_is_kept_unbelieved(data: Seq<u8>, crlf: Seq<usize>, sig: int, k: int)
    requires
        headers::kept_for(data, crlf, sig, k),
    ensures
        ({
            let fields = headers::fields_of(data, crlf, sig);
            exists|choice: u32|
                choice < fields.choices() && #[trigger] fields.believes(choice) && fields.kept(
                    choice,
                    k,
                )
        }),
{
    let fields = headers::fields_of(data, crlf, sig);
    let some = choose|choice: u32|
        choice < fields.choices() && #[trigger] fields.believes(choice);
    law_fewest_are_kept(fields, some);
    let first = fields.first()->0;
    assert(fields.believes(first));
}

/// The choice that keeps just the pairs of a sound header is made if none is believed that
/// keeps fewer, or as many and is a smaller number: then just those pairs are kept.
pub proof fn law_sound_header_keeps_its_pairs(data: Seq<u8>, p: int, choice: u32)
    requires
        corrupt::corrupted(data).len() <= usize::MAX,
        sound_header_at(data, p),
        damaged_fields(data, p).hi - damaged_fields(data, p).lo <= 12,
        keeps_own(data, p, choice),
        choice < damaged_fields(data, p).choices(),
        ({
            let fields = damaged_fields(data, p);
            let n = (fields.hi - fields.lo) as nat;
            forall|other: u32|
                other < fields.choices() && #[trigger] fields.believes(other) ==> set_bits(
                    choice,
                    n,
                ).len() < set_bits(other, n).len() || set_bits(choice, n).len() == set_bits(
                    other,
                    n,
                ).len() && choice <= other
        }),
    ensures
        ({
            let c = corrupt::corrupted(data);
            let crlf = zip_util::crlfs(c);
            let fields = damaged_fields(data, p);
            forall|k: int|
                fields.lo <= k < fields.hi ==> {
                    &&& #[trigger] headers::kept_for(c, crlf, moved(data, p), k) <==> own_pair(
                        data,
                        p,
                        crlf[k] as int,
                    )
                    &&& own_pair(data, p, crlf[k] as int) ==> headers::header_kept(
                        c,
                        crlf,
                    ).contains(k as usize)
                }
        }),
{
    let c = corrupt::corrupted(data);
    let crlf = zip_util::crlfs(c);
    let fields = damaged_fields(data, p);
    let sig = moved(data, p);
    let own = law_sound_header_is_believed(data, p);
    lemma_region(data, p);
    lemma_same_choice(data, p, own, choice);
    law_fewest_are_kept(fields, own);
    assert(fields.first() == Some(choice));
    lemma_mark_moves(data, p, 3, 4);
    recover::lemma_crlfs(c);
    let hit = |k: int| headers::kept_for_any(c, crlf, k);
    positions::lemma_positions(crlf.len(), hit);
    assert forall|k: int| fields.lo <= k < fields.hi implies {
        &&& #[trigger] headers::kept_for(c, crlf, sig, k) <==> own_pair(data, p, crlf[k] as int)
        &&& own_pair(data, p, crlf[k] as int) ==> headers::header_kept(c, crlf).contains(k as usize)
    } by {
        assert(fields.kept(choice, k) <==> own_pair(data, p, crlf[k] as int));
        if own_pair(data, p, crlf[k] as int) {
            assert(headers::kept_for(c, crlf, sig, k));
            assert(hit(k));
        }
    }
}

/// The pairs that may stand in the fields.
proof fn lemma_region(data: Seq<u8>, p: int)
    requires
        corrupt::corrupted(data).len() <= usize::MAX,
        sound_header_at(data, p),
    ensures
        0 <= damaged_fields(data, p).lo <= damaged_fields(data, p).hi <= damaged_fields(
            data,
            p,
        ).crlf.len(),
        moved(data, p) + 4 < corrupt::corrupted(data).len(),
{
    let c = corrupt::corrupted(data);
    let fields = damaged_fields(data, p);
    let end = if moved(data, p) + 46 < c.len() {
        moved(data, p) + 46
    } else {
        c.len() as int
    };
    recover::lemma_crlfs(c);
    lemma_moved_grows(data, p, p + 30);
    lemma_step(data, p + 29);
    positions::lemma_rank_grows(fields.crlf, fields.start, end);
    positions::lemma_rank(fields.crlf, end);
}

/// Two choices that keep the same pairs are the same.
proof fn lemma_same_choice(data: Seq<u8>, p: int, a: u32, b: u32)
    requires
        keeps_own(data, p, a),
        keeps_own(data, p, b),
        0 <= damaged_fields(data, p).hi - damaged_fields(data, p).lo <= 12,
        a < damaged_fields(data, p).choices(),
        b < damaged_fields(data, p).choices(),
    ensures
        a == b,
{
    let fields = damaged_fields(data, p);
    let n = (fields.hi - fields.lo) as nat;
    assert forall|i: int| 0 <= i < n implies headers::bit(a, i) == #[trigger] headers::bit(b, i) by {
        assert(fields.kept(a, fields.lo + i) == fields.kept(b, fields.lo + i));
    }
    lemma_same_bits(a, b, n);
}

proof fn lemma_same_bits(a: u32, b: u32, n: nat)
    requires
        n <= 31,
        a < 1u32 << (n as u32),
        b < 1u32 << (n as u32),
        forall|i: int| 0 <= i < n ==> headers::bit(a, i) == #[trigger] headers::bit(b, i),
    ensures
        a == b,
    decreases n,
{
    if n == 0 {
        assert(1u32 << 0u32 == 1u32) by (bit_vector);
    } else {
        let m = (n - 1) as u32;
        let low = ((1u32 << m) - 1) as u32;
        let c = a & low;
        let d = b & low;
        assert(m < 31 && low == (1u32 << m) - 1 ==> (a & low) < (1u32 << m) && (b & low) < (1u32 << m))
            by (bit_vector);
        assert(0 < (1u32 << m)) by (bit_vector)
            requires
                m < 31,
        ;
        assert forall|i: int| 0 <= i < n - 1 implies headers::bit(c, i) == #[trigger] headers::bit(
            d,
            i,
        ) by {
            assert(headers::bit(a, i) == headers::bit(b, i));
            let j = i as u32;
            assert(j < m && m < 31 && low == (1u32 << m) - 1 ==> ((a & low) >> j) & 1 == (a >> j) & 1
                && ((b & low) >> j) & 1 == (b >> j) & 1) by (bit_vector);
        }
        lemma_same_bits(c, d, (n - 1) as nat);
        assert(headers::bit(a, n - 1) == headers::bit(b, n - 1));
        assert(a == b) by (bit_vector)
            requires
                m < 31,
                low == (1u32 << m) - 1,
                a & low == b & low,
                a < 1u32 << ((m + 1) as u32),
                b < 1u32 << ((m + 1) as u32),
                ((a >> m) & 1 == 1) == ((b >> m) & 1 == 1),
        ;
    }
}

/// For a sound header that had no pair in its fields nothing is kept.
pub proof fn law_header_without_pairs_keeps_none(data: Seq<u8>, p: int)
    requires
        corrupt::corrupted(data).len() <= usize::MAX,
        sound_header_at(data, p),
        forall|n: int|
            p + 4 <= n < p + 29 ==> !(#[trigger] data[n] == 0x0D && data[n + 1] == 0x0A),
    ensures
        ({
            let c = corrupt::corrupted(data);
            forall|k: int| !#[trigger] headers::kept_for(c, zip_util::crlfs(c), moved(data, p), k)
        }),
{
    let c = corrupt::corrupted(data);
    let crlf = zip_util::crlfs(c);
    let fields = damaged_fields(data, p);
    let n = (fields.hi - fields.lo) as nat;
    lemma_region(data, p);
    if fields.hi - fields.lo <= 12 {
        let own = law_sound_header_is_believed(data, p);
        law_fewest_are_kept(fields, own);
        let first = fields.first()->0;
        assert forall|b: int| 0 <= b < n implies !#[trigger] headers::bit(own, b) by {
            assert(fields.kept(own, fields.lo + b) <==> own_pair(
                data,
                p,
                crlf[fields.lo + b] as int,
            ));
            if own_pair(data, p, crlf[fields.lo + b] as int) {
                let o = choose|o: int|
                    p + 4 <= o < p + 29 && data[o] == 0x0D && data[o + 1] == 0x0A && crlf[fields.lo
                        + b] == #[trigger] moved(data, o);
                assert(data[o] == 0x0D);
            }
        }
        lemma_no_bits(own, n);
        lemma_bits(first, n);
    }
}

proof fn lemma_no_bits(choice: u32, n: nat)
    requires
        forall|b: int| 0 <= b < n ==> !#[trigger] headers::bit(choice, b),
    ensures
        set_bits(choice, n).len() == 0,
    decreases n,
{
    if n > 0 {
        lemma_no_bits(choice, (n - 1) as nat);
        assert(!headers::bit(choice, n - 1));
    }
}

proof fn lemma_bits(choice: u32, n: nat)
    ensures
        set_bits(choice, n).len() == 0 ==> forall|b: int|
            0 <= b < n ==> !#[trigger] headers::bit(choice, b),
    decreases n,
{
    if n > 0 {
        lemma_bits(choice, (n - 1) as nat);
    }
}

/// A pair is kept only if it begins in the forty-two bytes behind a local header's mark.
pub proof fn law_kept_pairs_stand_in_headers(data: Seq<u8>, k: int)
    requires
        data.len() <= usize::MAX,
        headers::header_kept(data, zip_util::crlfs(data)).contains(k as usize),
        0 <= k <= usize::MAX,
    ensures
        ({
            let crlf = zip_util::crlfs(data);
            &&& k < crlf.len()
            &&& exists|sig: int|
                #[trigger] directory::mark_at(data, sig, 3, 4) && sig + 4 <= crlf[k] < sig + 46
                    && headers::kept_for(data, crlf, sig, k)
        }),
{
    let crlf = zip_util::crlfs(data);
    let hit = |i: int| headers::kept_for_any(data, crlf, i);
    let kept = headers::header_kept(data, crlf);
    recover::lemma_crlfs(data);
    positions::lemma_positions(crlf.len(), hit);
    let j = choose|j: int| 0 <= j < kept.len() && kept[j] == k as usize;
    assert(hit(kept[j] as int));
    let sig = choose|sig: int|
        headers::local_at(data, sig) && #[trigger] headers::kept_for(data, crlf, sig, k);
    let mark = data.subrange(sig, sig + 4);
    assert(mark == seq![0x50u8, 0x4Bu8, 3u8, 4u8]);
    assert(mark[0] == data[sig] && mark[1] == data[sig + 1] && mark[2] == data[sig + 2] && mark[3]
        == data[sig + 3]);
    assert(directory::mark_at(data, sig, 3, 4));
    let end = if sig + 46 < data.len() {
        sig + 46
    } else {
        data.len() as int
    };
    positions::lemma_rank(crlf, sig + 4);
    positions::lemma_rank(crlf, end);
}

/// A header that is believed states a known version and method and a name, has no pair in
/// name and extra field, and has behind its contents a mark that is no farther off than
/// there are pairs in between.
pub proof fn law_believed_header_is_plausible(data: Seq<u8>, sig: int, choice: u32)
    requires
        data.len() <= usize::MAX,
        0 <= sig,
        headers::fields_of(data, zip_util::crlfs(data), sig).believes(choice),
    ensures
        ({
            let crlf = zip_util::crlfs(data);
            let fields = headers::fields_of(data, crlf, sig);
            let (got, at) = fields.read(choice, sig + 4, Seq::empty());
            let version = got[0] + 0x100 * got[1];
            let method = got[4] + 0x100 * got[5];
            let size = got[14] + 0x100 * got[15] + 0x1_0000 * got[16] + 0x100_0000 * got[17];
            let name_len = got[22] + 0x100 * got[23];
            let extra_len = got[24] + 0x100 * got[25];
            let start = at + name_len + extra_len;
            &&& got.len() == 26
            &&& version == 10 || version == 20 || version == 45
            &&& method == 0 || method == 8
            &&& 1 <= name_len <= 512
            &&& extra_len <= 512
            &&& forall|i: int|
                at <= i < start ==> !(#[trigger] data[i] == 0x0D && data[i + 1] == 0x0A)
            &&& exists|next: int|
                start + size <= next && #[trigger] next_mark_at(data, next) && next - (start + size)
                    <= positions::rank(crlf, next) - positions::rank(crlf, start)
        }),
{
    let crlf = zip_util::crlfs(data);
    let fields = headers::fields_of(data, crlf, sig);
    let (got, at) = fields.read(choice, sig + 4, Seq::empty());
    let size = bytes::u32_at(got, 14);
    let start = at + bytes::u16_at(got, 22) + bytes::u16_at(got, 24);
    let sigs = fields.sigs;
    let hit = |i: int| headers::signature_at(data, i);
    recover::lemma_crlfs(data);
    positions::lemma_positions(data.len(), hit);
    lemma_read_goes_on(fields, choice, sig + 4, Seq::empty());
    assert forall|i: int| at <= i < start implies !(#[trigger] data[i] == 0x0D && data[i + 1]
        == 0x0A) by {
        if data[i] == 0x0D && data[i + 1] == 0x0A && i + 1 < data.len() {
            assert(zip_util::crlf_at(data, i));
            assert(crlf.contains(i as usize));
            let k = choose|k: int| 0 <= k < crlf.len() && crlf[k] == i as usize;
            positions::lemma_rank_is_index(crlf, k);
            positions::lemma_rank_grows(crlf, at, i);
            positions::lemma_next_rank(crlf, i);
            positions::lemma_rank_grows(crlf, i + 1, start);
        }
        lemma_last_byte(fields, start, size);
    }
    let j = choose|j: int|
        0 <= j < sigs.len() && start + size <= #[trigger] sigs[j] && sigs[j] - (start + size)
            <= positions::rank(crlf, sigs[j] as int) - positions::rank(crlf, start);
    let next = sigs[j] as int;
    assert(hit(next));
    let mark = data.subrange(next, next + 4);
    assert(mark.len() == 4);
    assert(mark[0] == data[next] && mark[1] == data[next + 1] && mark[2] == data[next + 2]
        && mark[3] == data[next + 3]);
    assert(next_mark_at(data, next));
}

/// Something stands behind the name and extra field of a believed header.
proof fn lemma_last_byte(fields: FieldsModel, at: int, size: int)
    requires
        fields.sigs == headers::signatures(fields.data),
        fields.data.len() <= usize::MAX,
        fields.followed(at, size),
        0 <= size,
    ensures
        at < fields.data.len(),
{
    let hit = |i: int| headers::signature_at(fields.data, i);
    positions::lemma_positions(fields.data.len(), hit);
    let j = choose|j: int|
        0 <= j < fields.sigs.len() && at + size <= #[trigger] fields.sigs[j] && fields.sigs[j] - (at
            + size) <= positions::rank(fields.crlf, fields.sigs[j] as int) - positions::rank(
            fields.crlf,
            at,
        );
    assert(hit(fields.sigs[j] as int));
}

proof fn lemma_read_goes_on(fields: FieldsModel, choice: u32, p: int, got: Seq<u8>)
    ensures
        fields.read(choice, p, got).1 >= p,
    decreases fields.data.len() - p,
{
    if got.len() < 26 && p < fields.data.len() {
        if fields.skipped(choice, p) {
            lemma_read_goes_on(fields, choice, p + 1, got);
        } else {
            lemma_read_goes_on(fields, choice, p + 1, got.push(fields.data[p]));
        }
    }
}

/// The pairs that a header is judged with are those that begin in the forty-two bytes behind
/// its mark; with more than twelve of them nothing is kept for it.
pub proof fn law_pairs_behind_the_mark(data: Seq<u8>, crlf: Seq<usize>, sig: int)
    requires
        positions::ascending(crlf),
    ensures
        ({
            let fields = headers::fields_of(data, crlf, sig);
            &&& forall|k: int|
                0 <= k < crlf.len() ==> (fields.lo <= k < fields.hi <==> sig + 4 <= #[trigger] crlf[k]
                    < sig + 46 && crlf[k] < data.len())
            &&& fields.hi - fields.lo > 12 ==> forall|k: int|
                !#[trigger] headers::kept_for(data, crlf, sig, k)
        }),
{
    let end = if sig + 46 < data.len() {
        sig + 46
    } else {
        data.len() as int
    };
    positions::lemma_rank(crlf, sig + 4);
    positions::lemma_rank(crlf, end);
}

} // verus!
