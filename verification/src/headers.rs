//! Deciding which carriage returns inside local headers are the archive's own.
use vstd::prelude::*;

use crate::bytes;
use crate::positions;

verus! {

/// How far behind a signature the fields stand that a header is judged by.
pub const FIELDS_AT: usize = 4;

/// How many bytes these fields have: version, flags, method, time, date, checksum, sizes,
/// lengths of name and extra field.
pub const FIELDS_LEN: usize = 26;

/// How many bytes of damaged data are searched for carriage returns in these fields.
pub const REGION_LEN: usize = 42;

/// The largest number of carriage returns there for which all choices are tried.
pub const MAX_REGION_CRLFS: usize = 12;

/// The longest name or extra field that a header is believed.
pub const MAX_NAME_LEN: usize = 512;

/// The bytes `PK` and the two bytes given stand at `i`.
pub open spec fn pk_at(data: Seq<u8>, i: int, third: u8, fourth: u8) -> bool {
    bytes::holds_at(data, i, seq![0x50u8, 0x4Bu8, third, fourth])
}

/// A local header's signature stands at `i`.
pub open spec fn local_at(data: Seq<u8>, i: int) -> bool {
    pk_at(data, i, 3, 4)
}

/// A signature stands at `i` that can follow an entry's contents: of a local header,
/// a central directory entry, or a data descriptor.
pub open spec fn signature_at(data: Seq<u8>, i: int) -> bool {
    local_at(data, i) || pk_at(data, i, 1, 2) || pk_at(data, i, 7, 8)
}

/// The places of local headers' signatures.
pub open spec fn local_signatures(data: Seq<u8>) -> Seq<usize> {
    positions::positions(data.len(), |i: int| local_at(data, i))
}

/// The places of signatures that can follow an entry's contents.
pub open spec fn signatures(data: Seq<u8>) -> Seq<usize> {
    positions::positions(data.len(), |i: int| signature_at(data, i))
}

/// The places from `from` on where `needle` occurs, each found behind the end of the
/// one before it.
pub open spec fn occurrences(haystack: Seq<u8>, needle: Seq<u8>, from: int) -> Seq<usize>
    decreases haystack.len() - from,
{
    if needle.len() == 0 || from < 0 || from + needle.len() > haystack.len() {
        Seq::empty()
    } else if bytes::holds_at(haystack, from, needle) {
        seq![from as usize] + occurrences(haystack, needle, from + needle.len())
    } else {
        occurrences(haystack, needle, from + 1)
    }
}

/// Calls `memchr::memmem::find_iter`: the iterator yields, from the front, the places
/// where `needle` occurs, going on behind the end of each.
#[verifier::external_body]
fn find_all(haystack: &[u8], needle: &[u8]) -> (found: Vec<usize>)
    requires
        needle@.len() > 0,
    ensures
        found@ == occurrences(haystack@, needle@, 0),
{
    memchr::memmem::find_iter(haystack, needle).collect()
}

/// A needle whose first byte occurs in it only once cannot overlap itself, so that
/// every place where it stands is found.
proof fn lemma_all_occurrences(haystack: Seq<u8>, needle: Seq<u8>, from: int)
    requires
        needle.len() > 0,
        forall|k: int| 0 < k < needle.len() ==> #[trigger] needle[k] != needle[0],
        0 <= from <= haystack.len() <= usize::MAX,
    ensures
        ({
            let found = occurrences(haystack, needle, from);
            &&& positions::ascending(found)
            &&& forall|k: int|
                0 <= k < found.len() ==> from <= #[trigger] found[k] && bytes::holds_at(
                    haystack,
                    found[k] as int,
                    needle,
                )
            &&& forall|i: int|
                from <= i && #[trigger] bytes::holds_at(haystack, i, needle) ==> found.contains(
                    i as usize,
                )
        }),
    decreases haystack.len() - from,
{
    let found = occurrences(haystack, needle, from);
    let n = needle.len() as int;
    if from + n <= haystack.len() {
        if bytes::holds_at(haystack, from, needle) {
            let rest = occurrences(haystack, needle, from + n);
            lemma_all_occurrences(haystack, needle, from + n);
            assert forall|i: int|
                from <= i && #[trigger] bytes::holds_at(
                    haystack,
                    i,
                    needle,
                ) implies found.contains(i as usize) by {
                if i == from {
                    assert(found[0] == from as usize);
                } else if i < from + n {
                    assert(haystack.subrange(from, from + n)[i - from] == needle[i - from]);
                    assert(haystack.subrange(i, i + n)[0] == needle[0]);
                } else {
                    let k = choose|k: int| 0 <= k < rest.len() && rest[k] == i as usize;
                    assert(found[k + 1] == i as usize);
                }
            }
            assert forall|k: int| 0 <= k < found.len() implies from <= #[trigger] found[k]
                && bytes::holds_at(haystack, found[k] as int, needle) by {
                if k > 0 {
                    assert(found[k] == rest[k - 1]);
                }
            }
            assert forall|i: int, j: int| 0 <= i < j < found.len() implies found[i] < found[j] by {
                assert(found[j] == rest[j - 1]);
                if i > 0 {
                    assert(found[i] == rest[i - 1]);
                }
            }
        } else {
            lemma_all_occurrences(haystack, needle, from + 1);
        }
    }
}

/// The places where the bytes `PK` and the two bytes given stand.
fn find_pk(data: &[u8], third: u8, fourth: u8) -> (found: Vec<usize>)
    requires
        third != 0x50,
        fourth != 0x50,
    ensures
        found@ == positions::positions(data@.len(), |i: int| pk_at(data@, i, third, fourth)),
{
    let needle: Vec<u8> = vec![0x50u8, 0x4Bu8, third, fourth];
    let found: Vec<usize> = find_all(data, needle.as_slice());
    assert(data.len() == data@.len());
    proof {
        assert(needle@ =~= seq![0x50u8, 0x4Bu8, third, fourth]);
        let hit = |i: int| pk_at(data@, i, third, fourth);
        let want = positions::positions(data@.len(), hit);
        lemma_all_occurrences(data@, needle@, 0);
        positions::lemma_positions(data@.len(), hit);
        assert forall|x: usize| found@.contains(x) <==> want.contains(x) by {
            if found@.contains(x) {
                let k = choose|k: int| 0 <= k < found@.len() && found@[k] == x;
                assert(hit(x as int));
                assert(want.contains((x as int) as usize));
            }
            if want.contains(x) {
                let k = choose|k: int| 0 <= k < want.len() && want[k] == x;
                assert(hit(x as int));
                assert(bytes::holds_at(data@, x as int, needle@));
                assert(found@.contains((x as int) as usize));
            }
        }
        positions::lemma_ascending_unique(found@, want);
    }
    found
}

/// The members of two ascending lists in one.
fn merge(a: &[usize], b: &[usize]) -> (r: Vec<usize>)
    requires
        positions::ascending(a@),
        positions::ascending(b@),
    ensures
        positions::ascending(r@),
        forall|x: usize| r@.contains(x) <==> a@.contains(x) || b@.contains(x),
{
    let mut r: Vec<usize> = Vec::new();
    let mut i: usize = 0;
    let mut j: usize = 0;
    while i < a.len() || j < b.len()
        invariant
            positions::ascending(a@),
            positions::ascending(b@),
            i <= a@.len(),
            j <= b@.len(),
            positions::ascending(r@),
            forall|x: usize|
                r@.contains(x) <==> a@.take(i as int).contains(x) || b@.take(j as int).contains(x),
            forall|k: int, m: int|
                0 <= k < r@.len() && i <= m < a@.len() ==> #[trigger] r@[k] < #[trigger] a@[m],
            forall|k: int, m: int|
                0 <= k < r@.len() && j <= m < b@.len() ==> #[trigger] r@[k] < #[trigger] b@[m],
        decreases a@.len() - i + b@.len() - j,
    {
        let take_a: bool = i < a.len() && (j >= b.len() || a[i] <= b[j]);
        let take_b: bool = j < b.len() && (i >= a.len() || b[j] <= a[i]);
        let x: usize = if take_a {
            a[i]
        } else {
            b[j]
        };
        let ghost old_i = i;
        let ghost old_j = j;
        let ghost before = r@;
        r.push(x);
        if take_a {
            i = i + 1;
        }
        if take_b {
            j = j + 1;
        }
        proof {
            lemma_take_more(a@, old_i as int, i as int);
            lemma_take_more(b@, old_j as int, j as int);
            assert forall|y: usize| r@.contains(y) <==> before.contains(y) || y == x by {
                if before.contains(y) {
                    let k = choose|k: int| 0 <= k < before.len() && before[k] == y;
                    assert(r@[k] == y);
                }
                if y == x {
                    assert(r@[before.len() as int] == y);
                }
                if r@.contains(y) && y != x {
                    let k = choose|k: int| 0 <= k < r@.len() && r@[k] == y;
                    assert(before[k] == y);
                }
            }
            assert forall|y: usize|
                r@.contains(y) <==> a@.take(i as int).contains(y) || b@.take(j as int).contains(
                    y,
                ) by {
                assert(before.contains(y) <==> a@.take(old_i as int).contains(y) || b@.take(
                    old_j as int,
                ).contains(y));
            }
        }
    }
    assert(a@.take(a@.len() as int) =~= a@);
    assert(b@.take(b@.len() as int) =~= b@);
    r
}

proof fn lemma_take_more(s: Seq<usize>, i: int, j: int)
    requires
        0 <= i <= j <= s.len(),
        j <= i + 1,
    ensures
        forall|y: usize|
            s.take(j).contains(y) <==> s.take(i).contains(y) || (j == i + 1 && y == s[i]),
{
    assert forall|y: usize|
        s.take(j).contains(y) <==> s.take(i).contains(y) || (j == i + 1 && y == s[i]) by {
        if s.take(j).contains(y) {
            let k = choose|k: int| 0 <= k < j && s.take(j)[k] == y;
            if k < i {
                assert(s.take(i)[k] == y);
            }
        }
        if s.take(i).contains(y) {
            let k = choose|k: int| 0 <= k < i && s.take(i)[k] == y;
            assert(s.take(j)[k] == y);
        }
        if j == i + 1 && y == s[i] {
            assert(s.take(j)[i] == y);
        }
    }
}

/// The places of signatures that can follow an entry's contents.
fn find_signatures(data: &[u8], locals: &[usize]) -> (found: Vec<usize>)
    requires
        locals@ == local_signatures(data@),
    ensures
        found@ == signatures(data@),
        positions::ascending(found@),
{
    let central: Vec<usize> = find_pk(data, 1, 2);
    let descriptors: Vec<usize> = find_pk(data, 7, 8);
    assert(data.len() == data@.len());
    let ghost n = data@.len();
    let ghost one = |i: int| local_at(data@, i);
    let ghost two = |i: int| pk_at(data@, i, 1, 2);
    let ghost three = |i: int| pk_at(data@, i, 7, 8);
    let ghost any = |i: int| signature_at(data@, i);
    proof {
        positions::lemma_positions(n, one);
        positions::lemma_positions(n, two);
        positions::lemma_positions(n, three);
        positions::lemma_positions(n, any);
    }
    let some: Vec<usize> = merge(locals, central.as_slice());
    let found: Vec<usize> = merge(some.as_slice(), descriptors.as_slice());
    proof {
        let want = signatures(data@);
        assert forall|x: usize| found@.contains(x) <==> want.contains(x) by {
            if want.contains(x) {
                let k = choose|k: int| 0 <= k < want.len() && want[k] == x;
                assert(any(x as int));
                if one(x as int) {
                    assert(locals@.contains((x as int) as usize));
                } else if two(x as int) {
                    assert(central@.contains((x as int) as usize));
                } else {
                    assert(three(x as int));
                    assert(descriptors@.contains((x as int) as usize));
                }
            }
            if found@.contains(x) {
                if locals@.contains(x) {
                    let k = choose|k: int| 0 <= k < locals@.len() && locals@[k] == x;
                    assert(one(x as int));
                } else if central@.contains(x) {
                    let k = choose|k: int| 0 <= k < central@.len() && central@[k] == x;
                    assert(two(x as int));
                } else {
                    let k = choose|k: int| 0 <= k < descriptors@.len() && descriptors@[k] == x;
                    assert(three(x as int));
                }
                assert(any(x as int));
                assert(want.contains((x as int) as usize));
            }
        }
        positions::lemma_ascending_unique(found@, want);
    }
    found
}

/// Bit `b` of a choice.
pub open spec fn bit(choice: u32, b: int) -> bool {
    (choice >> (b as u32)) & 1 == 1
}

/// How many of the first `n` bits of a choice are set.
pub open spec fn ones(choice: u32, n: nat) -> nat
    decreases n,
{
    if n == 0 {
        0
    } else {
        ones(choice, (n - 1) as nat) + (if bit(choice, n - 1) {
            1nat
        } else {
            0nat
        })
    }
}

/// A version that archives state: the default, for deflated entries, for ZIP64.
pub open spec fn known_version(version: int) -> bool {
    version == 10 || version == 20 || version == 45
}

/// A method that entries can be unpacked by: stored or deflated.
pub open spec fn known_method(method: int) -> bool {
    method == 0 || method == 8
}

/// The fields of one local header in damaged data: where they start, and the indices
/// `lo..hi` of the carriage returns that may stand in them.
pub struct FieldsModel {
    pub data: Seq<u8>,
    pub crlf: Seq<usize>,
    pub sigs: Seq<usize>,
    pub start: int,
    pub lo: int,
    pub hi: int,
}

impl FieldsModel {
    /// The choice keeps the carriage return of index `k`.
    pub open spec fn kept(self, choice: u32, k: int) -> bool {
        self.lo <= k < self.hi && bit(choice, k - self.lo)
    }

    /// The byte at `p` is a carriage return that the choice does not keep.
    pub open spec fn skipped(self, choice: u32, p: int) -> bool {
        let k = positions::rank(self.crlf, p) as int;
        k < self.crlf.len() && self.crlf[k] == p && !self.kept(choice, k)
    }

    /// The fields' bytes, `got` of them read before `p`, and where they end.
    pub open spec fn read(self, choice: u32, p: int, got: Seq<u8>) -> (Seq<u8>, int)
        decreases self.data.len() - p,
    {
        if got.len() >= FIELDS_LEN || p >= self.data.len() {
            (got, p)
        } else if self.skipped(choice, p) {
            self.read(choice, p + 1, got)
        } else {
            self.read(choice, p + 1, got.push(self.data[p]))
        }
    }

    /// A signature follows contents of `size` bytes that begin at `at`, as far behind
    /// them as carriage returns put into them can account for.
    pub open spec fn followed(self, at: int, size: int) -> bool {
        exists|j: int|
            0 <= j < self.sigs.len() && at + size <= #[trigger] self.sigs[j] && self.sigs[j] - (at
                + size) <= positions::rank(self.crlf, self.sigs[j] as int) - positions::rank(
                self.crlf,
                at,
            )
    }

    /// Under the choice the fields make a header that can be believed.
    pub open spec fn believes(self, choice: u32) -> bool {
        let (fields, p) = self.read(choice, self.start, Seq::empty());
        let size = bytes::u32_at(fields, 14);
        let name_len = bytes::u16_at(fields, 22);
        let extra_len = bytes::u16_at(fields, 24);
        let end = p + name_len + extra_len;
        &&& fields.len() == FIELDS_LEN
        &&& forall|k: int| #[trigger]
            self.kept(choice, k) && k < self.crlf.len() ==> self.crlf[k] < p
        &&& known_version(bytes::u16_at(fields, 0))
        &&& known_method(bytes::u16_at(fields, 4))
        &&& size <= self.data.len()
        &&& 1 <= name_len <= MAX_NAME_LEN
        &&& extra_len <= MAX_NAME_LEN
        &&& end <= self.data.len()
        &&& positions::rank(self.crlf, p) == positions::rank(self.crlf, end)
        &&& end + size <= self.data.len()
        &&& self.followed(end, size)
    }

    /// The number of choices.
    pub open spec fn choices(self) -> u32 {
        1u32 << ((self.hi - self.lo) as u32)
    }

    /// The first choice comes before the second: it keeps fewer, or as many and is the
    /// smaller number.
    pub open spec fn before(self, a: u32, b: u32) -> bool {
        let n = (self.hi - self.lo) as nat;
        ones(a, n) < ones(b, n) || (ones(a, n) == ones(b, n) && a < b)
    }

    /// The choice makes a header that can be believed, and no choice before it does.
    pub open spec fn is_first(self, choice: u32) -> bool {
        &&& choice < self.choices()
        &&& self.believes(choice)
        &&& forall|other: u32|
            other < self.choices() && #[trigger] self.believes(other) ==> other == choice
                || self.before(choice, other)
    }

    /// The first choice that makes a header that can be believed.
    pub open spec fn first(self) -> Option<u32> {
        if exists|choice: u32| choice < self.choices() && #[trigger] self.believes(choice) {
            Some(choose|choice: u32| #[trigger] self.is_first(choice))
        } else {
            None
        }
    }
}

/// The fields of the local header whose signature stands at `sig`.
pub open spec fn fields_of(data: Seq<u8>, crlf: Seq<usize>, sig: int) -> FieldsModel {
    let start = sig + FIELDS_AT;
    let end = if start + REGION_LEN < data.len() {
        start + REGION_LEN
    } else {
        data.len() as int
    };
    FieldsModel {
        data,
        crlf,
        sigs: signatures(data),
        start,
        lo: positions::rank(crlf, start) as int,
        hi: positions::rank(crlf, end) as int,
    }
}

/// The carriage return of index `k` is kept for the header whose signature stands at
/// `sig`.
pub open spec fn kept_for(data: Seq<u8>, crlf: Seq<usize>, sig: int, k: int) -> bool {
    let fields = fields_of(data, crlf, sig);
    &&& sig + FIELDS_AT < data.len()
    &&& fields.hi - fields.lo <= MAX_REGION_CRLFS
    &&& fields.first() matches Some(choice) && fields.kept(choice, k)
}

/// The carriage return of index `k` is kept for some local header.
pub open spec fn kept_for_any(data: Seq<u8>, crlf: Seq<usize>, k: int) -> bool {
    exists|sig: int| local_at(data, sig) && #[trigger] kept_for(data, crlf, sig, k)
}

/// The indices of the carriage returns that are kept for the local headers.
pub open spec fn header_kept(data: Seq<u8>, crlf: Seq<usize>) -> Seq<usize> {
    positions::positions(crlf.len(), |k: int| kept_for_any(data, crlf, k))
}

fn has_bit(choice: u32, b: usize) -> (r: bool)
    requires
        b < 32,
    ensures
        r == bit(choice, b as int),
{
    (choice >> (b as u32)) & 1 == 1
}

fn count_bits(choice: u32, n: usize) -> (c: usize)
    requires
        n <= 32,
    ensures
        c == ones(choice, n as nat),
        c <= n,
{
    let mut c: usize = 0;
    for b in 0..n
        invariant
            n <= 32,
            c == ones(choice, b as nat),
            c <= b,
    {
        if has_bit(choice, b) {
            c = c + 1;
        }
    }
    c
}

/// The fields of one local header.
struct Fields<'a> {
    data: &'a [u8],
    crlf: &'a [usize],
    sigs: &'a [usize],
    start: usize,
    lo: usize,
    hi: usize,
}

impl<'a> Fields<'a> {
    spec fn model(self) -> FieldsModel {
        FieldsModel {
            data: self.data@,
            crlf: self.crlf@,
            sigs: self.sigs@,
            start: self.start as int,
            lo: self.lo as int,
            hi: self.hi as int,
        }
    }

    spec fn wf(self) -> bool {
        &&& positions::ascending(self.crlf@)
        &&& positions::ascending(self.sigs@)
        &&& self.start < self.data@.len()
        &&& self.lo == positions::rank(self.crlf@, self.start as int)
        &&& self.lo <= self.hi <= self.crlf@.len()
        &&& self.hi - self.lo <= MAX_REGION_CRLFS
    }

    fn keeps(&self, choice: u32, k: usize) -> (r: bool)
        requires
            self.wf(),
        ensures
            r == self.model().kept(choice, k as int),
    {
        self.lo <= k && k < self.hi && has_bit(choice, k - self.lo)
    }

    /// The fields' bytes and where they end.
    fn read(&self, choice: u32) -> (r: (Vec<u8>, usize))
        requires
            self.wf(),
        ensures
            self.model().read(choice, self.start as int, Seq::empty()) == (r.0@, r.1 as int),
            r.1 <= self.data@.len(),
            r.0@.len() <= FIELDS_LEN,
    {
        let mut fields: Vec<u8> = Vec::new();
        let mut p: usize = self.start;
        let mut cursor: usize = self.lo;
        let ghost model = self.model();
        assert(self.data.len() == self.data@.len());
        while fields.len() < FIELDS_LEN && p < self.data.len()
            invariant
                self.wf(),
                model == self.model(),
                p <= self.data@.len(),
                cursor == positions::rank(self.crlf@, p as int),
                cursor <= self.crlf@.len(),
                fields@.len() <= FIELDS_LEN,
                model.read(choice, self.start as int, Seq::empty()) == model.read(
                    choice,
                    p as int,
                    fields@,
                ),
            decreases self.data@.len() - p,
        {
            let here: bool = cursor < self.crlf.len() && self.crlf[cursor] == p;
            let skip: bool = here && !self.keeps(choice, cursor);
            proof {
                positions::lemma_next_rank(self.crlf@, p as int);
                positions::lemma_rank(self.crlf@, p + 1);
            }
            if here {
                cursor = cursor + 1;
            }
            if !skip {
                fields.push(self.data[p]);
            }
            p = p + 1;
        }
        (fields, p)
    }

    /// Whether a signature follows contents of `size` bytes that begin at `at`, as far
    /// behind them as carriage returns put into them can account for.
    fn followed(&self, at: usize, size: usize) -> (r: bool)
        requires
            self.wf(),
            at + size <= self.data@.len(),
        ensures
            r == self.model().followed(at as int, size as int),
    {
        assert(self.data.len() == self.data@.len());
        let ghost model = self.model();
        let lb: usize = at + size;
        let before: usize = positions::partition_point(self.crlf, at);
        let first: usize = positions::partition_point(self.sigs, lb);
        proof {
            positions::lemma_rank(self.sigs@, lb as int);
        }
        for j in first..self.sigs.len()
            invariant
                self.wf(),
                model == self.model(),
                lb == at + size,
                before == positions::rank(self.crlf@, at as int),
                first == positions::rank(self.sigs@, lb as int),
                forall|k: int| 0 <= k < first ==> #[trigger] self.sigs@[k] < lb,
                forall|k: int| first <= k < self.sigs@.len() ==> #[trigger] self.sigs@[k] >= lb,
                forall|k: int|
                    first <= k < j ==> #[trigger] self.sigs@[k] - lb > positions::rank(
                        self.crlf@,
                        self.sigs@[k] as int,
                    ) - before,
        {
            let next: usize = self.sigs[j];
            let upto: usize = positions::partition_point(self.crlf, next);
            assert(next >= lb);
            if upto >= before && next - lb <= upto - before {
                assert(at + size <= model.sigs[j as int]);
                return true;
            }
        }
        false
    }

    /// Whether under the choice the fields make a header that can be believed.
    fn believes(&self, choice: u32) -> (r: bool)
        requires
            self.wf(),
        ensures
            r == self.model().believes(choice),
    {
        let ghost model = self.model();
        let (fields, p) = self.read(choice);
        assert(self.data.len() == self.data@.len());
        if fields.len() < FIELDS_LEN {
            return false;
        }
        for k in self.lo..self.hi
            invariant
                self.wf(),
                model == self.model(),
                model.read(choice, self.start as int, Seq::empty()) == (fields@, p as int),
                forall|j: int| self.lo <= j < k && model.kept(choice, j) ==> self.crlf@[j] < p,
        {
            if self.keeps(choice, k) && self.crlf[k] >= p {
                assert(model.kept(choice, k as int));
                return false;
            }
        }
        let version: u16 = bytes::read_u16(fields.as_slice(), 0);
        let method: u16 = bytes::read_u16(fields.as_slice(), 4);
        if version != 10 && version != 20 && version != 45 || method != 0 && method != 8 {
            return false;
        }
        let size: u32 = bytes::read_u32(fields.as_slice(), 14);
        let name_len: usize = bytes::read_u16(fields.as_slice(), 22) as usize;
        let extra_len: usize = bytes::read_u16(fields.as_slice(), 24) as usize;
        if size as u64 > self.data.len() as u64 || name_len == 0 || name_len > MAX_NAME_LEN
            || extra_len > MAX_NAME_LEN {
            return false;
        }
        if name_len + extra_len > self.data.len() - p {
            return false;
        }
        let end: usize = p + name_len + extra_len;
        if positions::partition_point(self.crlf, p) != positions::partition_point(self.crlf, end) {
            return false;
        }
        if size as usize > self.data.len() - end {
            return false;
        }
        self.followed(end, size as usize)
    }

    /// The first choice that makes a header that can be believed.
    fn first(&self) -> (r: Option<u32>)
        requires
            self.wf(),
        ensures
            r == self.model().first(),
    {
        let ghost model = self.model();
        let n: usize = self.hi - self.lo;
        let choices: u32 = 1u32 << (n as u32);
        for c in 0..n + 1
            invariant
                self.wf(),
                model == self.model(),
                n == self.hi - self.lo,
                choices == model.choices(),
                forall|o: u32|
                    o < choices && #[trigger] model.believes(o) ==> ones(o, n as nat) >= c,
        {
            for choice in 0..choices
                invariant
                    self.wf(),
                    model == self.model(),
                    n == self.hi - self.lo,
                    choices == model.choices(),
                    forall|o: u32|
                        o < choices && #[trigger] model.believes(o) ==> ones(o, n as nat) >= c,
                    forall|o: u32|
                        o < choice && #[trigger] model.believes(o) ==> ones(o, n as nat) > c,
            {
                if count_bits(choice, n) == c && self.believes(choice) {
                    proof {
                        assert(model.is_first(choice));
                        let other = choose|o: u32| #[trigger] model.is_first(o);
                        assert(model.believes(other));
                        assert(model.believes(choice));
                    }
                    return Some(choice);
                }
            }
        }
        proof {
            if exists|o: u32| o < choices && #[trigger] model.believes(o) {
                let o = choose|o: u32| o < choices && #[trigger] model.believes(o);
                lemma_ones_bound(o, n as nat);
            }
        }
        None
    }
}

proof fn lemma_ones_bound(choice: u32, n: nat)
    ensures
        ones(choice, n) <= n,
    decreases n,
{
    if n > 0 {
        lemma_ones_bound(choice, (n - 1) as nat);
    }
}

/// The indices of the carriage returns inside local headers that are the archive's
/// own: for each local header the first choice of some to keep, the fewest first, under
/// which its fields make a header that can be believed.
pub fn stabilize_headers(data: &[u8], crlf_positions: &[usize]) -> (kept: Vec<usize>)
    requires
        positions::ascending(crlf_positions@),
    ensures
        kept@ == header_kept(data@, crlf_positions@),
        positions::ascending(kept@),
        forall|i: int| 0 <= i < kept@.len() ==> #[trigger] kept@[i] < crlf_positions@.len(),
{
    let locals: Vec<usize> = find_pk(data, 3, 4);
    assert((|i: int| pk_at(data@, i, 3, 4)) =~= (|i: int| local_at(data@, i)));
    let sigs: Vec<usize> = find_signatures(data, locals.as_slice());
    assert(data.len() == data@.len());
    assert(crlf_positions.len() == crlf_positions@.len());
    let ghost crlf = crlf_positions@;
    let ghost local = |i: int| local_at(data@, i);
    proof {
        positions::lemma_positions(data@.len(), local);
    }
    let mut flags: Vec<bool> = vec![false; crlf_positions.len()];
    for i in 0..locals.len()
        invariant
            data.len() == data@.len(),
            crlf == crlf_positions@,
            positions::ascending(crlf),
            sigs@ == signatures(data@),
            positions::ascending(sigs@),
            flags@.len() == crlf.len(),
            forall|j: int| 0 <= j < locals@.len() ==> #[trigger] locals@[j] < data@.len(),
            forall|k: int|
                0 <= k < crlf.len() ==> (#[trigger] flags@[k] <==> exists|j: int|
                    0 <= j < i && kept_for(data@, crlf, #[trigger] locals@[j] as int, k)),
    {
        let sig: usize = locals[i];
        assert(locals@[i as int] < data@.len());
        let ghost before = flags@;
        if data.len() - sig > FIELDS_AT {
            let start: usize = sig + FIELDS_AT;
            let end: usize = if data.len() - start > REGION_LEN {
                start + REGION_LEN
            } else {
                data.len()
            };
            let lo: usize = positions::partition_point(crlf_positions, start);
            let hi: usize = positions::partition_point(crlf_positions, end);
            proof {
                positions::lemma_rank_grows(crlf, start as int, end as int);
            }
            if hi - lo <= MAX_REGION_CRLFS {
                let fields: Fields = Fields {
                    data,
                    crlf: crlf_positions,
                    sigs: sigs.as_slice(),
                    start,
                    lo,
                    hi,
                };
                let ghost model = fields_of(data@, crlf, sig as int);
                assert(fields.model() == model);
                if let Some(choice) = fields.first() {
                    for k in lo..hi
                        invariant
                            fields.wf(),
                            fields.model() == model,
                            fields.lo == lo,
                            fields.hi == hi,
                            hi <= crlf.len(),
                            flags@.len() == crlf.len(),
                            forall|m: int|
                                0 <= m < crlf.len() ==> (#[trigger] flags@[m] <==> before[m] || (lo
                                    <= m < k && model.kept(choice, m))),
                    {
                        if fields.keeps(choice, k) {
                            flags[k] = true;
                        }
                    }
                }
            }
        }
        proof {
            assert forall|k: int| 0 <= k < crlf.len() implies (#[trigger] flags@[k] <==> before[k]
                || kept_for(data@, crlf, sig as int, k)) by {}
            assert forall|k: int| 0 <= k < crlf.len() implies (#[trigger] flags@[k] <==> exists|
                j: int,
            |
                0 <= j < i + 1 && kept_for(data@, crlf, #[trigger] locals@[j] as int, k)) by {
                if before[k] {
                    let j = choose|j: int|
                        0 <= j < i && kept_for(data@, crlf, #[trigger] locals@[j] as int, k);
                    assert(kept_for(data@, crlf, locals@[j] as int, k));
                }
                if kept_for(data@, crlf, sig as int, k) {
                    assert(kept_for(data@, crlf, locals@[i as int] as int, k));
                }
            }
        }
    }
    let mut kept: Vec<usize> = Vec::new();
    let ghost hit = |k: int| kept_for_any(data@, crlf, k);
    for k in 0..flags.len()
        invariant
            flags@.len() == crlf.len(),
            crlf == crlf_positions@,
            local == (|i: int| local_at(data@, i)),
            hit == (|k: int| kept_for_any(data@, crlf, k)),
            data.len() == data@.len(),
            locals@ == positions::positions(data@.len(), local),
            forall|j: int|
                0 <= j < locals@.len() ==> #[trigger] locals@[j] < data@.len() && local(
                    locals@[j] as int,
                ),
            forall|i: int| 0 <= i < data@.len() && local(i) ==> #[trigger] locals@.contains(i as usize),
            forall|m: int|
                0 <= m < crlf.len() ==> (#[trigger] flags@[m] <==> exists|j: int|
                    0 <= j < locals@.len() && kept_for(data@, crlf, #[trigger] locals@[j] as int, m)),
            kept@ == positions::positions(k as nat, hit),
    {
        proof {
            if flags@[k as int] {
                let j = choose|j: int|
                    0 <= j < locals@.len() && kept_for(
                        data@,
                        crlf,
                        #[trigger] locals@[j] as int,
                        k as int,
                    );
                assert(local(locals@[j] as int));
                assert(hit(k as int));
            }
            if hit(k as int) {
                let sig = choose|sig: int|
                    local_at(data@, sig) && #[trigger] kept_for(data@, crlf, sig, k as int);
                assert(local(sig));
                assert(locals@.contains(sig as usize));
                let j = choose|j: int| 0 <= j < locals@.len() && locals@[j] == sig as usize;
                assert(kept_for(data@, crlf, locals@[j] as int, k as int));
                assert(flags@[k as int]);
            }
        }
        if flags[k] {
            kept.push(k);
        }
    }
    proof {
        positions::lemma_positions(crlf.len(), hit);
    }
    kept
}

} // verus!
