//! Following a stream through the beam: where a section with carriage returns put back can
//! be unpacked in one go, the candidate that decides so gets to its end.
use vstd::arithmetic::power2;
use vstd::prelude::*;

use crate::beam;
use crate::candidate;
use crate::corrupt::CR;
use crate::png;
use crate::positions;
use crate::splice;
use crate::unpack;

verus! {

/// Every candidate that is on its way through a stream can be fed `chunk` where the stream
/// goes on with it.
pub open spec fn all_feed_well(
    cands: Seq<candidate::CandidateModel>,
    chunk: Seq<u8>,
    has_more: bool,
) -> bool {
    forall|k: int| 0 <= k < cands.len() ==> (#[trigger] cands[k]).feeds_well(chunk, has_more)
}

/// Every candidate that is on its way through a stream can be fed the line feed at `lf`, and
/// a carriage return and the line feed, where the stream goes on with them.
pub open spec fn all_fork_well(
    cands: Seq<candidate::CandidateModel>,
    lf: usize,
    byte: u8,
    has_more: bool,
) -> bool {
    forall|k: int|
        #![trigger cands[k]]
        0 <= k < cands.len() ==> {
            let noted = candidate::CandidateModel {
                inserts: cands[k].inserts.push(lf),
                ..cands[k]
            };
            cands[k].feeds_well(seq![byte], has_more) && noted.feeds_well(seq![CR, byte], has_more)
        }
}

/// One of the candidates has read the first `n` bytes of the stream and has put back `count`
/// carriage returns.
pub open spec fn has_on_way(
    cands: Seq<candidate::CandidateModel>,
    w: candidate::Way,
    n: int,
    count: nat,
) -> bool {
    exists|k: int|
        0 <= k < cands.len() && (#[trigger] cands[k]).on_way(w, n) && cands[k].inserts.len() == count
}

/// One of the candidates has put out the contents of the stream and has put back `count`
/// carriage returns.
pub open spec fn has_arrived(
    cands: Seq<candidate::CandidateModel>,
    w: candidate::Way,
    count: nat,
) -> bool {
    exists|k: int|
        0 <= k < cands.len() && (#[trigger] cands[k]).arrived(w) && cands[k].inserts.len() == count
}

impl beam::SectionModel {
    /// Where the piece of the section begins that is fed last.
    pub open spec fn last_cut(self) -> int {
        let fed = self.fed_to(self.lfs.len());
        if fed < self.base.len() || self.lfs.len() == 0 {
            fed
        } else {
            self.lfs[self.lfs.len() - 1] as int
        }
    }

    /// The section with carriage returns put back in front of the line feeds `f`, as a
    /// stream.
    pub open spec fn way(self, f: Seq<usize>, validator: Option<png::PngModel>) -> candidate::Way {
        candidate::Way {
            stream: splice::with_crs(self.base, f),
            cut: splice::spliced(self.base, self.last_cut(), f).len() as int,
            validator,
        }
    }

    /// With carriage returns put back in front of the line feeds `f`, the section unpacks in
    /// one go to the expected checksum and size, and its contents begin, end and are made as
    /// is known of them; the stream does not end before the piece that is fed last.
    pub open spec fn opened_by(self, f: Seq<usize>, validator: Option<png::PngModel>) -> bool {
        let w = self.way(f, validator);
        let out = w.contents();
        &&& positions::ascending(f)
        &&& forall|x: usize| #[trigger] f.contains(x) ==> self.lfs.contains(x)
        &&& unpack::inflates_to(w.stream, self.crc)
        &&& w.wf()
        &&& out.len() == self.size
        &&& self.prefix.len() <= out.len() ==> self.prefix.is_prefix_of(out)
        &&& self.trailer.is_suffix_of(out)
    }

    /// How many bytes of the stream stand in front of the section's byte at `n`.
    pub open spec fn reached(self, f: Seq<usize>, n: int) -> int {
        splice::spliced(self.base, n, f).len() as int
    }

    /// A candidate that decides for `f` stands before the `i`-th line feed, or at the end.
    pub open spec fn followed(
        self,
        cands: Seq<candidate::CandidateModel>,
        f: Seq<usize>,
        validator: Option<png::PngModel>,
        i: nat,
    ) -> bool {
        let w = self.way(f, validator);
        let fed = self.fed_to(i);
        if i == 0 || fed < self.base.len() {
            has_on_way(cands, w, self.reached(f, fed), positions::rank(f, fed))
        } else {
            has_arrived(cands, w, positions::rank(f, fed))
        }
    }
}

/// Nothing but `f` solves the section.
pub open spec fn only_solution(s: beam::SectionModel, f: Seq<usize>) -> bool {
    forall|g: Seq<usize>| #[trigger] s.solves(g) ==> g == f
}

/// The beam has room for every choice, or more places than there are line feeds and `f` is all
/// of them, and with carriage returns put back in front of `f` the section unpacks as
/// expected.
pub open spec fn in_plain_sight(
    s: beam::SectionModel,
    validator: Option<png::PngModel>,
    f: Seq<usize>,
) -> bool {
    (power2::pow2(s.lfs.len()) <= s.cap || (f == s.lfs && s.lfs.len() < s.cap)) && s.opened_by(
        f,
        validator,
    )
}

/// What is in plain sight is not missed: `found` is a solution with no more carriage
/// returns, the same one if there is no other.
pub open spec fn nothing_missed(
    s: beam::SectionModel,
    validator: Option<png::PngModel>,
    found: Option<Seq<usize>>,
) -> bool {
    forall|f: Seq<usize>| #[trigger]
        in_plain_sight(s, validator, f) ==> (found matches Some(g) && g.len() <= f.len() && (
        only_solution(s, f) ==> g == f))
}

/// No line feed stands between the end of one piece and the next line feed.
proof fn lemma_no_lf_between(s: beam::SectionModel, f: Seq<usize>, i: nat, x: usize)
    requires
        s.wf(),
        i <= s.lfs.len(),
        forall|x: usize| #[trigger] f.contains(x) ==> s.lfs.contains(x),
        s.fed_to(i) <= x,
        i < s.lfs.len() ==> x < s.lfs[i as int],
    ensures
        !f.contains(x),
{
    if f.contains(x) {
        assert(s.lfs.contains(x));
        let m = choose|m: int| 0 <= m < s.lfs.len() && s.lfs[m] == x;
        if m < i {
            if m < i - 1 {
                assert(s.lfs[m] < s.lfs[i - 1]);
            }
        } else if i < m {
            assert(s.lfs[i as int] < s.lfs[m]);
        }
    }
}

/// The pieces of the section up to a line feed, and where they stand in the stream.
proof fn lemma_places(s: beam::SectionModel, f: Seq<usize>, i: nat)
    requires
        s.wf(),
        i < s.lfs.len(),
    ensures
        s.fed_to(i) <= s.lfs[i as int] < s.base.len(),
        s.lfs[i as int] <= s.last_cut() <= s.base.len(),
        s.lfs[i as int] + 1 < s.base.len() ==> s.lfs[i as int] + 1 <= s.last_cut(),
        i + 1 < s.lfs.len() ==> s.lfs[i as int] + 1 < s.base.len(),
{
    let n = s.lfs.len() as int;
    if i > 0 {
        assert(s.lfs[i - 1] < s.lfs[i as int]);
    }
    if i < n - 1 {
        assert(s.lfs[i as int] < s.lfs[n - 1]);
        assert(s.lfs[i as int] < s.lfs[i as int + 1]);
    }
}

/// The candidate that is followed is there before the first byte.
pub proof fn lemma_start_follows(
    s: beam::SectionModel,
    f: Seq<usize>,
    validator: Option<png::PngModel>,
)
    requires
        s.opened_by(f, validator),
    ensures
        ({
            let start = candidate::CandidateModel::start(s.prefix.len() > 0, validator);
            start.wf() && start.linked() ==> s.followed(seq![start], f, validator, 0)
        }),
{
    let w = s.way(f, validator);
    let start = candidate::CandidateModel::start(s.prefix.len() > 0, validator);
    if start.wf() && start.linked() {
        assert(unpack::absorbed(start.calls) =~= w.stream.take(0));
        assert(unpack::emitted(start.calls) =~= Seq::empty());
        assert(start.on_way(w, 0));
        positions::lemma_rank_is(f, 0, 0);
        assert(seq![start][0].on_way(w, s.reached(f, 0)));
    }
}

/// What stands in front of the next line feed is fed to the candidate that is followed.
pub proof fn lemma_feed_follows(
    s: beam::SectionModel,
    cands: Seq<candidate::CandidateModel>,
    f: Seq<usize>,
    validator: Option<png::PngModel>,
    i: nat,
)
    requires
        s.wf(),
        i < s.lfs.len(),
        s.opened_by(f, validator),
        s.followed(cands, f, validator, i),
        s.lfs[i as int] > s.fed_to(i) ==> all_feed_well(
            cands,
            s.base.subrange(s.fed_to(i), s.lfs[i as int] as int),
            true,
        ),
    ensures
        ({
            let lf = s.lfs[i as int];
            let fed = if lf > s.fed_to(i) {
                beam::survivors(cands, s.base.subrange(s.fed_to(i), lf as int), true)
            } else {
                cands
            };
            has_on_way(fed, s.way(f, validator), s.reached(f, lf as int), positions::rank(f, lf as int))
        }),
{
    let w = s.way(f, validator);
    let lf = s.lfs[i as int];
    let start = s.fed_to(i);
    lemma_places(s, f, i);
    assert forall|x: usize| start <= x < lf implies !#[trigger] f.contains(x) by {
        lemma_no_lf_between(s, f, i, x);
    }
    positions::lemma_rank_over_gap(f, start, lf as int);
    let k = choose|k: int|
        0 <= k < cands.len() && (#[trigger] cands[k]).on_way(w, s.reached(f, start))
            && cands[k].inserts.len() == positions::rank(f, start);
    if lf > start {
        let chunk = s.base.subrange(start, lf as int);
        splice::lemma_spliced_gap(s.base, start, lf as int, f);
        splice::lemma_spliced_prefix(s.base, lf as int, s.base.len() as int, f);
        splice::lemma_spliced_prefix(s.base, lf as int, s.last_cut(), f);
        let n = s.reached(f, start);
        assert(w.stream.subrange(n, n + chunk.len()) =~= chunk) by {
            let part = splice::spliced(s.base, lf as int, f);
            assert(part =~= w.stream.take(part.len() as int));
            assert(part.subrange(n, n + chunk.len()) =~= chunk);
        }
        assert(w.goes_on(n, chunk, true));
        assert(cands[k].feeds_well(chunk, true));
        beam::lemma_survivor(cands, chunk, true, k);
        let all = beam::survivors(cands, chunk, true);
        let c = cands[k].fed(chunk, true)->Ok_0;
        let m = choose|m: int| 0 <= m < all.len() && all[m] == c;
        candidate::lemma_feeding_keeps_inserts(cands[k], chunk, true);
        assert(all[m].on_way(w, s.reached(f, lf as int)));
    } else {
        assert(cands[k].on_way(w, s.reached(f, lf as int)));
    }
}

/// At a line feed one of the two ways on is that of the candidate that is followed.
pub proof fn lemma_fork_follows(
    s: beam::SectionModel,
    fed: Seq<candidate::CandidateModel>,
    f: Seq<usize>,
    validator: Option<png::PngModel>,
    i: nat,
)
    requires
        s.wf(),
        i < s.lfs.len(),
        s.opened_by(f, validator),
        has_on_way(
            fed,
            s.way(f, validator),
            s.reached(f, s.lfs[i as int] as int),
            positions::rank(f, s.lfs[i as int] as int),
        ),
        all_fork_well(
            fed,
            s.lfs[i as int],
            s.base[s.lfs[i as int] as int],
            s.lfs[i as int] + 1 < s.base.len() || i + 1 < s.lfs.len(),
        ),
    ensures
        s.followed(
            beam::forked(
                fed,
                s.lfs[i as int],
                s.base[s.lfs[i as int] as int],
                s.lfs[i as int] + 1 < s.base.len() || i + 1 < s.lfs.len(),
            ),
            f,
            validator,
            i + 1,
        ),
{
    let w = s.way(f, validator);
    let lf = s.lfs[i as int];
    let byte = s.base[lf as int];
    let has_more = lf + 1 < s.base.len() || i + 1 < s.lfs.len();
    let n = s.reached(f, lf as int);
    let end = s.reached(f, lf + 1);
    let all = beam::forked(fed, lf, byte, has_more);
    lemma_places(s, f, i);
    let k = choose|k: int|
        0 <= k < fed.len() && (#[trigger] fed[k]).on_way(w, n) && fed[k].inserts.len() == positions::rank(f, lf as int);
    let c = fed[k];
    let noted = candidate::CandidateModel { inserts: c.inserts.push(lf), ..c };
    let put = f.contains(lf);
    let piece = if put {
        seq![CR, byte]
    } else {
        seq![byte]
    };
    let from = if put {
        noted
    } else {
        c
    };
    assert(from.on_way(w, n));
    let part = splice::spliced(s.base, lf + 1, f);
    assert(part =~= splice::spliced(s.base, lf as int, f) + piece);
    splice::lemma_spliced_prefix(s.base, lf + 1, s.base.len() as int, f);
    if has_more {
        splice::lemma_spliced_prefix(s.base, lf + 1, s.last_cut(), f);
    }
    assert(w.stream.subrange(n, n + piece.len()) =~= piece) by {
        assert(part =~= w.stream.take(part.len() as int));
        assert(part.subrange(n, n + piece.len()) =~= piece);
    }
    assert(w.goes_on(n, piece, has_more));
    assert(from.feeds_well(piece, has_more));
    let next = from.fed(piece, has_more)->Ok_0;
    candidate::lemma_feeding_keeps_inserts(from, piece, has_more);
    beam::lemma_fork(fed, lf, byte, has_more, k);
    assert(all.contains(next));
    let m = choose|m: int| 0 <= m < all.len() && all[m] == next;
    positions::lemma_next_rank(f, lf as int);
    if put {
        let j = choose|j: int| 0 <= j < f.len() && f[j] == lf;
        positions::lemma_rank_is_index(f, j);
    } else {
        let r = positions::rank(f, lf as int) as int;
        if r < f.len() && f[r] == lf {
            assert(f.contains(f[r]));
        }
    }
    assert(all[m].inserts.len() == positions::rank(f, lf + 1));
}

/// Whether a candidate that is on its way, or has arrived, may be kept as far as its first
/// bytes tell: if they are the first bytes of the contents, it may.
proof fn lemma_prefix_passes(
    c: candidate::CandidateModel,
    w: candidate::Way,
    prefix: Seq<u8>,
)
    requires
        c.wf(),
        unpack::emitted(c.calls).is_prefix_of(w.contents()),
        prefix.len() <= w.contents().len() ==> prefix.is_prefix_of(w.contents()),
    ensures
        c.prefix_checked(prefix).1,
{
    let out = unpack::emitted(c.calls);
    if !c.prefix_ok && 0 < prefix.len() <= c.output.total_out <= unpack::WINDOW_SIZE {
        candidate::law_prefix_check_reads_output(c, prefix);
        assert(out.take(prefix.len() as int) =~= prefix) by {
            assert(out =~= w.contents().take(out.len() as int));
            assert(prefix =~= w.contents().take(prefix.len() as int));
        }
    }
}

/// The candidate that is followed is not dropped for its first bytes.
pub proof fn lemma_prefix_follows(
    s: beam::SectionModel,
    cands: Seq<candidate::CandidateModel>,
    f: Seq<usize>,
    validator: Option<png::PngModel>,
    i: nat,
)
    requires
        s.opened_by(f, validator),
        s.followed(cands, f, validator, i),
    ensures
        s.followed(beam::prefix_kept(cands, s.prefix), f, validator, i),
{
    let w = s.way(f, validator);
    let fed = s.fed_to(i);
    let all = beam::prefix_kept(cands, s.prefix);
    let count = positions::rank(f, fed);
    if i == 0 || fed < s.base.len() {
        let n = s.reached(f, fed);
        let k = choose|k: int|
            0 <= k < cands.len() && (#[trigger] cands[k]).on_way(w, n) && cands[k].inserts.len() == count;
        lemma_prefix_passes(cands[k], w, s.prefix);
        beam::lemma_prefix_keeps(cands, s.prefix, k);
        let c = cands[k].prefix_checked(s.prefix).0;
        let m = choose|m: int| 0 <= m < all.len() && all[m] == c;
        assert(all[m].on_way(w, n));
    } else {
        let k = choose|k: int|
            0 <= k < cands.len() && (#[trigger] cands[k]).arrived(w) && cands[k].inserts.len() == count;
        lemma_prefix_passes(cands[k], w, s.prefix);
        beam::lemma_prefix_keeps(cands, s.prefix, k);
        let c = cands[k].prefix_checked(s.prefix).0;
        let m = choose|m: int| 0 <= m < all.len() && all[m] == c;
        assert(all[m].arrived(w));
    }
}

/// A candidate that has put out the contents solves the section.
proof fn lemma_arrived_solves(
    s: beam::SectionModel,
    c: candidate::CandidateModel,
    f: Seq<usize>,
    validator: Option<png::PngModel>,
)
    requires
        s.opened_by(f, validator),
        c.arrived(s.way(f, validator)),
    ensures
        s.solved_by(c),
{
    let out = s.way(f, validator).contents();
    if s.trailer.len() <= unpack::WINDOW_SIZE {
        candidate::law_trailer_check_reads_output(c, s.trailer);
        assert(out.skip(out.len() - s.trailer.len()) =~= s.trailer);
    }
}

/// The last piece takes the candidate that is followed to the end, and a solution with no
/// more carriage returns than it has is picked.
pub proof fn lemma_end_follows(
    s: beam::SectionModel,
    cands: Seq<candidate::CandidateModel>,
    f: Seq<usize>,
    validator: Option<png::PngModel>,
)
    requires
        s.wf(),
        s.opened_by(f, validator),
        s.followed(cands, f, validator, s.lfs.len()),
        all_feed_well(cands, s.base.skip(s.fed_to(s.lfs.len())), false),
    ensures
        s.best(beam::survivors(cands, s.base.skip(s.fed_to(s.lfs.len())), false)) matches Some(b)
            && b.len() <= f.len(),
{
    let w = s.way(f, validator);
    let last = s.lfs.len();
    let fed = s.fed_to(last);
    let rest = s.base.skip(fed);
    let all = beam::survivors(cands, rest, false);
    let count = positions::rank(f, fed);
    positions::lemma_rank(f, fed);
    let k = if last == 0 || fed < s.base.len() {
        let n = s.reached(f, fed);
        let k = choose|k: int|
            0 <= k < cands.len() && (#[trigger] cands[k]).on_way(w, n) && cands[k].inserts.len() == count;
        assert forall|x: usize| fed <= x < s.base.len() implies !f.contains(x) by {
            lemma_no_lf_between(s, f, last, x);
        }
        splice::lemma_spliced_gap(s.base, fed, s.base.len() as int, f);
        assert(rest =~= s.base.subrange(fed, s.base.len() as int));
        assert(w.stream.subrange(n, n + rest.len()) =~= rest);
        assert(w.goes_on(n, rest, false));
        assert(cands[k].feeds_well(rest, false));
        k
    } else {
        let k = choose|k: int|
            0 <= k < cands.len() && (#[trigger] cands[k]).arrived(w) && cands[k].inserts.len() == count;
        assert(rest.len() == 0);
        k
    };
    let c = cands[k].fed(rest, false)->Ok_0;
    assert(cands[k].fed(rest, false) is Ok && c.arrived(w));
    candidate::lemma_feeding_keeps_inserts(cands[k], rest, false);
    beam::lemma_survivor(cands, rest, false, k);
    let m = choose|m: int| 0 <= m < all.len() && all[m] == c;
    lemma_arrived_solves(s, c, f, validator);
    beam::lemma_best_found(s, all, m);
}

} // verus!
