//! The beam search over the line feeds of one compressed section.
use vstd::arithmetic::power2;
use vstd::prelude::*;

use crate::candidate;
use crate::candidate::BeamCandidate;
use crate::corrupt::CR;
use crate::follow;
use crate::leader;
use crate::png;
use crate::png::PngValidator;
use crate::positions;
use crate::prune;
use crate::splice;
use crate::survive;
use crate::unpack;

verus! {

/// What the candidates of a beam stand for.
pub open spec fn models(cands: Seq<BeamCandidate>) -> Seq<candidate::CandidateModel> {
    Seq::new(cands.len(), |i: int| cands[i]@)
}

/// Every candidate's bookkeeping agrees with its output, which is that of one stream.
pub open spec fn all_wf(cands: Seq<candidate::CandidateModel>) -> bool {
    forall|i: int| 0 <= i < cands.len() ==> (#[trigger] cands[i]).wf() && cands[i].linked()
}

/// The candidates that can be fed `chunk`, after it.
pub open spec fn survivors(
    cands: Seq<candidate::CandidateModel>,
    chunk: Seq<u8>,
    has_more: bool,
) -> Seq<candidate::CandidateModel>
    decreases cands.len(),
{
    if cands.len() == 0 {
        Seq::empty()
    } else {
        let before = survivors(cands.drop_last(), chunk, has_more);
        match cands.last().fed(chunk, has_more) {
            Ok(c) => before.push(c),
            Err(_) => before,
        }
    }
}

/// Feeds `chunk` to every candidate and keeps those that can take it.
fn feed_all(cands: Vec<BeamCandidate>, chunk: &[u8], has_more: bool) -> (kept: Vec<BeamCandidate>)
    requires
        all_wf(models(cands@)),
    ensures
        models(kept@) == survivors(models(cands@), chunk@, has_more),
        all_wf(models(kept@)),
        follow::all_feed_well(models(cands@), chunk@, has_more),
{
    let mut kept: Vec<BeamCandidate> = Vec::new();
    let ghost all = models(cands@);
    assert(models(kept@) =~= survivors(all.take(0), chunk@, has_more));
    for c in it: cands
        invariant
            all == models(it.seq()),
            all_wf(all),
            models(kept@) == survivors(all.take(it.index() as int), chunk@, has_more),
            all_wf(models(kept@)),
            follow::all_feed_well(all.take(it.index() as int), chunk@, has_more),
    {
        let mut c: BeamCandidate = c;
        let ghost before = models(kept@);
        let ghost i = it.index() as int;
        assert(all[i].wf());
        assert(all.take(i + 1).drop_last() =~= all.take(i));
        match c.feed(chunk, has_more) {
            Ok(()) => {
                kept.push(c);
                assert(models(kept@) =~= before.push(c@));
            },
            Err(_) => {},
        }
        assert(all[i].feeds_well(chunk@, has_more));
    }
    assert(all.take(all.len() as int) =~= all);
    kept
}

/// `x` counted modulo 2^64.
pub open spec fn wrap64(x: int) -> u64 {
    (x % 0x1_0000_0000_0000_0000) as u64
}

/// The candidate in `r`, if there is one.
pub open spec fn if_ok(r: Result<candidate::CandidateModel, candidate::FeedErr>) -> Seq<
    candidate::CandidateModel,
> {
    match r {
        Ok(c) => seq![c],
        Err(_) => Seq::empty(),
    }
}

/// The ways on from each candidate at the line feed at `lf`: with the line feed
/// `byte` alone, and with a carriage return put back in front of it.
pub open spec fn forked(
    cands: Seq<candidate::CandidateModel>,
    lf: usize,
    byte: u8,
    has_more: bool,
) -> Seq<candidate::CandidateModel>
    decreases cands.len(),
{
    if cands.len() == 0 {
        Seq::empty()
    } else {
        let c = cands.last();
        let noted = candidate::CandidateModel { inserts: c.inserts.push(lf), ..c };
        forked(cands.drop_last(), lf, byte, has_more) + if_ok(c.fed(seq![byte], has_more)) + if_ok(
            noted.fed(seq![CR, byte], has_more),
        )
    }
}

/// The candidates whose first bytes do not contradict `prefix`.
pub open spec fn prefix_kept(cands: Seq<candidate::CandidateModel>, prefix: Seq<u8>) -> Seq<
    candidate::CandidateModel,
>
    decreases cands.len(),
{
    if cands.len() == 0 {
        Seq::empty()
    } else {
        let before = prefix_kept(cands.drop_last(), prefix);
        let (c, keep) = cands.last().prefix_checked(prefix);
        if keep {
            before.push(c)
        } else {
            before
        }
    }
}

/// Adds the ways on from one candidate at the line feed at `lf`.
fn fork_one(
    c: BeamCandidate,
    lf: usize,
    byte: u8,
    has_more: bool,
    forks: &mut Vec<BeamCandidate>,
)
    requires
        c@.wf(),
        c@.linked(),
        all_wf(models(old(forks)@)),
    ensures
        models(final(forks)@) == models(old(forks)@) + if_ok(c@.fed(seq![byte], has_more)) + if_ok(
            (candidate::CandidateModel { inserts: c@.inserts.push(lf), ..c@ }).fed(
                seq![CR, byte],
                has_more,
            ),
        ),
        all_wf(models(final(forks)@)),
        follow::all_fork_well(seq![c@], lf, byte, has_more),
{
    let ghost before = models(forks@);
    let ghost alone_after = c@.fed(seq![byte], has_more);
    let mut a: BeamCandidate = c.fork();
    let mut b: BeamCandidate = c;
    b.note_insert(lf);
    let ghost pair_after = b@.fed(seq![CR, byte], has_more);
    let alone: [u8; 1] = [byte];
    let pair: [u8; 2] = [CR, byte];
    assert(alone@ =~= seq![byte]);
    assert(pair@ =~= seq![CR, byte]);
    if a.feed(&alone, has_more).is_ok() {
        forks.push(a);
    }
    assert(models(forks@) =~= before + if_ok(alone_after));
    if b.feed(&pair, has_more).is_ok() {
        forks.push(b);
    }
    assert(models(forks@) =~= before + if_ok(alone_after) + if_ok(pair_after));
}

proof fn lemma_forked_step(
    all: Seq<candidate::CandidateModel>,
    lf: usize,
    byte: u8,
    has_more: bool,
    i: int,
)
    requires
        0 <= i < all.len(),
    ensures
        forked(all.take(i + 1), lf, byte, has_more) == forked(all.take(i), lf, byte, has_more)
            + if_ok(all[i].fed(seq![byte], has_more)) + if_ok(
            (candidate::CandidateModel { inserts: all[i].inserts.push(lf), ..all[i] }).fed(
                seq![CR, byte],
                has_more,
            ),
        ),
{
    assert(all.take(i + 1).drop_last() =~= all.take(i));
}

proof fn lemma_two_more_counted(start: u64, i: nat, counted: u64, next: u64)
    requires
        counted == wrap64(start + 2 * i),
        next == wrap64(counted + 2),
    ensures
        next == wrap64(start + 2 * (i + 1)),
{
}

/// Forks every candidate at the line feed at `lf`, and counts the forks.
fn fork_all(
    cands: Vec<BeamCandidate>,
    lf: usize,
    byte: u8,
    has_more: bool,
    total_attempts: &mut u64,
) -> (forks: Vec<BeamCandidate>)
    requires
        all_wf(models(cands@)),
    ensures
        models(forks@) == forked(models(cands@), lf, byte, has_more),
        all_wf(models(forks@)),
        follow::all_fork_well(models(cands@), lf, byte, has_more),
        *final(total_attempts) == wrap64(*old(total_attempts) + 2 * cands@.len()),
{
    let mut forks: Vec<BeamCandidate> = Vec::new();
    let ghost all = models(cands@);
    assert(models(forks@) =~= forked(all.take(0), lf, byte, has_more));
    for c in it: cands
        invariant
            all == models(it.seq()),
            all_wf(all),
            models(forks@) == forked(all.take(it.index() as int), lf, byte, has_more),
            all_wf(models(forks@)),
            follow::all_fork_well(all.take(it.index() as int), lf, byte, has_more),
            *total_attempts == wrap64(*old(total_attempts) + 2 * it.index()),
    {
        let ghost i = it.index() as int;
        let ghost counted = *total_attempts;
        proof {
            assert(all[i].wf());
            lemma_forked_step(all, lf, byte, has_more, i);
        }
        *total_attempts = total_attempts.wrapping_add(2);
        proof {
            lemma_two_more_counted(*old(total_attempts), i as nat, counted, *total_attempts);
        }
        fork_one(c, lf, byte, has_more, &mut forks);
        proof {
            let one = seq![all[i]];
            assert(one[0] == all[i]);
            assert(all.take(i + 1) =~= all.take(i).push(all[i]));
        }
    }
    assert(all.take(all.len() as int) =~= all);
    forks
}

/// Keeps the candidates whose first bytes do not contradict `prefix`.
fn check_prefixes(cands: Vec<BeamCandidate>, prefix: &[u8]) -> (kept: Vec<BeamCandidate>)
    requires
        all_wf(models(cands@)),
    ensures
        models(kept@) == prefix_kept(models(cands@), prefix@),
        all_wf(models(kept@)),
{
    let mut kept: Vec<BeamCandidate> = Vec::new();
    let ghost all = models(cands@);
    assert(models(kept@) =~= prefix_kept(all.take(0), prefix@));
    for c in it: cands
        invariant
            all == models(it.seq()),
            all_wf(all),
            models(kept@) == prefix_kept(all.take(it.index() as int), prefix@),
            all_wf(models(kept@)),
    {
        let ghost i = it.index() as int;
        let ghost before = models(kept@);
        assert(all[i].wf());
        assert(all.take(i + 1).drop_last() =~= all.take(i));
        let mut c: BeamCandidate = c;
        if c.check_prefix(prefix) {
            kept.push(c);
            assert(models(kept@) =~= before.push(c@));
        }
    }
    assert(all.take(all.len() as int) =~= all);
    kept
}

/// A compressed section whose carriage returns are to be put back, and what is
/// known of its contents.
pub struct SectionModel {
    /// The section with every doubtful carriage return taken out.
    pub base: Seq<u8>,
    /// The checksum of the contents.
    pub crc: u32,
    /// The size of the contents.
    pub size: u64,
    /// The line feeds in `base`.
    pub lfs: Seq<usize>,
    /// How the contents begin.
    pub prefix: Seq<u8>,
    /// How the contents end.
    pub trailer: Seq<u8>,
    /// The width of the beam.
    pub cap: nat,
}

impl SectionModel {
    /// The line feeds are in order and inside the section.
    pub open spec fn wf(self) -> bool {
        &&& positions::ascending(self.lfs)
        &&& forall|i: int| 0 <= i < self.lfs.len() ==> #[trigger] self.lfs[i] < self.base.len()
        &&& self.base.len() <= usize::MAX
    }

    /// How far the candidates have been fed when the `i`-th line feed is next.
    pub open spec fn fed_to(self, i: nat) -> int {
        if i == 0 {
            0
        } else {
            self.lfs[i - 1] + 1
        }
    }

    /// The beam, of which `cands` stands before the `i`-th line feed, after the last
    /// one, and the count of attempts; no beam if it becomes empty on the way.
    pub open spec fn searched(
        self,
        i: nat,
        cands: Seq<candidate::CandidateModel>,
        attempts: u64,
    ) -> (Option<Seq<candidate::CandidateModel>>, u64)
        decreases self.lfs.len() - i,
    {
        if i >= self.lfs.len() {
            (Some(cands), attempts)
        } else {
            let lf = self.lfs[i as int];
            let start = self.fed_to(i);
            let has_more = lf + 1 < self.base.len() || i + 1 < self.lfs.len();
            let fed = if lf > start {
                survivors(cands, self.base.subrange(start, lf as int), true)
            } else {
                cands
            };
            let counted = wrap64(attempts + 2 * fed.len());
            let forks = forked(fed, lf, self.base[lf as int], has_more);
            let kept = if self.prefix.len() > 0 {
                prefix_kept(forks, self.prefix)
            } else {
                forks
            };
            if fed.len() == 0 {
                (None, attempts)
            } else if kept.len() == 0 {
                (None, counted)
            } else {
                self.searched(i + 1, prune::pruned(kept, self.cap, i as usize), counted)
            }
        }
    }

    /// The candidate's stream has ended, and size, end and checksum of what it has
    /// put out are as expected.
    pub open spec fn solved_by(self, c: candidate::CandidateModel) -> bool {
        c.done && c.output.total_out == self.size && c.ends_with(self.trailer) && c.output.crc
            == self.crc
    }

    /// The decisions of the first among those candidates that solve the section
    /// with the fewest carriage returns.
    pub open spec fn best(self, cands: Seq<candidate::CandidateModel>) -> Option<Seq<usize>>
        decreases cands.len(),
    {
        if cands.len() == 0 {
            None
        } else {
            let before = self.best(cands.drop_last());
            let c = cands.last();
            if self.solved_by(c) && (before matches Some(b) ==> c.inserts.len() < b.len()) {
                Some(c.inserts)
            } else {
                before
            }
        }
    }

    /// Where the beam search puts carriage returns back, if it solves the section,
    /// and the count of attempts.
    pub open spec fn beam_fixed(self, validator: Option<png::PngModel>, attempts: u64) -> (
        Option<Seq<usize>>,
        u64,
    ) {
        if unpack::inflates_to(self.base, self.crc) {
            (Some(Seq::empty()), attempts)
        } else {
            let start = candidate::CandidateModel::start(self.prefix.len() > 0, validator);
            let (cands, counted) = self.searched(0, seq![start], attempts);
            let rest = self.base.skip(self.fed_to(self.lfs.len()));
            (
                match cands {
                    Some(cands) => self.best(survivors(cands, rest, false)),
                    None => None,
                },
                counted,
            )
        }
    }

    /// The candidate has read the first `n` bytes of the section with carriage
    /// returns put back where it decided so, at some of the first `i` line feeds.
    pub open spec fn tracked_by(self, c: candidate::CandidateModel, n: int, i: nat) -> bool {
        &&& positions::ascending(c.inserts)
        &&& forall|x: usize|
            #[trigger] c.inserts.contains(x) ==> x < n && self.lfs.take(i as int).contains(x)
        &&& c.has_read(splice::spliced(self.base, n, c.inserts))
    }

    /// Every candidate has read the first `n` bytes, past `i` line feeds.
    pub open spec fn all_tracked(self, cands: Seq<candidate::CandidateModel>, n: int, i: nat) -> bool {
        forall|k: int| 0 <= k < cands.len() ==> self.tracked_by(#[trigger] cands[k], n, i)
    }
}

proof fn lemma_survivors_track(
    s: SectionModel,
    cands: Seq<candidate::CandidateModel>,
    from: int,
    to: int,
    i: nat,
    has_more: bool,
)
    requires
        s.wf(),
        0 <= from <= to <= s.base.len(),
        s.all_tracked(cands, from, i),
    ensures
        s.all_tracked(survivors(cands, s.base.subrange(from, to), has_more), to, i),
    decreases cands.len(),
{
    if cands.len() > 0 {
        let chunk = s.base.subrange(from, to);
        assert forall|k: int| 0 <= k < cands.drop_last().len() implies s.tracked_by(
            #[trigger] cands.drop_last()[k],
            from,
            i,
        ) by {
            assert(s.tracked_by(cands[k], from, i));
        }
        lemma_survivors_track(s, cands.drop_last(), from, to, i, has_more);
        let c = cands[cands.len() - 1];
        assert(s.tracked_by(c, from, i));
        candidate::law_feeding_reads_chunk(
            c,
            splice::spliced(s.base, from, c.inserts),
            chunk,
            has_more,
        );
        splice::lemma_spliced_gap(s.base, from, to, c.inserts);
    }
}

proof fn lemma_forked_track(
    s: SectionModel,
    cands: Seq<candidate::CandidateModel>,
    i: nat,
    has_more: bool,
)
    requires
        s.wf(),
        i < s.lfs.len(),
        s.all_tracked(cands, s.lfs[i as int] as int, i),
    ensures
        s.all_tracked(
            forked(cands, s.lfs[i as int], s.base[s.lfs[i as int] as int], has_more),
            s.lfs[i as int] + 1,
            i + 1,
        ),
    decreases cands.len(),
{
    if cands.len() > 0 {
        let lf = s.lfs[i as int];
        let next = i as int + 1;
        let byte = s.base[lf as int];
        assert forall|k: int| 0 <= k < cands.drop_last().len() implies s.tracked_by(
            #[trigger] cands.drop_last()[k],
            lf as int,
            i,
        ) by {
            assert(s.tracked_by(cands[k], lf as int, i));
        }
        lemma_forked_track(s, cands.drop_last(), i, has_more);
        let c = cands[cands.len() - 1];
        assert(s.tracked_by(c, lf as int, i));
        let read = splice::spliced(s.base, lf as int, c.inserts);
        let noted = candidate::CandidateModel { inserts: c.inserts.push(lf), ..c };
        assert forall|x: usize| s.lfs.take(i as int).contains(x) implies s.lfs.take(next).contains(x) by {
            let k = choose|k: int| 0 <= k < i && s.lfs.take(i as int)[k] == x;
            assert(s.lfs.take(next)[k] == x);
        }
        candidate::law_feeding_reads_chunk(c, read, seq![byte], has_more);
        assert(read + seq![byte] =~= splice::spliced(s.base, lf + 1, c.inserts)) by {
            assert(!c.inserts.contains(lf));
        }
        candidate::law_feeding_reads_chunk(noted, read, seq![CR, byte], has_more);
        assert forall|x: usize| x < lf implies (c.inserts.contains(x) <==> noted.inserts.contains(
            x,
        )) by {
            if c.inserts.contains(x) {
                let k = choose|k: int| 0 <= k < c.inserts.len() && c.inserts[k] == x;
                assert(noted.inserts[k] == x);
            }
            if noted.inserts.contains(x) {
                let k = choose|k: int| 0 <= k < noted.inserts.len() && noted.inserts[k] == x;
                assert(c.inserts[k] == x);
            }
        }
        splice::lemma_spliced_same(s.base, lf as int, c.inserts, noted.inserts);
        assert(noted.inserts[c.inserts.len() as int] == lf);
        assert(read + seq![CR, byte] =~= splice::spliced(s.base, lf + 1, noted.inserts));
        assert(positions::ascending(noted.inserts)) by {
            assert forall|a: int, b: int| 0 <= a < b < noted.inserts.len() implies noted.inserts[a]
                < noted.inserts[b] by {
                if b == c.inserts.len() {
                    assert(c.inserts.contains(c.inserts[a]));
                }
            }
        }
        assert forall|x: usize| #[trigger] noted.inserts.contains(x) implies x < lf + 1
            && s.lfs.take(next).contains(x) by {
            let k = choose|k: int| 0 <= k < noted.inserts.len() && noted.inserts[k] == x;
            if k < c.inserts.len() {
                assert(c.inserts.contains(x));
            } else {
                assert(s.lfs.take(next)[i as int] == lf);
            }
        }
        assert forall|x: usize| #[trigger] c.inserts.contains(x) implies x < lf + 1 && s.lfs.take(next).contains(x) by {
        }
    }
}

proof fn lemma_prefix_kept_track(
    s: SectionModel,
    cands: Seq<candidate::CandidateModel>,
    n: int,
    i: nat,
)
    requires
        s.all_tracked(cands, n, i),
    ensures
        s.all_tracked(prefix_kept(cands, s.prefix), n, i),
    decreases cands.len(),
{
    if cands.len() > 0 {
        assert forall|k: int| 0 <= k < cands.drop_last().len() implies s.tracked_by(
            #[trigger] cands.drop_last()[k],
            n,
            i,
        ) by {
            assert(s.tracked_by(cands[k], n, i));
        }
        lemma_prefix_kept_track(s, cands.drop_last(), n, i);
        assert(s.tracked_by(cands[cands.len() - 1], n, i));
    }
}

/// The positions in a list, if there is one.
pub open spec fn listed(r: Option<Vec<usize>>) -> Option<Seq<usize>> {
    match r {
        Some(v) => Some(v@),
        None => None,
    }
}

impl SectionModel {
    /// The candidate shows that the section is solved: given the section with
    /// carriage returns put back where the candidate decided so, a decoder puts
    /// out contents of the expected size, end and checksum.
    pub open spec fn shown_by(self, c: candidate::CandidateModel) -> bool {
        c.wf() && c.linked() && self.solved_by(c) && self.tracked_by(
            c,
            self.base.len() as int,
            self.lfs.len(),
        )
    }
}

/// Picks the decisions of the first candidate that solves the section with the
/// fewest carriage returns.
fn pick_best(
    cands: Vec<BeamCandidate>,
    expected_crc: u32,
    expected_size: u64,
    trailer: &[u8],
    Ghost(s): Ghost<SectionModel>,
) -> (best: Option<Vec<usize>>)
    requires
        all_wf(models(cands@)),
        s.crc == expected_crc,
        s.size == expected_size,
        s.trailer == trailer@,
    ensures
        listed(best) == s.best(models(cands@)),
        best matches Some(b) ==> exists|k: int|
            0 <= k < cands@.len() && s.solved_by(#[trigger] models(cands@)[k]) && models(
                cands@,
            )[k].inserts == b@,
{
    let mut best: Option<Vec<usize>> = None;
    let ghost all = models(cands@);
    for c in it: cands
        invariant
            all == models(it.seq()),
            all_wf(all),
            s.crc == expected_crc,
            s.size == expected_size,
            s.trailer == trailer@,
            listed(best) == s.best(all.take(it.index() as int)),
            best matches Some(b) ==> exists|k: int|
                0 <= k < all.len() && s.solved_by(#[trigger] all[k]) && all[k].inserts == b@,
    {
        let ghost i = it.index() as int;
        assert(all.take(i + 1).drop_last() =~= all.take(i));
        assert(all[i].wf());
        if c.finished_at(expected_size) && c.ends_with_trailer(trailer) && c.checksum()
            == expected_crc {
            let fewer: bool = match &best {
                Some(b) => c.insert_count() < b.len(),
                None => true,
            };
            if fewer {
                assert(s.solved_by(all[i]));
                best = Some(c.into_inserts());
            }
        }
    }
    assert(all.take(all.len() as int) =~= all);
    best
}

/// One round at most doubles the beam: where there was room for every choice, there still
/// is, and nothing is cut.
proof fn lemma_room(s: SectionModel, cands: Seq<candidate::CandidateModel>, i: nat)
    requires
        i < s.lfs.len(),
        cands.len() * power2::pow2((s.lfs.len() - i) as nat) <= s.cap,
    ensures
        ({
            let lf = s.lfs[i as int];
            let start = s.fed_to(i);
            let has_more = lf + 1 < s.base.len() || i + 1 < s.lfs.len();
            let fed = if lf > start {
                survivors(cands, s.base.subrange(start, lf as int), true)
            } else {
                cands
            };
            let forks = forked(fed, lf, s.base[lf as int], has_more);
            let kept = if s.prefix.len() > 0 {
                prefix_kept(forks, s.prefix)
            } else {
                forks
            };
            &&& prune::pruned(kept, s.cap, i as usize) == kept
            &&& kept.len() * power2::pow2((s.lfs.len() - (i + 1)) as nat) <= s.cap
        }),
{
    let lf = s.lfs[i as int];
    let start = s.fed_to(i);
    let chunk = s.base.subrange(start, lf as int);
    let has_more = lf + 1 < s.base.len() || i + 1 < s.lfs.len();
    let fed = if lf > start {
        survivors(cands, chunk, true)
    } else {
        cands
    };
    let forks = forked(fed, lf, s.base[lf as int], has_more);
    let kept = if s.prefix.len() > 0 {
        prefix_kept(forks, s.prefix)
    } else {
        forks
    };
    if cands.len() > 0 {
        lemma_survivor(cands, chunk, true, 0);
    }
    if fed.len() > 0 {
        lemma_fork(fed, lf, s.base[lf as int], has_more, 0);
    }
    if forks.len() > 0 {
        lemma_prefix_keeps(forks, s.prefix, 0);
    }
    assert(kept.len() <= 2 * cands.len());
    let left = (s.lfs.len() - i) as nat;
    power2::lemma_pow2_unfold(left);
    power2::lemma_pow2_pos((left - 1) as nat);
    let half = power2::pow2((left - 1) as nat);
    assert(kept.len() * half <= cands.len() * power2::pow2(left) && kept.len() <= kept.len() * half)
        by (nonlinear_arith)
        requires
            kept.len() <= 2 * cands.len(),
            power2::pow2(left) == 2 * half,
            half >= 1,
    ;
}

impl SectionModel {
    /// There is room for every choice that is left from the `i`-th line feed on, and the
    /// candidate that decides for carriage returns that open the section is there.
    pub open spec fn unmissed(
        self,
        cands: Seq<candidate::CandidateModel>,
        validator: Option<png::PngModel>,
        i: nat,
    ) -> bool {
        &&& cands.len() * power2::pow2((self.lfs.len() - i) as nat) <= self.cap
        &&& forall|f: Seq<usize>| #[trigger]
            self.opened_by(f, validator) ==> self.followed(cands, f, validator, i)
    }

    /// There are more places than line feeds, and if the section is opened by putting every
    /// carriage return back, the candidate that does so is there, alone with as many.
    pub open spec fn headed(
        self,
        cands: Seq<candidate::CandidateModel>,
        validator: Option<png::PngModel>,
        i: nat,
    ) -> bool {
        &&& self.lfs.len() < self.cap
        &&& leader::led(cands, i)
        &&& self.opened_by(self.lfs, validator) ==> self.followed(cands, self.lfs, validator, i)
    }
}

/// One round keeps the candidate that puts every carriage return back.
proof fn lemma_headed(
    s: SectionModel,
    cands: Seq<candidate::CandidateModel>,
    fed: Seq<candidate::CandidateModel>,
    forks: Seq<candidate::CandidateModel>,
    kept: Seq<candidate::CandidateModel>,
    validator: Option<png::PngModel>,
    i: nat,
)
    requires
        s.wf(),
        i < s.lfs.len(),
        s.headed(cands, validator, i),
        ({
            let lf = s.lfs[i as int];
            let chunk = s.base.subrange(s.fed_to(i), lf as int);
            &&& fed == s.advanced(i, cands)
            &&& lf > s.fed_to(i) ==> follow::all_feed_well(cands, chunk, true)
        }),
        ({
            let lf = s.lfs[i as int];
            let has_more = lf + 1 < s.base.len() || i + 1 < s.lfs.len();
            &&& forks == forked(fed, lf, s.base[lf as int], has_more)
            &&& fed.len() > 0 ==> follow::all_fork_well(fed, lf, s.base[lf as int], has_more)
        }),
        kept == s.spread(i, cands),
    ensures
        s.headed(prune::pruned(kept, s.cap, i as usize), validator, i + 1),
        kept.len() == 0 ==> !s.opened_by(s.lfs, validator),
        fed.len() == 0 ==> !s.opened_by(s.lfs, validator),
{
    let f = s.lfs;
    let w = s.way(f, validator);
    let to = s.fed_to(i + 1);
    let cut = prune::pruned(kept, s.cap, i as usize);
    leader::lemma_fewer_than_bytes(s);
    leader::lemma_round_led(s, cands, i);
    if s.opened_by(f, validator) {
        follow::lemma_feed_follows(s, cands, f, validator, i);
        follow::lemma_fork_follows(s, fed, f, validator, i);
        if s.prefix.len() > 0 {
            follow::lemma_prefix_follows(s, forks, f, validator, i + 1);
        }
        positions::lemma_rank_is_index(f, i as int);
        positions::lemma_next_rank(f, f[i as int] as int);
        assert(positions::rank(f, to) == i + 1);
        let k = if to < s.base.len() {
            choose|k: int|
                0 <= k < kept.len() && (#[trigger] kept[k]).on_way(w, s.reached(f, to))
                    && kept[k].inserts.len() == positions::rank(f, to)
        } else {
            choose|k: int|
                0 <= k < kept.len() && (#[trigger] kept[k]).arrived(w) && kept[k].inserts.len()
                    == positions::rank(f, to)
        };
        assert(kept.contains(kept[k]));
        leader::lemma_leader_stays(kept, s.cap, i as usize, i + 1, kept[k]);
        let m = choose|m: int| 0 <= m < cut.len() && cut[m] == kept[k];
        assert(cut[m].inserts.len() == positions::rank(f, to));
        if to < s.base.len() {
            assert(cut[m].on_way(w, s.reached(f, to)));
        } else {
            assert(cut[m].arrived(w));
        }
    } else {
        leader::lemma_leader_stays(kept, s.cap, i as usize, i + 1, cands[0]);
    }
}

/// One round keeps what it has room for.
proof fn lemma_unmissed(
    s: SectionModel,
    cands: Seq<candidate::CandidateModel>,
    fed: Seq<candidate::CandidateModel>,
    forks: Seq<candidate::CandidateModel>,
    kept: Seq<candidate::CandidateModel>,
    validator: Option<png::PngModel>,
    i: nat,
)
    requires
        s.wf(),
        i < s.lfs.len(),
        s.unmissed(cands, validator, i),
        ({
            let lf = s.lfs[i as int];
            let chunk = s.base.subrange(s.fed_to(i), lf as int);
            &&& fed == if lf > s.fed_to(i) {
                survivors(cands, chunk, true)
            } else {
                cands
            }
            &&& lf > s.fed_to(i) ==> follow::all_feed_well(cands, chunk, true)
        }),
        ({
            let lf = s.lfs[i as int];
            let has_more = lf + 1 < s.base.len() || i + 1 < s.lfs.len();
            &&& forks == forked(fed, lf, s.base[lf as int], has_more)
            &&& fed.len() > 0 ==> follow::all_fork_well(fed, lf, s.base[lf as int], has_more)
        }),
        kept == if s.prefix.len() > 0 {
            prefix_kept(forks, s.prefix)
        } else {
            forks
        },
    ensures
        s.unmissed(prune::pruned(kept, s.cap, i as usize), validator, i + 1),
        kept.len() == 0 ==> forall|f: Seq<usize>| !#[trigger] s.opened_by(f, validator),
        fed.len() == 0 ==> forall|f: Seq<usize>| !#[trigger] s.opened_by(f, validator),
{
    lemma_room(s, cands, i);
    assert forall|f: Seq<usize>| #[trigger] s.opened_by(f, validator) implies s.followed(
        kept,
        f,
        validator,
        i + 1,
    ) && fed.len() > 0 by {
        follow::lemma_feed_follows(s, cands, f, validator, i);
        follow::lemma_fork_follows(s, fed, f, validator, i);
        if s.prefix.len() > 0 {
            follow::lemma_prefix_follows(s, forks, f, validator, i + 1);
        }
    }
}

/// Takes the beam past the `i`-th line feed; `None` if it becomes empty.
fn pass_line_feed(
    cands: Vec<BeamCandidate>,
    base: &[u8],
    lf_positions: &[usize],
    expected_prefix: &[u8],
    beam_cap: usize,
    i: usize,
    feed_start: usize,
    total_attempts: &mut u64,
    Ghost(s): Ghost<SectionModel>,
    Ghost(validator): Ghost<Option<png::PngModel>>,
) -> (passed: Option<Vec<BeamCandidate>>)
    requires
        s.wf(),
        s.base == base@,
        s.lfs == lf_positions@,
        s.prefix == expected_prefix@,
        s.cap == beam_cap,
        i < lf_positions@.len(),
        feed_start == s.fed_to(i as nat),
        all_wf(models(cands@)),
        s.all_tracked(models(cands@), feed_start as int, i as nat),
    ensures
        match passed {
            Some(next) => {
                &&& all_wf(models(next@))
                &&& s.all_tracked(models(next@), s.lfs[i as int] + 1, (i + 1) as nat)
                &&& s.searched(i as nat, models(cands@), *old(total_attempts)) == s.searched(
                    (i + 1) as nat,
                    models(next@),
                    *final(total_attempts),
                )
                &&& s.unmissed(models(cands@), validator, i as nat) ==> s.unmissed(
                    models(next@),
                    validator,
                    (i + 1) as nat,
                )
                &&& s.headed(models(cands@), validator, i as nat) ==> s.headed(
                    models(next@),
                    validator,
                    (i + 1) as nat,
                )
            },
            None => {
                &&& s.searched(i as nat, models(cands@), *old(total_attempts)) == (
                    None::<Seq<candidate::CandidateModel>>,
                    *final(total_attempts),
                )
                &&& s.unmissed(models(cands@), validator, i as nat) ==> forall|f: Seq<usize>|
                    !#[trigger] s.opened_by(f, validator)
                &&& s.headed(models(cands@), validator, i as nat) ==> !s.opened_by(s.lfs, validator)
            },
        },
{
    assert(base.len() == base@.len());
    let lf_pos: usize = lf_positions[i];
    let ghost all = models(cands@);
    proof {
        if i > 0 {
            assert(s.lfs[i - 1] < s.lfs[i as int]);
        }
    }
    let mut cands: Vec<BeamCandidate> = cands;
    if lf_pos > feed_start {
        let chunk: &[u8] = &base[feed_start..lf_pos];
        proof {
            lemma_survivors_track(s, all, feed_start as int, lf_pos as int, i as nat, true);
        }
        cands = feed_all(cands, chunk, true);
    }
    let ghost fed = models(cands@);
    let lf_byte: u8 = base[lf_pos];
    let has_more: bool = lf_pos + 1 < base.len() || i + 1 < lf_positions.len();
    if cands.len() == 0 {
        proof {
            if s.unmissed(all, validator, i as nat) {
                let forks = forked(fed, lf_pos, lf_byte, has_more);
                let kept = if s.prefix.len() > 0 {
                    prefix_kept(forks, s.prefix)
                } else {
                    forks
                };
                lemma_unmissed(s, all, fed, forks, kept, validator, i as nat);
            }
            if s.headed(all, validator, i as nat) {
                let forks = forked(fed, lf_pos, lf_byte, has_more);
                lemma_headed(s, all, fed, forks, s.spread(i as nat, all), validator, i as nat);
            }
        }
        return None;
    }
    proof {
        lemma_forked_track(s, fed, i as nat, has_more);
    }
    cands = fork_all(cands, lf_pos, lf_byte, has_more, total_attempts);
    let ghost forks = models(cands@);
    if expected_prefix.len() > 0 {
        proof {
            lemma_prefix_kept_track(s, forks, lf_pos + 1, (i + 1) as nat);
        }
        cands = check_prefixes(cands, expected_prefix);
    }
    let ghost kept = models(cands@);
    proof {
        if s.unmissed(all, validator, i as nat) {
            lemma_unmissed(s, all, fed, forks, kept, validator, i as nat);
        }
        if s.headed(all, validator, i as nat) {
            lemma_headed(s, all, fed, forks, kept, validator, i as nat);
        }
    }
    if cands.len() == 0 {
        return None;
    }
    cands = prune::prune(cands, beam_cap, i);
    proof {
        prune::law_pruning_only_drops(kept, s.cap, i);
        assert forall|k: int| 0 <= k < cands@.len() implies (#[trigger] models(cands@)[k]).wf()
            && models(cands@)[k].linked() && s.tracked_by(
            models(cands@)[k],
            lf_pos + 1,
            (i + 1) as nat,
        ) by {
            let m = choose|m: int| 0 <= m < kept.len() && kept[m] == models(cands@)[k];
            assert(kept[m].wf());
            assert(s.tracked_by(kept[m], lf_pos + 1, (i + 1) as nat));
        }
    }
    Some(cands)
}

/// Searches for the carriage returns to put back into a section so that it unpacks
/// to contents of the given size and checksum.
///
/// At each line feed every candidate forks: one goes on with the line feed alone,
/// one with a carriage return in front of it. Candidates that the decoder, the
/// validator or the known prefix contradicts are dropped, and the beam is cut down
/// to `beam_cap`. Among the candidates that reach the end with the right size,
/// trailer and checksum, the one with the fewest carriage returns wins. A beam that has
/// room for every choice misses nothing: if some carriage returns put back make a section
/// that unpacks in one go as expected, the search finds a solution with no more of them.
/// So does a beam with more places than there are line feeds, if that is the section with
/// every carriage return put back.
pub fn beam_search_fix_section(
    base: &[u8],
    expected_crc: u32,
    expected_uncomp_size: u64,
    lf_positions: &[usize],
    expected_prefix: &[u8],
    expected_trailer: &[u8],
    initial_validator: Option<PngValidator>,
    beam_cap: usize,
    total_attempts: &mut u64,
) -> (found: Option<Vec<usize>>)
    requires
        positions::ascending(lf_positions@),
        forall|i: int|
            0 <= i < lf_positions@.len() ==> #[trigger] lf_positions@[i] < base@.len(),
        initial_validator matches Some(v) ==> v@.wf(),
    ensures
        ({
            let s = SectionModel {
                base: base@,
                crc: expected_crc,
                size: expected_uncomp_size,
                lfs: lf_positions@,
                prefix: expected_prefix@,
                trailer: expected_trailer@,
                cap: beam_cap as nat,
            };
            &&& (listed(found), *final(total_attempts)) == s.beam_fixed(
                candidate::validator_model(initial_validator),
                *old(total_attempts),
            )
            &&& found matches Some(inserts) ==> unpack::inflates_to(base@, expected_crc)
                || exists|c: candidate::CandidateModel| #[trigger]
                s.shown_by(c) && c.inserts == inserts@
            &&& power2::pow2(lf_positions@.len()) <= beam_cap ==> forall|f: Seq<usize>| #[trigger]
                s.opened_by(f, candidate::validator_model(initial_validator)) ==> (found matches Some(
                    inserts,
                ) && inserts@.len() <= f.len())
            &&& lf_positions@.len() < beam_cap && s.opened_by(
                lf_positions@,
                candidate::validator_model(initial_validator),
            ) ==> (found matches Some(inserts) && inserts@.len() <= lf_positions@.len())
        }),
{
    let ghost s = SectionModel {
        base: base@,
        crc: expected_crc,
        size: expected_uncomp_size,
        lfs: lf_positions@,
        prefix: expected_prefix@,
        trailer: expected_trailer@,
        cap: beam_cap as nat,
    };
    let ghost model = candidate::validator_model(initial_validator);
    let ghost wide = power2::pow2(lf_positions@.len()) <= beam_cap;
    if unpack::try_decompress_check(base, expected_crc) {
        let none: Vec<usize> = Vec::new();
        return Some(none);
    }
    assert(base.len() == base@.len());
    let has_signature: bool = expected_prefix.len() > 0;
    let mut cands: Vec<BeamCandidate> = Vec::new();
    cands.push(BeamCandidate::new(has_signature, initial_validator));
    let mut feed_start: usize = 0;
    proof {
        let start = candidate::CandidateModel::start(has_signature, model);
        assert(models(cands@) =~= seq![start]);
        assert(s.all_tracked(models(cands@), 0, 0)) by {
            assert(unpack::absorbed(start.calls) =~= splice::spliced(base@, 0, start.inserts));
        }
        if wide {
            assert forall|f: Seq<usize>| #[trigger] s.opened_by(f, model) implies s.followed(
                models(cands@),
                f,
                model,
                0,
            ) by {
                follow::lemma_start_follows(s, f, model);
            }
            assert(1 * power2::pow2(s.lfs.len()) == power2::pow2(s.lfs.len()));
        }
        survive::lemma_alike_bounds(models(cands@), 0);
        if s.opened_by(s.lfs, model) {
            follow::lemma_start_follows(s, s.lfs, model);
        }
    }
    for i in 0..lf_positions.len()
        invariant
            s == (SectionModel {
                base: base@,
                crc: expected_crc,
                size: expected_uncomp_size,
                lfs: lf_positions@,
                prefix: expected_prefix@,
                trailer: expected_trailer@,
                cap: beam_cap as nat,
            }),
            s.wf(),
            model == candidate::validator_model(initial_validator),
            has_signature == (expected_prefix@.len() > 0),
            !unpack::inflates_to(base@, expected_crc),
            all_wf(models(cands@)),
            feed_start == s.fed_to(i as nat),
            feed_start <= base@.len(),
            s.all_tracked(models(cands@), feed_start as int, i as nat),
            wide == (power2::pow2(lf_positions@.len()) <= beam_cap),
            wide ==> s.unmissed(models(cands@), model, i as nat),
            lf_positions@.len() < beam_cap ==> s.headed(models(cands@), model, i as nat),
            s.searched(
                0,
                seq![candidate::CandidateModel::start(has_signature, model)],
                *old(total_attempts),
            ) == s.searched(i as nat, models(cands@), *total_attempts),
    {
        match pass_line_feed(
            cands,
            base,
            lf_positions,
            expected_prefix,
            beam_cap,
            i,
            feed_start,
            total_attempts,
            Ghost(s),
            Ghost(model),
        ) {
            Some(next) => {
                cands = next;
            },
            None => {
                return None;
            },
        }
        feed_start = lf_positions[i] + 1;
    }
    let rest: &[u8] = &base[feed_start..base.len()];
    assert(rest@ =~= base@.skip(feed_start as int));
    proof {
        lemma_survivors_track(
            s,
            models(cands@),
            feed_start as int,
            base@.len() as int,
            lf_positions@.len(),
            false,
        );
        assert(base@.subrange(feed_start as int, base@.len() as int) =~= rest@);
    }
    let ghost before = models(cands@);
    let survived: Vec<BeamCandidate> = feed_all(cands, rest, false);
    let ghost last = models(survived@);
    let found: Option<Vec<usize>> = pick_best(
        survived,
        expected_crc,
        expected_uncomp_size,
        expected_trailer,
        Ghost(s),
    );
    proof {
        if found is Some {
            let k = choose|k: int|
                0 <= k < last.len() && s.solved_by(#[trigger] last[k]) && last[k].inserts
                    == found->0@;
            assert(last[k].wf());
            assert(s.tracked_by(last[k], base@.len() as int, lf_positions@.len()));
            assert(s.shown_by(last[k]));
        }
        if wide {
            assert forall|f: Seq<usize>| #[trigger] s.opened_by(f, model) implies (found matches Some(
                inserts,
            ) && inserts@.len() <= f.len()) by {
                follow::lemma_end_follows(s, before, f, model);
            }
        }
        if lf_positions@.len() < beam_cap && s.opened_by(lf_positions@, model) {
            follow::lemma_end_follows(s, before, lf_positions@, model);
        }
    }
    found
}

impl SectionModel {
    /// What becomes of one candidate at the `i`-th line feed if it decides to `put` a
    /// carriage return back there, or not to; none if it is dropped.
    pub open spec fn stepped(self, i: nat, c: candidate::CandidateModel, put: bool) -> Option<
        candidate::CandidateModel,
    > {
        let lf = self.lfs[i as int];
        let byte = self.base[lf as int];
        let start = self.fed_to(i);
        let has_more = lf + 1 < self.base.len() || i + 1 < self.lfs.len();
        let before = if lf > start {
            c.fed(self.base.subrange(start, lf as int), true)
        } else {
            Ok(c)
        };
        let after = match before {
            Err(e) => Err(e),
            Ok(c) => if put {
                (candidate::CandidateModel { inserts: c.inserts.push(lf), ..c }).fed(
                    seq![CR, byte],
                    has_more,
                )
            } else {
                c.fed(seq![byte], has_more)
            },
        };
        match after {
            Err(_) => None,
            Ok(c) => if self.prefix.len() == 0 {
                Some(c)
            } else if c.prefix_checked(self.prefix).1 {
                Some(c.prefix_checked(self.prefix).0)
            } else {
                None
            },
        }
    }

    /// The candidates that can read what stands in front of the `i`-th line feed.
    pub open spec fn advanced(self, i: nat, cands: Seq<candidate::CandidateModel>) -> Seq<
        candidate::CandidateModel,
    > {
        let lf = self.lfs[i as int];
        let start = self.fed_to(i);
        if lf > start {
            survivors(cands, self.base.subrange(start, lf as int), true)
        } else {
            cands
        }
    }

    /// The beam behind the `i`-th line feed before it is cut.
    pub open spec fn spread(self, i: nat, cands: Seq<candidate::CandidateModel>) -> Seq<
        candidate::CandidateModel,
    > {
        let lf = self.lfs[i as int];
        let has_more = lf + 1 < self.base.len() || i + 1 < self.lfs.len();
        let forks = forked(self.advanced(i, cands), lf, self.base[lf as int], has_more);
        if self.prefix.len() > 0 {
            prefix_kept(forks, self.prefix)
        } else {
            forks
        }
    }

    /// What becomes of one candidate that stands before the `i`-th line feed if it
    /// decides as `choices` say; none if it is dropped on the way.
    pub open spec fn walked(
        self,
        i: nat,
        c: candidate::CandidateModel,
        choices: Seq<bool>,
    ) -> Option<candidate::CandidateModel>
        decreases self.lfs.len() - i,
    {
        if i >= self.lfs.len() {
            match c.fed(self.base.skip(self.fed_to(self.lfs.len())), false) {
                Ok(c) => Some(c),
                Err(_) => None,
            }
        } else {
            match self.stepped(i, c, choices[i as int]) {
                Some(c) => self.walked(i + 1, c, choices),
                None => None,
            }
        }
    }
}

pub proof fn lemma_survivor(
    cands: Seq<candidate::CandidateModel>,
    chunk: Seq<u8>,
    has_more: bool,
    k: int,
)
    requires
        0 <= k < cands.len(),
    ensures
        survivors(cands, chunk, has_more).len() <= cands.len(),
        cands[k].fed(chunk, has_more) matches Ok(c) ==> survivors(cands, chunk, has_more).contains(c),
    decreases cands.len(),
{
    let shorter = cands.drop_last();
    let before = survivors(shorter, chunk, has_more);
    let all = survivors(cands, chunk, has_more);
    if shorter.len() > 0 {
        let m = if k < shorter.len() {
            k
        } else {
            0
        };
        lemma_survivor(shorter, chunk, has_more, m);
    }
    if let Ok(c) = cands[k].fed(chunk, has_more) {
        if k < shorter.len() {
            assert(shorter[k] == cands[k]);
            let m = choose|m: int| 0 <= m < before.len() && before[m] == c;
            assert(all[m] == c);
        } else {
            assert(all[all.len() - 1] == c);
        }
    }
}

pub proof fn lemma_fork(
    cands: Seq<candidate::CandidateModel>,
    lf: usize,
    byte: u8,
    has_more: bool,
    k: int,
)
    requires
        0 <= k < cands.len(),
    ensures
        forked(cands, lf, byte, has_more).len() <= 2 * cands.len(),
        cands[k].fed(seq![byte], has_more) matches Ok(c) ==> forked(
            cands,
            lf,
            byte,
            has_more,
        ).contains(c),
        (candidate::CandidateModel { inserts: cands[k].inserts.push(lf), ..cands[k] }).fed(
            seq![CR, byte],
            has_more,
        ) matches Ok(c) ==> forked(cands, lf, byte, has_more).contains(c),
    decreases cands.len(),
{
    let shorter = cands.drop_last();
    let before = forked(shorter, lf, byte, has_more);
    let all = forked(cands, lf, byte, has_more);
    if shorter.len() > 0 {
        let m = if k < shorter.len() {
            k
        } else {
            0
        };
        lemma_fork(shorter, lf, byte, has_more, m);
    }
    let last = cands.last();
    let noted = candidate::CandidateModel { inserts: last.inserts.push(lf), ..last };
    let alone = if_ok(last.fed(seq![byte], has_more));
    let pair = if_ok(noted.fed(seq![CR, byte], has_more));
    assert(all == before + alone + pair);
    if k < shorter.len() {
        assert(shorter[k] == cands[k]);
        assert forall|c: candidate::CandidateModel| before.contains(c) implies all.contains(c) by {
            let m = choose|m: int| 0 <= m < before.len() && before[m] == c;
            assert(all[m] == c);
        }
    } else {
        if alone.len() > 0 {
            assert(all[before.len() as int] == alone[0]);
        }
        if pair.len() > 0 {
            assert(all[(before.len() + alone.len()) as int] == pair[0]);
        }
    }
}

pub proof fn lemma_prefix_keeps(cands: Seq<candidate::CandidateModel>, prefix: Seq<u8>, k: int)
    requires
        0 <= k < cands.len(),
    ensures
        prefix_kept(cands, prefix).len() <= cands.len(),
        cands[k].prefix_checked(prefix).1 ==> prefix_kept(cands, prefix).contains(
            cands[k].prefix_checked(prefix).0,
        ),
    decreases cands.len(),
{
    let shorter = cands.drop_last();
    let before = prefix_kept(shorter, prefix);
    let all = prefix_kept(cands, prefix);
    if shorter.len() > 0 {
        let m = if k < shorter.len() {
            k
        } else {
            0
        };
        lemma_prefix_keeps(shorter, prefix, m);
    }
    if cands[k].prefix_checked(prefix).1 {
        let c = cands[k].prefix_checked(prefix).0;
        if k < shorter.len() {
            assert(shorter[k] == cands[k]);
            let m = choose|m: int| 0 <= m < before.len() && before[m] == c;
            assert(all[m] == c);
        } else {
            assert(all[all.len() - 1] == c);
        }
    }
}

pub proof fn lemma_best_found(s: SectionModel, cands: Seq<candidate::CandidateModel>, k: int)
    requires
        0 <= k < cands.len(),
        s.solved_by(cands[k]),
    ensures
        s.best(cands) matches Some(b) && b.len() <= cands[k].inserts.len(),
    decreases cands.len(),
{
    if k < cands.len() - 1 {
        assert(cands.drop_last()[k] == cands[k]);
        lemma_best_found(s, cands.drop_last(), k);
    }
}

/// What becomes of one candidate in a beam is in the beam's next round.
pub proof fn lemma_step_in_beam(
    s: SectionModel,
    i: nat,
    cands: Seq<candidate::CandidateModel>,
    c: candidate::CandidateModel,
    put: bool,
)
    requires
        i < s.lfs.len(),
        cands.contains(c),
    ensures
        s.stepped(i, c, put) matches Some(next) ==> s.advanced(i, cands).len() > 0 && s.spread(
            i,
            cands,
        ).contains(next),
{
    if s.stepped(i, c, put) is Some {
        let k = choose|k: int| 0 <= k < cands.len() && cands[k] == c;
        let lf = s.lfs[i as int];
        let byte = s.base[lf as int];
        let start = s.fed_to(i);
        let chunk = s.base.subrange(start, lf as int);
        let has_more = lf + 1 < s.base.len() || i + 1 < s.lfs.len();
        let fed = s.advanced(i, cands);
        let before = if lf > start {
            c.fed(chunk, true)->Ok_0
        } else {
            c
        };
        lemma_survivor(cands, chunk, true, k);
        assert(fed.contains(before));
        let m = choose|m: int| 0 <= m < fed.len() && fed[m] == before;
        let forks = forked(fed, lf, byte, has_more);
        lemma_fork(fed, lf, byte, has_more, m);
        let after = if put {
            (candidate::CandidateModel { inserts: before.inserts.push(lf), ..before }).fed(
                seq![CR, byte],
                has_more,
            )->Ok_0
        } else {
            before.fed(seq![byte], has_more)->Ok_0
        };
        assert(forks.contains(after));
        let n = choose|n: int| 0 <= n < forks.len() && forks[n] == after;
        lemma_prefix_keeps(forks, s.prefix, n);
    }
}

proof fn lemma_walk_in_beam(
    s: SectionModel,
    i: nat,
    cands: Seq<candidate::CandidateModel>,
    attempts: u64,
    c: candidate::CandidateModel,
    choices: Seq<bool>,
)
    requires
        i <= s.lfs.len(),
        cands.contains(c),
        cands.len() * power2::pow2((s.lfs.len() - i) as nat) <= s.cap,
    ensures
        s.walked(i, c, choices) matches Some(end) ==> (s.searched(i, cands, attempts).0 matches Some(
            last,
        ) && survivors(last, s.base.skip(s.fed_to(s.lfs.len())), false).contains(end)),
    decreases s.lfs.len() - i,
{
    if i >= s.lfs.len() {
        let k = choose|k: int| 0 <= k < cands.len() && cands[k] == c;
        lemma_survivor(cands, s.base.skip(s.fed_to(s.lfs.len())), false, k);
    } else if s.stepped(i, c, choices[i as int]) is Some {
        let kept = s.spread(i, cands);
        let next = s.stepped(i, c, choices[i as int])->0;
        lemma_step_in_beam(s, i, cands, c, choices[i as int]);
        lemma_room(s, cands, i);
        assert(prune::pruned(kept, s.cap, i as usize) == kept);
        lemma_walk_in_beam(
            s,
            i + 1,
            kept,
            wrap64(attempts + 2 * s.advanced(i, cands).len()),
            next,
            choices,
        );
    }
}

/// A beam that has room for every choice drops none: if some choice of carriage returns to
/// put back takes a candidate to the end and solves the section, the search finds a solution
/// with no more of them. `beam_search_fix_section` ensures the same of every choice that
/// makes a section that unpacks in one go.
pub proof fn law_wide_beam_misses_nothing(
    s: SectionModel,
    validator: Option<png::PngModel>,
    attempts: u64,
    choices: Seq<bool>,
)
    requires
        power2::pow2(s.lfs.len()) <= s.cap,
    ensures
        ({
            let start = candidate::CandidateModel::start(s.prefix.len() > 0, validator);
            match s.walked(0, start, choices) {
                Some(end) => s.solved_by(end) ==> (s.beam_fixed(validator, attempts).0 matches Some(
                    found,
                ) && found.len() <= end.inserts.len()),
                None => true,
            }
        }),
{
    let start = candidate::CandidateModel::start(s.prefix.len() > 0, validator);
    let cands = seq![start];
    assert(cands[0] == start);
    if let Some(end) = s.walked(0, start, choices) {
        lemma_walk_in_beam(s, 0, cands, attempts, start, choices);
        let last = s.searched(0, cands, attempts).0->0;
        let all = survivors(last, s.base.skip(s.fed_to(s.lfs.len())), false);
        let k = choose|k: int| 0 <= k < all.len() && all[k] == end;
        if s.solved_by(end) {
            lemma_best_found(s, all, k);
        }
    }
}

impl SectionModel {
    /// Putting carriage returns back in front of the line feeds `f` solves the section: it
    /// then unpacks to the expected checksum, or a candidate that decided so has read all
    /// of it and put out contents of the expected size, end and checksum.
    pub open spec fn solves(self, f: Seq<usize>) -> bool {
        ||| unpack::inflates_to(splice::with_crs(self.base, f), self.crc)
        ||| exists|c: candidate::CandidateModel| #[trigger]
            self.solved_by(c) && self.tracked_by(c, self.base.len() as int, self.lfs.len())
                && c.inserts == f
    }
}

proof fn lemma_best_from(s: SectionModel, cands: Seq<candidate::CandidateModel>) -> (k: int)
    requires
        s.best(cands) is Some,
    ensures
        0 <= k < cands.len(),
        s.solved_by(cands[k]),
        s.best(cands) == Some(cands[k].inserts),
    decreases cands.len(),
{
    let before = s.best(cands.drop_last());
    let c = cands.last();
    if s.solved_by(c) && (before matches Some(b) ==> c.inserts.len() < b.len()) {
        cands.len() - 1
    } else {
        let k = lemma_best_from(s, cands.drop_last());
        assert(cands.drop_last()[k] == cands[k]);
        k
    }
}

proof fn lemma_searched_track(
    s: SectionModel,
    i: nat,
    cands: Seq<candidate::CandidateModel>,
    attempts: u64,
)
    requires
        s.wf(),
        i <= s.lfs.len(),
        s.all_tracked(cands, s.fed_to(i), i),
    ensures
        s.searched(i, cands, attempts).0 matches Some(last) ==> s.all_tracked(
            last,
            s.fed_to(s.lfs.len()),
            s.lfs.len(),
        ),
    decreases s.lfs.len() - i,
{
    if i < s.lfs.len() {
        let lf = s.lfs[i as int];
        let start = s.fed_to(i);
        let has_more = lf + 1 < s.base.len() || i + 1 < s.lfs.len();
        if i > 0 {
            assert(s.lfs[i - 1] < s.lfs[i as int]);
        }
        let fed = if lf > start {
            survivors(cands, s.base.subrange(start, lf as int), true)
        } else {
            cands
        };
        if lf > start {
            lemma_survivors_track(s, cands, start, lf as int, i, true);
        }
        let forks = forked(fed, lf, s.base[lf as int], has_more);
        lemma_forked_track(s, fed, i, has_more);
        lemma_prefix_kept_track(s, forks, lf + 1, i + 1);
        let kept = if s.prefix.len() > 0 {
            prefix_kept(forks, s.prefix)
        } else {
            forks
        };
        let cut = prune::pruned(kept, s.cap, i as usize);
        prune::law_pruning_only_drops(kept, s.cap, i as usize);
        assert forall|k: int| 0 <= k < cut.len() implies s.tracked_by(
            #[trigger] cut[k],
            lf + 1,
            i + 1,
        ) by {
            let m = choose|m: int| 0 <= m < kept.len() && kept[m] == cut[k];
            assert(s.tracked_by(kept[m], lf + 1, i + 1));
        }
        if fed.len() > 0 && kept.len() > 0 {
            lemma_searched_track(s, i + 1, cut, wrap64(attempts + 2 * fed.len()));
        }
    }
}

/// What the beam search finds solves the section.
pub proof fn law_beam_is_sound(s: SectionModel, validator: Option<png::PngModel>, attempts: u64)
    requires
        s.wf(),
    ensures
        s.beam_fixed(validator, attempts).0 matches Some(f) ==> s.solves(f),
{
    if unpack::inflates_to(s.base, s.crc) {
        let none = Seq::<usize>::empty();
        splice::lemma_spliced_gap(s.base, 0, s.base.len() as int, none);
        assert(splice::with_crs(s.base, none) =~= s.base);
    } else if s.beam_fixed(validator, attempts).0 is Some {
        let start = candidate::CandidateModel::start(s.prefix.len() > 0, validator);
        let cands = seq![start];
        assert(s.all_tracked(cands, 0, 0)) by {
            assert(unpack::absorbed(start.calls) =~= splice::spliced(s.base, 0, start.inserts));
        }
        lemma_searched_track(s, 0, cands, attempts);
        let last = s.searched(0, cands, attempts).0->0;
        let from = s.fed_to(s.lfs.len());
        let rest = s.base.skip(from);
        assert(rest =~= s.base.subrange(from, s.base.len() as int));
        lemma_survivors_track(s, last, from, s.base.len() as int, s.lfs.len(), false);
        let all = survivors(last, rest, false);
        let k = lemma_best_from(s, all);
        assert(s.tracked_by(all[k], s.base.len() as int, s.lfs.len()));
    }
}

/// Where a candidate shows that the section is solved, the section with carriage returns
/// put back where the candidate decided so unpacks to the expected size and checksum if it
/// can be unpacked in one go.
pub proof fn law_shown_section_unpacks(s: SectionModel, c: candidate::CandidateModel)
    ensures
        s.shown_by(c) ==> match unpack::inflated(splice::with_crs(s.base, c.inserts)) {
            Some(out) => out.len() == s.size && unpack::inflates_to(
                splice::with_crs(s.base, c.inserts),
                s.crc,
            ),
            None => true,
        },
{
    candidate::law_pieces_agree_with_one_go(c, splice::with_crs(s.base, c.inserts));
}

/// The candidate has come to the end of its stream, and what it has put out has the expected
/// size, checksum and end.
pub open spec fn is_right(s: SectionModel, c: candidate::CandidateModel) -> bool {
    c.done && c.output.total_out == s.size && c.output.crc == s.crc && c.ends_with(s.trailer)
}

/// Among the candidates at the end those win that are right with the fewest carriage returns
/// put back, and among these the first; without one that is right nothing is found.
pub proof fn law_fewest_put_back_win(s: SectionModel, cands: Seq<candidate::CandidateModel>)
    ensures
        match s.best(cands) {
            None => forall|k: int| 0 <= k < cands.len() ==> !is_right(s, #[trigger] cands[k]),
            Some(b) => exists|k: int|
                {
                    &&& 0 <= k < cands.len()
                    &&& is_right(s, #[trigger] cands[k])
                    &&& cands[k].inserts == b
                    &&& forall|m: int|
                        0 <= m < cands.len() && is_right(s, #[trigger] cands[m])
                            ==> cands[m].inserts.len() > b.len() || (m >= k
                            && cands[m].inserts.len() == b.len())
                },
        },
    decreases cands.len(),
{
    if cands.len() > 0 {
        let front = cands.drop_last();
        let c = cands.last();
        law_fewest_put_back_win(s, front);
        assert(cands[cands.len() - 1] == c);
        assert forall|m: int| 0 <= m < front.len() implies #[trigger] cands[m] == front[m] by {}
        match s.best(front) {
            None => {
                assert forall|m: int| 0 <= m < front.len() implies !is_right(
                    s,
                    #[trigger] cands[m],
                ) by {
                    assert(!is_right(s, front[m]));
                }
            },
            Some(b) => {
                let k = choose|k: int|
                    {
                        &&& 0 <= k < front.len()
                        &&& is_right(s, #[trigger] front[k])
                        &&& front[k].inserts == b
                        &&& forall|m: int|
                            0 <= m < front.len() && is_right(s, #[trigger] front[m])
                                ==> front[m].inserts.len() > b.len() || (m >= k
                                && front[m].inserts.len() == b.len())
                    };
                assert(cands[k] == front[k]);
                assert forall|m: int|
                    0 <= m < front.len() && is_right(
                        s,
                        #[trigger] cands[m],
                    ) implies cands[m].inserts.len() > b.len() || (m >= k && cands[m].inserts.len()
                    == b.len()) by {
                    assert(is_right(s, front[m]));
                }
            },
        }
    }
}

impl SectionModel {
    /// How many ways on the candidates of the beam `cands` try from the `i`-th line feed on.
    pub open spec fn ways_tried(self, i: nat, cands: Seq<candidate::CandidateModel>) -> nat
        decreases self.lfs.len() - i,
    {
        if i >= self.lfs.len() {
            0
        } else {
            let here = 2 * self.advanced(i, cands).len();
            if self.spread(i, cands).len() == 0 {
                here
            } else {
                here + self.ways_tried(
                    i + 1,
                    prune::pruned(self.spread(i, cands), self.cap, i as usize),
                )
            }
        }
    }
}

/// Every way on that a candidate tries at a line feed is an attempt, and nothing else is.
pub proof fn law_every_way_is_an_attempt(
    s: SectionModel,
    validator: Option<png::PngModel>,
    attempts: u64,
)
    ensures
        ({
            let start = candidate::CandidateModel::start(s.prefix.len() > 0, validator);
            let counted = s.beam_fixed(validator, attempts).1;
            if unpack::inflates_to(s.base, s.crc) {
                counted == attempts
            } else {
                let total = attempts + s.ways_tried(0, seq![start]);
                counted == total % 0x1_0000_0000_0000_0000
            }
        }),
{
    let start = candidate::CandidateModel::start(s.prefix.len() > 0, validator);
    lemma_ways_tried(s, 0, seq![start], attempts);
}

proof fn lemma_ways_tried(
    s: SectionModel,
    i: nat,
    cands: Seq<candidate::CandidateModel>,
    attempts: u64,
)
    ensures
        s.searched(i, cands, attempts).1 == wrap64(attempts + s.ways_tried(i, cands)),
    decreases s.lfs.len() - i,
{
    if i < s.lfs.len() {
        let fed = s.advanced(i, cands);
        let kept = s.spread(i, cands);
        let counted = wrap64(attempts + 2 * fed.len());
        if fed.len() == 0 {
            assert(kept.len() == 0);
        } else if kept.len() > 0 {
            let cut = prune::pruned(kept, s.cap, i as usize);
            lemma_ways_tried(s, i + 1, cut, counted);
            assert(wrap64(counted + s.ways_tried(i + 1, cut)) == wrap64(
                attempts + (2 * fed.len() + s.ways_tried(i + 1, cut)),
            ));
        }
    }
}

} // verus!
