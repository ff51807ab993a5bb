//! One hypothesis of the beam search: a decoder part of the way through a
//! section, with what it has put out so far.
use vstd::prelude::*;

use crate::bytes;
use crate::checksum;
use crate::png;
use crate::png::PngValidator;
use crate::rank;
use crate::unpack;
use crate::unpack::{Decoder, InflateStatus, WINDOW_SIZE};

verus! {

/// Why a candidate cannot go on.
#[derive(Clone, Copy, Debug, PartialEq, Eq, Structural)]
pub enum FeedErr {
    /// The stream ended before the input did.
    UnexpectedDone,
    /// The decoder gave up.
    BadStatus(InflateStatus),
    /// The decoder neither took input nor put anything out.
    Stuck,
    /// The content validator rejected what was put out.
    ContentInvalid,
    /// More was put out than can be counted.
    OutputTooLong,
}

/// How feeding goes on after a reply of the decoder.
#[derive(Clone, Copy, Debug, PartialEq, Eq, Structural)]
pub enum Step {
    /// The stream has ended.
    Finished,
    /// All of the chunk is taken, and more is to come.
    Paused,
    /// The decoder is to be asked again.
    Again,
}

/// The account of what a decoder has put out.
#[verifier::ext_equal]
pub struct OutputModel {
    /// The checksum of what has been put out.
    pub crc: u32,
    /// Where in the window the next byte goes.
    pub out_pos: int,
    /// How many bytes have been put out.
    pub total_out: int,
    /// The validator that what is put out goes through.
    pub validator: Option<png::PngModel>,
}

/// What a candidate stands for.
#[verifier::ext_equal]
pub struct CandidateModel {
    /// The steps that its decoder has been asked.
    pub calls: Seq<unpack::InflateCall>,
    /// The last `WINDOW_SIZE` bytes put out, as a ring.
    pub window: Seq<u8>,
    /// The account of what has been put out.
    pub output: OutputModel,
    /// The line feeds in front of which a carriage return was put back.
    pub inserts: Seq<usize>,
    /// The stream has ended.
    pub done: bool,
    /// Nothing is left to check of the first bytes put out.
    pub prefix_ok: bool,
}

/// A validator, if there is one, after `out`, and whether it lets `out` pass.
pub open spec fn validated(v: Option<png::PngModel>, out: Seq<u8>) -> (Option<png::PngModel>, bool) {
    match v {
        Some(m) => (Some(m.run(out).0), m.run(out).1),
        None => (None, true),
    }
}

/// What follows from a decoder's reply to a step that it was offered `offered` bytes in,
/// after which more is to come or not.
pub open spec fn judged(reply: unpack::InflateReply, offered: int, has_more: bool) -> Result<
    Step,
    FeedErr,
> {
    match reply.status {
        InflateStatus::Done => if reply.consumed < offered && has_more {
            Err(FeedErr::UnexpectedDone)
        } else {
            Ok(Step::Finished)
        },
        InflateStatus::NeedsMoreInput => if reply.consumed >= offered && has_more {
            Ok(Step::Paused)
        } else if reply.consumed == 0 && reply.written == 0 {
            Err(FeedErr::Stuck)
        } else {
            Ok(Step::Again)
        },
        InflateStatus::HasMoreOutput => if reply.consumed == 0 && reply.written == 0 {
            Err(FeedErr::Stuck)
        } else {
            Ok(Step::Again)
        },
        other => Err(FeedErr::BadStatus(other)),
    }
}

/// What was put out has been taken account of: it could be counted, and the validator let
/// it pass.
pub open spec fn keeps_account<T>(r: Result<T, FeedErr>) -> bool {
    r matches Err(e) ==> e != FeedErr::ContentInvalid && e != FeedErr::OutputTooLong
}

impl OutputModel {
    /// Nothing has been put out.
    pub open spec fn start(validator: Option<png::PngModel>) -> OutputModel {
        OutputModel { crc: 0, out_pos: 0, total_out: 0, validator }
    }

    /// The place is in the window, the count can be held, the validator is in range.
    pub open spec fn in_range(self) -> bool {
        &&& 0 <= self.out_pos < WINDOW_SIZE
        &&& 0 <= self.total_out <= u64::MAX
        &&& self.validator matches Some(m) ==> m.wf()
    }

    /// The account after the decoder's reply to a step that it was offered `offered` bytes
    /// in, and what follows from the reply.
    pub open spec fn taken(self, reply: unpack::InflateReply, offered: int, has_more: bool) -> (
        OutputModel,
        Result<Step, FeedErr>,
    ) {
        let out = reply.window.subrange(self.out_pos, self.out_pos + reply.written);
        let read = OutputModel {
            crc: checksum::crc32_after(self.crc, out),
            validator: validated(self.validator, out).0,
            ..self
        };
        if self.total_out + reply.written > u64::MAX {
            (self, Err(FeedErr::OutputTooLong))
        } else if !validated(self.validator, out).1 {
            (read, Err(FeedErr::ContentInvalid))
        } else {
            (
                OutputModel {
                    out_pos: (self.out_pos + reply.written) % (WINDOW_SIZE as int),
                    total_out: self.total_out + reply.written,
                    ..read
                },
                judged(reply, offered, has_more),
            )
        }
    }
}

impl CandidateModel {
    /// A candidate before the first byte.
    pub open spec fn start(has_signature: bool, validator: Option<png::PngModel>) -> CandidateModel {
        CandidateModel {
            calls: Seq::empty(),
            window: Seq::new(WINDOW_SIZE as nat, |i: int| 0u8),
            output: OutputModel::start(validator),
            inserts: Seq::empty(),
            done: false,
            prefix_ok: !has_signature,
        }
    }

    /// The bookkeeping agrees with what the decoder has put out: checksum and
    /// count are those of the whole output, and the window holds its end.
    pub open spec fn wf(self) -> bool {
        let out = unpack::emitted(self.calls);
        &&& self.window.len() == WINDOW_SIZE
        &&& self.output.in_range()
        &&& self.output.crc == checksum::crc32_of(out)
        &&& self.output.total_out == out.len()
        &&& self.output.out_pos == self.output.total_out % (WINDOW_SIZE as int)
        &&& forall|k: int|
            0 <= k < out.len() && out.len() - WINDOW_SIZE <= k ==> self.window[k % (
            WINDOW_SIZE as int)] == #[trigger] out[k]
    }

    /// The decoder was asked the steps of one stream with the candidate's window: no step
    /// failed, and at the end of the stream what was put out agrees with unpacking in one
    /// go.
    pub open spec fn linked(self) -> bool {
        &&& self.window.len() == WINDOW_SIZE
        &&& unpack::chained(self.calls)
        &&& unpack::continued(self.calls, self.window, self.output.out_pos)
        &&& !self.done ==> unpack::unfinished(self.calls)
        &&& self.done ==> unpack::agrees(self.calls)
    }

    /// The decoder has taken the bytes `s`; at the end of the stream it may have
    /// left some of them.
    pub open spec fn has_read(self, s: Seq<u8>) -> bool {
        unpack::absorbed(self.calls) == s || (self.done && unpack::absorbed(self.calls).is_prefix_of(s))
    }

    /// The step that is asked of the decoder when `in_pos` bytes of `chunk` have
    /// been taken.
    pub open spec fn next_call(self, chunk: Seq<u8>, in_pos: int, has_more: bool) -> unpack::InflateCall {
        unpack::InflateCall {
            input: chunk.skip(in_pos),
            window: self.window,
            out_pos: self.output.out_pos,
            flags: if has_more || in_pos < chunk.len() {
                unpack::HAS_MORE_INPUT
            } else {
                0
            },
        }
    }

    /// Feeds what is left of `chunk` from `in_pos` on, step by step, until the
    /// decoder has taken it all, the stream ends, or something goes wrong: the candidate
    /// then, and whether all went well.
    pub open spec fn fed_from(self, chunk: Seq<u8>, in_pos: int, has_more: bool) -> (
        CandidateModel,
        Result<(), FeedErr>,
    )
        decreases u64::MAX - self.output.total_out, chunk.len() - in_pos,
    {
        let call = self.next_call(chunk, in_pos, has_more);
        let reply = unpack::inflate_reply(self.calls.push(call));
        let (output, step) = self.output.taken(reply, chunk.len() - in_pos, has_more);
        let next = CandidateModel {
            calls: self.calls.push(call),
            window: reply.window,
            output,
            ..self
        };
        if !reply.fits(call) || !(0 <= in_pos <= chunk.len()) {
            // a decoder never oversteps
            (self, Err(FeedErr::Stuck))
        } else {
            match step {
                Ok(Step::Finished) => (CandidateModel { done: true, ..next }, Ok(())),
                Ok(Step::Paused) => (next, Ok(())),
                Ok(Step::Again) => next.fed_from(chunk, in_pos + reply.consumed, has_more),
                Err(FeedErr::UnexpectedDone) => (
                    CandidateModel { done: true, ..next },
                    Err(FeedErr::UnexpectedDone),
                ),
                Err(e) => (next, Err(e)),
            }
        }
    }

    /// The candidate after it was fed `chunk`, after which more is to come or not, and
    /// whether it could be. Once the stream has ended, only the empty chunk can be fed, and
    /// the candidate stays as it is.
    pub open spec fn after_feeding(self, chunk: Seq<u8>, has_more: bool) -> (
        CandidateModel,
        Result<(), FeedErr>,
    ) {
        if !self.done {
            self.fed_from(chunk, 0, has_more)
        } else if chunk.len() == 0 {
            (self, Ok(()))
        } else {
            (self, Err(FeedErr::UnexpectedDone))
        }
    }

    /// The candidate after it was fed `chunk`, if it could be.
    pub open spec fn fed(self, chunk: Seq<u8>, has_more: bool) -> Result<CandidateModel, FeedErr> {
        match self.after_feeding(chunk, has_more) {
            (c, Ok(())) => Ok(c),
            (_, Err(e)) => Err(e),
        }
    }

    /// Holds the first bytes put out against `prefix` once they are all there,
    /// unless the window has moved past them.
    pub open spec fn prefix_checked(self, prefix: Seq<u8>) -> (CandidateModel, bool) {
        let settled = CandidateModel { prefix_ok: true, ..self };
        if self.prefix_ok || prefix.len() == 0 {
            (settled, true)
        } else if self.output.total_out < prefix.len() {
            (self, true)
        } else if self.output.total_out > WINDOW_SIZE {
            (settled, true)
        } else if bytes::holds_at(self.window, 0, prefix) {
            (settled, true)
        } else {
            (self, false)
        }
    }

    /// The last bytes put out are `trailer`, as far as the window can tell.
    pub open spec fn ends_with(self, trailer: Seq<u8>) -> bool {
        ||| trailer.len() == 0
        ||| {
            &&& self.output.total_out >= trailer.len()
            &&& trailer.len() <= WINDOW_SIZE ==> forall|i: int|
                0 <= i < trailer.len() ==> self.window[(self.output.out_pos + WINDOW_SIZE - trailer.len()
                    + i) % (WINDOW_SIZE as int)] == #[trigger] trailer[i]
        }
    }
}

/// A stream that a candidate can be on its way through: its bytes, a place in them that the
/// stream goes on behind, and the validator that its contents go through.
pub struct Way {
    pub stream: Seq<u8>,
    pub cut: int,
    pub validator: Option<png::PngModel>,
}

impl Way {
    /// What the stream unpacks to in one go.
    pub open spec fn contents(self) -> Seq<u8> {
        unpack::inflated(self.stream)->0
    }

    /// The stream can be unpacked in one go, to contents that can be counted and that the
    /// validator lets pass; what stands in front of the cut, if anything does, cannot.
    pub open spec fn wf(self) -> bool {
        &&& unpack::inflated(self.stream) is Some
        &&& self.contents().len() <= u64::MAX
        &&& validated(self.validator, self.contents()).1
        &&& 0 <= self.cut <= self.stream.len()
        &&& self.cut > 0 ==> unpack::inflated(self.stream.take(self.cut)) is None
    }

    /// Behind its first `n` bytes the stream goes on with `chunk`; that is all of the rest,
    /// or more is to come and the chunk ends in front of the cut.
    pub open spec fn goes_on(self, n: int, chunk: Seq<u8>, has_more: bool) -> bool {
        let end = n + chunk.len();
        &&& 0 <= n && end <= self.stream.len()
        &&& self.stream.subrange(n, end) == chunk
        &&& if has_more {
            end <= self.cut && 0 < self.cut
        } else {
            end == self.stream.len()
        }
    }
}

impl CandidateModel {
    /// The candidate has read the first `n` bytes of the stream, and what it has put out is
    /// how the contents begin.
    pub open spec fn on_way(self, w: Way, n: int) -> bool {
        let out = unpack::emitted(self.calls);
        &&& self.wf()
        &&& self.linked()
        &&& !self.done
        &&& unpack::absorbed(self.calls) == w.stream.take(n)
        &&& out.is_prefix_of(w.contents())
        &&& validated(w.validator, out) == (self.output.validator, true)
    }

    /// The candidate has put out the contents of the stream.
    pub open spec fn arrived(self, w: Way) -> bool {
        self.wf() && self.done && unpack::emitted(self.calls) == w.contents()
    }

    /// Fed what a stream goes on with, the candidate goes on on its way through it; with the
    /// last of it, it arrives.
    pub open spec fn feeds_well(self, chunk: Seq<u8>, has_more: bool) -> bool {
        forall|w: Way, n: int|
            #![trigger w.goes_on(n, chunk, has_more)]
            self.on_way(w, n) && w.wf() && w.goes_on(n, chunk, has_more) ==> {
                match self.fed(chunk, has_more) {
                    Ok(next) => if has_more {
                        next.on_way(w, n + chunk.len())
                    } else {
                        next.arrived(w)
                    },
                    Err(_) => false,
                }
            }
    }
}

/// A step takes a candidate on on its way through a stream.
proof fn lemma_step_on_way(
    c: CandidateModel,
    call: unpack::InflateCall,
    reply: unpack::InflateReply,
    w: Way,
    n: int,
    chunk: Seq<u8>,
    in_pos: int,
    has_more: bool,
)
    requires
        0 <= in_pos <= chunk.len(),
        c.on_way(w, n + in_pos),
        w.wf(),
        w.goes_on(n, chunk, has_more),
        call == c.next_call(chunk, in_pos, has_more),
        reply == unpack::inflate_reply(c.calls.push(call)),
        reply.fits(call),
        forall|i: int|
            0 <= i < c.output.out_pos || c.output.out_pos + reply.written <= i < WINDOW_SIZE
                ==> #[trigger] reply.window[i] == c.window[i],
        reply.status is Done ==> unpack::agrees(c.calls.push(call)),
        unpack::offers(c.calls.push(call), w.stream) ==> unpack::gets_on(
            c.calls.push(call),
            w.stream,
        ),
    ensures
        ({
            let (output, step) = c.output.taken(reply, chunk.len() - in_pos, has_more);
            let next = CandidateModel {
                calls: c.calls.push(call),
                window: reply.window,
                output,
                ..c
            };
            match step {
                Ok(Step::Finished) => !has_more && (CandidateModel { done: true, ..next }).arrived(
                    w,
                ),
                Ok(Step::Paused) => has_more && next.on_way(w, n + chunk.len()),
                Ok(Step::Again) => next.on_way(w, n + in_pos + reply.consumed),
                Err(_) => false,
            }
        }),
{
    let calls = c.calls.push(call);
    let at = n + in_pos;
    let end = n + chunk.len();
    let out = w.contents();
    let before = unpack::emitted(c.calls);
    let piece = reply.window.subrange(c.output.out_pos, c.output.out_pos + reply.written);
    let after = unpack::emitted(calls);
    let (output, step) = c.output.taken(reply, chunk.len() - in_pos, has_more);
    let next = CandidateModel { calls, window: reply.window, output, ..c };
    assert(calls.drop_last() =~= c.calls);
    assert(chunk == w.stream.subrange(n, end));
    assert(unpack::absorbed(calls) =~= w.stream.take(at + reply.consumed));
    assert(unpack::offered(calls) =~= w.stream.take(end));
    if !has_more {
        assert(w.stream.take(end) =~= w.stream);
    }
    assert(unpack::offers(calls, w.stream));
    assert(after == before + piece);
    if let Some(m) = w.validator {
        let rest = out.skip(after.len() as int);
        assert(out =~= after + rest);
        png::law_png_cut_anywhere(m, after, rest);
        png::law_png_cut_anywhere(m, before, piece);
    }
    unpack::lemma_chained_push(c.calls, call);
    lemma_step_wf(c, call, reply, next, chunk.len() - in_pos, has_more);
    if reply.status is Done {
        assert(unpack::absorbed(calls).is_prefix_of(w.stream));
        if has_more {
            let cut = w.stream.take(w.cut);
            assert(unpack::absorbed(calls).is_prefix_of(cut)) by {
                assert(cut.take(at + reply.consumed) =~= w.stream.take(at + reply.consumed));
            }
            assert(unpack::inflated(cut) is Some);
        }
        let arrived = CandidateModel { done: true, ..next };
        assert(arrived.wf());
    }
}

/// The first bytes that a candidate has put out decide the prefix check: as long
/// as the window holds them, the check passes exactly if they agree with `prefix`.
pub proof fn law_prefix_check_reads_output(c: CandidateModel, prefix: Seq<u8>)
    requires
        c.wf(),
        !c.prefix_ok,
        0 < prefix.len() <= c.output.total_out <= 0x8000,
    ensures
        c.prefix_checked(prefix).1 <==> unpack::emitted(c.calls).take(prefix.len() as int) == prefix,
{
    let out = unpack::emitted(c.calls);
    let n = prefix.len() as int;
    assert forall|k: int| 0 <= k < n implies c.window[k] == out[k] by {
        assert(k % (WINDOW_SIZE as int) == k);
        assert(c.window[k % (WINDOW_SIZE as int)] == out[k]);
    }
    assert(c.window.subrange(0, n) =~= out.take(n));
}

/// The trailer check passes exactly if the output ends with the trailer, for
/// trailers that fit in the window.
pub proof fn law_trailer_check_reads_output(c: CandidateModel, trailer: Seq<u8>)
    requires
        c.wf(),
        trailer.len() <= 0x8000,
    ensures
        c.ends_with(trailer) <==> trailer.len() <= unpack::emitted(c.calls).len() && unpack::emitted(c.calls).skip(
            unpack::emitted(c.calls).len() - trailer.len(),
        ) == trailer,
{
    let out = unpack::emitted(c.calls);
    let n = trailer.len() as int;
    let w = WINDOW_SIZE as int;
    if n == 0 {
        assert(out.skip(out.len() - n) =~= trailer);
    } else if out.len() >= n {
        let tail = out.skip(out.len() - n);
        assert forall|i: int| 0 <= i < n implies c.window[(c.output.out_pos + w - n + i) % w] == tail[i] by {
            let k = out.len() - n + i;
            assert((c.output.out_pos + w - n + i) % w == k % w);
            assert(c.window[k % w] == out[k]);
        }
        if c.ends_with(trailer) {
            assert forall|i: int| 0 <= i < n implies tail[i] == trailer[i] by {
                assert(c.window[(c.output.out_pos + w - n + i) % w] == trailer[i]);
            }
            assert(tail =~= trailer);
        }
    }
}

/// A step keeps the bookkeeping in agreement with the output.
proof fn lemma_step_wf(
    c: CandidateModel,
    call: unpack::InflateCall,
    reply: unpack::InflateReply,
    next: CandidateModel,
    offered: int,
    has_more: bool,
)
    requires
        c.wf(),
        call.window == c.window,
        call.out_pos == c.output.out_pos,
        reply == unpack::inflate_reply(c.calls.push(call)),
        reply.fits(call),
        forall|i: int|
            0 <= i < c.output.out_pos || c.output.out_pos + reply.written <= i < WINDOW_SIZE
                ==> #[trigger] reply.window[i] == c.window[i],
        keeps_account(c.output.taken(reply, offered, has_more).1),
        next.calls == c.calls.push(call),
        next.window == reply.window,
        next.output == c.output.taken(reply, offered, has_more).0,
    ensures
        next.wf(),
{
    let w = WINDOW_SIZE as int;
    let at = c.output.out_pos;
    let old_out = unpack::emitted(c.calls);
    let piece = reply.window.subrange(at, at + reply.written);
    let out = unpack::emitted(next.calls);
    assert(next.calls.drop_last() =~= c.calls);
    assert(out == old_out + piece);
    checksum::law_checksum_in_pieces(0, old_out, piece);
    assert((at + reply.written) % w == (c.output.total_out + reply.written) % w);
    assert forall|k: int| 0 <= k < out.len() && out.len() - WINDOW_SIZE <= k implies next.window[k
        % w] == #[trigger] out[k] by {
        if k < old_out.len() {
            assert(c.window[k % w] == old_out[k]);
            let i = k % w;
            assert(0 <= i < at || at + reply.written <= i < w);
        } else {
            assert(k % w == at + (k - old_out.len()));
            assert(out[k] == piece[k - old_out.len()]);
        }
    }
    if let Some(m) = c.output.validator {
        png::lemma_run_wf(m, piece);
    }
}

/// Feeding a chunk lets the decoder take it, and touches none of the candidate's
/// decisions; the last chunk takes the stream to its end.
pub proof fn law_feeding_reads_chunk(
    c: CandidateModel,
    s: Seq<u8>,
    chunk: Seq<u8>,
    has_more: bool,
)
    requires
        c.has_read(s),
    ensures
        c.fed(chunk, has_more) matches Ok(n) ==> n.has_read(s + chunk) && n.inserts == c.inserts
            && n.prefix_ok == c.prefix_ok && (n.done || has_more),
{
    if c.done {
        assert(s + Seq::<u8>::empty() =~= s);
        if chunk.len() == 0 {
            assert(s + chunk =~= s);
        }
    } else {
        assert(chunk.take(0) =~= Seq::empty());
        assert(s + chunk.take(0) =~= s);
        lemma_fed_from_reads(c, s, chunk, 0, has_more);
    }
}

proof fn lemma_fed_from_reads(
    c: CandidateModel,
    s: Seq<u8>,
    chunk: Seq<u8>,
    in_pos: int,
    has_more: bool,
)
    requires
        0 <= in_pos <= chunk.len(),
        unpack::absorbed(c.calls) == s + chunk.take(in_pos),
        !c.done,
    ensures
        ({
            let (n, r) = c.fed_from(chunk, in_pos, has_more);
            r is Ok ==> n.has_read(s + chunk) && n.inserts == c.inserts && n.prefix_ok
                == c.prefix_ok && (n.done || has_more)
        }),
    decreases u64::MAX - c.output.total_out, chunk.len() - in_pos,
{
    let call = c.next_call(chunk, in_pos, has_more);
    let reply = unpack::inflate_reply(c.calls.push(call));
    let (output, step) = c.output.taken(reply, chunk.len() - in_pos, has_more);
    let next = CandidateModel { calls: c.calls.push(call), window: reply.window, output, ..c };
    let taken = in_pos + reply.consumed;
    if reply.fits(call) && step is Ok {
        assert(next.calls.drop_last() =~= c.calls);
        assert(chunk.take(in_pos) + call.input.take(reply.consumed) =~= chunk.take(taken));
        assert(unpack::absorbed(next.calls) =~= s + chunk.take(taken));
        assert(chunk.take(chunk.len() as int) =~= chunk);
        assert((s + chunk.take(taken)).is_prefix_of(s + chunk)) by {
            assert(s + chunk.take(taken) =~= (s + chunk).take(s.len() + taken));
        }
        if step == Ok::<Step, FeedErr>(Step::Again) {
            lemma_fed_from_reads(next, s, chunk, taken, has_more);
        }
    }
}

/// Feeding touches none of the candidate's decisions.
pub proof fn lemma_feeding_keeps_inserts(c: CandidateModel, chunk: Seq<u8>, has_more: bool)
    ensures
        c.fed(chunk, has_more) matches Ok(n) ==> n.inserts == c.inserts,
{
    if !c.done {
        assert(chunk.take(0) =~= Seq::empty());
        let s = unpack::absorbed(c.calls);
        assert(s + chunk.take(0) =~= s);
        law_feeding_reads_chunk(c, s, chunk, has_more);
    }
}

/// However a section was cut into chunks, a candidate at the end of its stream has put
/// out what unpacking the section in one go gives, if it can be unpacked in one go: count
/// and checksum are those of the contents.
pub proof fn law_pieces_agree_with_one_go(c: CandidateModel, s: Seq<u8>)
    ensures
        c.wf() && c.linked() && c.done && c.has_read(s) ==> match unpack::inflated(s) {
            Some(out) => c.output.total_out == out.len() && c.output.crc == checksum::crc32_of(out),
            None => true,
        },
{
    if c.has_read(s) {
        assert(unpack::absorbed(c.calls).is_prefix_of(s));
    }
}

/// The account of what a decoder has put out.
pub struct Output {
    crc: u32,
    out_pos: usize,
    total_out: u64,
    validator: Option<PngValidator>,
}

impl View for Output {
    type V = OutputModel;

    closed spec fn view(&self) -> OutputModel {
        OutputModel {
            crc: self.crc,
            out_pos: self.out_pos as int,
            total_out: self.total_out as int,
            validator: validator_model(self.validator),
        }
    }
}

impl Output {
    /// Nothing has been put out.
    pub fn new(validator: Option<PngValidator>) -> (o: Self)
        requires
            validator matches Some(v) ==> v@.wf(),
        ensures
            o@ == OutputModel::start(validator_model(validator)),
            o@.in_range(),
    {
        Output { crc: 0, out_pos: 0, total_out: 0, validator }
    }

    /// Takes note of a decoder's reply to a step: how it ended, how many of the `offered`
    /// bytes it took, how many it wrote to the window, and the window after it. What was
    /// written goes into the checksum and through the validator.
    pub fn take_reply(
        &mut self,
        reply: (InflateStatus, usize, usize),
        window: &[u8],
        offered: usize,
        has_more: bool,
    ) -> (r: Result<Step, FeedErr>)
        requires
            old(self)@.in_range(),
            window@.len() == WINDOW_SIZE,
            old(self)@.out_pos + reply.2 <= WINDOW_SIZE,
        ensures
            (final(self)@, r) == old(self)@.taken(
                (unpack::InflateReply {
                    status: reply.0,
                    consumed: reply.1 as int,
                    written: reply.2 as int,
                    window: window@,
                }),
                offered as int,
                has_more,
            ),
            keeps_account(r) ==> final(self)@.in_range(),
    {
        let (status, consumed, written): (InflateStatus, usize, usize) = reply;
        if written as u64 > u64::MAX - self.total_out {
            return Err(FeedErr::OutputTooLong);
        }
        let end: usize = self.out_pos + written;
        let out: &[u8] = &window[self.out_pos..end];
        self.crc = checksum::crc32_continue(self.crc, out);
        if let Some(v) = self.validator {
            let mut v: PngValidator = v;
            let good: bool = v.feed(out);
            self.validator = Some(v);
            if !good {
                return Err(FeedErr::ContentInvalid);
            }
        }
        self.out_pos = end % WINDOW_SIZE;
        self.total_out = self.total_out + written as u64;
        match status {
            InflateStatus::Done => if consumed < offered && has_more {
                Err(FeedErr::UnexpectedDone)
            } else {
                Ok(Step::Finished)
            },
            InflateStatus::NeedsMoreInput => if consumed >= offered && has_more {
                Ok(Step::Paused)
            } else if consumed == 0 && written == 0 {
                Err(FeedErr::Stuck)
            } else {
                Ok(Step::Again)
            },
            InflateStatus::HasMoreOutput => if consumed == 0 && written == 0 {
                Err(FeedErr::Stuck)
            } else {
                Ok(Step::Again)
            },
            other => Err(FeedErr::BadStatus(other)),
        }
    }
}

/// One hypothesis of the beam search.
pub struct BeamCandidate {
    state: Box<Decoder>,
    out_buf: Vec<u8>,
    output: Output,
    inserts: Vec<usize>,
    done: bool,
    prefix_ok: bool,
}

/// The model of a validator, if there is one.
pub open spec fn validator_model(v: Option<PngValidator>) -> Option<png::PngModel> {
    match v {
        Some(v) => Some(v@),
        None => None,
    }
}

impl View for BeamCandidate {
    type V = CandidateModel;

    closed spec fn view(&self) -> CandidateModel {
        CandidateModel {
            calls: unpack::decoder_calls(*self.state),
            window: self.out_buf@,
            output: self.output@,
            inserts: self.inserts@,
            done: self.done,
            prefix_ok: self.prefix_ok,
        }
    }
}

impl BeamCandidate {
    /// A candidate before the first byte. `has_signature` tells that the first
    /// bytes put out will be held against a signature.
    pub fn new(has_signature: bool, validator: Option<PngValidator>) -> (c: Self)
        requires
            validator matches Some(v) ==> v@.wf(),
        ensures
            c@ == CandidateModel::start(has_signature, validator_model(validator)),
            c@.wf(),
            c@.linked(),
    {
        let out_buf: Vec<u8> = vec![0u8; WINDOW_SIZE];
        let c = BeamCandidate {
            state: unpack::new_decoder(),
            out_buf,
            output: Output::new(validator),
            inserts: Vec::new(),
            done: false,
            prefix_ok: !has_signature,
        };
        proof {
            checksum::law_checksum_in_pieces(0, Seq::empty(), Seq::empty());
            assert(c@ =~= CandidateModel::start(has_signature, validator_model(validator)));
        }
        c
    }

    /// A candidate that stands where this one stands.
    pub fn fork(&self) -> (c: Self)
        ensures
            c@ == self@,
    {
        let out_buf: Vec<u8> = self.out_buf.clone();
        let inserts: Vec<usize> = self.inserts.clone();
        assert(out_buf@ =~= self.out_buf@);
        assert(inserts@ =~= self.inserts@);
        let output: Output = Output {
            crc: self.output.crc,
            out_pos: self.output.out_pos,
            total_out: self.output.total_out,
            validator: self.output.validator,
        };
        BeamCandidate {
            state: unpack::clone_decoder(&self.state),
            out_buf,
            output,
            inserts,
            done: self.done,
            prefix_ok: self.prefix_ok,
        }
    }

    /// Notes that a carriage return was put back in front of the line feed at `pos`.
    pub fn note_insert(&mut self, pos: usize)
        ensures
            final(self)@ == (CandidateModel { inserts: old(self)@.inserts.push(pos), ..old(self)@ }),
    {
        self.inserts.push(pos);
    }

    /// Asks the decoder one step on the rest of `chunk` from `in_pos` on, and takes note of
    /// its reply; gives what follows from it and how many bytes were taken.
    fn step(&mut self, chunk: &[u8], in_pos: usize, has_more_after: bool) -> (r: (
        Result<Step, FeedErr>,
        usize,
    ))
        requires
            old(self)@.wf(),
            !old(self)@.done,
            in_pos <= chunk@.len(),
        ensures
            ({
                let before = old(self)@;
                let call = before.next_call(chunk@, in_pos as int, has_more_after);
                let reply = unpack::inflate_reply(before.calls.push(call));
                let (output, step) = before.output.taken(
                    reply,
                    chunk@.len() - in_pos,
                    has_more_after,
                );
                &&& reply.fits(call)
                &&& r.0 == step && r.1 == reply.consumed
                &&& final(self)@ == (CandidateModel {
                    calls: before.calls.push(call),
                    window: reply.window,
                    output,
                    ..before
                })
            }),
            keeps_account(r.0) ==> final(self)@.wf(),
            old(self)@.linked() ==> match r.0 {
                Ok(Step::Finished) => (CandidateModel { done: true, ..final(self)@ }).linked(),
                Ok(_) => final(self)@.linked(),
                Err(_) => true,
            },
            forall|w: Way, n: int|
                #![trigger w.goes_on(n, chunk@, has_more_after)]
                old(self)@.on_way(w, n + in_pos) && w.wf() && w.goes_on(n, chunk@, has_more_after)
                    ==> match r.0 {
                    Ok(Step::Finished) => !has_more_after && (CandidateModel {
                        done: true,
                        ..final(self)@
                    }).arrived(w),
                    Ok(Step::Paused) => has_more_after && final(self)@.on_way(w, n + chunk@.len()),
                    Ok(Step::Again) => final(self)@.on_way(w, n + in_pos + r.1),
                    Err(_) => false,
                },
    {
        let ghost before = self@;
        let ghost call = before.next_call(chunk@, in_pos as int, has_more_after);
        let flags: u32 = if has_more_after || in_pos < chunk.len() {
            unpack::HAS_MORE_INPUT
        } else {
            0
        };
        let rest: &[u8] = &chunk[in_pos..chunk.len()];
        assert(rest@ =~= chunk@.skip(in_pos as int));
        let answer: (InflateStatus, usize, usize) = unpack::inflate_step(
            &mut self.state,
            rest,
            &mut self.out_buf,
            self.output.out_pos,
            flags,
        );
        let ghost reply = unpack::inflate_reply(before.calls.push(call));
        assert(unpack::decoder_calls(*self.state) == before.calls.push(call));
        proof {
            if before.linked() {
                unpack::lemma_chained_push(before.calls, call);
            }
        }
        assert(reply.fits(call));
        let step: Result<Step, FeedErr> = self.output.take_reply(
            answer,
            self.out_buf.as_slice(),
            rest.len(),
            has_more_after,
        );
        proof {
            if keeps_account(step) {
                lemma_step_wf(before, call, reply, self@, chunk@.len() - in_pos, has_more_after);
            }
            assert forall|w: Way, n: int|
                #![trigger w.goes_on(n, chunk@, has_more_after)]
                before.on_way(w, n + in_pos) && w.wf() && w.goes_on(
                    n,
                    chunk@,
                    has_more_after,
                ) implies match step {
                Ok(Step::Finished) => !has_more_after && (CandidateModel {
                    done: true,
                    ..self@
                }).arrived(w),
                Ok(Step::Paused) => has_more_after && self@.on_way(w, n + chunk@.len()),
                Ok(Step::Again) => self@.on_way(w, n + in_pos + answer.1),
                Err(_) => false,
            } by {
                lemma_step_on_way(
                    before,
                    call,
                    reply,
                    w,
                    n,
                    chunk@,
                    in_pos as int,
                    has_more_after,
                );
            }
        }
        (step, answer.1)
    }

    /// Feeds a chunk of the compressed section to the decoder, and what the decoder
    /// puts out to the checksum and the validator. A candidate that is on its way through a
    /// stream stays on it.
    pub fn feed(&mut self, chunk: &[u8], has_more_after: bool) -> (r: Result<(), FeedErr>)
        requires
            old(self)@.wf(),
        ensures
            (final(self)@, r) == old(self)@.after_feeding(chunk@, has_more_after),
            keeps_account(r) ==> final(self)@.wf(),
            r is Ok && old(self)@.linked() ==> final(self)@.linked(),
            old(self)@.feeds_well(chunk@, has_more_after),
    {
        if self.done {
            return if chunk.len() == 0 {
                Ok(())
            } else {
                Err(FeedErr::UnexpectedDone)
            };
        }
        let mut in_pos: usize = 0;
        loop
            invariant
                self@.wf(),
                !self@.done,
                old(self)@.linked() ==> self@.linked(),
                in_pos <= chunk@.len(),
                forall|w: Way, n: int|
                    #![trigger w.goes_on(n, chunk@, has_more_after)]
                    old(self)@.on_way(w, n) && w.wf() && w.goes_on(n, chunk@, has_more_after)
                        ==> self@.on_way(w, n + in_pos),
                old(self)@.after_feeding(chunk@, has_more_after) == self@.fed_from(
                    chunk@,
                    in_pos as int,
                    has_more_after,
                ),
            decreases u64::MAX - self@.output.total_out, chunk@.len() - in_pos,
        {
            assert(chunk.len() == chunk@.len());
            let (step, taken) = self.step(chunk, in_pos, has_more_after);
            in_pos = in_pos + taken;
            match step {
                Ok(Step::Finished) => {
                    self.done = true;
                    return Ok(());
                },
                Ok(Step::Paused) => {
                    return Ok(());
                },
                Ok(Step::Again) => {},
                Err(FeedErr::UnexpectedDone) => {
                    self.done = true;
                    return Err(FeedErr::UnexpectedDone);
                },
                Err(e) => {
                    return Err(e);
                },
            }
        }
    }

    /// Whether the candidate may be kept as far as its first bytes tell, which are
    /// held against `expected_prefix` once they are all there.
    pub fn check_prefix(&mut self, expected_prefix: &[u8]) -> (keep: bool)
        requires
            old(self)@.wf(),
        ensures
            (final(self)@, keep) == old(self)@.prefix_checked(expected_prefix@),
            final(self)@.wf(),
    {
        if self.prefix_ok {
            assert(self@ =~= (CandidateModel { prefix_ok: true, ..self@ }));
            return true;
        }
        if expected_prefix.len() == 0 {
            self.prefix_ok = true;
            return true;
        }
        if self.output.total_out < expected_prefix.len() as u64 {
            return true;
        }
        if self.output.total_out > WINDOW_SIZE as u64 {
            self.prefix_ok = true;
            return true;
        }
        if bytes::starts_with(self.out_buf.as_slice(), expected_prefix) {
            self.prefix_ok = true;
            return true;
        }
        false
    }

    /// Whether the last bytes put out are `trailer`.
    pub fn ends_with_trailer(&self, trailer: &[u8]) -> (r: bool)
        requires
            self@.wf(),
        ensures
            r == self@.ends_with(trailer@),
    {
        let n: usize = trailer.len();
        if n == 0 {
            return true;
        }
        if self.output.total_out < n as u64 {
            return false;
        }
        if n > WINDOW_SIZE {
            return true;
        }
        for i in 0..n
            invariant
                n == trailer@.len(),
                n <= WINDOW_SIZE,
                self@.wf(),
                self@.output.total_out >= n,
                forall|j: int|
                    0 <= j < i ==> self@.window[(self@.output.out_pos + WINDOW_SIZE - n + j) % (
                    WINDOW_SIZE as int)] == #[trigger] trailer@[j],
        {
            let pos: usize = (self.output.out_pos + WINDOW_SIZE - n + i) % WINDOW_SIZE;
            if self.out_buf[pos] != trailer[i] {
                assert(self@.window[(self@.output.out_pos + WINDOW_SIZE - n + i) % (WINDOW_SIZE as int)]
                    != trailer@[i as int]);
                return false;
            }
        }
        true
    }

    /// How many carriage returns have been put back.
    pub fn insert_count(&self) -> (n: usize)
        ensures
            n == self@.inserts.len(),
    {
        self.inserts.len()
    }

    /// Whether the candidate comes before `other` in the order of the beam.
    pub fn is_ahead_of(&self, other: &Self) -> (r: bool)
        ensures
            r == rank::ahead(self@, other@),
    {
        self.output.total_out > other.output.total_out || (self.output.total_out
            == other.output.total_out && self.inserts.len() < other.inserts.len())
    }

    /// Where carriage returns have been put back.
    pub fn into_inserts(self) -> (inserts: Vec<usize>)
        ensures
            inserts@ == self@.inserts,
    {
        self.inserts
    }

    /// Whether the stream has ended after `size` bytes of output.
    pub fn finished_at(&self, size: u64) -> (r: bool)
        ensures
            r == (self@.done && self@.output.total_out == size),
    {
        self.done && self.output.total_out == size
    }

    /// The checksum of what has been put out.
    pub fn checksum(&self) -> (crc: u32)
        ensures
            crc == self@.output.crc,
    {
        self.output.crc
    }
}

} // verus!
