//! What feeding a candidate comes to.
use vstd::prelude::*;

use crate::candidate::{CandidateModel, FeedErr, Step};
use crate::png;
use crate::unpack;

verus! {

/// The prefix is checked once: not before all of its bytes could have been put out, and when
/// more was put out than the window holds it passes. Nothing but that it was checked is noted.
pub proof fn law_prefix_is_checked_once(c: CandidateModel, prefix: Seq<u8>)
    ensures
        ({
            let (n, good) = c.prefix_checked(prefix);
            &&& c.prefix_ok || prefix.len() == 0 || c.output.total_out > 0x8000 && prefix.len()
                <= 0x8000 ==> good && n.prefix_ok
            &&& !c.prefix_ok && prefix.len() > 0 && c.output.total_out < prefix.len() ==> good
                && !n.prefix_ok
            &&& !c.prefix_ok && 0 < prefix.len() <= c.output.total_out && good ==> n.prefix_ok
            &&& n == (CandidateModel { prefix_ok: n.prefix_ok, ..c })
        }),
{
}

/// What the candidate has put out the validator has let pass, and the validator stands where
/// that has brought it.
pub open spec fn let_pass(c: CandidateModel, validator: Option<png::PngModel>) -> bool {
    match validator {
        Some(m) => c.output.validator == Some(m.run(unpack::emitted(c.calls)).0) && m.run(
            unpack::emitted(c.calls),
        ).1,
        None => c.output.validator is None,
    }
}

/// A candidate is fed on only as long as the validator lets everything pass that it puts out.
pub proof fn law_output_is_validated(
    c: CandidateModel,
    validator: Option<png::PngModel>,
    chunk: Seq<u8>,
    has_more: bool,
)
    requires
        let_pass(c, validator),
    ensures
        c.fed(chunk, has_more) matches Ok(n) ==> let_pass(n, validator),
{
    if !c.done {
        lemma_fed_from_validated(c, validator, chunk, 0, has_more);
    }
}

proof fn lemma_fed_from_validated(
    c: CandidateModel,
    validator: Option<png::PngModel>,
    chunk: Seq<u8>,
    in_pos: int,
    has_more: bool,
)
    requires
        let_pass(c, validator),
    ensures
        ({
            let (n, r) = c.fed_from(chunk, in_pos, has_more);
            r is Ok ==> let_pass(n, validator)
        }),
    decreases u64::MAX - c.output.total_out, chunk.len() - in_pos,
{
    let call = c.next_call(chunk, in_pos, has_more);
    let reply = unpack::inflate_reply(c.calls.push(call));
    let (output, step) = c.output.taken(reply, chunk.len() - in_pos, has_more);
    let next = CandidateModel { calls: c.calls.push(call), window: reply.window, output, ..c };
    if reply.fits(call) && 0 <= in_pos <= chunk.len() && step is Ok {
        let out = reply.window.subrange(c.output.out_pos, c.output.out_pos + reply.written);
        assert(next.calls.drop_last() =~= c.calls);
        assert(unpack::emitted(next.calls) == unpack::emitted(c.calls) + out);
        if let Some(m) = validator {
            png::law_png_cut_anywhere(m, unpack::emitted(c.calls), out);
        }
        assert(let_pass(next, validator));
        if step == Ok::<Step, FeedErr>(Step::Again) {
            lemma_fed_from_validated(next, validator, chunk, in_pos + reply.consumed, has_more);
        }
    }
}

/// A stream may not end before the last chunk unless with the chunk that it is fed: where more
/// is to come the decoder has taken all of the chunk. Behind the end of a stream only the
/// empty chunk can be fed, and it changes nothing.
pub proof fn law_stream_does_not_end_early(c: CandidateModel, chunk: Seq<u8>)
    ensures
        c.fed(chunk, true) matches Ok(n) ==> c.done || unpack::absorbed(n.calls)
            == unpack::absorbed(c.calls) + chunk,
        forall|has_more: bool|
            c.done ==> (#[trigger] c.fed(chunk, has_more) matches Ok(n) <==> chunk.len() == 0),
        forall|has_more: bool|
            c.done && chunk.len() == 0 ==> #[trigger] c.fed(chunk, has_more) == Ok::<_, FeedErr>(c),
{
    if !c.done {
        let s = unpack::absorbed(c.calls);
        assert(s + chunk.take(0) =~= s);
        lemma_fed_from_takes_all(c, s, chunk, 0);
    }
}

proof fn lemma_fed_from_takes_all(c: CandidateModel, s: Seq<u8>, chunk: Seq<u8>, in_pos: int)
    requires
        0 <= in_pos <= chunk.len(),
        unpack::absorbed(c.calls) == s + chunk.take(in_pos),
    ensures
        ({
            let (n, r) = c.fed_from(chunk, in_pos, true);
            r is Ok ==> unpack::absorbed(n.calls) == s + chunk
        }),
    decreases u64::MAX - c.output.total_out, chunk.len() - in_pos,
{
    let call = c.next_call(chunk, in_pos, true);
    let reply = unpack::inflate_reply(c.calls.push(call));
    let (output, step) = c.output.taken(reply, chunk.len() - in_pos, true);
    let next = CandidateModel { calls: c.calls.push(call), window: reply.window, output, ..c };
    let taken = in_pos + reply.consumed;
    if reply.fits(call) && step is Ok {
        assert(next.calls.drop_last() =~= c.calls);
        assert(chunk.take(in_pos) + call.input.take(reply.consumed) =~= chunk.take(taken));
        assert(unpack::absorbed(next.calls) =~= s + chunk.take(taken));
        assert(chunk.take(chunk.len() as int) =~= chunk);
        if step == Ok::<Step, FeedErr>(Step::Again) {
            lemma_fed_from_takes_all(next, s, chunk, taken);
        }
    }
}

} // verus!
