//! Deflate streams: packing and unpacking in one go, and unpacking step by step.
use vstd::prelude::*;

use crate::checksum;

verus! {

/// The deflate stream that packs `data`.
pub uninterp spec fn deflated(data: Seq<u8>) -> Seq<u8>;

/// What the deflate stream at the front of `data` unpacks to, if it is one.
pub uninterp spec fn inflated(data: Seq<u8>) -> Option<Seq<u8>>;

/// `data` begins with a deflate stream whose contents have the checksum `crc`.
pub open spec fn inflates_to(data: Seq<u8>, crc: u32) -> bool {
    inflated(data) matches Some(out) && checksum::crc32_of(out) == crc
}

/// A section is right just if it unpacks and all that it unpacks to has the checksum.
pub proof fn law_right_by_the_whole_contents(data: Seq<u8>, crc: u32)
    ensures
        inflates_to(data, crc) <==> exists|out: Seq<u8>|
            inflated(data) == Some(out) && #[trigger] checksum::crc32_of(out) == crc,
{
    if let Some(out) = inflated(data) {
        assert(checksum::crc32_of(out) == checksum::crc32_of(out));
    }
}

/// Calls `miniz_oxide::deflate::compress_to_vec` at level 6: the stream is a
/// function of the data, and unpacking it gives the data back.
#[verifier::external_body]
pub(crate) fn deflate_compress(data: &[u8]) -> (packed: Vec<u8>)
    ensures
        packed@ == deflated(data@),
        inflated(packed@) == Some(data@),
{
    miniz_oxide::deflate::compress_to_vec(data, 6)
}

/// Calls `miniz_oxide::inflate::decompress_to_vec`: whether `data` unpacks, and
/// to what, is a function of `data`.
#[verifier::external_body]
pub(crate) fn try_decompress(data: &[u8]) -> (out: Option<Vec<u8>>)
    ensures
        match out {
            Some(v) => inflated(data@) == Some(v@),
            None => inflated(data@) is None,
        },
{
    miniz_oxide::inflate::decompress_to_vec(data).ok()
}

/// Whether `data` begins with a deflate stream whose contents have the checksum
/// `expected_crc`.
pub fn try_decompress_check(data: &[u8], expected_crc: u32) -> (r: bool)
    ensures
        r == inflates_to(data@, expected_crc),
        r <==> (inflated(data@) matches Some(out) && checksum::crc32_of(out) == expected_crc),
{
    match try_decompress(data) {
        Some(out) => checksum::crc32_continue(0, out.as_slice()) == expected_crc,
        None => false,
    }
}

/// How a step of unpacking ended.
#[derive(Clone, Copy, Debug, PartialEq, Eq, Structural)]
pub enum InflateStatus {
    FailedCannotMakeProgress,
    BadParam,
    Adler32Mismatch,
    Failed,
    Done,
    NeedsMoreInput,
    HasMoreOutput,
}

/// The size of the output window, which is that of the deflate dictionary.
pub const WINDOW_SIZE: usize = 32768;

/// The flag that tells a decoder that more input will follow.
pub const HAS_MORE_INPUT: u32 = 2;

/// One step asked of a decoder: the input offered, the output window and the
/// place in it where writing starts, and the flags.
#[verifier::ext_equal]
pub struct InflateCall {
    pub input: Seq<u8>,
    pub window: Seq<u8>,
    pub out_pos: int,
    pub flags: u32,
}

/// What a decoder did in a step: how it ended, how many input bytes it took, how
/// many output bytes it wrote, and the window afterwards.
#[verifier::ext_equal]
pub struct InflateReply {
    pub status: InflateStatus,
    pub consumed: int,
    pub written: int,
    pub window: Seq<u8>,
}

impl InflateReply {
    /// The step took no more than it was offered and wrote no further than the
    /// window's end.
    pub open spec fn fits(self, call: InflateCall) -> bool {
        &&& 0 <= self.consumed <= call.input.len()
        &&& 0 <= self.written <= call.window.len() - call.out_pos
        &&& self.window.len() == call.window.len()
    }
}

/// `miniz_oxide`'s decoder of one deflate stream.
#[verifier::external_type_specification]
#[verifier::external_body]
pub struct ExDecompressorOxide(miniz_oxide::inflate::core::DecompressorOxide);

/// The decoder's type under a short name.
pub type Decoder = miniz_oxide::inflate::core::DecompressorOxide;

/// The steps that a decoder has been asked since it was made.
pub uninterp spec fn decoder_calls(decoder: Decoder) -> Seq<InflateCall>;

/// A decoder's reply to the last of the steps that it has been asked.
pub uninterp spec fn inflate_reply(calls: Seq<InflateCall>) -> InflateReply;

/// What a decoder has put out in all the steps that it has been asked.
pub open spec fn emitted(calls: Seq<InflateCall>) -> Seq<u8>
    decreases calls.len(),
{
    if calls.len() == 0 {
        Seq::empty()
    } else {
        let reply = inflate_reply(calls);
        let start = calls.last().out_pos;
        emitted(calls.drop_last()) + reply.window.subrange(start, start + reply.written)
    }
}

/// What a decoder has taken in all the steps that it has been asked.
pub open spec fn absorbed(calls: Seq<InflateCall>) -> Seq<u8>
    decreases calls.len(),
{
    if calls.len() == 0 {
        Seq::empty()
    } else {
        absorbed(calls.drop_last()) + calls.last().input.take(inflate_reply(calls).consumed)
    }
}

/// The next step goes on with `window` and `out_pos`: the window is as the last step left
/// it, and writing goes on where that one ended, around the window.
pub open spec fn continued(calls: Seq<InflateCall>, window: Seq<u8>, out_pos: int) -> bool {
    if calls.len() == 0 {
        out_pos == 0
    } else {
        let reply = inflate_reply(calls);
        window == reply.window && out_pos == (calls.last().out_pos + reply.written) % (
        WINDOW_SIZE as int)
    }
}

/// The last step asked for more: more input, or more room.
pub open spec fn unfinished(calls: Seq<InflateCall>) -> bool {
    calls.len() == 0 || inflate_reply(calls).status is NeedsMoreInput || inflate_reply(
        calls,
    ).status is HasMoreOutput
}

/// The steps are those of one stream: each goes on where the one before it ended.
pub open spec fn chained(calls: Seq<InflateCall>) -> bool {
    forall|k: int|
        #![trigger calls[k]]
        0 <= k < calls.len() ==> {
            &&& calls[k].window.len() == WINDOW_SIZE
            &&& calls[k].flags == 0 || calls[k].flags == HAS_MORE_INPUT
            &&& continued(calls.take(k), calls[k].window, calls[k].out_pos)
            &&& unfinished(calls.take(k))
        }
}

/// If anything that begins with the bytes that were taken can be unpacked in one go, all
/// that begins with them unpacks to what was put out.
pub open spec fn agrees(calls: Seq<InflateCall>) -> bool {
    forall|s: Seq<u8>, q: Seq<u8>|
        #![trigger inflated(s), inflated(q)]
        absorbed(calls).is_prefix_of(s) && inflated(s) is Some && absorbed(calls).is_prefix_of(q)
            ==> inflated(q) == Some(emitted(calls))
}

/// What a decoder had taken before the last step, and what it was offered in it.
pub open spec fn offered(calls: Seq<InflateCall>) -> Seq<u8> {
    absorbed(calls.drop_last()) + calls.last().input
}

/// The last step offered how `s` goes on: a part with more announced, or all that is left.
pub open spec fn offers(calls: Seq<InflateCall>, s: Seq<u8>) -> bool {
    &&& calls.len() > 0
    &&& offered(calls).is_prefix_of(s)
    &&& calls.last().flags == HAS_MORE_INPUT || offered(calls) == s
}

/// The last step has not failed on its way through `s`: what was put out is how the contents
/// of `s` begin; more input is asked for only when all that was offered is taken and it was
/// not all of `s`, more room only when some was used.
pub open spec fn gets_on(calls: Seq<InflateCall>, s: Seq<u8>) -> bool {
    let reply = inflate_reply(calls);
    &&& inflated(s) matches Some(out) && emitted(calls).is_prefix_of(out)
    &&& match reply.status {
        InflateStatus::Done => true,
        InflateStatus::NeedsMoreInput => reply.consumed == calls.last().input.len() && offered(
            calls,
        ) != s,
        InflateStatus::HasMoreOutput => reply.written > 0,
        _ => false,
    }
}

/// One more step that goes on where the last one ended makes a longer chain.
pub proof fn lemma_chained_push(calls: Seq<InflateCall>, call: InflateCall)
    requires
        chained(calls),
        unfinished(calls),
        continued(calls, call.window, call.out_pos),
        call.window.len() == WINDOW_SIZE,
        call.flags == 0 || call.flags == HAS_MORE_INPUT,
    ensures
        chained(calls.push(call)),
{
    let more = calls.push(call);
    assert forall|k: int|
        #![trigger more[k]]
        0 <= k < more.len() implies {
        &&& more[k].window.len() == WINDOW_SIZE
        &&& more[k].flags == 0 || more[k].flags == HAS_MORE_INPUT
        &&& continued(more.take(k), more[k].window, more[k].out_pos)
        &&& unfinished(more.take(k))
    } by {
        if k < calls.len() {
            assert(more.take(k) =~= calls.take(k));
            assert(calls[k] == more[k]);
        } else {
            assert(more.take(k) =~= calls);
        }
    }
}

/// Calls `DecompressorOxide::new`: no step has been asked of the decoder yet.
#[verifier::external_body]
pub(crate) fn new_decoder() -> (decoder: Box<Decoder>)
    ensures
        decoder_calls(*decoder) == Seq::<InflateCall>::empty(),
{
    Box::new(Decoder::new())
}

/// Calls `DecompressorOxide::clone`: the copy stands where the decoder stands.
#[verifier::external_body]
pub(crate) fn clone_decoder(decoder: &Box<Decoder>) -> (copy: Box<Decoder>)
    ensures
        decoder_calls(*copy) == decoder_calls(**decoder),
{
    decoder.clone()
}

/// Calls `miniz_oxide::inflate::core::decompress`: the reply is a function of the
/// steps asked so far, this one among them; the step takes at most `input`, writes
/// from `out_pos` on and at most to the window's end, and leaves the rest of the
/// window as it was. Where the steps so far are those of one stream, the decoder keeps the
/// stream's state between them and finds the last 32 KiB of its output in the window. So it
/// does what `decompress_to_vec` does with bytes that it can unpack: on its way through
/// them a step does not fail, asks for input only when it has taken what it was offered and
/// that was not all of them, asks for room only when it has written up to the window's end,
/// and what it has put out is how the contents begin; at the end of the stream, where the
/// bytes that were read ahead are given back, it has put out just what any bytes that begin
/// with the ones taken unpack to. A match that reaches before the first byte put out is
/// taken here and refused there, so that nothing is claimed of bytes that
/// `decompress_to_vec` cannot unpack.
#[verifier::external_body]
pub(crate) fn inflate_step(
    decoder: &mut Box<Decoder>,
    input: &[u8],
    window: &mut Vec<u8>,
    out_pos: usize,
    flags: u32,
) -> (reply: (InflateStatus, usize, usize))
    requires
        old(window)@.len() == WINDOW_SIZE,
        out_pos <= WINDOW_SIZE,
        flags == 0 || flags == HAS_MORE_INPUT,
    ensures
        decoder_calls(**final(decoder)) == decoder_calls(**old(decoder)).push(
            (InflateCall {
                input: input@,
                window: old(window)@,
                out_pos: out_pos as int,
                flags: flags,
            }),
        ),
        inflate_reply(decoder_calls(**final(decoder))) == (InflateReply {
            status: reply.0,
            consumed: reply.1 as int,
            written: reply.2 as int,
            window: final(window)@,
        }),
        reply.1 <= input@.len(),
        reply.2 <= old(window)@.len() - out_pos,
        final(window)@.len() == old(window)@.len(),
        forall|i: int|
            0 <= i < out_pos || out_pos + reply.2 <= i < old(window)@.len()
                ==> #[trigger] final(window)@[i] == old(window)@[i],
        reply.0 is Done && chained(decoder_calls(**final(decoder))) ==> agrees(
            decoder_calls(**final(decoder)),
        ),
        chained(decoder_calls(**final(decoder))) ==> forall|s: Seq<u8>|
            inflated(s) is Some && #[trigger] offers(decoder_calls(**final(decoder)), s) ==> gets_on(
                decoder_calls(**final(decoder)),
                s,
            ),
{
    let (status, consumed, written) =
        miniz_oxide::inflate::core::decompress(decoder, input, window, out_pos, flags);
    let status = match status {
        miniz_oxide::inflate::TINFLStatus::FailedCannotMakeProgress => InflateStatus::FailedCannotMakeProgress,
        miniz_oxide::inflate::TINFLStatus::BadParam => InflateStatus::BadParam,
        miniz_oxide::inflate::TINFLStatus::Adler32Mismatch => InflateStatus::Adler32Mismatch,
        miniz_oxide::inflate::TINFLStatus::Failed => InflateStatus::Failed,
        miniz_oxide::inflate::TINFLStatus::Done => InflateStatus::Done,
        miniz_oxide::inflate::TINFLStatus::NeedsMoreInput => InflateStatus::NeedsMoreInput,
        miniz_oxide::inflate::TINFLStatus::HasMoreOutput => InflateStatus::HasMoreOutput,
    };
    (status, consumed, written)
}

} // verus!
