//! A streaming check of PNG structure: signature, chunks, and each chunk's checksum.
use vstd::prelude::*;

use crate::bytes;
use crate::checksum;

verus! {

/// What the next byte of a PNG stream belongs to.
#[derive(Clone, Copy)]
pub enum PngPhase {
    Signature,
    ChunkLen,
    ChunkType,
    ChunkData,
    ChunkCrc,
    PostIend,
}

/// The eight bytes that every PNG begins with.
pub open spec fn png_signature() -> Seq<u8> {
    seq![0x89u8, 0x50, 0x4E, 0x47, 0x0D, 0x0A, 0x1A, 0x0A]
}

/// The type of the chunk that ends a PNG.
pub open spec fn iend() -> Seq<u8> {
    seq![0x49u8, 0x45, 0x4E, 0x44]
}

/// An ASCII letter.
pub open spec fn is_letter(b: u8) -> bool {
    0x41 <= b <= 0x5A || 0x61 <= b <= 0x7A
}

/// The largest length that a chunk may state.
pub const MAX_CHUNK_LEN: u32 = 0x7FFF_FFFF;

/// Where a validator stands in a stream.
#[verifier::ext_equal]
pub struct PngModel {
    pub phase: PngPhase,
    /// The four bytes of a length or checksum, of which `filled` have arrived.
    pub buf: Seq<u8>,
    /// How many bytes of the present length, type or checksum have arrived.
    pub filled: int,
    pub kind: Seq<u8>,
    pub remaining: int,
    /// The checksum of the chunk's type and data so far.
    pub crc: u32,
    pub sig_pos: int,
}

impl PngModel {
    /// Before the first byte.
    pub open spec fn start() -> PngModel {
        PngModel {
            phase: PngPhase::Signature,
            buf: seq![0u8, 0, 0, 0],
            filled: 0,
            kind: seq![0u8, 0, 0, 0],
            remaining: 0,
            crc: 0,
            sig_pos: 0,
        }
    }

    /// The counters are in the range that the phase gives them.
    pub open spec fn wf(self) -> bool {
        &&& self.buf.len() == 4
        &&& self.kind.len() == 4
        &&& 0 <= self.remaining <= MAX_CHUNK_LEN
        &&& 0 <= self.filled
        &&& match self.phase {
            PngPhase::Signature => 0 <= self.sig_pos < 8,
            PngPhase::ChunkLen => self.filled < 4,
            PngPhase::ChunkType => self.filled < 4,
            PngPhase::ChunkData => self.remaining > 0,
            PngPhase::ChunkCrc => self.filled < 4,
            PngPhase::PostIend => true,
        }
    }

    /// The validator after the byte `b`, and whether `b` may stand there.
    pub open spec fn step(self, b: u8) -> (PngModel, bool) {
        match self.phase {
            PngPhase::Signature => {
                if b != png_signature()[self.sig_pos] {
                    (self, false)
                } else if self.sig_pos + 1 == 8 {
                    (
                        PngModel {
                            phase: PngPhase::ChunkLen,
                            filled: 0,
                            sig_pos: self.sig_pos + 1,
                            ..self
                        },
                        true,
                    )
                } else {
                    (PngModel { sig_pos: self.sig_pos + 1, ..self }, true)
                }
            },
            PngPhase::ChunkLen => {
                let got = PngModel {
                    buf: self.buf.update(self.filled, b),
                    filled: self.filled + 1,
                    ..self
                };
                let len = got.number();
                if got.filled < 4 {
                    (got, true)
                } else if len > MAX_CHUNK_LEN {
                    (got, false)
                } else {
                    (
                        PngModel {
                            phase: PngPhase::ChunkType,
                            filled: 0,
                            remaining: len,
                            crc: 0,
                            ..got
                        },
                        true,
                    )
                }
            },
            PngPhase::ChunkType => {
                let got = PngModel {
                    kind: self.kind.update(self.filled, b),
                    filled: self.filled + 1,
                    crc: checksum::crc32_after(self.crc, seq![b]),
                    ..self
                };
                if !is_letter(b) {
                    (self, false)
                } else if got.filled < 4 {
                    (got, true)
                } else if got.remaining == 0 {
                    (PngModel { phase: PngPhase::ChunkCrc, filled: 0, ..got }, true)
                } else {
                    (PngModel { phase: PngPhase::ChunkData, ..got }, true)
                }
            },
            PngPhase::ChunkData => {
                let got = PngModel {
                    crc: checksum::crc32_after(self.crc, seq![b]),
                    remaining: self.remaining - 1,
                    ..self
                };
                if got.remaining == 0 {
                    (PngModel { phase: PngPhase::ChunkCrc, filled: 0, ..got }, true)
                } else {
                    (got, true)
                }
            },
            PngPhase::ChunkCrc => {
                let got = PngModel {
                    buf: self.buf.update(self.filled, b),
                    filled: self.filled + 1,
                    ..self
                };
                if got.filled < 4 {
                    (got, true)
                } else if got.number() != got.crc {
                    (got, false)
                } else if got.kind == iend() {
                    (PngModel { phase: PngPhase::PostIend, filled: 0, ..got }, true)
                } else {
                    (PngModel { phase: PngPhase::ChunkLen, filled: 0, ..got }, true)
                }
            },
            PngPhase::PostIend => (self, false),
        }
    }

    /// The number in the four buffered bytes, most significant first.
    pub open spec fn number(self) -> int {
        bytes::be32(self.buf[0], self.buf[1], self.buf[2], self.buf[3])
    }

    /// The validator after `data`, byte by byte up to the first one that may not
    /// stand where it does, and whether there was none such.
    pub open spec fn run(self, data: Seq<u8>) -> (PngModel, bool)
        decreases data.len(),
    {
        if data.len() == 0 {
            (self, true)
        } else {
            let (m, good) = self.run(data.drop_last());
            if good {
                m.step(data.last())
            } else {
                (m, false)
            }
        }
    }
}

/// A validator stays in range until it rejects a byte.
pub proof fn lemma_run_wf(m: PngModel, data: Seq<u8>)
    requires
        m.wf(),
    ensures
        m.run(data).1 ==> m.run(data).0.wf(),
    decreases data.len(),
{
    if data.len() > 0 {
        lemma_run_wf(m, data.drop_last());
    }
}

/// Where a stream is cut into pieces makes no difference to the validator.
pub proof fn law_png_cut_anywhere(m: PngModel, a: Seq<u8>, b: Seq<u8>)
    ensures
        m.run(a).1 ==> m.run(a + b) == m.run(a).0.run(b),
        !m.run(a).1 ==> m.run(a + b) == m.run(a),
    decreases b.len(),
{
    if b.len() == 0 {
        assert(a + b =~= a);
    } else {
        law_png_cut_anywhere(m, a, b.drop_last());
        assert((a + b).drop_last() =~= a + b.drop_last());
        assert((a + b).last() == b.last());
    }
}

/// Inside chunk data the bytes go into the checksum and nothing else is looked at.
proof fn lemma_run_chunk_data(m: PngModel, data: Seq<u8>)
    requires
        m.wf(),
        m.phase is ChunkData,
        data.len() <= m.remaining,
    ensures
        m.run(data).1,
        data.len() < m.remaining ==> m.run(data).0 == (PngModel {
            crc: checksum::crc32_after(m.crc, data),
            remaining: m.remaining - data.len(),
            ..m
        }),
        data.len() == m.remaining ==> m.run(data).0 == (PngModel {
            phase: PngPhase::ChunkCrc,
            filled: 0,
            crc: checksum::crc32_after(m.crc, data),
            remaining: 0,
            ..m
        }),
    decreases data.len(),
{
    checksum::law_checksum_in_pieces(m.crc, data, data);
    if data.len() > 0 {
        lemma_run_chunk_data(m, data.drop_last());
        checksum::law_checksum_in_pieces(m.crc, data.drop_last(), seq![data.last()]);
        assert(data.drop_last() + seq![data.last()] =~= data);
    }
}

/// Four bytes, most significant first.
pub open spec fn be32_bytes(x: int) -> Seq<u8> {
    seq![
        (x / 0x100_0000 % 256) as u8,
        (x / 0x1_0000 % 256) as u8,
        (x / 0x100 % 256) as u8,
        (x % 256) as u8,
    ]
}

/// A chunk of a PNG: a type and data.
#[verifier::ext_equal]
pub struct PngChunk {
    pub kind: Seq<u8>,
    pub body: Seq<u8>,
}

impl PngChunk {
    /// The type is four letters and the data is no longer than a chunk may be.
    pub open spec fn valid(self) -> bool {
        &&& self.kind.len() == 4
        &&& forall|i: int| 0 <= i < 4 ==> is_letter(#[trigger] self.kind[i])
        &&& self.body.len() <= 0x7FFF_FFFF
    }

    /// Length, type, data, and the checksum of type and data.
    pub open spec fn encoded(self) -> Seq<u8> {
        be32_bytes(self.body.len() as int) + self.kind + self.body + be32_bytes(
            checksum::crc32_of(self.kind + self.body) as int,
        )
    }
}

/// The bytes of a sequence of chunks.
pub open spec fn chunk_bytes(chunks: Seq<PngChunk>) -> Seq<u8>
    decreases chunks.len(),
{
    if chunks.len() == 0 {
        Seq::empty()
    } else {
        chunk_bytes(chunks.drop_last()) + chunks.last().encoded()
    }
}

/// `data` is the signature followed by `chunks`, of which the last one and no
/// other is the end chunk.
pub open spec fn is_png_of(data: Seq<u8>, chunks: Seq<PngChunk>) -> bool {
    &&& chunks.len() > 0
    &&& forall|i: int| 0 <= i < chunks.len() ==> (#[trigger] chunks[i]).valid()
    &&& forall|i: int|
        0 <= i < chunks.len() ==> (#[trigger] chunks[i].kind == iend() <==> i == chunks.len() - 1)
    &&& data == png_signature() + chunk_bytes(chunks)
}

/// A chunk is valid just if its type is four ASCII letters and its data is shorter than 2 GiB;
/// its bytes are the length, highest byte first, the type, the data, and the checksum of both,
/// highest byte first.
pub proof fn law_chunk_bytes(chunk: PngChunk)
    ensures
        chunk.valid() <==> {
            &&& chunk.kind.len() == 4
            &&& forall|i: int|
                0 <= i < 4 ==> ('A' as u8 <= (#[trigger] chunk.kind[i]) <= 'Z' as u8 || 'a' as u8
                    <= chunk.kind[i] <= 'z' as u8)
            &&& chunk.body.len() < 0x8000_0000
        },
        chunk.valid() ==> {
            let s = chunk.encoded();
            let n = chunk.body.len();
            let crc = checksum::crc32_of(chunk.kind + chunk.body);
            &&& s.len() == 12 + n
            &&& n == 0x100_0000 * s[0] + 0x1_0000 * s[1] + 0x100 * s[2] + s[3]
            &&& s.subrange(4, 8) == chunk.kind
            &&& s.subrange(8, 8 + n as int) == chunk.body
            &&& crc == 0x100_0000 * s[8 + n as int] + 0x1_0000 * s[9 + n as int] + 0x100 * s[10
                + n as int] + s[11 + n as int]
        },
{
    assert forall|b: u8| #[trigger] is_letter(b) <==> ('A' as u8 <= b <= 'Z' as u8 || 'a' as u8 <= b
        <= 'z' as u8) by {}
    if chunk.valid() {
        let s = chunk.encoded();
        let n = chunk.body.len() as int;
        let crc = checksum::crc32_of(chunk.kind + chunk.body) as int;
        let a = be32_bytes(n);
        let b = be32_bytes(crc);
        assert(s == a + chunk.kind + chunk.body + b);
        assert(s[0] == a[0] && s[1] == a[1] && s[2] == a[2] && s[3] == a[3]);
        assert(s[8 + n] == b[0] && s[9 + n] == b[1] && s[10 + n] == b[2] && s[11 + n] == b[3]);
        lemma_be32_back(n);
        lemma_be32_back(crc);
        assert(s.subrange(4, 8) =~= chunk.kind);
        assert(s.subrange(8, 8 + n) =~= chunk.body);
    }
    if chunk.kind.len() == 4 && forall|i: int|
        0 <= i < 4 ==> ('A' as u8 <= (#[trigger] chunk.kind[i]) <= 'Z' as u8 || 'a' as u8
            <= chunk.kind[i] <= 'z' as u8) {
        assert forall|i: int| 0 <= i < 4 implies is_letter(#[trigger] chunk.kind[i]) by {}
    }
    if chunk.valid() {
        assert forall|i: int| 0 <= i < 4 implies ('A' as u8 <= (#[trigger] chunk.kind[i])
            <= 'Z' as u8 || 'a' as u8 <= chunk.kind[i] <= 'z' as u8) by {
            assert(is_letter(chunk.kind[i]));
        }
    }
}

/// A PNG begins with `89 50 4E 47 0D 0A 1A 0A` and goes on with its chunks, one behind the
/// other; the last one and no other has the type `IEND`.
pub proof fn law_png_bytes(data: Seq<u8>, chunks: Seq<PngChunk>)
    requires
        is_png_of(data, chunks),
    ensures
        data.len() >= 8,
        data[0] == 0x89 && data[1] == 0x50 && data[2] == 0x4E && data[3] == 0x47,
        data[4] == 0x0D && data[5] == 0x0A && data[6] == 0x1A && data[7] == 0x0A,
        data.skip(8) == chunk_bytes(chunks),
        chunk_bytes(chunks) == chunk_bytes(chunks.drop_last()) + chunks.last().encoded(),
        forall|i: int|
            0 <= i < chunks.len() ==> ((#[trigger] chunks[i]).kind == seq![
                'I' as u8,
                'E' as u8,
                'N' as u8,
                'D' as u8,
            ] <==> i == chunks.len() - 1),
{
    let s = png_signature();
    let rest = chunk_bytes(chunks);
    assert(data == s + rest);
    assert(data[0] == s[0] && data[1] == s[1] && data[2] == s[2] && data[3] == s[3]);
    assert(data[4] == s[4] && data[5] == s[5] && data[6] == s[6] && data[7] == s[7]);
    assert(data.skip(8) =~= rest);
    assert(iend() =~= seq!['I' as u8, 'E' as u8, 'N' as u8, 'D' as u8]);
    assert forall|i: int| 0 <= i < chunks.len() implies ((#[trigger] chunks[i]).kind == seq![
        'I' as u8,
        'E' as u8,
        'N' as u8,
        'D' as u8,
    ] <==> i == chunks.len() - 1) by {
        assert(chunks[i].kind == iend() <==> i == chunks.len() - 1);
    }
}

proof fn lemma_be32_back(x: int)
    requires
        0 <= x < 0x1_0000_0000,
    ensures
        bytes::be32(
            be32_bytes(x)[0],
            be32_bytes(x)[1],
            be32_bytes(x)[2],
            be32_bytes(x)[3],
        ) == x,
{
}

/// Four bytes that stand alone are taken one after the other.
proof fn lemma_run_four(m: PngModel, s: Seq<u8>)
    requires
        s.len() == 4,
    ensures
        ({
            let (m1, g1) = m.step(s[0]);
            let (m2, g2) = m1.step(s[1]);
            let (m3, g3) = m2.step(s[2]);
            g1 && g2 && g3 ==> m.run(s) == m3.step(s[3])
        }),
{
    let s3 = s.drop_last();
    let s2 = s3.drop_last();
    let s1 = s2.drop_last();
    let s0 = s1.drop_last();
    assert(m.run(s0) == (m, true));
    assert(m.run(s1) == m.step(s[0]));
    assert(m.run(s2) == if m.run(s1).1 { m.run(s1).0.step(s[1]) } else { (m.run(s1).0, false) });
    assert(m.run(s3) == if m.run(s2).1 { m.run(s2).0.step(s[2]) } else { (m.run(s2).0, false) });
}

/// A whole chunk brings a validator from one chunk boundary to the next.
proof fn lemma_run_chunk(m: PngModel, c: PngChunk)
    requires
        m.wf(),
        m.phase is ChunkLen,
        m.filled == 0,
        c.valid(),
    ensures
        ({
            let (n, good) = m.run(c.encoded());
            &&& good
            &&& n.wf()
            &&& n.filled == 0
            &&& c.kind == iend() ==> n.phase is PostIend
            &&& c.kind != iend() ==> n.phase is ChunkLen
        }),
{
    let len = be32_bytes(c.body.len() as int);
    let sum = be32_bytes(checksum::crc32_of(c.kind + c.body) as int);
    lemma_be32_back(c.body.len() as int);
    lemma_be32_back(checksum::crc32_of(c.kind + c.body) as int);
    // length
    lemma_run_four(m, len);
    let m1 = m.run(len).0;
    assert(m.buf.update(0, len[0]).update(1, len[1]).update(2, len[2]).update(3, len[3]) =~= len);
    assert(m1.phase is ChunkType && m1.remaining == c.body.len() && m1.crc == 0 && m.run(len).1
        && m1.filled == 0 && m1.wf());
    // type
    lemma_run_four(m1, c.kind);
    let m2 = m1.run(c.kind).0;
    assert(is_letter(c.kind[0]) && is_letter(c.kind[1]) && is_letter(c.kind[2]) && is_letter(
        c.kind[3],
    ));
    assert(m1.kind.update(0, c.kind[0]).update(1, c.kind[1]).update(2, c.kind[2]).update(
        3,
        c.kind[3],
    ) =~= c.kind);
    let k1 = seq![c.kind[0]];
    let k2 = k1 + seq![c.kind[1]];
    let k3 = k2 + seq![c.kind[2]];
    let k4 = k3 + seq![c.kind[3]];
    checksum::law_checksum_in_pieces(0, k1, seq![c.kind[1]]);
    checksum::law_checksum_in_pieces(0, k2, seq![c.kind[2]]);
    checksum::law_checksum_in_pieces(0, k3, seq![c.kind[3]]);
    assert(k4 =~= c.kind);
    assert(m2.crc == checksum::crc32_of(c.kind));
    assert(m1.run(c.kind).1 && m2.kind == c.kind && m2.remaining == c.body.len());
    law_png_cut_anywhere(m, len, c.kind);
    // data
    checksum::law_checksum_in_pieces(0, c.kind, c.body);
    let m3 = m2.run(c.body).0;
    if c.body.len() == 0 {
        assert(c.kind + c.body =~= c.kind);
        assert(m2.run(c.body) == (m2, true));
    } else {
        lemma_run_chunk_data(m2, c.body);
    }
    assert(m2.run(c.body).1 && m3.phase is ChunkCrc && m3.filled == 0 && m3.kind == c.kind);
    assert(m3.crc == checksum::crc32_of(c.kind + c.body));
    law_png_cut_anywhere(m, len + c.kind, c.body);
    // checksum
    lemma_run_four(m3, sum);
    assert(m3.buf.update(0, sum[0]).update(1, sum[1]).update(2, sum[2]).update(3, sum[3]) =~= sum);
    law_png_cut_anywhere(m, len + c.kind + c.body, sum);
}

proof fn lemma_run_chunks(m: PngModel, chunks: Seq<PngChunk>)
    requires
        m.wf(),
        m.phase is ChunkLen,
        m.filled == 0,
        forall|i: int| 0 <= i < chunks.len() ==> (#[trigger] chunks[i]).valid(),
        forall|i: int| 0 <= i < chunks.len() - 1 ==> #[trigger] chunks[i].kind != iend(),
    ensures
        ({
            let (n, good) = m.run(chunk_bytes(chunks));
            &&& good
            &&& n.wf()
            &&& n.filled == 0
            &&& if chunks.len() > 0 && chunks.last().kind == iend() {
                n.phase is PostIend
            } else {
                n.phase is ChunkLen
            }
        }),
    decreases chunks.len(),
{
    if chunks.len() > 0 {
        let before = chunks.drop_last();
        assert forall|i: int| 0 <= i < before.len() implies (#[trigger] before[i]).valid()
            && before[i].kind != iend() by {
            assert(chunks[i].valid());
            assert(chunks[i].kind != iend());
        }
        lemma_run_chunks(m, before);
        if before.len() > 0 {
            assert(before.last() == chunks[chunks.len() - 2]);
        }
        assert(chunks.last() == chunks[chunks.len() - 1]);
        lemma_run_chunk(m.run(chunk_bytes(before)).0, chunks.last());
        law_png_cut_anywhere(m, chunk_bytes(before), chunks.last().encoded());
    }
}

proof fn lemma_run_signature()
    ensures
        ({
            let (n, good) = PngModel::start().run(png_signature());
            good && n.wf() && n.filled == 0 && n.phase is ChunkLen
        }),
{
    let s = png_signature();
    let a = s.take(4);
    let b = s.skip(4);
    lemma_run_four(PngModel::start(), a);
    let m = PngModel::start().run(a).0;
    lemma_run_four(m, b);
    law_png_cut_anywhere(PngModel::start(), a, b);
    assert(a + b =~= s);
}

/// A validator never rejects a valid PNG, wherever the stream is cut: it takes
/// the first part `a`, then the second part `b`, and then nothing more may come.
pub proof fn law_png_never_rejected(a: Seq<u8>, b: Seq<u8>, chunks: Seq<PngChunk>)
    requires
        is_png_of(a + b, chunks),
    ensures
        PngModel::start().run(a).1,
        PngModel::start().run(a).0.run(b).1,
        PngModel::start().run(a + b).1,
        PngModel::start().run(a + b).0.phase is PostIend,
{
    let m = PngModel::start();
    lemma_run_signature();
    assert forall|i: int| 0 <= i < chunks.len() - 1 implies #[trigger] chunks[i].kind != iend() by {
    }
    lemma_run_chunks(m.run(png_signature()).0, chunks);
    assert(chunks.last() == chunks[chunks.len() - 1]);
    assert(chunks[chunks.len() - 1].kind == iend());
    law_png_cut_anywhere(m, png_signature(), chunk_bytes(chunks));
    law_png_cut_anywhere(m, a, b);
}

/// Fewer bytes than a length, type or checksum has leave the validator inside it.
proof fn lemma_run_few(m: PngModel, data: Seq<u8>)
    requires
        m.phase is ChunkLen || m.phase is ChunkType || m.phase is ChunkCrc,
        m.filled + data.len() < 4,
        m.run(data).1,
    ensures
        m.run(data).0.phase == m.phase,
        m.run(data).0.filled == m.filled + data.len(),
    decreases data.len(),
{
    if data.len() > 0 {
        lemma_run_few(m, data.drop_last());
    }
}

/// A run that goes well goes well up to any point, and on from there.
proof fn lemma_run_split(m: PngModel, data: Seq<u8>, n: int)
    requires
        0 <= n <= data.len(),
        m.run(data).1,
    ensures
        m.run(data.take(n)).1,
        m.run(data.take(n)).0.run(data.skip(n)) == m.run(data),
{
    law_png_cut_anywhere(m, data.take(n), data.skip(n));
    assert(data.take(n) + data.skip(n) =~= data);
}

/// The four bytes of a length, type or checksum, one step each.
proof fn lemma_run_four_good(m: PngModel, s: Seq<u8>)
    requires
        s.len() == 4,
        m.run(s).1,
    ensures
        ({
            let (m1, g1) = m.step(s[0]);
            let (m2, g2) = m1.step(s[1]);
            let (m3, g3) = m2.step(s[2]);
            g1 && g2 && g3 && m.run(s) == m3.step(s[3])
        }),
{
    let s3 = s.drop_last();
    let s2 = s3.drop_last();
    let s1 = s2.drop_last();
    let s0 = s1.drop_last();
    assert(m.run(s0) == (m, true));
    assert(m.run(s3).1);
    assert(m.run(s2).1);
    assert(m.run(s1).1);
}

proof fn lemma_be32_forth(s: Seq<u8>)
    requires
        s.len() == 4,
    ensures
        be32_bytes(bytes::be32(s[0], s[1], s[2], s[3])) == s,
{
    let (a, b, c, d) = (s[0] as int, s[1] as int, s[2] as int, s[3] as int);
    let x = bytes::be32(s[0], s[1], s[2], s[3]);
    assert(x / 0x100 == 0x1_0000 * a + 0x100 * b + c && x % 0x100 == d);
    assert(x / 0x1_0000 == 0x100 * a + b);
    assert(x / 0x100_0000 == a);
    assert(x / 0x100 % 256 == c);
    assert(x / 0x1_0000 % 256 == b);
    assert(be32_bytes(x) =~= s);
}

/// A validator that goes on past a length has read it.
proof fn lemma_len_read(m: PngModel, data: Seq<u8>)
    requires
        m.wf(),
        m.phase is ChunkLen,
        m.filled == 0,
        m.run(data).1,
        m.run(data).0.phase is PostIend,
    ensures
        data.len() >= 4,
        ({
            let s = data.take(4);
            let m1 = m.run(s).0;
            &&& m1.wf()
            &&& m1.phase is ChunkType
            &&& m1.filled == 0
            &&& m1.crc == 0
            &&& 0 <= m1.remaining <= MAX_CHUNK_LEN
            &&& be32_bytes(m1.remaining) == s
            &&& m1.run(data.skip(4)) == m.run(data)
        }),
{
    if data.len() < 4 {
        lemma_run_few(m, data);
    }
    let s = data.take(4);
    lemma_run_split(m, data, 4);
    lemma_run_four_good(m, s);
    lemma_run_wf(m, s);
    assert(m.buf.update(0, s[0]).update(1, s[1]).update(2, s[2]).update(3, s[3]) =~= s);
    lemma_be32_forth(s);
}

/// A validator that goes on past a chunk's type has read it.
proof fn lemma_kind_read(m: PngModel, data: Seq<u8>)
    requires
        m.wf(),
        m.phase is ChunkType,
        m.filled == 0,
        m.crc == 0,
        m.run(data).1,
        m.run(data).0.phase is PostIend,
    ensures
        data.len() >= 4,
        ({
            let s = data.take(4);
            let m1 = m.run(s).0;
            &&& m1.wf()
            &&& m1.kind == s
            &&& forall|i: int| 0 <= i < 4 ==> is_letter(#[trigger] s[i])
            &&& m1.crc == checksum::crc32_of(s)
            &&& m1.remaining == m.remaining
            &&& if m.remaining == 0 {
                m1.phase is ChunkCrc && m1.filled == 0
            } else {
                m1.phase is ChunkData
            }
            &&& m1.run(data.skip(4)) == m.run(data)
        }),
{
    if data.len() < 4 {
        lemma_run_few(m, data);
    }
    let s = data.take(4);
    lemma_run_split(m, data, 4);
    lemma_run_four_good(m, s);
    lemma_run_wf(m, s);
    assert(m.kind.update(0, s[0]).update(1, s[1]).update(2, s[2]).update(3, s[3]) =~= s);
    let k1 = seq![s[0]];
    let k2 = k1 + seq![s[1]];
    let k3 = k2 + seq![s[2]];
    checksum::law_checksum_in_pieces(0, k1, seq![s[1]]);
    checksum::law_checksum_in_pieces(0, k2, seq![s[2]]);
    checksum::law_checksum_in_pieces(0, k3, seq![s[3]]);
    assert(k3 + seq![s[3]] =~= s);
}

/// A validator that goes on past a chunk's data has read it.
proof fn lemma_body_read(m: PngModel, data: Seq<u8>)
    requires
        m.wf(),
        m.crc == checksum::crc32_of(m.kind),
        m.remaining == 0 ==> m.phase is ChunkCrc && m.filled == 0,
        m.remaining > 0 ==> m.phase is ChunkData,
        m.run(data).1,
        m.run(data).0.phase is PostIend,
    ensures
        data.len() >= m.remaining,
        ({
            let s = data.take(m.remaining);
            let m1 = m.run(s).0;
            &&& m1.wf()
            &&& m1.phase is ChunkCrc
            &&& m1.filled == 0
            &&& m1.kind == m.kind
            &&& m1.crc == checksum::crc32_of(m.kind + s)
            &&& m1.run(data.skip(m.remaining)) == m.run(data)
        }),
{
    if m.remaining > data.len() {
        lemma_run_chunk_data(m, data);
    }
    let s = data.take(m.remaining);
    lemma_run_split(m, data, m.remaining);
    if m.remaining > 0 {
        lemma_run_chunk_data(m, s);
    } else {
        assert(s =~= Seq::empty());
    }
    checksum::law_checksum_in_pieces(0, m.kind, s);
    checksum::law_checksum_in_pieces(m.crc, s, s);
}

/// A validator that goes on past a chunk's checksum has read it.
proof fn lemma_sum_read(m: PngModel, data: Seq<u8>)
    requires
        m.wf(),
        m.phase is ChunkCrc,
        m.filled == 0,
        m.run(data).1,
        m.run(data).0.phase is PostIend,
    ensures
        data.len() >= 4,
        ({
            let s = data.take(4);
            let m1 = m.run(s).0;
            &&& m1.wf()
            &&& m1.filled == 0
            &&& s == be32_bytes(m.crc as int)
            &&& m.kind == iend() ==> m1.phase is PostIend
            &&& m.kind != iend() ==> m1.phase is ChunkLen
            &&& m1.run(data.skip(4)) == m.run(data)
        }),
{
    if data.len() < 4 {
        lemma_run_few(m, data);
    }
    let s = data.take(4);
    lemma_run_split(m, data, 4);
    lemma_run_four_good(m, s);
    lemma_run_wf(m, s);
    assert(m.buf.update(0, s[0]).update(1, s[1]).update(2, s[2]).update(3, s[3]) =~= s);
    lemma_be32_forth(s);
}

proof fn lemma_chunk_bytes_front(c: PngChunk, rest: Seq<PngChunk>)
    ensures
        chunk_bytes(seq![c] + rest) == c.encoded() + chunk_bytes(rest),
    decreases rest.len(),
{
    let all = seq![c] + rest;
    if rest.len() == 0 {
        assert(all.drop_last() =~= Seq::empty());
        assert(chunk_bytes(all.drop_last()) =~= Seq::empty());
        assert(chunk_bytes(all) =~= c.encoded() + chunk_bytes(rest));
    } else {
        lemma_chunk_bytes_front(c, rest.drop_last());
        assert(all.drop_last() =~= seq![c] + rest.drop_last());
        assert(all.last() == rest.last());
        assert(chunk_bytes(all) =~= c.encoded() + chunk_bytes(rest));
    }
}

/// After the end chunk nothing may come.
proof fn lemma_end_is_the_end(m: PngModel, data: Seq<u8>)
    requires
        m.phase is PostIend,
        m.run(data).1,
    ensures
        data.len() == 0,
{
    if data.len() > 0 {
        lemma_run_split(m, data, 1);
        let first = data.take(1);
        assert(first.drop_last() =~= Seq::empty());
        assert(m.run(first.drop_last()) == (m, true));
    }
}

/// The chunks that a validator has read from a chunk boundary to the end.
proof fn lemma_chunks_read(m: PngModel, data: Seq<u8>) -> (chunks: Seq<PngChunk>)
    requires
        m.wf(),
        m.phase is ChunkLen,
        m.filled == 0,
        m.run(data).1,
        m.run(data).0.phase is PostIend,
    ensures
        chunks.len() > 0,
        forall|i: int| 0 <= i < chunks.len() ==> (#[trigger] chunks[i]).valid(),
        forall|i: int|
            0 <= i < chunks.len() ==> (#[trigger] chunks[i].kind == iend() <==> i == chunks.len() - 1),
        data == chunk_bytes(chunks),
    decreases data.len(),
{
    lemma_len_read(m, data);
    let len = data.take(4);
    let m1 = m.run(len).0;
    let r1 = data.skip(4);
    lemma_kind_read(m1, r1);
    let kind = r1.take(4);
    let m2 = m1.run(kind).0;
    let r2 = r1.skip(4);
    lemma_body_read(m2, r2);
    let body = r2.take(m2.remaining);
    let m3 = m2.run(body).0;
    let r3 = r2.skip(m2.remaining);
    lemma_sum_read(m3, r3);
    let sum = r3.take(4);
    let m4 = m3.run(sum).0;
    let rest = r3.skip(4);
    let c = PngChunk { kind, body };
    assert(c.valid());
    assert(data =~= len + kind + body + sum + rest);
    assert(c.encoded() =~= len + kind + body + sum);
    if kind == iend() {
        lemma_end_is_the_end(m4, rest);
        let chunks = seq![c];
        lemma_chunk_bytes_front(c, Seq::empty());
        assert(chunks =~= seq![c] + Seq::empty());
        assert(data =~= c.encoded() + chunk_bytes(Seq::empty()));
        chunks
    } else {
        let others = lemma_chunks_read(m4, rest);
        let chunks = seq![c] + others;
        lemma_chunk_bytes_front(c, others);
        assert forall|i: int| 0 <= i < chunks.len() implies (#[trigger] chunks[i]).valid() by {
            if i > 0 {
                assert(chunks[i] == others[i - 1]);
            }
        }
        assert forall|i: int| 0 <= i < chunks.len() implies (#[trigger] chunks[i].kind == iend()
            <==> i == chunks.len() - 1) by {
            if i > 0 {
                assert(chunks[i] == others[i - 1]);
                assert(others[i - 1].kind == iend() <==> i - 1 == others.len() - 1);
            }
        }
        chunks
    }
}

/// What a validator has taken to the end is a valid PNG.
pub proof fn law_png_taken_is_valid(data: Seq<u8>)
    requires
        PngModel::start().run(data).1,
        PngModel::start().run(data).0.phase is PostIend,
    ensures
        exists|chunks: Seq<PngChunk>| is_png_of(data, chunks),
{
    let m = PngModel::start();
    lemma_signature_read(data);
    lemma_run_signature();
    let chunks = lemma_chunks_read(m.run(png_signature()).0, data.skip(8));
    assert(data =~= png_signature() + chunk_bytes(chunks));
    assert(is_png_of(data, chunks));
}

/// A validator that goes on past the signature has read it.
proof fn lemma_signature_read(data: Seq<u8>)
    requires
        PngModel::start().run(data).1,
        PngModel::start().run(data).0.phase is PostIend,
    ensures
        data.len() >= 8,
        data.take(8) == png_signature(),
        PngModel::start().run(png_signature()).0.run(data.skip(8)) == PngModel::start().run(data),
{
    let m = PngModel::start();
    if data.len() < 8 {
        lemma_run_in_signature(data);
    }
    lemma_run_split(m, data, 8);
    lemma_run_split(m, data, 7);
    let seven = data.take(7);
    let eight = data.take(8);
    assert(eight.drop_last() =~= seven);
    lemma_run_in_signature(seven);
    assert(eight =~= png_signature());
}

proof fn lemma_run_in_signature(data: Seq<u8>)
    requires
        PngModel::start().run(data).1,
        data.len() < 8,
    ensures
        PngModel::start().run(data).0.phase is Signature,
        PngModel::start().run(data).0.sig_pos == data.len(),
        data == png_signature().take(data.len() as int),
    decreases data.len(),
{
    if data.len() > 0 {
        lemma_run_in_signature(data.drop_last());
    }
    assert(data =~= png_signature().take(data.len() as int));
}

/// A streaming PNG validator. A wrong signature, a length out of range, a chunk
/// type that is not made of letters, a chunk checksum that does not match, and
/// anything after the end chunk are rejected at the byte that shows them.
#[derive(Clone, Copy)]
pub struct PngValidator {
    phase: PngPhase,
    buf: [u8; 4],
    buf_len: usize,
    chunk_type: [u8; 4],
    chunk_data_remaining: u32,
    crc: u32,
    sig_pos: usize,
}

impl View for PngValidator {
    type V = PngModel;

    closed spec fn view(&self) -> PngModel {
        PngModel {
            phase: self.phase,
            buf: self.buf@,
            filled: self.buf_len as int,
            kind: self.chunk_type@,
            remaining: self.chunk_data_remaining as int,
            crc: self.crc,
            sig_pos: self.sig_pos as int,
        }
    }
}

impl PngValidator {
    /// A validator before the first byte.
    pub fn new() -> (v: Self)
        ensures
            v@ == PngModel::start(),
            v@.wf(),
    {
        let v = PngValidator {
            phase: PngPhase::Signature,
            buf: [0u8, 0, 0, 0],
            buf_len: 0,
            chunk_type: [0u8, 0, 0, 0],
            chunk_data_remaining: 0,
            crc: 0,
            sig_pos: 0,
        };
        assert(v@ =~= PngModel::start());
        v
    }

    /// Takes the next bytes of the stream; `false` if one of them may not stand
    /// where it does. After that the validator is spent.
    pub fn feed(&mut self, data: &[u8]) -> (good: bool)
        requires
            old(self)@.wf(),
        ensures
            (final(self)@, good) == old(self)@.run(data@),
            good ==> final(self)@.wf(),
    {
        let mut i: usize = 0;
        while i < data.len()
            invariant
                i <= data@.len(),
                self@.wf(),
                old(self)@.run(data@.take(i as int)) == (self@, true),
            decreases data@.len() - i,
        {
            if let PngPhase::ChunkData = self.phase {
                let avail: usize = data.len() - i;
                let left: usize = self.chunk_data_remaining as usize;
                let take: usize = if left < avail {
                    left
                } else {
                    avail
                };
                let ghost piece = data@.subrange(i as int, i + take);
                proof {
                    lemma_run_chunk_data(self@, piece);
                    law_png_cut_anywhere(old(self)@, data@.take(i as int), piece);
                    assert(data@.take(i as int) + piece =~= data@.take(i + take));
                }
                let ghost before = self@;
                self.crc = checksum::crc32_continue(self.crc, &data[i..i + take]);
                self.chunk_data_remaining = self.chunk_data_remaining - take as u32;
                i = i + take;
                if self.chunk_data_remaining == 0 {
                    self.phase = PngPhase::ChunkCrc;
                    self.buf_len = 0;
                }
                assert(self@ =~= before.run(piece).0);
            } else {
                let ghost before = self@;
                let good: bool = self.feed_byte(data[i]);
                proof {
                    let longer = data@.take(i + 1);
                    assert(longer.drop_last() =~= data@.take(i as int));
                    assert(old(self)@.run(longer) == before.step(data@[i as int]));
                    if !good {
                        law_png_cut_anywhere(old(self)@, longer, data@.skip(i + 1));
                        assert(longer + data@.skip(i + 1) =~= data@);
                    }
                }
                if !good {
                    return false;
                }
                i = i + 1;
            }
        }
        assert(data@.take(i as int) =~= data@);
        true
    }

    /// Takes the next byte of the stream.
    pub fn feed_byte(&mut self, b: u8) -> (good: bool)
        requires
            old(self)@.wf(),
        ensures
            (final(self)@, good) == old(self)@.step(b),
            good ==> final(self)@.wf(),
    {
        let ghost before = self@;
        let mut good: bool = true;
        match self.phase {
            PngPhase::Signature => {
                let sig: [u8; 8] = [0x89u8, 0x50, 0x4E, 0x47, 0x0D, 0x0A, 0x1A, 0x0A];
                assert(sig@ =~= png_signature());
                if b != sig[self.sig_pos] {
                    good = false;
                } else {
                    self.sig_pos = self.sig_pos + 1;
                    if self.sig_pos == 8 {
                        self.phase = PngPhase::ChunkLen;
                        self.buf_len = 0;
                    }
                }
            },
            PngPhase::ChunkLen => {
                self.buf[self.buf_len] = b;
                self.buf_len = self.buf_len + 1;
                if self.buf_len == 4 {
                    let len: u32 = bytes::join_be32(
                        self.buf[0],
                        self.buf[1],
                        self.buf[2],
                        self.buf[3],
                    );
                    if len > MAX_CHUNK_LEN {
                        good = false;
                    } else {
                        self.chunk_data_remaining = len;
                        self.crc = 0;
                        self.phase = PngPhase::ChunkType;
                        self.buf_len = 0;
                    }
                }
            },
            PngPhase::ChunkType => {
                if !((b >= 0x41 && b <= 0x5A) || (b >= 0x61 && b <= 0x7A)) {
                    good = false;
                } else {
                    self.chunk_type[self.buf_len] = b;
                    let one: [u8; 1] = [b];
                    assert(one@ =~= seq![b]);
                    self.crc = checksum::crc32_continue(self.crc, &one);
                    self.buf_len = self.buf_len + 1;
                    if self.buf_len == 4 {
                        if self.chunk_data_remaining == 0 {
                            self.phase = PngPhase::ChunkCrc;
                            self.buf_len = 0;
                        } else {
                            self.phase = PngPhase::ChunkData;
                        }
                    }
                }
            },
            PngPhase::ChunkData => {
                let one: [u8; 1] = [b];
                assert(one@ =~= seq![b]);
                self.crc = checksum::crc32_continue(self.crc, &one);
                self.chunk_data_remaining = self.chunk_data_remaining - 1;
                if self.chunk_data_remaining == 0 {
                    self.phase = PngPhase::ChunkCrc;
                    self.buf_len = 0;
                }
            },
            PngPhase::ChunkCrc => {
                self.buf[self.buf_len] = b;
                self.buf_len = self.buf_len + 1;
                if self.buf_len == 4 {
                    let expected: u32 = bytes::join_be32(
                        self.buf[0],
                        self.buf[1],
                        self.buf[2],
                        self.buf[3],
                    );
                    if expected != self.crc {
                        good = false;
                    } else {
                        let end: bool = self.chunk_type[0] == 0x49 && self.chunk_type[1] == 0x45
                            && self.chunk_type[2] == 0x4E && self.chunk_type[3] == 0x44;
                        assert(end == (self.chunk_type@ =~= iend()));
                        if end {
                            self.phase = PngPhase::PostIend;
                        } else {
                            self.phase = PngPhase::ChunkLen;
                        }
                        self.buf_len = 0;
                    }
                }
            },
            PngPhase::PostIend => {
                good = false;
            },
        }
        assert(self@ =~= before.step(b).0);
        good
    }
}

} // verus!
