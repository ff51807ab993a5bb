//! Writing ZIP archives, and reading the local headers and contents of one.
use vstd::prelude::*;
use vstd::string::StringExecFns;

use crate::bytes;
use crate::checksum;
use crate::corrupt::{CR, LF};
use crate::positions;
use crate::text;
use crate::unpack;

verus! {

/// The signature of a local file header.
pub const LOCAL_HEADER: u32 = 0x0403_4b50;

/// The signature of a central directory entry.
pub const CENTRAL_ENTRY: u32 = 0x0201_4b50;

/// The signature of the end of the central directory.
pub const END_OF_CENTRAL: u32 = 0x0605_4b50;

/// The CRC-32 checksum of `data`.
pub fn crc32(data: &[u8]) -> (crc: u32)
    ensures
        crc == checksum::crc32_of(data@),
{
    checksum::crc32_continue(0, data)
}

/// A carriage return and a line feed stand at `i`.
pub open spec fn crlf_at(data: Seq<u8>, i: int) -> bool {
    0 <= i && i + 1 < data.len() && data[i] == CR && data[i + 1] == LF
}

/// The carriage returns that have a line feed behind them.
pub open spec fn crlfs(data: Seq<u8>) -> Seq<usize> {
    positions::positions(data.len(), |i: int| crlf_at(data, i))
}

/// Calls `memchr::memchr_iter`: the iterator yields the position of every
/// occurrence of `needle`, in ascending order.
#[verifier::external_body]
fn memchr_positions(needle: u8, haystack: &[u8]) -> (found: Vec<usize>)
    ensures
        found@ == positions::positions(haystack@.len(), |i: int| haystack@[i] == needle),
{
    memchr::memchr_iter(needle, haystack).collect()
}

/// The positions of the carriage returns that have a line feed behind them.
pub fn find_crlf_positions(data: &[u8]) -> (found: Vec<usize>)
    ensures
        found@ == crlfs(data@),
        positions::ascending(found@),
{
    let crs: Vec<usize> = memchr_positions(CR, data);
    let ghost hit = |i: int| data@[i] == CR;
    let ghost both = |i: int| crlf_at(data@, i);
    assert(data.len() == data@.len());
    proof {
        positions::lemma_positions(data@.len(), hit);
        positions::lemma_positions(data@.len(), both);
    }
    let mut found: Vec<usize> = Vec::new();
    for k in 0..crs.len()
        invariant
            crs@ == positions::positions(data@.len(), hit),
            positions::ascending(crs@),
            hit == (|i: int| data@[i] == CR),
            forall|j: int|
                0 <= j < crs@.len() ==> #[trigger] crs@[j] < data@.len() && hit(crs@[j] as int),
            positions::ascending(found@),
            forall|j: int|
                0 <= j < found@.len() ==> crlf_at(data@, #[trigger] found@[j] as int)
                    && crs@.take(k as int).contains(found@[j]),
            forall|j: int|
                0 <= j < k && crlf_at(data@, #[trigger] crs@[j] as int) ==> found@.contains(crs@[j]),
    {
        let pos: usize = crs[k];
        assert(pos < data.len() && hit(pos as int));
        let ghost before = found@;
        if pos + 1 < data.len() && data[pos + 1] == LF {
            proof {
                assert forall|j: int| 0 <= j < found@.len() implies #[trigger] found@[j] < pos by {
                    let m = choose|m: int| 0 <= m < k && crs@.take(k as int)[m] == found@[j];
                    assert(crs@[m] < crs@[k as int]);
                }
            }
            found.push(pos);
            assert(found@[found@.len() - 1] == pos);
        }
        proof {
            assert forall|j: int| 0 <= j < found@.len() implies crlf_at(
                data@,
                #[trigger] found@[j] as int,
            ) && crs@.take(k + 1).contains(found@[j]) by {
                if j < before.len() {
                    assert(found@[j] == before[j]);
                    let m = choose|m: int| 0 <= m < k && crs@.take(k as int)[m] == found@[j];
                    assert(crs@.take(k + 1)[m] == found@[j]);
                } else {
                    assert(crs@.take(k + 1)[k as int] == pos);
                }
            }
            assert forall|j: int|
                0 <= j < k + 1 && crlf_at(data@, #[trigger] crs@[j] as int) implies found@.contains(
                crs@[j],
            ) by {
                if j < k {
                    let m = choose|m: int| 0 <= m < before.len() && before[m] == crs@[j];
                    assert(found@[m] == crs@[j]);
                }
            }
        }
    }
    proof {
        assert forall|x: usize| found@.contains(x) <==> crlfs(data@).contains(x) by {
            if found@.contains(x) {
                let j = choose|j: int| 0 <= j < found@.len() && found@[j] == x;
                assert(both(x as int));
                assert(crlfs(data@).contains((x as int) as usize));
            }
            if crlfs(data@).contains(x) {
                let j = choose|j: int| 0 <= j < crlfs(data@).len() && crlfs(data@)[j] == x;
                assert(both(x as int));
                assert(hit(x as int));
                assert(crs@.contains((x as int) as usize));
                let m = choose|m: int| 0 <= m < crs@.len() && crs@[m] == x;
                assert(crlf_at(data@, crs@[m] as int));
            }
        }
        positions::lemma_ascending_unique(found@, crlfs(data@));
    }
    found
}

/// The data begins with a local file header's signature.
pub open spec fn has_zip_signature(data: Seq<u8>) -> bool {
    data.len() >= 4 && bytes::u32_at(data, 0) == LOCAL_HEADER
}

/// Whether the data begins with a local file header's signature.
pub fn is_valid_zip_signature(data: &[u8]) -> (r: bool)
    ensures
        r == has_zip_signature(data@),
{
    data.len() >= 4 && bytes::read_u32(data, 0) == LOCAL_HEADER
}

/// What a local header says of an entry, and what its contents turned out to be.
pub struct ParsedEntry {
    pub name: String,
    pub crc32_expected: u32,
    pub crc32_actual: Option<u32>,
    pub compressed_size: u64,
    pub uncompressed_size: u64,
}

/// An entry's name as text and its numbers.
#[verifier::ext_equal]
pub struct EntryModel {
    pub name: Seq<char>,
    pub crc32_expected: u32,
    pub crc32_actual: Option<u32>,
    pub compressed_size: u64,
    pub uncompressed_size: u64,
}

impl EntryModel {
    /// The contents could be unpacked and have the checksum that the header gives.
    pub open spec fn crc_ok(self) -> bool {
        self.crc32_actual == Some(self.crc32_expected)
    }
}

impl View for ParsedEntry {
    type V = EntryModel;

    open spec fn view(&self) -> EntryModel {
        EntryModel {
            name: self.name@,
            crc32_expected: self.crc32_expected,
            crc32_actual: self.crc32_actual,
            compressed_size: self.compressed_size,
            uncompressed_size: self.uncompressed_size,
        }
    }
}

impl ParsedEntry {
    /// Whether the contents could be unpacked and have the checksum that the header
    /// gives.
    pub fn crc_ok(&self) -> (r: bool)
        ensures
            r == self@.crc_ok(),
    {
        match self.crc32_actual {
            Some(actual) => actual == self.crc32_expected,
            None => false,
        }
    }
}

/// The entries of an archive, in the order in which they stand in it.
pub struct ParsedZip {
    pub entries: Vec<ParsedEntry>,
}

impl View for ParsedZip {
    type V = Seq<EntryModel>;

    open spec fn view(&self) -> Seq<EntryModel> {
        self.entries@.map_values(|e: ParsedEntry| e@)
    }
}

/// Why the local headers cannot be followed.
pub enum ParseError {
    HeaderTruncated { offset: usize },
    HeaderBeyondData { offset: usize },
    DataBeyondFile { name: String, need: u64, offset: usize, have: usize },
}

/// A parse error with its name as text.
#[verifier::ext_equal]
pub enum ParseFault {
    HeaderTruncated { offset: usize },
    HeaderBeyondData { offset: usize },
    DataBeyondFile { name: Seq<char>, need: u64, offset: usize, have: usize },
}

impl View for ParseError {
    type V = ParseFault;

    open spec fn view(&self) -> ParseFault {
        match *self {
            ParseError::HeaderTruncated { offset } => ParseFault::HeaderTruncated { offset },
            ParseError::HeaderBeyondData { offset } => ParseFault::HeaderBeyondData { offset },
            ParseError::DataBeyondFile { name, need, offset, have } => ParseFault::DataBeyondFile {
                name: name@,
                need,
                offset,
                have,
            },
        }
    }
}

impl ParseFault {
    /// The error in words.
    pub open spec fn message(self) -> Seq<char> {
        match self {
            ParseFault::HeaderTruncated { offset } => text::framed(
                "Local header truncated at offset "@,
                offset as nat,
                ""@,
            ),
            ParseFault::HeaderBeyondData { offset } => text::framed(
                "Header extends beyond data at offset "@,
                offset as nat,
                ""@,
            ),
            ParseFault::DataBeyondFile { name, need, offset, have } => {
                "Compressed data extends beyond file for '"@ + name + text::framed(
                    "' (need "@,
                    need as nat,
                    " bytes from offset "@,
                ) + text::framed(""@, offset as nat, ", have "@) + text::framed(
                    ""@,
                    have as nat,
                    ")"@,
                )
            },
        }
    }
}

impl ParseError {
    /// The error in words.
    pub fn message(&self) -> (s: String)
        ensures
            s@ == self@.message(),
    {
        match self {
            ParseError::HeaderTruncated { offset } => text::frame(
                "Local header truncated at offset ",
                *offset as u64,
                "",
            ),
            ParseError::HeaderBeyondData { offset } => text::frame(
                "Header extends beyond data at offset ",
                *offset as u64,
                "",
            ),
            ParseError::DataBeyondFile { name, need, offset, have } => {
                let mut s: String = String::from_str("Compressed data extends beyond file for '");
                s.append(name.as_str());
                let part: String = text::frame("' (need ", *need, " bytes from offset ");
                s.append(part.as_str());
                let part: String = text::frame("", *offset as u64, ", have ");
                s.append(part.as_str());
                let part: String = text::frame("", *have as u64, ")");
                s.append(part.as_str());
                s
            },
        }
    }
}

/// The 64-bit sizes, uncompressed and compressed, that the extra field's first
/// complete ZIP64 record from position `at` on holds, as far as they are asked for.
pub open spec fn zip64_sizes(
    extra: Seq<u8>,
    at: int,
    need_uncomp: bool,
    need_comp: bool,
) -> (Option<u64>, Option<u64>)
    decreases extra.len() - at,
{
    if at < 0 || at + 4 > extra.len() {
        (None, None)
    } else {
        let size = bytes::u16_at(extra, at + 2);
        let start = at + 4;
        if start + size > extra.len() {
            (None, None)
        } else if bytes::u16_at(extra, at) == 1 {
            let uncomp = if need_uncomp && size >= 8 {
                Some(bytes::u64_at(extra, start) as u64)
            } else {
                None
            };
            let next = if uncomp is Some {
                start + 8
            } else {
                start
            };
            let comp = if need_comp && next + 8 <= start + size {
                Some(bytes::u64_at(extra, next) as u64)
            } else {
                None
            };
            (uncomp, comp)
        } else {
            zip64_sizes(extra, start + size, need_uncomp, need_comp)
        }
    }
}

/// The 64-bit sizes, uncompressed and compressed, that the extra field's first
/// complete ZIP64 record holds, as far as they are asked for.
pub fn parse_zip64_sizes(extra: &[u8], need_uncomp: bool, need_comp: bool) -> (r: (
    Option<u64>,
    Option<u64>,
))
    ensures
        r == zip64_sizes(extra@, 0, need_uncomp, need_comp),
{
    let mut pos: usize = 0;
    while extra.len() >= 4 && pos <= extra.len() - 4
        invariant
            zip64_sizes(extra@, 0, need_uncomp, need_comp) == zip64_sizes(
                extra@,
                pos as int,
                need_uncomp,
                need_comp,
            ),
        decreases extra@.len() - pos,
    {
        let id: u16 = bytes::read_u16(extra, pos);
        let size: usize = bytes::read_u16(extra, pos + 2) as usize;
        let start: usize = pos + 4;
        if size > extra.len() - start {
            return (None, None);
        }
        if id == 1 {
            let end: usize = start + size;
            let mut next: usize = start;
            let mut uncomp: Option<u64> = None;
            let mut comp: Option<u64> = None;
            if need_uncomp && size >= 8 {
                uncomp = Some(bytes::read_u64(extra, next));
                next = next + 8;
            }
            if need_comp && end - next >= 8 {
                comp = Some(bytes::read_u64(extra, next));
            }
            return (uncomp, comp);
        }
        pos = start + size;
    }
    (None, None)
}

/// An entry, and where in the archive its packed contents stand.
pub struct Record {
    pub entry: ParsedEntry,
    pub start: usize,
    pub end: usize,
}

/// An entry's model, and where in the archive its packed contents stand.
#[verifier::ext_equal]
pub struct RecordModel {
    pub entry: EntryModel,
    pub start: int,
    pub end: int,
}

impl View for Record {
    type V = RecordModel;

    open spec fn view(&self) -> RecordModel {
        RecordModel { entry: self.entry@, start: self.start as int, end: self.end as int }
    }
}

/// The models of `records`.
pub open spec fn record_models(records: Seq<Record>) -> Seq<RecordModel> {
    records.map_values(|r: Record| r@)
}

/// A local header's signature stands at `pos`.
pub open spec fn header_at(data: Seq<u8>, pos: int) -> bool {
    0 <= pos && pos + 4 <= data.len() && bytes::u32_at(data, pos) == LOCAL_HEADER
}

/// The checksum of an entry's contents: those of a deflate stream for method 8, the
/// bytes themselves for method 0, and none for any other method.
pub open spec fn contents_crc(method: int, packed: Seq<u8>) -> Option<u32> {
    if method == 8 {
        match unpack::inflated(packed) {
            Some(out) => Some(checksum::crc32_of(out)),
            None => None,
        }
    } else if method == 0 {
        Some(checksum::crc32_of(packed))
    } else {
        None
    }
}

/// The sizes, compressed and uncompressed, of the header at `pos`. A size field of
/// `0xFFFF_FFFF` stands for the size in the ZIP64 record of the extra field, if
/// there is one.
pub open spec fn sizes_at(data: Seq<u8>, pos: int) -> (u64, u64) {
    let comp = bytes::u32_at(data, pos + 18) as u64;
    let uncomp = bytes::u32_at(data, pos + 22) as u64;
    let extra_at = pos + 30 + bytes::u16_at(data, pos + 26);
    let extra = data.subrange(extra_at, extra_at + bytes::u16_at(data, pos + 28));
    let wide = zip64_sizes(extra, 0, uncomp == 0xFFFF_FFFF, comp == 0xFFFF_FFFF);
    (
        match wide.1 {
            Some(x) => x,
            None => comp,
        },
        match wide.0 {
            Some(x) => x,
            None => uncomp,
        },
    )
}

/// The entry whose local header stands at `pos`.
pub open spec fn record_at(data: Seq<u8>, pos: int) -> Result<RecordModel, ParseFault> {
    let name_at = pos + 30;
    let extra_at = name_at + bytes::u16_at(data, pos + 26);
    let start = extra_at + bytes::u16_at(data, pos + 28);
    let name = text::lossy_text(data.subrange(name_at, extra_at));
    let sizes = sizes_at(data, pos);
    if pos + 30 > data.len() {
        Err(ParseFault::HeaderTruncated { offset: pos as usize })
    } else if start > data.len() {
        Err(ParseFault::HeaderBeyondData { offset: pos as usize })
    } else if start + sizes.0 > data.len() {
        Err(
            ParseFault::DataBeyondFile {
                name,
                need: sizes.0,
                offset: start as usize,
                have: data.len() as usize,
            },
        )
    } else {
        Ok(
            RecordModel {
                entry: EntryModel {
                    name,
                    crc32_expected: bytes::u32_at(data, pos + 14) as u32,
                    crc32_actual: contents_crc(
                        bytes::u16_at(data, pos + 8),
                        data.subrange(start, start + sizes.0),
                    ),
                    compressed_size: sizes.0,
                    uncompressed_size: sizes.1,
                },
                start,
                end: start + sizes.0,
            },
        )
    }
}

/// The entries from `pos` on, each where the one before it ends, up to the first
/// place without a local header.
pub open spec fn records_from(data: Seq<u8>, pos: int) -> Result<Seq<RecordModel>, ParseFault>
    decreases data.len() - pos,
{
    if !header_at(data, pos) {
        Ok(Seq::empty())
    } else {
        match record_at(data, pos) {
            Err(fault) => Err(fault),
            Ok(record) => if pos < record.end <= data.len() {
                match records_from(data, record.end) {
                    Err(fault) => Err(fault),
                    Ok(rest) => Ok(seq![record] + rest),
                }
            } else {
                Ok(seq![record])
            },
        }
    }
}

/// The entries of an archive.
pub open spec fn entries_of(data: Seq<u8>) -> Result<Seq<EntryModel>, ParseFault> {
    match records_from(data, 0) {
        Err(fault) => Err(fault),
        Ok(records) => Ok(records.map_values(|r: RecordModel| r.entry)),
    }
}

/// The checksum of an entry's contents, as its method says.
fn actual_crc(method: u16, packed: &[u8]) -> (crc: Option<u32>)
    ensures
        crc == contents_crc(method as int, packed@),
{
    if method == 8 {
        match unpack::try_decompress(packed) {
            Some(out) => Some(crc32(out.as_slice())),
            None => None,
        }
    } else if method == 0 {
        Some(crc32(packed))
    } else {
        None
    }
}

/// The entry whose local header stands at `pos`.
fn parse_record(data: &[u8], pos: usize) -> (r: Result<Record, ParseError>)
    requires
        header_at(data@, pos as int),
    ensures
        match r {
            Ok(record) => {
                &&& record_at(data@, pos as int) == Ok::<RecordModel, ParseFault>(record@)
                &&& pos < record@.start <= record@.end <= data@.len()
            },
            Err(e) => record_at(data@, pos as int) == Err::<RecordModel, ParseFault>(e@),
        },
{
    if data.len() - pos < 30 {
        return Err(ParseError::HeaderTruncated { offset: pos });
    }
    let method: u16 = bytes::read_u16(data, pos + 8);
    let crc: u32 = bytes::read_u32(data, pos + 14);
    let comp_raw: u32 = bytes::read_u32(data, pos + 18);
    let uncomp_raw: u32 = bytes::read_u32(data, pos + 22);
    let name_len: usize = bytes::read_u16(data, pos + 26) as usize;
    let extra_len: usize = bytes::read_u16(data, pos + 28) as usize;
    if name_len + extra_len > data.len() - pos - 30 {
        return Err(ParseError::HeaderBeyondData { offset: pos });
    }
    let name_at: usize = pos + 30;
    let extra_at: usize = name_at + name_len;
    let start: usize = extra_at + extra_len;
    let name: String = text::decode_lossy(&data[name_at..extra_at]);
    let wide: (Option<u64>, Option<u64>) = parse_zip64_sizes(
        &data[extra_at..start],
        uncomp_raw == 0xFFFF_FFFF,
        comp_raw == 0xFFFF_FFFF,
    );
    let comp: u64 = match wide.1 {
        Some(x) => x,
        None => comp_raw as u64,
    };
    let uncomp: u64 = match wide.0 {
        Some(x) => x,
        None => uncomp_raw as u64,
    };
    if comp > (data.len() - start) as u64 {
        return Err(
            ParseError::DataBeyondFile { name, need: comp, offset: start, have: data.len() },
        );
    }
    let end: usize = start + comp as usize;
    let entry: ParsedEntry = ParsedEntry {
        name,
        crc32_expected: crc,
        crc32_actual: actual_crc(method, &data[start..end]),
        compressed_size: comp,
        uncompressed_size: uncomp,
    };
    Ok(Record { entry, start, end })
}

/// The entries of an archive, with the places of their packed contents.
pub fn parse_records(data: &[u8]) -> (r: Result<Vec<Record>, ParseError>)
    ensures
        match r {
            Ok(records) => records_from(data@, 0) == Ok::<Seq<RecordModel>, ParseFault>(
                record_models(records@),
            ),
            Err(e) => records_from(data@, 0) == Err::<Seq<RecordModel>, ParseFault>(e@),
        },
{
    let mut pos: usize = 0;
    let mut records: Vec<Record> = Vec::new();
    assert(Seq::<RecordModel>::empty() =~= record_models(records@));
    while data.len() - pos >= 4 && bytes::read_u32(data, pos) == LOCAL_HEADER
        invariant
            pos <= data@.len(),
            match records_from(data@, pos as int) {
                Ok(rest) => records_from(data@, 0) == Ok::<Seq<RecordModel>, ParseFault>(
                    record_models(records@) + rest,
                ),
                Err(fault) => records_from(data@, 0) == Err::<Seq<RecordModel>, ParseFault>(fault),
            },
        decreases data@.len() - pos,
    {
        let ghost before = record_models(records@);
        match parse_record(data, pos) {
            Err(e) => {
                return Err(e);
            },
            Ok(record) => {
                let next: usize = record.end;
                proof {
                    if let Ok(rest) = records_from(data@, next as int) {
                        assert(before + (seq![record@] + rest) =~= before.push(record@) + rest);
                    }
                }
                records.push(record);
                assert(record_models(records@) =~= before.push(record@));
                pos = next;
            },
        }
    }
    assert(record_models(records@) + Seq::<RecordModel>::empty() =~= record_models(records@));
    Ok(records)
}

/// Follows the local headers from the start of `data`, unpacks each entry and takes
/// the checksum of its contents.
pub fn parse_and_validate(data: &[u8]) -> (r: Result<ParsedZip, ParseError>)
    ensures
        match r {
            Ok(parsed) => entries_of(data@) == Ok::<Seq<EntryModel>, ParseFault>(parsed@),
            Err(e) => entries_of(data@) == Err::<Seq<EntryModel>, ParseFault>(e@),
        },
{
    match parse_records(data) {
        Err(e) => Err(e),
        Ok(records) => {
            let ghost models = record_models(records@);
            let mut entries: Vec<ParsedEntry> = Vec::new();
            for record in it: records
                invariant
                    models == record_models(it.seq()),
                    entries@.len() == it.index(),
                    forall|k: int| 0 <= k < entries@.len() ==> #[trigger] entries@[k]@ == models[k].entry,
            {
                entries.push(record.entry);
            }
            let parsed = ParsedZip { entries };
            assert(parsed@ =~= models.map_values(|r: RecordModel| r.entry));
            Ok(parsed)
        },
    }
}

/// Every entry's contents have the checksum that its header gives.
pub open spec fn all_ok(entries: Seq<EntryModel>) -> bool {
    forall|i: int| 0 <= i < entries.len() ==> (#[trigger] entries[i]).crc_ok()
}

/// The local headers can be followed, and every entry's contents have the checksum
/// that its header gives.
pub open spec fn intact(data: Seq<u8>) -> bool {
    match entries_of(data) {
        Ok(entries) => all_ok(entries),
        Err(_) => false,
    }
}

/// `data` is an archive: it begins with a local header and is intact.
pub open spec fn valid_zip(data: Seq<u8>) -> bool {
    has_zip_signature(data) && intact(data)
}

/// A file to be put into an archive.
#[verifier::ext_equal]
pub struct FileModel {
    pub name: Seq<char>,
    pub data: Seq<u8>,
}

impl FileModel {
    /// The name in UTF-8.
    pub open spec fn name_bytes(self) -> Seq<u8> {
        vstd::utf8::encode_utf8(self.name)
    }

    /// The packed contents.
    pub open spec fn packed(self) -> Seq<u8> {
        unpack::deflated(self.data)
    }
}

/// The files' models.
pub open spec fn file_models(files: Seq<(&str, &[u8])>) -> Seq<FileModel> {
    files.map_values(|f: (&str, &[u8])| FileModel { name: f.0@, data: f.1@ })
}

/// The low 16 bits of a length.
pub open spec fn low16(n: nat) -> u16 {
    (n % 0x1_0000) as u16
}

/// The low 32 bits of a length.
pub open spec fn low32(n: nat) -> u32 {
    (n % 0x1_0000_0000) as u32
}

/// A local header with its name and packed contents.
#[verifier::opaque]
pub open spec fn local_record(name: Seq<u8>, packed: Seq<u8>, crc: u32, size: u32) -> Seq<u8> {
    bytes::le32(LOCAL_HEADER as int) + bytes::le16(20) + bytes::le16(0) + bytes::le16(8)
        + bytes::le16(0) + bytes::le16(0) + bytes::le32(crc as int) + bytes::le32(
        low32(packed.len()) as int,
    ) + bytes::le32(size as int) + bytes::le16(low16(name.len()) as int) + bytes::le16(0) + name
        + packed
}

/// A central directory entry with its name.
#[verifier::opaque]
pub open spec fn central_record(
    name: Seq<u8>,
    offset: u32,
    packed_len: u32,
    size: u32,
    crc: u32,
) -> Seq<u8> {
    bytes::le32(CENTRAL_ENTRY as int) + bytes::le16(20) + bytes::le16(20) + bytes::le16(0)
        + bytes::le16(8) + bytes::le16(0) + bytes::le16(0) + bytes::le32(crc as int)
        + bytes::le32(packed_len as int) + bytes::le32(size as int) + bytes::le16(
        low16(name.len()) as int,
    ) + bytes::le16(0) + bytes::le16(0) + bytes::le16(0) + bytes::le16(0) + bytes::le32(0)
        + bytes::le32(offset as int) + name
}

/// The end of the central directory.
#[verifier::opaque]
pub open spec fn end_record(count: u16, offset: u32, size: u32) -> Seq<u8> {
    bytes::le32(END_OF_CENTRAL as int) + bytes::le16(0) + bytes::le16(0) + bytes::le16(
        count as int,
    ) + bytes::le16(count as int) + bytes::le32(size as int) + bytes::le32(offset as int)
        + bytes::le16(0)
}

/// The local record of a file.
pub open spec fn file_record(f: FileModel) -> Seq<u8> {
    local_record(f.name_bytes(), f.packed(), checksum::crc32_of(f.data), low32(f.data.len()))
}

/// The local records of the first `n` files.
pub open spec fn local_records(files: Seq<FileModel>, n: nat) -> Seq<u8>
    decreases n,
{
    if n == 0 {
        Seq::empty()
    } else {
        local_records(files, (n - 1) as nat) + file_record(files[n - 1])
    }
}

/// The central directory entries of the first `n` files.
pub open spec fn central_records(files: Seq<FileModel>, n: nat) -> Seq<u8>
    decreases n,
{
    if n == 0 {
        Seq::empty()
    } else {
        let f = files[n - 1];
        central_records(files, (n - 1) as nat) + central_record(
            f.name_bytes(),
            low32(local_records(files, (n - 1) as nat).len()),
            low32(f.packed().len()),
            low32(f.data.len()),
            checksum::crc32_of(f.data),
        )
    }
}

/// The archive of `files`: a local record for each, the central directory, its end.
/// Lengths and offsets that do not fit their field are cut to its width.
pub open spec fn archive(files: Seq<FileModel>) -> Seq<u8> {
    local_records(files, files.len()) + central_records(files, files.len()) + end_record(
        low16(files.len()),
        low32(local_records(files, files.len()).len()),
        low32(central_records(files, files.len()).len()),
    )
}

fn len16(n: usize) -> (x: u16)
    ensures
        x == low16(n as nat),
{
    (n % 0x1_0000) as u16
}

fn len32(n: usize) -> (x: u32)
    ensures
        x == low32(n as nat),
{
    (n as u64 % 0x1_0000_0000) as u32
}

/// Appends a local header with its name and packed contents.
pub fn write_local_header(
    buf: &mut Vec<u8>,
    filename: &[u8],
    compressed_data: &[u8],
    crc32: u32,
    uncompressed_size: u32,
)
    ensures
        final(buf)@ == old(buf)@ + local_record(
            filename@,
            compressed_data@,
            crc32,
            uncompressed_size,
        ),
{
    let ghost before = buf@;
    bytes::push_u32(buf, LOCAL_HEADER);
    bytes::push_u16(buf, 20);
    bytes::push_u16(buf, 0);
    bytes::push_u16(buf, 8);
    bytes::push_u16(buf, 0);
    bytes::push_u16(buf, 0);
    bytes::push_u32(buf, crc32);
    bytes::push_u32(buf, len32(compressed_data.len()));
    bytes::push_u32(buf, uncompressed_size);
    bytes::push_u16(buf, len16(filename.len()));
    bytes::push_u16(buf, 0);
    bytes::push_slice(buf, filename);
    bytes::push_slice(buf, compressed_data);
    reveal(local_record);
    assert(buf@ =~= before + local_record(filename@, compressed_data@, crc32, uncompressed_size));
}

/// Appends a central directory entry with its name.
pub fn write_central_dir_entry(
    buf: &mut Vec<u8>,
    filename: &[u8],
    local_header_offset: u32,
    compressed_size: u32,
    uncompressed_size: u32,
    crc32_val: u32,
)
    ensures
        final(buf)@ == old(buf)@ + central_record(
            filename@,
            local_header_offset,
            compressed_size,
            uncompressed_size,
            crc32_val,
        ),
{
    let ghost before = buf@;
    bytes::push_u32(buf, CENTRAL_ENTRY);
    bytes::push_u16(buf, 20);
    bytes::push_u16(buf, 20);
    bytes::push_u16(buf, 0);
    bytes::push_u16(buf, 8);
    bytes::push_u16(buf, 0);
    bytes::push_u16(buf, 0);
    bytes::push_u32(buf, crc32_val);
    bytes::push_u32(buf, compressed_size);
    bytes::push_u32(buf, uncompressed_size);
    bytes::push_u16(buf, len16(filename.len()));
    bytes::push_u16(buf, 0);
    bytes::push_u16(buf, 0);
    bytes::push_u16(buf, 0);
    bytes::push_u16(buf, 0);
    bytes::push_u32(buf, 0);
    bytes::push_u32(buf, local_header_offset);
    bytes::push_slice(buf, filename);
    reveal(central_record);
    assert(buf@ =~= before + central_record(
        filename@,
        local_header_offset,
        compressed_size,
        uncompressed_size,
        crc32_val,
    ));
}

/// Appends the end of the central directory.
pub fn write_eocd(
    buf: &mut Vec<u8>,
    num_entries: u16,
    central_dir_offset: u32,
    central_dir_size: u32,
)
    ensures
        final(buf)@ == old(buf)@ + end_record(num_entries, central_dir_offset, central_dir_size),
{
    let ghost before = buf@;
    bytes::push_u32(buf, END_OF_CENTRAL);
    bytes::push_u16(buf, 0);
    bytes::push_u16(buf, 0);
    bytes::push_u16(buf, num_entries);
    bytes::push_u16(buf, num_entries);
    bytes::push_u32(buf, central_dir_size);
    bytes::push_u32(buf, central_dir_offset);
    bytes::push_u16(buf, 0);
    reveal(end_record);
    assert(buf@ =~= before + end_record(num_entries, central_dir_offset, central_dir_size));
}

/// A file as the archive reports it: its name, the checksum of its contents given
/// and found, and its sizes.
pub open spec fn reported(f: FileModel) -> EntryModel {
    EntryModel {
        name: f.name,
        crc32_expected: checksum::crc32_of(f.data),
        crc32_actual: Some(checksum::crc32_of(f.data)),
        compressed_size: f.packed().len() as u64,
        uncompressed_size: low32(f.data.len()) as u64,
    }
}

/// The name and the packed contents are no longer than a local header can say.
pub open spec fn fits_header(f: FileModel) -> bool {
    f.name_bytes().len() <= 0xFFFF && f.packed().len() <= 0xFFFF_FFFF
}

/// Unpacking the file's packed contents gives its contents.
pub open spec fn unpacks(f: FileModel) -> bool {
    unpack::inflated(f.packed()) == Some(f.data)
}

/// The record of file `i` in the archive of `files`.
pub open spec fn stored(files: Seq<FileModel>, i: int) -> RecordModel {
    RecordModel {
        entry: reported(files[i]),
        start: local_records(files, i as nat).len() as int + 30 + files[i].name_bytes().len(),
        end: local_records(files, (i + 1) as nat).len() as int,
    }
}

/// The parts of a local record of `name` and `packed` stand where they belong if it
/// begins at `at`.
spec fn parts_at(
    s: Seq<u8>,
    at: int,
    name: Seq<u8>,
    packed: Seq<u8>,
    crc: u32,
    size: u32,
) -> bool {
    &&& bytes::holds_at(s, at, bytes::le32(LOCAL_HEADER as int))
    &&& bytes::holds_at(s, at + 8, bytes::le16(8))
    &&& bytes::holds_at(s, at + 14, bytes::le32(crc as int))
    &&& bytes::holds_at(s, at + 18, bytes::le32(low32(packed.len()) as int))
    &&& bytes::holds_at(s, at + 22, bytes::le32(size as int))
    &&& bytes::holds_at(s, at + 26, bytes::le16(low16(name.len()) as int))
    &&& bytes::holds_at(s, at + 28, bytes::le16(0))
    &&& bytes::holds_at(s, at + 30, name)
    &&& bytes::holds_at(s, at + 30 + name.len(), packed)
}

proof fn lemma_local_record_parts(name: Seq<u8>, packed: Seq<u8>, crc: u32, size: u32)
    ensures
        local_record(name, packed, crc, size).len() == 30 + name.len() + packed.len(),
        parts_at(local_record(name, packed, crc, size), 0, name, packed, crc, size),
{
    let n = name.len() as int;
    let m = packed.len() as int;
    let front = bytes::le32(LOCAL_HEADER as int) + bytes::le16(20) + bytes::le16(0) + bytes::le16(8)
        + bytes::le16(0) + bytes::le16(0);
    let sizes = bytes::le32(crc as int) + bytes::le32(low32(packed.len()) as int) + bytes::le32(
        size as int,
    );
    let lens = bytes::le16(low16(name.len()) as int) + bytes::le16(0);
    let rec = local_record(name, packed, crc, size);
    reveal(local_record);
    assert(rec =~= front + sizes + lens + name + packed);
    assert(front.subrange(0, 4) =~= bytes::le32(LOCAL_HEADER as int));
    assert(front.subrange(8, 10) =~= bytes::le16(8));
    assert(rec.subrange(0, 4) =~= front.subrange(0, 4));
    assert(rec.subrange(8, 10) =~= front.subrange(8, 10));
    assert(sizes.subrange(0, 4) =~= bytes::le32(crc as int));
    assert(sizes.subrange(4, 8) =~= bytes::le32(low32(packed.len()) as int));
    assert(sizes.subrange(8, 12) =~= bytes::le32(size as int));
    assert(rec.subrange(14, 18) =~= sizes.subrange(0, 4));
    assert(rec.subrange(18, 22) =~= sizes.subrange(4, 8));
    assert(rec.subrange(22, 26) =~= sizes.subrange(8, 12));
    assert(lens.subrange(0, 2) =~= bytes::le16(low16(name.len()) as int));
    assert(lens.subrange(2, 4) =~= bytes::le16(0));
    assert(rec.subrange(26, 28) =~= lens.subrange(0, 2));
    assert(rec.subrange(28, 30) =~= lens.subrange(2, 4));
    assert(rec.subrange(30, 30 + n) =~= name);
    assert(rec.subrange(30 + n, 30 + n + m) =~= packed);
}

/// A part of a part is a part.
pub proof fn lemma_held_part(data: Seq<u8>, pos: int, rec: Seq<u8>, at: int, part: Seq<u8>)
    requires
        bytes::holds_at(data, pos, rec),
        bytes::holds_at(rec, at, part),
    ensures
        bytes::holds_at(data, pos + at, part),
{
    assert(data.subrange(pos, pos + rec.len()).subrange(at, at + part.len()) =~= data.subrange(
        pos + at,
        pos + at + part.len(),
    ));
}

proof fn lemma_parts_held(
    data: Seq<u8>,
    pos: int,
    rec: Seq<u8>,
    name: Seq<u8>,
    packed: Seq<u8>,
    crc: u32,
    size: u32,
)
    requires
        bytes::holds_at(data, pos, rec),
        parts_at(rec, 0, name, packed, crc, size),
    ensures
        parts_at(data, pos, name, packed, crc, size),
{
    lemma_held_part(data, pos, rec, 0, bytes::le32(LOCAL_HEADER as int));
    lemma_held_part(data, pos, rec, 8, bytes::le16(8));
    lemma_held_part(data, pos, rec, 14, bytes::le32(crc as int));
    lemma_held_part(data, pos, rec, 18, bytes::le32(low32(packed.len()) as int));
    lemma_held_part(data, pos, rec, 22, bytes::le32(size as int));
    lemma_held_part(data, pos, rec, 26, bytes::le16(low16(name.len()) as int));
    lemma_held_part(data, pos, rec, 28, bytes::le16(0));
    lemma_held_part(data, pos, rec, 30, name);
    lemma_held_part(data, pos, rec, 30 + name.len() as int, packed);
}

/// The numbers in the header at `pos` are those of a deflated entry without an extra
/// field.
spec fn numbers_at(data: Seq<u8>, pos: int, n: int, m: int, crc: u32, size: u32) -> bool {
    &&& bytes::u32_at(data, pos) == LOCAL_HEADER
    &&& bytes::u16_at(data, pos + 8) == 8
    &&& bytes::u32_at(data, pos + 14) == crc
    &&& bytes::u32_at(data, pos + 18) == m
    &&& bytes::u32_at(data, pos + 22) == size
    &&& bytes::u16_at(data, pos + 26) == n
    &&& bytes::u16_at(data, pos + 28) == 0
}

proof fn lemma_numbers(
    data: Seq<u8>,
    pos: int,
    name: Seq<u8>,
    packed: Seq<u8>,
    crc: u32,
    size: u32,
)
    requires
        parts_at(data, pos, name, packed, crc, size),
        name.len() <= 0xFFFF,
        packed.len() <= 0xFFFF_FFFF,
    ensures
        numbers_at(data, pos, name.len() as int, packed.len() as int, crc, size),
{
    let n = name.len() as int;
    let m = packed.len() as int;
    assert(low32(packed.len()) == m);
    assert(low16(name.len()) == n);
    assert(bytes::u32_at(data, pos) == LOCAL_HEADER) by {
        bytes::lemma_u32_back(data, pos, LOCAL_HEADER as int);
    }
    assert(bytes::u16_at(data, pos + 8) == 8) by {
        bytes::lemma_u16_back(data, pos + 8, 8);
    }
    assert(bytes::u32_at(data, pos + 14) == crc) by {
        bytes::lemma_u32_back(data, pos + 14, crc as int);
    }
    assert(bytes::u32_at(data, pos + 18) == m) by {
        bytes::lemma_u32_back(data, pos + 18, m);
    }
    assert(bytes::u32_at(data, pos + 22) == size) by {
        bytes::lemma_u32_back(data, pos + 22, size as int);
    }
    assert(bytes::u16_at(data, pos + 26) == n) by {
        bytes::lemma_u16_back(data, pos + 26, n);
    }
    assert(bytes::u16_at(data, pos + 28) == 0) by {
        bytes::lemma_u16_back(data, pos + 28, 0);
    }
}

proof fn lemma_sizes(data: Seq<u8>, pos: int, n: int, m: int, crc: u32, size: u32)
    requires
        numbers_at(data, pos, n, m, crc, size),
        0 <= pos,
        0 <= n,
        pos + 30 + n <= data.len(),
        0 <= m <= 0xFFFF_FFFF,
    ensures
        sizes_at(data, pos) == (m as u64, size as u64),
{
    let extra = data.subrange(pos + 30 + n, pos + 30 + n + 0);
    assert(extra.len() == 0);
    assert(zip64_sizes(extra, 0, size == 0xFFFF_FFFF, m == 0xFFFF_FFFF) == (
        None::<u64>,
        None::<u64>,
    ));
}

proof fn lemma_record_of_parts(data: Seq<u8>, pos: int, f: FileModel, crc: u32, size: u32)
    requires
        parts_at(data, pos, f.name_bytes(), f.packed(), crc, size),
        fits_header(f),
        unpacks(f),
    ensures
        header_at(data, pos),
        record_at(data, pos) == Ok::<RecordModel, ParseFault>(
            RecordModel {
                entry: EntryModel {
                    name: f.name,
                    crc32_expected: crc,
                    crc32_actual: Some(checksum::crc32_of(f.data)),
                    compressed_size: f.packed().len() as u64,
                    uncompressed_size: size as u64,
                },
                start: pos + 30 + f.name_bytes().len(),
                end: pos + 30 + f.name_bytes().len() + f.packed().len(),
            },
        ),
{
    let n = f.name_bytes().len() as int;
    let m = f.packed().len() as int;
    lemma_numbers(data, pos, f.name_bytes(), f.packed(), crc, size);
    lemma_sizes(data, pos, n, m, crc, size);
    text::lemma_text_back(f.name);
    assert(data.subrange(pos + 30, pos + 30 + n) == f.name_bytes());
    assert(data.subrange(pos + 30 + n, pos + 30 + n + m) == f.packed());
    assert(contents_crc(8, f.packed()) == Some(checksum::crc32_of(f.data)));
}

/// Where a file's local record stands, it is read.
pub proof fn lemma_file_record(data: Seq<u8>, pos: int, rec: Seq<u8>, f: FileModel)
    requires
        rec == file_record(f),
        bytes::holds_at(data, pos, rec),
        fits_header(f),
        unpacks(f),
    ensures
        header_at(data, pos),
        record_at(data, pos) == Ok::<RecordModel, ParseFault>(
            RecordModel {
                entry: reported(f),
                start: pos + 30 + f.name_bytes().len(),
                end: pos + rec.len(),
            },
        ),
        rec.len() >= 30,
{
    let crc = checksum::crc32_of(f.data);
    let size = low32(f.data.len());
    lemma_local_record_parts(f.name_bytes(), f.packed(), crc, size);
    lemma_parts_held(data, pos, rec, f.name_bytes(), f.packed(), crc, size);
    lemma_record_of_parts(data, pos, f, crc, size);
}

/// Each file's local record stands among the local records.
pub proof fn lemma_local_records_held(files: Seq<FileModel>, i: nat, n: nat)
    requires
        i < n <= files.len(),
    ensures
        bytes::holds_at(
            local_records(files, n),
            local_records(files, i).len() as int,
            file_record(files[i as int]),
        ),
    decreases n,
{
    let all = local_records(files, n);
    let shorter = local_records(files, (n - 1) as nat);
    let at = local_records(files, i).len() as int;
    let part = file_record(files[i as int]);
    if i + 1 < n {
        lemma_local_records_held(files, i, (n - 1) as nat);
        assert(all.subrange(at, at + part.len()) =~= shorter.subrange(at, at + part.len()));
    } else {
        assert(all.subrange(at, at + part.len()) =~= part);
    }
}

proof fn lemma_central_start(files: Seq<FileModel>, n: nat)
    requires
        n > 0,
    ensures
        bytes::holds_at(central_records(files, n), 0, bytes::le32(CENTRAL_ENTRY as int)),
    decreases n,
{
    let all = central_records(files, n);
    let shorter = central_records(files, (n - 1) as nat);
    if n > 1 {
        lemma_central_start(files, (n - 1) as nat);
        assert(all.subrange(0, 4) =~= shorter.subrange(0, 4));
    } else {
        reveal(central_record);
        assert(all.subrange(0, 4) =~= bytes::le32(CENTRAL_ENTRY as int));
    }
}

proof fn lemma_end_start(count: u16, offset: u32, size: u32)
    ensures
        bytes::holds_at(end_record(count, offset, size), 0, bytes::le32(END_OF_CENTRAL as int)),
{
    reveal(end_record);
    let rec = end_record(count, offset, size);
    assert(rec.subrange(0, 4) =~= bytes::le32(END_OF_CENTRAL as int));
}

proof fn lemma_no_header_after_files(files: Seq<FileModel>)
    ensures
        !header_at(archive(files), local_records(files, files.len()).len() as int),
{
    let all = archive(files);
    let locals = local_records(files, files.len());
    let central = central_records(files, files.len());
    let end = end_record(low16(files.len()), low32(locals.len()), low32(central.len()));
    let at = locals.len() as int;
    if files.len() > 0 {
        lemma_central_start(files, files.len());
        assert(all.subrange(at, at + central.len()) =~= central);
        lemma_held_part(all, at, central, 0, bytes::le32(CENTRAL_ENTRY as int));
        bytes::lemma_u32_back(all, at, CENTRAL_ENTRY as int);
    } else {
        lemma_end_start(low16(files.len()), low32(locals.len()), low32(central.len()));
        assert(all.subrange(at, at + end.len()) =~= end);
        lemma_held_part(all, at, end, 0, bytes::le32(END_OF_CENTRAL as int));
        bytes::lemma_u32_back(all, at, END_OF_CENTRAL as int);
    }
}

proof fn lemma_archive_records(files: Seq<FileModel>, i: nat)
    requires
        i <= files.len(),
        forall|k: int| 0 <= k < files.len() ==> fits_header(#[trigger] files[k]),
        forall|k: int| 0 <= k < files.len() ==> unpacks(#[trigger] files[k]),
    ensures
        records_from(archive(files), local_records(files, i).len() as int) == Ok::<
            Seq<RecordModel>,
            ParseFault,
        >(Seq::new((files.len() - i) as nat, |k: int| stored(files, i + k))),
    decreases files.len() - i,
{
    let all = archive(files);
    let at = local_records(files, i).len() as int;
    let want = Seq::new((files.len() - i) as nat, |k: int| stored(files, i + k));
    if i == files.len() {
        lemma_no_header_after_files(files);
        assert(want =~= Seq::empty());
    } else {
        let f = files[i as int];
        let part = file_record(f);
        let locals = local_records(files, files.len());
        lemma_local_records_held(files, i, files.len());
        assert(all.subrange(at, at + part.len()) =~= locals.subrange(at, at + part.len()));
        lemma_file_record(all, at, part, f);
        lemma_archive_records(files, i + 1);
        let rest = Seq::new((files.len() - i - 1) as nat, |k: int| stored(files, i + 1 + k));
        assert(want =~= seq![stored(files, i as int)] + rest);
    }
}

/// Reading an archive gives back what was written: of each file, in order, its name
/// and its sizes, and contents whose checksum is the one that the header gives.
pub proof fn law_archive_read_back(files: Seq<FileModel>)
    requires
        forall|k: int| 0 <= k < files.len() ==> fits_header(#[trigger] files[k]),
        forall|k: int| 0 <= k < files.len() ==> unpacks(#[trigger] files[k]),
    ensures
        entries_of(archive(files)) == Ok::<Seq<EntryModel>, ParseFault>(
            files.map_values(|f: FileModel| reported(f)),
        ),
        files.len() > 0 ==> valid_zip(archive(files)),
{
    lemma_archive_records(files, 0);
    let records = Seq::new(files.len(), |k: int| stored(files, 0 + k));
    assert(records.map_values(|r: RecordModel| r.entry) =~= files.map_values(
        |f: FileModel| reported(f),
    ));
    if files.len() > 0 {
        lemma_local_records_held(files, 0, files.len());
        let part = file_record(files[0]);
        assert(archive(files).subrange(0, part.len() as int) =~= local_records(
            files,
            files.len(),
        ).subrange(0, part.len() as int));
        lemma_file_record(archive(files), 0, part, files[0]);
    }
}

/// An archive of `files`, each a name with its contents, packed by deflate.
pub fn create_zip(files: &[(&str, &[u8])]) -> (buf: Vec<u8>)
    ensures
        buf@ == archive(file_models(files@)),
        forall|k: int|
            0 <= k < files@.len() ==> unpacks(#[trigger] file_models(files@)[k]),
        (forall|k: int| 0 <= k < files@.len() ==> fits_header(#[trigger] file_models(files@)[k]))
            ==> {
            &&& entries_of(buf@) == Ok::<Seq<EntryModel>, ParseFault>(
                file_models(files@).map_values(|f: FileModel| reported(f)),
            )
            &&& files@.len() > 0 ==> valid_zip(buf@)
        },
{
    let ghost models = file_models(files@);
    let mut buf: Vec<u8> = Vec::new();
    let mut central: Vec<u8> = Vec::new();
    for i in 0..files.len()
        invariant
            models == file_models(files@),
            buf@ == local_records(models, i as nat),
            central@ == central_records(models, i as nat),
            forall|k: int| 0 <= k < i ==> unpacks(#[trigger] models[k]),
    {
        let (name, data): (&str, &[u8]) = files[i];
        assert(models[i as int] == FileModel { name: name@, data: data@ });
        let crc: u32 = crc32(data);
        let packed: Vec<u8> = unpack::deflate_compress(data);
        let offset: u32 = len32(buf.len());
        let size: u32 = len32(data.len());
        write_local_header(&mut buf, name.as_bytes(), packed.as_slice(), crc, size);
        write_central_dir_entry(
            &mut central,
            name.as_bytes(),
            offset,
            len32(packed.len()),
            size,
            crc,
        );
    }
    let offset: u32 = len32(buf.len());
    let size: u32 = len32(central.len());
    bytes::push_slice(&mut buf, central.as_slice());
    write_eocd(&mut buf, len16(files.len()), offset, size);
    proof {
        if forall|k: int| 0 <= k < files@.len() ==> fits_header(#[trigger] models[k]) {
            law_archive_read_back(models);
        }
    }
    buf
}

} // verus!
