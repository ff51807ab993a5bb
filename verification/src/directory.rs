//! What an archive is, byte by byte: its entries and its directory.
use vstd::prelude::*;

use crate::bytes;
use crate::checksum;
use crate::text;
use crate::unpack;
use crate::zip_util;
use crate::zip_util::{FileModel, ParseFault, RecordModel};

verus! {

/// The bytes `50 4B` and the two given stand at `i`.
pub open spec fn mark_at(data: Seq<u8>, i: int, third: u8, fourth: u8) -> bool {
    0 <= i && i + 4 <= data.len() && data[i] == 0x50 && data[i + 1] == 0x4B && data[i + 2] == third
        && data[i + 3] == fourth
}

/// A local header is a place with the bytes `50 4B 03 04`.
pub proof fn law_local_header_mark(data: Seq<u8>, pos: int)
    ensures
        zip_util::header_at(data, pos) <==> mark_at(data, pos, 3, 4),
        zip_util::has_zip_signature(data) <==> mark_at(data, 0, 3, 4),
{
}

/// What the local header at `pos` says is what the entry has: the packed contents begin
/// behind name and extra field and have the stated length, and they are held against the
/// stated checksum: as they are if they are stored, unpacked if they are deflated. An entry
/// packed in any other way is never found in order.
pub proof fn law_entry_is_held_against_its_header(data: Seq<u8>, pos: int)
    requires
        0 <= pos,
        pos + 30 <= data.len(),
        data.len() <= usize::MAX,
    ensures
        ({
            let method = bytes::u16_at(data, pos + 8);
            let crc = bytes::u32_at(data, pos + 14);
            let size = bytes::u32_at(data, pos + 18);
            let name_len = bytes::u16_at(data, pos + 26);
            let extra_len = bytes::u16_at(data, pos + 28);
            let start = pos + 30 + name_len + extra_len;
            match zip_util::record_at(data, pos) {
                Ok(r) => {
                    let packed = data.subrange(start, r.end);
                    &&& r.start == start
                    &&& start <= r.end <= data.len()
                    &&& r.entry.compressed_size == r.end - start
                    &&& size != 0xFFFF_FFFF ==> r.end == start + size
                    &&& bytes::u32_at(data, pos + 22) != 0xFFFF_FFFF ==> r.entry.uncompressed_size
                        == bytes::u32_at(data, pos + 22)
                    &&& r.entry.crc32_expected == crc
                    &&& method == 0 ==> (r.entry.crc_ok() <==> checksum::crc32_of(packed) == crc)
                    &&& method == 8 ==> (r.entry.crc_ok() <==> (unpack::inflated(packed) matches Some(
                        out,
                    ) && checksum::crc32_of(out) == crc))
                    &&& method != 0 && method != 8 ==> !r.entry.crc_ok()
                },
                Err(_) => start > data.len() || size == 0xFFFF_FFFF || start + size > data.len(),
            }
        }),
{
    let extra_at = pos + 30 + bytes::u16_at(data, pos + 26);
    let extra = data.subrange(extra_at, extra_at + bytes::u16_at(data, pos + 28));
    lemma_wide_only_if_needed(
        extra,
        0,
        bytes::u32_at(data, pos + 22) == 0xFFFF_FFFF,
        bytes::u32_at(data, pos + 18) == 0xFFFF_FFFF,
    );
}

proof fn lemma_wide_only_if_needed(extra: Seq<u8>, at: int, need_uncomp: bool, need_comp: bool)
    ensures
        !need_uncomp ==> zip_util::zip64_sizes(extra, at, need_uncomp, need_comp).0 is None,
        !need_comp ==> zip_util::zip64_sizes(extra, at, need_uncomp, need_comp).1 is None,
    decreases extra.len() - at,
{
    if 0 <= at && at + 4 <= extra.len() {
        let next = at + 4 + bytes::u16_at(extra, at + 2);
        if next <= extra.len() {
            lemma_wide_only_if_needed(extra, next, need_uncomp, need_comp);
        }
    }
}

/// A ZIP64 record holds the sizes that did not fit, the uncompressed one first; records of
/// other kinds in front of it are passed over.
pub proof fn law_zip64_sizes_stand_in_order(extra: Seq<u8>, at: int)
    requires
        0 <= at,
        at + 4 <= extra.len(),
        at + 4 + bytes::u16_at(extra, at + 2) <= extra.len(),
    ensures
        ({
            let id = bytes::u16_at(extra, at);
            let size = bytes::u16_at(extra, at + 2);
            let first = bytes::u64_at(extra, at + 4) as u64;
            let second = bytes::u64_at(extra, at + 12) as u64;
            &&& id == 1 && size >= 16 ==> zip_util::zip64_sizes(extra, at, true, true) == (
                Some(first),
                Some(second),
            )
            &&& id == 1 && 8 <= size < 16 ==> zip_util::zip64_sizes(extra, at, true, true) == (
                Some(first),
                None::<u64>,
            )
            &&& id == 1 && size < 8 ==> forall|u: bool, c: bool| #[trigger]
                zip_util::zip64_sizes(extra, at, u, c) == (None::<u64>, None::<u64>)
            &&& id == 1 && size >= 8 ==> zip_util::zip64_sizes(extra, at, true, false) == (
                Some(first),
                None::<u64>,
            )
            &&& id == 1 && size >= 8 ==> zip_util::zip64_sizes(extra, at, false, true) == (
                None::<u64>,
                Some(first),
            )
            &&& id != 1 ==> forall|u: bool, c: bool| #[trigger]
                zip_util::zip64_sizes(extra, at, u, c) == zip_util::zip64_sizes(
                    extra,
                    at + 4 + size,
                    u,
                    c,
                )
        }),
{
}

/// A record that does not fit into the extra field holds nothing, and nothing stands behind
/// it.
pub proof fn law_cut_records_hold_nothing(extra: Seq<u8>, at: int, u: bool, c: bool)
    requires
        0 <= at,
        at + 4 > extra.len() || at + 4 + bytes::u16_at(extra, at + 2) > extra.len(),
    ensures
        zip_util::zip64_sizes(extra, at, u, c) == (None::<u64>, None::<u64>),
{
}

/// An entry has the name and, where its size fields are full, the sizes that its header and
/// extra field give; without a ZIP64 record a full size field stands for itself.
pub proof fn law_entry_has_its_name_and_sizes(data: Seq<u8>, pos: int)
    requires
        0 <= pos,
        pos + 30 <= data.len() <= usize::MAX,
    ensures
        zip_util::record_at(data, pos) matches Ok(r) ==> {
            let name_len = bytes::u16_at(data, pos + 26);
            let extra_len = bytes::u16_at(data, pos + 28);
            let packed = bytes::u32_at(data, pos + 18);
            let size = bytes::u32_at(data, pos + 22);
            let extra = data.subrange(pos + 30 + name_len, pos + 30 + name_len + extra_len);
            let wide = zip_util::zip64_sizes(extra, 0, size == 0xFFFF_FFFF, packed == 0xFFFF_FFFF);
            &&& r.entry.name == text::lossy_text(data.subrange(pos + 30, pos + 30 + name_len))
            &&& packed == 0xFFFF_FFFF ==> r.entry.compressed_size == match wide.1 {
                Some(x) => x as int,
                None => 0xFFFF_FFFF,
            }
            &&& size == 0xFFFF_FFFF ==> r.entry.uncompressed_size == match wide.0 {
                Some(x) => x as int,
                None => 0xFFFF_FFFF,
            }
        },
{
}

/// Why an entry cannot be read: its header is cut off, its name and extra field are, or its
/// packed contents are; the error says where, and of contents also whose, how many bytes are
/// stated and how many there are.
pub proof fn law_faults_say_what_is_cut_off(data: Seq<u8>, pos: int)
    requires
        0 <= pos <= data.len() <= usize::MAX,
    ensures
        ({
            let name_len = bytes::u16_at(data, pos + 26);
            let start = pos + 30 + name_len + bytes::u16_at(data, pos + 28);
            match zip_util::record_at(data, pos) {
                Err(ParseFault::HeaderTruncated { offset }) => offset == pos && pos + 30
                    > data.len(),
                Err(ParseFault::HeaderBeyondData { offset }) => offset == pos && pos + 30
                    <= data.len() && start > data.len(),
                Err(ParseFault::DataBeyondFile { name, need, offset, have }) => {
                    &&& start <= data.len()
                    &&& name == text::lossy_text(data.subrange(pos + 30, pos + 30 + name_len))
                    &&& offset == start
                    &&& have == data.len()
                    &&& start + need > data.len()
                    &&& bytes::u32_at(data, pos + 18) != 0xFFFF_FFFF ==> need == bytes::u32_at(
                        data,
                        pos + 18,
                    )
                },
                Ok(_) => start <= data.len(),
            }
        }),
{
    if pos + 30 <= data.len() {
        let extra_at = pos + 30 + bytes::u16_at(data, pos + 26);
        let extra = data.subrange(extra_at, extra_at + bytes::u16_at(data, pos + 28));
        lemma_wide_only_if_needed(
            extra,
            0,
            bytes::u32_at(data, pos + 22) == 0xFFFF_FFFF,
            bytes::u32_at(data, pos + 18) == 0xFFFF_FFFF,
        );
    }
}

/// Where the local header of the `i`-th of the records from `pos` on stands: at `pos`, or right
/// behind the contents before it.
pub open spec fn header_place(records: Seq<RecordModel>, pos: int, i: int) -> int {
    if i == 0 {
        pos
    } else {
        records[i - 1].end
    }
}

/// The records stand one behind the other from `pos` on, each with its local header.
pub open spec fn stand_in_row(data: Seq<u8>, pos: int, records: Seq<RecordModel>) -> bool {
    forall|i: int|
        0 <= i < records.len() ==> mark_at(data, #[trigger] header_place(records, pos, i), 3, 4)
            && zip_util::record_at(data, header_place(records, pos, i)) == Ok::<
            RecordModel,
            ParseFault,
        >(records[i])
}

/// The entries of an archive stand one behind the other, each with its local header, up to
/// the first place that has none; they cannot be followed just if there is a local header
/// behind some of them that states more than the data holds.
pub proof fn law_entries_are_followed(data: Seq<u8>, pos: int)
    requires
        0 <= pos,
        data.len() <= usize::MAX,
    ensures
        match zip_util::records_from(data, pos) {
            Ok(records) => stand_in_row(data, pos, records) && !mark_at(
                data,
                header_place(records, pos, records.len() as int),
                3,
                4,
            ),
            Err(fault) => exists|records: Seq<RecordModel>| #[trigger]
                stand_in_row(data, pos, records) && mark_at(
                    data,
                    header_place(records, pos, records.len() as int),
                    3,
                    4,
                ) && zip_util::record_at(data, header_place(records, pos, records.len() as int)) == Err::<
                    RecordModel,
                    ParseFault,
                >(fault),
        },
    decreases data.len() - pos,
{
    law_local_header_mark(data, pos);
    if zip_util::header_at(data, pos) {
        match zip_util::record_at(data, pos) {
            Ok(record) => {
                assert(pos < record.end <= data.len());
                law_entries_are_followed(data, record.end);
                match zip_util::records_from(data, record.end) {
                    Ok(rest) => {
                        lemma_one_more_in_row(data, pos, record, rest);
                    },
                    Err(fault) => {
                        let rest = choose|rest: Seq<RecordModel>| #[trigger]
                            stand_in_row(data, record.end, rest) && mark_at(
                                data,
                                header_place(rest, record.end, rest.len() as int),
                                3,
                                4,
                            ) && zip_util::record_at(
                                data,
                                header_place(rest, record.end, rest.len() as int),
                            ) == Err::<RecordModel, ParseFault>(fault);
                        lemma_one_more_in_row(data, pos, record, rest);
                        assert(stand_in_row(data, pos, seq![record] + rest));
                    },
                }
            },
            Err(fault) => {
                let none = Seq::<RecordModel>::empty();
                assert(stand_in_row(data, pos, none));
            },
        }
    }
}

proof fn lemma_one_more_in_row(
    data: Seq<u8>,
    pos: int,
    record: RecordModel,
    rest: Seq<RecordModel>,
)
    requires
        mark_at(data, pos, 3, 4),
        zip_util::record_at(data, pos) == Ok::<RecordModel, ParseFault>(record),
        stand_in_row(data, record.end, rest),
    ensures
        stand_in_row(data, pos, seq![record] + rest),
        header_place(seq![record] + rest, pos, rest.len() as int + 1) == header_place(
            rest,
            record.end,
            rest.len() as int,
        ),
{
    let records = seq![record] + rest;
    assert forall|i: int| 0 <= i < records.len() implies mark_at(
        data,
        #[trigger] header_place(records, pos, i),
        3,
        4,
    ) && zip_util::record_at(data, header_place(records, pos, i)) == Ok::<RecordModel, ParseFault>(
        records[i],
    ) by {
        if i > 0 {
            assert(header_place(rest, record.end, i - 1) == header_place(records, pos, i));
        }
    }
}

/// Data is an archive just if it begins with a local header, its entries can be followed,
/// and each of them is in order.
pub proof fn law_archive_has_every_entry_in_order(data: Seq<u8>)
    ensures
        zip_util::valid_zip(data) <==> mark_at(data, 0, 3, 4) && (zip_util::records_from(data, 0) matches Ok(
            records,
        ) && forall|i: int|
            0 <= i < records.len() ==> (#[trigger] records[i]).entry.crc32_actual == Some(
                records[i].entry.crc32_expected,
            )),
{
    if let Ok(records) = zip_util::records_from(data, 0) {
        let entries = records.map_values(|r: RecordModel| r.entry);
        if zip_util::valid_zip(data) {
            assert forall|i: int| 0 <= i < records.len() implies (
            #[trigger] records[i]).entry.crc32_actual == Some(records[i].entry.crc32_expected) by {
                assert(entries[i].crc_ok());
            }
        }
    }
}

/// The place of the `i`-th of the central directory entries that begin at `at`: each is as long
/// as its own lengths of name, extra field and comment say.
pub open spec fn directory_place(data: Seq<u8>, at: int, i: nat) -> int
    decreases i,
{
    if i == 0 {
        at
    } else {
        let p = directory_place(data, at, (i - 1) as nat);
        p + 46 + bytes::u16_at(data, p + 28) + bytes::u16_at(data, p + 30) + bytes::u16_at(
            data,
            p + 32,
        )
    }
}

/// The central directory entry at `p` tells of the local header at `o` and of the file.
pub open spec fn tells_of(data: Seq<u8>, p: int, o: int, f: FileModel) -> bool {
    &&& mark_at(data, p, 1, 2)
    &&& mark_at(data, o, 3, 4)
    &&& bytes::u32_at(data, p + 42) == o
    // version, flags, method, time and date, checksum, sizes and name are those of the header
    &&& data.subrange(p + 6, p + 30) == data.subrange(o + 4, o + 28)
    &&& bytes::holds_at(data, p + 46, f.name_bytes())
    &&& bytes::holds_at(data, o + 30, f.name_bytes())
    &&& bytes::u16_at(data, o + 4) == 20
    &&& bytes::u16_at(data, o + 8) == 8
    &&& bytes::u32_at(data, o + 14) == checksum::crc32_of(f.data)
    &&& bytes::u32_at(data, o + 18) == f.packed().len()
    &&& f.data.len() <= 0xFFFF_FFFF ==> bytes::u32_at(data, o + 22) == f.data.len()
    &&& bytes::u16_at(data, o + 26) == f.name_bytes().len()
    &&& bytes::u16_at(data, o + 28) == 0
    &&& bytes::holds_at(data, o + 30 + f.name_bytes().len(), f.packed())
}

/// The fields of a local record.
pub proof fn lemma_local_fields(name: Seq<u8>, packed: Seq<u8>, crc: u32, size: u32)
    ensures
        ({
            let rec = zip_util::local_record(name, packed, crc, size);
            let lens = bytes::le32(crc as int) + bytes::le32(
                zip_util::low32(packed.len()) as int,
            ) + bytes::le32(size as int) + bytes::le16(zip_util::low16(name.len()) as int);
            &&& rec.len() == 30 + name.len() + packed.len()
            &&& bytes::holds_at(rec, 0, bytes::le32(0x0403_4b50))
            &&& bytes::holds_at(
                rec,
                4,
                bytes::le16(20) + bytes::le16(0) + bytes::le16(8) + bytes::le16(0) + bytes::le16(0),
            )
            &&& bytes::holds_at(rec, 14, lens)
            &&& bytes::holds_at(rec, 28, bytes::le16(0))
            &&& bytes::holds_at(rec, 30, name)
            &&& bytes::holds_at(rec, 30 + name.len() as int, packed)
        }),
{
    reveal(zip_util::local_record);
    let rec = zip_util::local_record(name, packed, crc, size);
    let sig = bytes::le32(0x0403_4b50);
    let front = bytes::le16(20) + bytes::le16(0) + bytes::le16(8) + bytes::le16(0) + bytes::le16(0);
    let lens = bytes::le32(crc as int) + bytes::le32(
        zip_util::low32(packed.len()) as int,
    ) + bytes::le32(size as int) + bytes::le16(zip_util::low16(name.len()) as int);
    let n = name.len() as int;
    assert(rec =~= sig + front + lens + bytes::le16(0) + name + packed);
    assert(rec.subrange(0, 4) =~= sig);
    assert(rec.subrange(4, 14) =~= front);
    assert(rec.subrange(14, 28) =~= lens);
    assert(rec.subrange(28, 30) =~= bytes::le16(0));
    assert(rec.subrange(30, 30 + n) =~= name);
    assert(rec.subrange(30 + n, rec.len() as int) =~= packed);
}

proof fn lemma_central_fields(name: Seq<u8>, offset: u32, packed_len: u32, size: u32, crc: u32)
    ensures
        ({
            let rec = zip_util::central_record(name, offset, packed_len, size, crc);
            let lens = bytes::le32(crc as int) + bytes::le32(packed_len as int) + bytes::le32(
                size as int,
            ) + bytes::le16(zip_util::low16(name.len()) as int);
            &&& rec.len() == 46 + name.len()
            &&& bytes::holds_at(rec, 0, bytes::le32(0x0201_4b50))
            &&& bytes::holds_at(
                rec,
                6,
                bytes::le16(20) + bytes::le16(0) + bytes::le16(8) + bytes::le16(0) + bytes::le16(0),
            )
            &&& bytes::holds_at(rec, 16, lens)
            &&& bytes::holds_at(rec, 30, bytes::le16(0))
            &&& bytes::holds_at(rec, 32, bytes::le16(0))
            &&& bytes::holds_at(rec, 42, bytes::le32(offset as int))
            &&& bytes::holds_at(rec, 46, name)
        }),
{
    reveal(zip_util::central_record);
    let rec = zip_util::central_record(name, offset, packed_len, size, crc);
    let sig = bytes::le32(0x0201_4b50);
    let front = bytes::le16(20) + bytes::le16(0) + bytes::le16(8) + bytes::le16(0) + bytes::le16(0);
    let lens = bytes::le32(crc as int) + bytes::le32(packed_len as int) + bytes::le32(size as int)
        + bytes::le16(zip_util::low16(name.len()) as int);
    let zeros = bytes::le16(0) + bytes::le16(0) + bytes::le16(0) + bytes::le16(0) + bytes::le32(0);
    let n = name.len() as int;
    assert(rec =~= sig + bytes::le16(20) + front + lens + zeros + bytes::le32(offset as int) + name);
    assert(rec.subrange(0, 4) =~= sig);
    assert(rec.subrange(6, 16) =~= front);
    assert(rec.subrange(16, 30) =~= lens);
    assert(zeros.subrange(0, 2) =~= bytes::le16(0));
    assert(zeros.subrange(2, 4) =~= bytes::le16(0));
    assert(rec.subrange(30, 32) =~= zeros.subrange(0, 2));
    assert(rec.subrange(32, 34) =~= zeros.subrange(2, 4));
    assert(rec.subrange(42, 46) =~= bytes::le32(offset as int));
    assert(rec.subrange(46, 46 + n) =~= name);
}

/// Version, flags, method, time and date of a file that was packed by deflate.
#[verifier::opaque]
spec fn front_fields() -> Seq<u8> {
    bytes::le16(20) + bytes::le16(0) + bytes::le16(8) + bytes::le16(0) + bytes::le16(0)
}

/// Checksum, sizes and length of the name of a file.
#[verifier::opaque]
spec fn len_fields(f: FileModel) -> Seq<u8> {
    bytes::le32(checksum::crc32_of(f.data) as int) + bytes::le32(f.packed().len() as int)
        + bytes::le32(zip_util::low32(f.data.len()) as int) + bytes::le16(f.name_bytes().len() as int)
}

proof fn lemma_front_read(data: Seq<u8>, at: int)
    requires
        bytes::holds_at(data, at, front_fields()),
    ensures
        bytes::u16_at(data, at) == 20,
        bytes::u16_at(data, at + 4) == 8,
        front_fields().len() == 10,
{
    reveal(front_fields);
    let front = front_fields();
    assert(front.subrange(0, 2) =~= bytes::le16(20));
    assert(front.subrange(4, 6) =~= bytes::le16(8));
    zip_util::lemma_held_part(data, at, front, 0, bytes::le16(20));
    zip_util::lemma_held_part(data, at, front, 4, bytes::le16(8));
    bytes::lemma_u16_back(data, at, 20);
    bytes::lemma_u16_back(data, at + 4, 8);
}

proof fn lemma_lens_read(data: Seq<u8>, at: int, f: FileModel)
    requires
        zip_util::fits_header(f),
        bytes::holds_at(data, at, len_fields(f)),
    ensures
        bytes::u32_at(data, at) == checksum::crc32_of(f.data),
        bytes::u32_at(data, at + 4) == f.packed().len(),
        bytes::u32_at(data, at + 8) == zip_util::low32(f.data.len()),
        bytes::u16_at(data, at + 12) == f.name_bytes().len(),
        len_fields(f).len() == 14,
{
    reveal(len_fields);
    let lens = len_fields(f);
    let crc = checksum::crc32_of(f.data) as int;
    let packed = f.packed().len() as int;
    let size = zip_util::low32(f.data.len()) as int;
    let name = f.name_bytes().len() as int;
    assert(lens.subrange(0, 4) =~= bytes::le32(crc));
    assert(lens.subrange(4, 8) =~= bytes::le32(packed));
    assert(lens.subrange(8, 12) =~= bytes::le32(size));
    assert(lens.subrange(12, 14) =~= bytes::le16(name));
    zip_util::lemma_held_part(data, at, lens, 0, bytes::le32(crc));
    zip_util::lemma_held_part(data, at, lens, 4, bytes::le32(packed));
    zip_util::lemma_held_part(data, at, lens, 8, bytes::le32(size));
    zip_util::lemma_held_part(data, at, lens, 12, bytes::le16(name));
    bytes::lemma_u32_back(data, at, crc);
    bytes::lemma_u32_back(data, at + 4, packed);
    bytes::lemma_u32_back(data, at + 8, size);
    bytes::lemma_u16_back(data, at + 12, name);
}

proof fn lemma_local_held(data: Seq<u8>, o: int, f: FileModel)
    requires
        zip_util::fits_header(f),
        bytes::holds_at(data, o, zip_util::file_record(f)),
    ensures
        0 <= o,
        o + 30 <= data.len(),
        bytes::u32_at(data, o) == 0x0403_4b50,
        bytes::holds_at(data, o + 4, front_fields()),
        bytes::holds_at(data, o + 14, len_fields(f)),
        bytes::u16_at(data, o + 28) == 0,
        bytes::holds_at(data, o + 30, f.name_bytes()),
        bytes::holds_at(data, o + 30 + f.name_bytes().len(), f.packed()),
{
    reveal(front_fields);
    reveal(len_fields);
    let name = f.name_bytes();
    let local = zip_util::file_record(f);
    lemma_local_fields(
        name,
        f.packed(),
        checksum::crc32_of(f.data),
        zip_util::low32(f.data.len()),
    );
    zip_util::lemma_held_part(data, o, local, 0, bytes::le32(0x0403_4b50));
    zip_util::lemma_held_part(data, o, local, 4, front_fields());
    zip_util::lemma_held_part(data, o, local, 14, len_fields(f));
    zip_util::lemma_held_part(data, o, local, 28, bytes::le16(0));
    zip_util::lemma_held_part(data, o, local, 30, name);
    zip_util::lemma_held_part(data, o, local, 30 + name.len() as int, f.packed());
    bytes::lemma_u32_back(data, o, 0x0403_4b50);
    bytes::lemma_u16_back(data, o + 28, 0);
}

proof fn lemma_central_read(data: Seq<u8>, p: int, o: u32, f: FileModel)
    requires
        zip_util::fits_header(f),
        bytes::holds_at(
            data,
            p,
            zip_util::central_record(
                f.name_bytes(),
                o,
                f.packed().len() as u32,
                zip_util::low32(f.data.len()),
                checksum::crc32_of(f.data),
            ),
        ),
    ensures
        0 <= p,
        p + 46 <= data.len(),
        bytes::u32_at(data, p) == 0x0201_4b50,
        bytes::holds_at(data, p + 6, front_fields()),
        bytes::holds_at(data, p + 16, len_fields(f)),
        bytes::u16_at(data, p + 30) == 0,
        bytes::u16_at(data, p + 32) == 0,
        bytes::u32_at(data, p + 42) == o,
        bytes::holds_at(data, p + 46, f.name_bytes()),
{
    reveal(front_fields);
    reveal(len_fields);
    let name = f.name_bytes();
    let size = zip_util::low32(f.data.len());
    let crc = checksum::crc32_of(f.data);
    let central = zip_util::central_record(name, o, f.packed().len() as u32, size, crc);
    lemma_central_fields(name, o, f.packed().len() as u32, size, crc);
    zip_util::lemma_held_part(data, p, central, 0, bytes::le32(0x0201_4b50));
    zip_util::lemma_held_part(data, p, central, 6, front_fields());
    zip_util::lemma_held_part(data, p, central, 16, len_fields(f));
    zip_util::lemma_held_part(data, p, central, 30, bytes::le16(0));
    zip_util::lemma_held_part(data, p, central, 32, bytes::le16(0));
    zip_util::lemma_held_part(data, p, central, 42, bytes::le32(o as int));
    zip_util::lemma_held_part(data, p, central, 46, name);
    bytes::lemma_u32_back(data, p, 0x0201_4b50);
    bytes::lemma_u32_back(data, p + 42, o as int);
    bytes::lemma_u16_back(data, p + 30, 0);
    bytes::lemma_u16_back(data, p + 32, 0);
}

proof fn lemma_same_fields(data: Seq<u8>, p: int, o: int, a: Seq<u8>, b: Seq<u8>)
    requires
        a.len() == 10,
        b.len() == 14,
        bytes::holds_at(data, p, a),
        bytes::holds_at(data, p + 10, b),
        bytes::holds_at(data, o, a),
        bytes::holds_at(data, o + 10, b),
    ensures
        data.subrange(p, p + 24) == data.subrange(o, o + 24),
{
    assert(data.subrange(p, p + 24) =~= data.subrange(p, p + 10) + data.subrange(p + 10, p + 24));
    assert(data.subrange(o, o + 24) =~= data.subrange(o, o + 10) + data.subrange(o + 10, o + 24));
}

/// A central directory entry held at `p` and the local record held at `o` tell of the file.
proof fn lemma_tells_of(data: Seq<u8>, p: int, o: int, f: FileModel)
    requires
        zip_util::fits_header(f),
        0 <= o <= 0xFFFF_FFFF,
        bytes::holds_at(data, o, zip_util::file_record(f)),
        bytes::holds_at(
            data,
            p,
            zip_util::central_record(
                f.name_bytes(),
                o as u32,
                f.packed().len() as u32,
                zip_util::low32(f.data.len()),
                checksum::crc32_of(f.data),
            ),
        ),
    ensures
        tells_of(data, p, o, f),
        bytes::u16_at(data, p + 28) == f.name_bytes().len(),
        bytes::u16_at(data, p + 30) == 0,
        bytes::u16_at(data, p + 32) == 0,
{
    lemma_local_held(data, o, f);
    lemma_central_read(data, p, o as u32, f);
    lemma_front_read(data, o + 4);
    lemma_lens_read(data, o + 14, f);
    lemma_lens_read(data, p + 16, f);
    lemma_same_fields(data, p + 6, o + 4, front_fields(), len_fields(f));
    lemma_marks(data, o, p);
}

proof fn lemma_marks(data: Seq<u8>, o: int, p: int)
    requires
        0 <= o && o + 4 <= data.len(),
        0 <= p && p + 4 <= data.len(),
        bytes::u32_at(data, o) == 0x0403_4b50,
        bytes::u32_at(data, p) == 0x0201_4b50,
    ensures
        mark_at(data, o, 3, 4),
        mark_at(data, p, 1, 2),
{
}

/// The central directory entry of the `i`-th file.
pub open spec fn central_of(files: Seq<FileModel>, i: nat) -> Seq<u8> {
    let f = files[i as int];
    zip_util::central_record(
        f.name_bytes(),
        zip_util::low32(zip_util::local_records(files, i).len()),
        zip_util::low32(f.packed().len()),
        zip_util::low32(f.data.len()),
        checksum::crc32_of(f.data),
    )
}

/// The directory entries of all files have that of each file in its place.
pub proof fn lemma_central_held(files: Seq<FileModel>, i: nat, n: nat)
    requires
        i < n <= files.len(),
    ensures
        bytes::holds_at(
            zip_util::central_records(files, n),
            zip_util::central_records(files, i).len() as int,
            central_of(files, i),
        ),
        zip_util::central_records(files, i + 1).len() == zip_util::central_records(files, i).len()
            + central_of(files, i).len(),
    decreases n,
{
    let all = zip_util::central_records(files, n);
    let shorter = zip_util::central_records(files, (n - 1) as nat);
    let at = zip_util::central_records(files, i).len() as int;
    let part = central_of(files, i);
    if i + 1 < n {
        lemma_central_held(files, i, (n - 1) as nat);
        assert(all.subrange(at, at + part.len()) =~= shorter.subrange(at, at + part.len()));
    } else {
        assert(all.subrange(at, at + part.len()) =~= part);
    }
}

proof fn lemma_locals_grow(files: Seq<FileModel>, i: nat, n: nat)
    requires
        i <= n,
    ensures
        zip_util::local_records(files, i).len() <= zip_util::local_records(files, n).len(),
    decreases n,
{
    if i < n {
        lemma_locals_grow(files, i, (n - 1) as nat);
    }
}

/// An archive's directory stands between its local records and its end record.
proof fn lemma_directory(files: Seq<FileModel>, i: nat)
    requires
        forall|k: int| 0 <= k < files.len() ==> zip_util::fits_header(#[trigger] files[k]),
        zip_util::archive(files).len() <= 0xFFFF_FFFF,
        i <= files.len(),
    ensures
        ({
            let a = zip_util::archive(files);
            let at = zip_util::local_records(files, files.len()).len() as int;
            let p = directory_place(a, at, i);
            &&& p == at + zip_util::central_records(files, i).len()
            &&& i < files.len() ==> tells_of(
                a,
                p,
                zip_util::local_records(files, i).len() as int,
                files[i as int],
            )
        }),
    decreases i,
{
    let n = files.len();
    let locals = zip_util::local_records(files, n);
    if i > 0 {
        let j = (i - 1) as nat;
        let f = files[j as int];
        lemma_directory(files, j);
        lemma_central_held(files, j, n);
        lemma_central_fields(
            f.name_bytes(),
            zip_util::low32(zip_util::local_records(files, j).len()),
            zip_util::low32(f.packed().len()),
            zip_util::low32(f.data.len()),
            checksum::crc32_of(f.data),
        );
        lemma_place_step(files, j);
    }
    if i < n {
        lemma_place_step(files, i);
    }
}

proof fn lemma_place_step(files: Seq<FileModel>, i: nat)
    requires
        forall|k: int| 0 <= k < files.len() ==> zip_util::fits_header(#[trigger] files[k]),
        zip_util::archive(files).len() <= 0xFFFF_FFFF,
        i < files.len(),
    ensures
        ({
            let a = zip_util::archive(files);
            let f = files[i as int];
            let p = zip_util::local_records(files, files.len()).len()
                + zip_util::central_records(files, i).len() as int;
            &&& tells_of(a, p, zip_util::local_records(files, i).len() as int, f)
            &&& bytes::u16_at(a, p + 28) == f.name_bytes().len()
            &&& bytes::u16_at(a, p + 30) == 0
            &&& bytes::u16_at(a, p + 32) == 0
        }),
{
    let a = zip_util::archive(files);
    let n = files.len();
    let f = files[i as int];
    let locals = zip_util::local_records(files, n);
    let centrals = zip_util::central_records(files, n);
    let at = locals.len() as int;
    let o = zip_util::local_records(files, i).len() as int;
    let c = zip_util::central_records(files, i).len() as int;
    assert(zip_util::fits_header(f));
    zip_util::lemma_local_records_held(files, i, n);
    lemma_central_held(files, i, n);
    lemma_locals_grow(files, i, n);
    assert(a.subrange(at, at + centrals.len()) =~= centrals);
    assert(a.subrange(0, at) =~= locals);
    zip_util::lemma_held_part(a, 0, locals, o, zip_util::file_record(f));
    zip_util::lemma_held_part(a, at, centrals, c, central_of(files, i));
    lemma_tells_of(a, at + c, o, f);
}

/// An archive of files within 4 GiB can be read by its directory: the end record gives the
/// place, the length and the number of entries of the directory, which ends where the end
/// record begins; the directory entry of each file gives the place of a local header, tells
/// what that tells, and behind that header stand the file's packed contents. The first local
/// header stands at the front.
pub proof fn law_archive_is_read_by_its_directory(files: Seq<FileModel>)
    requires
        forall|k: int| 0 <= k < files.len() ==> zip_util::fits_header(#[trigger] files[k]),
        files.len() <= 0xFFFF,
        zip_util::archive(files).len() <= 0xFFFF_FFFF,
    ensures
        ({
            let a = zip_util::archive(files);
            let e = a.len() - 22;
            let at = bytes::u32_at(a, e + 16);
            &&& mark_at(a, e, 5, 6)
            &&& bytes::u32_at(a, e + 4) == 0
            &&& bytes::u16_at(a, e + 8) == files.len()
            &&& bytes::u16_at(a, e + 10) == files.len()
            &&& at + bytes::u32_at(a, e + 12) == e
            &&& bytes::u16_at(a, e + 20) == 0
            &&& directory_place(a, at, files.len()) == e
            &&& forall|i: nat|
                i < files.len() ==> tells_of(
                    a,
                    #[trigger] directory_place(a, at, i),
                    bytes::u32_at(a, directory_place(a, at, i) + 42),
                    files[i as int],
                )
            &&& files.len() > 0 ==> bytes::u32_at(a, at + 42) == 0
        }),
{
    let a = zip_util::archive(files);
    let n = files.len();
    let locals = zip_util::local_records(files, n);
    let centrals = zip_util::central_records(files, n);
    let end = zip_util::end_record(
        zip_util::low16(n),
        zip_util::low32(locals.len()),
        zip_util::low32(centrals.len()),
    );
    let e = locals.len() + centrals.len() as int;
    lemma_end_fields(n as u16, locals.len() as u32, centrals.len() as u32);
    assert(end.len() == 22);
    assert(a.subrange(e, e + 22) =~= end);
    lemma_end_held(a, e, n as u16, locals.len() as u32, centrals.len() as u32);
    lemma_directory(files, n);
    assert forall|i: nat| i < n implies tells_of(
        a,
        #[trigger] directory_place(a, locals.len() as int, i),
        bytes::u32_at(a, directory_place(a, locals.len() as int, i) + 42),
        files[i as int],
    ) by {
        lemma_directory(files, i);
    }
    if n > 0 {
        lemma_directory(files, 0);
    }
}

/// The fields of an end record.
pub proof fn lemma_end_fields(count: u16, offset: u32, size: u32)
    ensures
        ({
            let rec = zip_util::end_record(count, offset, size);
            &&& rec.len() == 22
            &&& bytes::holds_at(rec, 0, bytes::le32(0x0605_4b50))
            &&& bytes::holds_at(rec, 4, bytes::le32(0))
            &&& bytes::holds_at(rec, 8, bytes::le16(count as int))
            &&& bytes::holds_at(rec, 10, bytes::le16(count as int))
            &&& bytes::holds_at(rec, 12, bytes::le32(size as int))
            &&& bytes::holds_at(rec, 16, bytes::le32(offset as int))
            &&& bytes::holds_at(rec, 20, bytes::le16(0))
        }),
{
    reveal(zip_util::end_record);
    let rec = zip_util::end_record(count, offset, size);
    assert(rec.subrange(0, 4) =~= bytes::le32(0x0605_4b50));
    assert(rec.subrange(4, 8) =~= bytes::le32(0));
    assert(rec.subrange(8, 10) =~= bytes::le16(count as int));
    assert(rec.subrange(10, 12) =~= bytes::le16(count as int));
    assert(rec.subrange(12, 16) =~= bytes::le32(size as int));
    assert(rec.subrange(16, 20) =~= bytes::le32(offset as int));
    assert(rec.subrange(20, 22) =~= bytes::le16(0));
}

proof fn lemma_end_held(a: Seq<u8>, e: int, count: u16, offset: u32, size: u32)
    requires
        bytes::holds_at(a, e, zip_util::end_record(count, offset, size)),
    ensures
        mark_at(a, e, 5, 6),
        bytes::u32_at(a, e + 4) == 0,
        bytes::u16_at(a, e + 8) == count,
        bytes::u16_at(a, e + 10) == count,
        bytes::u32_at(a, e + 12) == size,
        bytes::u32_at(a, e + 16) == offset,
        bytes::u16_at(a, e + 20) == 0,
{
    let rec = zip_util::end_record(count, offset, size);
    lemma_end_fields(count, offset, size);
    zip_util::lemma_held_part(a, e, rec, 0, bytes::le32(0x0605_4b50));
    zip_util::lemma_held_part(a, e, rec, 4, bytes::le32(0));
    zip_util::lemma_held_part(a, e, rec, 8, bytes::le16(count as int));
    zip_util::lemma_held_part(a, e, rec, 10, bytes::le16(count as int));
    zip_util::lemma_held_part(a, e, rec, 12, bytes::le32(size as int));
    zip_util::lemma_held_part(a, e, rec, 16, bytes::le32(offset as int));
    zip_util::lemma_held_part(a, e, rec, 20, bytes::le16(0));
    bytes::lemma_u32_back(a, e, 0x0605_4b50);
    bytes::lemma_u32_back(a, e + 4, 0);
    bytes::lemma_u16_back(a, e + 8, count as int);
    bytes::lemma_u16_back(a, e + 10, count as int);
    bytes::lemma_u32_back(a, e + 12, size as int);
    bytes::lemma_u32_back(a, e + 16, offset as int);
    bytes::lemma_u16_back(a, e + 20, 0);
}

} // verus!
