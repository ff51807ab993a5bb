//! The records of an archive byte by byte.
use vstd::prelude::*;

use crate::bytes;
use crate::checksum;
use crate::directory;
use crate::unpack;
use crate::zip_util;
use crate::zip_util::FileModel;

verus! {

proof fn lemma_part_bytes(rec: Seq<u8>, at: int, part: Seq<u8>)
    requires
        bytes::holds_at(rec, at, part),
    ensures
        forall|k: int| 0 <= k < part.len() ==> rec[at + k] == #[trigger] part[k],
{
    assert forall|k: int| 0 <= k < part.len() implies rec[at + k] == #[trigger] part[k] by {
        assert(rec.subrange(at, at + part.len())[k] == rec[at + k]);
    }
}

proof fn lemma_four_bytes(x: u32)
    ensures
        ({
            let s = bytes::le32(x as int);
            &&& s.len() == 4
            &&& s[0] == x % 256
            &&& s[1] == x / 256 % 256
            &&& s[2] == x / 0x1_0000 % 256
            &&& s[3] == x / 0x100_0000
        }),
{
}

proof fn lemma_mark_bytes()
    ensures
        ({
            let s = bytes::le32(0x0403_4b50);
            s.len() == 4 && s[0] == 0x50 && s[1] == 0x4B && s[2] == 3 && s[3] == 4
        }),
        ({
            let s = bytes::le32(0x0201_4b50);
            s.len() == 4 && s[0] == 0x50 && s[1] == 0x4B && s[2] == 1 && s[3] == 2
        }),
        ({
            let s = bytes::le32(0x0605_4b50);
            s.len() == 4 && s[0] == 0x50 && s[1] == 0x4B && s[2] == 5 && s[3] == 6
        }),
{
}

proof fn lemma_front_bytes()
    ensures
        ({
            let s = bytes::le16(20) + bytes::le16(0) + bytes::le16(8) + bytes::le16(0)
                + bytes::le16(0);
            &&& s.len() == 10
            &&& s[0] == 20 && s[1] == 0 && s[2] == 0 && s[3] == 0 && s[4] == 8
            &&& s[5] == 0 && s[6] == 0 && s[7] == 0 && s[8] == 0 && s[9] == 0
        }),
{
}

proof fn lemma_lens_bytes(a: u32, b: u32, c: u32, d: u16)
    ensures
        ({
            let s = bytes::le32(a as int) + bytes::le32(b as int) + bytes::le32(c as int)
                + bytes::le16(d as int);
            &&& s.len() == 14
            &&& s[0] == a % 256 && s[1] == a / 256 % 256
            &&& s[2] == a / 0x1_0000 % 256 && s[3] == a / 0x100_0000
            &&& s[4] == b % 256 && s[5] == b / 256 % 256
            &&& s[6] == b / 0x1_0000 % 256 && s[7] == b / 0x100_0000
            &&& s[8] == c % 256 && s[9] == c / 256 % 256
            &&& s[10] == c / 0x1_0000 % 256 && s[11] == c / 0x100_0000
            &&& s[12] == d % 256 && s[13] == d / 256
        }),
{
    let x = bytes::le32(a as int);
    let y = bytes::le32(b as int);
    let z = bytes::le32(c as int);
    let w = bytes::le16(d as int);
    lemma_four_bytes(a);
    lemma_four_bytes(b);
    lemma_four_bytes(c);
    let s = x + y + z + w;
    assert(s[0] == x[0] && s[1] == x[1] && s[2] == x[2] && s[3] == x[3]);
    assert(s[4] == y[0] && s[5] == y[1] && s[6] == y[2] && s[7] == y[3]);
    assert(s[8] == z[0] && s[9] == z[1] && s[10] == z[2] && s[11] == z[3]);
    assert(s[12] == w[0] && s[13] == w[1]);
}

/// A length cut to the width of its field keeps its low bytes.
proof fn lemma_low_digits(p: nat, n: nat)
    ensures
        ({
            let x = zip_util::low32(p);
            let y = zip_util::low16(n);
            &&& x % 256 == p % 256
            &&& x / 256 % 256 == p / 256 % 256
            &&& x / 0x1_0000 % 256 == p / 0x1_0000 % 256
            &&& x / 0x100_0000 == p / 0x100_0000 % 256
            &&& y % 256 == n % 256
            &&& y / 256 == n / 256 % 256
        }),
{
    lemma_low_bytes(p);
    let q = n / 0x1_0000;
    let y = n % 0x1_0000;
    assert(n / 256 == 256 * q + y / 256);
}

proof fn lemma_low_bytes(p: nat)
    ensures
        ({
            let x = p % 0x1_0000_0000;
            &&& x % 256 == p % 256
            &&& x / 256 % 256 == p / 256 % 256
            &&& x / 0x1_0000 % 256 == p / 0x1_0000 % 256
            &&& x / 0x100_0000 == p / 0x100_0000 % 256
        }),
{
    let q = p / 0x1_0000_0000;
    let x = p % 0x1_0000_0000;
    assert(p == 0x1_0000_0000 * q + x);
    assert(p / 256 == 0x100_0000 * q + x / 256);
    assert(p / 0x1_0000 == 0x1_0000 * q + x / 0x1_0000);
    assert(p / 0x100_0000 == 0x100 * q + x / 0x100_0000);
    assert(x / 0x100_0000 < 256);
    lemma_whole(0x1_0000, q, x / 256);
    lemma_whole(0x100, q, x / 0x1_0000);
    lemma_whole(0x1, q, x / 0x100_0000);
    lemma_whole(0x100_0000, q, x);
}

/// Whole multiples of 256 make no difference to the lowest byte.
proof fn lemma_whole(m: nat, q: nat, x: nat)
    ensures
        (256 * m * q + x) % 256 == x % 256,
{
    assert(256 * m * q == 256 * (m * q)) by (nonlinear_arith);
    let k = m * q;
    assert((256 * k + x) % 256 == x % 256);
}

proof fn lemma_central_parts(name: Seq<u8>, offset: u32, packed_len: u32, size: u32, crc: u32)
    ensures
        ({
            let rec = zip_util::central_record(name, offset, packed_len, size, crc);
            let front = bytes::le16(20) + bytes::le16(0) + bytes::le16(8) + bytes::le16(0)
                + bytes::le16(0);
            let lens = bytes::le32(crc as int) + bytes::le32(packed_len as int) + bytes::le32(
                size as int,
            ) + bytes::le16(zip_util::low16(name.len()) as int);
            let zeros = bytes::le16(0) + bytes::le16(0) + bytes::le16(0) + bytes::le16(0)
                + bytes::le32(0);
            &&& rec.len() == 46 + name.len()
            &&& bytes::holds_at(rec, 0, bytes::le32(0x0201_4b50))
            &&& bytes::holds_at(rec, 4, bytes::le16(20))
            &&& bytes::holds_at(rec, 6, front)
            &&& bytes::holds_at(rec, 16, lens)
            &&& bytes::holds_at(rec, 30, zeros)
            &&& zeros.len() == 12
            &&& forall|i: int| 0 <= i < 12 ==> #[trigger] zeros[i] == 0
            &&& bytes::holds_at(rec, 42, bytes::le32(offset as int))
            &&& bytes::holds_at(rec, 46, name)
        }),
{
    reveal(zip_util::central_record);
    let rec = zip_util::central_record(name, offset, packed_len, size, crc);
    let mark = bytes::le32(0x0201_4b50);
    let made = bytes::le16(20);
    let front = bytes::le16(20) + bytes::le16(0) + bytes::le16(8) + bytes::le16(0) + bytes::le16(0);
    let lens = bytes::le32(crc as int) + bytes::le32(packed_len as int) + bytes::le32(size as int)
        + bytes::le16(zip_util::low16(name.len()) as int);
    let zeros = bytes::le16(0) + bytes::le16(0) + bytes::le16(0) + bytes::le16(0) + bytes::le32(0);
    let place = bytes::le32(offset as int);
    assert(rec =~= mark + made + front + lens + zeros + place + name);
    lemma_seven(mark, made, front, lens, zeros, place, name);
}

/// Where the parts of a sequence stand.
proof fn lemma_seven(
    a: Seq<u8>,
    b: Seq<u8>,
    c: Seq<u8>,
    d: Seq<u8>,
    e: Seq<u8>,
    f: Seq<u8>,
    g: Seq<u8>,
)
    requires
        a.len() == 4,
        b.len() == 2,
        c.len() == 10,
        d.len() == 14,
        e.len() == 12,
        f.len() == 4,
    ensures
        ({
            let s = a + b + c + d + e + f + g;
            &&& s.len() == 46 + g.len()
            &&& bytes::holds_at(s, 0, a)
            &&& bytes::holds_at(s, 4, b)
            &&& bytes::holds_at(s, 6, c)
            &&& bytes::holds_at(s, 16, d)
            &&& bytes::holds_at(s, 30, e)
            &&& bytes::holds_at(s, 42, f)
            &&& bytes::holds_at(s, 46, g)
        }),
{
    let s = a + b + c + d + e + f + g;
    assert(s.subrange(0, 4) =~= a);
    assert(s.subrange(4, 6) =~= b);
    assert(s.subrange(6, 16) =~= c);
    assert(s.subrange(16, 30) =~= d);
    assert(s.subrange(30, 42) =~= e);
    assert(s.subrange(42, 46) =~= f);
    assert(s.subrange(46, 46 + g.len() as int) =~= g);
}

/// The bytes of a local header: mark, version 2.0, no flags, deflated, no time and date,
/// checksum, sizes, length of the name, no extra field; numbers have their lowest byte first
/// and are cut to the width of their field. Behind it stand the name and the packed contents.
pub proof fn law_local_header_bytes(name: Seq<u8>, packed: Seq<u8>, crc: u32, size: u32)
    ensures
        ({
            let rec = zip_util::local_record(name, packed, crc, size);
            let p = packed.len();
            let n = name.len();
            &&& rec.len() == 30 + n + p
            &&& rec[0] == 0x50 && rec[1] == 0x4B && rec[2] == 3 && rec[3] == 4
            &&& rec[4] == 20 && rec[5] == 0 && rec[6] == 0 && rec[7] == 0
            &&& rec[8] == 8 && rec[9] == 0
            &&& rec[10] == 0 && rec[11] == 0 && rec[12] == 0 && rec[13] == 0
            &&& rec[14] == crc % 256 && rec[15] == crc / 256 % 256
            &&& rec[16] == crc / 0x1_0000 % 256 && rec[17] == crc / 0x100_0000
            &&& rec[18] == p % 256 && rec[19] == p / 256 % 256
            &&& rec[20] == p / 0x1_0000 % 256 && rec[21] == p / 0x100_0000 % 256
            &&& rec[22] == size % 256 && rec[23] == size / 256 % 256
            &&& rec[24] == size / 0x1_0000 % 256 && rec[25] == size / 0x100_0000
            &&& rec[26] == n % 256 && rec[27] == n / 256 % 256
            &&& rec[28] == 0 && rec[29] == 0
            &&& rec.subrange(30, 30 + n as int) == name
            &&& rec.skip(30 + n as int) == packed
        }),
{
    let rec = zip_util::local_record(name, packed, crc, size);
    let n = name.len() as int;
    let front = bytes::le16(20) + bytes::le16(0) + bytes::le16(8) + bytes::le16(0) + bytes::le16(0);
    let lens = bytes::le32(crc as int) + bytes::le32(
        zip_util::low32(packed.len()) as int,
    ) + bytes::le32(size as int) + bytes::le16(zip_util::low16(name.len()) as int);
    directory::lemma_local_fields(name, packed, crc, size);
    lemma_front_bytes();
    lemma_lens_bytes(crc, zip_util::low32(packed.len()), size, zip_util::low16(name.len()));
    lemma_mark_bytes();
    lemma_part_bytes(rec, 0, bytes::le32(0x0403_4b50));
    lemma_part_bytes(rec, 4, front);
    lemma_part_bytes(rec, 14, lens);
    lemma_part_bytes(rec, 28, bytes::le16(0));
    lemma_low_digits(packed.len(), name.len());
    assert(rec.skip(30 + n) =~= rec.subrange(30 + n, 30 + n + packed.len()));
    assert(front[0] == rec[4] && front[1] == rec[5] && front[2] == rec[6] && front[3]
        == rec[7] && front[4] == rec[8] && front[5] == rec[9] && front[6] == rec[10]
        && front[7] == rec[11] && front[8] == rec[12] && front[9] == rec[13]);
    assert(lens[0] == rec[14] && lens[1] == rec[15] && lens[2] == rec[16] && lens[3]
        == rec[17] && lens[4] == rec[18] && lens[5] == rec[19] && lens[6] == rec[20]
        && lens[7] == rec[21] && lens[8] == rec[22] && lens[9] == rec[23] && lens[10]
        == rec[24] && lens[11] == rec[25] && lens[12] == rec[26] && lens[13] == rec[27]);
    let mark = bytes::le32(0x0403_4b50);
    assert(mark[0] == rec[0] && mark[1] == rec[1] && mark[2] == rec[2] && mark[3]
        == rec[3]);
    let none = bytes::le16(0);
    assert(none[0] == rec[28] && none[1] == rec[29]);
}

/// The bytes of a central directory entry: mark, made by and needing version 2.0, no flags,
/// deflated, no time and date, checksum, sizes, length of the name, neither extra field nor
/// comment, first disk, no attributes, and the place of the local header. Behind it stands
/// the name.
pub proof fn law_directory_entry_bytes(
    name: Seq<u8>,
    offset: u32,
    packed_len: u32,
    size: u32,
    crc: u32,
)
    ensures
        ({
            let rec = zip_util::central_record(name, offset, packed_len, size, crc);
            let n = name.len();
            &&& rec.len() == 46 + n
            &&& rec[0] == 0x50 && rec[1] == 0x4B && rec[2] == 1 && rec[3] == 2
            &&& rec[4] == 20 && rec[5] == 0 && rec[6] == 20 && rec[7] == 0
            &&& rec[8] == 0 && rec[9] == 0 && rec[10] == 8 && rec[11] == 0
            &&& rec[12] == 0 && rec[13] == 0 && rec[14] == 0 && rec[15] == 0
            &&& rec[16] == crc % 256 && rec[17] == crc / 256 % 256
            &&& rec[18] == crc / 0x1_0000 % 256 && rec[19] == crc / 0x100_0000
            &&& rec[20] == packed_len % 256 && rec[21] == packed_len / 256 % 256
            &&& rec[22] == packed_len / 0x1_0000 % 256 && rec[23] == packed_len / 0x100_0000
            &&& rec[24] == size % 256 && rec[25] == size / 256 % 256
            &&& rec[26] == size / 0x1_0000 % 256 && rec[27] == size / 0x100_0000
            &&& rec[28] == n % 256 && rec[29] == n / 256 % 256
            &&& forall|i: int| 30 <= i < 42 ==> #[trigger] rec[i] == 0
            &&& rec[42] == offset % 256 && rec[43] == offset / 256 % 256
            &&& rec[44] == offset / 0x1_0000 % 256 && rec[45] == offset / 0x100_0000
            &&& rec.skip(46) == name
        }),
{
    let rec = zip_util::central_record(name, offset, packed_len, size, crc);
    let made = bytes::le16(20);
    let front = bytes::le16(20) + bytes::le16(0) + bytes::le16(8) + bytes::le16(0) + bytes::le16(0);
    let lens = bytes::le32(crc as int) + bytes::le32(packed_len as int) + bytes::le32(
        size as int,
    ) + bytes::le16(zip_util::low16(name.len()) as int);
    let zeros = bytes::le16(0) + bytes::le16(0) + bytes::le16(0) + bytes::le16(0) + bytes::le32(0);
    let place = bytes::le32(offset as int);
    let mark = bytes::le32(0x0201_4b50);
    lemma_central_parts(name, offset, packed_len, size, crc);
    lemma_front_bytes();
    lemma_lens_bytes(crc, packed_len, size, zip_util::low16(name.len()));
    lemma_mark_bytes();
    lemma_four_bytes(offset);
    lemma_part_bytes(rec, 0, mark);
    lemma_part_bytes(rec, 4, made);
    lemma_part_bytes(rec, 6, front);
    lemma_part_bytes(rec, 16, lens);
    lemma_part_bytes(rec, 30, zeros);
    lemma_part_bytes(rec, 42, place);
    lemma_low_digits(0, name.len());
    assert(mark[0] == rec[0] && mark[1] == rec[1] && mark[2] == rec[2] && mark[3]
        == rec[3]);
    assert(made[0] == rec[4] && made[1] == rec[5]);
    assert(front[0] == rec[6] && front[1] == rec[7] && front[2] == rec[8] && front[3]
        == rec[9] && front[4] == rec[10] && front[5] == rec[11] && front[6] == rec[12]
        && front[7] == rec[13] && front[8] == rec[14] && front[9] == rec[15]);
    assert(lens[0] == rec[16] && lens[1] == rec[17] && lens[2] == rec[18] && lens[3]
        == rec[19] && lens[4] == rec[20] && lens[5] == rec[21] && lens[6] == rec[22]
        && lens[7] == rec[23] && lens[8] == rec[24] && lens[9] == rec[25] && lens[10]
        == rec[26] && lens[11] == rec[27] && lens[12] == rec[28] && lens[13] == rec[29]);
    assert(place[0] == rec[42] && place[1] == rec[43] && place[2] == rec[44] && place[3]
        == rec[45]);
    assert forall|i: int| 30 <= i < 42 implies #[trigger] rec[i] == 0 by {
        assert(rec[30 + (i - 30)] == zeros[i - 30]);
    }
    assert(rec.skip(46) =~= rec.subrange(46, 46 + name.len() as int));
}

/// The bytes of an end record: mark, first disk, the number of entries twice, the length and
/// the place of the directory, no comment.
pub proof fn law_end_record_bytes(count: u16, offset: u32, size: u32)
    ensures
        ({
            let rec = zip_util::end_record(count, offset, size);
            &&& rec.len() == 22
            &&& rec[0] == 0x50 && rec[1] == 0x4B && rec[2] == 5 && rec[3] == 6
            &&& rec[4] == 0 && rec[5] == 0 && rec[6] == 0 && rec[7] == 0
            &&& rec[8] == count % 256 && rec[9] == count / 256
            &&& rec[10] == count % 256 && rec[11] == count / 256
            &&& rec[12] == size % 256 && rec[13] == size / 256 % 256
            &&& rec[14] == size / 0x1_0000 % 256 && rec[15] == size / 0x100_0000
            &&& rec[16] == offset % 256 && rec[17] == offset / 256 % 256
            &&& rec[18] == offset / 0x1_0000 % 256 && rec[19] == offset / 0x100_0000
            &&& rec[20] == 0 && rec[21] == 0
        }),
{
    let rec = zip_util::end_record(count, offset, size);
    let mark = bytes::le32(0x0605_4b50);
    let disk = bytes::le32(0);
    let number = bytes::le16(count as int);
    let length = bytes::le32(size as int);
    let place = bytes::le32(offset as int);
    let none = bytes::le16(0);
    directory::lemma_end_fields(count, offset, size);
    lemma_mark_bytes();
    lemma_four_bytes(0);
    lemma_four_bytes(size);
    lemma_four_bytes(offset);
    lemma_part_bytes(rec, 0, mark);
    lemma_part_bytes(rec, 4, disk);
    lemma_part_bytes(rec, 8, number);
    lemma_part_bytes(rec, 10, number);
    lemma_part_bytes(rec, 12, length);
    lemma_part_bytes(rec, 16, place);
    lemma_part_bytes(rec, 20, none);
    assert(mark[0] == rec[0] && mark[1] == rec[1] && mark[2] == rec[2] && mark[3]
        == rec[3]);
    assert(disk[0] == rec[4] && disk[1] == rec[5] && disk[2] == rec[6] && disk[3]
        == rec[7]);
    assert(number[0] == rec[8] && number[1] == rec[9]);
    assert(number[0] == rec[10] && number[1] == rec[11]);
    assert(length[0] == rec[12] && length[1] == rec[13] && length[2] == rec[14]
        && length[3] == rec[15]);
    assert(place[0] == rec[16] && place[1] == rec[17] && place[2] == rec[18] && place[3]
        == rec[19]);
    assert(none[0] == rec[20] && none[1] == rec[21]);
}

/// An archive is made of the local records of its files, the directory with an entry for
/// each, and the end record, with nothing in front, in between or behind. The entry tells
/// where the local record begins and what that tells; numbers that do not fit their field are
/// cut to its width.
pub proof fn law_archive_is_records_directory_end(files: Seq<FileModel>, i: int)
    requires
        0 <= i < files.len(),
    ensures
        ({
            let a = zip_util::archive(files);
            let f = files[i];
            let name = vstd::utf8::encode_utf8(f.name);
            let packed = unpack::deflated(f.data);
            let crc = checksum::crc32_of(f.data);
            let size = (f.data.len() % 0x1_0000_0000) as u32;
            let locals = zip_util::local_records(files, files.len()).len();
            let centrals = zip_util::central_records(files, files.len()).len();
            let before = zip_util::local_records(files, i as nat).len();
            let listed = zip_util::central_records(files, i as nat).len();
            let part = zip_util::local_record(name, packed, crc, size);
            let entry = zip_util::central_record(
                name,
                (before % 0x1_0000_0000) as u32,
                (packed.len() % 0x1_0000_0000) as u32,
                size,
                crc,
            );
            let end = zip_util::end_record(
                (files.len() % 0x1_0000) as u16,
                (locals % 0x1_0000_0000) as u32,
                (centrals % 0x1_0000_0000) as u32,
            );
            &&& zip_util::local_records(files, 0).len() == 0
            &&& zip_util::local_records(files, (i + 1) as nat).len() == before + part.len()
            &&& bytes::holds_at(a, before as int, part)
            &&& zip_util::central_records(files, 0).len() == 0
            &&& zip_util::central_records(files, (i + 1) as nat).len() == listed + entry.len()
            &&& bytes::holds_at(a, locals + listed as int, entry)
            &&& bytes::holds_at(a, locals + centrals as int, end)
            &&& a.len() == locals + centrals + end.len()
        }),
{
    let n = files.len();
    let a = zip_util::archive(files);
    let locals = zip_util::local_records(files, n);
    let centrals = zip_util::central_records(files, n);
    let at = locals.len() as int;
    let e = at + centrals.len();
    zip_util::lemma_local_records_held(files, i as nat, n);
    directory::lemma_central_held(files, i as nat, n);
    assert(a.subrange(0, at) =~= locals);
    assert(a.subrange(at, e) =~= centrals);
    assert(a.subrange(e, a.len() as int) =~= a.skip(e));
    zip_util::lemma_held_part(
        a,
        0,
        locals,
        zip_util::local_records(files, i as nat).len() as int,
        zip_util::file_record(files[i]),
    );
    zip_util::lemma_held_part(
        a,
        at,
        centrals,
        zip_util::central_records(files, i as nat).len() as int,
        directory::central_of(files, i as nat),
    );
    let end = zip_util::end_record(
        zip_util::low16(n),
        zip_util::low32(locals.len()),
        zip_util::low32(centrals.len()),
    );
    assert(a.subrange(e, e + end.len()) =~= end);
}

} // verus!
