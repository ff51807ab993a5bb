use loxam::zip_util::{
    create_zip, crc32, find_crlf_positions, is_valid_zip_signature, parse_and_validate,
    parse_records, parse_zip64_sizes, write_central_dir_entry, write_eocd, write_local_header,
    ParseError,
};

/// A local header, the name, the extra field and the packed contents.
fn entry(name: &[u8], method: u16, crc: u32, sizes: (u32, u32), extra: &[u8], packed: &[u8]) -> Vec<u8> {
    let mut v: Vec<u8> = Vec::new();
    v.extend_from_slice(&[0x50, 0x4B, 3, 4]);
    v.extend_from_slice(&20u16.to_le_bytes());
    v.extend_from_slice(&0u16.to_le_bytes());
    v.extend_from_slice(&method.to_le_bytes());
    v.extend_from_slice(&[0, 0, 0, 0]);
    v.extend_from_slice(&crc.to_le_bytes());
    v.extend_from_slice(&sizes.0.to_le_bytes());
    v.extend_from_slice(&sizes.1.to_le_bytes());
    v.extend_from_slice(&(name.len() as u16).to_le_bytes());
    v.extend_from_slice(&(extra.len() as u16).to_le_bytes());
    v.extend_from_slice(name);
    v.extend_from_slice(extra);
    v.extend_from_slice(packed);
    v
}

#[test]
fn checksum_of_known_texts() {
    assert_eq!(crc32(b"123456789"), 0xCBF4_3926);
    assert_eq!(crc32(b""), 0);
    assert_eq!(crc32(b"hello"), 0x3610_A686);
}

#[test]
fn signature_is_the_first_four_bytes() {
    assert!(is_valid_zip_signature(b"PK\x03\x04"));
    assert!(is_valid_zip_signature(b"PK\x03\x04rest"));
    assert!(!is_valid_zip_signature(b"PK\x03"));
    assert!(!is_valid_zip_signature(b"PK\x01\x02"));
    assert!(!is_valid_zip_signature(b""));
}

#[test]
fn crlf_positions_are_those_of_the_carriage_returns() {
    assert_eq!(find_crlf_positions(b"\r\na\r\rb\r\n\r"), vec![0, 6]);
    assert_eq!(find_crlf_positions(b"\r\r\n"), vec![1]);
    assert_eq!(find_crlf_positions(b"\r"), Vec::<usize>::new());
    assert_eq!(find_crlf_positions(b""), Vec::<usize>::new());
}

#[test]
fn written_records_byte_for_byte() {
    let mut v: Vec<u8> = Vec::new();
    write_local_header(&mut v, b"n.t", b"XY", 0x0102_0304, 7);
    assert_eq!(v, entry(b"n.t", 8, 0x0102_0304, (2, 7), b"", b"XY"));

    let mut v: Vec<u8> = vec![9];
    write_central_dir_entry(&mut v, b"ab", 0x1122_3344, 5, 6, 0xAABB_CCDD);
    let mut want: Vec<u8> = vec![
        9, 0x50, 0x4B, 1, 2, 20, 0, 20, 0, 0, 0, 8, 0, 0, 0, 0, 0, 0xDD, 0xCC, 0xBB, 0xAA, 5, 0, 0, 0,
        6, 0, 0, 0, 2, 0, 0, 0, 0, 0, 0, 0, 0, 0, 0, 0, 0, 0, 0x44, 0x33, 0x22, 0x11,
    ];
    want.extend_from_slice(b"ab");
    assert_eq!(v, want);

    let mut v: Vec<u8> = Vec::new();
    write_eocd(&mut v, 3, 0x0102_0304, 0x0506_0708);
    assert_eq!(
        v,
        vec![0x50, 0x4B, 5, 6, 0, 0, 0, 0, 3, 0, 3, 0, 8, 7, 6, 5, 4, 3, 2, 1, 0, 0]
    );
}

#[test]
fn archive_reads_back() {
    let a: Vec<u8> = b"some text, some text, some text\n".to_vec();
    let b: Vec<u8> = (0..5000u32).map(|i| (i * i % 251) as u8).collect();
    let files: Vec<(&str, &[u8])> = vec![("a.txt", &a), ("dir/\u{e9}.bin", &b), ("empty", b"")];
    let zip = create_zip(&files);
    let parsed = parse_and_validate(&zip).ok().unwrap();
    assert_eq!(parsed.entries.len(), 3);
    for (entry, (name, data)) in parsed.entries.iter().zip(&files) {
        assert_eq!(entry.name, *name);
        assert_eq!(entry.crc32_expected, crc32(data));
        assert_eq!(entry.crc32_actual, Some(crc32(data)));
        assert_eq!(entry.uncompressed_size, data.len() as u64);
        assert!(entry.crc_ok());
    }
    // packed, and small for text that repeats
    assert!(parsed.entries[0].compressed_size < 32);
    // the directory and its end follow
    assert_eq!(&zip[zip.len() - 22..zip.len() - 18], &[0x50, 0x4B, 5, 6]);
}

#[test]
fn archive_of_no_files_is_only_the_end() {
    let zip = create_zip(&[]);
    assert_eq!(zip.len(), 22);
    assert!(!is_valid_zip_signature(&zip));
    assert_eq!(parse_and_validate(&zip).ok().unwrap().entries.len(), 0);
}

#[test]
fn packed_contents_come_from_deflate() {
    let data: Vec<u8> = vec![b'q'; 1000];
    let zip = create_zip(&[("q", &data)]);
    let records = parse_records(&zip).ok().unwrap();
    let packed = &zip[records[0].start..records[0].end];
    assert_eq!(records[0].start, 31);
    assert_eq!(packed, &miniz_oxide::deflate::compress_to_vec(&data, 6)[..]);
}

#[test]
fn stored_and_other_methods() {
    let crc = crc32(b"hello");
    let mut zip = entry(b"s", 0, crc, (5, 5), b"", b"hello");
    zip.extend(entry(b"lzma", 14, crc, (5, 5), b"", b"hello"));
    zip.extend(entry(b"bad", 8, crc, (5, 5), b"", b"\xFF\xFF\xFF\xFF\xFF"));
    let parsed = parse_and_validate(&zip).ok().unwrap();
    assert_eq!(parsed.entries.len(), 3);
    assert_eq!(parsed.entries[0].crc32_actual, Some(crc));
    assert!(parsed.entries[0].crc_ok());
    assert_eq!(parsed.entries[1].crc32_actual, None);
    assert!(!parsed.entries[1].crc_ok());
    assert_eq!(parsed.entries[2].crc32_actual, None);
    assert!(!parsed.entries[2].crc_ok());
}

#[test]
fn name_that_is_not_utf8() {
    let zip = entry(b"a\xFFb", 0, crc32(b""), (0, 0), b"", b"");
    let parsed = parse_and_validate(&zip).ok().unwrap();
    assert_eq!(parsed.entries[0].name, "a\u{FFFD}b");
}

#[test]
fn sizes_from_the_extra_field() {
    let crc = crc32(b"hello");
    let mut extra: Vec<u8> = vec![9, 9, 2, 0, 7, 7, 1, 0, 16, 0];
    extra.extend_from_slice(&6u64.to_le_bytes());
    extra.extend_from_slice(&5u64.to_le_bytes());
    let zip = entry(b"s", 0, crc, (0xFFFF_FFFF, 0xFFFF_FFFF), &extra, b"hello");
    let records = parse_records(&zip).ok().unwrap();
    assert_eq!(records[0].entry.compressed_size, 5);
    assert_eq!(records[0].entry.uncompressed_size, 6);
    assert_eq!((records[0].start, records[0].end), (31 + extra.len(), zip.len()));
    assert!(records[0].entry.crc_ok());
}

#[test]
fn zip64_record_alone() {
    let mut extra: Vec<u8> = vec![1, 0, 8, 0];
    extra.extend_from_slice(&0x1_0000_0001u64.to_le_bytes());
    assert_eq!(parse_zip64_sizes(&extra, true, true), (Some(0x1_0000_0001), None));
    assert_eq!(parse_zip64_sizes(&extra, false, true), (None, Some(0x1_0000_0001)));
    assert_eq!(parse_zip64_sizes(&extra, false, false), (None, None));
    // cut short
    assert_eq!(parse_zip64_sizes(&extra[..11], true, true), (None, None));
    assert_eq!(parse_zip64_sizes(&[], true, true), (None, None));
    assert_eq!(parse_zip64_sizes(&[2, 0, 0, 0, 1, 0, 0], true, true), (None, None));
}

#[test]
fn truncated_header() {
    let mut zip = entry(b"s", 0, crc32(b"hello"), (5, 5), b"", b"hello");
    zip.extend_from_slice(b"PK\x03\x04xx");
    let e = parse_and_validate(&zip).err().unwrap();
    assert!(matches!(e, ParseError::HeaderTruncated { offset: 36 }));
    assert_eq!(e.message(), "Local header truncated at offset 36");
}

#[test]
fn header_beyond_the_data() {
    let zip = &entry(b"long name", 0, 0, (0, 0), b"", b"")[..32];
    let e = parse_and_validate(zip).err().unwrap();
    assert!(matches!(e, ParseError::HeaderBeyondData { offset: 0 }));
    assert_eq!(e.message(), "Header extends beyond data at offset 0");
}

#[test]
fn contents_beyond_the_file() {
    let zip = entry(b"s", 0, 0, (100, 100), b"", b"hello");
    let e = parse_and_validate(&zip).err().unwrap();
    assert!(matches!(e, ParseError::DataBeyondFile { need: 100, offset: 31, have: 36, .. }));
    assert_eq!(
        e.message(),
        "Compressed data extends beyond file for 's' (need 100 bytes from offset 31, have 36)"
    );
}

#[test]
fn size_beyond_all_bounds_is_an_error() {
    let mut extra: Vec<u8> = vec![1, 0, 16, 0];
    extra.extend_from_slice(&[0xFF; 16]);
    let zip = entry(b"s", 0, 0, (0xFFFF_FFFF, 0xFFFF_FFFF), &extra, b"hello");
    let e = parse_and_validate(&zip).err().unwrap();
    assert!(matches!(e, ParseError::DataBeyondFile { need: u64::MAX, .. }));
}
