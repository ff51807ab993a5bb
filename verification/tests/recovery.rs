use loxam::corrupt::corrupt;
use loxam::headers::stabilize_headers;
use loxam::per_file::FileFix;
use loxam::recover::{
    begin, conclude, recover, recover_with_beam_width, try_patch_remaining, validate_as_zip,
    RecoverError, RecoveryResult, Start,
};
use loxam::selftest::count_natural_crlf;
use loxam::zip_util::{crc32, create_zip, find_crlf_positions, parse_and_validate, parse_records};

/// An entry that is stored as it is.
fn stored(name: &str, data: &[u8]) -> Vec<u8> {
    let mut v: Vec<u8> = vec![0x50, 0x4B, 3, 4, 20, 0, 0, 0, 0, 0, 0, 0, 0, 0];
    v.extend_from_slice(&crc32(data).to_le_bytes());
    v.extend_from_slice(&(data.len() as u32).to_le_bytes());
    v.extend_from_slice(&(data.len() as u32).to_le_bytes());
    v.extend_from_slice(&(name.len() as u16).to_le_bytes());
    v.extend_from_slice(&[0, 0]);
    v.extend_from_slice(name.as_bytes());
    v.extend_from_slice(data);
    v
}

fn noise(seed: u32, size: usize) -> Vec<u8> {
    let mut state: u32 = seed;
    (0..size)
        .map(|_| {
            state = state.wrapping_mul(1664525).wrapping_add(1013904223);
            b"abcdefghijklmnopqrstuvwxyz0123456789"[(state >> 16) as usize % 36]
        })
        .collect()
}

/// An archive of one file with `pairs` carriage returns in front of line feeds in its
/// packed contents and none elsewhere.
fn archive_with_pairs(name: &str, pairs: usize) -> Vec<u8> {
    for seed in 0..100_000u32 {
        let zip = create_zip(&[(name, &noise(seed, 1500))]);
        let records = parse_records(&zip).ok().unwrap();
        let inside = count_natural_crlf(&zip[records[0].start..records[0].end]);
        if inside == pairs && count_natural_crlf(&zip) == pairs {
            return zip;
        }
    }
    panic!("no such archive");
}

fn recovered(data: &[u8]) -> RecoveryResult {
    match recover(data) {
        Ok(r) => r,
        Err(e) => panic!("{}", e.message()),
    }
}

#[test]
fn archive_without_damage() {
    let zip = stored("a", b"hello");
    assert!(find_crlf_positions(&zip).is_empty());
    let r = recovered(&zip);
    assert_eq!(r.data, zip);
    assert_eq!(r.strategy, "no_corruption");
    assert_eq!(r.attempts, 0);
}

#[test]
fn no_archive_and_nothing_to_drop() {
    assert_eq!(recover(b"hello").err(), Some(RecoverError::NotAZip));
    assert_eq!(recover(b"").err(), Some(RecoverError::NotAZip));
}

#[test]
fn dropping_all() {
    let zip = stored("a", b"line\nnext\n");
    let damaged = corrupt(&zip);
    assert_eq!(damaged.len(), zip.len() + 2 + zip[..31].iter().filter(|&&b| b == 10).count());
    let r = recovered(&damaged);
    assert_eq!(r.data, zip);
    assert_eq!(r.strategy, "remove_all");
    assert_eq!(r.attempts, 1);
}

#[test]
fn archives_without_natural_pairs_come_back() {
    let mut tried = 0;
    for seed in 0..60u32 {
        let a = noise(seed, 400);
        let b = noise(seed + 1000, 90);
        let zip = create_zip(&[("a.txt", &a), ("b.txt", &b)]);
        if count_natural_crlf(&zip) == 0 {
            assert_eq!(recovered(&corrupt(&zip)).data, zip);
            tried += 1;
        }
    }
    assert!(tried > 40);
}

#[test]
fn text_that_is_no_archive_is_not_recovered() {
    assert_eq!(recover(b"a\r\nb").err(), Some(RecoverError::Exhausted { crlfs: 1 }));
    assert!(matches!(
        begin(b"a\r\nb"),
        Start::Settled(Err(RecoverError::Exhausted { crlfs: 1 }))
    ));
    // the end of an archive without entries
    let mut zip = create_zip(&[]);
    zip.extend_from_slice(b"\r\n");
    assert_eq!(recover(&zip).err(), Some(RecoverError::Exhausted { crlfs: 1 }));
}

/// A header with a pair in its checksum field, a name, one byte of contents, a signature.
fn header_with_pair(version: u8, method: u8) -> Vec<u8> {
    vec![
        0x50, 0x4B, 0x03, 0x04, version, 0, 0, 0, method, 0, 0, 0, 0, 0, 0x0D, 0x0A, 0x11, 0x22, 1, 0,
        0, 0, 1, 0, 0, 0, 1, 0, 0, 0, 0x61, 0x78, 0x50, 0x4B, 0x01, 0x02,
    ]
}

#[test]
fn headers_of_unknown_version_or_method_are_not_believed() {
    for version in [20u8, 45] {
        for method in [0u8, 8] {
            assert_eq!(stabilize_headers(&header_with_pair(version, method), &[14]), vec![0]);
        }
    }
    assert_eq!(stabilize_headers(&header_with_pair(20, 12), &[14]), Vec::<usize>::new());
    assert_eq!(stabilize_headers(&header_with_pair(63, 8), &[14]), Vec::<usize>::new());
    // version 10 is itself a line feed, with a carriage return in front of it after damage
    let damaged = corrupt(&header_with_pair(10, 0));
    assert_eq!(find_crlf_positions(&damaged), vec![4, 15]);
    assert_eq!(stabilize_headers(&damaged, &[4, 15]), vec![1]);
}

#[test]
fn pair_in_a_header_is_kept() {
    // the checksum of these contents is EC 0D 0A 6F in the header
    let mut zip = stored("a", b"line 295894\nend");
    zip.extend(stored("b", b"hello"));
    assert_eq!(count_natural_crlf(&zip), 1);
    let damaged = corrupt(&zip);
    let crlf = find_crlf_positions(&damaged);
    assert_eq!(crlf.len(), 2);
    assert_eq!(stabilize_headers(&damaged, &crlf), vec![0]);
    let r = recovered(&damaged);
    assert_eq!(r.data, zip);
    assert_eq!(r.strategy, "header_stabilized(1_kept)");
    assert_eq!(r.attempts, 1);
}

#[test]
fn headers_without_pairs_keep_nothing() {
    let mut zip = stored("a", b"line\nnext");
    zip.extend(stored("b", b"x\r\ny"));
    let damaged = corrupt(&zip);
    let crlf = find_crlf_positions(&damaged);
    assert_eq!(stabilize_headers(&damaged, &crlf), Vec::<usize>::new());
}

#[test]
fn crowded_headers_are_left_alone() {
    let mut data: Vec<u8> = b"PK\x03\x04".to_vec();
    data.extend_from_slice(&[0; 10]);
    for _ in 0..13 {
        data.extend_from_slice(b"\r\n");
    }
    data.extend_from_slice(&[0; 40]);
    data.extend_from_slice(b"PK\x01\x02");
    let crlf = find_crlf_positions(&data);
    assert_eq!(crlf.len(), 13);
    assert_eq!(stabilize_headers(&data, &crlf), Vec::<usize>::new());
}

#[test]
fn fewest_pairs_are_kept_in_a_header() {
    // dropping both pairs already makes a header that can be believed: contents of ten
    // bytes, a name of ten
    let mut data: Vec<u8> = b"PK\x03\x04\x14".to_vec();
    data.extend_from_slice(&[0; 9]);
    data.extend_from_slice(b"abcd\r\n\0\0\0\r\n\0\0\0\x0A\0\0\0");
    data.extend_from_slice(b"0123456789");
    data.extend_from_slice(b"ABCDEFGHIJ");
    data.extend_from_slice(b"PK\x03\x04");
    let crlf = find_crlf_positions(&data);
    assert_eq!(crlf, vec![18, 23]);
    assert_eq!(stabilize_headers(&data, &crlf), Vec::<usize>::new());
    // with the first pair kept the size would be far too large, and with contents of
    // eleven bytes nothing fits
    data.insert(45, b'x');
    let crlf = find_crlf_positions(&data);
    assert_eq!(stabilize_headers(&data, &crlf), Vec::<usize>::new());
}

#[test]
fn pair_in_packed_contents_is_kept() {
    let zip = archive_with_pairs("a.txt", 1);
    let r = recovered(&corrupt(&zip));
    assert_eq!(r.data, zip);
    assert_eq!(r.strategy, "per_file_dfs(1_kept)");
    assert!(r.attempts > 0);
}

#[test]
fn two_pairs_in_packed_contents_are_kept() {
    let zip = archive_with_pairs("a.txt", 2);
    let r = recovered(&corrupt(&zip));
    assert_eq!(r.data, zip);
    assert_eq!(r.strategy, "per_file_dfs(2_kept)");
}

#[test]
fn pair_is_kept_behind_an_extra_field() {
    let plain = archive_with_pairs("a.txt", 1);
    let records = parse_records(&plain).ok().unwrap();
    // the same entry with an extra field, then a signature
    let mut zip: Vec<u8> = plain[..28].to_vec();
    zip.extend_from_slice(&[6, 0]);
    zip.extend_from_slice(&plain[30..records[0].start]);
    zip.extend_from_slice(&[9, 9, 2, 0, 1, 1]);
    zip.extend_from_slice(&plain[records[0].start..]);
    assert!(validate_as_zip(&zip));
    let r = recovered(&corrupt(&zip));
    assert_eq!(r.data, zip);
    assert_eq!(r.strategy, "per_file_dfs(1_kept)");
}

#[test]
fn pair_is_kept_in_an_entry_with_zip64_sizes() {
    let plain = archive_with_pairs("a.txt", 1);
    let records = parse_records(&plain).ok().unwrap();
    let mut zip: Vec<u8> = plain[..18].to_vec();
    zip.extend_from_slice(&[0xFF; 8]);
    zip.extend_from_slice(&plain[26..28]);
    zip.extend_from_slice(&[20, 0]);
    zip.extend_from_slice(&plain[30..records[0].start]);
    zip.extend_from_slice(&[1, 0, 16, 0]);
    zip.extend_from_slice(&records[0].entry.uncompressed_size.to_le_bytes());
    zip.extend_from_slice(&records[0].entry.compressed_size.to_le_bytes());
    zip.extend_from_slice(&plain[records[0].start..]);
    assert!(validate_as_zip(&zip));
    let r = recovered(&corrupt(&zip));
    assert_eq!(r.data, zip);
    assert_eq!(r.strategy, "per_file_dfs(1_kept)");
}

#[test]
fn pair_in_front_of_a_sound_file_comes_back() {
    let one = archive_with_pairs("a.txt", 1);
    let end = parse_records(&one).ok().unwrap()[0].end;
    let mut zip: Vec<u8> = one[..end].to_vec();
    zip.extend(stored("b", b"hello"));
    let damaged = corrupt(&zip);
    let r = recovered(&damaged);
    assert_eq!(r.data, zip);
    assert!(validate_as_zip(&r.data));
}

#[test]
fn single_pair_anywhere_when_headers_cannot_be_followed() {
    let zip = stored("a", b"a\r\nb");
    let r = recovered(&corrupt(&zip));
    assert_eq!(r.data, zip);
    assert_eq!(r.strategy, "keep_one_global_0");
    assert_eq!(r.attempts, 1);

    let mut zip = stored("a", b"line\nnext");
    zip.extend(stored("b", b"a\r\nb"));
    let r = recovered(&corrupt(&zip));
    assert_eq!(r.data, zip);
    assert_eq!(r.strategy, "keep_one_global_1");
    assert_eq!(r.attempts, 2);
}

#[test]
fn one_more_pair_is_patched_in() {
    let packed = archive_with_pairs("a.txt", 1);
    let end = parse_records(&packed).ok().unwrap()[0].end;
    let mut zip: Vec<u8> = packed[..end].to_vec();
    zip.extend(stored("b", b"x\r\ny"));
    let r = recovered(&corrupt(&zip));
    assert_eq!(r.data, zip);
    assert_eq!(r.strategy, "patched(1_+1)");
    assert_eq!(r.attempts, 1);
}

#[test]
fn two_more_pairs_are_patched_in() {
    let packed = archive_with_pairs("a.txt", 1);
    let end = parse_records(&packed).ok().unwrap()[0].end;
    let mut zip: Vec<u8> = packed[..end].to_vec();
    zip.extend(stored("b", b"x\r\ny\r\nz"));
    let r = recovered(&corrupt(&zip));
    assert_eq!(r.data, zip);
    assert_eq!(r.strategy, "patched(1_+2fast)");
}

#[test]
fn pairs_are_tried_in_order() {
    let mut zip = stored("a", b"1\n2\r\n3\r\n4\n5");
    zip.extend_from_slice(b"PK\x01\x02");
    let damaged = corrupt(&zip);
    let crlf = find_crlf_positions(&damaged);
    assert_eq!(crlf.len(), 4);
    let r = try_patch_remaining(&damaged, &crlf, &[]).unwrap();
    assert_eq!(r.data, zip);
    assert_eq!(r.strategy, "patched(0_+2fast)");
    // (0, 1), (0, 2) and (0, 3) come before (1, 2)
    assert_eq!(r.attempts, 3);
    let r = try_patch_remaining(&damaged, &crlf, &[2]).unwrap();
    assert_eq!(r.data, zip);
    assert_eq!(r.strategy, "patched(1_+1)");
}

#[test]
fn nothing_helps() {
    assert_eq!(
        recover(b"PK\x03\x04\r\n").err(),
        Some(RecoverError::Exhausted { crlfs: 1 })
    );
    // three pairs in a stored entry, in data whose headers cannot be followed
    let zip = stored("a", b"1\r\n2\r\n3\r\n4");
    assert_eq!(recover(&zip).err(), Some(RecoverError::Exhausted { crlfs: 3 }));
}

#[test]
fn what_is_recovered_is_intact() {
    for seed in 0..12u32 {
        let zip = create_zip(&[("a.txt", &noise(seed, 3000)), ("b.png", &noise(seed + 50, 200))]);
        let damaged = corrupt(&zip);
        if let Ok(r) = recover(&damaged) {
            assert!(validate_as_zip(&r.data));
            let parsed = parse_and_validate(&r.data).ok().unwrap();
            assert!(parsed.entries.iter().all(|e| e.crc_ok()));
            let thin = |d: &[u8]| {
                let mut v: Vec<u8> = d.to_vec();
                v.retain(|&b| b != 13);
                v
            };
            assert_eq!(thin(&r.data), thin(&damaged));
        }
    }
}

fn settled(start: Start) -> Result<RecoveryResult, RecoverError> {
    match start {
        Start::Settled(result) => result,
        Start::Files(_) => panic!("files are left to fix"),
    }
}

/// An entry whose packed contents are a single stored block.
fn packed_as_is(name: &str, data: &[u8]) -> Vec<u8> {
    let n = data.len() as u16;
    let mut packed: Vec<u8> = vec![1];
    packed.extend_from_slice(&n.to_le_bytes());
    packed.extend_from_slice(&(!n).to_le_bytes());
    packed.extend_from_slice(data);
    let mut v: Vec<u8> = vec![0x50, 0x4B, 3, 4, 20, 0, 0, 0, 8, 0, 0, 0, 0, 0];
    v.extend_from_slice(&crc32(data).to_le_bytes());
    v.extend_from_slice(&(packed.len() as u32).to_le_bytes());
    v.extend_from_slice(&(data.len() as u32).to_le_bytes());
    v.extend_from_slice(&(name.len() as u16).to_le_bytes());
    v.extend_from_slice(&[0, 0]);
    v.extend_from_slice(name.as_bytes());
    v.extend_from_slice(&packed);
    v
}

/// Three files with two, two and three natural pairs.
fn archive_with_pairs_in_three_files() -> Vec<u8> {
    let mut zip = packed_as_is("a", b"one\r\ntwo\nthree\r\nfour and on to the end");
    zip.extend_from_slice(&packed_as_is("b", b"five\nsix\r\nseven\r\neight, and on"));
    zip.extend_from_slice(&packed_as_is("c", b"nine\r\nten\neleven\r\ntwelve\r\nthirteen"));
    zip.extend_from_slice(&create_zip(&[]));
    assert!(validate_as_zip(&zip));
    assert_eq!(count_natural_crlf(&zip), 7);
    zip
}

#[test]
fn pairs_in_several_files_come_back() {
    let zip = archive_with_pairs_in_three_files();
    let damaged = corrupt(&zip);
    let r = recovered(&damaged);
    assert_eq!(r.data, zip);
    assert_eq!(r.strategy, "per_file_dfs(7_kept)");

    // one file is found in each round, and the attempts add up
    let mut names: Vec<String> = Vec::new();
    let mut attempts: u64 = 0;
    let mut start = begin(&damaged);
    while let Start::Files(plan) = start {
        assert_eq!(plan.file_count(), 1);
        names.push(plan.file_name(0).to_string());
        let fixes: Vec<FileFix> = vec![plan.fix_file(0, 2000)];
        attempts += fixes[0].attempts;
        start = conclude(plan, fixes);
    }
    assert_eq!(names, vec!["a", "b", "c"]);
    let steps = settled(start).ok().unwrap();
    assert_eq!(steps.data, zip);
    assert_eq!(steps.attempts, attempts);
    assert_eq!(r.attempts, attempts);
}

#[test]
fn pairs_in_many_packed_files_come_back() {
    // five files with one pair each: three rounds, and patching for the last two
    let names = ["a", "b", "c", "d", "e"];
    let mut seed: u32 = 0;
    let mut texts: Vec<Vec<u8>> = Vec::new();
    while texts.len() < 5 {
        let text = noise(seed, 1500);
        seed += 1;
        let zip = create_zip(&[("x", &text)]);
        let records = parse_records(&zip).ok().unwrap();
        if count_natural_crlf(&zip[records[0].start..records[0].end]) == 1 {
            texts.push(text);
        }
    }
    let files: Vec<(&str, &[u8])> =
        names.iter().zip(&texts).map(|(n, t)| (*n, t.as_slice())).collect();
    let zip = create_zip(&files);
    assert_eq!(count_natural_crlf(&zip), 5);
    let r = recovered(&corrupt(&zip));
    assert_eq!(r.data, zip);
    assert_eq!(r.strategy, "patched(3_+2fast)");
}

#[test]
fn rounds_end_where_a_file_cannot_be_fixed() {
    // the second file's checksum is that of other contents
    let mut zip = archive_with_pairs_in_three_files();
    let second = parse_records(&zip).ok().unwrap()[0].end;
    zip[second + 14] ^= 0x80;
    let damaged = corrupt(&zip);
    let crlfs = find_crlf_positions(&damaged).len();
    assert_eq!(recover(&damaged).err(), Some(RecoverError::Exhausted { crlfs }));
}

#[test]
fn recovery_in_steps_gives_the_same() {
    let zip = archive_with_pairs("a.txt", 1);
    let damaged = corrupt(&zip);
    let whole = recovered(&damaged);
    match begin(&damaged) {
        Start::Settled(_) => panic!("no file needs a fix"),
        Start::Files(plan) => {
            assert_eq!(plan.file_count(), 1);
            assert_eq!(plan.file_name(0), "a.txt");
            let fixes: Vec<FileFix> = vec![plan.fix_file(0, 2000)];
            let r = settled(conclude(plan, fixes)).ok().unwrap();
            assert_eq!(r.data, whole.data);
            assert_eq!(r.strategy, whole.strategy);
            assert_eq!(r.attempts, whole.attempts);
        }
    }
    match begin(&damaged) {
        Start::Settled(_) => panic!("no file needs a fix"),
        Start::Files(plan) => {
            let fixes: Vec<FileFix> = vec![FileFix { inserts: None, attempts: 5 }];
            let crlfs = find_crlf_positions(&damaged).len();
            assert_eq!(
                settled(conclude(plan, fixes)).err(),
                Some(RecoverError::Exhausted { crlfs })
            );
        }
    }
    assert!(matches!(begin(&zip), Start::Files(_)));
    assert!(matches!(begin(b"hello"), Start::Settled(Err(RecoverError::NotAZip))));
}

#[test]
fn narrow_beam_still_finds_a_single_pair() {
    let zip = archive_with_pairs("a.txt", 1);
    let r = recover_with_beam_width(&corrupt(&zip), 1).ok().unwrap();
    assert_eq!(r.data, zip);
}
