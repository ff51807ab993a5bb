use loxam::beam::beam_search_fix_section;
use loxam::candidate::{BeamCandidate, FeedErr, Output, Step};
use loxam::keep::dfs_fix_section_fallback;
use loxam::png::PngValidator;
use loxam::unpack::{try_decompress_check, InflateStatus, WINDOW_SIZE};
use loxam::zip_util::crc32;
use rand::seq::SliceRandom;
use rand::SeedableRng;

/// A deflate stream of a single stored block.
fn stored_block(data: &[u8]) -> Vec<u8> {
    let len = data.len() as u16;
    let mut v: Vec<u8> = vec![1];
    v.extend_from_slice(&len.to_le_bytes());
    v.extend_from_slice(&(!len).to_le_bytes());
    v.extend_from_slice(data);
    v
}

fn line_feeds(data: &[u8]) -> Vec<usize> {
    (0..data.len()).filter(|&i| data[i] == 10).collect()
}

fn without(data: &[u8], at: &[usize]) -> Vec<u8> {
    (0..data.len()).filter(|i| !at.contains(i)).map(|i| data[i]).collect()
}

#[test]
fn unpacking_with_a_checksum() {
    let data = b"some text, some text";
    let packed = miniz_oxide::deflate::compress_to_vec(data, 6);
    assert!(try_decompress_check(&packed, crc32(data)));
    assert!(!try_decompress_check(&packed, crc32(data) ^ 1));
    assert!(!try_decompress_check(&packed[..3], crc32(data)));
}

#[test]
fn candidate_reads_a_stream_in_pieces() {
    let data: Vec<u8> = (0..100_000u32).map(|i| (i % 7 + i % 11) as u8).collect();
    let packed = miniz_oxide::deflate::compress_to_vec(&data, 6);
    let mut c = BeamCandidate::new(false, None);
    let n = packed.len();
    for (i, piece) in packed.chunks(17).enumerate() {
        assert_eq!(c.feed(piece, (i + 1) * 17 < n), Ok(()));
    }
    assert!(c.finished_at(100_000));
    assert!(!c.finished_at(99_999));
    assert_eq!(c.checksum(), crc32(&data));
    assert!(c.ends_with_trailer(&data[data.len() - 20..]));
    assert!(!c.ends_with_trailer(b"xyz"));
    assert_eq!(c.feed(b"", false), Ok(()));
    assert_eq!(c.feed(b"x", false), Err(FeedErr::UnexpectedDone));
    assert_eq!(c.feed(b"x", true), Err(FeedErr::UnexpectedDone));
    // and it stays as it was
    assert!(c.finished_at(100_000));
    assert_eq!(c.checksum(), crc32(&data));
}

#[test]
fn pieces_agree_with_one_go() {
    let data: Vec<u8> = (0..90_000u32).map(|i| (i * i >> 7) as u8 ^ (i % 13) as u8).collect();
    let packed = miniz_oxide::deflate::compress_to_vec(&data, 6);
    for cut in [0, 1, 2, 17, packed.len() / 2, packed.len() - 1] {
        let mut c = BeamCandidate::new(false, None);
        assert_eq!(c.feed(&packed[..cut], true), Ok(()));
        assert_eq!(c.feed(&packed[cut..], false), Ok(()));
        let out = miniz_oxide::inflate::decompress_to_vec(&packed).ok().unwrap();
        assert!(c.finished_at(out.len() as u64));
        assert_eq!(c.checksum(), crc32(&out));
        assert_eq!(c.insert_count(), 0);
    }
}

#[test]
fn what_follows_from_a_reply() {
    let mut window: Vec<u8> = vec![0; WINDOW_SIZE];
    window[..3].copy_from_slice(b"abc");
    let run = |status: InflateStatus, consumed: usize, written: usize, offered: usize, more: bool| {
        Output::new(None).take_reply((status, consumed, written), &window, offered, more)
    };
    assert_eq!(run(InflateStatus::NeedsMoreInput, 5, 3, 5, true), Ok(Step::Paused));
    assert_eq!(run(InflateStatus::NeedsMoreInput, 5, 3, 5, false), Ok(Step::Again));
    assert_eq!(run(InflateStatus::NeedsMoreInput, 4, 3, 5, true), Ok(Step::Again));
    assert_eq!(run(InflateStatus::NeedsMoreInput, 0, 0, 5, true), Err(FeedErr::Stuck));
    assert_eq!(run(InflateStatus::HasMoreOutput, 0, 3, 5, true), Ok(Step::Again));
    assert_eq!(run(InflateStatus::HasMoreOutput, 0, 0, 0, true), Err(FeedErr::Stuck));
    assert_eq!(run(InflateStatus::Done, 5, 3, 5, true), Ok(Step::Finished));
    assert_eq!(run(InflateStatus::Done, 4, 3, 5, false), Ok(Step::Finished));
    assert_eq!(run(InflateStatus::Done, 4, 3, 5, true), Err(FeedErr::UnexpectedDone));
    for status in [
        InflateStatus::FailedCannotMakeProgress,
        InflateStatus::BadParam,
        InflateStatus::Adler32Mismatch,
        InflateStatus::Failed,
    ] {
        assert_eq!(run(status, 5, 3, 5, true), Err(FeedErr::BadStatus(status)));
    }
    let mut png = Output::new(Some(PngValidator::new()));
    assert_eq!(
        png.take_reply((InflateStatus::Done, 5, 3), &window, 5, false),
        Err(FeedErr::ContentInvalid)
    );
}

#[test]
fn candidate_errors() {
    // the reserved block type
    let mut c = BeamCandidate::new(false, None);
    assert_eq!(c.feed(&[0x07], true), Err(FeedErr::BadStatus(InflateStatus::Failed)));
    // the end in the middle of a chunk that is not the last
    let mut packed = stored_block(b"abc");
    packed.push(0);
    let mut c = BeamCandidate::new(false, None);
    assert_eq!(c.feed(&packed, true), Err(FeedErr::UnexpectedDone));
    // which leaves the candidate's account of its output in order
    assert!(c.finished_at(3));
    assert_eq!(c.checksum(), crc32(b"abc"));
    assert!(c.ends_with_trailer(b"bc"));
    // the same in the last chunk
    let mut c = BeamCandidate::new(false, None);
    assert_eq!(c.feed(&packed, false), Ok(()));
    assert!(c.finished_at(3));
    // contents that are no PNG
    let mut c = BeamCandidate::new(true, Some(PngValidator::new()));
    assert_eq!(c.feed(&stored_block(b"abc"), false), Err(FeedErr::ContentInvalid));
    // no end in the last chunk
    let mut c = BeamCandidate::new(false, None);
    assert!(c.feed(&stored_block(b"abc")[..6], false).is_err());
}

#[test]
fn more_output_comes_first_then_fewer_carriage_returns() {
    let mut a = BeamCandidate::new(false, None);
    let packed = stored_block(b"abc");
    assert_eq!(a.feed(&packed[..7], true), Ok(()));
    let mut b = a.fork();
    assert!(!a.is_ahead_of(&b) && !b.is_ahead_of(&a));
    b.note_insert(6);
    assert!(a.is_ahead_of(&b) && !b.is_ahead_of(&a));
    assert_eq!(b.feed(&packed[7..], false), Ok(()));
    assert!(b.is_ahead_of(&a) && !a.is_ahead_of(&b));
}

#[test]
fn fork_goes_its_own_way() {
    let mut a = BeamCandidate::new(false, None);
    let packed = stored_block(b"ab");
    assert_eq!(a.feed(&packed[..6], true), Ok(()));
    let mut b = a.fork();
    b.note_insert(6);
    assert_eq!(a.feed(b"b", false), Ok(()));
    assert_eq!(b.feed(b"c", false), Ok(()));
    assert_eq!(a.checksum(), crc32(b"ab"));
    assert_eq!(b.checksum(), crc32(b"ac"));
    assert_eq!((a.insert_count(), b.insert_count()), (0, 1));
    assert_eq!(b.into_inserts(), vec![6]);
}

#[test]
fn prefix_is_checked_as_far_as_it_is_there() {
    let packed = stored_block(b"GIF89a");
    let mut c = BeamCandidate::new(true, None);
    assert_eq!(c.feed(&packed[..7], true), Ok(()));
    assert!(c.check_prefix(b"GIF8"));
    assert_eq!(c.feed(&packed[7..], false), Ok(()));
    assert!(c.check_prefix(b"GIF8"));
    let mut c = BeamCandidate::new(true, None);
    assert_eq!(c.feed(&packed, false), Ok(()));
    assert!(!c.check_prefix(b"GIFX"));
}

#[test]
fn beam_puts_carriage_returns_back() {
    let data = b"one\r\ntwo\nthree\r\nfour\nfive six seven eight";
    let whole = stored_block(data);
    let base = without(&whole, &[8, 19]);
    let lfs = line_feeds(&base);
    let mut attempts: u64 = 0;
    let found = beam_search_fix_section(
        &base, crc32(data), data.len() as u64, &lfs, b"", b"", None, 2000, &mut attempts,
    );
    assert_eq!(found, Some(vec![lfs[0], lfs[2]]));
    // one, two, four and eight candidates, each forked in two
    assert_eq!(attempts, 2 * (1 + 2 + 4 + 8));
}

#[test]
fn beam_has_nothing_to_do_on_a_sound_section() {
    let data = b"one\r\ntwo\n";
    let whole = stored_block(data);
    let mut attempts: u64 = 7;
    let found = beam_search_fix_section(
        &whole, crc32(data), 9, &line_feeds(&whole), b"", b"", None, 2000, &mut attempts,
    );
    assert_eq!(found, Some(vec![]));
    assert_eq!(attempts, 7);
}

#[test]
fn beam_heeds_prefix_trailer_and_size() {
    let data = b"one\r\ntwo\nthree";
    let whole = stored_block(data);
    let base = without(&whole, &[8]);
    let lfs = line_feeds(&base);
    let run = |prefix: &[u8], trailer: &[u8], size: u64| {
        let mut attempts: u64 = 0;
        beam_search_fix_section(
            &base, crc32(data), size, &lfs, prefix, trailer, None, 2000, &mut attempts,
        )
    };
    assert_eq!(run(b"one\r\n", b"three", 14), Some(vec![lfs[0]]));
    assert_eq!(run(b"one\n", b"three", 14), None);
    assert_eq!(run(b"", b"thrXe", 14), None);
    assert_eq!(run(b"", b"", 13), None);
}

/// The insertions that are left of a beam that nothing but its width thins out.
fn beam_by_hand(lfs: &[usize], cap: usize) -> Vec<Vec<usize>> {
    let mut cands: Vec<Vec<usize>> = vec![vec![]];
    for (i, &lf) in lfs.iter().enumerate() {
        let mut next: Vec<Vec<usize>> = Vec::new();
        for c in &cands {
            next.push(c.clone());
            let mut with = c.clone();
            with.push(lf);
            next.push(with);
        }
        cands = next;
        if cands.len() > cap {
            let mut buckets: Vec<Vec<Vec<usize>>> = vec![vec![]; i + 2];
            for c in cands {
                buckets[c.len()].push(c);
            }
            buckets.retain(|b| !b.is_empty());
            buckets.sort_by_key(|b| b.len());
            let n = buckets.len();
            let mut budget = cap;
            let mut rng = rand::rngs::StdRng::seed_from_u64(0xC0DE_F00D ^ (i as u64));
            cands = Vec::new();
            if n > cap {
                cands = buckets.into_iter().flatten().collect();
            } else {
                for (idx, mut b) in buckets.into_iter().enumerate() {
                    let take = b.len().min(budget / (n - idx));
                    if b.len() > take {
                        let (sample, _) = b.partial_shuffle(&mut rng, take);
                        b = sample.to_vec();
                    }
                    budget -= b.len();
                    cands.append(&mut b);
                }
            }
            // in a stored block every byte taken is put out, put-back ones too
            cands.sort_by_key(|c| std::cmp::Reverse(c.len()));
            cands.truncate(cap);
        }
    }
    cands
}

#[test]
fn beam_keeps_what_the_seeded_sample_keeps() {
    let text = b"a\nb\nc\nd\ne\nf\ng\nand a tail that is long enough for all of them";
    let lfs = line_feeds(&stored_block(text));
    for cap in [1usize, 3, 8, 20, 128] {
        let left = beam_by_hand(&lfs, cap);
        let mut found_some = 0;
        for chosen in 1u32..128 {
            let inserts: Vec<usize> =
                (0..7).filter(|b| chosen >> b & 1 == 1).map(|b| lfs[b]).collect();
            // the text with these carriage returns, and the section that lacks them
            let mut data: Vec<u8> = Vec::new();
            for (i, &c) in text.iter().enumerate() {
                if inserts.contains(&(i + 5)) {
                    data.push(13);
                }
                data.push(c);
            }
            let mut base = stored_block(&data)[..5].to_vec();
            base.extend_from_slice(text);
            let mut attempts: u64 = 0;
            let found = beam_search_fix_section(
                &base, crc32(&data), data.len() as u64, &lfs, b"", b"", None, cap, &mut attempts,
            );
            if left.contains(&inserts) {
                assert_eq!(found, Some(inserts));
                found_some += 1;
            } else {
                assert_eq!(found, None);
            }
        }
        // a beam with room for all choices misses none
        assert_eq!(found_some == 127, cap == 128);
    }
}

#[test]
fn exhaustive_search_for_one_or_two() {
    let data = b"1\n2\r\n3\n4\r\n5\n6";
    let whole = stored_block(data);
    let one = without(&whole, &[8]);
    let mut attempts: u64 = 0;
    let found = dfs_fix_section_fallback(&one, crc32(data), &line_feeds(&one), &mut attempts);
    assert_eq!(found, Some(vec![8]));
    assert_eq!(attempts, 2);

    let two = without(&whole, &[8, 13]);
    let lfs = line_feeds(&two);
    let mut attempts: u64 = 0;
    let found = dfs_fix_section_fallback(&two, crc32(data), &lfs, &mut attempts);
    assert_eq!(found, Some(vec![lfs[1], lfs[3]]));
    // five single ones, then (0, 1) to (0, 4), (1, 2), (1, 3)
    assert_eq!(attempts, 5 + 4 + 2);

    let mut attempts: u64 = 0;
    assert_eq!(dfs_fix_section_fallback(&two, 0, &lfs, &mut attempts), None);
    assert_eq!(attempts, 5 + 10);
}
