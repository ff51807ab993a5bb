use loxam::corrupt::{corrupt, find_standalone_lf};
use loxam::mask::{
    build_candidate, build_removed_prefix, cand_to_corr, corr_to_cand, mask_keeping,
};
use loxam::positions::{find, partition_point};
use loxam::zip_util::find_crlf_positions;

#[test]
fn carriage_returns_go_in_front_of_standalone_line_feeds() {
    assert_eq!(corrupt(b"a\nb\r\nc\n"), b"a\r\nb\r\nc\r\n".to_vec());
    assert_eq!(corrupt(b"\n\n"), b"\r\n\r\n".to_vec());
    assert_eq!(corrupt(b"\r\r\n"), b"\r\r\n".to_vec());
    assert_eq!(corrupt(b""), Vec::<u8>::new());
    assert_eq!(find_standalone_lf(b"a\nb\r\nc\n"), vec![1, 6]);
    assert_eq!(find_standalone_lf(b"\n\r\n\n"), vec![0, 3]);
}

#[test]
fn damage_is_complete_and_done_once() {
    let data = b"x\ny\r\nz\n\n\r";
    let damaged = corrupt(data);
    assert_eq!(damaged.len(), data.len() + find_standalone_lf(data).len());
    assert!(find_standalone_lf(&damaged).is_empty());
    assert_eq!(corrupt(&damaged), damaged);
    assert_eq!(find_crlf_positions(data).len(), 1);
    assert_eq!(find_crlf_positions(&damaged).len(), 1 + find_standalone_lf(data).len());
}

#[test]
fn original_is_among_the_candidates() {
    let data = b"a\nb\r\nc\nd";
    let damaged = corrupt(data);
    let crlf = find_crlf_positions(&damaged);
    assert_eq!(crlf, vec![1, 4, 7]);
    let mask = mask_keeping(crlf.len(), &[1]);
    assert_eq!(mask, vec![true, false, true]);
    assert_eq!(build_candidate(&damaged, &crlf, &mask), data.to_vec());
}

#[test]
fn removing_all_undoes_damage_without_natural_pairs() {
    let data = b"\n1\n22\r\r333\n\n";
    let damaged = corrupt(data);
    let crlf = find_crlf_positions(&damaged);
    let mask = mask_keeping(crlf.len(), &[]);
    assert_eq!(build_candidate(&damaged, &crlf, &mask), data.to_vec());
}

#[test]
fn kept_indices_out_of_range_are_ignored() {
    assert_eq!(mask_keeping(2, &[5, 0, 0]), vec![false, true]);
}

#[test]
fn positions_there_and_back() {
    let damaged = b"ab\r\nc\r\n\r\nd";
    let crlf = find_crlf_positions(damaged);
    let mask = vec![true, false, true];
    let prefix = build_removed_prefix(&mask);
    assert_eq!(prefix, vec![0, 1, 1, 2]);
    let cand = build_candidate(damaged, &crlf, &mask);
    assert_eq!(cand, b"ab\nc\r\n\nd".to_vec());
    let origins = [0usize, 1, 3, 4, 5, 6, 8, 9];
    for (at, &from) in origins.iter().enumerate() {
        assert_eq!(cand[at], damaged[from]);
        assert_eq!(corr_to_cand(from, &crlf, &prefix), at);
        assert_eq!(cand_to_corr(at, &crlf, &prefix), from);
    }
}

#[test]
fn search_for_a_position_gives_up_after_its_rounds() {
    // each round can at most halve what is still missing in an unbroken run of pairs,
    // so that a run that is long enough is not got through
    let n: usize = 1 << 21;
    let damaged: Vec<u8> = (0..2 * n).map(|i| if i % 2 == 0 { 13 } else { 10 }).collect();
    let crlf = find_crlf_positions(&damaged);
    let prefix = build_removed_prefix(&vec![true; n]);
    for at in [0usize, 1, 2, 3, 5, 1000, 65_537, 262_142, 262_143] {
        assert_eq!(cand_to_corr(at, &crlf, &prefix), 2 * at + 1);
    }
    assert!(cand_to_corr(n - 1, &crlf, &prefix) < 2 * n - 1);
}

#[test]
fn ranks_in_ascending_lists() {
    let s = [2usize, 5, 9];
    assert_eq!(partition_point(&s, 0), 0);
    assert_eq!(partition_point(&s, 5), 1);
    assert_eq!(partition_point(&s, 6), 2);
    assert_eq!(partition_point(&s, 10), 3);
    assert_eq!(find(&s, 5), Some(1));
    assert_eq!(find(&s, 6), None);
    assert_eq!(find(&[], 6), None);
}
