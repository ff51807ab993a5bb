use loxam::recover::{RecoverError, RecoveryResult};
use loxam::selftest::{
    alphabet_char, count_diffs, count_natural_crlf, judge_run, random_text, validate_partial,
    RunOutcome, Tally, ALPHABET_LEN,
};
use loxam::zip_util::create_zip;

const CHARS: &[u8] =
    b"abcdefghijklmnopqrstuvwxyzABCDEFGHIJKLMNOPQRSTUVWXYZ0123456789 .,!?;:'\"()-\n\r\t";

#[test]
fn alphabet_in_order() {
    assert_eq!(CHARS.len(), ALPHABET_LEN);
    for (i, &c) in CHARS.iter().enumerate() {
        assert_eq!(alphabet_char(i), c);
    }
}

#[test]
fn random_text_keeps_to_the_alphabet() {
    let mut rng = rand::thread_rng();
    let text = random_text(&mut rng, 20_000);
    assert_eq!(text.len(), 20_000);
    assert!(text.iter().all(|c| CHARS.contains(c)));
    // all of it turns up
    assert!(CHARS.iter().all(|c| text.contains(c)));
    assert_eq!(random_text(&mut rng, 0), Vec::<u8>::new());
}

#[test]
fn natural_pairs_are_counted() {
    assert_eq!(count_natural_crlf(b"\r\n\r\r\n\n\r"), 2);
    assert_eq!(count_natural_crlf(b""), 0);
    assert_eq!(count_natural_crlf(b"\r"), 0);
}

#[test]
fn differences_are_counted() {
    assert_eq!(count_diffs(b"abc", b"abc"), 0);
    assert_eq!(count_diffs(b"abc", b"axc"), 1);
    assert_eq!(count_diffs(b"abc", b"axcde"), 3);
    assert_eq!(count_diffs(b"abcd", b""), 4);
}

fn result(data: &[u8]) -> Result<RecoveryResult, RecoverError> {
    Ok(RecoveryResult { data: data.to_vec(), strategy: String::from("s"), attempts: 0 })
}

#[test]
fn rounds_are_judged_and_tallied() {
    let one = create_zip(&[("a", b"1")]);
    let two = create_zip(&[("a", b"2")]);
    assert!(validate_partial(&one));
    assert!(!validate_partial(b"PK"));
    let outcomes = [
        judge_run(&one, &result(&one)),
        judge_run(&one, &result(&two)),
        judge_run(&one, &result(b"nothing")),
        judge_run(&one, &Err(RecoverError::NotAZip)),
    ];
    assert_eq!(
        outcomes,
        [RunOutcome::Perfect, RunOutcome::Valid, RunOutcome::Invalid, RunOutcome::Failed]
    );
    let mut tally = Tally::new();
    tally.note(RunOutcome::Perfect);
    tally.note(RunOutcome::Valid);
    assert!(tally.passed());
    let mut tally = Tally::new();
    assert!(tally.passed());
    for o in outcomes {
        tally.note(o);
    }
    assert!(!tally.passed());
    assert_eq!(tally, Tally { ok: 2, perfect: 1, fail: 2 });
}
