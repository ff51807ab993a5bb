use loxam::oracle::{known_signature_for, known_trailer_for, new_validator_for};
use loxam::recover::{max_beam_width, RecoverError, DEFAULT_MAX_BEAM_WIDTH};
use loxam::text::{ends_with_ignoring_case, frame, parse_number, to_decimal};

#[test]
fn signatures_by_name() {
    assert_eq!(
        known_signature_for("Scan.PNG"),
        vec![
            0x89, 0x50, 0x4E, 0x47, 0x0D, 0x0A, 0x1A, 0x0A, 0, 0, 0, 0x0D, 0x49, 0x48, 0x44, 0x52
        ]
    );
    assert_eq!(known_signature_for("a.jpg"), vec![0xFF, 0xD8, 0xFF]);
    assert_eq!(known_signature_for("a.jPeG"), vec![0xFF, 0xD8, 0xFF]);
    assert_eq!(known_signature_for("a.pdf"), b"%PDF-".to_vec());
    assert_eq!(known_signature_for("a.gif"), b"GIF8".to_vec());
    assert_eq!(known_signature_for("a.zip"), b"PK\x03\x04".to_vec());
    assert_eq!(known_signature_for("a.jar"), b"PK\x03\x04".to_vec());
    assert_eq!(known_signature_for("a.tar.gz"), vec![0x1F, 0x8B]);
    assert_eq!(known_signature_for("a.bz2"), b"BZh".to_vec());
    assert_eq!(known_signature_for("a.7z"), vec![0x37, 0x7A, 0xBC, 0xAF, 0x27, 0x1C]);
    assert_eq!(known_signature_for("a.mp3"), b"ID3".to_vec());
    assert_eq!(known_signature_for("a.txt"), Vec::<u8>::new());
    assert_eq!(known_signature_for("png"), Vec::<u8>::new());
}

#[test]
fn trailers_by_name() {
    assert_eq!(
        known_trailer_for("a.png"),
        vec![0, 0, 0, 0, 0x49, 0x45, 0x4E, 0x44, 0xAE, 0x42, 0x60, 0x82]
    );
    assert_eq!(known_trailer_for("a.JPEG"), vec![0xFF, 0xD9]);
    assert_eq!(known_trailer_for("a.gif"), vec![0x3B]);
    assert_eq!(known_trailer_for("a.pdf"), Vec::<u8>::new());
}

#[test]
fn validator_for_png_alone() {
    assert!(new_validator_for("x.Png").is_some());
    assert!(new_validator_for("x.pngx").is_none());
    assert!(new_validator_for("x.gif").is_none());
}

#[test]
fn endings() {
    assert!(ends_with_ignoring_case("\u{e9}.TXT", ".txt"));
    assert!(!ends_with_ignoring_case("txt", ".txt"));
    assert!(ends_with_ignoring_case("any", ""));
}

#[test]
fn numbers_as_text() {
    assert_eq!(to_decimal(0), "0");
    assert_eq!(to_decimal(1_234_567_890), "1234567890");
    assert_eq!(to_decimal(u64::MAX), "18446744073709551615");
    assert_eq!(frame("a(", 42, ")"), "a(42)");
}

#[test]
fn text_as_numbers() {
    for s in [
        "0", "7", "007", "+15", "18446744073709551615", "18446744073709551616", "", "+", "-1", "1 ",
        " 1", "12a", "++1", "\u{661}", "99999999999999999999999",
    ] {
        assert_eq!(parse_number(s), s.parse::<usize>().ok(), "{}", s);
    }
}

#[test]
fn beam_width_setting() {
    assert_eq!(DEFAULT_MAX_BEAM_WIDTH, 2000);
    assert_eq!(max_beam_width(None), 2000);
    assert_eq!(max_beam_width(Some("10000")), 10000);
    assert_eq!(max_beam_width(Some("1")), 1);
    assert_eq!(max_beam_width(Some("0")), 2000);
    assert_eq!(max_beam_width(Some("wide")), 2000);
}

#[test]
fn errors_in_words() {
    assert_eq!(
        RecoverError::NotAZip.message(),
        "No CRLF sequences found and data is not a valid ZIP"
    );
    assert_eq!(
        RecoverError::Exhausted { crlfs: 12 }.message(),
        "Recovery failed. 12 CRLF positions, tried all strategies."
    );
}
