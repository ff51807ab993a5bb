use loxam::png::PngValidator;
use loxam::zip_util::crc32;

fn chunk(kind: &[u8; 4], data: &[u8]) -> Vec<u8> {
    let mut v: Vec<u8> = (data.len() as u32).to_be_bytes().to_vec();
    let mut body: Vec<u8> = kind.to_vec();
    body.extend_from_slice(data);
    v.extend_from_slice(&body);
    v.extend_from_slice(&crc32(&body).to_be_bytes());
    v
}

fn png() -> Vec<u8> {
    let mut v: Vec<u8> = vec![0x89, 0x50, 0x4E, 0x47, 0x0D, 0x0A, 0x1A, 0x0A];
    v.extend(chunk(b"IHDR", &[0, 0, 0, 64, 0, 0, 0, 64, 8, 2, 0, 0, 0]));
    v.extend(chunk(b"tEXt", b"Comment\0a\r\nb\n"));
    let mut state: u32 = 1;
    for size in [0usize, 1, 9000, 300] {
        let data: Vec<u8> = (0..size)
            .map(|_| {
                state = state.wrapping_mul(1664525).wrapping_add(1013904223);
                (state >> 24) as u8
            })
            .collect();
        v.extend(chunk(b"IDAT", &data));
    }
    v.extend(chunk(b"IEND", &[]));
    v
}

/// Feeds the bytes of a PNG through the validator in various chunk boundaries. The
/// validator must never reject a valid PNG.
#[test]
fn png_validator_accepts_real_png() {
    let data = png();

    // One-shot feed
    let mut v = PngValidator::new();
    assert!(v.feed(&data), "validator rejected full-PNG single feed");

    // Feed byte-by-byte (stresses all phase transitions)
    let mut v = PngValidator::new();
    for (i, &b) in data.iter().enumerate() {
        assert!(v.feed(&[b]), "byte-by-byte rejection at index {}", i);
    }

    // Feed with awkward chunk sizes (13 bytes at a time)
    let mut v = PngValidator::new();
    for chunk in data.chunks(13) {
        assert!(v.feed(chunk), "chunked feed rejection");
    }

    // Feed with random-like chunks
    let mut v = PngValidator::new();
    let mut i = 0;
    let sizes = [1, 2, 7, 37, 128, 1, 3, 4096, 7, 15];
    let mut si = 0;
    while i < data.len() {
        let take = sizes[si % sizes.len()].min(data.len() - i);
        assert!(v.feed(&data[i..i + take]), "random-chunk rejection at {}", i);
        i += take;
        si += 1;
    }
}

#[test]
fn png_validator_rejects_damage() {
    let data = png();
    // the signature, two chunks' contents, a chunk's checksum
    for at in [0usize, 7, 45, 9000, data.len() - 1] {
        let mut bad = data.clone();
        bad[at] ^= 0x40;
        let mut v = PngValidator::new();
        assert!(!v.feed(&bad), "accepted a change at {}", at);
    }
}

#[test]
fn png_validator_needs_the_carriage_return_of_the_signature() {
    let mut data = png();
    data.remove(4);
    let mut v = PngValidator::new();
    assert!(!v.feed(&data));
    let mut v = PngValidator::new();
    assert!(v.feed(&data[..4]));
    assert!(!v.feed_byte(data[4]));
}

#[test]
fn png_validator_takes_nothing_after_the_end() {
    let data = png();
    let mut v = PngValidator::new();
    assert!(v.feed(&data));
    assert!(!v.feed(&[0]));
    // before the end more may come
    let mut v = PngValidator::new();
    assert!(v.feed(&data[..data.len() - 1]));
    assert!(v.feed_byte(data[data.len() - 1]));
    assert!(!v.feed_byte(b'x'));
}

#[test]
fn png_validator_checks_lengths_and_types() {
    let head = png()[..8].to_vec();
    let mut v = PngValidator::new();
    assert!(v.feed(&head));
    assert!(v.feed(&[0x7F, 0xFF, 0xFF, 0xFF]));
    let mut v = PngValidator::new();
    assert!(v.feed(&head));
    assert!(!v.feed(&[0x80, 0, 0, 0]));
    let mut v = PngValidator::new();
    assert!(v.feed(&head));
    assert!(!v.feed(b"\0\0\0\x01ID1T"));
}
