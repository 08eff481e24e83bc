use checksums::hashing::{hash_bytes, hash_chunks, StreamHasher};
use checksums::hex::to_hex;
use checksums::manifest::is_valid_digest;

const EMPTY_SHA256: &str = "e3b0c44298fc1c149afbf4c8996fb92427ae41e4649b934ca495991b7852b855";
const ABC_SHA256: &str = "ba7816bf8f01cfea414140de5dae2223b00361a396177a9cb410ff61f20015ad";

#[test]
fn hex_rendering() {
    assert_eq!(to_hex(&[]), b"".to_vec());
    assert_eq!(to_hex(&[0x00, 0xff, 0x1a]), b"00ff1a".to_vec());
}

#[test]
fn known_digests() {
    assert_eq!(hash_bytes(b""), EMPTY_SHA256.as_bytes().to_vec());
    assert_eq!(hash_bytes(b"abc"), ABC_SHA256.as_bytes().to_vec());
}

#[test]
fn digests_are_well_formed() {
    assert!(is_valid_digest(&hash_bytes(b"")));
    assert!(is_valid_digest(&hash_bytes(b"some source text")));
}

#[test]
fn hashing_is_deterministic() {
    let content = b"the same byte content, hashed twice";
    let first = hash_bytes(content);
    let second = hash_bytes(content);
    assert_eq!(first, second);
    assert_eq!(first.len(), 64);
}

#[test]
fn streaming_agrees_with_whole_buffer() {
    // a large source of repeating bytes, hashed in one pass and in chunks
    let mut whole: Vec<u8> = Vec::with_capacity(50 * 1024 * 1024);
    let pattern: &[u8] = b"0123456789abcdef repeating pattern\n";
    while whole.len() < 50 * 1024 * 1024 {
        let take = pattern.len().min(50 * 1024 * 1024 - whole.len());
        whole.extend_from_slice(&pattern[..take]);
    }
    let one_pass = hash_bytes(&whole);

    let chunks: Vec<Vec<u8>> = whole.chunks(64 * 1024).map(|c| c.to_vec()).collect();
    let chunked = hash_chunks(&chunks);
    assert_eq!(one_pass, chunked);
}

#[test]
fn stream_hasher_matches_one_shot() {
    let mut h = StreamHasher::new();
    h.update(b"a");
    h.update(b"b");
    h.update(b"");
    h.update(b"c");
    let digest = h.finish();
    assert_eq!(to_hex(&digest), ABC_SHA256.as_bytes().to_vec());
}
