use checksums::manifest::{
    find_entry, has_entry, is_valid_digest, manifest_or_empty, trim_end_len, update_manifest,
    update_manifest_checked,
};

const D: &str = "aaaaaaaaaaaaaaaaaaaaaaaaaaaaaaaaaaaaaaaaaaaaaaaaaaaaaaaaaaaaaaaa";
const A: &str = "1111111111111111111111111111111111111111111111111111111111111111";
const B: &str = "2222222222222222222222222222222222222222222222222222222222222222";
const C: &str = "3333333333333333333333333333333333333333333333333333333333333333";

#[test]
fn append_to_empty_manifest() {
    let out = update_manifest(b"", D.as_bytes(), b"foo.txt");
    let expected = format!("\n{}  foo.txt\n", D);
    assert_eq!(out, expected.as_bytes());
    // the only non-blank line is the new entry
    let text = String::from_utf8(out).unwrap();
    let non_blank: Vec<&str> = text.lines().filter(|l| !l.is_empty()).collect();
    assert_eq!(non_blank, vec![format!("{}  foo.txt", D).as_str()]);
}

#[test]
fn replace_existing_entry() {
    let manifest = format!("{}  foo.txt\n{}  bar.txt\n", A, B);
    let out = update_manifest(manifest.as_bytes(), C.as_bytes(), b"foo.txt");
    let expected = format!("{}  foo.txt\n{}  bar.txt\n", C, B);
    assert_eq!(out, expected.as_bytes());
}

#[test]
fn append_leaves_existing_lines_unchanged() {
    let manifest = format!("{}  foo.txt\n{}  bar.txt\n", A, B);
    let out = update_manifest(manifest.as_bytes(), C.as_bytes(), b"baz.txt");
    let expected = format!(
        "{}  foo.txt\n{}  bar.txt\n{}  baz.txt\n",
        A, B, C
    );
    assert_eq!(out, expected.as_bytes());
    // exactly one line was added, every old line kept in order
    let before = String::from_utf8(manifest.into_bytes()).unwrap();
    let after = String::from_utf8(out).unwrap();
    let old_lines: Vec<&str> = before.lines().collect();
    let new_lines: Vec<&str> = after.lines().collect();
    assert_eq!(new_lines.len(), old_lines.len() + 1);
    assert_eq!(&new_lines[..old_lines.len()], &old_lines[..]);
}

#[test]
fn update_is_idempotent_on_replace() {
    let manifest = format!("{}  foo.txt\n{}  bar.txt\n", A, B);
    let once = update_manifest(manifest.as_bytes(), C.as_bytes(), b"foo.txt");
    let twice = update_manifest(&once, C.as_bytes(), b"foo.txt");
    assert_eq!(once, twice);
}

#[test]
fn update_is_idempotent_on_append() {
    let manifest = format!("{}  foo.txt\n", A);
    let once = update_manifest(manifest.as_bytes(), C.as_bytes(), b"baz.txt");
    let twice = update_manifest(&once, C.as_bytes(), b"baz.txt");
    assert_eq!(once, twice);
}

#[test]
fn missing_manifest_reads_as_empty() {
    let absent = manifest_or_empty(None);
    let empty = manifest_or_empty(Some(Vec::new()));
    assert_eq!(absent, empty);
    let from_absent = update_manifest(&absent, D.as_bytes(), b"foo.txt");
    let from_empty = update_manifest(&empty, D.as_bytes(), b"foo.txt");
    assert_eq!(from_absent, from_empty);
}

#[test]
fn manifest_or_empty_keeps_existing_text() {
    let kept = manifest_or_empty(Some(b"abc".to_vec()));
    assert_eq!(kept, b"abc".to_vec());
}

#[test]
fn checked_update_rejects_malformed_digest() {
    assert!(update_manifest_checked(b"", b"zz", b"foo.txt").is_none());
    let upper = "AAAAAAAAAAAAAAAAAAAAAAAAAAAAAAAAAAAAAAAAAAAAAAAAAAAAAAAAAAAAAAAA";
    assert!(update_manifest_checked(b"", upper.as_bytes(), b"foo.txt").is_none());
    let out = update_manifest_checked(b"", D.as_bytes(), b"foo.txt").unwrap();
    assert_eq!(out, format!("\n{}  foo.txt\n", D).into_bytes());
}

#[test]
fn digest_validation() {
    assert!(is_valid_digest(D.as_bytes()));
    assert!(!is_valid_digest(b""));
    assert!(!is_valid_digest(&D.as_bytes()[..63]));
    let mut bad = D.as_bytes().to_vec();
    bad[10] = b'g';
    assert!(!is_valid_digest(&bad));
}

#[test]
fn entry_lookup() {
    let manifest = format!("{}  foo.txt\n{}  bar.txt\n", A, B);
    assert!(has_entry(manifest.as_bytes(), b"foo.txt"));
    assert!(has_entry(manifest.as_bytes(), b"bar.txt"));
    assert!(!has_entry(manifest.as_bytes(), b"baz.txt"));
    // the path must match whole, as a literal, not as a pattern or suffix
    assert!(!has_entry(manifest.as_bytes(), b"oo.txt"));
    assert!(!has_entry(manifest.as_bytes(), b"f.(txt"));
    // the first line is 64 digest bytes, two spaces, "foo.txt" and a newline
    assert_eq!(find_entry(manifest.as_bytes(), b"foo.txt"), Some(0));
    assert_eq!(find_entry(manifest.as_bytes(), b"bar.txt"), Some(74));
}

#[test]
fn first_match_wins_on_duplicates() {
    let manifest = format!("{}  foo.txt\n{}  foo.txt\n", A, B);
    let out = update_manifest(manifest.as_bytes(), C.as_bytes(), b"foo.txt");
    let expected = format!("{}  foo.txt\n{}  foo.txt\n", C, B);
    assert_eq!(out, expected.as_bytes());
}

#[test]
fn append_trims_trailing_whitespace() {
    let manifest = format!("{}  foo.txt\n\n  \t\n", A);
    let out = update_manifest(manifest.as_bytes(), C.as_bytes(), b"bar.txt");
    let expected = format!("{}  foo.txt\n{}  bar.txt\n", A, C);
    assert_eq!(out, expected.as_bytes());
}

#[test]
fn trim_end_len_measures_trailing_whitespace() {
    assert_eq!(trim_end_len(b""), 0);
    assert_eq!(trim_end_len(b"abc"), 3);
    assert_eq!(trim_end_len(b"abc \t\r\n"), 3);
    assert_eq!(trim_end_len(b" \n "), 0);
}

#[test]
fn malformed_lines_are_not_entries() {
    // one space only, not two
    let manifest = format!("{} foo.txt\n", A);
    assert!(!has_entry(manifest.as_bytes(), b"foo.txt"));
    // digest too short
    let manifest = format!("{}  foo.txt\n", &A[..63]);
    assert!(!has_entry(manifest.as_bytes(), b"foo.txt"));
    // trailing text after the path
    let manifest = format!("{}  foo.txt extra\n", A);
    assert!(!has_entry(manifest.as_bytes(), b"foo.txt"));
}
