use mirror_sync::hashing::{compute_git_blob_sha, is_text_content, normalize_line_endings};
use sha1::Digest;

#[test]
fn empty_content_hashes_to_the_empty_blob() {
    assert_eq!(
        compute_git_blob_sha(b""),
        "e69de29bb2d1d6434b8b29ae775ad8c2e48c5391"
    );
}

#[test]
fn known_text_blob_hash() {
    assert_eq!(
        compute_git_blob_sha(b"hello\n"),
        "ce013625030ba8dba906f756967f9e9ca394464a"
    );
}

#[test]
fn crlf_and_cr_and_lf_hash_identically() {
    let lf = compute_git_blob_sha(b"a\nb\nc\n");
    let crlf = compute_git_blob_sha(b"a\r\nb\r\nc\r\n");
    let cr = compute_git_blob_sha(b"a\rb\rc\r");
    assert_eq!(lf, crlf);
    assert_eq!(lf, cr);
}

#[test]
fn text_hash_matches_digest_of_normalized_blob() {
    let expected = hex::encode(sha1::Sha1::digest(b"blob 3\0a\nb"));
    assert_eq!(compute_git_blob_sha(b"a\r\nb"), expected);
}

#[test]
fn binary_content_is_digested_unmodified() {
    let content = [0u8, 13, 10, 13, 2];
    let mut pre: Vec<u8> = b"blob 5\0".to_vec();
    pre.extend_from_slice(&content);
    let expected = hex::encode(sha1::Sha1::digest(&pre));
    assert_eq!(compute_git_blob_sha(&content), expected);
}

#[test]
fn normalize_rewrites_crlf_and_lone_cr() {
    let out = normalize_line_endings(b"a\r\nb\rc\n\r".to_vec());
    assert_eq!(out, b"a\nb\nc\n\n".to_vec());
}

#[test]
fn normalize_leaves_lf_only_content_unchanged() {
    let out = normalize_line_endings(b"a\nb\nc".to_vec());
    assert_eq!(out, b"a\nb\nc".to_vec());
}

#[test]
fn text_classification_checks_the_first_8_kib() {
    assert!(is_text_content(b"plain text"));
    assert!(!is_text_content(&[0u8]));

    let mut null_inside = vec![b'x'; 8192];
    null_inside[8191] = 0;
    assert!(!is_text_content(&null_inside));

    let mut null_beyond = vec![b'x'; 8193];
    null_beyond[8192] = 0;
    assert!(is_text_content(&null_beyond));
}

#[test]
fn null_past_the_window_means_no_normalization() {
    // Text check passes (null only at index 8192), so the CRLF is rewritten.
    let mut a = vec![b'x'; 8193];
    a[0] = b'\r';
    a[1] = b'\n';
    a[8192] = 0;
    let mut b = a.clone();
    b.remove(0); // starts with the bare LF instead
    assert_eq!(compute_git_blob_sha(&a), compute_git_blob_sha(&b));
}
