//! Checksums, the extension code, and the scan filters.

use d2fn::{checksum_bytes, ext_hash, extension_bytes, CompareMode, DefaultFilter, File, FileMetadata, NoFilter, ScanFilter};

fn meta() -> FileMetadata {
    FileMetadata { ino: 1, link_count: 1, size: 4, blocks: 1 }
}

#[test]
fn equal_content_equal_hashes() {
    let a: Vec<u8> = (0..=255u8).cycle().take(4096).collect();
    let b = a.clone();
    assert_eq!(checksum_bytes(&a, CompareMode::Full), checksum_bytes(&b, CompareMode::Full));
    assert_eq!(
        checksum_bytes(&a, CompareMode::Part(1000)),
        checksum_bytes(&b, CompareMode::Part(1000))
    );
}

#[test]
fn early_difference_changes_part_hash() {
    let a: Vec<u8> = vec![0; 4096];
    let mut b = a.clone();
    b[10] = 1; // differs inside the first 1000 bytes
    assert_ne!(
        checksum_bytes(&a, CompareMode::Part(1000)),
        checksum_bytes(&b, CompareMode::Part(1000))
    );
}

#[test]
fn late_difference_keeps_part_hash() {
    let a: Vec<u8> = vec![0; 4096];
    let mut b = a.clone();
    b[2000] = 1; // differs past the window
    assert_eq!(
        checksum_bytes(&a, CompareMode::Part(1000)),
        checksum_bytes(&b, CompareMode::Part(1000))
    );
    assert_ne!(checksum_bytes(&a, CompareMode::Full), checksum_bytes(&b, CompareMode::Full));
}

#[test]
fn checksum_matches_reference_digest() {
    // the library's words are the 32 digest bytes, little endian
    let data = b"checksum reference input".to_vec();
    let h = checksum_bytes(&data, CompareMode::Full);
    let d = blake3::hash(&data);
    let b = d.as_bytes();
    assert_eq!(h.w0, u64::from_le_bytes(b[0..8].try_into().unwrap()));
    assert_eq!(h.w1, u64::from_le_bytes(b[8..16].try_into().unwrap()));
    assert_eq!(h.w2, u64::from_le_bytes(b[16..24].try_into().unwrap()));
    assert_eq!(h.w3, u64::from_le_bytes(b[24..32].try_into().unwrap()));
}

#[test]
fn part_mode_hashes_prefix_only() {
    let data = b"0123456789".to_vec();
    let prefix = b"0123".to_vec();
    assert_eq!(
        checksum_bytes(&data, CompareMode::Part(4)),
        checksum_bytes(&prefix, CompareMode::Full)
    );
}

#[test]
fn ext_hash_is_case_insensitive() {
    assert_eq!(ext_hash(&b"a.PDF".to_vec()), ext_hash(&b"a.pdf".to_vec()));
}

#[test]
fn ext_hash_without_extension_is_zero() {
    assert_eq!(ext_hash(&b"a".to_vec()), 0);
    assert_eq!(ext_hash(&b"/t/noext".to_vec()), 0);
    assert_eq!(ext_hash(&b"/t/.hidden".to_vec()), 0);
}

#[test]
fn ext_hash_exact_values() {
    assert_eq!(ext_hash(&b"a.pdf".to_vec()), 465254);
    assert_eq!(ext_hash(&b"/dir.d/a.txt".to_vec()), 482932);
    assert_eq!(ext_hash(&b"x.7z".to_vec()), 506);
}

#[test]
fn extension_bytes_finds_the_last_dot() {
    assert_eq!(extension_bytes(&b"/t/a.tar.gz".to_vec()), Some(b"gz".to_vec()));
    assert_eq!(extension_bytes(&b"/t.d/plain".to_vec()), None);
    assert_eq!(extension_bytes(&b".bashrc".to_vec()), None);
}

#[test]
fn no_filter_accepts_everything() {
    let f = File { path: b"/t/anything.weird".to_vec(), metadata: meta() };
    assert!(NoFilter.filter(&f));
}

#[test]
fn default_filter_matches_whitelist() {
    let filter = DefaultFilter::new();
    assert_eq!(filter.ext_set().len(), 44);
    let yes = File { path: b"/t/movie.mkv".to_vec(), metadata: meta() };
    let upper = File { path: b"/t/DOC.PDF".to_vec(), metadata: meta() };
    let no = File { path: b"/t/code.rs".to_vec(), metadata: meta() };
    let none = File { path: b"/t/plain".to_vec(), metadata: meta() };
    assert!(filter.filter(&yes));
    assert!(filter.filter(&upper));
    assert!(!filter.filter(&no));
    assert!(!filter.filter(&none));
}
